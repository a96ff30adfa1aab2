//! Choosing the scoreboard: the highest scores, best first.

use crate::protocol::ScoreEntry;
use vstd::prelude::*;

verus! {

/// Scores never increase along `board`.
pub open spec fn sorted_by_score_desc(board: Seq<ScoreEntry>) -> bool {
    forall|i: int, j: int| 0 <= i < j < board.len() ==> board[i].score >= board[j].score
}

/// No player appears twice in `entries`.
pub open spec fn distinct_players(entries: Seq<ScoreEntry>) -> bool {
    forall|i: int, j: int|
        0 <= i < j < entries.len() ==> entries[i].player_id != entries[j].player_id
}

/// Player `id` has a line on `board`.
pub open spec fn on_board(board: Seq<ScoreEntry>, id: u64) -> bool {
    exists|i: int| 0 <= i < board.len() && board[i].player_id == id
}

/// `board` is a scoreboard of at most `k` lines for `entries`: as many lines
/// as there are entries, up to `k`; best score first; each line one of the
/// entries and no player twice; and no entry left off scores higher than a
/// line on the board.  Which of several equal scores make the board is left
/// open.
pub open spec fn is_top_scores(board: Seq<ScoreEntry>, entries: Seq<ScoreEntry>, k: nat) -> bool {
    &&& board.len() == if entries.len() < k { entries.len() } else { k }
    &&& sorted_by_score_desc(board)
    &&& distinct_players(board)
    &&& forall|i: int| 0 <= i < board.len() ==> entries.contains(#[trigger] board[i])
    &&& forall|j: int, i: int|
        #![trigger entries[j], board[i]]
        0 <= j < entries.len() && 0 <= i < board.len() && !on_board(board, entries[j].player_id)
            ==> entries[j].score <= board[i].score
}

spec fn kept(origin: Seq<int>, j: int) -> bool {
    exists|t: int| 0 <= t < origin.len() && origin[t] == j
}

/// Picks the `k` best of `entries`, best first.  A new entry that only ties
/// with the last line of a full board does not displace it.
pub fn select_top_scores(entries: &Vec<ScoreEntry>, k: usize) -> (board: Vec<ScoreEntry>)
    requires
        distinct_players(entries@),
    ensures
        is_top_scores(board@, entries@, k as nat),
{
    let ghost s = entries@;
    let mut top: Vec<ScoreEntry> = Vec::new();
    let ghost mut origin: Seq<int> = Seq::empty();
    let n = entries.len();
    let mut i: usize = 0;
    while i < n
        invariant
            n == s.len(),
            s == entries@,
            distinct_players(s),
            0 <= i <= n,
            top@.len() == if (i as int) < (k as int) { i as int } else { k as int },
            origin.len() == top@.len(),
            forall|t: int| 0 <= t < origin.len() ==> 0 <= #[trigger] origin[t] < i,
            forall|t: int| 0 <= t < origin.len() ==> top@[t] == s[#[trigger] origin[t]],
            forall|t: int, u: int| 0 <= t < u < origin.len() ==> origin[t] != origin[u],
            sorted_by_score_desc(top@),
            i <= k ==> forall|j: int| 0 <= j < i ==> kept(origin, j),
            forall|j: int|
                0 <= j < i ==> kept(origin, j) || top@.len() == 0 || s[j].score
                    <= top@[top@.len() - 1].score,
        decreases n - i,
    {
        let entry = entries[i].duplicate();
        let len = top.len();
        let mut p: usize = 0;
        while p < len && top[p].score >= entry.score
            invariant
                len == top@.len(),
                0 <= p <= len,
                i < s.len(),
                entry == s[i as int],
                forall|q: int| 0 <= q < p ==> top@[q].score >= entry.score,
            decreases len - p,
        {
            p = p + 1;
        }
        let ghost old_top = top@;
        let ghost old_origin = origin;
        top.insert(p, entry);
        proof {
            origin = origin.insert(p as int, i as int);
            assert forall|a: int, b: int| 0 <= a < b < top@.len() implies top@[a].score
                >= top@[b].score by {
                if b < p {
                } else if b == p {
                } else if a < p {
                    assert(old_top[a].score >= s[i as int].score);
                    assert(old_top[p as int].score < s[i as int].score);
                } else if a == p {
                    assert(old_top[p as int].score < s[i as int].score);
                    assert(old_top[p as int].score >= old_top[b - 1].score);
                } else {
                    assert(old_top[a - 1].score >= old_top[b - 1].score);
                }
            }
            assert forall|j: int| 0 <= j < i && kept(old_origin, j) implies kept(origin, j) by {
                {
                    let t = choose|t: int| 0 <= t < old_origin.len() && old_origin[t] == j;
                    if t < p {
                        assert(origin[t] == j);
                    } else {
                        assert(origin[t + 1] == j);
                    }
                }
            }
            assert(origin[p as int] == i as int);
            assert(kept(origin, i as int));
        }
        if top.len() > k {
            let ghost before_pop = top@;
            let ghost origin_before_pop = origin;
            let dropped = top.pop();
            proof {
                let last = before_pop.len() - 1;
                let dropped_origin = origin_before_pop[last];
                origin = origin.drop_last();
                assert(len == k);
                // The smallest line is dropped; the new last line is no
                // smaller than the old one, so earlier exclusions still hold.
                if k > 0 {
                    assert(top@[top@.len() - 1].score >= old_top[len - 1].score) by {
                        if p < len {
                            if (p as int) < (len as int) - 1 {
                                assert(top@[len - 1] == old_top[len - 2]);
                            } else {
                                assert(top@[len - 1] == s[i as int]);
                                assert(old_top[p as int].score < s[i as int].score);
                            }
                        } else {
                            assert(top@[len - 1] == old_top[len - 1]);
                        }
                    }
                }
                assert forall|j: int| 0 <= j <= i implies kept(origin, j) || top@.len() == 0
                    || s[j].score <= top@[top@.len() - 1].score by {
                    if kept(origin_before_pop, j) {
                        let t = choose|t: int|
                            0 <= t < origin_before_pop.len() && origin_before_pop[t] == j;
                        if t < last {
                            assert(origin[t] == j);
                        } else if top@.len() > 0 {
                            assert(before_pop[last].score <= before_pop[last - 1].score);
                            assert(s[j] == before_pop[last]);
                        }
                    } else if j < i {
                        assert(!kept(old_origin, j));
                    } else {
                        assert(kept(origin_before_pop, i as int));
                    }
                }
            }
        } else {
            proof {
                assert forall|j: int| 0 <= j <= i implies kept(origin, j) by {
                    if j < i {
                        assert(kept(old_origin, j));
                    }
                }
                assert forall|j: int| 0 <= j <= i implies kept(origin, j) || top@.len() == 0
                    || s[j].score <= top@[top@.len() - 1].score by {
                    // The board was not full, so nothing was ever left off.
                    if j < i {
                        assert(kept(old_origin, j));
                    }
                }
            }
        }
        i = i + 1;
    }
    proof {
        assert forall|t: int| 0 <= t < top@.len() implies entries@.contains(#[trigger] top@[t]) by {
            assert(entries@[origin[t]] == top@[t]);
        }
        assert forall|a: int, b: int| 0 <= a < b < top@.len() implies top@[a].player_id
            != top@[b].player_id by {
            assert(origin[a] != origin[b]);
            if origin[a] < origin[b] {
            } else {
            }
        }
        assert forall|j: int, t: int|
            #![trigger s[j], top@[t]]
            0 <= j < s.len() && 0 <= t < top@.len() && !on_board(top@, s[j].player_id) implies s[j].score
            <= top@[t].score by {
            if kept(origin, j) {
                let u = choose|u: int| 0 <= u < origin.len() && origin[u] == j;
                assert(top@[u].player_id == s[j].player_id);
            } else {
                assert(top@[t].score >= top@[top@.len() - 1].score);
            }
        }
    }
    top
}

} // verus!
