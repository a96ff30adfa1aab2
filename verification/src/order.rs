//! The order in which the server applies the inputs of a tick.

use vstd::prelude::*;

verus! {

/// Input `a` comes before input `b`: its sequence number is smaller, or the
/// numbers are equal and it arrived first.
pub open spec fn comes_before(sequences: Seq<u64>, a: int, b: int) -> bool {
    sequences[a] < sequences[b] || (sequences[a] == sequences[b] && a < b)
}

/// `order` lists each of the positions `0..sequences.len()` once, sorted by
/// sequence number, inputs with equal numbers in the order they arrived.
pub open spec fn is_stable_order(order: Seq<usize>, sequences: Seq<u64>) -> bool {
    &&& order.len() == sequences.len()
    &&& forall|t: int| 0 <= t < order.len() ==> (#[trigger] order[t]) < sequences.len()
    &&& forall|t: int, u: int| 0 <= t < u < order.len() ==> order[t] != order[u]
    &&& forall|j: usize| j < sequences.len() ==> #[trigger] order.contains(j)
    &&& forall|t: int, u: int|
        0 <= t < u < order.len() ==> comes_before(sequences, order[t] as int, order[u] as int)
}

/// The positions of the queued inputs, given their sequence numbers in
/// arrival order, in the order the server applies them: by sequence number,
/// ties in arrival order (a stable sort).
pub fn input_order(sequences: &Vec<u64>) -> (order: Vec<usize>)
    ensures
        is_stable_order(order@, sequences@),
{
    let n = sequences.len();
    let mut order: Vec<usize> = Vec::new();
    let mut i: usize = 0;
    while i < n
        invariant
            n == sequences@.len(),
            0 <= i <= n,
            order@.len() == i,
            forall|t: int| 0 <= t < order@.len() ==> (#[trigger] order@[t]) < i,
            forall|t: int, u: int| 0 <= t < u < order@.len() ==> order@[t] != order@[u],
            forall|j: usize| j < i ==> #[trigger] order@.contains(j),
            forall|t: int, u: int|
                0 <= t < u < order@.len() ==> comes_before(sequences@, order@[t] as int, order@[u] as int),
        decreases n - i,
    {
        let key = sequences[i];
        let len = order.len();
        let mut p: usize = 0;
        while p < len && sequences[order[p]] <= key
            invariant
                len == order@.len(),
                n == sequences@.len(),
                i < n,
                key == sequences@[i as int],
                forall|t: int| 0 <= t < order@.len() ==> (#[trigger] order@[t]) < i,
                0 <= p <= len,
                forall|q: int| 0 <= q < p ==> sequences@[order@[q] as int] <= key,
            decreases len - p,
        {
            p = p + 1;
        }
        let ghost before = order@;
        order.insert(p, i);
        proof {
            assert forall|t: int, u: int| 0 <= t < u < order@.len() implies comes_before(
                sequences@,
                order@[t] as int,
                order@[u] as int,
            ) by {
                if u < p {
                    assert(order@[t] == before[t] && order@[u] == before[u]);
                } else if u == p {
                    assert(order@[t] == before[t]);
                    assert(before[t] < i);
                } else if t < p {
                    assert(order@[t] == before[t] && order@[u] == before[u - 1]);
                } else if t == p {
                    assert(order@[u] == before[u - 1]);
                    assert(sequences@[before[p as int] as int] > key);
                    assert(comes_before(sequences@, before[p as int] as int, before[u - 1] as int)
                        || p == u - 1);
                } else {
                    assert(order@[t] == before[t - 1] && order@[u] == before[u - 1]);
                }
            }
            assert forall|j: usize| j <= i implies #[trigger] order@.contains(j) by {
                if j < i {
                    assert(before.contains(j));
                    let t = choose|t: int| 0 <= t < before.len() && before[t] == j;
                    if t < p {
                        assert(order@[t] == j);
                    } else {
                        assert(order@[t + 1] == j);
                    }
                } else {
                    assert(order@[p as int] == i);
                }
            }
            assert forall|t: int, u: int| 0 <= t < u < order@.len() implies order@[t] != order@[u] by {
                if t == p {
                    assert(order@[u] == before[u - 1]);
                } else if u == p {
                    assert(order@[t] == before[t]);
                } else if t < p && u < p {
                } else if t < p {
                    assert(order@[u] == before[u - 1]);
                } else {
                    assert(order@[t] == before[t - 1] && order@[u] == before[u - 1]);
                }
            }
        }
        i = i + 1;
    }
    order
}

/// There is only one stable order of a tick's inputs: any two orders that
/// list each input once, by sequence number, ties in arrival order, agree.
pub proof fn law_stable_order_unique(a: Seq<usize>, b: Seq<usize>, sequences: Seq<u64>)
    requires
        is_stable_order(a, sequences),
        is_stable_order(b, sequences),
    ensures
        a == b,
{
    assert forall|t: int| 0 <= t < a.len() implies a[t] == b[t] by {
        lemma_orders_agree_up_to(a, b, sequences, t);
    }
    assert(a =~= b);
}

proof fn lemma_orders_agree_up_to(a: Seq<usize>, b: Seq<usize>, sequences: Seq<u64>, t: int)
    requires
        is_stable_order(a, sequences),
        is_stable_order(b, sequences),
        0 <= t < a.len(),
    ensures
        forall|s: int| 0 <= s <= t ==> a[s] == b[s],
    decreases t,
{
    if t > 0 {
        lemma_orders_agree_up_to(a, b, sequences, t - 1);
    }
    let x = a[t];
    let y = b[t];
    if x != y {
        assert(a.contains(y)) by {
            assert(b[t] < sequences.len());
        }
        assert(b.contains(x)) by {
            assert(a[t] < sequences.len());
        }
        let u = choose|u: int| 0 <= u < a.len() && a[u] == y;
        let v = choose|v: int| 0 <= v < b.len() && b[v] == x;
        if u < t {
            assert(b[u] == y);
        }
        if v < t {
            assert(a[v] == x);
        }
        assert(u > t && v > t);
        assert(comes_before(sequences, x as int, y as int));
        assert(comes_before(sequences, y as int, x as int));
    }
}

} // verus!
