//! Time-stamped histories: the server's record of past player positions,
//! used to judge shots at the time the shooter saw, and the client's buffer
//! of recent snapshots, rendered a little in the past.  Both answer "which
//! recorded moments does this time fall between"; blending the positions
//! of those moments is floating point and left to the caller.

use crate::clock::{instant_now, nanos_elapsed_since, now_nanos, wall_nanos, MAX_DURATION_NANOS};
use crate::config::{INTERPOLATION_DELAY_NANOS, INTERPOLATION_MARGIN_NANOS, LAG_COMPENSATION_HISTORY_NANOS};
use std::collections::VecDeque;
use std::time::{Instant, SystemTime};
use vstd::prelude::*;

verus! {

broadcast use vstd::std_specs::vecdeque::group_vec_dequeue_axioms;

/// Which recorded moments to show for a time.
#[derive(Clone, Copy, Debug, PartialEq, Eq, Structural)]
pub enum Frame {
    /// Nothing is recorded.
    Empty,
    /// Show the moment at this position as it is.
    At(usize),
    /// Blend the moments at `from` and `to`: the time lies `elapsed_nanos`
    /// after `from`, and `to` lies `total_nanos` after `from`.
    Between { from: usize, to: usize, elapsed_nanos: i128, total_nanos: i128 },
}

/// A time no further from the Unix epoch than a duration can reach.
pub open spec fn representable(t: int) -> bool {
    -(MAX_DURATION_NANOS as int) <= t <= MAX_DURATION_NANOS as int
}

// ===== Server: lag compensation ===== //

/// Where the players were at one tick.
pub struct LagCompensatorSnapshot<P> {
    /// When the tick was recorded, in nanoseconds from the Unix epoch.
    pub time: i128,
    pub tick: u64,
    pub player_positions: P,
}

/// The recorded history drops, from its oldest end, every snapshot recorded
/// before `cutoff`, stopping at the first one that is not.
pub open spec fn drop_older<P>(snapshots: Seq<LagCompensatorSnapshot<P>>, cutoff: int) -> Seq<LagCompensatorSnapshot<P>>
    decreases snapshots.len(),
{
    if snapshots.len() > 0 && snapshots[0].time < cutoff {
        drop_older(snapshots.subrange(1, snapshots.len() as int), cutoff)
    } else {
        snapshots
    }
}

/// `split` is a place where `target` fits among the times of `snapshots`:
/// the snapshot before it is older than `target` and the one at it is not.
/// In a history in time order there is exactly one such place.
pub open spec fn is_split<P>(snapshots: Seq<LagCompensatorSnapshot<P>>, target: int, split: int) -> bool {
    &&& 0 <= split <= snapshots.len()
    &&& split == 0 || snapshots[split - 1].time < target
    &&& split == snapshots.len() || snapshots[split].time >= target
}

/// The frame for `target` given the place `split` where it fits: with fewer
/// than two snapshots, the newest, if any; a snapshot recorded exactly at
/// `target`; the oldest or the newest when `target` lies outside the
/// history; otherwise the two snapshots around it.
pub open spec fn rewind_frame<P>(snapshots: Seq<LagCompensatorSnapshot<P>>, target: int, split: int) -> Frame {
    let n = snapshots.len();
    if n == 0 {
        Frame::Empty
    } else if n < 2 {
        Frame::At((n - 1) as usize)
    } else if split < n && snapshots[split].time == target {
        Frame::At(split as usize)
    } else if split == 0 {
        Frame::At(0)
    } else if split == n {
        Frame::At((n - 1) as usize)
    } else {
        Frame::Between {
            from: (split - 1) as usize,
            to: split as usize,
            elapsed_nanos: (target - snapshots[split - 1].time) as i128,
            total_nanos: (snapshots[split].time - snapshots[split - 1].time) as i128,
        }
    }
}

/// The recorded times never decrease along `snapshots`.
pub open spec fn in_time_order<P>(snapshots: Seq<LagCompensatorSnapshot<P>>) -> bool {
    forall|i: int, j: int| 0 <= i < j < snapshots.len() ==> snapshots[i].time <= snapshots[j].time
}

/// The server's history of player positions over the last few seconds.
pub struct LagCompensator<P> {
    snapshots: VecDeque<LagCompensatorSnapshot<P>>,
}

impl<P> LagCompensator<P> {
    /// The recorded snapshots, oldest first.
    pub closed spec fn history(&self) -> Seq<LagCompensatorSnapshot<P>> {
        self.snapshots@
    }

    /// Every recorded time is representable.
    pub open spec fn wf(&self) -> bool {
        forall|i: int| 0 <= i < self.history().len() ==> representable(#[trigger] self.history()[i].time as int)
    }

    /// An empty history.
    pub fn new() -> (lag: Self)
        ensures
            lag.history() == Seq::<LagCompensatorSnapshot<P>>::empty(),
            lag.wf(),
    {
        LagCompensator { snapshots: VecDeque::new() }
    }

    /// The number of recorded snapshots.
    pub fn len(&self) -> (n: usize)
        ensures
            n == self.history().len(),
    {
        self.snapshots.len()
    }

    /// The snapshot at position `i`, oldest first.
    pub fn snapshot(&self, i: usize) -> (snapshot: &LagCompensatorSnapshot<P>)
        requires
            i < self.history().len(),
        ensures
            *snapshot == self.history()[i as int],
    {
        &self.snapshots[i]
    }

    /// Records the positions of tick `tick`, stamped with the time the wall
    /// clock reads, then forgets what is older than the history length,
    /// measured from a second reading of the wall clock.
    pub fn record_tick(&mut self, tick: u64, player_positions: P)
        requires
            old(self).wf(),
        ensures
            final(self).wf(),
            exists|recorded_at: i128, now: i128, stamp: SystemTime, reading: SystemTime| {
                &&& recorded_at == wall_nanos(stamp)
                &&& now == wall_nanos(reading)
                &&& representable(recorded_at as int)
                &&& representable(now as int)
                &&& final(self).history() == drop_older(
                    old(self).history().push(LagCompensatorSnapshot { time: recorded_at, tick, player_positions }),
                    now - LAG_COMPENSATION_HISTORY_NANOS,
                )
            },
    {
        let recorded_at = now_nanos();
        let now = now_nanos();
        let ghost positions = player_positions;
        self.record_tick_at(tick, player_positions, recorded_at, now);
        proof {
            let stamp = choose|t: SystemTime| recorded_at == wall_nanos(t);
            let reading = choose|t: SystemTime| now == wall_nanos(t);
            assert({
                &&& recorded_at == wall_nanos(stamp)
                &&& now == wall_nanos(reading)
                &&& representable(recorded_at as int)
                &&& representable(now as int)
                &&& self.history() == drop_older(
                    old(self).history().push(LagCompensatorSnapshot { time: recorded_at, tick, player_positions: positions }),
                    now - LAG_COMPENSATION_HISTORY_NANOS,
                )
            });
        }
    }

    /// Records the positions of tick `tick` as of `recorded_at`, then drops,
    /// from the oldest end, the snapshots recorded more than the history
    /// length before `now`.
    pub fn record_tick_at(&mut self, tick: u64, player_positions: P, recorded_at: i128, now: i128)
        requires
            old(self).wf(),
            representable(recorded_at as int),
            representable(now as int),
        ensures
            final(self).wf(),
            final(self).history() == drop_older(
                old(self).history().push(LagCompensatorSnapshot { time: recorded_at, tick, player_positions }),
                now - LAG_COMPENSATION_HISTORY_NANOS,
            ),
    {
        let ghost before_push = self.snapshots@;
        self.snapshots.push_back(LagCompensatorSnapshot { time: recorded_at, tick, player_positions });
        let ghost pushed = self.snapshots@;
        proof {
            assert forall|i: int| 0 <= i < pushed.len() implies representable(#[trigger] pushed[i].time as int) by {
                if i < before_push.len() {
                    assert(pushed[i] == before_push[i]);
                    assert(representable(old(self).history()[i].time as int));
                }
            }
        }
        let cutoff: i128 = now - LAG_COMPENSATION_HISTORY_NANOS as i128;
        while self.snapshots.len() > 0 && self.snapshots[0].time < cutoff
            invariant
                drop_older(self.snapshots@, cutoff as int) == drop_older(pushed, cutoff as int),
                forall|i: int| 0 <= i < self.snapshots@.len() ==> representable(#[trigger] self.snapshots@[i].time as int),
            decreases self.snapshots@.len(),
        {
            let ghost before = self.snapshots@;
            self.snapshots.pop_front();
            proof {
                assert forall|i: int| 0 <= i < self.snapshots@.len() implies representable(#[trigger] self.snapshots@[i].time as int) by {
                    assert(self.snapshots@[i] == before[i + 1]);
                }
            }
        }
    }

    /// Where `target` fits among the recorded times: a place `split` with
    /// the snapshot before it older than `target` and the one at it not.
    fn split_point(&self, target: i128) -> (split: usize)
        ensures
            is_split(self.history(), target as int, split as int),
    {
        let n = self.snapshots.len();
        let mut lo: usize = 0;
        let mut hi: usize = n;
        while lo < hi
            invariant
                n == self.snapshots@.len(),
                0 <= lo <= hi <= n,
                lo == 0 || self.snapshots@[lo - 1].time < target,
                hi == n || self.snapshots@[hi as int].time >= target,
            decreases hi - lo,
        {
            let mid = lo + (hi - lo) / 2;
            if self.snapshots[mid].time < target {
                lo = mid + 1;
            } else {
                hi = mid;
            }
        }
        lo
    }

    /// Which recorded moments to use for the positions at `target`: the
    /// frame for a place where `target` fits among the recorded times (see
    /// `rewind_frame`).  In a history in time order that place is unique.
    pub fn rewind_to_time(&self, target: i128) -> (frame: Frame)
        requires
            self.wf(),
            representable(target as int),
        ensures
            self.history().len() < 2 ==> frame == rewind_frame(self.history(), target as int, 0),
            self.history().len() >= 2 ==> exists|split: int|
                is_split(self.history(), target as int, split) && frame == rewind_frame(
                    self.history(),
                    target as int,
                    split,
                ),
    {
        let n = self.snapshots.len();
        if n < 2 {
            if n == 0 {
                return Frame::Empty;
            }
            return Frame::At(n - 1);
        }
        let split = self.split_point(target);
        let frame = if split < n && self.snapshots[split].time == target {
            Frame::At(split)
        } else if split == 0 {
            Frame::At(0)
        } else if split >= n {
            Frame::At(n - 1)
        } else {
            let prev = &self.snapshots[split - 1];
            let next = &self.snapshots[split];
            Frame::Between {
                from: split - 1,
                to: split,
                elapsed_nanos: target - prev.time,
                total_nanos: next.time - prev.time,
            }
        };
        proof {
            assert(is_split(self.history(), target as int, split as int));
        }
        frame
    }
}

// ===== Client: entity interpolation ===== //

/// Whether `render` lies between the moments at `i` and `i + 1`.
pub open spec fn brackets<S>(snapshots: Seq<(i128, S)>, i: int, render: int) -> bool {
    snapshots[i].0 <= render && render <= snapshots[i + 1].0
}

/// The buffered snapshots drop, from the oldest end, every one older than
/// the interpolation delay plus its margin at `now`, stopping at the first
/// one that is not.
pub open spec fn drop_stale<S>(snapshots: Seq<(i128, S)>, now: int) -> Seq<(i128, S)>
    decreases snapshots.len(),
{
    if snapshots.len() > 0 && now - snapshots[0].0 > INTERPOLATION_DELAY_NANOS + INTERPOLATION_MARGIN_NANOS {
        drop_stale(snapshots.subrange(1, snapshots.len() as int), now)
    } else {
        snapshots
    }
}

/// The frame to render at `now`: with fewer than two snapshots, the newest,
/// if any; otherwise the first two neighbouring snapshots around the render
/// time (`now` less the interpolation delay), or the newest when there are
/// none.
pub open spec fn interpolation_frame<S>(snapshots: Seq<(i128, S)>, now: int) -> Frame {
    let n = snapshots.len();
    let render = now - INTERPOLATION_DELAY_NANOS;
    if n == 0 {
        Frame::Empty
    } else if n < 2 {
        Frame::At((n - 1) as usize)
    } else if exists|i: int| 0 <= i < n - 1 && brackets(snapshots, i, render) {
        let i = choose|i: int|
            0 <= i < n - 1 && brackets(snapshots, i, render) && forall|j: int| 0 <= j < i ==> !brackets(snapshots, j, render);
        Frame::Between {
            from: i as usize,
            to: (i + 1) as usize,
            elapsed_nanos: (render - snapshots[i].0) as i128,
            total_nanos: (snapshots[i + 1].0 - snapshots[i].0) as i128,
        }
    } else {
        Frame::At((n - 1) as usize)
    }
}

/// The client's recent snapshots, each stamped with when it arrived.
pub struct InterpolationBuffer<S> {
    origin: Instant,
    snapshots: VecDeque<(i128, S)>,
}

impl<S> InterpolationBuffer<S> {
    /// The buffered snapshots, oldest first, each with its arrival time in
    /// nanoseconds since the buffer was made.
    pub closed spec fn buffered(&self) -> Seq<(i128, S)> {
        self.snapshots@
    }

    /// Every arrival time lies between zero and the longest duration.
    pub open spec fn wf(&self) -> bool {
        forall|i: int| 0 <= i < self.buffered().len() ==> 0 <= #[trigger] self.buffered()[i].0 <= MAX_DURATION_NANOS
    }

    /// An empty buffer whose clock starts now.
    pub fn new() -> (buffer: Self)
        ensures
            buffer.buffered() == Seq::<(i128, S)>::empty(),
            buffer.wf(),
    {
        InterpolationBuffer { origin: instant_now(), snapshots: VecDeque::new() }
    }

    /// Forgets every snapshot.
    pub fn clear(&mut self)
        ensures
            final(self).buffered() == Seq::<(i128, S)>::empty(),
            final(self).wf(),
    {
        self.snapshots.clear();
    }

    /// The number of buffered snapshots.
    pub fn len(&self) -> (n: usize)
        ensures
            n == self.buffered().len(),
    {
        self.snapshots.len()
    }

    /// The snapshot at position `i`, oldest first.
    pub fn snapshot(&self, i: usize) -> (snapshot: &S)
        requires
            i < self.buffered().len(),
        ensures
            *snapshot == self.buffered()[i as int].1,
    {
        &self.snapshots[i].1
    }

    /// Nanoseconds since the buffer was made.
    fn now(&self) -> (now: i128)
        ensures
            0 <= now <= MAX_DURATION_NANOS,
    {
        nanos_elapsed_since(&self.origin) as i128
    }

    /// Buffers `snapshot` as arriving now and forgets the snapshots too old
    /// to be rendered.
    pub fn push_snapshot(&mut self, snapshot: S)
        requires
            old(self).wf(),
        ensures
            final(self).wf(),
            exists|now: i128|
                0 <= now <= MAX_DURATION_NANOS && final(self).buffered() == drop_stale(
                    old(self).buffered().push((now, snapshot)),
                    now as int,
                ),
    {
        let now = self.now();
        let ghost pushed = snapshot;
        self.push_snapshot_at(snapshot, now);
        proof {
            assert(0 <= now <= MAX_DURATION_NANOS && self.buffered() == drop_stale(old(self).buffered().push((now, pushed)), now as int));
        }
    }

    /// Buffers `snapshot` as arriving at `now`, then drops, from the oldest
    /// end, the snapshots older than the interpolation delay plus its margin.
    pub fn push_snapshot_at(&mut self, snapshot: S, now: i128)
        requires
            old(self).wf(),
            0 <= now <= MAX_DURATION_NANOS,
        ensures
            final(self).wf(),
            final(self).buffered() == drop_stale(old(self).buffered().push((now, snapshot)), now as int),
    {
        let ghost before_push = self.snapshots@;
        self.snapshots.push_back((now, snapshot));
        let ghost pushed = self.snapshots@;
        proof {
            assert forall|i: int| 0 <= i < pushed.len() implies 0 <= #[trigger] pushed[i].0 <= MAX_DURATION_NANOS by {
                if i < before_push.len() {
                    assert(pushed[i] == before_push[i]);
                    assert(0 <= old(self).buffered()[i].0 <= MAX_DURATION_NANOS);
                }
            }
        }
        let limit: i128 = (INTERPOLATION_DELAY_NANOS + INTERPOLATION_MARGIN_NANOS) as i128;
        while self.snapshots.len() > 0 && now - self.snapshots[0].0 > limit
            invariant
                drop_stale(self.snapshots@, now as int) == drop_stale(pushed, now as int),
                limit == INTERPOLATION_DELAY_NANOS + INTERPOLATION_MARGIN_NANOS,
                0 <= now <= MAX_DURATION_NANOS,
                forall|i: int| 0 <= i < self.snapshots@.len() ==> 0 <= #[trigger] self.snapshots@[i].0 <= MAX_DURATION_NANOS,
            decreases self.snapshots@.len(),
        {
            let ghost before = self.snapshots@;
            self.snapshots.pop_front();
            proof {
                assert forall|i: int| 0 <= i < self.snapshots@.len() implies 0 <= #[trigger] self.snapshots@[i].0 <= MAX_DURATION_NANOS by {
                    assert(self.snapshots@[i] == before[i + 1]);
                }
            }
        }
    }

    /// Which buffered snapshots to render now (see `interpolation_frame`).
    pub fn interpolate(&self) -> (frame: Frame)
        requires
            self.wf(),
        ensures
            exists|now: i128| 0 <= now <= MAX_DURATION_NANOS && frame == interpolation_frame(self.buffered(), now as int),
    {
        let now = self.now();
        let frame = self.interpolate_at(now);
        proof {
            assert(0 <= now <= MAX_DURATION_NANOS && frame == interpolation_frame(self.buffered(), now as int));
        }
        frame
    }

    /// Which buffered snapshots to render at `now`: the first neighbouring
    /// pair around the render time, or the newest snapshot.
    pub fn interpolate_at(&self, now: i128) -> (frame: Frame)
        requires
            self.wf(),
            0 <= now <= MAX_DURATION_NANOS,
        ensures
            frame == interpolation_frame(self.buffered(), now as int),
    {
        let n = self.snapshots.len();
        if n < 2 {
            if n == 0 {
                return Frame::Empty;
            }
            return Frame::At(n - 1);
        }
        let render: i128 = now - INTERPOLATION_DELAY_NANOS as i128;
        let ghost s = self.snapshots@;
        let mut i: usize = 0;
        while i < n - 1
            invariant
                n == s.len(),
                s == self.snapshots@,
                n >= 2,
                0 <= i <= n - 1,
                render == now - INTERPOLATION_DELAY_NANOS,
                0 <= now <= MAX_DURATION_NANOS,
                self.wf(),
                forall|j: int| 0 <= j < i ==> !brackets(s, j, render as int),
            decreases n - 1 - i,
        {
            let t1 = self.snapshots[i].0;
            let t2 = self.snapshots[i + 1].0;
            if t1 <= render && render <= t2 {
                proof {
                    assert(brackets(s, i as int, render as int));
                    let c = choose|c: int|
                        0 <= c < n - 1 && brackets(s, c, render as int) && forall|j: int| 0 <= j < c ==> !brackets(s, j, render as int);
                    if c < i {
                    } else if c > i {
                        assert(!brackets(s, i as int, render as int));
                    }
                }
                return Frame::Between { from: i, to: i + 1, elapsed_nanos: render - t1, total_nanos: t2 - t1 };
            }
            i = i + 1;
        }
        Frame::At(n - 1)
    }
}

/// In a history in time order a time fits in exactly one place, so the
/// frame `rewind_to_time` picks is determined.
pub proof fn law_split_unique<P>(snapshots: Seq<LagCompensatorSnapshot<P>>, target: int, a: int, b: int)
    requires
        in_time_order(snapshots),
        is_split(snapshots, target, a),
        is_split(snapshots, target, b),
    ensures
        a == b,
{
    if a < b {
        assert(snapshots[a].time <= snapshots[b - 1].time);
    } else if b < a {
        assert(snapshots[b].time <= snapshots[a - 1].time);
    }
}

/// In a history in time order, what remains after dropping the snapshots
/// older than `cutoff` is all no older than `cutoff`, in time order, and a
/// tail of the history.
pub proof fn law_history_window<P>(snapshots: Seq<LagCompensatorSnapshot<P>>, cutoff: int)
    requires
        in_time_order(snapshots),
    ensures
        forall|i: int| 0 <= i < drop_older(snapshots, cutoff).len() ==> (#[trigger] drop_older(snapshots, cutoff)[i]).time >= cutoff,
        in_time_order(drop_older(snapshots, cutoff)),
        exists|k: int| 0 <= k <= snapshots.len() && drop_older(snapshots, cutoff) == snapshots.subrange(k, snapshots.len() as int),
    decreases snapshots.len(),
{
    if snapshots.len() > 0 && snapshots[0].time < cutoff {
        let rest = snapshots.subrange(1, snapshots.len() as int);
        law_history_window(rest, cutoff);
        let k = choose|k: int| 0 <= k <= rest.len() && drop_older(rest, cutoff) == rest.subrange(k, rest.len() as int);
        assert(rest.subrange(k, rest.len() as int) =~= snapshots.subrange(k + 1, snapshots.len() as int));
    } else {
        if snapshots.len() > 0 {
            assert forall|i: int| 0 <= i < snapshots.len() implies (#[trigger] snapshots[i]).time >= cutoff by {
                assert(snapshots[0].time <= snapshots[i].time);
            }
        }
        assert(snapshots.subrange(0, snapshots.len() as int) =~= snapshots);
    }
}

/// The newest end of a history survives the cutoff when it is recorded no
/// earlier than the cutoff.
proof fn lemma_newest_survives<P>(snapshots: Seq<LagCompensatorSnapshot<P>>, cutoff: int)
    requires
        snapshots.len() > 0,
        snapshots.last().time >= cutoff,
    ensures
        drop_older(snapshots, cutoff).len() > 0,
        drop_older(snapshots, cutoff).last() == snapshots.last(),
    decreases snapshots.len(),
{
    if snapshots[0].time < cutoff {
        let rest = snapshots.subrange(1, snapshots.len() as int);
        assert(rest.last() == snapshots.last());
        lemma_newest_survives(rest, cutoff);
    }
}

/// A snapshot stamped no earlier than anything already recorded, and no
/// more than the history length before the time the cutoff is measured
/// from, is kept as the newest; everything kept is in time order and no
/// older than the history length.
pub proof fn law_recorded_snapshot_kept<P>(history: Seq<LagCompensatorSnapshot<P>>, fresh: LagCompensatorSnapshot<P>, now: int)
    requires
        in_time_order(history),
        forall|i: int| 0 <= i < history.len() ==> (#[trigger] history[i]).time <= fresh.time,
        now - LAG_COMPENSATION_HISTORY_NANOS <= fresh.time,
    ensures
        drop_older(history.push(fresh), now - LAG_COMPENSATION_HISTORY_NANOS).len() > 0,
        drop_older(history.push(fresh), now - LAG_COMPENSATION_HISTORY_NANOS).last() == fresh,
        in_time_order(drop_older(history.push(fresh), now - LAG_COMPENSATION_HISTORY_NANOS)),
        forall|i: int| 0 <= i < drop_older(history.push(fresh), now - LAG_COMPENSATION_HISTORY_NANOS).len()
            ==> (#[trigger] drop_older(history.push(fresh), now - LAG_COMPENSATION_HISTORY_NANOS)[i]).time
                >= now - LAG_COMPENSATION_HISTORY_NANOS,
{
    let pushed = history.push(fresh);
    assert(in_time_order(pushed)) by {
        assert forall|i: int, j: int| 0 <= i < j < pushed.len() implies pushed[i].time <= pushed[j].time by {
            if j == history.len() {
                assert(history[i].time <= fresh.time);
            } else {
                assert(history[i].time <= history[j].time);
            }
        }
    }
    assert(pushed.last() == fresh);
    lemma_newest_survives(pushed, now - LAG_COMPENSATION_HISTORY_NANOS);
    law_history_window(pushed, now - LAG_COMPENSATION_HISTORY_NANOS);
}

/// In a history whose recorded times strictly increase, rewinding to the
/// time a snapshot was recorded gives that snapshot as it is.
pub proof fn law_rewind_to_recorded_time<P>(snapshots: Seq<LagCompensatorSnapshot<P>>, i: int, split: int)
    requires
        forall|a: int, b: int| 0 <= a < b < snapshots.len() ==> snapshots[a].time < snapshots[b].time,
        0 <= i < snapshots.len(),
        is_split(snapshots, snapshots[i].time as int, split),
    ensures
        rewind_frame(snapshots, snapshots[i].time as int, split) == Frame::At(i as usize),
{
    if split < i {
        assert(snapshots[split].time < snapshots[i].time);
    } else if split > i {
        assert(snapshots[i].time <= snapshots[split - 1].time) by {
            if i < split - 1 {
                assert(snapshots[i].time < snapshots[split - 1].time);
            }
        }
    }
    assert(split == i);
}

/// The arrival times never decrease along `snapshots`.
pub open spec fn arrived_in_order<S>(snapshots: Seq<(i128, S)>) -> bool {
    forall|i: int, j: int| 0 <= i < j < snapshots.len() ==> snapshots[i].0 <= snapshots[j].0
}

/// In a buffer whose snapshots arrived in order, what remains after
/// dropping the stale ones at `now` is no older than the interpolation
/// delay plus its margin.
pub proof fn law_buffer_window<S>(snapshots: Seq<(i128, S)>, now: int)
    requires
        arrived_in_order(snapshots),
    ensures
        forall|i: int| 0 <= i < drop_stale(snapshots, now).len() ==> now - (#[trigger] drop_stale(snapshots, now)[i]).0
            <= INTERPOLATION_DELAY_NANOS + INTERPOLATION_MARGIN_NANOS,
    decreases snapshots.len(),
{
    if snapshots.len() > 0 && now - snapshots[0].0 > INTERPOLATION_DELAY_NANOS + INTERPOLATION_MARGIN_NANOS {
        let rest = snapshots.subrange(1, snapshots.len() as int);
        assert(arrived_in_order(rest)) by {
            assert forall|i: int, j: int| 0 <= i < j < rest.len() implies rest[i].0 <= rest[j].0 by {
                assert(rest[i] == snapshots[i + 1] && rest[j] == snapshots[j + 1]);
            }
        }
        law_buffer_window(rest, now);
        assert(drop_stale(snapshots, now) == drop_stale(rest, now));
    } else {
        assert(drop_stale(snapshots, now) == snapshots);
        if snapshots.len() > 0 {
            assert forall|i: int| 0 <= i < snapshots.len() implies now - (#[trigger] snapshots[i]).0
                <= INTERPOLATION_DELAY_NANOS + INTERPOLATION_MARGIN_NANOS by {
                if i > 0 {
                    assert(snapshots[0].0 <= snapshots[i].0);
                }
            }
        }
    }
}

/// The newest end of a buffer survives when it is not stale at `now`.
proof fn lemma_latest_arrival_survives<S>(snapshots: Seq<(i128, S)>, now: int)
    requires
        snapshots.len() > 0,
        now - snapshots.last().0 <= INTERPOLATION_DELAY_NANOS + INTERPOLATION_MARGIN_NANOS,
    ensures
        drop_stale(snapshots, now).len() > 0,
        drop_stale(snapshots, now).last() == snapshots.last(),
    decreases snapshots.len(),
{
    if now - snapshots[0].0 > INTERPOLATION_DELAY_NANOS + INTERPOLATION_MARGIN_NANOS {
        let rest = snapshots.subrange(1, snapshots.len() as int);
        assert(rest.last() == snapshots.last());
        lemma_latest_arrival_survives(rest, now);
    }
}

/// A snapshot that arrives at `now`, no earlier than everything buffered,
/// is kept as the newest, and the buffer stays in arrival order.
pub proof fn law_arrival_kept<S>(buffered: Seq<(i128, S)>, snapshot: S, now: i128)
    requires
        arrived_in_order(buffered),
        forall|i: int| 0 <= i < buffered.len() ==> (#[trigger] buffered[i]).0 <= now,
    ensures
        drop_stale(buffered.push((now, snapshot)), now as int).len() > 0,
        drop_stale(buffered.push((now, snapshot)), now as int).last() == (now, snapshot),
        arrived_in_order(drop_stale(buffered.push((now, snapshot)), now as int)),
{
    let pushed = buffered.push((now, snapshot));
    assert(pushed.last() == (now, snapshot));
    lemma_latest_arrival_survives(pushed, now as int);
    lemma_stale_dropped_in_order(pushed, now as int);
}

/// Dropping stale snapshots keeps the arrival order.
proof fn lemma_stale_dropped_in_order<S>(snapshots: Seq<(i128, S)>, now: int)
    ensures
        arrived_in_order(snapshots) ==> arrived_in_order(drop_stale(snapshots, now)),
    decreases snapshots.len(),
{
    if snapshots.len() > 0 && now - snapshots[0].0 > INTERPOLATION_DELAY_NANOS + INTERPOLATION_MARGIN_NANOS {
        let rest = snapshots.subrange(1, snapshots.len() as int);
        if arrived_in_order(snapshots) {
            assert forall|i: int, j: int| 0 <= i < j < rest.len() implies rest[i].0 <= rest[j].0 by {
                assert(rest[i] == snapshots[i + 1] && rest[j] == snapshots[j + 1]);
            }
        }
        lemma_stale_dropped_in_order(rest, now);
    }
}

/// The arrival times strictly increase along `snapshots`.
pub open spec fn arrived_strictly_in_order<S>(snapshots: Seq<(i128, S)>) -> bool {
    forall|a: int, b: int| 0 <= a < b < snapshots.len() ==> #[trigger] snapshots[a].0 < #[trigger] snapshots[b].0
}

/// With strictly increasing arrivals, the pair at `i` is the first pair
/// around a render time that lies after the arrival at `i`.
proof fn lemma_first_bracket<S>(snapshots: Seq<(i128, S)>, render: int, i: int)
    requires
        arrived_strictly_in_order(snapshots),
        0 <= i < snapshots.len() - 1,
        snapshots[i].0 < render <= snapshots[i + 1].0,
    ensures
        brackets(snapshots, i, render),
        forall|j: int| 0 <= j < i ==> !brackets(snapshots, j, render),
{
    assert forall|j: int| 0 <= j < i implies !brackets(snapshots, j, render) by {
        if j + 1 < i {
            assert(snapshots[j + 1].0 < snapshots[i].0);
        }
    }
}

/// In a buffer whose arrival times strictly increase, a render time (`now`
/// less the interpolation delay) after the arrival at `i` and no later than
/// the next one is rendered by blending those two snapshots, by how far it
/// lies past the first.
pub proof fn law_render_between_arrivals<S>(snapshots: Seq<(i128, S)>, now: int, i: int)
    requires
        arrived_strictly_in_order(snapshots),
        0 <= i < snapshots.len() - 1,
        snapshots[i].0 < now - INTERPOLATION_DELAY_NANOS <= snapshots[i + 1].0,
    ensures
        interpolation_frame(snapshots, now) == (Frame::Between {
            from: i as usize,
            to: (i + 1) as usize,
            elapsed_nanos: (now - INTERPOLATION_DELAY_NANOS - snapshots[i].0) as i128,
            total_nanos: (snapshots[i + 1].0 - snapshots[i].0) as i128,
        }),
{
    let render = now - INTERPOLATION_DELAY_NANOS;
    let n = snapshots.len();
    lemma_first_bracket(snapshots, render, i);
    let c = choose|c: int|
        0 <= c < n - 1 && brackets(snapshots, c, render) && forall|j: int| 0 <= j < c ==> !brackets(snapshots, j, render);
    assert(c == i) by {
        if c > i {
            assert(!brackets(snapshots, i, render));
        }
    }
}

} // verus!
