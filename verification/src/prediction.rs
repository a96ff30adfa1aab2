//! The client's inputs that the server has not yet confirmed, kept so that
//! they can be applied again on top of the server's answer.

use crate::config::PREDICTION_CAPACITY;
use std::collections::VecDeque;
use vstd::prelude::*;

verus! {

broadcast use vstd::std_specs::vecdeque::group_vec_dequeue_axioms;

/// An input with the sequence number it was sent under.
pub struct PendingInput<T> {
    pub sequence: u64,
    pub input: T,
}

/// The inputs of `pending` the server has not applied, in order: those with
/// a sequence number above `last_processed`.
pub open spec fn unacknowledged<T>(pending: Seq<PendingInput<T>>, last_processed: u64) -> Seq<PendingInput<T>>
    decreases pending.len(),
{
    if pending.len() == 0 {
        pending
    } else {
        let rest = unacknowledged(pending.subrange(1, pending.len() as int), last_processed);
        if pending[0].sequence > last_processed {
            seq![pending[0]] + rest
        } else {
            rest
        }
    }
}

/// `pending` (newest first) after `input`, sent under `sequence`, is stored
/// in front: when that makes more than `PREDICTION_CAPACITY` inputs, the
/// oldest is dropped.
pub open spec fn after_push<T>(pending: Seq<PendingInput<T>>, sequence: u64, input: T) -> Seq<PendingInput<T>> {
    let pushed = seq![PendingInput { sequence, input }] + pending;
    if pushed.len() > PREDICTION_CAPACITY {
        pushed.drop_last()
    } else {
        pushed
    }
}

/// The inputs sent but not yet confirmed, newest first.
pub struct PredictionState<T> {
    pending_inputs: VecDeque<PendingInput<T>>,
}

impl<T> PredictionState<T> {
    /// The pending inputs, newest first.
    pub closed spec fn pending(&self) -> Seq<PendingInput<T>> {
        self.pending_inputs@
    }

    /// No inputs pending.
    pub fn new() -> (state: Self)
        ensures
            state.pending() == Seq::<PendingInput<T>>::empty(),
    {
        PredictionState { pending_inputs: VecDeque::new() }
    }

    /// Stores `input`, sent under `sequence`, as the newest pending input.
    /// When that makes more than `PREDICTION_CAPACITY`, the oldest is
    /// dropped.
    pub fn push_prediction(&mut self, sequence: u64, input: T)
        ensures
            final(self).pending() == after_push(old(self).pending(), sequence, input),
    {
        self.pending_inputs.push_front(PendingInput { sequence, input });
        if self.pending_inputs.len() > PREDICTION_CAPACITY {
            self.pending_inputs.pop_back();
        }
        proof {
            assert(seq![PendingInput { sequence, input }] + old(self).pending() =~= old(self).pending().insert(0, PendingInput { sequence, input }));
        }
    }

    /// Forgets every pending input.
    pub fn clear(&mut self)
        ensures
            final(self).pending() == Seq::<PendingInput<T>>::empty(),
    {
        self.pending_inputs.clear();
    }

    /// The number of pending inputs.
    pub fn len(&self) -> (n: usize)
        ensures
            n == self.pending().len(),
    {
        self.pending_inputs.len()
    }

    /// The pending input at position `i`, newest first.
    pub fn pending_input(&self, i: usize) -> (pending: &PendingInput<T>)
        requires
            i < self.pending().len(),
        ensures
            *pending == self.pending()[i as int],
    {
        &self.pending_inputs[i]
    }

    /// Drops the inputs the server has applied: those numbered up to
    /// `last_processed`.
    pub fn acknowledge(&mut self, last_processed: u64)
        ensures
            final(self).pending() == unacknowledged(old(self).pending(), last_processed),
    {
        let ghost initial = self.pending_inputs@;
        let mut kept: VecDeque<PendingInput<T>> = VecDeque::new();
        while self.pending_inputs.len() > 0
            invariant
                kept@ + unacknowledged(self.pending_inputs@, last_processed) == unacknowledged(initial, last_processed),
            decreases self.pending_inputs@.len(),
        {
            let ghost remaining = self.pending_inputs@;
            match self.pending_inputs.pop_front() {
                Some(pending) => {
                    if pending.sequence > last_processed {
                        let ghost before = kept@;
                        kept.push_back(pending);
                        proof {
                            assert(before.push(remaining[0]) + unacknowledged(self.pending_inputs@, last_processed)
                                =~= before + (seq![remaining[0]] + unacknowledged(self.pending_inputs@, last_processed)));
                        }
                    }
                },
                None => {},
            }
        }
        proof {
            assert(kept@ + unacknowledged(self.pending_inputs@, last_processed) =~= kept@);
        }
        self.pending_inputs = kept;
    }
}

/// Acknowledging keeps exactly the inputs numbered above `last_processed`,
/// in their order, and acknowledging the same number again changes nothing.
pub proof fn law_acknowledge<T>(pending: Seq<PendingInput<T>>, last_processed: u64)
    ensures
        forall|i: int| 0 <= i < unacknowledged(pending, last_processed).len()
            ==> (#[trigger] unacknowledged(pending, last_processed)[i]).sequence > last_processed,
        forall|i: int| 0 <= i < pending.len() && (#[trigger] pending[i]).sequence > last_processed
            ==> unacknowledged(pending, last_processed).contains(pending[i]),
        unacknowledged(unacknowledged(pending, last_processed), last_processed) == unacknowledged(pending, last_processed),
    decreases pending.len(),
{
    if pending.len() > 0 {
        let rest = pending.subrange(1, pending.len() as int);
        law_acknowledge(rest, last_processed);
        let u = unacknowledged(rest, last_processed);
        assert forall|i: int| 0 <= i < pending.len() && (#[trigger] pending[i]).sequence > last_processed
            implies unacknowledged(pending, last_processed).contains(pending[i]) by {
            if i == 0 {
                assert(unacknowledged(pending, last_processed)[0] == pending[0]);
            } else {
                assert(rest[i - 1] == pending[i]);
                let k = choose|k: int| 0 <= k < u.len() && u[k] == rest[i - 1];
                if pending[0].sequence > last_processed {
                    assert(unacknowledged(pending, last_processed)[k + 1] == pending[i]);
                } else {
                    assert(unacknowledged(pending, last_processed)[k] == pending[i]);
                }
            }
        }
        if pending[0].sequence > last_processed {
            let whole = seq![pending[0]] + u;
            assert(whole.subrange(1, whole.len() as int) =~= u);
            assert(whole[0] == pending[0]);
        }
    }
}

/// Storing an input makes it the newest pending one and keeps the others,
/// oldest last, in their order; a buffer that holds no more than
/// `PREDICTION_CAPACITY` inputs still does, and only a full one loses an
/// input, its oldest.
pub proof fn law_prediction_capacity<T>(pending: Seq<PendingInput<T>>, sequence: u64, input: T)
    requires
        pending.len() <= PREDICTION_CAPACITY,
    ensures
        after_push(pending, sequence, input).len() <= PREDICTION_CAPACITY,
        after_push(pending, sequence, input)[0] == (PendingInput { sequence, input }),
        pending.len() < PREDICTION_CAPACITY ==> after_push(pending, sequence, input) == seq![PendingInput { sequence, input }] + pending,
        pending.len() == PREDICTION_CAPACITY ==> after_push(pending, sequence, input)
            == seq![PendingInput { sequence, input }] + pending.take(PREDICTION_CAPACITY - 1),
{
    let pushed = seq![PendingInput { sequence, input }] + pending;
    if pending.len() == PREDICTION_CAPACITY {
        assert(pushed.drop_last() =~= seq![PendingInput { sequence, input }] + pending.take(PREDICTION_CAPACITY - 1));
    }
}

} // verus!
