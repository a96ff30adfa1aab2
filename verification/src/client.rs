//! What a client keeps of its connection: whether it is connected, which
//! player it steers, the sequence number its next input gets, the inputs
//! the server has not confirmed yet and the snapshots it renders from.

use crate::prediction::{after_push, unacknowledged, PendingInput, PredictionState};
use crate::timeline::InterpolationBuffer;
use vstd::prelude::*;

verus! {

/// Why a client request was refused before anything was sent.
#[derive(Clone, Copy, Debug, PartialEq, Eq, Structural)]
pub enum SessionError {
    /// Connecting while already connected.
    AlreadyConnected,
    /// Sending while not connected.
    NotConnected,
}

impl SessionError {
    /// The error's text.
    pub fn message(&self) -> (text: &'static str)
        ensures
            *self == SessionError::AlreadyConnected ==> text@ == "Client already connected"@,
            *self == SessionError::NotConnected ==> text@ == "Client not connected yet"@,
    {
        match self {
            SessionError::AlreadyConnected => "Client already connected",
            SessionError::NotConnected => "Client not connected yet",
        }
    }
}

/// A client's side of the connection.
pub struct ClientSession<I, S> {
    player_id: Option<u64>,
    connected: bool,
    next_input_sequence: u64,
    prediction: PredictionState<I>,
    interpolation_buffer: InterpolationBuffer<S>,
}

impl<I, S> ClientSession<I, S> {
    /// Whether the server has accepted the client.
    pub closed spec fn is_connected(&self) -> bool {
        self.connected
    }

    /// The player the client steers, once accepted.
    pub closed spec fn own_player(&self) -> Option<u64> {
        self.player_id
    }

    /// The sequence number the next input gets.
    pub closed spec fn next_sequence(&self) -> u64 {
        self.next_input_sequence
    }

    /// The inputs not yet confirmed, newest first.
    pub closed spec fn pending(&self) -> Seq<PendingInput<I>> {
        self.prediction.pending()
    }

    /// The snapshots buffered for rendering, with their arrival times.
    pub closed spec fn buffered(&self) -> Seq<(i128, S)> {
        self.interpolation_buffer.buffered()
    }

    /// The snapshot buffer is consistent.
    pub closed spec fn wf(&self) -> bool {
        self.interpolation_buffer.wf()
    }

    /// A client that has not connected yet.
    pub fn new() -> (session: Self)
        ensures
            session.wf(),
            !session.is_connected(),
            session.own_player().is_none(),
            session.next_sequence() == 0,
            session.pending() == Seq::<PendingInput<I>>::empty(),
            session.buffered() == Seq::<(i128, S)>::empty(),
    {
        ClientSession {
            player_id: None,
            connected: false,
            next_input_sequence: 0,
            prediction: PredictionState::new(),
            interpolation_buffer: InterpolationBuffer::new(),
        }
    }

    /// Whether the server has accepted the client.
    pub fn connected(&self) -> (connected: bool)
        ensures
            connected == self.is_connected(),
    {
        self.connected
    }

    /// The player the client steers, once accepted.
    pub fn player_id(&self) -> (id: Option<u64>)
        ensures
            id == self.own_player(),
    {
        self.player_id
    }

    /// The sequence number the next input gets.
    pub fn input_sequence(&self) -> (sequence: u64)
        ensures
            sequence == self.next_sequence(),
    {
        self.next_input_sequence
    }

    /// A connection request may be sent only while not connected.
    pub fn check_can_connect(&self) -> (r: Result<(), SessionError>)
        ensures
            r == if self.is_connected() {
                Err(SessionError::AlreadyConnected)
            } else {
                Ok(())
            },
    {
        if self.connected {
            Err(SessionError::AlreadyConnected)
        } else {
            Ok(())
        }
    }

    /// Disconnecting and clock synchronisation need a connection.
    pub fn check_connected(&self) -> (r: Result<(), SessionError>)
        ensures
            r == if self.is_connected() {
                Ok(())
            } else {
                Err(SessionError::NotConnected)
            },
    {
        if self.connected {
            Ok(())
        } else {
            Err(SessionError::NotConnected)
        }
    }

    /// Numbers a new input: while connected, hands out the next sequence
    /// number and moves on by one; otherwise refuses.
    pub fn next_input(&mut self) -> (r: Result<u64, SessionError>)
        requires
            old(self).is_connected() ==> old(self).next_sequence() < u64::MAX,
        ensures
            final(self).wf() == old(self).wf(),
            final(self).is_connected() == old(self).is_connected(),
            final(self).own_player() == old(self).own_player(),
            final(self).pending() == old(self).pending(),
            final(self).buffered() == old(self).buffered(),
            old(self).is_connected() ==> {
                &&& r == Ok::<u64, SessionError>(old(self).next_sequence())
                &&& final(self).next_sequence() == old(self).next_sequence() + 1
            },
            !old(self).is_connected() ==> {
                &&& r == Err::<u64, SessionError>(SessionError::NotConnected)
                &&& final(self).next_sequence() == old(self).next_sequence()
            },
    {
        if !self.connected {
            return Err(SessionError::NotConnected);
        }
        let sequence = self.next_input_sequence;
        self.next_input_sequence = self.next_input_sequence + 1;
        Ok(sequence)
    }

    /// Keeps `input`, sent under `sequence`, for replay (see
    /// `PredictionState::push_prediction`).
    pub fn record_input(&mut self, sequence: u64, input: I)
        ensures
            final(self).wf() == old(self).wf(),
            final(self).is_connected() == old(self).is_connected(),
            final(self).own_player() == old(self).own_player(),
            final(self).next_sequence() == old(self).next_sequence(),
            final(self).buffered() == old(self).buffered(),
            final(self).pending() == after_push(old(self).pending(), sequence, input),
    {
        self.prediction.push_prediction(sequence, input);
    }

    /// The server accepted the client as player `player_id`.
    pub fn handle_connection_accepted(&mut self, player_id: u64)
        ensures
            final(self).wf() == old(self).wf(),
            final(self).is_connected(),
            final(self).own_player() == Some(player_id),
            final(self).next_sequence() == old(self).next_sequence(),
            final(self).pending() == old(self).pending(),
            final(self).buffered() == old(self).buffered(),
    {
        self.player_id = Some(player_id);
        self.connected = true;
    }

    /// The server dropped the client: everything is forgotten and the input
    /// numbering starts again from zero.
    pub fn handle_disconnect(&mut self)
        ensures
            final(self).wf(),
            !final(self).is_connected(),
            final(self).own_player().is_none(),
            final(self).next_sequence() == 0,
            final(self).pending() == Seq::<PendingInput<I>>::empty(),
            final(self).buffered() == Seq::<(i128, S)>::empty(),
    {
        self.player_id = None;
        self.connected = false;
        self.prediction.clear();
        self.next_input_sequence = 0;
        self.interpolation_buffer.clear();
    }

    /// Buffers a snapshot from the server for rendering.
    pub fn buffer_snapshot(&mut self, snapshot: S)
        requires
            old(self).wf(),
        ensures
            final(self).wf(),
            final(self).is_connected() == old(self).is_connected(),
            final(self).own_player() == old(self).own_player(),
            final(self).next_sequence() == old(self).next_sequence(),
            final(self).pending() == old(self).pending(),
            exists|now: i128|
                0 <= now <= crate::clock::MAX_DURATION_NANOS && final(self).buffered() == crate::timeline::drop_stale(
                    old(self).buffered().push((now, snapshot)),
                    now as int,
                ),
    {
        let ghost pushed = snapshot;
        self.interpolation_buffer.push_snapshot(snapshot);
        proof {
            let now = choose|now: i128|
                0 <= now <= crate::clock::MAX_DURATION_NANOS && self.interpolation_buffer.buffered()
                    == crate::timeline::drop_stale(old(self).interpolation_buffer.buffered().push((now, pushed)), now as int);
            assert(0 <= now <= crate::clock::MAX_DURATION_NANOS && self.buffered() == crate::timeline::drop_stale(
                old(self).buffered().push((now, pushed)),
                now as int,
            ));
        }
    }

    /// The server has applied the inputs up to `last_processed`: they are
    /// no longer pending.
    pub fn acknowledge(&mut self, last_processed: u64)
        ensures
            final(self).wf() == old(self).wf(),
            final(self).is_connected() == old(self).is_connected(),
            final(self).own_player() == old(self).own_player(),
            final(self).next_sequence() == old(self).next_sequence(),
            final(self).buffered() == old(self).buffered(),
            final(self).pending() == unacknowledged(old(self).pending(), last_processed),
    {
        self.prediction.acknowledge(last_processed);
    }

    /// Whether player `id` is someone other than the client's own player.
    pub fn is_other(&self, id: u64) -> (other: bool)
        ensures
            other == (self.own_player() != Some(id)),
    {
        match self.player_id {
            Some(own) => own != id,
            None => true,
        }
    }

    /// The inputs not yet confirmed.
    pub fn prediction(&self) -> (prediction: &PredictionState<I>)
        ensures
            prediction.pending() == self.pending(),
    {
        &self.prediction
    }

    /// The snapshots buffered for rendering.
    pub fn interpolation_buffer(&self) -> (buffer: &InterpolationBuffer<S>)
        ensures
            buffer.buffered() == self.buffered(),
            self.wf() ==> buffer.wf(),
    {
        &self.interpolation_buffer
    }
}

} // verus!
