//! A client that the server has admitted.

use crate::clock::{instant_now, nanos_elapsed_since};
use crate::config::CLIENT_TIMEOUT_NANOS;
use std::time::Instant;
use vstd::prelude::*;

verus! {

/// The server's record of one connected client.
#[derive(Debug)]
pub struct ClientConnection {
    pub player_id: u64,
    pub last_heard: Instant,
}

/// Whether a client that has been silent for `elapsed_nanos` has timed out:
/// it has when the silence is strictly longer than the client timeout.
pub fn timed_out_after(elapsed_nanos: u128) -> (timed_out: bool)
    ensures
        timed_out == (elapsed_nanos > CLIENT_TIMEOUT_NANOS),
{
    elapsed_nanos > CLIENT_TIMEOUT_NANOS
}

impl ClientConnection {
    /// A connection for `player_id`, heard from now.
    pub fn new(player_id: u64) -> (conn: Self)
        ensures
            conn.player_id == player_id,
    {
        ClientConnection { player_id, last_heard: instant_now() }
    }

    /// Whether the client has been silent for longer than the client timeout.
    /// The answer depends on the clock; `timed_out_after` gives it for every
    /// silence.
    pub fn is_timed_out(&self) -> bool {
        let elapsed = nanos_elapsed_since(&self.last_heard);
        timed_out_after(elapsed)
    }

    /// Marks the client as heard from now.  The new time is the clock's;
    /// `touch_at` says what becomes of the connection for every reading.
    pub fn touch(&mut self)
        ensures
            final(self).player_id == old(self).player_id,
    {
        self.touch_at(instant_now());
    }

    /// Marks the client as heard from at `now`: the player stays, the time
    /// becomes `now`.
    pub fn touch_at(&mut self, now: Instant)
        ensures
            *final(self) == (ClientConnection { player_id: old(self).player_id, last_heard: now }),
    {
        self.last_heard = now;
    }
}

} // verus!
