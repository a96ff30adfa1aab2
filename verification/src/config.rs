//! Integer settings of the game.  Durations are given in nanoseconds.

use vstd::prelude::*;

verus! {

/// Server simulation rate, in ticks per second.
pub const TICK_RATE: u32 = 60;

/// Length of one simulation tick: one second divided by `TICK_RATE`.
pub const TICK_DURATION_NANOS: u64 = 16_666_666;

/// Snapshots sent per second to each client.
pub const SNAPSHOT_RATE: u32 = 20;

/// Time between two snapshots: one second divided by `SNAPSHOT_RATE`.
pub const SNAPSHOT_INTERVAL_NANOS: u64 = 50_000_000;

/// Time between two clock synchronisations of a client.
pub const TIME_SYNC_DURATION_SECS: u64 = 1;

/// Health a player starts and respawns with.
pub const PLAYER_MAX_HEALTH: i32 = 100;

/// Number of players the server admits at once.
pub const MAX_PLAYERS: usize = 1_000;

/// How long a bullet lives, in seconds.
pub const BULLET_LIFETIME_SECS: u64 = 3;

/// How long a bullet lives, in ticks.
pub const BULLET_LIFETIME_TICKS: u64 = 180;

/// Damage one bullet deals.
pub const BULLET_DAMAGE: i32 = 20;

/// Number of bullets the server keeps in flight at once.
pub const MAX_BULLETS: usize = 100_000;

/// A client not heard from for longer than this is dropped.
pub const CLIENT_TIMEOUT_SECS: u64 = 10;

/// `CLIENT_TIMEOUT_SECS` in nanoseconds.
pub const CLIENT_TIMEOUT_NANOS: u128 = 10_000_000_000;

/// Delay at which a client renders the other entities.
pub const INTERPOLATION_DELAY_NANOS: u64 = 50_000_000;

/// Extra age beyond the interpolation delay that a buffered snapshot may reach.
pub const INTERPOLATION_MARGIN_NANOS: u64 = 100_000_000;

/// How far back the server keeps player positions for lag compensation.
pub const LAG_COMPENSATION_HISTORY_NANOS: u64 = 5_000_000_000;

/// Largest datagram either side sends or accepts.
pub const MAX_PACKET_SIZE: usize = 65535;

/// Number of entries on the scoreboard.
pub const SCOREBOARD_LENGTH: usize = 10;

/// Number of unacknowledged inputs a client keeps for replay.
pub const PREDICTION_CAPACITY: usize = 60;

/// The derived settings agree with the ones they are derived from.
pub proof fn lemma_derived_settings()
    ensures
        TICK_DURATION_NANOS == 1_000_000_000int / (TICK_RATE as int),
        SNAPSHOT_INTERVAL_NANOS == 1_000_000_000int / (SNAPSHOT_RATE as int),
        BULLET_LIFETIME_TICKS == BULLET_LIFETIME_SECS * (TICK_RATE as int),
        CLIENT_TIMEOUT_NANOS == CLIENT_TIMEOUT_SECS * 1_000_000_000int,
{
}

} // verus!
