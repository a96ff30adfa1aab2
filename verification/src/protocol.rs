//! The discrete part of what the game's packets carry: who a player is, how
//! healthy, how successful, alive or not, and which of its inputs the server
//! has applied.  Positions, velocities, rotations and timers are floating
//! point and travel beside these records.

use vstd::prelude::*;

verus! {

/// Which way a ship is asked to move along its heading.
#[derive(Clone, Copy, Debug, PartialEq, Eq, Structural)]
pub enum MoveDirection {
    Forward,
    Backward,
    Still,
}

impl MoveDirection {
    /// The factor the ship's speed is multiplied by: one forward, minus one
    /// backward, zero when standing still.
    pub fn speed_factor(&self) -> (factor: i32)
        ensures
            factor == match *self {
                MoveDirection::Forward => 1i32,
                MoveDirection::Backward => -1i32,
                MoveDirection::Still => 0i32,
            },
    {
        match self {
            MoveDirection::Forward => 1,
            MoveDirection::Backward => -1,
            MoveDirection::Still => 0,
        }
    }
}

/// Whether a player is in play.  A dead player waits for its respawn timer,
/// which the program around this crate keeps.
#[derive(Clone, Copy, Debug, PartialEq, Eq, Structural)]
pub enum LifeState {
    Alive,
    Dead,
}

/// The discrete state of one player.
#[derive(Debug, Clone)]
pub struct PlayerState {
    pub id: u64,
    pub name: String,
    pub health: i32,
    pub max_health: i32,
    pub score: u64,
    pub life: LifeState,
    /// Sequence number of the last input of this player the server applied.
    pub last_processed_input: u64,
}

impl PlayerState {
    /// A new player `id` named `name`, at full health `max_health`, alive,
    /// with no score and no input applied yet.
    pub fn new(id: u64, name: String, max_health: i32) -> (player: Self)
        ensures
            player.id == id,
            player.name@ == name@,
            player.health == max_health,
            player.max_health == max_health,
            player.score == 0,
            player.life == LifeState::Alive,
            player.last_processed_input == 0,
    {
        PlayerState {
            id,
            name,
            health: max_health,
            max_health,
            score: 0,
            life: LifeState::Alive,
            last_processed_input: 0,
        }
    }

    /// A copy of this state.
    pub fn duplicate(&self) -> (copy: Self)
        ensures
            copy == *self,
    {
        PlayerState {
            id: self.id,
            name: self.name.clone(),
            health: self.health,
            max_health: self.max_health,
            score: self.score,
            life: self.life,
            last_processed_input: self.last_processed_input,
        }
    }
}

/// The discrete state of one bullet in flight.
#[derive(Clone, Copy, Debug, PartialEq, Eq, Structural)]
pub struct BulletState {
    pub id: u64,
    pub owner_id: u64,
    pub spawn_tick: u64,
    pub damage: i32,
}

/// One line of the scoreboard.
#[derive(Debug, Clone, PartialEq, Eq)]
pub struct ScoreEntry {
    pub player_id: u64,
    pub player_name: String,
    pub score: u64,
}

impl ScoreEntry {
    /// A copy of this entry.
    pub fn duplicate(&self) -> (copy: Self)
        ensures
            copy == *self,
    {
        ScoreEntry { player_id: self.player_id, player_name: self.player_name.clone(), score: self.score }
    }
}

/// A death: `victim` was brought to zero health by a bullet of `killer`.
#[derive(Clone, Copy, Debug, PartialEq, Eq, Structural)]
pub struct Kill {
    pub victim: u64,
    pub killer: u64,
}

} // verus!
