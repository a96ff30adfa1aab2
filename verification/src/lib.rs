//! The authoritative rules of a small multiplayer spaceship game, written so
//! that Verus can check them: who may join, which inputs count and in what
//! order, how damage, deaths, scores and respawns go, how long bullets live,
//! which snapshots a time falls between, and what a client keeps between
//! packets.  Everything that is floating-point geometry, rendering or socket
//! I/O lives in the program around this crate.

pub mod config;
pub mod clock;
pub mod connection;
pub mod protocol;
pub mod scoreboard;
pub mod maps;
pub mod server;
pub mod order;
pub mod timeline;
pub mod prediction;
pub mod client;
