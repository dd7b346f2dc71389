//! Pixm: deterministic simulation and peer-to-peer netcode for a 2D MOBA.
//!
//! `game` holds the fixed-point simulation (ECS world, systems, pathfinding,
//! input), `net` holds the transport-independent netcode (acks, packet
//! headers, clock sync, rollback, election).

pub mod game;
pub mod net;
