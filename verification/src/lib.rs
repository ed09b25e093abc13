//! Core engine for a territory-conquest simulation played on a procedurally
//! generated, connected spatial graph. Nodes are capturable computers; packets
//! travel along straight lines between node positions and damage or heal the
//! destination's owner, flipping ownership when health reaches zero.
//!
//! All geometry is carried in integer milli-units (a coordinate of 800 stands
//! for 0.8 world units) and all time in integer milliseconds, so every rule of
//! the simulation is exact integer arithmetic.

use vstd::prelude::*;

pub mod ai;
pub mod emitter;
pub mod engine;
pub mod flow;
pub mod gen;
pub mod geom;
pub mod graph;
pub mod pathfind;
pub mod resolver;
pub mod rng;
pub mod transit;
pub mod world;

verus! {

/// Greatest health a node can have; healing is clamped here.
pub const MAX_HP: u32 = 100;

/// Health that a freshly captured node starts with.
pub const CAPTURE_HP: u32 = 10;

/// Health given to neutral nodes at world setup.
pub const NEUTRAL_START_HP: u32 = 50;

/// Damage or healing applied by one packet on arrival.
pub const PACKET_POWER: u32 = 1;

/// Below this health an enemy-owned node pauses its offense.
pub const AI_HEALTH_THRESHOLD: u32 = 30;

/// Base reload time of a node in milliseconds; firing at `k` targets at once
/// resets the cooldown to `k` times this value.
pub const SPAWN_INTERVAL_MS: u64 = 100;

/// Cadence of the autonomous targeting policy in milliseconds.
pub const AI_INTERVAL_MS: u64 = 500;

/// Positions are sampled from the square `[-COORD_LIMIT, COORD_LIMIT]^2`.
pub const COORD_LIMIT: i64 = 800;

/// Candidate positions closer than this to an accepted one are rejected.
pub const MIN_SPACING: i64 = 200;

/// Node pairs closer than this are joined by an edge at generation time.
pub const CONNECT_DIST: i64 = 450;

/// A pointer picks the nearest node strictly within this radius.
pub const PICK_RADIUS: i64 = 100;

/// Default number of nodes a generated graph aims for.
pub const DEFAULT_NODE_COUNT: usize = 30;

/// Placement attempts per requested node before generation gives up placing.
pub const PLACEMENT_ATTEMPTS: usize = 20;

/// Largest time step one tick may advance, in milliseconds (one day).
pub const MAX_TICK_MS: u64 = 86_400_000;

/// Which side controls a node, and whose allegiance a packet carries.
#[derive(Clone, Copy, PartialEq, Eq, Structural, Debug)]
pub enum Owner {
    Neutral,
    Player,
    Enemy,
}

} // verus!
