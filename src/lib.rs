//! Collision bookkeeping and destructible terrain for a 2D simulation.
//!
//! The library holds the parts of the simulation that are decided on
//! integers: the identifier pools that name collision objects, which part of
//! which entity each object is, the decisions of the penetration-resolution
//! loop, and the terrain's cells, their erosion and the tracing of their
//! outline. Positions, shapes and the collision world itself are the
//! caller's.
use vstd::prelude::*;

pub mod collision;
pub mod contour;
pub mod id_store;
pub mod rect_outline;
pub mod resolution;
pub mod terrain;

verus! {

/// The player that an entity's controls belong to.
pub struct Player(pub i32);

} // verus!
