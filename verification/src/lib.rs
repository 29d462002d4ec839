//! A small network-traffic simulation: carriers travel along the edges of a
//! fixed 3D graph, congested edges break and are rewired to random
//! destinations, and the whole scene is rotated each tick.
//!
//! Coordinates are carried as IEEE-754 single-precision bit patterns
//! (`u32` values); all floating-point arithmetic on them happens outside
//! this crate, which only stores, copies and compares them.

use vstd::prelude::*;

pub mod carrier;
pub mod graph;
pub mod pool;
mod rng;
pub mod sim;
pub mod view;

verus! {

/// A 3D point, each coordinate held as the bit pattern of an IEEE-754
/// single-precision number. The simulation core never does arithmetic on
/// coordinates; it only moves them around, so the bit pattern is all it
/// needs to know.
#[derive(Clone, Copy, PartialEq, Eq, Structural, Debug)]
pub struct Point3Bits {
    pub x: u32,
    pub y: u32,
    pub z: u32,
}

} // verus!
