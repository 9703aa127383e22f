//! Coordinate-space markers.
use vstd::prelude::*;

verus! {

/// Logical (device-independent) pixels.
#[derive(Clone, Copy, Debug, Default, PartialEq, Eq, Structural)]
pub struct Logical;

/// Physical (device) pixels.
#[derive(Clone, Copy, Debug, Default, PartialEq, Eq, Structural)]
pub struct Physical;

/// Coordinates local to a node.
#[derive(Clone, Copy, Debug, Default, PartialEq, Eq, Structural)]
pub struct Local;

} // verus!
