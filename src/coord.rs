use vstd::prelude::*;

verus! {

/// A position in fixed-point degrees: `x` is the longitude and `y` the
/// latitude, each in units of 1e-7 degree (the resolution of OpenStreetMap).
#[derive(Clone, Copy, Debug, PartialEq, Eq, Structural)]
pub struct Coord {
    pub x: i64,
    pub y: i64,
}

/// Identifier of an OpenStreetMap node.
#[derive(Clone, Copy, Debug, PartialEq, Eq, Structural, Hash)]
pub struct OSNodeID(pub i64);

} // verus!
