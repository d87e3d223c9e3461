use vstd::prelude::*;
use crate::coord::Coord;

verus! {

/// The compass bearings, in whole degrees from north, at both ends of an edge
/// in both directions of traversal.
#[derive(Clone, Copy, Debug, PartialEq, Eq, Structural)]
pub struct Angles {
    pub forward_arrival: u16,
    pub forward_departure: u16,
    pub backward_arrival: u16,
    pub backward_departure: u16,
}

/// Bearings from north in hundredths of a degree, one for each of the four
/// pairs of points that `angle_segments` picks.
#[derive(Clone, Copy, Debug, PartialEq, Eq, Structural)]
pub struct Bearings {
    pub forward_arrival: u32,
    pub forward_departure: u32,
    pub backward_arrival: u32,
    pub backward_departure: u32,
}

/// The pairs of points (from, to) whose bearings give an edge's angles.
#[derive(Clone, Copy, Debug)]
pub struct AngleSegments {
    pub forward_arrival: (Coord, Coord),
    pub forward_departure: (Coord, Coord),
    pub backward_arrival: (Coord, Coord),
    pub backward_departure: (Coord, Coord),
}

/// A bearing in hundredths of a degree as whole degrees in `[0, 360)`:
/// rounded half up, with 360 taken as 0.
pub open spec fn whole_degrees(centidegrees: int) -> int {
    ((centidegrees + 50) / 100) % 360
}

/// The angle in whole degrees of a bearing given in hundredths of a degree.
pub fn get_angle(centidegrees: u32) -> (r: u16)
    ensures
        r == whole_degrees(centidegrees as int),
        r < 360,
{
    let d: u64 = (centidegrees as u64 + 50) / 100;
    (d % 360) as u16
}

/// The point pairs of an edge's polyline: forward arrival from the first to
/// the second point, forward departure from the second-to-last to the last,
/// backward arrival from the last to the second-to-last, and backward
/// departure from the second to the first.
pub fn angle_segments(linestring: &Vec<Coord>) -> (r: AngleSegments)
    requires
        linestring.len() >= 2,
    ensures
        r.forward_arrival == (linestring@[0], linestring@[1]),
        r.forward_departure == (linestring@[linestring.len() - 2], linestring@[linestring.len() - 1]),
        r.backward_arrival == (linestring@[linestring.len() - 1], linestring@[linestring.len() - 2]),
        r.backward_departure == (linestring@[1], linestring@[0]),
{
    let n = linestring.len();
    let first = linestring[0];
    let second = linestring[1];
    let last = linestring[n - 1];
    let second_last = linestring[n - 2];
    AngleSegments {
        forward_arrival: (first, second),
        forward_departure: (second_last, last),
        backward_arrival: (last, second_last),
        backward_departure: (second, first),
    }
}

/// The angles of an edge from the bearings of its four point pairs.
pub fn arrival_departure_angle_from_north(bearings: &Bearings) -> (r: Angles)
    ensures
        r.forward_arrival == whole_degrees(bearings.forward_arrival as int),
        r.forward_departure == whole_degrees(bearings.forward_departure as int),
        r.backward_arrival == whole_degrees(bearings.backward_arrival as int),
        r.backward_departure == whole_degrees(bearings.backward_departure as int),
        r.forward_arrival < 360,
        r.forward_departure < 360,
        r.backward_arrival < 360,
        r.backward_departure < 360,
{
    Angles {
        forward_arrival: get_angle(bearings.forward_arrival),
        forward_departure: get_angle(bearings.forward_departure),
        backward_arrival: get_angle(bearings.backward_arrival),
        backward_departure: get_angle(bearings.backward_departure),
    }
}

} // verus!
