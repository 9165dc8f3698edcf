use vstd::prelude::*;

use crate::utils::geometry::Coord;

verus! {

/// One stop on a character's path.
#[derive(Debug, Clone, Copy, PartialEq, Eq, Structural)]
pub struct Waypoint {
    pub coord: Coord,
}

impl Waypoint {
    pub fn new(coord: Coord) -> (waypoint: Self)
        ensures
            waypoint == (Waypoint { coord }),
    {
        Self { coord }
    }
}

} // verus!
