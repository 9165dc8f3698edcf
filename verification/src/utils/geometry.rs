use vstd::prelude::*;

use vstd::std_specs::ops::{AddSpecImpl, SubSpecImpl};

verus! {

/// A cell position on the canvas; `y` grows downward.
#[derive(Debug, Clone, Copy, PartialEq, Eq, PartialOrd, Ord, Hash, Structural)]
pub struct Coord {
    pub x: i32,
    pub y: i32,
}

/// Whether a value fits in `i32`.
pub open spec fn fits_i32(value: int) -> bool {
    i32::MIN <= value <= i32::MAX
}

/// The distance between two integers.
pub open spec fn abs_diff(a: int, b: int) -> int {
    if a >= b {
        a - b
    } else {
        b - a
    }
}

/// The componentwise sum of two positions.
pub open spec fn coord_sum(a: Coord, b: Coord) -> Coord {
    Coord { x: (a.x + b.x) as i32, y: (a.y + b.y) as i32 }
}

/// The componentwise difference of two positions.
pub open spec fn coord_difference(a: Coord, b: Coord) -> Coord {
    Coord { x: (a.x - b.x) as i32, y: (a.y - b.y) as i32 }
}

/// The taxicab distance between two positions.
pub open spec fn manhattan(a: Coord, b: Coord) -> int {
    abs_diff(a.x as int, b.x as int) + abs_diff(a.y as int, b.y as int)
}

fn abs_diff_i32(a: i32, b: i32) -> (d: u32)
    ensures
        d == abs_diff(a as int, b as int),
{
    if a >= b {
        (a as i64 - b as i64) as u32
    } else {
        (b as i64 - a as i64) as u32
    }
}

impl Coord {
    pub fn new(x: i32, y: i32) -> (coord: Self)
        ensures
            coord == (Coord { x, y }),
    {
        Self { x, y }
    }

    /// The taxicab distance to `other`, computed in `u32`; a sum that does not fit is
    /// refused.
    pub fn manhattan_distance(self, other: Self) -> (distance: u32)
        requires
            manhattan(self, other) <= u32::MAX,
        ensures
            distance == manhattan(self, other),
    {
        abs_diff_i32(self.x, other.x) + abs_diff_i32(self.y, other.y)
    }

    pub fn offset(self, x: i32, y: i32) -> (coord: Self)
        requires
            fits_i32(self.x + x),
            fits_i32(self.y + y),
        ensures
            coord == coord_sum(self, Coord { x, y }),
    {
        Self::new(self.x + x, self.y + y)
    }
}

impl AddSpecImpl for Coord {
    open spec fn obeys_add_spec() -> bool {
        true
    }

    open spec fn add_req(self, rhs: Coord) -> bool {
        fits_i32(self.x + rhs.x) && fits_i32(self.y + rhs.y)
    }

    open spec fn add_spec(self, rhs: Coord) -> Coord {
        coord_sum(self, rhs)
    }
}

impl std::ops::Add for Coord {
    type Output = Self;

    fn add(self, rhs: Self) -> (sum: Self::Output) {
        Self::new(self.x + rhs.x, self.y + rhs.y)
    }
}

impl SubSpecImpl for Coord {
    open spec fn obeys_sub_spec() -> bool {
        true
    }

    open spec fn sub_req(self, rhs: Coord) -> bool {
        fits_i32(self.x - rhs.x) && fits_i32(self.y - rhs.y)
    }

    open spec fn sub_spec(self, rhs: Coord) -> Coord {
        coord_difference(self, rhs)
    }
}

impl std::ops::Sub for Coord {
    type Output = Self;

    fn sub(self, rhs: Self) -> (difference: Self::Output) {
        Self::new(self.x - rhs.x, self.y - rhs.y)
    }
}

/// Adding a position and then subtracting it again returns to the start, whenever the sum
/// fits.
pub proof fn lemma_add_then_sub(a: Coord, b: Coord)
    requires
        fits_i32(a.x + b.x),
        fits_i32(a.y + b.y),
    ensures
        fits_i32(coord_sum(a, b).x - b.x),
        fits_i32(coord_sum(a, b).y - b.y),
        coord_difference(coord_sum(a, b), b) == a,
{
}

/// The taxicab distance is symmetric, never negative, and zero exactly between equal
/// positions.
pub proof fn lemma_manhattan_metric(a: Coord, b: Coord)
    ensures
        manhattan(a, b) == manhattan(b, a),
        manhattan(a, b) >= 0,
        (manhattan(a, b) == 0) == (a == b),
{
}

} // verus!
