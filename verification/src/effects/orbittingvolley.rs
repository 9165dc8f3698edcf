use vstd::prelude::*;

use crate::utils::geometry::{manhattan, Coord};

verus! {

/// The index of the corner nearest to `coord` by taxicab distance; ties go to the lower
/// index.
pub fn nearest_corner(coord: Coord, corners: &[Coord; 4]) -> (index: usize)
    requires
        forall|i: int| 0 <= i < 4 ==> manhattan(coord, #[trigger] corners[i]) <= u32::MAX,
    ensures
        index < 4,
        forall|j: int|
            0 <= j < 4 ==> manhattan(coord, corners[index as int]) <= manhattan(coord, #[trigger] corners[j]),
        forall|j: int|
            0 <= j < index ==> manhattan(coord, corners[index as int]) < manhattan(coord, #[trigger] corners[j]),
{
    let mut best: usize = 0;
    let mut best_distance = coord.manhattan_distance(corners[0]);
    let mut index: usize = 1;
    while index < 4
        invariant
            1 <= index <= 4,
            best < index,
            best_distance == manhattan(coord, corners[best as int]),
            forall|i: int| 0 <= i < 4 ==> manhattan(coord, #[trigger] corners[i]) <= u32::MAX,
            forall|j: int|
                0 <= j < index ==> manhattan(coord, corners[best as int]) <= manhattan(coord, #[trigger] corners[j]),
            forall|j: int|
                0 <= j < best ==> manhattan(coord, corners[best as int]) < manhattan(coord, #[trigger] corners[j]),
        decreases 4 - index,
    {
        let distance = coord.manhattan_distance(corners[index]);
        if distance < best_distance {
            best = index;
            best_distance = distance;
        }
        index += 1;
    }
    best
}

/// Four times the squared distance from `coord` to the centre of a canvas whose last
/// column and row are `max_x` and `max_y` (doubling keeps half-cell centres whole).
pub open spec fn doubled_distance_squared(coord: Coord, max_x: i32, max_y: i32) -> int {
    let dx = coord.x * 2 - max_x;
    let dy = coord.y * 2 - max_y;
    dx * dx + dy * dy
}

pub fn distance_squared_from_center(coord: Coord, max_x: i32, max_y: i32) -> (distance: i64)
    requires
        doubled_distance_squared(coord, max_x, max_y) <= i64::MAX,
    ensures
        distance == doubled_distance_squared(coord, max_x, max_y),
{
    let doubled_x = coord.x as i64 * 2 - max_x as i64;
    let doubled_y = coord.y as i64 * 2 - max_y as i64;
    proof {
        let dx = doubled_x as int;
        let dy = doubled_y as int;
        assert(0 <= dx * dx) by (nonlinear_arith);
        assert(0 <= dy * dy) by (nonlinear_arith);
    }
    doubled_x * doubled_x + doubled_y * doubled_y
}

} // verus!
