use vstd::prelude::*;

use crate::effects::random::{
    draw_mod_u64, fisher_yates, fnv1a, fnv1a_hash, golden_seed, lemma_fisher_yates_permutes,
    lemma_picks_in_range, nonzero_or, shuffle_passes, xorshift64,
};
use crate::utils::geometry::Coord;
use crate::utils::graphics::{plain_style, Color, ColorPair, Style};
use vstd::string::StringSliceAdditionalSpecFns;

verus! {

/// Each character travels to its place as the eight bits of its code.
pub struct Binarypath;

impl Binarypath {
    pub fn new() -> (effect: Self)
        ensures
            effect == Binarypath,
    {
        Binarypath
    }

    pub fn name(&self) -> (name: &'static str)
        ensures
            name@ == "binarypath"@,
    {
        "binarypath"
    }
}

impl Default for Binarypath {
    fn default() -> (effect: Self)
        ensures
            effect == Binarypath,
    {
        Self::new()
    }
}

/// A bit in cyan when it is '1', in purple otherwise.
pub fn binary_style(bit: char) -> (style: Style)
    ensures
        style == (Style {
            colors: ColorPair {
                foreground: Some(
                    if bit == '1' {
                        Color::Rgb { r: 0, g: 209, b: 255 }
                    } else {
                        Color::Rgb { r: 138, g: 0, b: 138 }
                    },
                ),
                background: None,
            },
            ..plain_style()
        }),
{
    let color = if bit == '1' {
        Color::rgb(0, 209, 255)
    } else {
        Color::rgb(138, 0, 138)
    };
    Style::default().with_foreground(color)
}

/// A coordinate below `extent` drawn from the state, and the next state; extents of zero
/// and one give 0 without drawing.
pub open spec fn coordinate_draw(state: u64, extent: usize) -> (i32, u64) {
    if extent <= 1 {
        (0, state)
    } else {
        ((xorshift64(state) % (extent as u64)) as i32, xorshift64(state))
    }
}

/// The route from a random point on a random edge, turning once, to `destination`; and
/// the next state.
pub open spec fn route(destination: Coord, width: usize, height: usize, state: u64) -> (
    Seq<Coord>,
    u64,
) {
    let right = (if width >= 1 { width - 1 } else { 0 }) as i32;
    let bottom = (if height >= 1 { height - 1 } else { 0 }) as i32;
    let edge = xorshift64(state) % 4;
    let after_edge = xorshift64(state);
    let (start, end_state) = if edge == 0 {
        let (y, s) = coordinate_draw(after_edge, height);
        (Coord { x: 0, y }, s)
    } else if edge == 1 {
        let (y, s) = coordinate_draw(after_edge, height);
        (Coord { x: right, y }, s)
    } else if edge == 2 {
        let (x, s) = coordinate_draw(after_edge, width);
        (Coord { x, y: 0 }, s)
    } else {
        let (x, s) = coordinate_draw(after_edge, width);
        (Coord { x, y: bottom }, s)
    };
    let corner = if edge < 2 {
        Coord { x: destination.x, y: start.y }
    } else {
        Coord { x: start.x, y: destination.y }
    };
    (seq![start, corner, destination], end_state)
}

/// Builds a character's three-point route and advances the seed.
pub fn make_route(destination: Coord, width: usize, height: usize, seed: &mut u64) -> (route_points:
    Vec<Coord>)
    ensures
        (route_points@, *final(seed)) == route(destination, width, height, *old(seed)),
{
    let right = width.saturating_sub(1) as i32;
    let bottom = height.saturating_sub(1) as i32;
    let edge = next_random(seed) % 4;
    let start = if edge == 0 {
        Coord::new(0, random_coordinate(seed, height))
    } else if edge == 1 {
        Coord::new(right, random_coordinate(seed, height))
    } else if edge == 2 {
        Coord::new(random_coordinate(seed, width), 0)
    } else {
        Coord::new(random_coordinate(seed, width), bottom)
    };
    let corner = if edge < 2 {
        Coord::new(destination.x, start.y)
    } else {
        Coord::new(start.x, destination.y)
    };
    let mut points: Vec<Coord> = Vec::new();
    points.push(start);
    points.push(corner);
    points.push(destination);
    assert(points@ =~= route(destination, width, height, *old(seed)).0);
    points
}

/// A coordinate below `extent`, advancing the seed only when it draws.
pub fn random_coordinate(seed: &mut u64, extent: usize) -> (coordinate: i32)
    ensures
        (coordinate, *final(seed)) == coordinate_draw(*old(seed), extent),
{
    if extent <= 1 {
        0
    } else {
        (next_random(seed) % extent as u64) as i32
    }
}

/// The FNV-1a hash of the input, never zero.
pub fn seed_from_input(input: &str) -> (seed: u64)
    ensures
        seed == nonzero_or(fnv1a(input.spec_bytes()), golden_seed()),
{
    let seed = fnv1a_hash(input);
    if seed == 0 {
        0x9e37_79b9_7f4a_7c15
    } else {
        seed
    }
}

/// One xorshift64 step on the seed; returns the new seed.
pub fn next_random(seed: &mut u64) -> (value: u64)
    ensures
        value == xorshift64(*old(seed)),
        *final(seed) == value,
{
    let mut value = *seed;
    value ^= value << 13;
    value ^= value >> 7;
    value ^= value << 17;
    *seed = value;
    value
}

/// Fisher-Yates shuffle drawing each index as the next value modulo the range.
pub fn shuffle<T>(values: &mut [T], seed: &mut u64)
    ensures
        (final(values)@, *final(seed)) == fisher_yates(old(values)@, *old(seed), draw_mod_u64()),
        final(values)@.to_multiset() == old(values)@.to_multiset(),
{
    let len = values.len();
    proof {
        lemma_picks_in_range();
        lemma_fisher_yates_permutes(values@, *seed, draw_mod_u64());
    }
    if len < 2 {
        return;
    }
    let ghost target = fisher_yates(values@, *seed, draw_mod_u64());
    let mut index = len - 1;
    while index >= 1
        invariant
            index < len,
            values@.len() == len,
            shuffle_passes(values@, *seed, index as nat, draw_mod_u64()) == target,
        decreases index,
    {
        let swap_index = (next_random(seed) % (index as u64 + 1)) as usize;
        values.swap(index, swap_index);
        index -= 1;
    }
}

} // verus!
