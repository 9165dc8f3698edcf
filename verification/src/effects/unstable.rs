use vstd::prelude::*;

use crate::effects::random::{fnv1a, fnv1a_hash, golden_seed, nonzero_or, xorshift64};
use crate::utils::geometry::Coord;
use vstd::string::StringSliceAdditionalSpecFns;

verus! {

/// The text shakes apart, scatters to the edges of the canvas and snaps back together.
#[derive(Debug, Clone, Copy, Default)]
pub struct Unstable;

impl Unstable {
    pub fn new() -> (effect: Self)
        ensures
            effect == Unstable,
    {
        Unstable
    }

    pub fn name(&self) -> (name: &'static str)
        ensures
            name@ == "unstable"@,
    {
        "unstable"
    }
}

/// `value - 1`, or `i32::MIN` when that does not fit.
pub open spec fn last_index(value: i32) -> i32 {
    if value > i32::MIN {
        (value - 1) as i32
    } else {
        i32::MIN
    }
}

/// `value` limited to `low..=high`.
pub open spec fn clamp_between(value: i32, low: i32, high: i32) -> i32 {
    if value < low {
        low
    } else if value > high {
        high
    } else {
        value
    }
}

/// The 32 high bits of the next xorshift64 state.
pub open spec fn high_word(state: u64) -> u32 {
    (xorshift64(state) >> 32u64) as u32
}

/// A value in `minimum..=maximum` drawn from the state (just `minimum`, without drawing,
/// when the range is empty), and the next state.
pub open spec fn inclusive_draw(state: u64, minimum: i32, maximum: i32) -> (i32, u64) {
    if maximum <= minimum {
        (minimum, state)
    } else {
        (
            (minimum + (high_word(state) as int) % (maximum - minimum + 1)) as i32,
            xorshift64(state),
        )
    }
}

/// A point on the border of a `width` by `height` canvas: the side is picked first (left,
/// right, top, bottom), then the position along it.
pub open spec fn edge_draw(state: u64, width: i32, height: i32) -> (Coord, u64) {
    let max_x = last_index(width);
    let max_y = last_index(height);
    let side = high_word(state) % 4;
    let next = xorshift64(state);
    if side == 0 {
        let (y, s) = inclusive_draw(next, 0, max_y);
        (Coord { x: 0, y }, s)
    } else if side == 1 {
        let (y, s) = inclusive_draw(next, 0, max_y);
        (Coord { x: max_x, y }, s)
    } else if side == 2 {
        let (x, s) = inclusive_draw(next, 0, max_x);
        (Coord { x, y: 0 }, s)
    } else {
        let (x, s) = inclusive_draw(next, 0, max_x);
        (Coord { x, y: max_y }, s)
    }
}

fn saturating_decrement(value: i32) -> (result: i32)
    ensures
        result == last_index(value),
{
    if value > i32::MIN {
        value - 1
    } else {
        i32::MIN
    }
}

/// `coord` moved onto a `width` by `height` canvas.
pub fn clamp_coord(coord: Coord, width: i32, height: i32) -> (clamped: Coord)
    requires
        width >= 1,
        height >= 1,
    ensures
        clamped == (Coord {
            x: clamp_between(coord.x, 0, (width - 1) as i32),
            y: clamp_between(coord.y, 0, (height - 1) as i32),
        }),
{
    let max_x = width - 1;
    let max_y = height - 1;
    let x = if coord.x < 0 {
        0
    } else if coord.x > max_x {
        max_x
    } else {
        coord.x
    };
    let y = if coord.y < 0 {
        0
    } else if coord.y > max_y {
        max_y
    } else {
        coord.y
    };
    Coord::new(x, y)
}

/// A random point on the border of the canvas.
pub fn random_edge_coord(rng: &mut SmallRng, width: i32, height: i32) -> (coord: Coord)
    ensures
        (coord, final(rng)@) == edge_draw(old(rng)@, width, height),
{
    let max_x = saturating_decrement(width);
    let max_y = saturating_decrement(height);
    let side = rng.next_u32() % 4;
    if side == 0 {
        let y = rng.range_i32(0, max_y);
        Coord::new(0, y)
    } else if side == 1 {
        let y = rng.range_i32(0, max_y);
        Coord::new(max_x, y)
    } else if side == 2 {
        let x = rng.range_i32(0, max_x);
        Coord::new(x, 0)
    } else {
        let x = rng.range_i32(0, max_x);
        Coord::new(x, max_y)
    }
}

/// A xorshift64 generator seeded from the text.
#[derive(Debug, Clone, Copy)]
pub struct SmallRng {
    state: u64,
}

impl View for SmallRng {
    type V = u64;

    closed spec fn view(&self) -> u64 {
        self.state
    }
}

impl SmallRng {
    /// Seeded with the FNV-1a hash of the input (a fixed constant in place of zero).
    pub fn from_input(input: &str) -> (rng: Self)
        ensures
            rng@ == nonzero_or(fnv1a(input.spec_bytes()), golden_seed()),
    {
        let hash = fnv1a_hash(input);
        Self {
            state: if hash == 0 {
                0x9e37_79b9_7f4a_7c15
            } else {
                hash
            },
        }
    }

    pub fn next_u32(&mut self) -> (value: u32)
        ensures
            value == high_word(old(self)@),
            final(self)@ == xorshift64(old(self)@),
    {
        let mut value = self.state;
        value ^= value << 13;
        value ^= value >> 7;
        value ^= value << 17;
        self.state = value;
        (value >> 32) as u32
    }

    /// A value in `minimum..=maximum`; the span must fit in `i32`.
    pub fn range_i32(&mut self, minimum: i32, maximum: i32) -> (value: i32)
        requires
            maximum <= minimum || maximum - minimum <= i32::MAX,
        ensures
            (value, final(self)@) == inclusive_draw(old(self)@, minimum, maximum),
            minimum <= maximum ==> minimum <= value <= maximum,
    {
        if maximum <= minimum {
            return minimum;
        }
        let span = (maximum as i64 - minimum as i64 + 1) as u64;
        let offset = self.next_u32() as u64 % span;
        minimum + offset as i32
    }
}

} // verus!
