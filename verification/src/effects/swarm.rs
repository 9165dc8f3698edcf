use vstd::prelude::*;

use crate::effects::random::{
    draw_mod_u64, fisher_yates, fnv1a, fnv1a_hash, golden_seed, lemma_fisher_yates_permutes,
    lemma_picks_in_range, nonzero_or, shuffle_passes, xorshift64,
};
use crate::utils::geometry::{fits_i32, Coord};
use vstd::string::StringSliceAdditionalSpecFns;

verus! {

/// Swarms of characters fly a shared route before landing in the text.
pub struct Swarm;

impl Swarm {
    pub fn new() -> (effect: Self)
        ensures
            effect == Swarm,
    {
        Swarm
    }

    pub fn name(&self) -> (name: &'static str)
        ensures
            name@ == "swarm"@,
    {
        "swarm"
    }
}

impl Default for Swarm {
    fn default() -> (effect: Self)
        ensures
            effect == Swarm,
    {
        Self::new()
    }
}

/// An index below `length` drawn from the state, and the next state; lengths of zero and
/// one give 0 without drawing.
pub open spec fn index_draw(state: u64, length: usize) -> (usize, u64) {
    if length <= 1 {
        (0, state)
    } else {
        ((xorshift64(state) % (length as u64)) as usize, xorshift64(state))
    }
}

/// A value in `start..end` drawn from the state (just `start`, without drawing, when the
/// range is empty), and the next state.
pub open spec fn range_draw(state: u64, start: i32, end: i32) -> (i32, u64) {
    if end <= start {
        (start, state)
    } else {
        let (offset, next) = index_draw(state, (end - start) as usize);
        ((start + offset) as i32, next)
    }
}

/// `value` limited to `low..=high`.
pub open spec fn clamp_i32(value: int, low: int, high: int) -> int {
    if value < low {
        low
    } else if value > high {
        high
    } else {
        value
    }
}

/// A position on a `width` by `height` canvas (each taken as at least one), drawn column
/// first.
pub fn random_coord(rng: &mut SwarmRng, width: i32, height: i32) -> (coord: Coord)
    ensures
        ({
            let (x, s1) = range_draw(old(rng)@, 0i32, if width >= 1 { width } else { 1 });
            let (y, s2) = range_draw(s1, 0i32, if height >= 1 { height } else { 1 });
            coord == (Coord { x, y }) && final(rng)@ == s2
        }),
{
    let x = rng.range_i32(0, if width >= 1 { width } else { 1 });
    let y = rng.range_i32(0, if height >= 1 { height } else { 1 });
    Coord::new(x, y)
}

/// `coord` moved by up to two columns and one row at random, kept on the canvas.
pub fn jitter_coord(rng: &mut SwarmRng, coord: Coord, width: i32, height: i32) -> (jittered: Coord)
    requires
        width >= 1,
        height >= 1,
        fits_i32(coord.x - 2),
        fits_i32(coord.x + 2),
        fits_i32(coord.y - 1),
        fits_i32(coord.y + 1),
    ensures
        ({
            let (dx, s1) = range_draw(old(rng)@, -2i32, 3i32);
            let (dy, s2) = range_draw(s1, -1i32, 2i32);
            jittered == (Coord {
                x: clamp_i32(coord.x + dx, 0, width - 1) as i32,
                y: clamp_i32(coord.y + dy, 0, height - 1) as i32,
            }) && final(rng)@ == s2
        }),
{
    let moved_x = coord.x + rng.range_i32(-2, 3);
    let x = if moved_x < 0 {
        0
    } else if moved_x > width - 1 {
        width - 1
    } else {
        moved_x
    };
    let moved_y = coord.y + rng.range_i32(-1, 2);
    let y = if moved_y < 0 {
        0
    } else if moved_y > height - 1 {
        height - 1
    } else {
        moved_y
    };
    Coord::new(x, y)
}

/// The FNV-1a hash of the input, never zero.
pub fn seed_from_input(input: &str) -> (seed: u64)
    ensures
        seed == nonzero_or(fnv1a(input.spec_bytes()), golden_seed()),
{
    let hash = fnv1a_hash(input);
    if hash == 0 {
        0x9e37_79b9_7f4a_7c15
    } else {
        hash
    }
}

/// A xorshift64 generator (a zero seed is kept as it is).
pub struct SwarmRng {
    state: u64,
}

impl View for SwarmRng {
    type V = u64;

    closed spec fn view(&self) -> u64 {
        self.state
    }
}

impl SwarmRng {
    pub fn new(seed: u64) -> (rng: Self)
        ensures
            rng@ == seed,
    {
        Self { state: seed }
    }

    pub fn next_u64(&mut self) -> (value: u64)
        ensures
            value == xorshift64(old(self)@),
            final(self)@ == value,
    {
        let mut value = self.state;
        value ^= value << 13;
        value ^= value >> 7;
        value ^= value << 17;
        self.state = value;
        value
    }

    /// An index below `length`; lengths of zero and one give 0 without drawing.
    pub fn index(&mut self, length: usize) -> (index: usize)
        ensures
            (index, final(self)@) == index_draw(old(self)@, length),
    {
        if length <= 1 {
            0
        } else {
            (self.next_u64() % length as u64) as usize
        }
    }

    /// A value in `start..end` (just `start` when the range is empty); the span must fit
    /// in `i32`.
    pub fn range_i32(&mut self, start: i32, end: i32) -> (value: i32)
        requires
            end <= start || fits_i32(end - start),
        ensures
            (value, final(self)@) == range_draw(old(self)@, start, end),
    {
        if end <= start {
            return start;
        }
        start + self.index((end - start) as usize) as i32
    }

    /// Fisher-Yates shuffle drawing each index with `index`.
    pub fn shuffle<T>(&mut self, values: &mut [T])
        ensures
            (final(values)@, final(self)@) == fisher_yates(old(values)@, old(self)@, draw_mod_u64()),
            final(values)@.to_multiset() == old(values)@.to_multiset(),
    {
        let len = values.len();
        proof {
            lemma_picks_in_range();
            lemma_fisher_yates_permutes(values@, self@, draw_mod_u64());
        }
        if len < 2 {
            return;
        }
        let ghost target = fisher_yates(values@, self@, draw_mod_u64());
        let mut index = len - 1;
        while index >= 1
            invariant
                index < len,
                values@.len() == len,
                shuffle_passes(values@, self@, index as nat, draw_mod_u64()) == target,
            decreases index,
        {
            let other = self.index(index + 1);
            values.swap(index, other);
            index -= 1;
        }
    }
}

} // verus!
