use vstd::prelude::*;

use crate::effects::random::{
    draw_mod_u64, fisher_yates, lemma_fisher_yates_permutes, lemma_picks_in_range, nonzero_or,
    shuffle_passes, xorshift64,
};
use crate::utils::geometry::Coord;
use crate::utils::graphics::{plain_style, Color, ColorPair, Style};
use vstd::string::StringSliceAdditionalSpecFns;

verus! {

/// The text is scattered as stars, swallowed by a black hole, and thrown back into place.
pub struct Blackhole;

impl Blackhole {
    pub fn new() -> (effect: Self)
        ensures
            effect == Blackhole,
    {
        Blackhole
    }

    pub fn name(&self) -> (name: &'static str)
        ensures
            name@ == "blackhole"@,
    {
        "blackhole"
    }
}

impl Default for Blackhole {
    fn default() -> (effect: Self)
        ensures
            effect == Blackhole,
    {
        Self::new()
    }
}

/// An index below `bound` drawn from the state, and the next state; bounds of zero and one
/// give 0 without drawing.
pub open spec fn index_draw(state: u64, bound: usize) -> (usize, u64) {
    if bound <= 1 {
        (0, state)
    } else {
        ((xorshift64(state) % (bound as u64)) as usize, xorshift64(state))
    }
}

/// A position on a `width` by `height` canvas (each taken as at least one), drawn column
/// first.
pub open spec fn coord_draw(state: u64, width: usize, height: usize) -> (Coord, u64) {
    let (x, s1) = index_draw(state, if width >= 1 { width } else { 1 });
    let (y, s2) = index_draw(s1, if height >= 1 { height } else { 1 });
    (Coord { x: x as i32, y: y as i32 }, s2)
}

pub fn random_coord(rng: &mut SmallRng, width: usize, height: usize) -> (coord: Coord)
    ensures
        (coord, final(rng)@) == coord_draw(old(rng)@, width, height),
{
    let x = rng.index(if width >= 1 { width } else { 1 });
    let y = rng.index(if height >= 1 { height } else { 1 });
    Coord::new(x as i32, y as i32)
}

/// The plain style with `color` as foreground.
pub fn colored_style(color: Color) -> (style: Style)
    ensures
        style == (Style { colors: ColorPair { foreground: Some(color), background: None }, ..plain_style() }),
{
    Style::default().with_foreground(color)
}

/// Fisher-Yates shuffle drawing each index with `SmallRng::index`.
pub fn shuffle<T>(values: &mut [T], rng: &mut SmallRng)
    ensures
        (final(values)@, final(rng)@) == fisher_yates(old(values)@, old(rng)@, draw_mod_u64()),
        final(values)@.to_multiset() == old(values)@.to_multiset(),
{
    let len = values.len();
    proof {
        lemma_picks_in_range();
        lemma_fisher_yates_permutes(values@, rng@, draw_mod_u64());
    }
    if len < 2 {
        return;
    }
    let ghost target = fisher_yates(values@, rng@, draw_mod_u64());
    let mut index = len - 1;
    while index >= 1
        invariant
            index < len,
            values@.len() == len,
            shuffle_passes(values@, rng@, index as nat, draw_mod_u64()) == target,
        decreases index,
    {
        let swap_index = rng.index(index + 1);
        values.swap(index, swap_index);
        index -= 1;
    }
}

/// One step of the seed fold: multiply by the FNV prime and add the byte plus one, both
/// modulo 2^64.
pub open spec fn seed_step(state: u64, byte: u8) -> u64 {
    state.wrapping_mul(0x100_0000_01b3u64).wrapping_add((byte as u64 + 1) as u64)
}

/// The seed folded over `bytes` from `start`.
pub open spec fn seed_fold(start: u64, bytes: Seq<u8>) -> u64
    decreases bytes.len(),
{
    if bytes.len() == 0 {
        start
    } else {
        seed_step(seed_fold(start, bytes.drop_last()), bytes.last())
    }
}

/// The seed of the scattering: the fold of the input's bytes from the golden seed.
pub fn seed_from_input(input: &str) -> (seed: u64)
    ensures
        seed == seed_fold(0x9e37_79b9_7f4a_7c15u64, input.spec_bytes()),
{
    let bytes = input.as_bytes();
    let mut state: u64 = 0x9e37_79b9_7f4a_7c15;
    let mut index: usize = 0;
    while index < bytes.len()
        invariant
            index <= bytes@.len(),
            bytes@ == input.spec_bytes(),
            state == seed_fold(0x9e37_79b9_7f4a_7c15u64, bytes@.subrange(0, index as int)),
        decreases bytes@.len() - index,
    {
        proof {
            assert(bytes@.subrange(0, index + 1).drop_last() =~= bytes@.subrange(0, index as int));
        }
        state = state.wrapping_mul(0x100_0000_01b3).wrapping_add(bytes[index] as u64 + 1);
        index += 1;
    }
    assert(bytes@.subrange(0, bytes@.len() as int) =~= bytes@);
    state
}

/// A xorshift64 generator.
pub struct SmallRng {
    state: u64,
}

impl View for SmallRng {
    type V = u64;

    closed spec fn view(&self) -> u64 {
        self.state
    }
}

impl SmallRng {
    /// A generator seeded with `seed` (or a fixed constant in place of zero).
    pub fn new(seed: u64) -> (rng: Self)
        ensures
            rng@ == nonzero_or(seed, 0xa5a5_5a5a_d3c1_b2e7u64),
    {
        Self {
            state: if seed == 0 {
                0xa5a5_5a5a_d3c1_b2e7
            } else {
                seed
            },
        }
    }

    pub fn next_u64(&mut self) -> (value: u64)
        ensures
            value == xorshift64(old(self)@),
            final(self)@ == value,
    {
        let mut value = self.state;
        value ^= value << 13;
        value ^= value >> 7;
        value ^= value << 17;
        self.state = value;
        value
    }

    /// An index below `upper_bound`; bounds of zero and one give 0 without drawing.
    pub fn index(&mut self, upper_bound: usize) -> (index: usize)
        ensures
            (index, final(self)@) == index_draw(old(self)@, upper_bound),
    {
        if upper_bound <= 1 {
            0
        } else {
            (self.next_u64() % upper_bound as u64) as usize
        }
    }
}

} // verus!
