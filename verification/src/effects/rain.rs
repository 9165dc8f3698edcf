use vstd::prelude::*;

use crate::effects::random::{
    draw_mod_usize, fisher_yates, fnv1a, fnv1a_hash, golden_seed, lemma_fisher_yates_permutes,
    lemma_picks_in_range, nonzero_or, shuffle_passes, xorshift64,
};
use crate::utils::graphics::{rgb_of, Color};
use vstd::string::StringSliceAdditionalSpecFns;

verus! {

/// Characters fall like raindrops and fade into their final colour.
pub struct Rain;

impl Rain {
    pub fn new() -> (effect: Self)
        ensures
            effect == Rain,
    {
        Rain
    }

    pub fn name(&self) -> (name: &'static str)
        ensures
            name@ == "rain"@,
    {
        "rain"
    }
}

impl Default for Rain {
    fn default() -> (effect: Self)
        ensures
            effect == Rain,
    {
        Self::new()
    }
}

pub fn color_rgb(color: Color) -> (channels: (u8, u8, u8))
    ensures
        channels == rgb_of(color),
{
    match color {
        Color::Rgb { r, g, b } => (r, g, b),
        Color::Ansi(value) => (value, value, value),
    }
}

/// The FNV-1a hash of the input, never zero.
pub fn seed_from_input(input: &str) -> (seed: u64)
    ensures
        seed == nonzero_or(fnv1a(input.spec_bytes()), golden_seed()),
{
    let hash = fnv1a_hash(input);
    if hash == 0 {
        0x9e37_79b9_7f4a_7c15
    } else {
        hash
    }
}

/// Fisher-Yates shuffle drawing each index with `range_usize(0, index)`.
pub fn shuffle<T>(values: &mut [T], rng: &mut RainRng)
    ensures
        (final(values)@, final(rng)@) == fisher_yates(old(values)@, old(rng)@, draw_mod_usize()),
        final(values)@.to_multiset() == old(values)@.to_multiset(),
{
    let len = values.len();
    proof {
        lemma_picks_in_range();
        lemma_fisher_yates_permutes(values@, rng@, draw_mod_usize());
    }
    if len < 2 {
        return;
    }
    let ghost target = fisher_yates(values@, rng@, draw_mod_usize());
    let mut index = len - 1;
    while index >= 1
        invariant
            index < len,
            values@.len() == len,
            shuffle_passes(values@, rng@, index as nat, draw_mod_usize()) == target,
        decreases index,
    {
        let swap_index = rng.range_usize(0, index);
        values.swap(index, swap_index);
        index -= 1;
    }
}

/// A xorshift64 generator.
pub struct RainRng {
    state: u64,
}

impl View for RainRng {
    type V = u64;

    closed spec fn view(&self) -> u64 {
        self.state
    }
}

impl RainRng {
    /// A generator seeded with `seed` (or a fixed constant in place of zero).
    pub fn new(seed: u64) -> (rng: Self)
        ensures
            rng@ == nonzero_or(seed, golden_seed()),
    {
        Self {
            state: if seed == 0 {
                0x9e37_79b9_7f4a_7c15
            } else {
                seed
            },
        }
    }

    pub fn next_u64(&mut self) -> (value: u64)
        ensures
            value == xorshift64(old(self)@),
            final(self)@ == value,
    {
        let mut value = self.state;
        value ^= value << 13;
        value ^= value >> 7;
        value ^= value << 17;
        self.state = value;
        value
    }

    /// A value in `minimum..=maximum` (just `minimum`, without drawing, when the range is
    /// empty or a single value); the span must fit in `usize`.
    pub fn range_usize(&mut self, minimum: usize, maximum: usize) -> (value: usize)
        requires
            maximum <= minimum || maximum - minimum + 1 <= usize::MAX,
        ensures
            maximum <= minimum ==> value == minimum && final(self)@ == old(self)@,
            maximum > minimum ==> value == minimum + (xorshift64(old(self)@) as usize) % (maximum
                - minimum + 1) as usize && final(self)@ == xorshift64(old(self)@),
    {
        if minimum >= maximum {
            return minimum;
        }
        minimum + (self.next_u64() as usize % (maximum - minimum + 1))
    }
}

} // verus!
