use vstd::prelude::*;

use crate::effects::random::{
    draw_mod_u64, fisher_yates, fnv1a, fnv1a_hash, golden_seed, lemma_fisher_yates_permutes,
    lemma_picks_in_range, nonzero_or, shuffle_passes, xorshift64,
};
use crate::utils::graphics::{rgb_of, Color};
use vstd::string::StringSliceAdditionalSpecFns;

verus! {

/// The text spins on concentric rings and then returns home.
#[derive(Debug, Clone, Copy, Default)]
pub struct Rings;

impl Rings {
    pub fn new() -> (effect: Self)
        ensures
            effect == Rings,
    {
        Rings
    }

    pub fn name(&self) -> (name: &'static str)
        ensures
            name@ == "rings"@,
    {
        "rings"
    }
}

pub fn color_components(color: Color) -> (channels: (u8, u8, u8))
    ensures
        channels == rgb_of(color),
{
    match color {
        Color::Rgb { r, g, b } => (r, g, b),
        Color::Ansi(value) => (value, value, value),
    }
}

/// Fisher-Yates shuffle drawing each index with `LocalRng::index`.
pub fn shuffle<T>(values: &mut [T], rng: &mut LocalRng)
    ensures
        (final(values)@, final(rng)@) == fisher_yates(old(values)@, old(rng)@, draw_mod_u64()),
        final(values)@.to_multiset() == old(values)@.to_multiset(),
{
    let len = values.len();
    proof {
        lemma_picks_in_range();
        lemma_fisher_yates_permutes(values@, rng@, draw_mod_u64());
    }
    if len < 2 {
        return;
    }
    let ghost target = fisher_yates(values@, rng@, draw_mod_u64());
    let mut index = len - 1;
    while index >= 1
        invariant
            index < len,
            values@.len() == len,
            shuffle_passes(values@, rng@, index as nat, draw_mod_u64()) == target,
        decreases index,
    {
        let other = rng.index(index + 1);
        values.swap(index, other);
        index -= 1;
    }
}

/// A xorshift64 generator seeded from the input text.
#[derive(Debug, Clone)]
pub struct LocalRng {
    state: u64,
}

impl View for LocalRng {
    type V = u64;

    closed spec fn view(&self) -> u64 {
        self.state
    }
}

impl LocalRng {
    /// Seeded with the FNV-1a hash of the input (a fixed constant in place of zero).
    pub fn from_text(input: &str) -> (rng: Self)
        ensures
            rng@ == nonzero_or(fnv1a(input.spec_bytes()), golden_seed()),
    {
        let mut state = fnv1a_hash(input);
        if state == 0 {
            state = 0x9e37_79b9_7f4a_7c15;
        }
        Self { state }
    }

    pub fn next_u64(&mut self) -> (value: u64)
        ensures
            value == xorshift64(old(self)@),
            final(self)@ == value,
    {
        let mut value = self.state;
        value ^= value << 13;
        value ^= value >> 7;
        value ^= value << 17;
        self.state = value;
        value
    }

    /// An index below `upper`; bounds of zero and one give 0 without drawing.
    pub fn index(&mut self, upper: usize) -> (index: usize)
        ensures
            upper <= 1 ==> index == 0 && final(self)@ == old(self)@,
            upper > 1 ==> index == xorshift64(old(self)@) % (upper as u64) && final(self)@
                == xorshift64(old(self)@),
    {
        if upper <= 1 {
            0
        } else {
            (self.next_u64() % upper as u64) as usize
        }
    }
}

} // verus!
