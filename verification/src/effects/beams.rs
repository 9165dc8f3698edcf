use vstd::prelude::*;

use crate::effects::random::{
    draw_mod_u64, fisher_yates, fnv1a, fnv1a_hash, golden_seed, lemma_fisher_yates_permutes,
    lemma_picks_in_range, lemma_swapped_symmetric, nonzero_or, shuffle_passes, xorshift64,
};
use crate::utils::graphics::{rgb_of, Color};
use vstd::string::StringSliceAdditionalSpecFns;

verus! {

/// Light beams sweep across every row and column, leaving the text lit behind them.
#[derive(Debug, Clone, Copy, Default)]
pub struct Beams;

impl Beams {
    pub fn new() -> (effect: Self)
        ensures
            effect == Beams,
    {
        Beams
    }

    pub fn name(&self) -> (name: &'static str)
        ensures
            name@ == "beams"@,
    {
        "beams"
    }
}

pub fn rgb_components(color: Color) -> (channels: (u8, u8, u8))
    ensures
        channels == rgb_of(color),
{
    match color {
        Color::Rgb { r, g, b } => (r, g, b),
        Color::Ansi(value) => (value, value, value),
    }
}

/// The FNV-1a hash of the input, never zero.
pub fn hash_input(input: &str) -> (hash: u64)
    ensures
        hash == nonzero_or(fnv1a(input.spec_bytes()), golden_seed()),
{
    let hash = fnv1a_hash(input);
    if hash == 0 {
        0x9e37_79b9_7f4a_7c15
    } else {
        hash
    }
}

/// Fisher-Yates shuffle drawing each index with `range_usize`.
pub fn shuffle<T>(values: &mut [T], rng: &mut SimpleRng)
    ensures
        (final(values)@, final(rng)@) == fisher_yates(old(values)@, old(rng)@, draw_mod_u64()),
        final(values)@.to_multiset() == old(values)@.to_multiset(),
{
    let len = values.len();
    proof {
        lemma_picks_in_range();
        lemma_fisher_yates_permutes(values@, rng@, draw_mod_u64());
    }
    if len < 2 {
        return;
    }
    let ghost target = fisher_yates(values@, rng@, draw_mod_u64());
    let mut upper = len - 1;
    while upper >= 1
        invariant
            upper < len,
            values@.len() == len,
            shuffle_passes(values@, rng@, upper as nat, draw_mod_u64()) == target,
        decreases upper,
    {
        let index = rng.range_usize(upper + 1);
        proof {
            lemma_swapped_symmetric(values@, index as int, upper as int);
        }
        values.swap(index, upper);
        upper -= 1;
    }
}

/// A xorshift64 generator.
#[derive(Debug, Clone)]
pub struct SimpleRng {
    state: u64,
}

impl View for SimpleRng {
    type V = u64;

    closed spec fn view(&self) -> u64 {
        self.state
    }
}

impl SimpleRng {
    /// A generator seeded with `seed` (or a fixed constant in place of zero).
    pub fn new(seed: u64) -> (rng: Self)
        ensures
            rng@ == nonzero_or(seed, golden_seed()),
    {
        Self {
            state: if seed == 0 {
                0x9e37_79b9_7f4a_7c15
            } else {
                seed
            },
        }
    }

    pub fn next_u64(&mut self) -> (value: u64)
        ensures
            value == xorshift64(old(self)@),
            final(self)@ == value,
    {
        let mut value = self.state;
        value ^= value << 13;
        value ^= value >> 7;
        value ^= value << 17;
        self.state = value;
        value
    }

    /// A fair coin: whether the next value is even.
    pub fn next_bool(&mut self) -> (heads: bool)
        ensures
            heads == (xorshift64(old(self)@) & 1 == 0),
            final(self)@ == xorshift64(old(self)@),
    {
        self.next_u64() & 1 == 0
    }

    /// An index below `upper_exclusive`; bounds of zero and one give 0 without drawing.
    pub fn range_usize(&mut self, upper_exclusive: usize) -> (index: usize)
        ensures
            upper_exclusive <= 1 ==> index == 0 && final(self)@ == old(self)@,
            upper_exclusive > 1 ==> index == xorshift64(old(self)@) % (upper_exclusive as u64)
                && final(self)@ == xorshift64(old(self)@),
    {
        if upper_exclusive <= 1 {
            0
        } else {
            (self.next_u64() % upper_exclusive as u64) as usize
        }
    }
}

} // verus!
