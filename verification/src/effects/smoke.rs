use vstd::prelude::*;

use crate::effects::random::{
    draw_mod_usize, fisher_yates, fnv1a, fnv1a_hash, golden_seed, lemma_fisher_yates_permutes,
    lemma_picks_in_range, nonzero_or, shuffle_passes, xorshift64,
};
use crate::utils::geometry::fits_i32;
use vstd::string::StringSliceAdditionalSpecFns;

verus! {

/// Characters drift up as smoke from below the canvas and condense into the text.
pub struct Smoke;

impl Smoke {
    pub fn new() -> (effect: Self)
        ensures
            effect == Smoke,
    {
        Smoke
    }

    pub fn name(&self) -> (name: &'static str)
        ensures
            name@ == "smoke"@,
    {
        "smoke"
    }
}

impl Default for Smoke {
    fn default() -> (effect: Self)
        ensures
            effect == Smoke,
    {
        Self::new()
    }
}

/// The FNV-1a hash of the input, never zero.
pub fn hash_input(input: &str) -> (hash: u64)
    ensures
        hash == nonzero_or(fnv1a(input.spec_bytes()), golden_seed()),
{
    let hash = fnv1a_hash(input);
    if hash == 0 {
        0x9e37_79b9_7f4a_7c15
    } else {
        hash
    }
}

/// Fisher-Yates shuffle of indices drawing each with `range_usize(0, index + 1)`.
pub fn shuffle(values: &mut [usize], rng: &mut SmokeRng)
    ensures
        (final(values)@, final(rng)@) == fisher_yates(old(values)@, old(rng)@, draw_mod_usize()),
        final(values)@.to_multiset() == old(values)@.to_multiset(),
{
    let len = values.len();
    proof {
        lemma_picks_in_range();
        lemma_fisher_yates_permutes(values@, rng@, draw_mod_usize());
    }
    if len < 2 {
        return;
    }
    let ghost target = fisher_yates(values@, rng@, draw_mod_usize());
    let mut index = len - 1;
    while index >= 1
        invariant
            index < len,
            values@.len() == len,
            shuffle_passes(values@, rng@, index as nat, draw_mod_usize()) == target,
        decreases index,
    {
        let swap_index = rng.range_usize(0, index + 1);
        values.swap(index, swap_index);
        index -= 1;
    }
}

/// A xorshift64 generator.
pub struct SmokeRng {
    state: u64,
}

impl View for SmokeRng {
    type V = u64;

    closed spec fn view(&self) -> u64 {
        self.state
    }
}

impl SmokeRng {
    /// A generator seeded with `seed`, raised to one if it is zero.
    pub fn new(seed: u64) -> (rng: Self)
        ensures
            rng@ == if seed >= 1 { seed } else { 1 },
    {
        Self { state: if seed >= 1 { seed } else { 1 } }
    }

    pub fn next_u64(&mut self) -> (value: u64)
        ensures
            value == xorshift64(old(self)@),
            final(self)@ == value,
    {
        self.state ^= self.state << 13;
        self.state ^= self.state >> 7;
        self.state ^= self.state << 17;
        self.state
    }

    /// A value in `start..end`; an empty range gives `start` without drawing.
    pub fn range_usize(&mut self, start: usize, end: usize) -> (value: usize)
        ensures
            end <= start ==> value == start && final(self)@ == old(self)@,
            end > start ==> value == start + (xorshift64(old(self)@) as usize) % (end - start) as usize
                && final(self)@ == xorshift64(old(self)@),
    {
        if end <= start {
            return start;
        }
        start + (self.next_u64() as usize % (end - start))
    }

    /// A value in `start..end`; an empty range gives `start` without drawing. The span
    /// must fit in `i32`.
    pub fn range_i32(&mut self, start: i32, end: i32) -> (value: i32)
        requires
            end <= start || fits_i32(end - start),
        ensures
            end <= start ==> value == start && final(self)@ == old(self)@,
            end > start ==> value == start + xorshift64(old(self)@) % ((end - start) as u64)
                && final(self)@ == xorshift64(old(self)@),
    {
        if end <= start {
            return start;
        }
        start + (self.next_u64() % (end - start) as u64) as i32
    }
}

} // verus!
