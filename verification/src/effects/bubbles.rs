use vstd::prelude::*;

use crate::effects::random::{
    draw_mod_usize, fisher_yates, fnv1a, fnv1a_hash, golden_seed, lemma_fisher_yates_permutes,
    lemma_picks_in_range, nonzero_or, shuffle_passes, xorshift64,
};
use crate::utils::geometry::fits_i32;
use vstd::string::StringSliceAdditionalSpecFns;

verus! {

/// Groups of characters rise as bubbles, pop, and fall back into place.
pub struct Bubbles;

impl Bubbles {
    pub fn new() -> (effect: Self)
        ensures
            effect == Bubbles,
    {
        Bubbles
    }

    pub fn name(&self) -> (name: &'static str)
        ensures
            name@ == "bubbles"@,
    {
        "bubbles"
    }
}

impl Default for Bubbles {
    fn default() -> (effect: Self)
        ensures
            effect == Bubbles,
    {
        Self::new()
    }
}

/// The FNV-1a hash of the input, never zero.
pub fn seed_from_input(input: &str) -> (seed: u64)
    ensures
        seed == nonzero_or(fnv1a(input.spec_bytes()), golden_seed()),
{
    let hash = fnv1a_hash(input);
    if hash == 0 {
        0x9e37_79b9_7f4a_7c15
    } else {
        hash
    }
}

/// Fisher-Yates shuffle drawing each index with `range_inclusive(0, index)`.
pub fn shuffle<T>(values: &mut [T], rng: &mut SimpleRng)
    ensures
        (final(values)@, final(rng)@) == fisher_yates(old(values)@, old(rng)@, draw_mod_usize()),
        final(values)@.to_multiset() == old(values)@.to_multiset(),
{
    let len = values.len();
    proof {
        lemma_picks_in_range();
        lemma_fisher_yates_permutes(values@, rng@, draw_mod_usize());
    }
    if len < 2 {
        return;
    }
    let ghost target = fisher_yates(values@, rng@, draw_mod_usize());
    let mut index = len - 1;
    while index >= 1
        invariant
            index < len,
            values@.len() == len,
            shuffle_passes(values@, rng@, index as nat, draw_mod_usize()) == target,
        decreases index,
    {
        let other = rng.range_inclusive(0, index);
        values.swap(index, other);
        index -= 1;
    }
}

/// A xorshift64 generator (a zero seed is kept as it is).
pub struct SimpleRng {
    state: u64,
}

impl View for SimpleRng {
    type V = u64;

    closed spec fn view(&self) -> u64 {
        self.state
    }
}

impl SimpleRng {
    pub fn new(seed: u64) -> (rng: Self)
        ensures
            rng@ == seed,
    {
        Self { state: seed }
    }

    pub fn next_u64(&mut self) -> (value: u64)
        ensures
            value == xorshift64(old(self)@),
            final(self)@ == value,
    {
        let mut value = self.state;
        value ^= value << 13;
        value ^= value >> 7;
        value ^= value << 17;
        self.state = value;
        value
    }

    /// A value in `start..end`; an empty range gives `start` without drawing.
    pub fn range(&mut self, start: usize, end: usize) -> (value: usize)
        ensures
            end <= start ==> value == start && final(self)@ == old(self)@,
            end > start ==> value == start + (xorshift64(old(self)@) as usize) % (end - start) as usize
                && final(self)@ == xorshift64(old(self)@),
    {
        if end <= start {
            return start;
        }
        start + (self.next_u64() as usize % (end - start))
    }

    /// A value in `start..=end`; when `end <= start` it gives `start` without drawing.
    /// The span `end - start + 1` must fit in `usize`.
    pub fn range_inclusive(&mut self, start: usize, end: usize) -> (value: usize)
        requires
            end <= start || end - start + 1 <= usize::MAX,
        ensures
            end <= start ==> value == start && final(self)@ == old(self)@,
            end > start ==> value == start + (xorshift64(old(self)@) as usize) % (end - start
                + 1) as usize && final(self)@ == xorshift64(old(self)@),
    {
        if end <= start {
            return start;
        }
        start + (self.next_u64() as usize % (end - start + 1))
    }

    /// A value in `start..=end`; when `end <= start` it gives `start` without drawing.
    /// The span `end - start + 1` must fit in `i32`.
    pub fn range_i32(&mut self, start: i32, end: i32) -> (value: i32)
        requires
            end <= start || fits_i32(end - start + 1),
        ensures
            end <= start ==> value == start && final(self)@ == old(self)@,
            end > start ==> value == start + (xorshift64(old(self)@) % ((end - start + 1) as u64))
                && final(self)@ == xorshift64(old(self)@),
    {
        if end <= start {
            return start;
        }
        start + (self.next_u64() % (end - start + 1) as u64) as i32
    }
}

} // verus!
