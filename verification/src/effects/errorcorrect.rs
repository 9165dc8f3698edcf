use vstd::prelude::*;

use crate::effects::random::{
    draw_mod_usize, fisher_yates, fnv1a, fnv1a_hash, golden_seed, lemma_fisher_yates_permutes,
    lemma_picks_in_range, nonzero_or, shuffle_passes, xorshift64,
};
use vstd::string::StringSliceAdditionalSpecFns;

verus! {

/// Pairs of neighbouring characters start swapped in red and are corrected one by one.
#[derive(Debug, Clone, Copy, Default)]
pub struct Errorcorrect;

impl Errorcorrect {
    pub fn new() -> (effect: Self)
        ensures
            effect == Errorcorrect,
    {
        Errorcorrect
    }

    pub fn name(&self) -> (name: &'static str)
        ensures
            name@ == "errorcorrect"@,
    {
        "errorcorrect"
    }
}

/// A xorshift64 generator seeded from the input text.
#[derive(Debug, Clone, Copy)]
pub struct SimpleRng {
    state: u64,
}

impl View for SimpleRng {
    type V = u64;

    closed spec fn view(&self) -> u64 {
        self.state
    }
}

impl SimpleRng {
    /// Seeded with the FNV-1a hash of the input (a fixed constant in place of zero).
    pub fn from_input(input: &str) -> (rng: Self)
        ensures
            rng@ == nonzero_or(fnv1a(input.spec_bytes()), golden_seed()),
    {
        let mut state = fnv1a_hash(input);
        if state == 0 {
            state = 0x9e37_79b9_7f4a_7c15;
        }
        Self { state }
    }

    pub fn next_u64(&mut self) -> (value: u64)
        ensures
            value == xorshift64(old(self)@),
            final(self)@ == value,
    {
        let mut value = self.state;
        value ^= value << 13;
        value ^= value >> 7;
        value ^= value << 17;
        self.state = value;
        value
    }

    /// Fisher-Yates shuffle drawing each index as the next value modulo the range.
    pub fn shuffle<T>(&mut self, values: &mut [T])
        ensures
            (final(values)@, final(self)@) == fisher_yates(old(values)@, old(self)@, draw_mod_usize()),
            final(values)@.to_multiset() == old(values)@.to_multiset(),
    {
        let len = values.len();
        proof {
            lemma_picks_in_range();
            lemma_fisher_yates_permutes(values@, self@, draw_mod_usize());
        }
        if len < 2 {
            return;
        }
        let ghost target = fisher_yates(values@, self@, draw_mod_usize());
        let mut index = len - 1;
        while index >= 1
            invariant
                index < len,
                values@.len() == len,
                shuffle_passes(values@, self@, index as nat, draw_mod_usize()) == target,
            decreases index,
        {
            let other = (self.next_u64() as usize) % (index + 1);
            values.swap(index, other);
            index -= 1;
        }
    }
}

} // verus!
