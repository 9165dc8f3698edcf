use vstd::prelude::*;

use crate::effects::random::{
    draw_mod_u64, fisher_yates, fnv1a, fnv1a_hash, golden_seed, lemma_fisher_yates_permutes,
    lemma_picks_in_range, nonzero_or, shuffle_passes, xorshift64,
};
use vstd::string::StringSliceAdditionalSpecFns;

verus! {

/// Characters drop in as coloured balls and bounce into place.
pub struct Bouncyballs;

impl Bouncyballs {
    pub fn new() -> (effect: Self)
        ensures
            effect == Bouncyballs,
    {
        Bouncyballs
    }

    pub fn name(&self) -> (name: &'static str)
        ensures
            name@ == "bouncyballs"@,
    {
        "bouncyballs"
    }
}

impl Default for Bouncyballs {
    fn default() -> (effect: Self)
        ensures
            effect == Bouncyballs,
    {
        Self::new()
    }
}

/// The FNV-1a hash of the input (zero is kept).
pub fn seed_from_input(input: &str) -> (seed: u64)
    ensures
        seed == fnv1a(input.spec_bytes()),
{
    fnv1a_hash(input)
}

/// An index below `bound` drawn from the state, and the next state; bounds of zero and one
/// give 0 without drawing.
pub open spec fn index_draw(state: u64, bound: usize) -> (usize, u64) {
    if bound <= 1 {
        (0, state)
    } else {
        ((xorshift64(state) % (bound as u64)) as usize, xorshift64(state))
    }
}

/// A xorshift64 generator.
pub struct SimpleRng {
    state: u64,
}

impl View for SimpleRng {
    type V = u64;

    closed spec fn view(&self) -> u64 {
        self.state
    }
}

impl SimpleRng {
    /// A generator seeded with `seed` (or a fixed constant in place of zero).
    pub fn new(seed: u64) -> (rng: Self)
        ensures
            rng@ == nonzero_or(seed, golden_seed()),
    {
        Self {
            state: if seed == 0 {
                0x9e37_79b9_7f4a_7c15
            } else {
                seed
            },
        }
    }

    pub fn next_u64(&mut self) -> (value: u64)
        ensures
            value == xorshift64(old(self)@),
            final(self)@ == value,
    {
        let mut value = self.state;
        value ^= value << 13;
        value ^= value >> 7;
        value ^= value << 17;
        self.state = value;
        value
    }

    /// An index below `upper_bound`; bounds of zero and one give 0 without drawing.
    pub fn index(&mut self, upper_bound: usize) -> (index: usize)
        ensures
            (index, final(self)@) == index_draw(old(self)@, upper_bound),
    {
        if upper_bound <= 1 {
            0
        } else {
            (self.next_u64() % upper_bound as u64) as usize
        }
    }

    /// Fisher-Yates shuffle drawing each index with `index`.
    pub fn shuffle<T>(&mut self, values: &mut [T])
        ensures
            (final(values)@, final(self)@) == fisher_yates(old(values)@, old(self)@, draw_mod_u64()),
            final(values)@.to_multiset() == old(values)@.to_multiset(),
    {
        let len = values.len();
        proof {
            lemma_picks_in_range();
            lemma_fisher_yates_permutes(values@, self@, draw_mod_u64());
        }
        if len < 2 {
            return;
        }
        let ghost target = fisher_yates(values@, self@, draw_mod_u64());
        let mut index = len - 1;
        while index >= 1
            invariant
                index < len,
                values@.len() == len,
                shuffle_passes(values@, self@, index as nat, draw_mod_u64()) == target,
            decreases index,
        {
            let swap_index = self.index(index + 1);
            values.swap(index, swap_index);
            index -= 1;
        }
    }
}

} // verus!
