use vstd::prelude::*;

use crate::effects::random::{
    draw_mod_usize, fisher_yates, lemma_fisher_yates_permutes, lemma_picks_in_range, shuffle_passes,
    xorshift64,
};
use crate::engine::character::EffectCharacter;
use crate::utils::graphics::{rgb_of, Color};

verus! {

/// Characters pour down from the top, furthest rows first.
#[derive(Debug, Clone, Copy, Default)]
pub struct Pour;

impl Pour {
    pub fn new() -> (effect: Self)
        ensures
            effect == Pour,
    {
        Pour
    }

    pub fn name(&self) -> (name: &'static str)
        ensures
            name@ == "pour"@,
    {
        "pour"
    }
}

pub fn color_components(color: Color) -> (channels: (u8, u8, u8))
    ensures
        channels == rgb_of(color),
{
    match color {
        Color::Rgb { r, g, b } => (r, g, b),
        Color::Ansi(value) => (value, value, value),
    }
}

/// Two FNV-1a style steps per character: its input symbol's code point, then its identity.
pub open spec fn characters_hash(characters: Seq<EffectCharacter>) -> u64
    decreases characters.len(),
{
    if characters.len() == 0 {
        0xcbf2_9ce4_8422_2325u64
    } else {
        let before = characters_hash(characters.drop_last());
        let c = characters.last();
        let first = (before ^ (c.input_symbol as u32 as u64)).wrapping_mul(0x0000_0100_0000_01b3u64);
        (first ^ (c.id.0 as u64)).wrapping_mul(0x0000_0100_0000_01b3u64)
    }
}

/// The shuffle seed of the characters: their hash, or 1 in place of zero.
pub fn initial_seed(characters: &[EffectCharacter]) -> (seed: u64)
    ensures
        seed == if characters_hash(characters@) == 0 { 1 } else { characters_hash(characters@) },
{
    let mut seed: u64 = 0xcbf2_9ce4_8422_2325;
    let mut index: usize = 0;
    while index < characters.len()
        invariant
            index <= characters@.len(),
            seed == characters_hash(characters@.subrange(0, index as int)),
        decreases characters@.len() - index,
    {
        proof {
            assert(characters@.subrange(0, index + 1).drop_last() =~= characters@.subrange(
                0,
                index as int,
            ));
        }
        let character = &characters[index];
        seed ^= character.input_symbol as u32 as u64;
        seed = seed.wrapping_mul(0x0000_0100_0000_01b3);
        seed ^= character.id.0 as u64;
        seed = seed.wrapping_mul(0x0000_0100_0000_01b3);
        index += 1;
    }
    assert(characters@.subrange(0, characters@.len() as int) =~= characters@);
    if seed == 0 {
        1
    } else {
        seed
    }
}

/// Fisher-Yates shuffle that steps the seed with xorshift64 and draws each index as the
/// seed (as `usize`) modulo the range.
pub fn shuffle<T>(values: &mut [T], seed: &mut u64)
    ensures
        (final(values)@, *final(seed)) == fisher_yates(old(values)@, *old(seed), draw_mod_usize()),
        final(values)@.to_multiset() == old(values)@.to_multiset(),
{
    let len = values.len();
    proof {
        lemma_picks_in_range();
        lemma_fisher_yates_permutes(values@, *seed, draw_mod_usize());
    }
    if len < 2 {
        return;
    }
    let ghost target = fisher_yates(values@, *seed, draw_mod_usize());
    let mut index = len - 1;
    while index >= 1
        invariant
            index < len,
            values@.len() == len,
            shuffle_passes(values@, *seed, index as nat, draw_mod_usize()) == target,
        decreases index,
    {
        *seed ^= *seed << 13;
        *seed ^= *seed >> 7;
        *seed ^= *seed << 17;
        let swap_index = (*seed as usize) % (index + 1);
        values.swap(index, swap_index);
        index -= 1;
    }
}

} // verus!
