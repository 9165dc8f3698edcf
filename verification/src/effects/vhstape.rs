use vstd::prelude::*;

use crate::effects::random::{fnv1a, fnv1a_hash, golden_seed, nonzero_or, xorshift64};
use crate::utils::graphics::{Color, ColorPair, Style};
use vstd::string::StringSliceAdditionalSpecFns;

verus! {

/// The text plays like a worn tape: rows tear sideways, colors bleed and static crackles
/// before the picture settles.
#[derive(Debug, Clone, Copy, Default)]
pub struct Vhstape;

impl Vhstape {
    pub fn new() -> (effect: Self)
        ensures
            effect == Vhstape,
    {
        Vhstape
    }

    pub fn name(&self) -> (name: &'static str)
        ensures
            name@ == "vhstape"@,
    {
        "vhstape"
    }
}

/// `style` with its foreground replaced by `color`; everything else is kept.
pub fn foreground_style(style: Style, color: Color) -> (styled: Style)
    ensures
        styled == (Style {
            colors: ColorPair { foreground: Some(color), ..style.colors },
            ..style
        }),
{
    let mut styled = style;
    styled.colors.foreground = Some(color);
    styled
}

/// The seed of the tape noise: the FNV-1a hash of the input, never zero.
pub fn hash_input(input: &str) -> (hash: u64)
    ensures
        hash == nonzero_or(fnv1a(input.spec_bytes()), golden_seed()),
{
    let hash = fnv1a_hash(input);
    if hash == 0 {
        0x9e37_79b9_7f4a_7c15
    } else {
        hash
    }
}

/// The state that stands in for a zero seed.
pub open spec fn tape_fallback_seed() -> u64 {
    0xa076_1d64_78bd_642fu64
}

/// A value below `upper` drawn from the state (0, without drawing, for bounds of zero and
/// one), and the next state.
pub open spec fn below_draw(state: u64, upper: usize) -> (usize, u64) {
    if upper <= 1 {
        (0, state)
    } else {
        ((xorshift64(state) % (upper as u64)) as usize, xorshift64(state))
    }
}

/// A value in `minimum..=maximum` drawn from the state (just `minimum`, without drawing,
/// when the range is empty), and the next state.
pub open spec fn range_draw(state: u64, minimum: i32, maximum: i32) -> (i32, u64) {
    if maximum <= minimum {
        (minimum, state)
    } else {
        let (offset, next) = below_draw(state, (maximum - minimum + 1) as usize);
        ((minimum + offset) as i32, next)
    }
}

/// A xorshift64 generator.
#[derive(Debug, Clone, Copy)]
pub struct TapeRng {
    state: u64,
}

impl View for TapeRng {
    type V = u64;

    closed spec fn view(&self) -> u64 {
        self.state
    }
}

impl TapeRng {
    /// A generator seeded with `seed` (or a fixed constant in place of zero).
    pub fn new(seed: u64) -> (rng: Self)
        ensures
            rng@ == nonzero_or(seed, tape_fallback_seed()),
    {
        Self {
            state: if seed == 0 {
                0xa076_1d64_78bd_642f
            } else {
                seed
            },
        }
    }

    pub fn next_u64(&mut self) -> (value: u64)
        ensures
            value == xorshift64(old(self)@),
            final(self)@ == value,
    {
        let mut value = self.state;
        value ^= value << 13;
        value ^= value >> 7;
        value ^= value << 17;
        self.state = value;
        value
    }

    /// A value below `upper`; bounds of zero and one give 0 without drawing.
    pub fn below(&mut self, upper: usize) -> (value: usize)
        ensures
            (value, final(self)@) == below_draw(old(self)@, upper),
            upper > 1 ==> value < upper,
    {
        if upper <= 1 {
            0
        } else {
            (self.next_u64() % upper as u64) as usize
        }
    }

    /// A value in `minimum..=maximum`; the number of values must fit in `i32`.
    pub fn range_i32(&mut self, minimum: i32, maximum: i32) -> (value: i32)
        requires
            maximum <= minimum || maximum - minimum < i32::MAX,
        ensures
            (value, final(self)@) == range_draw(old(self)@, minimum, maximum),
            minimum <= maximum ==> minimum <= value <= maximum,
    {
        if maximum <= minimum {
            return minimum;
        }
        let width = (maximum - minimum + 1) as usize;
        minimum + self.below(width) as i32
    }
}

} // verus!
