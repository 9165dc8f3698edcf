use vstd::prelude::*;

use crate::effects::random::{fnv1a, fnv1a_hash, golden_seed, nonzero_or, xorshift64};
use crate::utils::graphics::{foreground_only, Color, Style};
use vstd::string::StringSliceAdditionalSpecFns;

verus! {

/// Spotlights search the darkened text, converge, and light it all.
pub struct Spotlights;

impl Spotlights {
    pub fn new() -> (effect: Self)
        ensures
            effect == Spotlights,
    {
        Spotlights
    }

    pub fn name(&self) -> (name: &'static str)
        ensures
            name@ == "spotlights"@,
    {
        "spotlights"
    }
}

impl Default for Spotlights {
    fn default() -> (effect: Self)
        ensures
            effect == Spotlights,
    {
        Self::new()
    }
}

/// An RGB triple.
#[derive(Debug, Clone, Copy, PartialEq, Eq, Structural)]
pub struct Rgb {
    pub r: u8,
    pub g: u8,
    pub b: u8,
}

impl Rgb {
    pub fn new(r: u8, g: u8, b: u8) -> (rgb: Self)
        ensures
            rgb == (Rgb { r, g, b }),
    {
        Self { r, g, b }
    }

    /// The same triple as a terminal colour.
    pub fn color(self) -> (color: Color)
        ensures
            color == (Color::Rgb { r: self.r, g: self.g, b: self.b }),
    {
        Color::rgb(self.r, self.g, self.b)
    }
}

/// The plain style with `color` as foreground.
pub fn foreground_style(color: Rgb) -> (style: Style)
    ensures
        style == foreground_only(Color::Rgb { r: color.r, g: color.g, b: color.b }),
{
    Style::default().with_foreground(color.color())
}

/// The FNV-1a hash of the input, never zero.
pub fn seed_from_input(input: &str) -> (seed: u64)
    ensures
        seed == nonzero_or(fnv1a(input.spec_bytes()), golden_seed()),
{
    let hash = fnv1a_hash(input);
    if hash == 0 {
        0x9e37_79b9_7f4a_7c15
    } else {
        hash
    }
}

/// A xorshift64 generator.
pub struct SmallRng {
    state: u64,
}

impl View for SmallRng {
    type V = u64;

    closed spec fn view(&self) -> u64 {
        self.state
    }
}

impl SmallRng {
    /// A generator seeded with `seed` (or a fixed constant in place of zero).
    pub fn new(seed: u64) -> (rng: Self)
        ensures
            rng@ == nonzero_or(seed, golden_seed()),
    {
        Self {
            state: if seed == 0 {
                0x9e37_79b9_7f4a_7c15
            } else {
                seed
            },
        }
    }

    pub fn next_u64(&mut self) -> (value: u64)
        ensures
            value == xorshift64(old(self)@),
            final(self)@ == value,
    {
        let mut value = self.state;
        value ^= value << 13;
        value ^= value >> 7;
        value ^= value << 17;
        self.state = value;
        value
    }
}

} // verus!
