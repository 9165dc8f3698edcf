use vstd::prelude::*;

use crate::utils::graphics::{rgb_of, Color};

verus! {

/// The text bursts out of the canvas centre to its place.
#[derive(Debug, Clone, Copy, Default)]
pub struct Expand;

impl Expand {
    pub fn new() -> (effect: Self)
        ensures
            effect == Expand,
    {
        Expand
    }

    pub fn name(&self) -> (name: &'static str)
        ensures
            name@ == "expand"@,
    {
        "expand"
    }
}

pub fn rgb_components(color: Color) -> (channels: (u8, u8, u8))
    ensures
        channels == rgb_of(color),
{
    match color {
        Color::Rgb { r, g, b } => (r, g, b),
        Color::Ansi(value) => (value, value, value),
    }
}

} // verus!
