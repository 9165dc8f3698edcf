use vstd::prelude::*;

use crate::utils::graphics::{rgb_of, Color};

verus! {

/// The text moves out from the centre, first along the middle column and then to its place.
#[derive(Debug, Clone, Copy, Default)]
pub struct Middleout;

impl Middleout {
    pub fn new() -> (effect: Self)
        ensures
            effect == Middleout,
    {
        Middleout
    }

    pub fn name(&self) -> (name: &'static str)
        ensures
            name@ == "middleout"@,
    {
        "middleout"
    }
}

pub fn rgb_components(color: Color) -> (channels: (u8, u8, u8))
    ensures
        channels == rgb_of(color),
{
    match color {
        Color::Rgb { r, g, b } => (r, g, b),
        Color::Ansi(value) => (value, value, value),
    }
}

} // verus!
