use vstd::prelude::*;

use crate::effects::random::{fnv1a, fnv1a_hash, fnv_prime, golden_seed, lcg64};
use crate::utils::graphics::Color;
use vstd::string::StringSliceAdditionalSpecFns;

verus! {

/// Characters start scattered over the canvas and gather into the text.
pub struct Scattered;

impl Scattered {
    pub fn new() -> (effect: Self)
        ensures
            effect == Scattered,
    {
        Scattered
    }

    pub fn name(&self) -> (name: &'static str)
        ensures
            name@ == "scattered"@,
    {
        "scattered"
    }
}

impl Default for Scattered {
    fn default() -> (effect: Self)
        ensures
            effect == Scattered,
    {
        Self::new()
    }
}

/// `numerator / denominator` rounded to the nearest integer, halves away from zero.
pub open spec fn round_div(numerator: int, denominator: int) -> int {
    if numerator >= 0 {
        (numerator + denominator / 2) / denominator
    } else {
        -((-numerator + denominator / 2) / denominator)
    }
}

/// `value` limited to `0..=255`.
pub open spec fn clamp_channel(value: int) -> int {
    if value < 0 {
        0
    } else if value > 255 {
        255
    } else {
        value
    }
}

/// The channel `step / denominator` of the way from `start` to `end`, rounded half away
/// from zero (a zero denominator counts as one).
pub open spec fn channel_at(start: u8, end: u8, step: u32, denominator: u32) -> u8 {
    let denominator = if denominator >= 1 { denominator as int } else { 1 };
    clamp_channel(start + round_div((end - start) * step, denominator)) as u8
}

pub fn interpolate_channel(start: u8, end: u8, step: u32, denominator: u32) -> (channel: u8)
    ensures
        channel == channel_at(start, end, step, denominator),
{
    let start = start as i64;
    let difference = end as i64 - start;
    proof {
        assert(-255 * (step as int) <= difference * step <= 255 * (step as int)) by (nonlinear_arith)
            requires
                -255 <= difference <= 255,
        ;
    }
    let numerator = difference * step as i64;
    let denominator = if denominator >= 1 {
        denominator as i64
    } else {
        1
    };
    let offset = if numerator >= 0 {
        (numerator + denominator / 2) / denominator
    } else {
        (numerator - denominator / 2) / denominator
    };
    let value = start + offset;
    if value < 0 {
        0
    } else if value > 255 {
        255
    } else {
        value as u8
    }
}

/// The gradient step of row `y`: bottom row 0, top row 11, scaled over the rows.
pub open spec fn gradient_step(y: i32, height: usize) -> int {
    if height <= 1 {
        0
    } else {
        let top = (height - 1) as int;
        let row = if y < 0 {
            0
        } else if y > top {
            top
        } else {
            y as int
        };
        (top - row) * 11 / top
    }
}

/// The orange-to-lavender gradient colour of row `y`, in twelve steps from the bottom row.
pub fn gradient_color(y: i32, height: usize) -> (color: Color)
    requires
        height <= i32::MAX as usize + 1,
        (height as int) * 11 <= usize::MAX,
    ensures
        color == (Color::Rgb {
            r: channel_at(0xff, 0xab, gradient_step(y, height) as u32, 11),
            g: channel_at(0x90, 0x9d, gradient_step(y, height) as u32, 11),
            b: channel_at(0x48, 0xff, gradient_step(y, height) as u32, 11),
        }),
{
    let step = if height <= 1 {
        0
    } else {
        let top = height - 1;
        let row = if y < 0 {
            0
        } else if y as usize > top {
            top
        } else {
            y as usize
        };
        let distance_from_bottom = top - row;
        proof {
            assert(distance_from_bottom * 11 <= top * 11) by (nonlinear_arith)
                requires
                    distance_from_bottom <= top,
            ;
            assert(distance_from_bottom * 11 / (top as int) <= 11) by (nonlinear_arith)
                requires
                    distance_from_bottom <= top,
                    top >= 1,
            ;
        }
        distance_from_bottom * 11 / top
    };
    let step = step as u32;
    Color::rgb(
        interpolate_channel(0xff, 0xab, step, 11),
        interpolate_channel(0x90, 0x9d, step, 11),
        interpolate_channel(0x48, 0xff, step, 11),
    )
}

/// The FNV-1a hash of the input with the canvas width and height mixed in.
pub open spec fn scatter_seed(bytes: Seq<u8>, width: usize, height: usize) -> u64 {
    ((fnv1a(bytes) ^ (width as u64)).wrapping_mul(fnv_prime())) ^ (height as u64)
}

pub fn seed_from_input(input: &str, width: usize, height: usize) -> (seed: u64)
    ensures
        seed == scatter_seed(input.spec_bytes(), width, height),
{
    let mut hash = fnv1a_hash(input);
    hash ^= width as u64;
    hash = hash.wrapping_mul(0x0000_0100_0000_01b3);
    hash ^= height as u64;
    hash
}

/// A 64-bit linear congruential generator.
pub struct LocalRng {
    state: u64,
}

impl View for LocalRng {
    type V = u64;

    closed spec fn view(&self) -> u64 {
        self.state
    }
}

impl LocalRng {
    /// A generator whose state is the seed xor a fixed constant.
    pub fn new(seed: u64) -> (rng: Self)
        ensures
            rng@ == seed ^ golden_seed(),
    {
        Self { state: seed ^ 0x9e37_79b9_7f4a_7c15 }
    }

    pub fn next_u64(&mut self) -> (value: u64)
        ensures
            value == lcg64(old(self)@),
            final(self)@ == value,
    {
        self.state = self.state.wrapping_mul(6_364_136_223_846_793_005).wrapping_add(
            1_442_695_040_888_963_407,
        );
        self.state
    }

    /// An index below `upper_bound`; bounds of zero and one give 0 without drawing.
    pub fn index(&mut self, upper_bound: usize) -> (index: usize)
        ensures
            upper_bound <= 1 ==> index == 0 && final(self)@ == old(self)@,
            upper_bound > 1 ==> index == lcg64(old(self)@) % (upper_bound as u64) && final(self)@
                == lcg64(old(self)@),
    {
        if upper_bound <= 1 {
            0
        } else {
            (self.next_u64() % upper_bound as u64) as usize
        }
    }
}

} // verus!
