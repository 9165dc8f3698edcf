use vstd::prelude::*;

verus! {

/// Shells of characters launch, burst, and drift down into place.
pub struct Fireworks;

impl Fireworks {
    pub fn new() -> (effect: Self)
        ensures
            effect == Fireworks,
    {
        Fireworks
    }

    pub fn name(&self) -> (name: &'static str)
        ensures
            name@ == "fireworks"@,
    {
        "fireworks"
    }
}

impl Default for Fireworks {
    fn default() -> (effect: Self)
        ensures
            effect == Fireworks,
    {
        Self::new()
    }
}

/// The SplitMix64 finaliser.
pub open spec fn splitmix(value: u64) -> u64 {
    let a = value ^ (value >> 30u64);
    let b = a.wrapping_mul(0xbf58_476d_1ce4_e5b9u64);
    let c = b ^ (b >> 27u64);
    let d = c.wrapping_mul(0x94d0_49bb_1331_11ebu64);
    d ^ (d >> 31u64)
}

/// Scrambles a value with the SplitMix64 finaliser.
pub fn mix_seed(value: u64) -> (mixed: u64)
    ensures
        mixed == splitmix(value),
{
    let mut value = value;
    value ^= value >> 30;
    value = value.wrapping_mul(0xbf58_476d_1ce4_e5b9);
    value ^= value >> 27;
    value = value.wrapping_mul(0x94d0_49bb_1331_11eb);
    value ^ (value >> 31)
}

} // verus!
