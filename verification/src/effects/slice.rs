use vstd::prelude::*;

verus! {

/// Each row is sliced in two, and the halves slide in from opposite sides.
#[derive(Debug, Clone, Copy, Default)]
pub struct Slice;

impl Slice {
    pub fn new() -> (effect: Self)
        ensures
            effect == Slice,
    {
        Slice
    }

    pub fn name(&self) -> (name: &'static str)
        ensures
            name@ == "slice"@,
    {
        "slice"
    }
}

} // verus!
