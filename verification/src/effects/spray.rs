use vstd::prelude::*;

use crate::effects::random::{
    draw_mod_u64, fisher_yates, fnv1a, fnv1a_hash, golden_seed, lemma_fisher_yates_permutes,
    lemma_picks_in_range, nonzero_or, shuffle_passes, xorshift64,
};
use crate::utils::geometry::Coord;
use crate::utils::text::{characters_before, split_rows, text_rows};
use vstd::string::StringSliceAdditionalSpecFns;

verus! {

/// The characters are sprayed onto the canvas from a nozzle at the right edge.
#[derive(Debug, Clone, Copy, Default)]
pub struct Spray;

impl Spray {
    pub fn new() -> (effect: Self)
        ensures
            effect == Spray,
    {
        Spray
    }

    pub fn name(&self) -> (name: &'static str)
        ensures
            name@ == "spray"@,
    {
        "spray"
    }
}

/// Whether the character with reading-order index `target` sits in `row` of `rows`.
pub open spec fn holds_index(rows: Seq<Seq<char>>, row: int, target: int) -> bool {
    &&& 0 <= row < rows.len()
    &&& characters_before(rows, row) <= target < characters_before(rows, row) + rows[row].len()
}

/// Whether `coord` is the position of the character with reading-order index `target`:
/// its column within its row and the row's number.
pub open spec fn places(rows: Seq<Seq<char>>, target: int, coord: Coord) -> bool {
    exists|row: int|
        #![trigger holds_index(rows, row, target)]
        holds_index(rows, row, target) && coord == (Coord {
            x: (target - characters_before(rows, row)) as i32,
            y: row as i32,
        })
}

/// The position of the character with index `target` when the input's characters are
/// numbered row by row; `None` when there are not that many characters.
pub fn index_to_coord(input: &str, width: usize, target: usize) -> (coord: Option<Coord>)
    ensures
        ({
            let rows = text_rows(input@);
            match coord {
                Some(c) => places(rows, target as int, c),
                None => target >= characters_before(rows, rows.len() as int),
            }
        }),
{
    let rows = split_rows(input);
    let ghost model = text_rows(input@);
    let mut remaining = target;
    let mut row: usize = 0;
    while row < rows.len()
        invariant
            model == text_rows(input@),
            rows.deep_view() == model,
            row <= rows.len(),
            characters_before(model, row as int) <= target,
            remaining == target - characters_before(model, row as int),
        decreases rows.len() - row,
    {
        let length = rows[row].len();
        assert(model[row as int] == rows[row as int]@);
        if remaining < length {
            let coord = Coord::new(remaining as i32, row as i32);
            assert(holds_index(model, row as int, target as int));
            assert(places(model, target as int, coord));
            return Some(coord);
        }
        remaining -= length;
        row += 1;
    }
    None
}

/// A xorshift64 generator seeded from the text.
#[derive(Debug, Clone, Copy)]
pub struct SprayRng {
    state: u64,
}

impl View for SprayRng {
    type V = u64;

    closed spec fn view(&self) -> u64 {
        self.state
    }
}

impl SprayRng {
    /// Seeded with the FNV-1a hash of the input (a fixed constant in place of zero).
    pub fn from_input(input: &str) -> (rng: Self)
        ensures
            rng@ == nonzero_or(fnv1a(input.spec_bytes()), golden_seed()),
    {
        let hash = fnv1a_hash(input);
        Self {
            state: if hash == 0 {
                0x9e37_79b9_7f4a_7c15
            } else {
                hash
            },
        }
    }

    pub fn next_u64(&mut self) -> (value: u64)
        ensures
            value == xorshift64(old(self)@),
            final(self)@ == value,
    {
        let mut value = self.state;
        value ^= value << 13;
        value ^= value >> 7;
        value ^= value << 17;
        self.state = value;
        value
    }

    /// Fisher-Yates shuffle: each position from the last down to 1 is swapped with one
    /// drawn at or below it.
    pub fn shuffle<T>(&mut self, values: &mut [T])
        ensures
            (final(values)@, final(self)@) == fisher_yates(old(values)@, old(self)@, draw_mod_u64()),
            final(values)@.to_multiset() == old(values)@.to_multiset(),
    {
        let len = values.len();
        proof {
            lemma_picks_in_range();
            lemma_fisher_yates_permutes(values@, self@, draw_mod_u64());
        }
        if len < 2 {
            return;
        }
        let ghost target = fisher_yates(values@, self@, draw_mod_u64());
        let mut upper = len - 1;
        while upper >= 1
            invariant
                upper < len,
                values@.len() == len,
                shuffle_passes(values@, self@, upper as nat, draw_mod_u64()) == target,
            decreases upper,
        {
            let index = (self.next_u64() % (upper as u64 + 1)) as usize;
            values.swap(upper, index);
            upper -= 1;
        }
    }
}

} // verus!
