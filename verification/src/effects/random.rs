//! The deterministic randomness the effects share: FNV-1a hashing of the input text,
//! xorshift64 and 64-bit LCG steps, and the Fisher-Yates shuffle they drive.
use vstd::prelude::*;

use vstd::string::StringSliceAdditionalSpecFns;

verus! {

broadcast use vstd::seq_lib::to_multiset_update;

/// FNV-1a's 64-bit offset basis.
pub open spec fn fnv_offset_basis() -> u64 {
    0xcbf2_9ce4_8422_2325u64
}

/// FNV-1a's 64-bit prime.
pub open spec fn fnv_prime() -> u64 {
    0x0000_0100_0000_01b3u64
}

/// One FNV-1a step: xor in the byte, then multiply by the prime modulo 2^64.
pub open spec fn fnv_step(hash: u64, byte: u8) -> u64 {
    (hash ^ (byte as u64)).wrapping_mul(fnv_prime())
}

/// FNV-1a over `bytes`, starting from `start`.
pub open spec fn fnv1a_from(start: u64, bytes: Seq<u8>) -> u64
    decreases bytes.len(),
{
    if bytes.len() == 0 {
        start
    } else {
        fnv_step(fnv1a_from(start, bytes.drop_last()), bytes.last())
    }
}

/// The 64-bit FNV-1a hash of `bytes`.
pub open spec fn fnv1a(bytes: Seq<u8>) -> u64 {
    fnv1a_from(fnv_offset_basis(), bytes)
}

/// The seed the effects fall back to where a hash or seed is zero.
pub open spec fn golden_seed() -> u64 {
    0x9e37_79b9_7f4a_7c15u64
}

/// `value`, or `fallback` in its place when `value` is zero.
pub open spec fn nonzero_or(value: u64, fallback: u64) -> u64 {
    if value == 0 {
        fallback
    } else {
        value
    }
}

/// One xorshift64 step (shifts 13, 7, 17).
pub open spec fn xorshift64(state: u64) -> u64 {
    let a = state ^ (state << 13u64);
    let b = a ^ (a >> 7u64);
    b ^ (b << 17u64)
}

/// One step of the 64-bit linear congruential generator with Knuth's MMIX constants.
pub open spec fn lcg64(state: u64) -> u64 {
    state.wrapping_mul(6_364_136_223_846_793_005u64).wrapping_add(1_442_695_040_888_963_407u64)
}

/// A xorshift64 generator never reaches the all-zero state from a nonzero one.
pub proof fn lemma_xorshift_nonzero(state: u64)
    requires
        state != 0,
    ensures
        xorshift64(state) != 0,
{
    assert(state != 0 ==> (((state ^ (state << 13u64)) ^ ((state ^ (state << 13u64)) >> 7u64)) ^ (((
    state ^ (state << 13u64)) ^ ((state ^ (state << 13u64)) >> 7u64)) << 17u64)) != 0)
        by (bit_vector);
}

/// The draw `next % bound`, computed in `u64`.
pub open spec fn pick_mod_u64(next: u64, bound: nat) -> int {
    (next % (bound as u64)) as int
}

/// The draw `next % bound`, computed after converting `next` to `usize`.
pub open spec fn pick_mod_usize(next: u64, bound: nat) -> int {
    ((next as usize) % (bound as usize)) as int
}

/// The draw `next % bound` in `u64`, as a function.
pub open spec fn draw_mod_u64() -> spec_fn(u64, nat) -> int {
    |next: u64, bound: nat| pick_mod_u64(next, bound)
}

/// The draw `next % bound` after conversion to `usize`, as a function.
pub open spec fn draw_mod_usize() -> spec_fn(u64, nat) -> int {
    |next: u64, bound: nat| pick_mod_usize(next, bound)
}

/// `<[T]>::swap` exchanges the elements at the two indices, which must both be in bounds
/// (it panics otherwise).
pub assume_specification<Item>[ <[Item]>::swap ](slice: &mut [Item], a: usize, b: usize)
    requires
        a < old(slice)@.len(),
        b < old(slice)@.len(),
    ensures
        final(slice)@ == old(slice)@.update(a as int, old(slice)@[b as int]).update(
            b as int,
            old(slice)@[a as int],
        ),
;

/// The sequence with the elements at `a` and `b` exchanged.
pub open spec fn swapped<T>(s: Seq<T>, a: int, b: int) -> Seq<T> {
    s.update(a, s[b]).update(b, s[a])
}

/// The Fisher-Yates passes for positions `upper`, `upper - 1`, ..., 1: each advances the
/// xorshift state, picks `pick(next, position + 1)` and swaps the position with the pick.
/// Returns the shuffled sequence and the final state.
pub open spec fn shuffle_passes<T>(
    s: Seq<T>,
    state: u64,
    upper: nat,
    pick: spec_fn(u64, nat) -> int,
) -> (Seq<T>, u64)
    decreases upper,
{
    if upper == 0 {
        (s, state)
    } else {
        let next = xorshift64(state);
        shuffle_passes(swapped(s, upper as int, pick(next, upper + 1)), next, (upper - 1) as nat, pick)
    }
}

/// The Fisher-Yates shuffle of `s` from generator state `state`, with the draw `pick`;
/// sequences shorter than two are left alone and draw nothing.
pub open spec fn fisher_yates<T>(s: Seq<T>, state: u64, pick: spec_fn(u64, nat) -> int) -> (
    Seq<T>,
    u64,
) {
    if s.len() < 2 {
        (s, state)
    } else {
        shuffle_passes(s, state, (s.len() - 1) as nat, pick)
    }
}

/// Whether every draw with a positive bound that fits `usize` lands in `0..bound`.
pub open spec fn pick_in_range(pick: spec_fn(u64, nat) -> int) -> bool {
    forall|next: u64, bound: nat| 0 < bound <= usize::MAX ==> 0 <= #[trigger] pick(next, bound) < bound
}

/// Both draws the effects use land in range.
pub proof fn lemma_picks_in_range()
    ensures
        pick_in_range(draw_mod_u64()),
        pick_in_range(draw_mod_usize()),
{
}

/// Exchanging two elements keeps the multiset of elements.
pub proof fn lemma_swapped_permutes<T>(s: Seq<T>, a: int, b: int)
    requires
        0 <= a < s.len(),
        0 <= b < s.len(),
    ensures
        swapped(s, a, b).len() == s.len(),
        swapped(s, a, b).to_multiset() =~= s.to_multiset(),
{
    broadcast use vstd::multiset::group_multiset_axioms, vstd::seq_lib::group_to_multiset_ensures;

    let m = s.to_multiset();
    let t = s.update(a, s[b]);
    assert(t[b] == s[b]);
    assert(t.to_multiset() =~= m.insert(s[b]).remove(s[a]));
    assert(swapped(s, a, b).to_multiset() =~= t.to_multiset().insert(s[a]).remove(s[b]));
    assert(s.contains(s[a]));
    assert(s.contains(s[b]));
    assert(m.count(s[a]) > 0);
    assert(m.count(s[b]) > 0);
    assert(swapped(s, a, b).to_multiset() =~= m);
}

/// Exchanging `a` with `b` is the same as exchanging `b` with `a`.
pub proof fn lemma_swapped_symmetric<T>(s: Seq<T>, a: int, b: int)
    requires
        0 <= a < s.len(),
        0 <= b < s.len(),
    ensures
        swapped(s, a, b) =~= swapped(s, b, a),
{
}

/// Every Fisher-Yates pass sequence rearranges its input: same length, same elements with
/// the same multiplicities.
pub proof fn lemma_shuffle_passes_permutes<T>(
    s: Seq<T>,
    state: u64,
    upper: nat,
    pick: spec_fn(u64, nat) -> int,
)
    requires
        upper < s.len(),
        s.len() <= usize::MAX,
        pick_in_range(pick),
    ensures
        shuffle_passes(s, state, upper, pick).0.len() == s.len(),
        shuffle_passes(s, state, upper, pick).0.to_multiset() =~= s.to_multiset(),
    decreases upper,
{
    if upper > 0 {
        let next = xorshift64(state);
        let j = pick(next, upper + 1);
        assert(0 <= j < upper + 1);
        lemma_swapped_permutes(s, upper as int, j);
        lemma_shuffle_passes_permutes(swapped(s, upper as int, j), next, (upper - 1) as nat, pick);
    }
}

/// The Fisher-Yates shuffle rearranges its input, whatever the state and for any in-range
/// draw.
pub proof fn lemma_fisher_yates_permutes<T>(s: Seq<T>, state: u64, pick: spec_fn(u64, nat) -> int)
    requires
        s.len() <= usize::MAX,
        pick_in_range(pick),
    ensures
        fisher_yates(s, state, pick).0.len() == s.len(),
        fisher_yates(s, state, pick).0.to_multiset() =~= s.to_multiset(),
{
    if s.len() >= 2 {
        lemma_shuffle_passes_permutes(s, state, (s.len() - 1) as nat, pick);
    }
}

/// The FNV-1a hash of the text's UTF-8 bytes.
pub fn fnv1a_hash(input: &str) -> (hash: u64)
    ensures
        hash == fnv1a(input.spec_bytes()),
{
    let bytes = input.as_bytes();
    let mut hash: u64 = 0xcbf2_9ce4_8422_2325u64;
    let mut index: usize = 0;
    while index < bytes.len()
        invariant
            index <= bytes@.len(),
            bytes@ == input.spec_bytes(),
            hash == fnv1a(bytes@.subrange(0, index as int)),
        decreases bytes@.len() - index,
    {
        proof {
            assert(bytes@.subrange(0, index + 1).drop_last() =~= bytes@.subrange(0, index as int));
        }
        hash ^= bytes[index] as u64;
        hash = hash.wrapping_mul(0x0000_0100_0000_01b3u64);
        index += 1;
    }
    assert(bytes@.subrange(0, bytes@.len() as int) =~= bytes@);
    hash
}

} // verus!
