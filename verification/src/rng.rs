use vstd::prelude::*;

verus! {

/// The state the generator starts from.
pub const SEED: u32 = 0x4C55_4D45;

/// One xorshift step: shift left 13, right 17, left 5, each folded in with
/// exclusive or, bits shifted out of the word dropped.
pub open spec fn xorshift(x: u32) -> u32 {
    let a = x ^ (x << 13u32);
    let b = a ^ (a >> 17u32);
    b ^ (b << 5u32)
}

/// Advances the generator in `state` and returns the new value.
pub fn next(state: &mut u32) -> (r: u32)
    ensures
        r == xorshift(*old(state)),
        *final(state) == r,
{
    let mut x = *state;
    x ^= x << 13u32;
    x ^= x >> 17u32;
    x ^= x << 5u32;
    *state = x;
    x
}

/// The generator never falls into the all-zero state, which it could not
/// leave, from any other.
pub proof fn lemma_xorshift_nonzero(x: u32)
    ensures x != 0 ==> xorshift(x) != 0,
{
    let a = x ^ (x << 13u32);
    let b = a ^ (a >> 17u32);
    let c = b ^ (b << 5u32);
    assert(x != 0 ==> a != 0) by (bit_vector) requires a == x ^ (x << 13u32);
    assert(a != 0 ==> b != 0) by (bit_vector) requires b == a ^ (a >> 17u32);
    assert(b != 0 ==> c != 0) by (bit_vector) requires c == b ^ (b << 5u32);
}

} // verus!
