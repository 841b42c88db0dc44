//! The seeded xorshift generator behind the Monte-Carlo simulation: its
//! integer state, and the 53 bits that make each uniform draw.
use vstd::prelude::*;

verus! {

/// State used in place of a zero seed.
pub const DEFAULT_STATE: u64 = 0x9E37_9B97_9F4A_7C15;

/// The generator's starting state for a seed: the seed itself, or
/// `DEFAULT_STATE` for seed 0.
pub open spec fn seed_state(seed: u64) -> u64 {
    if seed == 0 {
        DEFAULT_STATE
    } else {
        seed
    }
}

/// One xorshift step: shifts 13 left, 7 right, 17 left.
pub open spec fn xorshift(s: u64) -> u64 {
    let a = s ^ (s << 13u64);
    let b = a ^ (a >> 7u64);
    b ^ (b << 17u64)
}

pub fn initial_state(seed: u64) -> (s: u64)
    ensures
        s == seed_state(seed),
        s != 0,
{
    if seed == 0 {
        DEFAULT_STATE
    } else {
        seed
    }
}

pub fn next_state(s: u64) -> (r: u64)
    ensures
        r == xorshift(s),
{
    let mut x = s;
    x = x ^ (x << 13u64);
    x = x ^ (x >> 7u64);
    x = x ^ (x << 17u64);
    x
}

/// The top 53 bits of a state; a draw in [0, 1) is this over 2^53.
pub fn unit_bits(s: u64) -> (m: u64)
    ensures
        m == s >> 11u64,
        m < 0x20_0000_0000_0000,
{
    assert(s >> 11u64 < 0x20_0000_0000_0000u64) by (bit_vector);
    s >> 11u64
}

proof fn lemma_xor_shl_nonzero(x: u64, k: u64)
    requires
        x != 0,
        0 < k < 64,
    ensures
        x ^ (x << k) != 0,
{
    assert(x != 0 && 0 < k < 64 ==> x ^ (x << k) != 0) by (bit_vector);
}

proof fn lemma_xor_shr_nonzero(x: u64, k: u64)
    requires
        x != 0,
        0 < k < 64,
    ensures
        x ^ (x >> k) != 0,
{
    assert(x != 0 && 0 < k < 64 ==> x ^ (x >> k) != 0) by (bit_vector);
}

/// A non-zero state never steps to zero, the one state xorshift cannot
/// leave: every state the generator visits from a seed is non-zero.
pub proof fn lemma_xorshift_nonzero(s: u64)
    requires
        s != 0,
    ensures
        xorshift(s) != 0,
{
    let a = s ^ (s << 13u64);
    lemma_xor_shl_nonzero(s, 13);
    let b = a ^ (a >> 7u64);
    lemma_xor_shr_nonzero(a, 7);
    lemma_xor_shl_nonzero(b, 17);
}

} // verus!
