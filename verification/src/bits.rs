//! Bit-level vocabulary shared by the evaluator: single bits, masks built
//! from predicates, highest and lowest set bits, and population counts.
use vstd::prelude::*;

verus! {

/// Bit `i` of `x` is set.
pub open spec fn bit32(x: u32, i: u32) -> bool {
    (x >> i) & 1u32 == 1u32
}

/// Bit `i` of `x` is set.
pub open spec fn bit64(x: u64, i: u64) -> bool {
    (x >> i) & 1u64 == 1u64
}

/// The 32-bit value whose set bits below `n` are exactly the positions where `p` holds.
pub open spec fn mask32(p: spec_fn(u32) -> bool, n: nat) -> u32
    decreases n,
{
    if n == 0 {
        0u32
    } else {
        let k = (n - 1) as u32;
        mask32(p, (n - 1) as nat) | (if p(k) {
            1u32 << k
        } else {
            0u32
        })
    }
}

/// The 64-bit value whose set bits below `n` are exactly the positions where `p` holds.
pub open spec fn mask64(p: spec_fn(u64) -> bool, n: nat) -> u64
    decreases n,
{
    if n == 0 {
        0u64
    } else {
        let k = (n - 1) as u64;
        mask64(p, (n - 1) as nat) | (if p(k) {
            1u64 << k
        } else {
            0u64
        })
    }
}

/// Number of set bits of `x` below position `n`.
pub open spec fn pop_below(x: u32, n: nat) -> nat
    decreases n,
{
    if n == 0 {
        0
    } else {
        pop_below(x, (n - 1) as nat) + if bit32(x, (n - 1) as u32) {
            1nat
        } else {
            0nat
        }
    }
}

/// Number of set bits of `x`.
pub open spec fn pop(x: u32) -> nat {
    pop_below(x, 32)
}

/// Highest set bit of `x` below position `n` (0 when there is none).
pub open spec fn top_below(x: u32, n: nat) -> u32
    decreases n,
{
    if n == 0 {
        0u32
    } else if bit32(x, (n - 1) as u32) {
        (n - 1) as u32
    } else {
        top_below(x, (n - 1) as nat)
    }
}

/// Index of the highest set bit of `x` (0 when `x` is 0).
pub open spec fn top_bit(x: u32) -> u32 {
    top_below(x, 32)
}

/// Lowest set bit of `x` at or above position `n` (32 when there is none).
pub open spec fn low_from(x: u32, n: nat) -> u32
    decreases 32 - n,
{
    if n >= 32 {
        32u32
    } else if bit32(x, n as u32) {
        n as u32
    } else {
        low_from(x, n + 1)
    }
}

/// Index of the lowest set bit of `x` (32 when `x` is 0).
pub open spec fn low_bit(x: u32) -> u32 {
    low_from(x, 0)
}

/// The value with the single bit `i` set.
pub open spec fn single(i: u32) -> u32 {
    1u32 << i
}

// ---------------------------------------------------------------------------
// Bit-vector facts, each proved by the bit-vector solver.

pub proof fn lemma_bit32_and(x: u32, y: u32, i: u32)
    by (bit_vector)
    requires
        i < 32,
    ensures
        bit32(x & y, i) == (bit32(x, i) && bit32(y, i)),
{
}

pub proof fn lemma_bit32_or(x: u32, y: u32, i: u32)
    by (bit_vector)
    requires
        i < 32,
    ensures
        bit32(x | y, i) == (bit32(x, i) || bit32(y, i)),
{
}

pub proof fn lemma_bit32_xor(x: u32, y: u32, i: u32)
    by (bit_vector)
    requires
        i < 32,
    ensures
        bit32(x ^ y, i) == (bit32(x, i) != bit32(y, i)),
{
}

pub proof fn lemma_bit32_single(k: u32, i: u32)
    by (bit_vector)
    requires
        i < 32,
        k < 32,
    ensures
        bit32(1u32 << k, i) == (i == k),
{
}

pub proof fn lemma_bit32_zero(i: u32)
    by (bit_vector)
    requires
        i < 32,
    ensures
        !bit32(0u32, i),
{
}

pub proof fn lemma_bit32_shl(x: u32, k: u32, i: u32)
    by (bit_vector)
    requires
        i < 32,
        k < 32,
    ensures
        bit32(x << k, i) == (i >= k && bit32(x, (i - k) as u32)),
{
}

/// Bits of a value below 2^16 stop at position 15.
pub proof fn lemma_bit32_high_clear(x: u32, i: u32)
    by (bit_vector)
    requires
        x < 0x10000u32,
        16 <= i < 32,
    ensures
        !bit32(x, i),
{
}

pub proof fn lemma_bit32_shr(x: u32, k: u32, i: u32)
    by (bit_vector)
    requires
        i < 32,
        k < 32,
    ensures
        bit32(x >> k, i) == (i + k < 32 && bit32(x, (i + k) as u32)),
{
}

proof fn lemma_shr_zero_bound(x: u32, k: u32)
    by (bit_vector)
    requires
        k < 32,
        x >> k == 0u32,
    ensures
        x < (1u32 << k),
{
}

/// A value with no set bit at or above `k` is below `2^k`.
pub proof fn lemma_bits_below(x: u32, k: u32)
    requires
        k < 32,
        forall|i: u32| k <= i < 32 ==> !#[trigger] bit32(x, i),
    ensures
        x < (1u32 << k),
{
    assert forall|i: u32| i < 32 implies !#[trigger] bit32(x >> k, i) by {
        lemma_bit32_shr(x, k, i);
        if i + k < 32 {
            assert(!bit32(x, (i + k) as u32));
        }
    }
    lemma_no_bits_zero(x >> k);
    lemma_shr_zero_bound(x, k);
}

proof fn lemma_bit32_ext_bv(x: u32, y: u32)
    by (bit_vector)
    requires
            ((x >> 0u32) & 1u32 == 1u32) == ((y >> 0u32) & 1u32 == 1u32),
            ((x >> 1u32) & 1u32 == 1u32) == ((y >> 1u32) & 1u32 == 1u32),
            ((x >> 2u32) & 1u32 == 1u32) == ((y >> 2u32) & 1u32 == 1u32),
            ((x >> 3u32) & 1u32 == 1u32) == ((y >> 3u32) & 1u32 == 1u32),
            ((x >> 4u32) & 1u32 == 1u32) == ((y >> 4u32) & 1u32 == 1u32),
            ((x >> 5u32) & 1u32 == 1u32) == ((y >> 5u32) & 1u32 == 1u32),
            ((x >> 6u32) & 1u32 == 1u32) == ((y >> 6u32) & 1u32 == 1u32),
            ((x >> 7u32) & 1u32 == 1u32) == ((y >> 7u32) & 1u32 == 1u32),
            ((x >> 8u32) & 1u32 == 1u32) == ((y >> 8u32) & 1u32 == 1u32),
            ((x >> 9u32) & 1u32 == 1u32) == ((y >> 9u32) & 1u32 == 1u32),
            ((x >> 10u32) & 1u32 == 1u32) == ((y >> 10u32) & 1u32 == 1u32),
            ((x >> 11u32) & 1u32 == 1u32) == ((y >> 11u32) & 1u32 == 1u32),
            ((x >> 12u32) & 1u32 == 1u32) == ((y >> 12u32) & 1u32 == 1u32),
            ((x >> 13u32) & 1u32 == 1u32) == ((y >> 13u32) & 1u32 == 1u32),
            ((x >> 14u32) & 1u32 == 1u32) == ((y >> 14u32) & 1u32 == 1u32),
            ((x >> 15u32) & 1u32 == 1u32) == ((y >> 15u32) & 1u32 == 1u32),
            ((x >> 16u32) & 1u32 == 1u32) == ((y >> 16u32) & 1u32 == 1u32),
            ((x >> 17u32) & 1u32 == 1u32) == ((y >> 17u32) & 1u32 == 1u32),
            ((x >> 18u32) & 1u32 == 1u32) == ((y >> 18u32) & 1u32 == 1u32),
            ((x >> 19u32) & 1u32 == 1u32) == ((y >> 19u32) & 1u32 == 1u32),
            ((x >> 20u32) & 1u32 == 1u32) == ((y >> 20u32) & 1u32 == 1u32),
            ((x >> 21u32) & 1u32 == 1u32) == ((y >> 21u32) & 1u32 == 1u32),
            ((x >> 22u32) & 1u32 == 1u32) == ((y >> 22u32) & 1u32 == 1u32),
            ((x >> 23u32) & 1u32 == 1u32) == ((y >> 23u32) & 1u32 == 1u32),
            ((x >> 24u32) & 1u32 == 1u32) == ((y >> 24u32) & 1u32 == 1u32),
            ((x >> 25u32) & 1u32 == 1u32) == ((y >> 25u32) & 1u32 == 1u32),
            ((x >> 26u32) & 1u32 == 1u32) == ((y >> 26u32) & 1u32 == 1u32),
            ((x >> 27u32) & 1u32 == 1u32) == ((y >> 27u32) & 1u32 == 1u32),
            ((x >> 28u32) & 1u32 == 1u32) == ((y >> 28u32) & 1u32 == 1u32),
            ((x >> 29u32) & 1u32 == 1u32) == ((y >> 29u32) & 1u32 == 1u32),
            ((x >> 30u32) & 1u32 == 1u32) == ((y >> 30u32) & 1u32 == 1u32),
            ((x >> 31u32) & 1u32 == 1u32) == ((y >> 31u32) & 1u32 == 1u32),
    ensures
        x == y,
{
}

/// Two 32-bit values with the same bits are equal.
pub proof fn lemma_bit32_ext(x: u32, y: u32)
    requires
        forall|i: u32| i < 32 ==> #[trigger] bit32(x, i) == bit32(y, i),
    ensures
        x == y,
{
    assert(bit32(x, 0u32) == bit32(y, 0u32));
    assert(bit32(x, 1u32) == bit32(y, 1u32));
    assert(bit32(x, 2u32) == bit32(y, 2u32));
    assert(bit32(x, 3u32) == bit32(y, 3u32));
    assert(bit32(x, 4u32) == bit32(y, 4u32));
    assert(bit32(x, 5u32) == bit32(y, 5u32));
    assert(bit32(x, 6u32) == bit32(y, 6u32));
    assert(bit32(x, 7u32) == bit32(y, 7u32));
    assert(bit32(x, 8u32) == bit32(y, 8u32));
    assert(bit32(x, 9u32) == bit32(y, 9u32));
    assert(bit32(x, 10u32) == bit32(y, 10u32));
    assert(bit32(x, 11u32) == bit32(y, 11u32));
    assert(bit32(x, 12u32) == bit32(y, 12u32));
    assert(bit32(x, 13u32) == bit32(y, 13u32));
    assert(bit32(x, 14u32) == bit32(y, 14u32));
    assert(bit32(x, 15u32) == bit32(y, 15u32));
    assert(bit32(x, 16u32) == bit32(y, 16u32));
    assert(bit32(x, 17u32) == bit32(y, 17u32));
    assert(bit32(x, 18u32) == bit32(y, 18u32));
    assert(bit32(x, 19u32) == bit32(y, 19u32));
    assert(bit32(x, 20u32) == bit32(y, 20u32));
    assert(bit32(x, 21u32) == bit32(y, 21u32));
    assert(bit32(x, 22u32) == bit32(y, 22u32));
    assert(bit32(x, 23u32) == bit32(y, 23u32));
    assert(bit32(x, 24u32) == bit32(y, 24u32));
    assert(bit32(x, 25u32) == bit32(y, 25u32));
    assert(bit32(x, 26u32) == bit32(y, 26u32));
    assert(bit32(x, 27u32) == bit32(y, 27u32));
    assert(bit32(x, 28u32) == bit32(y, 28u32));
    assert(bit32(x, 29u32) == bit32(y, 29u32));
    assert(bit32(x, 30u32) == bit32(y, 30u32));
    assert(bit32(x, 31u32) == bit32(y, 31u32));
    lemma_bit32_ext_bv(x, y);
}

pub proof fn lemma_bit64_and(x: u64, y: u64, i: u64)
    by (bit_vector)
    requires
        i < 64,
    ensures
        bit64(x & y, i) == (bit64(x, i) && bit64(y, i)),
{
}

pub proof fn lemma_bit64_or(x: u64, y: u64, i: u64)
    by (bit_vector)
    requires
        i < 64,
    ensures
        bit64(x | y, i) == (bit64(x, i) || bit64(y, i)),
{
}

pub proof fn lemma_bit64_xor(x: u64, y: u64, i: u64)
    by (bit_vector)
    requires
        i < 64,
    ensures
        bit64(x ^ y, i) == (bit64(x, i) != bit64(y, i)),
{
}

pub proof fn lemma_bit64_single(k: u64, i: u64)
    by (bit_vector)
    requires
        i < 64,
        k < 64,
    ensures
        bit64(1u64 << k, i) == (i == k),
{
}

pub proof fn lemma_bit64_zero(i: u64)
    by (bit_vector)
    requires
        i < 64,
    ensures
        !bit64(0u64, i),
{
}

pub proof fn lemma_bit64_shl(x: u64, k: u64, i: u64)
    by (bit_vector)
    requires
        i < 64,
        k < 64,
    ensures
        bit64(x << k, i) == (i >= k && bit64(x, (i - k) as u64)),
{
}

proof fn lemma_bit64_ext_bv(x: u64, y: u64)
    by (bit_vector)
    requires
            ((x >> 0u64) & 1u64 == 1u64) == ((y >> 0u64) & 1u64 == 1u64),
            ((x >> 1u64) & 1u64 == 1u64) == ((y >> 1u64) & 1u64 == 1u64),
            ((x >> 2u64) & 1u64 == 1u64) == ((y >> 2u64) & 1u64 == 1u64),
            ((x >> 3u64) & 1u64 == 1u64) == ((y >> 3u64) & 1u64 == 1u64),
            ((x >> 4u64) & 1u64 == 1u64) == ((y >> 4u64) & 1u64 == 1u64),
            ((x >> 5u64) & 1u64 == 1u64) == ((y >> 5u64) & 1u64 == 1u64),
            ((x >> 6u64) & 1u64 == 1u64) == ((y >> 6u64) & 1u64 == 1u64),
            ((x >> 7u64) & 1u64 == 1u64) == ((y >> 7u64) & 1u64 == 1u64),
            ((x >> 8u64) & 1u64 == 1u64) == ((y >> 8u64) & 1u64 == 1u64),
            ((x >> 9u64) & 1u64 == 1u64) == ((y >> 9u64) & 1u64 == 1u64),
            ((x >> 10u64) & 1u64 == 1u64) == ((y >> 10u64) & 1u64 == 1u64),
            ((x >> 11u64) & 1u64 == 1u64) == ((y >> 11u64) & 1u64 == 1u64),
            ((x >> 12u64) & 1u64 == 1u64) == ((y >> 12u64) & 1u64 == 1u64),
            ((x >> 13u64) & 1u64 == 1u64) == ((y >> 13u64) & 1u64 == 1u64),
            ((x >> 14u64) & 1u64 == 1u64) == ((y >> 14u64) & 1u64 == 1u64),
            ((x >> 15u64) & 1u64 == 1u64) == ((y >> 15u64) & 1u64 == 1u64),
            ((x >> 16u64) & 1u64 == 1u64) == ((y >> 16u64) & 1u64 == 1u64),
            ((x >> 17u64) & 1u64 == 1u64) == ((y >> 17u64) & 1u64 == 1u64),
            ((x >> 18u64) & 1u64 == 1u64) == ((y >> 18u64) & 1u64 == 1u64),
            ((x >> 19u64) & 1u64 == 1u64) == ((y >> 19u64) & 1u64 == 1u64),
            ((x >> 20u64) & 1u64 == 1u64) == ((y >> 20u64) & 1u64 == 1u64),
            ((x >> 21u64) & 1u64 == 1u64) == ((y >> 21u64) & 1u64 == 1u64),
            ((x >> 22u64) & 1u64 == 1u64) == ((y >> 22u64) & 1u64 == 1u64),
            ((x >> 23u64) & 1u64 == 1u64) == ((y >> 23u64) & 1u64 == 1u64),
            ((x >> 24u64) & 1u64 == 1u64) == ((y >> 24u64) & 1u64 == 1u64),
            ((x >> 25u64) & 1u64 == 1u64) == ((y >> 25u64) & 1u64 == 1u64),
            ((x >> 26u64) & 1u64 == 1u64) == ((y >> 26u64) & 1u64 == 1u64),
            ((x >> 27u64) & 1u64 == 1u64) == ((y >> 27u64) & 1u64 == 1u64),
            ((x >> 28u64) & 1u64 == 1u64) == ((y >> 28u64) & 1u64 == 1u64),
            ((x >> 29u64) & 1u64 == 1u64) == ((y >> 29u64) & 1u64 == 1u64),
            ((x >> 30u64) & 1u64 == 1u64) == ((y >> 30u64) & 1u64 == 1u64),
            ((x >> 31u64) & 1u64 == 1u64) == ((y >> 31u64) & 1u64 == 1u64),
            ((x >> 32u64) & 1u64 == 1u64) == ((y >> 32u64) & 1u64 == 1u64),
            ((x >> 33u64) & 1u64 == 1u64) == ((y >> 33u64) & 1u64 == 1u64),
            ((x >> 34u64) & 1u64 == 1u64) == ((y >> 34u64) & 1u64 == 1u64),
            ((x >> 35u64) & 1u64 == 1u64) == ((y >> 35u64) & 1u64 == 1u64),
            ((x >> 36u64) & 1u64 == 1u64) == ((y >> 36u64) & 1u64 == 1u64),
            ((x >> 37u64) & 1u64 == 1u64) == ((y >> 37u64) & 1u64 == 1u64),
            ((x >> 38u64) & 1u64 == 1u64) == ((y >> 38u64) & 1u64 == 1u64),
            ((x >> 39u64) & 1u64 == 1u64) == ((y >> 39u64) & 1u64 == 1u64),
            ((x >> 40u64) & 1u64 == 1u64) == ((y >> 40u64) & 1u64 == 1u64),
            ((x >> 41u64) & 1u64 == 1u64) == ((y >> 41u64) & 1u64 == 1u64),
            ((x >> 42u64) & 1u64 == 1u64) == ((y >> 42u64) & 1u64 == 1u64),
            ((x >> 43u64) & 1u64 == 1u64) == ((y >> 43u64) & 1u64 == 1u64),
            ((x >> 44u64) & 1u64 == 1u64) == ((y >> 44u64) & 1u64 == 1u64),
            ((x >> 45u64) & 1u64 == 1u64) == ((y >> 45u64) & 1u64 == 1u64),
            ((x >> 46u64) & 1u64 == 1u64) == ((y >> 46u64) & 1u64 == 1u64),
            ((x >> 47u64) & 1u64 == 1u64) == ((y >> 47u64) & 1u64 == 1u64),
            ((x >> 48u64) & 1u64 == 1u64) == ((y >> 48u64) & 1u64 == 1u64),
            ((x >> 49u64) & 1u64 == 1u64) == ((y >> 49u64) & 1u64 == 1u64),
            ((x >> 50u64) & 1u64 == 1u64) == ((y >> 50u64) & 1u64 == 1u64),
            ((x >> 51u64) & 1u64 == 1u64) == ((y >> 51u64) & 1u64 == 1u64),
            ((x >> 52u64) & 1u64 == 1u64) == ((y >> 52u64) & 1u64 == 1u64),
            ((x >> 53u64) & 1u64 == 1u64) == ((y >> 53u64) & 1u64 == 1u64),
            ((x >> 54u64) & 1u64 == 1u64) == ((y >> 54u64) & 1u64 == 1u64),
            ((x >> 55u64) & 1u64 == 1u64) == ((y >> 55u64) & 1u64 == 1u64),
            ((x >> 56u64) & 1u64 == 1u64) == ((y >> 56u64) & 1u64 == 1u64),
            ((x >> 57u64) & 1u64 == 1u64) == ((y >> 57u64) & 1u64 == 1u64),
            ((x >> 58u64) & 1u64 == 1u64) == ((y >> 58u64) & 1u64 == 1u64),
            ((x >> 59u64) & 1u64 == 1u64) == ((y >> 59u64) & 1u64 == 1u64),
            ((x >> 60u64) & 1u64 == 1u64) == ((y >> 60u64) & 1u64 == 1u64),
            ((x >> 61u64) & 1u64 == 1u64) == ((y >> 61u64) & 1u64 == 1u64),
            ((x >> 62u64) & 1u64 == 1u64) == ((y >> 62u64) & 1u64 == 1u64),
            ((x >> 63u64) & 1u64 == 1u64) == ((y >> 63u64) & 1u64 == 1u64),
    ensures
        x == y,
{
}

/// Two 64-bit values with the same bits are equal.
pub proof fn lemma_bit64_ext(x: u64, y: u64)
    requires
        forall|i: u64| i < 64 ==> #[trigger] bit64(x, i) == bit64(y, i),
    ensures
        x == y,
{
    assert(bit64(x, 0u64) == bit64(y, 0u64));
    assert(bit64(x, 1u64) == bit64(y, 1u64));
    assert(bit64(x, 2u64) == bit64(y, 2u64));
    assert(bit64(x, 3u64) == bit64(y, 3u64));
    assert(bit64(x, 4u64) == bit64(y, 4u64));
    assert(bit64(x, 5u64) == bit64(y, 5u64));
    assert(bit64(x, 6u64) == bit64(y, 6u64));
    assert(bit64(x, 7u64) == bit64(y, 7u64));
    assert(bit64(x, 8u64) == bit64(y, 8u64));
    assert(bit64(x, 9u64) == bit64(y, 9u64));
    assert(bit64(x, 10u64) == bit64(y, 10u64));
    assert(bit64(x, 11u64) == bit64(y, 11u64));
    assert(bit64(x, 12u64) == bit64(y, 12u64));
    assert(bit64(x, 13u64) == bit64(y, 13u64));
    assert(bit64(x, 14u64) == bit64(y, 14u64));
    assert(bit64(x, 15u64) == bit64(y, 15u64));
    assert(bit64(x, 16u64) == bit64(y, 16u64));
    assert(bit64(x, 17u64) == bit64(y, 17u64));
    assert(bit64(x, 18u64) == bit64(y, 18u64));
    assert(bit64(x, 19u64) == bit64(y, 19u64));
    assert(bit64(x, 20u64) == bit64(y, 20u64));
    assert(bit64(x, 21u64) == bit64(y, 21u64));
    assert(bit64(x, 22u64) == bit64(y, 22u64));
    assert(bit64(x, 23u64) == bit64(y, 23u64));
    assert(bit64(x, 24u64) == bit64(y, 24u64));
    assert(bit64(x, 25u64) == bit64(y, 25u64));
    assert(bit64(x, 26u64) == bit64(y, 26u64));
    assert(bit64(x, 27u64) == bit64(y, 27u64));
    assert(bit64(x, 28u64) == bit64(y, 28u64));
    assert(bit64(x, 29u64) == bit64(y, 29u64));
    assert(bit64(x, 30u64) == bit64(y, 30u64));
    assert(bit64(x, 31u64) == bit64(y, 31u64));
    assert(bit64(x, 32u64) == bit64(y, 32u64));
    assert(bit64(x, 33u64) == bit64(y, 33u64));
    assert(bit64(x, 34u64) == bit64(y, 34u64));
    assert(bit64(x, 35u64) == bit64(y, 35u64));
    assert(bit64(x, 36u64) == bit64(y, 36u64));
    assert(bit64(x, 37u64) == bit64(y, 37u64));
    assert(bit64(x, 38u64) == bit64(y, 38u64));
    assert(bit64(x, 39u64) == bit64(y, 39u64));
    assert(bit64(x, 40u64) == bit64(y, 40u64));
    assert(bit64(x, 41u64) == bit64(y, 41u64));
    assert(bit64(x, 42u64) == bit64(y, 42u64));
    assert(bit64(x, 43u64) == bit64(y, 43u64));
    assert(bit64(x, 44u64) == bit64(y, 44u64));
    assert(bit64(x, 45u64) == bit64(y, 45u64));
    assert(bit64(x, 46u64) == bit64(y, 46u64));
    assert(bit64(x, 47u64) == bit64(y, 47u64));
    assert(bit64(x, 48u64) == bit64(y, 48u64));
    assert(bit64(x, 49u64) == bit64(y, 49u64));
    assert(bit64(x, 50u64) == bit64(y, 50u64));
    assert(bit64(x, 51u64) == bit64(y, 51u64));
    assert(bit64(x, 52u64) == bit64(y, 52u64));
    assert(bit64(x, 53u64) == bit64(y, 53u64));
    assert(bit64(x, 54u64) == bit64(y, 54u64));
    assert(bit64(x, 55u64) == bit64(y, 55u64));
    assert(bit64(x, 56u64) == bit64(y, 56u64));
    assert(bit64(x, 57u64) == bit64(y, 57u64));
    assert(bit64(x, 58u64) == bit64(y, 58u64));
    assert(bit64(x, 59u64) == bit64(y, 59u64));
    assert(bit64(x, 60u64) == bit64(y, 60u64));
    assert(bit64(x, 61u64) == bit64(y, 61u64));
    assert(bit64(x, 62u64) == bit64(y, 62u64));
    assert(bit64(x, 63u64) == bit64(y, 63u64));
    lemma_bit64_ext_bv(x, y);
}

// ---------------------------------------------------------------------------
// Masks built from predicates.

/// Bit `i` of `mask32(p, n)` is set exactly when `i < n` and `p(i)`.
pub proof fn lemma_mask32_bit(p: spec_fn(u32) -> bool, n: nat, i: u32)
    requires
        n <= 32,
        i < 32,
    ensures
        bit32(mask32(p, n), i) == (i < n && p(i)),
    decreases n,
{
    if n == 0 {
        lemma_bit32_zero(i);
    } else {
        let k = (n - 1) as u32;
        lemma_mask32_bit(p, (n - 1) as nat, i);
        let rest = if p(k) { 1u32 << k } else { 0u32 };
        lemma_bit32_or(mask32(p, (n - 1) as nat), rest, i);
        if p(k) {
            lemma_bit32_single(k, i);
        } else {
            lemma_bit32_zero(i);
        }
    }
}

/// A value is the mask of its own bit predicate.
pub proof fn lemma_mask32_of_bits(x: u32, p: spec_fn(u32) -> bool, n: nat)
    requires
        n <= 32,
        forall|i: u32| i < 32 ==> #[trigger] bit32(x, i) == (i < n && p(i)),
    ensures
        x == mask32(p, n),
{
    assert forall|i: u32| i < 32 implies #[trigger] bit32(x, i) == bit32(mask32(p, n), i) by {
        lemma_mask32_bit(p, n, i);
    }
    lemma_bit32_ext(x, mask32(p, n));
}

/// Bit `i` of `mask64(p, n)` is set exactly when `i < n` and `p(i)`.
pub proof fn lemma_mask64_bit(p: spec_fn(u64) -> bool, n: nat, i: u64)
    requires
        n <= 64,
        i < 64,
    ensures
        bit64(mask64(p, n), i) == (i < n && p(i)),
    decreases n,
{
    if n == 0 {
        lemma_bit64_zero(i);
    } else {
        let k = (n - 1) as u64;
        lemma_mask64_bit(p, (n - 1) as nat, i);
        let rest = if p(k) { 1u64 << k } else { 0u64 };
        lemma_bit64_or(mask64(p, (n - 1) as nat), rest, i);
        if p(k) {
            lemma_bit64_single(k, i);
        } else {
            lemma_bit64_zero(i);
        }
    }
}

/// A value is the mask of its own bit predicate.
pub proof fn lemma_mask64_of_bits(x: u64, p: spec_fn(u64) -> bool, n: nat)
    requires
        n <= 64,
        forall|i: u64| i < 64 ==> #[trigger] bit64(x, i) == (i < n && p(i)),
    ensures
        x == mask64(p, n),
{
    assert forall|i: u64| i < 64 implies #[trigger] bit64(x, i) == bit64(mask64(p, n), i) by {
        lemma_mask64_bit(p, n, i);
    }
    lemma_bit64_ext(x, mask64(p, n));
}


// ---------------------------------------------------------------------------
// Highest and lowest set bits, population counts.

proof fn lemma_bit32_nonzero(x: u32, k: u32)
    by (bit_vector)
    ensures
        (x >> k) & 1u32 != 0u32 ==> bit32(x, k),
{
}

/// The highest set bit below `n` is the unique set bit with no set bit above it.
pub proof fn lemma_top_below_is(x: u32, n: nat, t: u32)
    requires
        n <= 32,
        t < n,
        bit32(x, t),
        forall|j: u32| t < j < n ==> !#[trigger] bit32(x, j),
    ensures
        top_below(x, n) == t,
    decreases n,
{
    if (n - 1) as u32 != t {
        assert(!bit32(x, (n - 1) as u32));
        lemma_top_below_is(x, (n - 1) as nat, t);
    }
}

/// `top_bit(x)` is a set bit of a nonzero `x` and no higher bit is set.
pub proof fn lemma_top_bit(x: u32)
    requires
        x != 0,
    ensures
        top_bit(x) < 32,
        bit32(x, top_bit(x)),
        forall|j: u32| top_bit(x) < j < 32 ==> !#[trigger] bit32(x, j),
{
    vstd::std_specs::bits::axiom_u32_leading_zeros(x);
    let lz = vstd::std_specs::bits::u32_leading_zeros(x);
    let t = (31 - lz) as u32;
    lemma_bit32_nonzero(x, t);
    assert(bit32(x, t));
    assert forall|j: u32| t < j < 32 implies !#[trigger] bit32(x, j) by {
        assert(32 - lz <= j);
    }
    lemma_top_below_is(x, 32, t);
}

/// `top_bit` read off `leading_zeros`.
pub proof fn lemma_top_bit_leading_zeros(x: u32)
    requires
        x != 0,
    ensures
        top_bit(x) == 31 - vstd::std_specs::bits::u32_leading_zeros(x),
{
    vstd::std_specs::bits::axiom_u32_leading_zeros(x);
    lemma_top_bit(x);
    let lz = vstd::std_specs::bits::u32_leading_zeros(x);
    let t = (31 - lz) as u32;
    lemma_bit32_nonzero(x, t);
    assert(bit32(x, t));
    if top_bit(x) < t {
        assert(!bit32(x, t));
    }
    if top_bit(x) > t {
        assert(32 - lz <= top_bit(x));
    }
}

/// A value with no set bit is zero.
pub proof fn lemma_no_bits_zero(x: u32)
    requires
        forall|i: u32| i < 32 ==> !#[trigger] bit32(x, i),
    ensures
        x == 0,
{
    assert forall|i: u32| i < 32 implies #[trigger] bit32(x, i) == bit32(0u32, i) by {
        lemma_bit32_zero(i);
    }
    lemma_bit32_ext(x, 0u32);
}

/// The lowest set bit at or above `n`, when the bits below `n` are clear.
pub proof fn lemma_low_from(x: u32, n: nat)
    requires
        n <= 32,
        forall|j: u32| j < n ==> !#[trigger] bit32(x, j),
    ensures
        low_from(x, n) <= 32,
        low_from(x, n) == 32 ==> forall|j: u32| j < 32 ==> !#[trigger] bit32(x, j),
        low_from(x, n) < 32 ==> bit32(x, low_from(x, n)),
        forall|j: u32| j < low_from(x, n) ==> !#[trigger] bit32(x, j),
    decreases 32 - n,
{
    if n < 32 && !bit32(x, n as u32) {
        lemma_low_from(x, n + 1);
    }
}

/// `low_bit(x)` is a set bit of a nonzero `x` and no lower bit is set.
pub proof fn lemma_low_bit(x: u32)
    requires
        x != 0,
    ensures
        low_bit(x) < 32,
        bit32(x, low_bit(x)),
        forall|j: u32| j < low_bit(x) ==> !#[trigger] bit32(x, j),
{
    lemma_low_from(x, 0);
    if low_bit(x) == 32 {
        lemma_no_bits_zero(x);
    }
}

proof fn lemma_clear_lowest_bv(x: u32, t: u32)
    by (bit_vector)
    requires
        t < 32,
        (x >> t) & 1u32 == 1u32,
        (x << (31 - t) as u32) << 1u32 == 0u32,
    ensures
        x & ((x - 1u32) as u32) == x ^ (1u32 << t),
{
}

proof fn lemma_leading_zeros_hi_bv(lz: u32)
    by (bit_vector)
    requires
        lz <= 32,
    ensures
        lz < 32 ==> ((lz & 15u32) ^ 15u32) == (31 - lz) % 16,
        lz == 32 ==> ((lz & 15u32) ^ 15u32) == 15u32,
{
}

/// Position of the highest set bit, folded into 0..16, with 15 standing for "none".
pub open spec fn hi(x: u32) -> u32 {
    if x == 0 {
        15u32
    } else {
        top_bit(x) % 16
    }
}

/// Number of binary digits of `x`.
pub open spec fn bit_length(x: u32) -> u32 {
    if x == 0 {
        0u32
    } else {
        (top_bit(x) + 1) as u32
    }
}

/// `x` without its lowest set bit.
pub open spec fn drop_lowest(x: u32) -> u32 {
    if x == 0 {
        0u32
    } else {
        x ^ single(low_bit(x))
    }
}

/// Highest set bit, folded into 0..16, computed from `leading_zeros`.
pub fn high_index(x: u32) -> (r: u32)
    ensures
        r == hi(x),
        r < 16,
{
    let lz = x.leading_zeros();
    proof {
        vstd::std_specs::bits::axiom_u32_leading_zeros(x);
        lemma_leading_zeros_hi_bv(lz);
        if x != 0 {
            lemma_top_bit_leading_zeros(x);
        }
    }
    (lz & 15) ^ 15
}

/// Number of binary digits of `x`, computed from `leading_zeros`.
pub fn binary_length(x: u32) -> (r: u32)
    ensures
        r == bit_length(x),
        r <= 32,
{
    let lz = x.leading_zeros();
    proof {
        vstd::std_specs::bits::axiom_u32_leading_zeros(x);
        if x != 0 {
            lemma_top_bit_leading_zeros(x);
        }
    }
    32 - lz
}


/// Zero has no set bits to count.
pub proof fn lemma_pop_zero(n: nat)
    requires
        n <= 32,
    ensures
        pop_below(0u32, n) == 0,
    decreases n,
{
    if n > 0 {
        lemma_bit32_zero((n - 1) as u32);
        lemma_pop_zero((n - 1) as nat);
    }
}

/// Number of set bits of `x`.
pub fn count_ones(x: u32) -> (n: u32)
    ensures
        n == pop(x),
        n <= 32,
{
    let mut n: u32 = 0;
    let mut i: u32 = 0;
    while i < 32
        invariant
            i <= 32,
            n == pop_below(x, i as nat),
            n <= i,
        decreases 32 - i,
    {
        if (x >> i) & 1 == 1 {
            n = n + 1;
        }
        i = i + 1;
    }
    n
}

/// `x` without its lowest set bit, by the `x & (x - 1)` identity.
pub fn clear_lowest(x: u32) -> (r: u32)
    requires
        x != 0,
    ensures
        r == drop_lowest(x),
{
    proof {
        lemma_low_bit(x);
        let t = low_bit(x);
        let y = (x << (31 - t) as u32) << 1u32;
        assert forall|i: u32| i < 32 implies !#[trigger] bit32(y, i) by {
            lemma_bit32_shl(x << (31 - t) as u32, 1u32, i);
            if i >= 1 {
                lemma_bit32_shl(x, (31 - t) as u32, (i - 1) as u32);
            }
        }
        lemma_no_bits_zero(y);
        lemma_clear_lowest_bv(x, t);
    }
    x & (x - 1)
}

} // verus!
