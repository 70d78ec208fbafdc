//! The indexing scheme: one 64-bit hash gives a bucket in every row.

use crate::dimension::is_power_of_two;
use vstd::arithmetic::div_mod::{lemma_add_mod_noop, lemma_mod_mod};
use vstd::arithmetic::power2::{
    lemma2_to64, lemma_pow2_adds, lemma_pow2_pos, lemma_pow2_strictly_increases, pow2,
};
use vstd::bits::lemma_u64_low_bits_mask_is_mod;
use vstd::prelude::*;

verus! {

/// The secondary multiplier derived from the primary hash `h1`: an avalanche
/// mix whose lowest bit is then set, so that the result is odd.
pub open spec fn secondary(h1: u64) -> u64 {
    let a = h1.wrapping_add(0x9E3779B97F4A7C15u64);
    let b = (a ^ (a >> 30u64)).wrapping_mul(0xBF58476D1CE4E5B9u64);
    let c = (b ^ (b >> 27u64)).wrapping_mul(0x94D049BB133111EBu64);
    let d = c ^ (c >> 31u64);
    d | 1u64
}

/// The column that the item with primary hash `h1` occupies in row `row` of a
/// table whose rows are `width` wide: `(h1 + row * h2)`, on 64 bits, masked
/// with `width - 1`.
pub open spec fn bucket(h1: u64, row: nat, width: nat) -> nat {
    (h1.wrapping_add((row as u64).wrapping_mul(secondary(h1))) & ((width - 1) as u64)) as nat
}

/// Masking keeps every bucket inside the row.
pub proof fn lemma_bucket_in_row(h1: u64, row: nat, width: nat)
    requires
        1 <= width <= usize::MAX,
    ensures
        bucket(h1, row, width) < width,
{
    let x = h1.wrapping_add((row as u64).wrapping_mul(secondary(h1)));
    let mask = (width - 1) as u64;
    assert(x & mask <= mask) by (bit_vector);
}

/// For a width that is a power of two, masking is reduction modulo the
/// width: the bucket of row `row` is `h1 + row * h2` modulo the width, where
/// `h2` is the secondary multiplier of `h1`.
pub proof fn lemma_bucket_is_mod(h1: u64, row: nat, width: nat)
    requires
        is_power_of_two(width),
        width <= usize::MAX,
        row <= usize::MAX,
    ensures
        bucket(h1, row, width) == (h1 + row * secondary(h1)) % (width as int),
{
    let k = choose|k: nat| width == pow2(k);
    lemma2_to64();
    if k > 64 {
        lemma_pow2_strictly_increases(64, k);
    }
    assert(k < 64);
    let big: int = 0x1_0000_0000_0000_0000;
    let w = width as int;
    let q = pow2((64 - k) as nat) as int;
    lemma_pow2_pos(k);
    lemma_pow2_pos((64 - k) as nat);
    lemma_pow2_adds(k, (64 - k) as nat);
    assert(big == w * q);

    let h2 = secondary(h1);
    let m = (row as u64).wrapping_mul(h2);
    let x = h1.wrapping_add(m);
    lemma_u64_low_bits_mask_is_mod(x, k);
    assert(bucket(h1, row, width) == x as int % w);

    assert(m as int == (row * h2) % big);
    assert(x as int == (h1 + m) % big) by {
        if h1 + m > u64::MAX {
            assert((h1 + m) % big == h1 + m - big) by (nonlinear_arith)
                requires
                    big <= h1 + m < 2 * big,
                    big > 0,
            ;
        } else {
            assert((h1 + m) % big == h1 + m) by (nonlinear_arith)
                requires
                    0 <= h1 + m < big,
            ;
        }
    }
    lemma_mod_mod(h1 + m, w, q);
    lemma_mod_mod(row * h2, w, q);
    lemma_add_mod_noop(h1 as int, m as int, w);
    lemma_add_mod_noop(h1 as int, row * h2, w);
    assert(x as int % w == (h1 + m) % w);
    assert(m as int % w == (row * h2) % w);
}

/// Computes the secondary multiplier of `h1`.
pub fn secondary_hash(h1: u64) -> (h2: u64)
    ensures
        h2 == secondary(h1),
        h2 % 2 == 1,
{
    let a: u64 = h1.wrapping_add(0x9E3779B97F4A7C15u64);
    let b: u64 = (a ^ (a >> 30u64)).wrapping_mul(0xBF58476D1CE4E5B9u64);
    let c: u64 = (b ^ (b >> 27u64)).wrapping_mul(0x94D049BB133111EBu64);
    let d: u64 = c ^ (c >> 31u64);
    assert((d | 1u64) % 2 == 1) by (bit_vector);
    d | 1u64
}

/// Computes the bucket of row `row` from the two hashes and the mask of the
/// width, which is the width less one.
pub fn bucket_index(h1: u64, h2: u64, row: usize, width_mask: usize) -> (b: usize)
    requires
        width_mask < usize::MAX,
        h2 == secondary(h1),
    ensures
        b == bucket(h1, row as nat, (width_mask + 1) as nat),
        b <= width_mask,
{
    let mask: u64 = width_mask as u64;
    let x: u64 = h1.wrapping_add((row as u64).wrapping_mul(h2));
    assert(x & mask <= mask) by (bit_vector);
    (x & mask) as usize
}

} // verus!
