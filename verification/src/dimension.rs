//! Table dimensions: rounding a requested width up to a power of two.

use vstd::arithmetic::power2::{
    lemma2_to64, lemma_pow2_pos, lemma_pow2_strictly_increases, lemma_pow2_unfold, pow2,
};
use vstd::prelude::*;

verus! {

/// `n` is `2^e` for some exponent `e`.
pub open spec fn is_power_of_two(n: nat) -> bool {
    exists|e: nat| n == pow2(e)
}

/// Doubles `r` until it is no longer below `n`.
pub open spec fn double_until(r: nat, n: nat) -> nat
    decreases (if r < n { n - r } else { 0 }),
{
    if r == 0 || r >= n {
        r
    } else {
        double_until(2 * r, n)
    }
}

/// The width of the table that a request for `n` columns gets: the smallest
/// power of two that is at least `n`.
pub open spec fn round_up_pow2(n: nat) -> nat {
    double_until(1, n)
}

/// Doubling never shrinks, stops at or above `n`, stays below `2 * n` when it
/// started below `n`, and keeps powers of two powers of two.
pub proof fn lemma_double_until(r: nat, n: nat)
    requires
        r >= 1,
    ensures
        double_until(r, n) >= r,
        double_until(r, n) >= n,
        r < n ==> double_until(r, n) < 2 * n,
        r >= n ==> double_until(r, n) == r,
        is_power_of_two(r) ==> is_power_of_two(double_until(r, n)),
    decreases (if r < n { n - r } else { 0 }),
{
    if r < n {
        lemma_double_until(2 * r, n);
        if is_power_of_two(r) {
            let e = choose|e: nat| r == pow2(e);
            lemma_pow2_unfold(e + 1);
            assert(2 * r == pow2(e + 1));
        }
    }
}

/// `round_up_pow2(n)` is a power of two, at least `n`, and less than twice
/// `n`; a power of two is left as it is.
pub proof fn lemma_round_up_pow2(n: nat)
    ensures
        is_power_of_two(round_up_pow2(n)),
        round_up_pow2(n) >= n,
        round_up_pow2(n) >= 1,
        n >= 1 ==> round_up_pow2(n) < 2 * n,
        is_power_of_two(n) ==> round_up_pow2(n) == n,
{
    lemma2_to64();
    assert(1 == pow2(0));
    lemma_double_until(1, n);
    if is_power_of_two(n) {
        let k = choose|k: nat| n == pow2(k);
        lemma_pow2_pos(k);
        lemma_fixed_on_powers(0, n);
    }
}

/// No power of two that is at least `n` is smaller than `round_up_pow2(n)`.
pub proof fn lemma_round_up_pow2_least(n: nat, p: nat)
    requires
        is_power_of_two(p),
        p >= n,
    ensures
        round_up_pow2(n) <= p,
{
    lemma_round_up_pow2(n);
    let r = round_up_pow2(n);
    let j = choose|j: nat| p == pow2(j);
    let e = choose|e: nat| r == pow2(e);
    lemma_pow2_pos(j);
    if p < r {
        if e < j {
            lemma_pow2_strictly_increases(e, j);
        }
        assert(j < e);
        lemma_pow2_unfold(j + 1);
        if j + 1 < e {
            lemma_pow2_strictly_increases(j + 1, e);
        }
        assert(2 * p <= r);
    }
}

/// Doubling from `2^e` stops exactly at any power of two `n` not below it.
proof fn lemma_fixed_on_powers(e: nat, n: nat)
    requires
        is_power_of_two(n),
        pow2(e) <= n,
    ensures
        double_until(pow2(e), n) == n,
    decreases (if pow2(e) < n { n - pow2(e) } else { 0 }),
{
    lemma_pow2_pos(e);
    let k = choose|k: nat| n == pow2(k);
    if pow2(e) < n {
        if k <= e {
            if k < e {
                lemma_pow2_strictly_increases(k, e);
            }
        }
        assert(e < k);
        lemma_pow2_unfold(e + 1);
        if e + 1 < k {
            lemma_pow2_strictly_increases(e + 1, k);
        }
        lemma_fixed_on_powers(e + 1, n);
    }
}

/// Rounds `n` up to the next power of two.
pub fn next_power_of_two(n: usize) -> (r: usize)
    requires
        round_up_pow2(n as nat) <= usize::MAX,
    ensures
        r == round_up_pow2(n as nat),
{
    let mut r: usize = 1;
    while r < n
        invariant
            r >= 1,
            double_until(r as nat, n as nat) == round_up_pow2(n as nat),
            round_up_pow2(n as nat) <= usize::MAX,
        decreases (if r < n { n - r } else { 0 }),
    {
        proof {
            lemma_double_until(2 * r as nat, n as nat);
        }
        r = r * 2;
    }
    r
}

} // verus!
