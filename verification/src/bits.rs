//! Bit-width math: number of bits needed for a value, and ceiling log2.

use vstd::prelude::*;

verus! {

use vstd::arithmetic::power2::{
    lemma2_to64, lemma2_to64_rest, lemma_pow2_pos, lemma_pow2_strictly_increases,
    lemma_pow2_unfold, pow2,
};
use vstd::std_specs::bits::{axiom_u64_leading_zeros, u64_leading_zeros};

/// Number of bits needed to represent `x`: zero for zero, otherwise one more
/// than for `x / 2`.
pub open spec fn bit_len_of(x: nat) -> nat
    decreases x,
{
    if x == 0 {
        0
    } else {
        1 + bit_len_of(x / 2)
    }
}

/// `bit_len_of(x)` is the unique `n` with `x < 2^n` and (for `x > 0`)
/// `2^(n-1) <= x`.
pub proof fn lemma_bit_len_of_bounds(x: nat)
    ensures
        x < pow2(bit_len_of(x)),
        x > 0 ==> pow2((bit_len_of(x) - 1) as nat) <= x,
    decreases x,
{
    lemma2_to64();
    if x == 0 {
        assert(pow2(0) == 1);
    } else {
        lemma_bit_len_of_bounds(x / 2);
        lemma_pow2_unfold(bit_len_of(x));
        if x / 2 > 0 {
            lemma_pow2_unfold((bit_len_of(x) - 1) as nat);
        }
    }
}

/// Counting leading zeros is the complement of the bit length.
proof fn lemma_leading_zeros_bit_len(x: u64)
    ensures
        64 - u64_leading_zeros(x) == bit_len_of(x as nat),
    decreases x,
{
    reveal(u64_leading_zeros);
    axiom_u64_leading_zeros(x);
    if x != 0 {
        lemma_leading_zeros_bit_len(x / 2);
        axiom_u64_leading_zeros(x / 2);
    }
}

/// `x` passes the `x & (x - 1) == 0` test exactly when it is the power of two
/// picked out by its bit length.
proof fn lemma_pow2_test(x: u64)
    requires
        x > 0,
    ensures
        (x & ((x - 1) as u64) == 0) <==> (x as nat == pow2((bit_len_of(x as nat) - 1) as nat)),
    decreases x,
{
    lemma2_to64();
    if x == 1 {
        assert(x & ((x - 1) as u64) == 0) by (bit_vector)
            requires
                x == 1,
        ;
        assert(pow2(0) == 1);
        reveal_with_fuel(bit_len_of, 3);
        assert(bit_len_of(1nat) == 1);
        assert(x as nat == pow2((bit_len_of(x as nat) - 1) as nat));
    } else {
        let h = x / 2;
        assert((x & ((x - 1) as u64) == 0) <==> (h & ((h - 1) as u64) == 0 && x % 2 == 0)) by (bit_vector)
            requires
                x >= 2,
                h == x / 2,
        ;
        lemma_pow2_test(h);
        let n = bit_len_of(x as nat);
        assert(n == 1 + bit_len_of(h as nat));
        assert(bit_len_of(h as nat) == 1 + bit_len_of((h as nat) / 2));
        assert(n >= 2);
        lemma_pow2_unfold((n - 1) as nat);
        if x & ((x - 1) as u64) == 0 {
            assert(x == 2 * h + x % 2);
            assert(h as nat == pow2((bit_len_of(h as nat) - 1) as nat));
            assert(x as nat == 2 * pow2((n - 2) as nat));
            assert(x as nat == pow2((n - 1) as nat));
        } else {
            if x as nat == pow2((n - 1) as nat) {
                assert(x == 2 * pow2((n - 2) as nat));
                assert(x % 2 == 0);
                assert(h as nat == pow2((n - 2) as nat));
                assert(h & ((h - 1) as u64) == 0);
                assert(false);
            }
        }
    }
}

/// Returns the number of bits needed to represent the value of `x`:
/// `0` for `0`, `1` for `1`, `64` for `2^63`.
pub fn bit_length(x: u64) -> (r: usize)
    ensures
        r == bit_len_of(x as nat),
        r <= 64,
        (x as nat) < pow2(r as nat),
        x > 0 ==> r > 0 && pow2((r - 1) as nat) <= x as nat,
{
    proof {
        axiom_u64_leading_zeros(x);
        lemma_leading_zeros_bit_len(x);
        lemma_bit_len_of_bounds(x as nat);
    }
    (64u32 - x.leading_zeros()) as usize
}

/// Returns the ceiling of the base 2 logarithm of `x`: the unique `r` with
/// `x <= 2^r` that is either `0` or has `2^(r-1) < x`.
///
/// Assumes `x != 0`.
pub fn log2_ceil(x: u64) -> (r: usize)
    requires
        x != 0,
    ensures
        (x as nat) <= pow2(r as nat),
        r > 0 ==> pow2((r - 1) as nat) < x as nat,
        r <= 64,
{
    let bl = bit_length(x);
    proof {
        lemma_pow2_test(x);
        if bl >= 2 {
            lemma_pow2_strictly_increases((bl - 2) as nat, (bl - 1) as nat);
        }
    }
    if x & (x - 1) == 0 {
        bl - 1
    } else {
        bl
    }
}

} // verus!
