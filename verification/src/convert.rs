//! Conversion between field elements and arbitrary-precision integers, using
//! the modulus-midpoint sign convention.

use vstd::prelude::*;

verus! {

use crate::arith::{digits_val, lemma_digits_val_lower, lemma_digits_val_push_zero};
use crate::bigint::{
    bigint_from_biguint, bigint_is_negative, bigint_magnitude, bigint_val, biguint_add,
    biguint_from_u64, biguint_le, biguint_rem, biguint_shl, biguint_shr, biguint_sub,
    biguint_to_u64_digits, biguint_val,
};
use crate::field::{
    fr_from_raw_words, fr_modulus, fr_neg, fr_one, fr_to_u64_words, fr_val,
    lemma_fr_modulus_bounds,
};
use halo2_axiom::halo2curves::bn256::Fr;
use num_bigint::{BigInt, BigUint};
use vstd::arithmetic::div_mod::{
    lemma_fundamental_div_mod, lemma_fundamental_div_mod_converse, lemma_mod_bound,
    lemma_mod_multiples_vanish, lemma_small_mod,
};
use vstd::arithmetic::power2::{lemma2_to64, lemma_pow2_strictly_increases, pow2};

/// The balanced signed representative of a canonical field value: values at
/// or below `modulus / 2` map to themselves, values above it to a negative
/// value in `(-modulus/2, 0)`.
pub open spec fn balanced_of(v: nat) -> int {
    if v <= fr_modulus() / 2 {
        v as int
    } else {
        v as int - fr_modulus() as int
    }
}

/// A signed value reduced into `[0, fr_modulus())`.
pub open spec fn mod_fr(x: int) -> nat {
    (x % (fr_modulus() as int)) as nat
}

/// Returns the modulus of the field as an unsigned integer, computed as the
/// integer value of the field's `-1` plus one.
pub fn modulus() -> (r: BigUint)
    ensures
        biguint_val(r) == fr_modulus(),
{
    proof {
        lemma_fr_modulus_bounds();
    }
    let one_fe = fr_one();
    let neg_one = fr_neg(&one_fe);
    let m1 = fe_to_biguint(&neg_one);
    let one = biguint_from_u64(1);
    biguint_add(&m1, &one)
}

/// Returns the field element of `2^n`, reduced modulo the field modulus.
pub fn power_of_two(n: usize) -> (r: Fr)
    ensures
        fr_val(r) == pow2(n as nat) % fr_modulus(),
{
    let one = biguint_from_u64(1);
    let shifted = biguint_shl(&one, n);
    biguint_to_fe(&shifted)
}

/// Converts a field element into the unsigned integer it canonically
/// represents (its reduced representative).  Total, no failure.
pub fn fe_to_biguint(fe: &Fr) -> (r: BigUint)
    ensures
        biguint_val(r) == fr_val(*fe),
        biguint_val(r) < fr_modulus(),
{
    let words = fr_to_u64_words(fe);
    let ghost w: Seq<u64> = words@;
    let mut acc = biguint_from_u64(0);
    let mut i: usize = words.len();
    proof {
        assert(w.subrange(4, 4) =~= Seq::<u64>::empty());
    }
    while i > 0
        invariant
            words@ == w,
            w.len() == 4,
            i <= 4,
            biguint_val(acc) == digits_val(w.subrange(i as int, 4)),
        decreases i,
    {
        i = i - 1;
        let shifted = biguint_shl(&acc, 64);
        let d = biguint_from_u64(words[i]);
        let acc2 = biguint_add(&shifted, &d);
        proof {
            let s = w.subrange(i as int, 4);
            assert(s[0] == w[i as int]);
            assert(s.subrange(1, s.len() as int) =~= w.subrange(i as int + 1, 4));
            assert(digits_val(s) == s[0] as nat + pow2(64) * digits_val(
                s.subrange(1, s.len() as int),
            ));
            assert(digits_val(w.subrange(i as int, 4)) == w[i as int] as nat + digits_val(
                w.subrange(i as int + 1, 4),
            ) * pow2(64)) by (nonlinear_arith)
                requires
                    digits_val(w.subrange(i as int, 4)) == w.subrange(i as int, 4)[0] as nat + pow2(
                        64,
                    ) * digits_val(w.subrange(i as int + 1, 4)),
                    w.subrange(i as int, 4)[0] == w[i as int],
            ;
        }
        acc = acc2;
    }
    proof {
        assert(w.subrange(0, 4) =~= w);
    }
    acc
}

/// Embeds an unsigned integer into the field.  The input is reduced modulo
/// the field modulus first, which is this crate's documented policy for
/// inputs at or above the modulus.
pub fn biguint_to_fe(e: &BigUint) -> (r: Fr)
    ensures
        fr_val(r) == biguint_val(*e) % fr_modulus(),
{
    proof {
        lemma_fr_modulus_bounds();
    }
    let m = modulus();
    let red = biguint_rem(e, &m);
    let ghost rv: nat = biguint_val(red);
    let mut digits = biguint_to_u64_digits(&red);
    proof {
        lemma_mod_bound(biguint_val(*e) as int, fr_modulus() as int);
        if digits@.len() >= 5 {
            lemma_digits_val_lower(digits@);
            if 64 * (digits@.len() - 1) > 256 {
                lemma_pow2_strictly_increases(256, (64 * (digits@.len() - 1)) as nat);
            }
            assert(false);
        }
    }
    while digits.len() < 4
        invariant
            digits@.len() <= 4,
            digits_val(digits@) == rv,
        decreases 4 - digits.len(),
    {
        proof {
            lemma_digits_val_push_zero(digits@);
        }
        digits.push(0);
    }
    let r = fr_from_raw_words(&digits);
    proof {
        lemma_mod_bound(biguint_val(*e) as int, fr_modulus() as int);
        lemma_small_mod(rv, fr_modulus());
    }
    r
}

/// For any magnitude `m`, field negation of `m % modulus` agrees with the
/// reduction of `-m` into `[0, modulus)`.
proof fn lemma_neg_mod(m: nat)
    ensures
        (fr_modulus() as int - (m % fr_modulus()) as int) % (fr_modulus() as int) == (-(m as int))
            % (fr_modulus() as int),
{
    let p = fr_modulus() as int;
    let q = (m as int) / p;
    let r0 = (m as int) % p;
    lemma_fundamental_div_mod(m as int, p);
    lemma_mod_bound(m as int, p);
    if r0 == 0 {
        lemma_fundamental_div_mod_converse(-(m as int), p, -q, 0);
        lemma_fundamental_div_mod_converse(p - r0, p, 1, 0);
    } else {
        lemma_fundamental_div_mod_converse(-(m as int), p, -q - 1, p - r0);
        lemma_small_mod((p - r0) as nat, fr_modulus());
    }
}

/// Converts a signed integer into the field: the magnitude is embedded and
/// the result negated in the field when the sign is negative, so the result
/// is the input reduced modulo the field modulus.
pub fn bigint_to_fe(e: &BigInt) -> (r: Fr)
    ensures
        fr_val(r) == mod_fr(bigint_val(*e)),
{
    proof {
        lemma_fr_modulus_bounds();
    }
    let neg = bigint_is_negative(e);
    let mag = bigint_magnitude(e);
    let f = biguint_to_fe(&mag);
    if neg {
        let r = fr_neg(&f);
        proof {
            lemma_neg_mod(biguint_val(mag));
        }
        r
    } else {
        proof {
            lemma_mod_bound(bigint_val(*e), fr_modulus() as int);
        }
        f
    }
}

/// Converts a field element to its balanced signed representative in
/// `(-modulus/2, modulus/2]`: values at or below the midpoint stay
/// themselves, larger values map to `value - modulus`.
pub fn fe_to_bigint(fe: &Fr) -> (r: BigInt)
    ensures
        bigint_val(r) == balanced_of(fr_val(*fe)),
{
    proof {
        lemma_fr_modulus_bounds();
        lemma2_to64();
    }
    let m = modulus();
    let e = fe_to_biguint(fe);
    let half = biguint_shr(&m, 1);
    if biguint_le(&e, &half) {
        bigint_from_biguint(false, e)
    } else {
        let diff = biguint_sub(&m, &e);
        bigint_from_biguint(true, diff)
    }
}

/// Law: signed round-trip.  Reducing a balanced signed representative into
/// the field (as `bigint_to_fe` does) and mapping the canonical value back
/// (as `fe_to_bigint` does) returns the original value.
pub proof fn lemma_signed_roundtrip(x: int)
    requires
        -((fr_modulus() as int) / 2) <= x <= (fr_modulus() as int) / 2,
    ensures
        balanced_of(mod_fr(x)) == x,
{
    let p = fr_modulus() as int;
    if x >= 0 {
        lemma_small_mod(x as nat, fr_modulus());
    } else {
        lemma_mod_multiples_vanish(1, x, p);
        lemma_small_mod((x + p) as nat, fr_modulus());
    }
}

} // verus!
