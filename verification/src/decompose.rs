//! Limb decomposition of field elements and big integers, and the inverse
//! composition.

use vstd::prelude::*;

verus! {

use crate::arith::{digits_val, limb_of, limbs_val};
use vstd::arithmetic::power2::pow2;
use crate::bigint::{
    bigint_is_negative, bigint_mag_digits, bigint_magnitude, bigint_negative, biguint_add,
    biguint_from_u64, biguint_shl, biguint_to_u64_digits, biguint_val,
};
use crate::convert::fe_to_biguint;
use crate::field::{fr_from_u128, fr_from_u64, fr_modulus, fr_neg, fr_to_u64_words, fr_val};
use crate::limbs::{decompose_u64_digits_to_limbs, decompose_u64_digits_to_u128_limbs};
use halo2_axiom::halo2curves::bn256::Fr;
use num_bigint::{BigInt, BigUint};

/// Decomposes a field element into `number_of_limbs` raw `u64` limbs of
/// `bit_len` bits each, least significant limb first.
///
/// Assumes `bit_len < 64`.
pub fn decompose_fe_to_u64_limbs(e: &Fr, number_of_limbs: usize, bit_len: usize) -> (r: Vec<u64>)
    requires
        bit_len < 64,
    ensures
        r@.len() == number_of_limbs,
        forall|i: int|
            0 <= i < number_of_limbs ==> r@[i] as nat == limb_of(
                fr_val(*e),
                i as nat,
                bit_len as nat,
            ),
{
    let words = fr_to_u64_words(e);
    proof {
        assert(digits_val(words@) == fr_val(*e));
    }
    decompose_u64_digits_to_limbs(words, number_of_limbs, bit_len)
}

/// Decomposes an unsigned integer into `num_limbs` field-element limbs of
/// `bit_len` bits each, least significant limb first.  Limb `i` is exactly
/// bits `[i * bit_len, (i + 1) * bit_len)` of the input; high bits beyond
/// `num_limbs * bit_len` are silently dropped.
///
/// Assumes `64 <= bit_len < 128` and `num_limbs >= 1`.
pub fn decompose_biguint(e: &BigUint, num_limbs: usize, bit_len: usize) -> (r: Vec<Fr>)
    requires
        64 <= bit_len < 128,
        1 <= num_limbs <= usize::MAX / 2,
    ensures
        r@.len() == num_limbs,
        forall|i: int|
            0 <= i < num_limbs ==> fr_val(r@[i]) == limb_of(
                biguint_val(*e),
                i as nat,
                bit_len as nat,
            ),
{
    let ghost v: nat = biguint_val(*e);
    let digits = biguint_to_u64_digits(e);
    let wide = decompose_u64_digits_to_u128_limbs(&digits, num_limbs, bit_len);
    let mut out: Vec<Fr> = Vec::new();
    let mut i: usize = 0;
    while i < wide.len()
        invariant
            wide@.len() == num_limbs,
            i <= num_limbs,
            out@.len() == i,
            forall|j: int|
                0 <= j < num_limbs ==> wide@[j] as nat == limb_of(v, j as nat, bit_len as nat),
            forall|j: int| 0 <= j < i ==> fr_val(out@[j]) == limb_of(v, j as nat, bit_len as nat),
        decreases wide@.len() - i,
    {
        let f = fr_from_u128(wide[i]);
        out.push(f);
        i = i + 1;
    }
    out
}

/// Decomposes a signed integer into `num_limbs` field-element limbs of
/// `bit_len` bits each: the magnitude is decomposed and, for a negative
/// input, every limb is negated in the field.
///
/// Assumes `64 <= bit_len < 128` and `num_limbs >= 1`.
pub fn decompose_bigint(e: &BigInt, num_limbs: usize, bit_len: usize) -> (r: Vec<Fr>)
    requires
        64 <= bit_len < 128,
        1 <= num_limbs <= usize::MAX / 2,
    ensures
        r@.len() == num_limbs,
        forall|i: int|
            0 <= i < num_limbs ==> fr_val(r@[i]) as int == (if bigint_negative(*e) {
                (fr_modulus() as int - limb_of(
                    digits_val(bigint_mag_digits(*e)),
                    i as nat,
                    bit_len as nat,
                ) as int) % (fr_modulus() as int)
            } else {
                limb_of(digits_val(bigint_mag_digits(*e)), i as nat, bit_len as nat) as int
            }),
{
    let neg = bigint_is_negative(e);
    let mag = bigint_magnitude(e);
    let pos_limbs = decompose_biguint(&mag, num_limbs, bit_len);
    let ghost m: nat = digits_val(bigint_mag_digits(*e));
    if neg {
        let mut out: Vec<Fr> = Vec::new();
        let mut i: usize = 0;
        while i < pos_limbs.len()
            invariant
                pos_limbs@.len() == num_limbs,
                i <= num_limbs,
                out@.len() == i,
                forall|j: int|
                    0 <= j < num_limbs ==> fr_val(pos_limbs@[j]) == limb_of(
                        m,
                        j as nat,
                        bit_len as nat,
                    ),
                forall|j: int|
                    0 <= j < i ==> fr_val(out@[j]) as int == (fr_modulus() as int - limb_of(
                        m,
                        j as nat,
                        bit_len as nat,
                    ) as int) % (fr_modulus() as int),
            decreases pos_limbs@.len() - i,
        {
            let f = fr_neg(&pos_limbs[i]);
            out.push(f);
            i = i + 1;
        }
        out
    } else {
        pos_limbs
    }
}

/// Routes a field element decomposition: widths above 64 bits go through
/// the wide (128-bit accumulator) path on the canonical integer value,
/// narrower widths through the raw word path.
///
/// Assumes `bit_len < 128` and `bit_len != 64`.
pub fn decompose(e: &Fr, number_of_limbs: usize, bit_len: usize) -> (r: Vec<Fr>)
    requires
        bit_len < 128,
        bit_len != 64,
        bit_len > 64 ==> 1 <= number_of_limbs && number_of_limbs <= usize::MAX / 2,
    ensures
        r@.len() == number_of_limbs,
        forall|i: int|
            0 <= i < number_of_limbs ==> fr_val(r@[i]) == limb_of(
                fr_val(*e),
                i as nat,
                bit_len as nat,
            ),
{
    if bit_len > 64 {
        let v = fe_to_biguint(e);
        decompose_biguint(&v, number_of_limbs, bit_len)
    } else {
        let ghost fv: nat = fr_val(*e);
        let limbs = decompose_fe_to_u64_limbs(e, number_of_limbs, bit_len);
        let mut out: Vec<Fr> = Vec::new();
        let mut i: usize = 0;
        while i < limbs.len()
            invariant
                limbs@.len() == number_of_limbs,
                i <= number_of_limbs,
                out@.len() == i,
                forall|j: int|
                    0 <= j < number_of_limbs ==> limbs@[j] as nat == limb_of(
                        fv,
                        j as nat,
                        bit_len as nat,
                    ),
                forall|j: int|
                    0 <= j < i ==> fr_val(out@[j]) == limb_of(fv, j as nat, bit_len as nat),
            decreases limbs@.len() - i,
        {
            let f = fr_from_u64(limbs[i]);
            out.push(f);
            i = i + 1;
        }
        out
    }
}

/// Computes the value of an integer from a `Vec` of its limb values and the
/// bit length used: the sum of limb `i` scaled by `2^(bit_len * i)`.  This
/// is the algebraic inverse of limb decomposition.
pub fn compose(input: Vec<BigUint>, bit_len: usize) -> (r: BigUint)
    ensures
        biguint_val(r) == limbs_val(
            input@.map_values(|b: BigUint| biguint_val(b)),
            bit_len as nat,
        ),
{
    let ghost vals: Seq<nat> = input@.map_values(|b: BigUint| biguint_val(b));
    let n = input.len();
    let mut acc = biguint_from_u64(0);
    let mut i: usize = n;
    proof {
        assert(vals.subrange(n as int, n as int) =~= Seq::<nat>::empty());
    }
    while i > 0
        invariant
            vals == input@.map_values(|b: BigUint| biguint_val(b)),
            n == input@.len(),
            i <= n,
            biguint_val(acc) == limbs_val(vals.subrange(i as int, n as int), bit_len as nat),
        decreases i,
    {
        i = i - 1;
        let shifted = biguint_shl(&acc, bit_len);
        let acc2 = biguint_add(&shifted, &input[i]);
        proof {
            let s = vals.subrange(i as int, n as int);
            assert(s[0] == vals[i as int]);
            assert(vals[i as int] == biguint_val(input@[i as int]));
            assert(s.subrange(1, s.len() as int) =~= vals.subrange(i as int + 1, n as int));
            assert(limbs_val(s, bit_len as nat) == s[0] + pow2(bit_len as nat) * limbs_val(
                s.subrange(1, s.len() as int),
                bit_len as nat,
            ));
            assert(limbs_val(vals.subrange(i as int, n as int), bit_len as nat) == limbs_val(
                vals.subrange(i as int + 1, n as int),
                bit_len as nat,
            ) * pow2(bit_len as nat) + vals[i as int]) by (nonlinear_arith)
                requires
                    limbs_val(vals.subrange(i as int, n as int), bit_len as nat) == vals.subrange(
                        i as int,
                        n as int,
                    )[0] + pow2(bit_len as nat) * limbs_val(
                        vals.subrange(i as int + 1, n as int),
                        bit_len as nat,
                    ),
                    vals.subrange(i as int, n as int)[0] == vals[i as int],
            ;
        }
        acc = acc2;
    }
    proof {
        assert(vals.subrange(0, n as int) =~= vals);
    }
    acc
}

} // verus!
