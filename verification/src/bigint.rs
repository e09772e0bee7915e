//! Trusted interface to `num_bigint`'s arbitrary-precision integers.
//!
//! A `BigUint` is modeled by its little-endian `u64` digit sequence
//! (`biguint_digits`), a `BigInt` by a magnitude digit sequence and a sign
//! flag.  Every executable item here is a thin wrapper around one
//! `num_bigint` operation, with a contract stating what that operation's
//! documentation promises about the modeled value.

use vstd::prelude::*;

verus! {

use crate::arith::digits_val;
use num_bigint::{BigInt, BigUint, Sign};

#[verifier::external_type_specification]
#[verifier::external_body]
pub struct ExBigUint(BigUint);

#[verifier::external_type_specification]
#[verifier::external_body]
pub struct ExBigInt(BigInt);

/// The little-endian `u64` digits a `BigUint` holds, with no trailing zero.
pub uninterp spec fn biguint_digits(b: BigUint) -> Seq<u64>;

/// The little-endian `u64` digits of a `BigInt`'s magnitude.
pub uninterp spec fn bigint_mag_digits(b: BigInt) -> Seq<u64>;

/// Whether a `BigInt` is strictly negative.
pub uninterp spec fn bigint_negative(b: BigInt) -> bool;

/// The unsigned value a `BigUint` stands for.
pub open spec fn biguint_val(b: BigUint) -> nat {
    digits_val(biguint_digits(b))
}

/// The signed value a `BigInt` stands for.
pub open spec fn bigint_val(b: BigInt) -> int {
    if bigint_negative(b) {
        -(digits_val(bigint_mag_digits(b)) as int)
    } else {
        digits_val(bigint_mag_digits(b)) as int
    }
}

/// Relies on `BigUint::from::<u64>`: embeds a machine word exactly.
#[verifier::external_body]
pub(crate) fn biguint_from_u64(x: u64) -> (r: BigUint)
    ensures
        biguint_val(r) == x,
{
    BigUint::from(x)
}

/// Relies on `BigUint::to_u64_digits`: returns the value's little-endian
/// `u64` digits with no trailing zero digit (empty for zero).
#[verifier::external_body]
pub(crate) fn biguint_to_u64_digits(a: &BigUint) -> (r: Vec<u64>)
    ensures
        r@ == biguint_digits(*a),
        r@.len() > 0 ==> r@[r@.len() - 1] != 0,
{
    a.to_u64_digits()
}

/// Relies on `Shl<usize> for &BigUint`: multiplies by `2^n`.
#[verifier::external_body]
pub(crate) fn biguint_shl(a: &BigUint, n: usize) -> (r: BigUint)
    ensures
        biguint_val(r) == biguint_val(*a) * vstd::arithmetic::power2::pow2(n as nat),
{
    a << n
}

/// Relies on `Shr<usize> for &BigUint`: divides by `2^n`, rounding down.
#[verifier::external_body]
pub(crate) fn biguint_shr(a: &BigUint, n: usize) -> (r: BigUint)
    ensures
        biguint_val(r) == biguint_val(*a) / vstd::arithmetic::power2::pow2(n as nat),
{
    a >> n
}

/// Relies on `Add for &BigUint`: exact addition.
#[verifier::external_body]
pub(crate) fn biguint_add(a: &BigUint, b: &BigUint) -> (r: BigUint)
    ensures
        biguint_val(r) == biguint_val(*a) + biguint_val(*b),
{
    a + b
}

/// Relies on `Sub for &BigUint`: exact subtraction; panics when the
/// subtrahend is larger, so that case is excluded.
#[verifier::external_body]
pub(crate) fn biguint_sub(a: &BigUint, b: &BigUint) -> (r: BigUint)
    requires
        biguint_val(*b) <= biguint_val(*a),
    ensures
        biguint_val(r) == biguint_val(*a) - biguint_val(*b),
{
    a - b
}

/// Relies on `Ord for BigUint`: compares by value.
#[verifier::external_body]
pub(crate) fn biguint_le(a: &BigUint, b: &BigUint) -> (r: bool)
    ensures
        r == (biguint_val(*a) <= biguint_val(*b)),
{
    a <= b
}

/// Relies on `Rem for &BigUint`: Euclidean remainder; panics on a zero
/// modulus, so that case is excluded.
#[verifier::external_body]
pub(crate) fn biguint_rem(a: &BigUint, m: &BigUint) -> (r: BigUint)
    requires
        biguint_val(*m) > 0,
    ensures
        biguint_val(r) == biguint_val(*a) % biguint_val(*m),
{
    a % m
}

/// Relies on `num_traits::Signed::is_negative` for `BigInt`: true exactly
/// for values below zero (zero always carries `Sign::NoSign`, so a negative
/// sign implies a nonzero magnitude).
#[verifier::external_body]
pub(crate) fn bigint_is_negative(e: &BigInt) -> (r: bool)
    ensures
        r == bigint_negative(*e),
        r ==> digits_val(bigint_mag_digits(*e)) > 0,
{
    num_traits::Signed::is_negative(e)
}

/// Relies on `BigInt::magnitude`: the absolute value as a `BigUint`.
#[verifier::external_body]
pub(crate) fn bigint_magnitude(e: &BigInt) -> (r: BigUint)
    ensures
        biguint_digits(r) == bigint_mag_digits(*e),
{
    e.magnitude().clone()
}

/// Relies on `BigInt::from_biguint`: builds the signed value with the given
/// sign and magnitude (a negative zero normalizes to zero, whose value is
/// the same).
#[verifier::external_body]
pub(crate) fn bigint_from_biguint(negative: bool, mag: BigUint) -> (r: BigInt)
    ensures
        bigint_val(r) == if negative {
            -(biguint_val(mag) as int)
        } else {
            biguint_val(mag) as int
        },
{
    BigInt::from_biguint(
        if negative {
            Sign::Minus
        } else {
            Sign::Plus
        },
        mag,
    )
}

} // verus!
