//! Trusted interface to the BN254 scalar field element `Fr` of `halo2curves`
//! (re-exported by `halo2_axiom`).
//!
//! An `Fr` is modeled by the four little-endian `u64` words of its canonical
//! (reduced) representative (`fr_words`); `fr_val` is that representative's
//! value, always below the field modulus.  Every executable item here wraps
//! one operation of the field type.

use vstd::prelude::*;

verus! {

use crate::arith::digits_val;
use halo2_axiom::halo2curves::bn256::Fr;
use halo2_axiom::halo2curves::ff::PrimeField;
use vstd::arithmetic::power2::{lemma2_to64, lemma_pow2_adds, pow2};

#[verifier::external_type_specification]
#[verifier::external_body]
pub struct ExFr(Fr);

/// The four little-endian `u64` words of the canonical representative that
/// an `Fr` holds.
pub uninterp spec fn fr_words(f: Fr) -> Seq<u64>;

/// The canonical representative of an `Fr`, in `[0, fr_modulus())`.
pub open spec fn fr_val(f: Fr) -> nat {
    digits_val(fr_words(f))
}

/// The BN254 scalar field modulus.
pub open spec fn fr_modulus() -> nat {
    0x30644e72e131a029b85045b68181585d2833e84879b9709143e1f593f0000001nat
}

/// Size facts about the modulus: it lies between `2^128` and `2^256`.
pub proof fn lemma_fr_modulus_bounds()
    ensures
        pow2(128) < fr_modulus(),
        fr_modulus() < pow2(256),
        fr_modulus() > 2,
{
    lemma2_to64();
    lemma_pow2_adds(64, 64);
    lemma_pow2_adds(128, 128);
    assert(pow2(128) == 0x100000000000000000000000000000000nat);
    assert(pow2(256) == 0x10000000000000000000000000000000000000000000000000000000000000000nat)
        by (nonlinear_arith)
        requires
            pow2(256) == pow2(128) * pow2(128),
            pow2(128) == 0x100000000000000000000000000000000nat,
    ;
}

/// Relies on `Fr::one`: the multiplicative identity, representative 1.
#[verifier::external_body]
pub(crate) fn fr_one() -> (r: Fr)
    ensures
        fr_val(r) == 1,
{
    Fr::one()
}

/// Relies on `Neg for Fr`: the additive inverse, reduced.
#[verifier::external_body]
pub(crate) fn fr_neg(a: &Fr) -> (r: Fr)
    ensures
        fr_val(r) as int == (fr_modulus() - fr_val(*a)) % (fr_modulus() as int),
        fr_val(r) < fr_modulus(),
{
    -(*a)
}

/// Relies on `From<u64> for Fr`: embeds a machine word, which is already
/// below the modulus.
#[verifier::external_body]
pub(crate) fn fr_from_u64(x: u64) -> (r: Fr)
    ensures
        fr_val(r) == x,
{
    Fr::from(x)
}

/// Relies on `ff::PrimeField::from_u128`: embeds a 128-bit value; the
/// field's capacity exceeds 128 bits, so the embedding is exact.
#[verifier::external_body]
pub(crate) fn fr_from_u128(x: u128) -> (r: Fr)
    ensures
        fr_val(r) == x,
{
    Fr::from_u128(x)
}

/// Relies on `From<[u64; 4]> for Fr` (`Fr::from_raw`): builds the field
/// element congruent to the little-endian words, reduced modulo the modulus.
#[verifier::external_body]
pub(crate) fn fr_from_raw_words(w: &Vec<u64>) -> (r: Fr)
    requires
        w@.len() == 4,
    ensures
        fr_val(r) == digits_val(w@) % fr_modulus(),
{
    Fr::from([w[0], w[1], w[2], w[3]])
}

/// Relies on `From<Fr> for [u64; 4]`: the canonical little-endian words of
/// the reduced representative, which is below the modulus.
#[verifier::external_body]
pub(crate) fn fr_to_u64_words(a: &Fr) -> (r: Vec<u64>)
    ensures
        r@ == fr_words(*a),
        r@.len() == 4,
        digits_val(r@) < fr_modulus(),
{
    let w: [u64; 4] = (*a).into();
    w.to_vec()
}

} // verus!
