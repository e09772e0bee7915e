//! Capability traits for field element types: reading the canonical
//! representative out as 64-bit limbs, and building an element from 64-bit
//! words.  The BN254 scalar field implements both.

use vstd::prelude::*;

verus! {

use crate::arith::{digits_val, limb_of};
use crate::decompose::decompose_fe_to_u64_limbs;
use crate::field::{fr_from_raw_words, fr_modulus, fr_val};
use halo2_axiom::halo2curves::bn256::Fr;

/// A field element whose canonical representative can be read out as
/// little-endian `bit_len`-bit limbs.
pub trait ScalarField: Sized {
    /// The canonical representative, as a mathematical value.
    spec fn field_val(&self) -> nat;

    /// Returns the base-`2^bit_len` little-endian representation of the
    /// element, up to `num_limbs` limbs (any extra high limbs are
    /// truncated).
    ///
    /// Assumes `bit_len < 64`.
    fn to_u64_limbs(self, num_limbs: usize, bit_len: usize) -> (r: Vec<u64>)
        requires
            bit_len < 64,
        ensures
            r@.len() == num_limbs,
            forall|i: int|
                0 <= i < num_limbs ==> r@[i] as nat == limb_of(
                    self.field_val(),
                    i as nat,
                    bit_len as nat,
                ),
    ;
}

/// A prime field whose elements can be built from up to four little-endian
/// 64-bit words, reduced modulo the field's modulus.
pub trait BigPrimeField: ScalarField {
    /// The field's modulus.
    spec fn spec_modulus() -> nat;

    /// Builds the field element congruent to the little-endian words of
    /// `val`.
    ///
    /// Assumes `val.len() <= 4`.
    fn from_u64_digits(val: &[u64]) -> (r: Self)
        requires
            val@.len() <= 4,
        ensures
            r.field_val() == digits_val(val@) % Self::spec_modulus(),
    ;
}

impl ScalarField for Fr {
    open spec fn field_val(&self) -> nat {
        fr_val(*self)
    }

    fn to_u64_limbs(self, num_limbs: usize, bit_len: usize) -> (r: Vec<u64>) {
        decompose_fe_to_u64_limbs(&self, num_limbs, bit_len)
    }
}

impl BigPrimeField for Fr {
    open spec fn spec_modulus() -> nat {
        fr_modulus()
    }

    fn from_u64_digits(val: &[u64]) -> (r: Fr) {
        let mut words: Vec<u64> = Vec::new();
        let mut i: usize = 0;
        while i < val.len()
            invariant
                val@.len() <= 4,
                i <= val@.len(),
                words@ == val@.subrange(0, i as int),
            decreases val@.len() - i,
        {
            words.push(val[i]);
            i = i + 1;
        }
        proof {
            assert(words@ =~= val@);
        }
        while words.len() < 4
            invariant
                words@.len() <= 4,
                digits_val(words@) == digits_val(val@),
            decreases 4 - words.len(),
        {
            proof {
                crate::arith::lemma_digits_val_push_zero(words@);
            }
            words.push(0);
        }
        fr_from_raw_words(&words)
    }
}

} // verus!
