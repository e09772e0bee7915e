//! The sliding-window limb codec over raw little-endian 64-bit digits.

use vstd::prelude::*;

verus! {

use crate::arith::{
    bits_of, digits_val, lemma_bits_of_bound, lemma_bits_of_div, lemma_bits_of_mod,
    lemma_bits_of_split, lemma_digit_is_bits, lemma_pow2_le_u128_max, lemma_pow2_le_u64_max,
    lemma_u128_or_shl_is_add, lemma_u128_shl_is_mul, lemma_u64_or_shl_is_add, limb_of,
};
use vstd::arithmetic::power2::{lemma2_to64, lemma2_to64_rest, lemma_pow2_adds, lemma_pow2_pos, pow2};
use vstd::bits::{
    lemma_u64_low_bits_mask_is_mod, lemma_u64_pow2_no_overflow, lemma_u64_shl_is_mul,
    lemma_u64_shr_is_div, low_bits_mask,
};

/// Reads digit `d` of a little-endian digit vector; positions past the end
/// read as zero, so a shorter-than-needed input is zero-padded on the high end.
fn digit_or_zero(e: &Vec<u64>, d: usize) -> (r: u64)
    ensures
        r as nat == bits_of(digits_val(e@), 64 * (d as nat), 64),
{
    proof {
        lemma_digit_is_bits(e@, d as nat);
    }
    if d < e.len() {
        e[d]
    } else {
        0
    }
}

/// Converts a little-endian sequence of u64 digits into `number_of_limbs`
/// limbs of `bit_len` bits each, least significant limb first.
///
/// Limb `i` is exactly bits `[i * bit_len, (i + 1) * bit_len)` of the input
/// value; high bits beyond `number_of_limbs * bit_len` are silently dropped.
///
/// Assumes `bit_len < 64`.
pub fn decompose_u64_digits_to_limbs(e: Vec<u64>, number_of_limbs: usize, bit_len: usize) -> (r:
    Vec<u64>)
    requires
        bit_len < 64,
    ensures
        r@.len() == number_of_limbs,
        forall|i: int|
            0 <= i < number_of_limbs ==> r@[i] as nat == limb_of(
                digits_val(e@),
                i as nat,
                bit_len as nat,
            ),
{
    let ghost v: nat = digits_val(e@);
    proof {
        lemma_pow2_le_u64_max(bit_len as nat);
        lemma_u64_pow2_no_overflow(bit_len as nat);
        lemma_u64_shl_is_mul(1u64, bit_len as u64);
        lemma_digit_is_bits(e@, 0);
        lemma_pow2_pos(0);
        lemma2_to64();
    }
    let mask: u64 = (1u64 << (bit_len as u64)) - 1;
    let mut u64_digit: u64 = if e.len() > 0 {
        e[0]
    } else {
        0
    };
    let mut rem: usize = 64;
    let mut idx: usize = 1;
    let mut limbs: Vec<u64> = Vec::new();
    while limbs.len() < number_of_limbs
        invariant
            bit_len < 64,
            mask as nat == low_bits_mask(bit_len as nat),
            v == digits_val(e@),
            limbs.len() <= number_of_limbs,
            0 < rem <= 64,
            64 * (idx as int) == limbs@.len() * bit_len + rem,
            u64_digit as nat == bits_of(v, limbs@.len() * (bit_len as nat), rem as nat),
            forall|j: int|
                0 <= j < limbs@.len() ==> limbs@[j] as nat == limb_of(v, j as nat, bit_len as nat),
        decreases number_of_limbs - limbs.len(),
    {
        let ghost k: nat = limbs@.len();
        proof {
            lemma_pow2_pos(bit_len as nat);
            lemma_pow2_le_u64_max(bit_len as nat);
            lemma_u64_pow2_no_overflow(bit_len as nat);
            assert((k + 1) * bit_len == k * bit_len + bit_len) by (nonlinear_arith);
            assert(k * bit_len <= (number_of_limbs - 1) * 63) by (nonlinear_arith)
                requires
                    0 <= k <= number_of_limbs - 1,
                    0 <= bit_len <= 63,
            ;
        }
        if rem > bit_len {
            let limb: u64 = u64_digit & mask;
            let next_digit: u64 = u64_digit >> (bit_len as u64);
            proof {
                lemma_u64_low_bits_mask_is_mod(u64_digit, bit_len as nat);
                lemma_u64_shr_is_div(u64_digit, bit_len as u64);
                lemma_bits_of_mod(v, k * (bit_len as nat), bit_len as nat, rem as nat);
                lemma_bits_of_div(v, k * (bit_len as nat), bit_len as nat, rem as nat);
            }
            u64_digit = next_digit;
            rem = rem - bit_len;
            limbs.push(limb);
        } else if rem == bit_len {
            let limb: u64 = u64_digit & mask;
            let next_digit: u64 = digit_or_zero(&e, idx);
            proof {
                lemma_u64_low_bits_mask_is_mod(u64_digit, bit_len as nat);
                lemma_bits_of_mod(v, k * (bit_len as nat), bit_len as nat, rem as nat);
            }
            u64_digit = next_digit;
            rem = 64;
            idx = idx + 1;
            limbs.push(limb);
        } else {
            let low: u64 = u64_digit;
            let next0: u64 = digit_or_zero(&e, idx);
            let shift2: u64 = (bit_len - rem) as u64;
            proof {
                lemma_pow2_le_u64_max(shift2 as nat);
                lemma_u64_pow2_no_overflow(shift2 as nat);
                lemma_u64_shl_is_mul(1u64, shift2);
                lemma_pow2_le_u64_max(rem as nat);
                lemma_u64_pow2_no_overflow(rem as nat);
                lemma_u64_shl_is_mul(1u64, rem as u64);
            }
            let mask2: u64 = (1u64 << shift2) - 1;
            let masked: u64 = next0 & mask2;
            proof {
                lemma_u64_low_bits_mask_is_mod(next0, shift2 as nat);
                lemma_bits_of_mod(v, k * (bit_len as nat) + rem as nat, shift2 as nat, 64);
                lemma_bits_of_bound(v, k * (bit_len as nat) + rem as nat, shift2 as nat);
                lemma_bits_of_bound(v, k * (bit_len as nat), rem as nat);
                lemma_pow2_adds(shift2 as nat, rem as nat);
                lemma_pow2_pos(rem as nat);
                lemma_pow2_pos(shift2 as nat);
                assert(masked * pow2(rem as nat) < pow2(bit_len as nat)) by (nonlinear_arith)
                    requires
                        masked < pow2(shift2 as nat),
                        pow2(shift2 as nat) * pow2(rem as nat) == pow2((shift2 + rem) as nat),
                        shift2 + rem == bit_len,
                        pow2(rem as nat) > 0,
                ;
                lemma_u64_shl_is_mul(masked, rem as u64);
            }
            let shifted: u64 = masked << (rem as u64);
            let limb: u64 = low | shifted;
            let next_digit: u64 = next0 >> shift2;
            proof {
                lemma_u64_or_shl_is_add(low, masked, rem as u64);
                lemma_bits_of_split(v, k * (bit_len as nat), rem as nat, bit_len as nat);
                lemma_u64_shr_is_div(next0, shift2);
                lemma_bits_of_div(v, k * (bit_len as nat) + rem as nat, shift2 as nat, 64);
            }
            u64_digit = next_digit;
            rem = 64 - (bit_len - rem);
            idx = idx + 1;
            limbs.push(limb);
        }
    }
    limbs
}

/// Converts a little-endian sequence of u64 digits into `num_limbs` wide
/// limbs of `bit_len` bits each (least significant limb first), assembling
/// each limb in a 128-bit accumulator.
///
/// Limb `i` is exactly bits `[i * bit_len, (i + 1) * bit_len)` of the input
/// value; high bits beyond `num_limbs * bit_len` are silently dropped.
///
/// Assumes `64 <= bit_len < 128` and `num_limbs >= 1`.
#[verifier::rlimit(60)]
pub fn decompose_u64_digits_to_u128_limbs(e: &Vec<u64>, num_limbs: usize, bit_len: usize) -> (r:
    Vec<u128>)
    requires
        64 <= bit_len < 128,
        1 <= num_limbs <= usize::MAX / 2,
    ensures
        r@.len() == num_limbs,
        forall|i: int|
            0 <= i < num_limbs ==> r@[i] as nat == limb_of(
                digits_val(e@),
                i as nat,
                bit_len as nat,
            ),
{
    let ghost v: nat = digits_val(e@);
    // First limb: fuse the low two digits, keeping `bit_len` bits.
    let d0: u64 = digit_or_zero(e, 0);
    let mut rem: usize = bit_len - 64;
    let mut u64_digit: u64 = digit_or_zero(e, 1);
    proof {
        lemma2_to64();
        lemma2_to64_rest();
        lemma_pow2_pos(0);
        lemma_pow2_pos(64);
        lemma_pow2_pos(rem as nat);
        lemma_pow2_le_u64_max(rem as nat);
        lemma_u64_pow2_no_overflow(rem as nat);
        lemma_u64_shl_is_mul(1u64, rem as u64);
        lemma_u64_low_bits_mask_is_mod(u64_digit, rem as nat);
        lemma_bits_of_mod(v, 64, rem as nat, 64);
        lemma_bits_of_bound(v, 64, rem as nat);
        lemma_bits_of_bound(v, 0, 64);
        lemma_pow2_adds(64, rem as nat);
        lemma_pow2_le_u128_max(64);
        lemma_pow2_le_u128_max((64 + rem) as nat);
        lemma_u128_shl_is_mul(1u128, 64);
    }
    let masked0: u64 = u64_digit & ((1u64 << (rem as u64)) - 1);
    proof {
        assert((masked0 as u128) * pow2(64) < pow2((64 + rem) as nat)) by (nonlinear_arith)
            requires
                masked0 < pow2(rem as nat),
                pow2(64) * pow2(rem as nat) == pow2((64 + rem) as nat),
                pow2(64) > 0,
        ;
        assert(pow2(64) * pow2(rem as nat) == pow2(rem as nat) * pow2(64)) by (nonlinear_arith);
        lemma_u128_shl_is_mul(masked0 as u128, 64);
        lemma_u128_or_shl_is_add(d0 as u128, masked0 as u128, 64);
        lemma_bits_of_split(v, 0, 64, bit_len as nat);
        lemma_u64_shr_is_div(u64_digit, rem as u64);
        lemma_bits_of_div(v, 64, rem as nat, 64);
    }
    let limb0: u128 = (d0 as u128) | ((masked0 as u128) << 64u128);
    u64_digit = u64_digit >> (rem as u64);
    rem = 64 - rem;
    let mut idx: usize = 2;
    let mut limbs: Vec<u128> = Vec::new();
    proof {
        assert(v / pow2(0) == v);
        assert(limb0 as nat == bits_of(v, 0, bit_len as nat));
        assert(0nat * (bit_len as nat) == 0);
        assert(limb0 as nat == limb_of(v, 0, bit_len as nat));
    }
    limbs.push(limb0);
    proof {
        assert(limbs@[0] == limb0);
        assert(forall|j: int|
            0 <= j < limbs@.len() ==> limbs@[j] as nat == limb_of(v, j as nat, bit_len as nat));
    }
    while limbs.len() < num_limbs
        invariant
            64 <= bit_len < 128,
            num_limbs <= usize::MAX / 2,
            v == digits_val(e@),
            1 <= limbs.len() <= num_limbs,
            rem <= 64,
            64 * (idx as int) == limbs@.len() * bit_len + rem,
            u64_digit as nat == bits_of(v, limbs@.len() * (bit_len as nat), rem as nat),
            forall|j: int|
                0 <= j < limbs@.len() ==> limbs@[j] as nat == limb_of(v, j as nat, bit_len as nat),
        decreases num_limbs - limbs.len(),
    {
        let ghost k: nat = limbs@.len();
        proof {
            lemma2_to64();
            lemma2_to64_rest();
            lemma_pow2_pos(bit_len as nat);
            lemma_pow2_pos(64);
            lemma_pow2_le_u128_max(bit_len as nat);
            assert((k + 1) * bit_len == k * bit_len + bit_len) by (nonlinear_arith);
            assert(k * bit_len <= (num_limbs - 1) * 127) by (nonlinear_arith)
                requires
                    0 <= k <= num_limbs - 1,
                    0 <= bit_len <= 127,
            ;
        }
        let mut limb: u128 = u64_digit as u128;
        let mut bits: usize = rem;
        let mut nd: u64 = digit_or_zero(e, idx);
        idx = idx + 1;
        proof {
            lemma_bits_of_bound(v, k * (bit_len as nat), bits as nat);
            lemma_pow2_le_u128_max(bits as nat);
            lemma_u128_shl_is_mul(1u128, bits as u128);
        }
        if bit_len >= 64 + bits {
            proof {
                lemma_pow2_adds(bits as nat, 64);
                lemma_pow2_pos(bits as nat);
                lemma_pow2_le_u128_max((bits + 64) as nat);
                assert((nd as u128) * pow2(bits as nat) < pow2((bits + 64) as nat))
                    by (nonlinear_arith)
                    requires
                        nd < pow2(64),
                        pow2(bits as nat) * pow2(64) == pow2((bits + 64) as nat),
                        pow2(bits as nat) > 0,
                ;
                assert(pow2(bits as nat) * pow2(64) == pow2(64) * pow2(bits as nat))
                    by (nonlinear_arith);
                lemma_u128_shl_is_mul(nd as u128, bits as u128);
                lemma_u128_or_shl_is_add(limb, nd as u128, bits as u128);
                lemma_bits_of_split(v, k * (bit_len as nat), bits as nat, (bits + 64) as nat);
                assert((nd as nat) * pow2(bits as nat) == pow2(bits as nat) * (nd as nat))
                    by (nonlinear_arith);
            }
            limb = limb | ((nd as u128) << (bits as u128));
            nd = digit_or_zero(e, idx);
            idx = idx + 1;
            bits = bits + 64;
            proof {
                lemma_bits_of_bound(v, k * (bit_len as nat), bits as nat);
                lemma_pow2_le_u128_max(bits as nat);
                lemma_u128_shl_is_mul(1u128, bits as u128);
                assert(limb as nat == bits_of(v, k * (bit_len as nat), bits as nat));
            }
        }
        proof {
            assert(limb as nat == bits_of(v, k * (bit_len as nat), bits as nat));
            assert(limb < (1u128 << (bits as u128)));
        }
        let r2: usize = bit_len - bits;
        proof {
            lemma_pow2_le_u64_max(r2 as nat);
            lemma_u64_pow2_no_overflow(r2 as nat);
            lemma_u64_shl_is_mul(1u64, r2 as u64);
        }
        let mask2: u64 = (1u64 << (r2 as u64)) - 1;
        let masked: u64 = nd & mask2;
        proof {
            lemma_u64_low_bits_mask_is_mod(nd, r2 as nat);
            lemma_bits_of_mod(v, k * (bit_len as nat) + bits as nat, r2 as nat, 64);
            lemma_bits_of_bound(v, k * (bit_len as nat) + bits as nat, r2 as nat);
            lemma_pow2_adds(bits as nat, r2 as nat);
            lemma_pow2_pos(bits as nat);
            lemma_pow2_pos(r2 as nat);
            lemma_pow2_le_u128_max((bits + r2) as nat);
            assert((masked as u128) * pow2(bits as nat) < pow2((bits + r2) as nat))
                by (nonlinear_arith)
                requires
                    masked < pow2(r2 as nat),
                    pow2(bits as nat) * pow2(r2 as nat) == pow2((bits + r2) as nat),
                    pow2(bits as nat) > 0,
            ;
            lemma_u128_shl_is_mul(masked as u128, bits as u128);
            lemma_u128_or_shl_is_add(limb, masked as u128, bits as u128);
            lemma_bits_of_split(v, k * (bit_len as nat), bits as nat, bit_len as nat);
            assert((masked as nat) * pow2(bits as nat) == pow2(bits as nat) * (masked as nat))
                by (nonlinear_arith);
            lemma_u64_shr_is_div(nd, r2 as u64);
            lemma_bits_of_div(v, k * (bit_len as nat) + bits as nat, r2 as nat, 64);
        }
        limb = limb | ((masked as u128) << (bits as u128));
        u64_digit = nd >> (r2 as u64);
        rem = 64 - r2;
        proof {
            assert(limb as nat == bits_of(v, k * (bit_len as nat), bit_len as nat));
            assert(u64_digit as nat == bits_of(v, (k + 1) * (bit_len as nat), rem as nat));
        }
        limbs.push(limb);
    }
    limbs
}

} // verus!
