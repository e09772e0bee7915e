use halo2_base::bits::{bit_length, log2_ceil};
use halo2_base::convert::{
    bigint_to_fe, biguint_to_fe, fe_to_bigint, fe_to_biguint, modulus, power_of_two,
};
use halo2_base::decompose::{
    compose, decompose, decompose_bigint, decompose_biguint, decompose_fe_to_u64_limbs,
};
use halo2_base::limbs::decompose_u64_digits_to_limbs;
use halo2_base::traits::{BigPrimeField, ScalarField};
use halo2_axiom::halo2curves::bn256::Fr;
use num_bigint::{BigInt, BigUint, RandomBits};
use num_traits::{One, Zero};
use rand::{rngs::OsRng, Rng};
use std::ops::Shl;

#[test]
fn test_signed_roundtrip() {
    assert_eq!(fe_to_bigint(&bigint_to_fe(&-BigInt::one())), -BigInt::one());
}

#[test]
fn test_decompose_biguint() {
    let mut rng = OsRng;
    const MAX_LIMBS: u64 = 5;
    for bit_len in 64..128usize {
        for num_limbs in 1..=MAX_LIMBS {
            for _ in 0..1000usize {
                let mut e: BigUint = rng.sample(RandomBits::new(num_limbs * bit_len as u64));
                let limbs = decompose_biguint(&e, num_limbs as usize, bit_len);

                let limbs2 = {
                    let mut limbs = vec![];
                    let mask = BigUint::one().shl(bit_len) - 1usize;
                    for _ in 0..num_limbs {
                        let limb = &e & &mask;
                        let mut bytes_le = limb.to_bytes_le();
                        bytes_le.resize(32, 0u8);
                        limbs.push(Fr::from_bytes(&bytes_le.try_into().unwrap()).unwrap());
                        e >>= bit_len;
                    }
                    limbs
                };
                assert_eq!(limbs, limbs2);
            }
        }
    }
}

#[test]
fn test_decompose_u64_digits_to_limbs() {
    let mut rng = OsRng;
    const MAX_LIMBS: u64 = 5;
    for bit_len in 0..64usize {
        for num_limbs in 1..=MAX_LIMBS {
            for _ in 0..1000usize {
                let mut e: BigUint = rng.sample(RandomBits::new(num_limbs * bit_len as u64));
                let limbs =
                    decompose_u64_digits_to_limbs(e.to_u64_digits(), num_limbs as usize, bit_len);
                let limbs2 = {
                    let mut limbs = vec![];
                    let mask = BigUint::one().shl(bit_len) - 1usize;
                    for _ in 0..num_limbs {
                        let limb = &e & &mask;
                        limbs.push(u64::try_from(limb).unwrap());
                        e >>= bit_len;
                    }
                    limbs
                };
                assert_eq!(limbs, limbs2);
            }
        }
    }
}

#[test]
fn test_bit_length_boundaries() {
    assert_eq!(bit_length(0), 0);
    assert_eq!(bit_length(1), 1);
    assert_eq!(bit_length(2), 2);
    assert_eq!(bit_length(3), 2);
    assert_eq!(bit_length(1u64 << 63), 64);
    assert_eq!(bit_length(u64::MAX), 64);
}

#[test]
fn test_log2_ceil_boundaries() {
    assert_eq!(log2_ceil(1), 0);
    assert_eq!(log2_ceil(2), 1);
    assert_eq!(log2_ceil(3), 2);
    assert_eq!(log2_ceil(4), 2);
    assert_eq!(log2_ceil(5), 3);
    assert_eq!(log2_ceil(1u64 << 63), 63);
    assert_eq!(log2_ceil(u64::MAX), 64);
}

#[test]
fn test_truncation() {
    // 2^100 + 5 with 2 limbs of 8 bits: everything above 16 bits is dropped.
    let e: BigUint = (BigUint::one() << 100u32) + 5u32;
    let limbs = decompose_u64_digits_to_limbs(e.to_u64_digits(), 2, 8);
    assert_eq!(limbs, vec![5u64, 0u64]);
}

#[test]
fn test_sign_threshold() {
    let p = modulus();
    // p - 1 converts to -1.
    let v = &p - 1u32;
    let f = biguint_to_fe(&v);
    assert_eq!(fe_to_bigint(&f), -BigInt::one());
    // (p - 1) / 2 is at the midpoint and stays positive.
    let mid = (&p - 1u32) / 2u32;
    let g = biguint_to_fe(&mid);
    assert_eq!(fe_to_bigint(&g), BigInt::from_biguint(num_bigint::Sign::Plus, mid));
}

#[test]
fn test_compose_decompose_inverse() {
    // compose(decompose_biguint(e, n, b), b) == e whenever e < 2^(n b).
    let e: BigUint = BigUint::parse_bytes(b"123456789abcdef0fedcba987654321012345678", 16).unwrap();
    for bit_len in [64usize, 65, 80, 127] {
        let limbs = decompose_biguint(&e, 3, bit_len);
        let ints: Vec<BigUint> = limbs.iter().map(fe_to_biguint).collect();
        assert_eq!(compose(ints, bit_len), e);
    }
}

#[test]
fn test_compose_narrow_limbs() {
    let e: BigUint = BigUint::from(0xabcd1234u64);
    let limbs = decompose_u64_digits_to_limbs(e.to_u64_digits(), 8, 4);
    let ints: Vec<BigUint> = limbs.iter().map(|x| BigUint::from(*x)).collect();
    assert_eq!(compose(ints, 4), e);
}

#[test]
fn test_modulus_value() {
    let p = modulus();
    let expected = BigUint::parse_bytes(
        b"30644e72e131a029b85045b68181585d2833e84879b9709143e1f593f0000001",
        16,
    )
    .unwrap();
    assert_eq!(p, expected);
}

#[test]
fn test_power_of_two() {
    assert_eq!(fe_to_biguint(&power_of_two(0)), BigUint::one());
    assert_eq!(fe_to_biguint(&power_of_two(10)), BigUint::from(1024u32));
    assert_eq!(fe_to_biguint(&power_of_two(100)), BigUint::one() << 100u32);
}

#[test]
fn test_fe_biguint_roundtrip() {
    let v = BigUint::parse_bytes(b"deadbeef00112233445566778899aabb", 16).unwrap();
    let f = biguint_to_fe(&v);
    assert_eq!(fe_to_biguint(&f), v);
    // An input at the modulus reduces to zero.
    let p = modulus();
    assert_eq!(fe_to_biguint(&biguint_to_fe(&p)), BigUint::zero());
}

#[test]
fn test_decompose_dispatch() {
    let f = Fr::from(0x1234_5678_9abc_def0u64);
    // Narrow path: 16-bit limbs of a 64-bit value.
    let narrow = decompose(&f, 4, 16);
    let expected: Vec<Fr> =
        [0xdef0u64, 0x9abc, 0x5678, 0x1234].iter().map(|x| Fr::from(*x)).collect();
    assert_eq!(narrow, expected);
    // Wide path: one 80-bit limb holds the whole value.
    let wide = decompose(&f, 1, 80);
    assert_eq!(wide, vec![f]);
}

#[test]
fn test_decompose_fe_to_u64_limbs_small() {
    let f = Fr::from(0x0123_4567_89ab_cdefu64);
    let limbs = decompose_fe_to_u64_limbs(&f, 8, 8);
    assert_eq!(limbs, vec![0xef, 0xcd, 0xab, 0x89, 0x67, 0x45, 0x23, 0x01]);
}

#[test]
fn test_decompose_bigint_negative() {
    let limbs = decompose_bigint(&-BigInt::one(), 2, 80);
    assert_eq!(limbs, vec![-Fr::one(), Fr::zero()]);
    let pos = decompose_bigint(&BigInt::from(7), 2, 80);
    assert_eq!(pos, vec![Fr::from(7u64), Fr::zero()]);
}

#[test]
fn test_trait_methods() {
    let f = Fr::from(0xfeed_beefu64);
    assert_eq!(f.to_u64_limbs(4, 16), vec![0xbeef, 0xfeed, 0, 0]);
    assert_eq!(Fr::from_u64_digits(&[5, 1]), Fr::from(5u64) + power_of_two(64));
    assert_eq!(Fr::from_u64_digits(&[]), Fr::zero());
}
