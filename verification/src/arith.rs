//! Mathematical model of the limb codec: values of little-endian digit
//! sequences, bit windows of a natural number, and the lemmas relating them.

use vstd::prelude::*;

verus! {

use vstd::arithmetic::div_mod::{
    lemma_div_denominator, lemma_fundamental_div_mod, lemma_fundamental_div_mod_converse,
    lemma_mod_bound, lemma_mod_breakdown, lemma_small_mod,
};
use vstd::arithmetic::mul::lemma_mul_inequality;
use vstd::arithmetic::power2::{
    lemma2_to64, lemma2_to64_rest, lemma_pow2_adds, lemma_pow2_pos, lemma_pow2_strictly_increases,
    pow2,
};

/// Value of a little-endian sequence of 64-bit digits.
pub open spec fn digits_val(s: Seq<u64>) -> nat
    decreases s.len(),
{
    if s.len() == 0 {
        0
    } else {
        s[0] as nat + pow2(64) * digits_val(s.subrange(1, s.len() as int))
    }
}

/// The `width` bits of `v` starting at bit `lo`, read as an integer.
pub open spec fn bits_of(v: nat, lo: nat, width: nat) -> nat {
    (v / pow2(lo)) % pow2(width)
}

/// Limb `i` of `v` when `v` is split into limbs of `bit_len` bits each,
/// least significant limb first.  This is the mask-and-shift reference model:
/// `(v >> (i * bit_len)) & ((1 << bit_len) - 1)`.
pub open spec fn limb_of(v: nat, i: nat, bit_len: nat) -> nat {
    bits_of(v, i * bit_len, bit_len)
}

/// Value of a little-endian sequence of limbs, each weighted by
/// `2^(bit_len * index)`.
pub open spec fn limbs_val(limbs: Seq<nat>, bit_len: nat) -> nat
    decreases limbs.len(),
{
    if limbs.len() == 0 {
        0
    } else {
        limbs[0] + pow2(bit_len) * limbs_val(limbs.subrange(1, limbs.len() as int), bit_len)
    }
}

pub proof fn lemma_bits_of_bound(v: nat, lo: nat, width: nat)
    ensures
        bits_of(v, lo, width) < pow2(width),
{
    lemma_pow2_pos(width);
    lemma_pow2_pos(lo);
    lemma_mod_bound((v / pow2(lo)) as int, pow2(width) as int);
}

/// A window of `width` bits splits into its low `r` bits and the `width - r`
/// bits above them.
pub proof fn lemma_bits_of_split(v: nat, lo: nat, r: nat, width: nat)
    requires
        r <= width,
    ensures
        bits_of(v, lo, width) == bits_of(v, lo, r) + pow2(r) * bits_of(v, lo + r, (width - r) as nat),
{
    let x = (v / pow2(lo)) as int;
    lemma_pow2_pos(lo);
    lemma_pow2_pos(r);
    lemma_pow2_pos((width - r) as nat);
    lemma_pow2_adds(r, (width - r) as nat);
    lemma_mod_breakdown(x, pow2(r) as int, pow2((width - r) as nat) as int);
    lemma_div_denominator(v as int, pow2(lo) as int, pow2(r) as int);
    lemma_pow2_adds(lo, r);
}

/// Taking the low `r` bits of a `width`-bit window shortens the window.
pub proof fn lemma_bits_of_mod(v: nat, lo: nat, r: nat, width: nat)
    requires
        r <= width,
    ensures
        bits_of(v, lo, width) % pow2(r) == bits_of(v, lo, r),
{
    lemma_bits_of_split(v, lo, r, width);
    lemma_bits_of_bound(v, lo, r);
    lemma_pow2_pos(r);
    assert(bits_of(v, lo, width) as int == (bits_of(v, lo + r, (width - r) as nat) as int) * (
    pow2(r) as int) + bits_of(v, lo, r) as int) by (nonlinear_arith)
        requires
            bits_of(v, lo, width) == bits_of(v, lo, r) + pow2(r) * bits_of(
                v,
                lo + r,
                (width - r) as nat,
            ),
    ;
    lemma_fundamental_div_mod_converse(
        bits_of(v, lo, width) as int,
        pow2(r) as int,
        bits_of(v, lo + r, (width - r) as nat) as int,
        bits_of(v, lo, r) as int,
    );
}

/// Shifting a `width`-bit window right by `r` bits moves its start up by `r`.
pub proof fn lemma_bits_of_div(v: nat, lo: nat, r: nat, width: nat)
    requires
        r <= width,
    ensures
        bits_of(v, lo, width) / pow2(r) == bits_of(v, lo + r, (width - r) as nat),
{
    lemma_bits_of_split(v, lo, r, width);
    lemma_bits_of_bound(v, lo, r);
    lemma_pow2_pos(r);
    assert(bits_of(v, lo, width) as int == (bits_of(v, lo + r, (width - r) as nat) as int) * (
    pow2(r) as int) + bits_of(v, lo, r) as int) by (nonlinear_arith)
        requires
            bits_of(v, lo, width) == bits_of(v, lo, r) + pow2(r) * bits_of(
                v,
                lo + r,
                (width - r) as nat,
            ),
    ;
    lemma_fundamental_div_mod_converse(
        bits_of(v, lo, width) as int,
        pow2(r) as int,
        bits_of(v, lo + r, (width - r) as nat) as int,
        bits_of(v, lo, r) as int,
    );
}

/// Digit `d` of a digit sequence is the 64-bit window of its value at bit
/// `64 * d`; past the end of the sequence the window reads zero.
pub proof fn lemma_digit_is_bits(s: Seq<u64>, d: nat)
    ensures
        bits_of(digits_val(s), 64 * d, 64) == (if d < s.len() {
            s[d as int] as nat
        } else {
            0nat
        }),
    decreases d,
{
    lemma2_to64();
    lemma_pow2_pos(64 * d);
    lemma_pow2_pos(64);
    if s.len() == 0 {
        assert(digits_val(s) == 0);
        assert(0nat / pow2(64 * d) == 0nat);
        lemma_small_mod(0, pow2(64));
    } else {
        let v = digits_val(s);
        let tail = s.subrange(1, s.len() as int);
        assert(v == s[0] + pow2(64) * digits_val(tail));
        lemma_fundamental_div_mod_converse(
            v as int,
            pow2(64) as int,
            digits_val(tail) as int,
            s[0] as int,
        );
        if d == 0 {
            assert(pow2(0) == 1);
            assert(v / pow2(0) == v);
        } else {
            lemma_pow2_pos(64 * (d - 1) as nat);
            lemma_div_denominator(v as int, pow2(64) as int, pow2((64 * (d - 1)) as nat) as int);
            lemma_pow2_adds(64, (64 * (d - 1)) as nat);
            assert(64 + 64 * (d - 1) == 64 * d);
            lemma_digit_is_bits(tail, (d - 1) as nat);
        }
    }
}

/// A normalized digit sequence (highest digit nonzero) has a value of at
/// least `2^(64 (n - 1))`.
pub proof fn lemma_digits_val_lower(s: Seq<u64>)
    requires
        s.len() > 0,
        s[s.len() - 1] != 0,
    ensures
        digits_val(s) >= pow2(64 * (s.len() - 1) as nat),
    decreases s.len(),
{
    lemma2_to64();
    let tail = s.subrange(1, s.len() as int);
    if s.len() == 1 {
        assert(pow2(0) == 1);
    } else {
        lemma_digits_val_lower(tail);
        lemma_mul_inequality(
            pow2(64 * (tail.len() - 1) as nat) as int,
            digits_val(tail) as int,
            pow2(64) as int,
        );
        lemma_pow2_adds(64, 64 * (tail.len() - 1) as nat);
        assert(64 + 64 * (s.len() - 2) == 64 * (s.len() - 1));
    }
}

/// Appending a zero digit does not change the value.
pub proof fn lemma_digits_val_push_zero(s: Seq<u64>)
    ensures
        digits_val(s.push(0)) == digits_val(s),
    decreases s.len(),
{
    let p = s.push(0);
    if s.len() == 0 {
        assert(p[0] == 0);
        assert(p.subrange(1, p.len() as int) =~= Seq::<u64>::empty());
        assert(digits_val(p.subrange(1, p.len() as int)) == 0);
        assert(digits_val(p) == p[0] as nat + pow2(64) * digits_val(
            p.subrange(1, p.len() as int),
        ));
        assert(digits_val(p) == 0);
    } else {
        assert(p.subrange(1, p.len() as int) =~= s.subrange(1, s.len() as int).push(0));
        lemma_digits_val_push_zero(s.subrange(1, s.len() as int));
    }
}

/// If every entry of `s` is the matching limb of `v`, and `v` fits in
/// `s.len() * bit_len` bits, then the limbs compose back to exactly `v`.
/// This is the algebraic inverse law between decomposition and composition.
pub proof fn lemma_compose_of_limbs(s: Seq<nat>, v: nat, bit_len: nat)
    requires
        v < pow2(s.len() * bit_len),
        forall|i: int| 0 <= i < s.len() ==> s[i] == limb_of(v, i as nat, bit_len),
    ensures
        limbs_val(s, bit_len) == v,
    decreases s.len(),
{
    lemma_pow2_pos(bit_len);
    if s.len() == 0 {
        lemma2_to64();
        assert(pow2(0) == 1);
    } else {
        let tail = s.subrange(1, s.len() as int);
        let v1 = v / pow2(bit_len);
        // v1 fits in (len - 1) * bit_len bits.
        lemma_pow2_adds(bit_len, ((s.len() - 1) * bit_len) as nat);
        assert(bit_len + (s.len() - 1) * bit_len == s.len() * bit_len) by (nonlinear_arith);
        lemma_fundamental_div_mod(v as int, pow2(bit_len) as int);
        lemma_mod_bound(v as int, pow2(bit_len) as int);
        if v1 >= pow2(((s.len() - 1) * bit_len) as nat) {
            assert(v >= pow2(s.len() * bit_len)) by (nonlinear_arith)
                requires
                    v as int == pow2(bit_len) as int * (v1 as int) + (v as int) % (pow2(
                        bit_len,
                    ) as int),
                    (v as int) % (pow2(bit_len) as int) >= 0,
                    v1 >= pow2(((s.len() - 1) * bit_len) as nat),
                    pow2(s.len() * bit_len) == pow2(bit_len) * pow2(((s.len() - 1) * bit_len) as nat),
                    pow2(bit_len) > 0,
            ;
            assert(false);
        }
        assert(v1 < pow2(((s.len() - 1) * bit_len) as nat));
        // Each tail entry is the matching limb of v1.
        assert forall|i: int| 0 <= i < tail.len() implies tail[i] == limb_of(v1, i as nat, bit_len) by {
            assert(s[i + 1] == limb_of(v, (i + 1) as nat, bit_len));
            lemma_pow2_pos((i as nat) * bit_len);
            lemma_div_denominator(v as int, pow2(bit_len) as int, pow2((i as nat) * bit_len) as int);
            lemma_pow2_adds(bit_len, (i as nat) * bit_len);
            assert(bit_len + i * bit_len == (i + 1) * bit_len) by (nonlinear_arith);
        }
        lemma_compose_of_limbs(tail, v1, bit_len);
        // s[0] is the low window of v.
        assert(s[0] == limb_of(v, 0, bit_len));
        lemma2_to64();
        assert(pow2(0) == 1);
        assert(0 * bit_len == 0);
        assert(s[0] == v % pow2(bit_len));
        lemma_fundamental_div_mod(v as int, pow2(bit_len) as int);
    }
}

/// `2^n` fits in a `u64` for `n < 64`.
pub proof fn lemma_pow2_le_u64_max(n: nat)
    requires
        n < 64,
    ensures
        pow2(n) <= u64::MAX,
{
    if n < 63 {
        lemma_pow2_strictly_increases(n, 63);
    }
    lemma2_to64();
    lemma2_to64_rest();
}

/// `2^n` fits in a `u128` for `n < 128`.
pub proof fn lemma_pow2_le_u128_max(n: nat)
    requires
        n < 128,
    ensures
        pow2(n) <= u128::MAX,
{
    if n < 127 {
        lemma_pow2_strictly_increases(n, 127);
    }
    lemma_pow2_adds(64, 63);
    lemma2_to64();
    lemma2_to64_rest();
}

/// For `x` and `s` of type `u128`, shifting `x` left by `s` is multiplication
/// by `2^s` when the product does not overflow.
pub proof fn lemma_u128_shl_is_mul(x: u128, s: u128)
    requires
        s < 128,
        x * pow2(s as nat) <= u128::MAX,
    ensures
        (x << s) == x * pow2(s as nat),
    decreases s,
{
    if s == 0 {
        assert(x << s == x) by (bit_vector)
            requires
                s == 0,
        ;
        lemma2_to64();
        assert(pow2(0) == 1);
        assert(x << s == x * pow2(s as nat));
    } else {
        let s1 = (s - 1) as u128;
        lemma_pow2_adds((s - 1) as nat, 1);
        lemma2_to64();
        lemma_pow2_pos((s - 1) as nat);
        assert(pow2(s as nat) == pow2((s - 1) as nat) * 2);
        assert(x * pow2((s - 1) as nat) * 2 == x * pow2(s as nat)) by (nonlinear_arith)
            requires
                pow2(s as nat) == pow2((s - 1) as nat) * 2,
        ;
        assert(x * pow2((s - 1) as nat) <= u128::MAX) by (nonlinear_arith)
            requires
                x * pow2((s - 1) as nat) * 2 == x * pow2(s as nat),
                x * pow2(s as nat) <= u128::MAX,
                pow2((s - 1) as nat) > 0,
        ;
        lemma_u128_shl_is_mul(x, s1);
        let y = x << s1;
        assert(y == x * pow2((s - 1) as nat));
        assert(x << s == y * 2) by (bit_vector)
            requires
                s == s1 + 1,
                s1 < 127,
                y == (x << s1),
                y * 2 <= u128::MAX,
        ;
        assert(y * 2 == x * pow2(s as nat));
        assert(x << s == x * pow2(s as nat));
    }
}

/// Oring a value below `2^s` with a value shifted left by `s` is addition:
/// the bit ranges are disjoint.
pub proof fn lemma_u64_or_shl_is_add(a: u64, c: u64, s: u64)
    requires
        s < 64,
        a < (1u64 << s),
    ensures
        (a | (c << s)) == a + (c << s),
{
    assert((a | (c << s)) == a + (c << s)) by (bit_vector)
        requires
            s < 64,
            a < (1u64 << s),
    ;
}

/// The `u128` version of the disjoint-or-is-add fact.
pub proof fn lemma_u128_or_shl_is_add(a: u128, c: u128, s: u128)
    requires
        s < 128,
        a < (1u128 << s),
    ensures
        (a | (c << s)) == a + (c << s),
{
    assert((a | (c << s)) == a + (c << s)) by (bit_vector)
        requires
            s < 128,
            a < (1u128 << s),
    ;
}

} // verus!
