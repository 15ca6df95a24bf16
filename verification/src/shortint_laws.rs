//! Laws of the scalar bitwise operations on blocks.
//!
//! Most of them hold of a message modulus that is a power of two, where the
//! message part of a payload is its low bits: [`binary`].
use crate::shortint::{lemma_bit_op_is_message, scalar_bit_op, BitOp};
use vstd::arithmetic::div_mod::{lemma_fundamental_div_mod, lemma_small_mod};
use vstd::arithmetic::power2::{lemma2_to64, lemma_pow2_strictly_increases, pow2};
use vstd::bits::{
    lemma_u64_low_bits_mask_is_mod, lemma_u64_pow2_no_overflow, lemma_u64_shr_is_div,
    low_bits_mask,
};
use vstd::prelude::*;

verus! {

/// Is `modulus` two to the power `width`?
pub open spec fn binary(modulus: u64, width: nat) -> bool {
    width < 64 && modulus == pow2(width)
}

/// The scalar as far as it lies in the message: `rhs % modulus`.
pub open spec fn scalar_message(modulus: u64, rhs: u8) -> u64 {
    (rhs as u64) % modulus
}

/// On a binary modulus the remainder is the low bits: `y % modulus` is `y`
/// under the mask `modulus - 1`.
pub proof fn lemma_low_bits(y: u64, modulus: u64, width: nat)
    requires
        binary(modulus, width),
    ensures
        modulus > 0,
        y % modulus == y & ((modulus - 1) as u64),
{
    lemma_u64_pow2_no_overflow(width);
    lemma_u64_low_bits_mask_is_mod(y, width);
    assert(low_bits_mask(width) as u64 == (modulus - 1) as u64);
}

/// On a binary modulus each operation is the bitwise operation under the
/// mask `modulus - 1`.
pub proof fn lemma_masked(op: BitOp, x: u64, modulus: u64, width: nat, rhs: u8)
    requires
        binary(modulus, width),
    ensures
        modulus > 0,
        x % modulus == x & ((modulus - 1) as u64),
        scalar_message(modulus, rhs) == (rhs as u64) & ((modulus - 1) as u64),
        scalar_bit_op(op, x, modulus, rhs) == match op {
            BitOp::And => (x & ((modulus - 1) as u64)) & (rhs as u64),
            BitOp::Xor => ((x & ((modulus - 1) as u64)) ^ (rhs as u64)) & ((modulus - 1) as u64),
            BitOp::Or => ((x & ((modulus - 1) as u64)) | (rhs as u64)) & ((modulus - 1) as u64),
        },
{
    let r = rhs as u64;
    let a = x % modulus;
    lemma_low_bits(x, modulus, width);
    lemma_low_bits(r, modulus, width);
    lemma_low_bits(a ^ r, modulus, width);
    lemma_low_bits(a | r, modulus, width);
}

/// What a payload holds above its message does not show in the outcome.
pub proof fn law_carry_has_no_effect(op: BitOp, x: u64, y: u64, modulus: u64, rhs: u8)
    requires
        modulus > 0,
        x % modulus == y % modulus,
    ensures
        scalar_bit_op(op, x, modulus, rhs) == scalar_bit_op(op, y, modulus, rhs),
        scalar_bit_op(op, x, modulus, rhs) < modulus,
{
    lemma_bit_op_is_message(op, x, modulus, rhs);
}

/// The bits of the scalar at or above the width of the message have no
/// effect: the scalar counts as far as it lies in the message.
pub proof fn law_scalar_counts_modulo(
    op: BitOp,
    x: u64,
    modulus: u64,
    width: nat,
    rhs: u8,
    other: u8,
)
    requires
        binary(modulus, width),
        scalar_message(modulus, rhs) == scalar_message(modulus, other),
    ensures
        scalar_bit_op(op, x, modulus, rhs) == scalar_bit_op(op, x, modulus, other),
{
    lemma_masked(op, x, modulus, width, rhs);
    lemma_masked(op, x, modulus, width, other);
    let k = (modulus - 1) as u64;
    let r = rhs as u64;
    let o = other as u64;
    assert(((x & k) & r) == ((x & k) & o)) by (bit_vector)
        requires
            r & k == o & k,
    ;
    assert(((x & k) ^ r) & k == ((x & k) ^ o) & k) by (bit_vector)
        requires
            r & k == o & k,
    ;
    assert(((x & k) | r) & k == ((x & k) | o) & k) by (bit_vector)
        requires
            r & k == o & k,
    ;
}

/// An operation applied to its own outcome: the conjunction and the
/// disjunction give the outcome again, the exclusive disjunction gives the
/// message back.
pub proof fn law_twice(op: BitOp, x: u64, modulus: u64, width: nat, rhs: u8)
    requires
        binary(modulus, width),
    ensures
        scalar_bit_op(op, scalar_bit_op(op, x, modulus, rhs), modulus, rhs) == match op {
            BitOp::And | BitOp::Or => scalar_bit_op(op, x, modulus, rhs),
            BitOp::Xor => x % modulus,
        },
{
    let once = scalar_bit_op(op, x, modulus, rhs);
    lemma_masked(op, x, modulus, width, rhs);
    lemma_masked(op, once, modulus, width, rhs);
    let k = (modulus - 1) as u64;
    let r = rhs as u64;
    assert(((((x & k) & r) & k) & r) == ((x & k) & r)) by (bit_vector);
    assert((((((x & k) ^ r) & k) & k) ^ r) & k == x & k) by (bit_vector);
    assert((((((x & k) | r) & k) & k) | r) & k == ((x & k) | r) & k) by (bit_vector);
}

/// The exclusive disjunction is zero exactly where the message equals the
/// scalar as far as it lies in the message; the disjunction is zero exactly
/// where both are zero.
pub proof fn law_zero_outcome(x: u64, modulus: u64, width: nat, rhs: u8)
    requires
        binary(modulus, width),
    ensures
        scalar_bit_op(BitOp::Xor, x, modulus, rhs) == 0 <==> x % modulus == scalar_message(
            modulus,
            rhs,
        ),
        scalar_bit_op(BitOp::Or, x, modulus, rhs) == 0 <==> x % modulus == 0 && scalar_message(
            modulus,
            rhs,
        ) == 0,
{
    lemma_masked(BitOp::Xor, x, modulus, width, rhs);
    lemma_masked(BitOp::Or, x, modulus, width, rhs);
    let k = (modulus - 1) as u64;
    let r = rhs as u64;
    assert((((x & k) ^ r) & k == 0) == (x & k == r & k)) by (bit_vector);
    assert((((x & k) | r) & k == 0) == (x & k == 0 && r & k == 0)) by (bit_vector);
}

/// The disjunction and the conjunction share out the bits of the message
/// and of the scalar: their sum is the sum of the two.  Where the two have
/// no bit in common, the disjunction alone is their sum.
pub proof fn law_or_and_sum(x: u64, modulus: u64, width: nat, rhs: u8)
    requires
        binary(modulus, width),
    ensures
        scalar_bit_op(BitOp::Or, x, modulus, rhs) + scalar_bit_op(BitOp::And, x, modulus, rhs) == x
            % modulus + scalar_message(modulus, rhs),
        (x % modulus) & (rhs as u64) == 0 ==> scalar_bit_op(BitOp::Or, x, modulus, rhs) == x
            % modulus + scalar_message(modulus, rhs),
{
    lemma_masked(BitOp::Or, x, modulus, width, rhs);
    lemma_masked(BitOp::And, x, modulus, width, rhs);
    let k = (modulus - 1) as u64;
    let r = rhs as u64;
    let a = x & k;
    let b = r & k;
    assert(((a | r) & k) == (a | b) && (a & r) == (a & b)) by (bit_vector)
        requires
            a == x & k,
            b == r & k,
    ;
    assert((a | b) + (a & b) == a + b) by (bit_vector);
}

/// A scalar that is zero in the message: the conjunction is zero, the two
/// disjunctions leave the message.  A scalar with every bit of the message
/// set: the conjunction leaves the message, the disjunction gives the
/// largest message and the exclusive disjunction the complement.
pub proof fn law_extreme_scalars(x: u64, modulus: u64, width: nat, rhs: u8)
    requires
        binary(modulus, width),
    ensures
        scalar_message(modulus, rhs) == 0 ==> {
            &&& scalar_bit_op(BitOp::And, x, modulus, rhs) == 0
            &&& scalar_bit_op(BitOp::Or, x, modulus, rhs) == x % modulus
            &&& scalar_bit_op(BitOp::Xor, x, modulus, rhs) == x % modulus
        },
        scalar_message(modulus, rhs) == modulus - 1 ==> {
            &&& scalar_bit_op(BitOp::And, x, modulus, rhs) == x % modulus
            &&& scalar_bit_op(BitOp::Or, x, modulus, rhs) == modulus - 1
            &&& scalar_bit_op(BitOp::Xor, x, modulus, rhs) == modulus - 1 - x % modulus
        },
{
    lemma_masked(BitOp::And, x, modulus, width, rhs);
    lemma_masked(BitOp::Or, x, modulus, width, rhs);
    lemma_masked(BitOp::Xor, x, modulus, width, rhs);
    let k = (modulus - 1) as u64;
    let r = rhs as u64;
    if r & k == 0 {
        assert((x & k) & r == 0 && ((x & k) | r) & k == x & k && ((x & k) ^ r) & k == x & k)
            by (bit_vector)
            requires
                r & k == 0,
        ;
    }
    if r & k == k {
        assert((x & k) & r == x & k && ((x & k) | r) & k == k && ((x & k) ^ r) & k == k - (x & k))
            by (bit_vector)
            requires
                r & k == k,
        ;
    }
}

/// The low `width` bits of `x` in reverse order: bit `i` of `x` is bit
/// `width - 1 - i` of the result.
pub open spec fn mirrored(x: u64, width: nat) -> u64
    decreases width,
{
    if width == 0 || width > 64 {
        0
    } else {
        ((x & 1) << ((width - 1) as u64)) | mirrored(x >> 1, (width - 1) as nat)
    }
}

/// The bitwise operation that `op` names, on whole words.
pub open spec fn bitwise(op: BitOp, x: u64, y: u64) -> u64 {
    match op {
        BitOp::And => x & y,
        BitOp::Xor => x ^ y,
        BitOp::Or => x | y,
    }
}

/// The reversed bits lie in the low `width` bits.
pub proof fn lemma_mirrored_width(x: u64, width: nat)
    requires
        width < 64,
    ensures
        mirrored(x, width) >> (width as u64) == 0,
    decreases width,
{
    if width == 0 {
        assert(0u64 >> 0u64 == 0) by (bit_vector);
    } else {
        let s = (width - 1) as u64;
        let w = width as u64;
        let rest = mirrored(x >> 1, (width - 1) as nat);
        lemma_mirrored_width(x >> 1, (width - 1) as nat);
        assert((((x & 1) << s) | rest) >> w == 0) by (bit_vector)
            requires
                rest >> s == 0,
                w == s + 1,
                w < 64,
        ;
    }
}

/// Reversing the bits of both operands reverses the bits of the outcome.
pub proof fn lemma_mirrored_bitwise(op: BitOp, x: u64, y: u64, width: nat)
    requires
        width < 64,
    ensures
        mirrored(bitwise(op, x, y), width) == bitwise(op, mirrored(x, width), mirrored(y, width)),
    decreases width,
{
    if width == 0 {
        assert(0u64 & 0u64 == 0 && 0u64 ^ 0u64 == 0 && 0u64 | 0u64 == 0) by (bit_vector);
    } else {
        let s = (width - 1) as u64;
        let below = (width - 1) as nat;
        let c = mirrored(x >> 1, below);
        let d = mirrored(y >> 1, below);
        lemma_mirrored_bitwise(op, x >> 1, y >> 1, below);
        lemma_mirrored_width(x >> 1, below);
        lemma_mirrored_width(y >> 1, below);
        match op {
            BitOp::And => {
                assert((x & y) >> 1 == (x >> 1) & (y >> 1)) by (bit_vector);
                assert((((x & y) & 1) << s) | (c & d) == (((x & 1) << s) | c) & (((y & 1) << s) | d))
                    by (bit_vector)
                    requires
                        c >> s == 0,
                        d >> s == 0,
                        s < 63,
                ;
            },
            BitOp::Xor => {
                assert((x ^ y) >> 1 == (x >> 1) ^ (y >> 1)) by (bit_vector);
                assert((((x ^ y) & 1) << s) | (c ^ d) == (((x & 1) << s) | c) ^ (((y & 1) << s) | d))
                    by (bit_vector)
                    requires
                        c >> s == 0,
                        d >> s == 0,
                        s < 63,
                ;
            },
            BitOp::Or => {
                assert((x | y) >> 1 == (x >> 1) | (y >> 1)) by (bit_vector);
                assert((((x | y) & 1) << s) | (c | d) == (((x & 1) << s) | c) | (((y & 1) << s) | d))
                    by (bit_vector)
                    requires
                        c >> s == 0,
                        d >> s == 0,
                        s < 63,
                ;
            },
        }
    }
}

/// A word whose bits lie in the low `width` bits is a message of the binary
/// modulus of that width.
proof fn lemma_narrow_is_message(v: u64, modulus: u64, width: nat)
    requires
        binary(modulus, width),
        v >> (width as u64) == 0,
    ensures
        v < modulus,
        v % modulus == v,
        v & ((modulus - 1) as u64) == v,
{
    lemma_u64_pow2_no_overflow(width);
    lemma_u64_shr_is_div(v, width as u64);
    lemma_fundamental_div_mod(v as int, modulus as int);
    lemma_small_mod(v as nat, modulus as nat);
    lemma_low_bits(v, modulus, width);
}

/// The operations are symmetric under the reversal of the bits of a message:
/// on the reversed message and the reversed scalar each yields the reversed
/// outcome.  The scalar is a byte, so the law is one of messages of at most
/// eight bits.
pub proof fn law_mirror_symmetry(op: BitOp, x: u64, modulus: u64, width: nat, rhs: u8)
    requires
        binary(modulus, width),
        width <= 8,
        x < modulus,
        rhs < modulus,
    ensures
        mirrored(x, width) < modulus,
        mirrored(rhs as u64, width) < modulus,
        modulus <= 256,
        scalar_bit_op(op, mirrored(x, width), modulus, mirrored(rhs as u64, width) as u8)
            == mirrored(scalar_bit_op(op, x, modulus, rhs), width),
{
    let r = rhs as u64;
    let k = (modulus - 1) as u64;
    let mx = mirrored(x, width);
    let mr = mirrored(r, width);
    lemma2_to64();
    if width < 8 {
        lemma_pow2_strictly_increases(width, 8);
    }
    lemma_mirrored_width(x, width);
    lemma_mirrored_width(r, width);
    lemma_narrow_is_message(mx, modulus, width);
    lemma_narrow_is_message(mr, modulus, width);
    lemma_mirrored_bitwise(op, x, r, width);
    lemma_mirrored_width(bitwise(op, x, r), width);
    lemma_narrow_is_message(mirrored(bitwise(op, x, r), width), modulus, width);
    lemma_masked(op, x, modulus, width, rhs);
    lemma_masked(op, mx, modulus, width, mr as u8);
    lemma_small_mod(x as nat, modulus as nat);
    lemma_small_mod(r as nat, modulus as nat);
    assert(mr as u8 as u64 == mr);
    assert((x & r) == bitwise(BitOp::And, x, r));
    assert((x ^ r) & k == x ^ r && (x | r) & k == x | r) by (bit_vector)
        requires
            x & k == x,
            r & k == r,
    ;
}

} // verus!
