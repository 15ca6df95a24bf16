//! The interface to the homomorphic primitive layer.
//!
//! The string operations never look inside a ciphertext.  They combine
//! ciphertexts through the operations of [`Fhe`], and every contract in this
//! crate speaks of a ciphertext through its clear value: the value it decrypts
//! to.  Integer arithmetic on ciphertexts wraps around, as it does on the
//! machine integers of the same width.
use vstd::prelude::*;

verus! {

/// `x` reduced into the range of `u8`.
pub open spec fn wrap_u8(x: int) -> u8 {
    (x % 0x100) as u8
}

/// `x` reduced into the range of `u16`.
pub open spec fn wrap_u16(x: int) -> u16 {
    (x % 0x1_0000) as u16
}

/// `x` reduced into the range of `i16` (two's complement).
pub open spec fn wrap_i16(x: int) -> i16 {
    if x % 0x1_0000 >= 0x8000 {
        (x % 0x1_0000 - 0x1_0000) as i16
    } else {
        (x % 0x1_0000) as i16
    }
}

/// 1 for `true`, 0 for `false`.
pub open spec fn bit(b: bool) -> int {
    if b {
        1
    } else {
        0
    }
}

/// A homomorphic primitive layer: four kinds of ciphertext and the operations
/// between them.  Each operation states the clear value of its result.
pub trait Fhe {
    /// An encrypted boolean.
    type Bool;

    /// An encrypted byte.
    type U8;

    /// An encrypted unsigned 16-bit integer.
    type U16;

    /// An encrypted signed 16-bit integer.
    type I16;

    /// The boolean that `b` decrypts to.
    spec fn clear_bool(b: Self::Bool) -> bool;

    /// The byte that `x` decrypts to.
    spec fn clear_u8(x: Self::U8) -> u8;

    /// The integer that `x` decrypts to.
    spec fn clear_u16(x: Self::U16) -> u16;

    /// The integer that `x` decrypts to.
    spec fn clear_i16(x: Self::I16) -> i16;

    // ---- booleans ----
    /// Trivial encryption of a public boolean.
    fn bool_trivial(v: bool) -> (r: Self::Bool)
        ensures
            Self::clear_bool(r) == v,
    ;

    fn bool_clone(b: &Self::Bool) -> (r: Self::Bool)
        ensures
            Self::clear_bool(r) == Self::clear_bool(*b),
    ;

    fn bool_and(a: &Self::Bool, b: &Self::Bool) -> (r: Self::Bool)
        ensures
            Self::clear_bool(r) == (Self::clear_bool(*a) && Self::clear_bool(*b)),
    ;

    fn bool_or(a: &Self::Bool, b: &Self::Bool) -> (r: Self::Bool)
        ensures
            Self::clear_bool(r) == (Self::clear_bool(*a) || Self::clear_bool(*b)),
    ;

    fn bool_not(a: &Self::Bool) -> (r: Self::Bool)
        ensures
            Self::clear_bool(r) == !Self::clear_bool(*a),
    ;

    // ---- bytes ----
    /// Trivial encryption of a public byte.
    fn u8_trivial(v: u8) -> (r: Self::U8)
        ensures
            Self::clear_u8(r) == v,
    ;

    fn u8_clone(x: &Self::U8) -> (r: Self::U8)
        ensures
            Self::clear_u8(r) == Self::clear_u8(*x),
    ;

    /// 1 for an encrypted `true`, 0 for an encrypted `false`.
    fn u8_from_bool(b: &Self::Bool) -> (r: Self::U8)
        ensures
            Self::clear_u8(r) == bit(Self::clear_bool(*b)),
    ;

    fn u8_eq(x: &Self::U8, y: &Self::U8) -> (r: Self::Bool)
        ensures
            Self::clear_bool(r) == (Self::clear_u8(*x) == Self::clear_u8(*y)),
    ;

    fn u8_eq_scalar(x: &Self::U8, v: u8) -> (r: Self::Bool)
        ensures
            Self::clear_bool(r) == (Self::clear_u8(*x) == v),
    ;

    fn u8_ne_scalar(x: &Self::U8, v: u8) -> (r: Self::Bool)
        ensures
            Self::clear_bool(r) == (Self::clear_u8(*x) != v),
    ;

    fn u8_gt_scalar(x: &Self::U8, v: u8) -> (r: Self::Bool)
        ensures
            Self::clear_bool(r) == (Self::clear_u8(*x) > v),
    ;

    fn u8_lt_scalar(x: &Self::U8, v: u8) -> (r: Self::Bool)
        ensures
            Self::clear_bool(r) == (Self::clear_u8(*x) < v),
    ;

    fn u8_add(x: &Self::U8, y: &Self::U8) -> (r: Self::U8)
        ensures
            Self::clear_u8(r) == wrap_u8(Self::clear_u8(*x) + Self::clear_u8(*y)),
    ;

    fn u8_sub(x: &Self::U8, y: &Self::U8) -> (r: Self::U8)
        ensures
            Self::clear_u8(r) == wrap_u8(Self::clear_u8(*x) - Self::clear_u8(*y)),
    ;

    fn u8_mul(x: &Self::U8, y: &Self::U8) -> (r: Self::U8)
        ensures
            Self::clear_u8(r) == wrap_u8(Self::clear_u8(*x) * Self::clear_u8(*y)),
    ;

    fn u8_mul_scalar(x: &Self::U8, v: u8) -> (r: Self::U8)
        ensures
            Self::clear_u8(r) == wrap_u8(Self::clear_u8(*x) * v),
    ;

    fn u8_bitand(x: &Self::U8, y: &Self::U8) -> (r: Self::U8)
        ensures
            Self::clear_u8(r) == Self::clear_u8(*x) & Self::clear_u8(*y),
    ;

    // ---- unsigned 16-bit integers ----
    /// Trivial encryption of a public integer.
    fn u16_trivial(v: u16) -> (r: Self::U16)
        ensures
            Self::clear_u16(r) == v,
    ;

    fn u16_clone(x: &Self::U16) -> (r: Self::U16)
        ensures
            Self::clear_u16(r) == Self::clear_u16(*x),
    ;

    /// 1 for an encrypted `true`, 0 for an encrypted `false`.
    fn u16_from_bool(b: &Self::Bool) -> (r: Self::U16)
        ensures
            Self::clear_u16(r) == bit(Self::clear_bool(*b)),
    ;

    fn u16_gt_scalar(x: &Self::U16, v: u16) -> (r: Self::Bool)
        ensures
            Self::clear_bool(r) == (Self::clear_u16(*x) > v),
    ;

    fn u16_add(x: &Self::U16, y: &Self::U16) -> (r: Self::U16)
        ensures
            Self::clear_u16(r) == wrap_u16(Self::clear_u16(*x) + Self::clear_u16(*y)),
    ;

    fn u16_mul(x: &Self::U16, y: &Self::U16) -> (r: Self::U16)
        ensures
            Self::clear_u16(r) == wrap_u16(Self::clear_u16(*x) * Self::clear_u16(*y)),
    ;

    fn u16_bitand(x: &Self::U16, y: &Self::U16) -> (r: Self::U16)
        ensures
            Self::clear_u16(r) == Self::clear_u16(*x) & Self::clear_u16(*y),
    ;

    fn u16_bitor(x: &Self::U16, y: &Self::U16) -> (r: Self::U16)
        ensures
            Self::clear_u16(r) == Self::clear_u16(*x) | Self::clear_u16(*y),
    ;

    // ---- signed 16-bit integers ----
    /// Trivial encryption of a public integer.
    fn i16_trivial(v: i16) -> (r: Self::I16)
        ensures
            Self::clear_i16(r) == v,
    ;

    /// 1 for an encrypted `true`, 0 for an encrypted `false`.
    fn i16_from_bool(b: &Self::Bool) -> (r: Self::I16)
        ensures
            Self::clear_i16(r) == bit(Self::clear_bool(*b)),
    ;

    /// Reinterprets the sixteen bits of `x` as a signed integer.
    fn i16_from_u16(x: &Self::U16) -> (r: Self::I16)
        ensures
            Self::clear_i16(r) == wrap_i16(Self::clear_u16(*x) as int),
    ;

    fn i16_gt_scalar(x: &Self::I16, v: i16) -> (r: Self::Bool)
        ensures
            Self::clear_bool(r) == (Self::clear_i16(*x) > v),
    ;

    fn i16_ge_scalar(x: &Self::I16, v: i16) -> (r: Self::Bool)
        ensures
            Self::clear_bool(r) == (Self::clear_i16(*x) >= v),
    ;

    fn i16_le_scalar(x: &Self::I16, v: i16) -> (r: Self::Bool)
        ensures
            Self::clear_bool(r) == (Self::clear_i16(*x) <= v),
    ;

    fn i16_add(x: &Self::I16, y: &Self::I16) -> (r: Self::I16)
        ensures
            Self::clear_i16(r) == wrap_i16(Self::clear_i16(*x) + Self::clear_i16(*y)),
    ;

    fn i16_sub(x: &Self::I16, y: &Self::I16) -> (r: Self::I16)
        ensures
            Self::clear_i16(r) == wrap_i16(Self::clear_i16(*x) - Self::clear_i16(*y)),
    ;

    fn i16_mul(x: &Self::I16, y: &Self::I16) -> (r: Self::I16)
        ensures
            Self::clear_i16(r) == wrap_i16(Self::clear_i16(*x) * Self::clear_i16(*y)),
    ;

    fn i16_add_scalar(x: &Self::I16, v: i16) -> (r: Self::I16)
        ensures
            Self::clear_i16(r) == wrap_i16(Self::clear_i16(*x) + v),
    ;

    fn i16_sub_scalar(x: &Self::I16, v: i16) -> (r: Self::I16)
        ensures
            Self::clear_i16(r) == wrap_i16(Self::clear_i16(*x) - v),
    ;
}

/// The client side of a primitive layer: encryption and decryption of bytes
/// under a secret key.
pub trait ClientKey<F: Fhe> {
    fn encrypt_u8(&self, v: u8) -> (c: F::U8)
        ensures
            F::clear_u8(c) == v,
    ;

    fn decrypt_u8(&self, c: &F::U8) -> (v: u8)
        ensures
            v == F::clear_u8(*c),
    ;
}

} // verus!
