//! The trivial primitive layer: every ciphertext is a trivial encryption, that
//! is, it carries its clear value.  It gives no secrecy; it is the layer on
//! which the string operations can be run and observed directly.
use crate::primitives::{ClientKey, Fhe};
use vstd::prelude::*;

verus! {

/// The primitive layer of trivial encryptions.
#[derive(Debug)]
pub struct Trivial {}

/// The key of the trivial layer: it has nothing to hide.
#[derive(Debug)]
pub struct TrivialKey {}

impl Fhe for Trivial {
    type Bool = bool;

    type U8 = u8;

    type U16 = u16;

    type I16 = i16;

    open spec fn clear_bool(b: bool) -> bool {
        b
    }

    open spec fn clear_u8(x: u8) -> u8 {
        x
    }

    open spec fn clear_u16(x: u16) -> u16 {
        x
    }

    open spec fn clear_i16(x: i16) -> i16 {
        x
    }

    fn bool_trivial(v: bool) -> (r: bool) {
        v
    }

    fn bool_clone(b: &bool) -> (r: bool) {
        *b
    }

    fn bool_and(a: &bool, b: &bool) -> (r: bool) {
        *a && *b
    }

    fn bool_or(a: &bool, b: &bool) -> (r: bool) {
        *a || *b
    }

    fn bool_not(a: &bool) -> (r: bool) {
        !*a
    }

    fn u8_trivial(v: u8) -> (r: u8) {
        v
    }

    fn u8_clone(x: &u8) -> (r: u8) {
        *x
    }

    fn u8_from_bool(b: &bool) -> (r: u8) {
        if *b {
            1
        } else {
            0
        }
    }

    fn u8_eq(x: &u8, y: &u8) -> (r: bool) {
        *x == *y
    }

    fn u8_eq_scalar(x: &u8, v: u8) -> (r: bool) {
        *x == v
    }

    fn u8_ne_scalar(x: &u8, v: u8) -> (r: bool) {
        *x != v
    }

    fn u8_gt_scalar(x: &u8, v: u8) -> (r: bool) {
        *x > v
    }

    fn u8_lt_scalar(x: &u8, v: u8) -> (r: bool) {
        *x < v
    }

    fn u8_add(x: &u8, y: &u8) -> (r: u8) {
        x.wrapping_add(*y)
    }

    fn u8_sub(x: &u8, y: &u8) -> (r: u8) {
        x.wrapping_sub(*y)
    }

    fn u8_mul(x: &u8, y: &u8) -> (r: u8) {
        x.wrapping_mul(*y)
    }

    fn u8_mul_scalar(x: &u8, v: u8) -> (r: u8) {
        x.wrapping_mul(v)
    }

    fn u8_bitand(x: &u8, y: &u8) -> (r: u8) {
        *x & *y
    }

    fn u16_trivial(v: u16) -> (r: u16) {
        v
    }

    fn u16_clone(x: &u16) -> (r: u16) {
        *x
    }

    fn u16_from_bool(b: &bool) -> (r: u16) {
        if *b {
            1
        } else {
            0
        }
    }

    fn u16_gt_scalar(x: &u16, v: u16) -> (r: bool) {
        *x > v
    }

    fn u16_add(x: &u16, y: &u16) -> (r: u16) {
        x.wrapping_add(*y)
    }

    fn u16_mul(x: &u16, y: &u16) -> (r: u16) {
        x.wrapping_mul(*y)
    }

    fn u16_bitand(x: &u16, y: &u16) -> (r: u16) {
        *x & *y
    }

    fn u16_bitor(x: &u16, y: &u16) -> (r: u16) {
        *x | *y
    }

    fn i16_trivial(v: i16) -> (r: i16) {
        v
    }

    fn i16_from_bool(b: &bool) -> (r: i16) {
        if *b {
            1
        } else {
            0
        }
    }

    fn i16_from_u16(x: &u16) -> (r: i16) {
        if *x >= 0x8000 {
            let low: u16 = *x - 0x8000;
            let half: i16 = low as i16;
            half + i16::MIN
        } else {
            *x as i16
        }
    }

    fn i16_gt_scalar(x: &i16, v: i16) -> (r: bool) {
        *x > v
    }

    fn i16_ge_scalar(x: &i16, v: i16) -> (r: bool) {
        *x >= v
    }

    fn i16_le_scalar(x: &i16, v: i16) -> (r: bool) {
        *x <= v
    }

    fn i16_add(x: &i16, y: &i16) -> (r: i16) {
        x.wrapping_add(*y)
    }

    fn i16_sub(x: &i16, y: &i16) -> (r: i16) {
        x.wrapping_sub(*y)
    }

    fn i16_mul(x: &i16, y: &i16) -> (r: i16) {
        x.wrapping_mul(*y)
    }

    fn i16_add_scalar(x: &i16, v: i16) -> (r: i16) {
        x.wrapping_add(v)
    }

    fn i16_sub_scalar(x: &i16, v: i16) -> (r: i16) {
        x.wrapping_sub(v)
    }
}

impl ClientKey<Trivial> for TrivialKey {
    fn encrypt_u8(&self, v: u8) -> (c: u8) {
        v
    }

    fn decrypt_u8(&self, c: &u8) -> (v: u8) {
        *c
    }
}

} // verus!
