use fhe_strings::ciphertext::{FheString, Padding};
use fhe_strings::client_key::StringClientKey;
use fhe_strings::primitives::{ClientKey, Fhe};

/// A layer whose ciphertexts do not show their clear values at a glance: every
/// value is kept under a mask.  The string operations must work on it without
/// ever looking inside.
struct Masked;

#[derive(Debug)]
struct MBool(u8);
#[derive(Debug)]
struct MU8(u8);
#[derive(Debug)]
struct MU16(u16);
#[derive(Debug)]
struct MI16(i16);

const MASK8: u8 = 0x5a;
const MASK16: u16 = 0xa5c3;

fn eb(v: bool) -> MBool {
    MBool((v as u8) ^ MASK8)
}
fn db(b: &MBool) -> bool {
    (b.0 ^ MASK8) != 0
}
fn e8(v: u8) -> MU8 {
    MU8(v ^ MASK8)
}
fn d8(x: &MU8) -> u8 {
    x.0 ^ MASK8
}
fn e16(v: u16) -> MU16 {
    MU16(v ^ MASK16)
}
fn d16(x: &MU16) -> u16 {
    x.0 ^ MASK16
}
fn ei(v: i16) -> MI16 {
    MI16(v ^ (MASK16 as i16))
}
fn di(x: &MI16) -> i16 {
    x.0 ^ (MASK16 as i16)
}

impl Fhe for Masked {
    type Bool = MBool;
    type U8 = MU8;
    type U16 = MU16;
    type I16 = MI16;

    fn clear_bool(b: MBool) -> bool {
        db(&b)
    }
    fn clear_u8(x: MU8) -> u8 {
        d8(&x)
    }
    fn clear_u16(x: MU16) -> u16 {
        d16(&x)
    }
    fn clear_i16(x: MI16) -> i16 {
        di(&x)
    }
    fn bool_trivial(v: bool) -> MBool {
        eb(v)
    }
    fn bool_clone(b: &MBool) -> MBool {
        MBool(b.0)
    }
    fn bool_and(a: &MBool, b: &MBool) -> MBool {
        eb(db(a) && db(b))
    }
    fn bool_or(a: &MBool, b: &MBool) -> MBool {
        eb(db(a) || db(b))
    }
    fn bool_not(a: &MBool) -> MBool {
        eb(!db(a))
    }
    fn u8_trivial(v: u8) -> MU8 {
        e8(v)
    }
    fn u8_clone(x: &MU8) -> MU8 {
        MU8(x.0)
    }
    fn u8_from_bool(b: &MBool) -> MU8 {
        e8(db(b) as u8)
    }
    fn u8_eq(x: &MU8, y: &MU8) -> MBool {
        eb(d8(x) == d8(y))
    }
    fn u8_eq_scalar(x: &MU8, v: u8) -> MBool {
        eb(d8(x) == v)
    }
    fn u8_ne_scalar(x: &MU8, v: u8) -> MBool {
        eb(d8(x) != v)
    }
    fn u8_gt_scalar(x: &MU8, v: u8) -> MBool {
        eb(d8(x) > v)
    }
    fn u8_lt_scalar(x: &MU8, v: u8) -> MBool {
        eb(d8(x) < v)
    }
    fn u8_add(x: &MU8, y: &MU8) -> MU8 {
        e8(d8(x).wrapping_add(d8(y)))
    }
    fn u8_sub(x: &MU8, y: &MU8) -> MU8 {
        e8(d8(x).wrapping_sub(d8(y)))
    }
    fn u8_mul(x: &MU8, y: &MU8) -> MU8 {
        e8(d8(x).wrapping_mul(d8(y)))
    }
    fn u8_mul_scalar(x: &MU8, v: u8) -> MU8 {
        e8(d8(x).wrapping_mul(v))
    }
    fn u8_bitand(x: &MU8, y: &MU8) -> MU8 {
        e8(d8(x) & d8(y))
    }
    fn u16_trivial(v: u16) -> MU16 {
        e16(v)
    }
    fn u16_clone(x: &MU16) -> MU16 {
        MU16(x.0)
    }
    fn u16_from_bool(b: &MBool) -> MU16 {
        e16(db(b) as u16)
    }
    fn u16_gt_scalar(x: &MU16, v: u16) -> MBool {
        eb(d16(x) > v)
    }
    fn u16_add(x: &MU16, y: &MU16) -> MU16 {
        e16(d16(x).wrapping_add(d16(y)))
    }
    fn u16_mul(x: &MU16, y: &MU16) -> MU16 {
        e16(d16(x).wrapping_mul(d16(y)))
    }
    fn u16_bitand(x: &MU16, y: &MU16) -> MU16 {
        e16(d16(x) & d16(y))
    }
    fn u16_bitor(x: &MU16, y: &MU16) -> MU16 {
        e16(d16(x) | d16(y))
    }
    fn i16_trivial(v: i16) -> MI16 {
        ei(v)
    }
    fn i16_from_bool(b: &MBool) -> MI16 {
        ei(db(b) as i16)
    }
    fn i16_from_u16(x: &MU16) -> MI16 {
        ei(d16(x) as i16)
    }
    fn i16_gt_scalar(x: &MI16, v: i16) -> MBool {
        eb(di(x) > v)
    }
    fn i16_ge_scalar(x: &MI16, v: i16) -> MBool {
        eb(di(x) >= v)
    }
    fn i16_le_scalar(x: &MI16, v: i16) -> MBool {
        eb(di(x) <= v)
    }
    fn i16_add(x: &MI16, y: &MI16) -> MI16 {
        ei(di(x).wrapping_add(di(y)))
    }
    fn i16_sub(x: &MI16, y: &MI16) -> MI16 {
        ei(di(x).wrapping_sub(di(y)))
    }
    fn i16_mul(x: &MI16, y: &MI16) -> MI16 {
        ei(di(x).wrapping_mul(di(y)))
    }
    fn i16_add_scalar(x: &MI16, v: i16) -> MI16 {
        ei(di(x).wrapping_add(v))
    }
    fn i16_sub_scalar(x: &MI16, v: i16) -> MI16 {
        ei(di(x).wrapping_sub(v))
    }
}

struct MaskKey;

impl ClientKey<Masked> for MaskKey {
    fn encrypt_u8(&self, v: u8) -> MU8 {
        e8(v)
    }
    fn decrypt_u8(&self, c: &MU8) -> u8 {
        d8(c)
    }
}

fn enc(s: &str, block: usize) -> FheString<Masked> {
    StringClientKey::new(MaskKey, block).encrypt::<Masked>(s)
}

fn dec(s: &FheString<Masked>) -> String {
    String::from_utf8(StringClientKey::new(MaskKey, 0).decrypt::<Masked>(s)).unwrap()
}

#[test]
fn strings_under_a_mask() {
    let s = enc(" Hello World ", 8);
    assert_eq!(s.chars.len(), 16);
    assert_ne!(s.chars[0].byte.0, b' ');
    assert_eq!(dec(&s.trim()), "Hello World");
    assert_eq!(dec(&s.to_uppercase()), " HELLO WORLD ");
    assert_eq!(d16(&s.len()), 13);
    assert!(!db(&s.is_empty()));
    assert!(db(&s.contains_clear("lo W")));
    assert!(db(&s.contains(&enc("World", 0))));
    assert!(!db(&s.starts_with_clear("Hello")));
    assert!(db(&s.starts_with_clear(" Hello")));
    assert!(db(&s.ends_with(&enc("World ", 0))));
    assert_eq!(di(&s.find_clear("o")), 5);
    assert_eq!(di(&s.rfind_clear("o")), 8);
    assert_eq!(di(&s.find_clear("xyz")), -1);
    assert!(db(&s.eq(&enc(" Hello World ", 0))));
    assert!(db(&s.eq_ignore_case(&enc(" hello world ", 0))));
    assert!(db(&s.ne(&enc(" hello world ", 0))));
    assert_eq!(dec(&s.strip_prefix_clear(" Hello")), " World ");
    assert_eq!(dec(&s.strip_suffix(&enc("World ", 0))), " Hello ");
    let padding: Padding = s.reversed().padding;
    assert!(padding.start && !padding.end);
}
