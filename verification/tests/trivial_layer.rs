use fhe_strings::ciphertext::wrapping_i16;
use fhe_strings::primitives::{ClientKey, Fhe};
use fhe_strings::trivial::{Trivial, TrivialKey};

#[test]
fn integer_operations_wrap_around() {
    assert_eq!(Trivial::u8_add(&250, &10), 4);
    assert_eq!(Trivial::u8_sub(&3, &5), 254);
    assert_eq!(Trivial::u8_mul(&16, &17), 16);
    assert_eq!(Trivial::u8_mul_scalar(&1, 32), 32);
    assert_eq!(Trivial::u16_add(&65535, &2), 1);
    assert_eq!(Trivial::u16_mul(&256, &256), 0);
    assert_eq!(Trivial::i16_add(&32767, &1), -32768);
    assert_eq!(Trivial::i16_sub(&-32768, &1), 32767);
    assert_eq!(Trivial::i16_mul(&256, &128), -32768);
    assert_eq!(Trivial::i16_add_scalar(&-1, 1), 0);
    assert_eq!(Trivial::i16_sub_scalar(&0, 1), -1);
}

#[test]
fn casts_and_comparisons() {
    assert_eq!(Trivial::u8_from_bool(&true), 1);
    assert_eq!(Trivial::u16_from_bool(&false), 0);
    assert_eq!(Trivial::i16_from_bool(&true), 1);
    assert_eq!(Trivial::i16_from_u16(&0), 0);
    assert_eq!(Trivial::i16_from_u16(&32767), 32767);
    assert_eq!(Trivial::i16_from_u16(&32768), -32768);
    assert_eq!(Trivial::i16_from_u16(&65535), -1);
    assert!(Trivial::u8_eq(&7, &7));
    assert!(Trivial::u8_ne_scalar(&7, 8));
    assert!(Trivial::u8_gt_scalar(&97, 96));
    assert!(!Trivial::u8_lt_scalar(&123, 123));
    assert!(Trivial::u16_gt_scalar(&2, 1));
    assert!(Trivial::i16_gt_scalar(&0, -1));
    assert!(Trivial::i16_ge_scalar(&3, 3));
    assert!(Trivial::i16_le_scalar(&-4, 3));
    assert_eq!(Trivial::u8_bitand(&0b1100, &0b1010), 0b1000);
    assert_eq!(Trivial::u16_bitand(&0xff00, &0x0ff0), 0x0f00);
    assert_eq!(Trivial::u16_bitor(&0xff00, &0x0ff0), 0xfff0);
    assert!(Trivial::bool_and(&true, &true) && !Trivial::bool_and(&true, &false));
    assert!(Trivial::bool_or(&false, &true) && !Trivial::bool_or(&false, &false));
    assert!(Trivial::bool_not(&false));
}

#[test]
fn trivial_key_hides_nothing() {
    let key = TrivialKey {};
    assert_eq!(<TrivialKey as ClientKey<Trivial>>::encrypt_u8(&key, 65), 65);
    assert_eq!(<TrivialKey as ClientKey<Trivial>>::decrypt_u8(&key, &66), 66);
    assert_eq!(Trivial::u8_trivial(5), 5);
    assert_eq!(Trivial::u16_trivial(500), 500);
    assert_eq!(Trivial::i16_trivial(-5), -5);
    assert!(Trivial::bool_trivial(true));
}

#[test]
fn lengths_as_sixteen_signed_bits() {
    assert_eq!(wrapping_i16(0), 0);
    assert_eq!(wrapping_i16(32767), 32767);
    assert_eq!(wrapping_i16(32768), -32768);
    assert_eq!(wrapping_i16(65535), -1);
    assert_eq!(wrapping_i16(65536), 0);
    assert_eq!(wrapping_i16(65537), 1);
}
