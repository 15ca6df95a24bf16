use fhe_strings::ciphertext::FheString;
use fhe_strings::client_key::{is_valid_clear, StringClientKey};
use fhe_strings::trivial::{Trivial, TrivialKey};

fn bytes(s: &FheString<Trivial>) -> Vec<u8> {
    s.chars.iter().map(|c| c.byte).collect()
}

fn flags(s: &FheString<Trivial>) -> (bool, bool, bool) {
    (s.padding.start, s.padding.middle, s.padding.end)
}

#[test]
fn block_size_zero_adds_no_padding() {
    let key = StringClientKey::new(TrivialKey {}, 0);
    let s = key.encrypt::<Trivial>("abc");
    assert_eq!(bytes(&s), b"abc".to_vec());
    assert_eq!(flags(&s), (false, false, false));
    assert!(!s.has_padding());
}

#[test]
fn padding_fills_up_to_a_multiple_of_the_block_size() {
    let key = StringClientKey::new(TrivialKey {}, 4);
    for (text, total) in [("", 4), ("a", 4), ("abc", 4), ("abcd", 4), ("abcde", 8), ("abcdefgh", 8), ("abcdefghi", 12)] {
        let s = key.encrypt::<Trivial>(text);
        assert_eq!(s.chars.len(), total, "{text:?}");
        assert_eq!(&bytes(&s)[..text.len()], text.as_bytes());
        assert!(bytes(&s)[text.len()..].iter().all(|b| *b == 0));
        assert_eq!(flags(&s), (false, false, true));
        assert_eq!(key.decrypt::<Trivial>(&s), text.as_bytes().to_vec());
    }
}

#[test]
fn a_string_with_its_own_zeros_is_taken_as_it_is() {
    let key = StringClientKey::new(TrivialKey {}, 8);
    let s = key.encrypt::<Trivial>("ab\0\0\0");
    assert_eq!(bytes(&s), vec![b'a', b'b', 0, 0, 0]);
    assert_eq!(flags(&s), (false, false, true));
    let key = StringClientKey::new(TrivialKey {}, 0);
    let s = key.encrypt::<Trivial>("ab\0");
    assert_eq!(flags(&s), (false, false, true));
}

#[test]
fn only_ascii_with_trailing_zeros_can_be_encrypted() {
    assert!(is_valid_clear(""));
    assert!(is_valid_clear("hello world"));
    assert!(is_valid_clear("ab\0\0"));
    assert!(is_valid_clear("\0"));
    assert!(!is_valid_clear("a\0b"));
    assert!(!is_valid_clear("\0a"));
    assert!(!is_valid_clear("caf\u{e9}"));
    assert!(!is_valid_clear("\u{1F600}"));
}

#[test]
fn decrypt_leaves_the_padding_out() {
    let key = StringClientKey::new(TrivialKey {}, 0);
    let s = key.encrypt::<Trivial>("a b").trim_start().reversed();
    assert_eq!(key.decrypt::<Trivial>(&s), b"b a".to_vec());
    let key = StringClientKey::new(TrivialKey {}, 3);
    let trimmed = key.encrypt::<Trivial>("  x ").trim();
    assert_eq!(bytes(&trimmed), vec![0, 0, b'x', 0, 0, 0]);
    assert_eq!(key.decrypt::<Trivial>(&trimmed), b"x".to_vec());
}
