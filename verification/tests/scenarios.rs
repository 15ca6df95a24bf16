use fhe_strings::ciphertext::FheString;
use fhe_strings::client_key::StringClientKey;
use fhe_strings::trivial::{Trivial, TrivialKey};

fn enc(s: &str, block: usize) -> FheString<Trivial> {
    StringClientKey::new(TrivialKey {}, block).encrypt::<Trivial>(s)
}

fn dec(s: &FheString<Trivial>) -> String {
    let bytes = StringClientKey::new(TrivialKey {}, 0).decrypt::<Trivial>(s);
    String::from_utf8(bytes).unwrap()
}

#[test]
fn hello_world_with_encrypted_pattern() {
    let s = enc("hello world", 0);
    let p = enc("world", 0);
    assert!(s.contains(&p));
    assert_eq!(s.find(&p), 6);
    assert_eq!(s.rfind(&p), 6);
    assert!(!s.starts_with(&p));
    assert!(s.ends_with(&p));
    assert_eq!(dec(&s.strip_prefix(&enc("hello ", 0))), "world");
}

#[test]
fn hello_world_with_clear_pattern() {
    let s = enc("hello world", 0);
    assert!(s.contains_clear("world"));
    assert_eq!(s.find_clear("world"), 6);
    assert_eq!(s.rfind_clear("world"), 6);
    assert!(!s.starts_with_clear("world"));
    assert!(s.ends_with_clear("world"));
    assert_eq!(dec(&s.strip_prefix_clear("hello ")), "world");
    assert_eq!(dec(&s.strip_suffix_clear("world")), "hello ");
    assert_eq!(dec(&s.strip_suffix(&enc(" world", 0))), "hello");
}

#[test]
fn foo_bar_without_pattern() {
    let s = enc(" foo bar ", 0);
    assert_eq!(dec(&s.trim()), "foo bar");
    assert_eq!(dec(&s.to_uppercase()), " FOO BAR ");
    assert_eq!(s.len(), 9);
    assert_eq!(dec(&s.trim_start()), "foo bar ");
    assert_eq!(dec(&s.trim_end()), " foo bar");
    assert_eq!(dec(&s.to_lowercase()), " foo bar ");
    assert!(!s.is_empty());
}

#[test]
fn padded_string_compared_with_and_without_case() {
    let s = enc("AbC", 8);
    assert_eq!(s.chars.len(), 8);
    let p = enc("abc", 0);
    assert!(!s.eq(&p));
    assert!(s.ne(&p));
    assert!(s.eq_ignore_case(&p));
    assert!(s.eq(&enc("AbC", 0)));
    assert!(!s.eq(&enc("Ab", 0)));
    assert!(!s.eq(&enc("AbCd", 0)));
}

#[test]
fn empty_string_of_four_zeros() {
    let s = enc("", 4);
    let bytes: Vec<u8> = s.chars.iter().map(|c| c.byte).collect();
    assert_eq!(bytes, vec![0, 0, 0, 0]);
    assert!(s.is_empty());
    assert_eq!(s.len(), 0);
    assert!(!s.contains(&enc("a", 0)));
    assert!(!s.contains_clear("a"));
    assert_eq!(s.find_clear("a"), -1);
    assert_eq!(dec(&s), "");
}

#[test]
fn ababab_first_and_last_occurrence() {
    let s = enc("ababab", 0);
    let p = enc("ab", 0);
    assert_eq!(s.find(&p), 0);
    assert_eq!(s.rfind(&p), 4);
    assert!(s.contains(&p));
    assert_eq!(s.find_clear("ab"), 0);
    assert_eq!(s.rfind_clear("ab"), 4);
    assert_eq!(s.find_clear("ba"), 1);
    assert_eq!(s.rfind_clear("ba"), 3);
}

#[test]
fn abc_with_trailing_zeros() {
    let s = enc("abc", 8);
    let bytes: Vec<u8> = s.chars.iter().map(|c| c.byte).collect();
    assert_eq!(bytes, vec![b'a', b'b', b'c', 0, 0, 0, 0, 0]);
    assert_eq!(s.find(&enc("bc", 0)), 1);
    assert!(s.ends_with(&enc("bc", 0)));
    assert!(s.ends_with_clear("bc"));
    assert!(!s.ends_with_clear("ab"));
    assert_eq!(s.rfind_clear("bc"), 1);
    assert_eq!(dec(&s.strip_suffix_clear("bc")), "a");
    assert_eq!(dec(&s.strip_prefix_clear("ab")), "c");
}

#[test]
fn hello_without_the_pattern() {
    let s = enc("hello", 0);
    assert_eq!(dec(&s.strip_prefix(&enc("xyz", 0))), "hello");
    assert_eq!(s.find(&enc("xyz", 0)), -1);
    assert_eq!(s.rfind(&enc("xyz", 0)), -1);
    assert_eq!(dec(&s.strip_suffix_clear("xyz")), "hello");
    assert!(!s.contains_clear("xyz"));
    assert!(!s.contains_clear("hello!"));
}
