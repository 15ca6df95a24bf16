use fhe_strings::ciphertext::{FheAsciiChar, FheString, Padding};
use fhe_strings::client_key::StringClientKey;
use fhe_strings::trivial::{Trivial, TrivialKey};

fn string(bytes: &[u8], padding: Padding) -> FheString<Trivial> {
    FheString { chars: bytes.iter().map(|b| FheAsciiChar { byte: *b }).collect(), padding }
}

fn dec(s: &FheString<Trivial>) -> String {
    let bytes = StringClientKey::new(TrivialKey {}, 0).decrypt::<Trivial>(s);
    String::from_utf8(bytes).unwrap()
}

/// The text with padding zeros put in wherever the flags allow them.
fn padded(text: &str, padding: Padding) -> FheString<Trivial> {
    let mut bytes: Vec<u8> = Vec::new();
    if padding.start {
        bytes.extend([0, 0]);
    }
    for (i, b) in text.bytes().enumerate() {
        if i > 0 && padding.middle {
            bytes.extend(std::iter::repeat(0).take(i % 3));
        }
        bytes.push(b);
    }
    if padding.end {
        bytes.extend([0, 0, 0]);
    }
    if text.is_empty() && !padding.start && !padding.end {
        bytes.clear();
    }
    string(&bytes, padding)
}

fn all_flags() -> Vec<Padding> {
    (0..8u8)
        .map(|bits| Padding { start: bits & 1 > 0, middle: bits & 2 > 0, end: bits & 4 > 0 })
        .collect()
}

fn index(found: Option<usize>) -> i16 {
    match found {
        Some(i) => i as i16,
        None => -1,
    }
}

const TEXTS: [&str; 8] = ["hello world", "ababab", "abc", "a", "aaa", "xyzabc", "abcabc", "hello"];
const PATTERNS: [&str; 9] = ["world", "ab", "bc", "a", "abc", "xyz", "hello", "aa", "c"];

#[test]
fn searches_agree_with_the_clear_text() {
    for text in TEXTS {
        for padding in all_flags() {
            let s = padded(text, padding);
            for pattern in PATTERNS {
                let what = format!("{text:?} {pattern:?} {padding:?}");
                let p = string(pattern.as_bytes(), Padding::default());
                assert_eq!(s.contains(&p), text.contains(pattern), "contains {what}");
                assert_eq!(s.contains_clear(pattern), text.contains(pattern), "contains {what}");
                assert_eq!(s.starts_with(&p), text.starts_with(pattern), "starts_with {what}");
                assert_eq!(s.starts_with_clear(pattern), text.starts_with(pattern), "starts_with {what}");
                assert_eq!(s.ends_with(&p), text.ends_with(pattern), "ends_with {what}");
                assert_eq!(s.ends_with_clear(pattern), text.ends_with(pattern), "ends_with {what}");
                assert_eq!(s.find(&p), index(text.find(pattern)), "find {what}");
                assert_eq!(s.find_clear(pattern), index(text.find(pattern)), "find {what}");
                assert_eq!(s.rfind(&p), index(text.rfind(pattern)), "rfind {what}");
                assert_eq!(s.rfind_clear(pattern), index(text.rfind(pattern)), "rfind {what}");
                if padding.end || !(padding.start || padding.middle) {
                    assert_eq!(s.eq(&p), text == pattern, "eq {what}");
                    assert_eq!(s.ne(&p), text != pattern, "ne {what}");
                }
                if !padding.middle {
                    let stripped = text.strip_prefix(pattern).unwrap_or(text);
                    assert_eq!(dec(&s.strip_prefix(&p)), stripped, "strip_prefix {what}");
                    assert_eq!(dec(&s.strip_prefix_clear(pattern)), stripped, "strip_prefix {what}");
                    let stripped = text.strip_suffix(pattern).unwrap_or(text);
                    assert_eq!(dec(&s.strip_suffix(&p)), stripped, "strip_suffix {what}");
                    assert_eq!(dec(&s.strip_suffix_clear(pattern)), stripped, "strip_suffix {what}");
                }
            }
        }
    }
}

#[test]
fn contains_find_and_rfind_agree() {
    for text in TEXTS {
        for padding in all_flags() {
            let s = padded(text, padding);
            for pattern in PATTERNS {
                let found = s.contains_clear(pattern);
                assert_eq!(found, s.find_clear(pattern) >= 0);
                assert_eq!(found, s.rfind_clear(pattern) >= 0);
            }
        }
    }
}

#[test]
fn ends_with_is_starts_with_on_the_reversed_strings() {
    for text in TEXTS {
        for padding in all_flags() {
            let s = padded(text, padding);
            for pattern in PATTERNS {
                let p = string(pattern.as_bytes(), Padding::default());
                assert_eq!(s.ends_with(&p), s.reversed().starts_with(&p.reversed()));
            }
        }
    }
}

#[test]
fn equality_is_both_anchors_and_the_same_length() {
    for text in TEXTS {
        let s = padded(text, Padding::default());
        for pattern in PATTERNS.iter().chain(TEXTS.iter()) {
            let p = string(pattern.as_bytes(), Padding::default());
            let composed = s.starts_with(&p) && s.ends_with(&p) && s.len() == p.len();
            assert_eq!(s.eq(&p), composed, "{text:?} {pattern:?}");
        }
    }
}

#[test]
fn equality_without_case() {
    for padding in all_flags() {
        if !(padding.end || !(padding.start || padding.middle)) {
            continue;
        }
        let s = padded("Hello World", padding);
        for (other, equal) in [("hello world", true), ("HELLO WORLD", true), ("hello worlds", false), ("hello", false)] {
            let p = string(other.as_bytes(), Padding::default());
            assert_eq!(s.eq_ignore_case(&p), equal, "{other:?} {padding:?}");
            assert_eq!(equal, "Hello World".eq_ignore_ascii_case(other));
        }
    }
}

#[test]
fn transforms_do_not_show_where_the_padding_stands() {
    let text = " Foo  bar\t";
    for padding in all_flags() {
        let s = padded(text, padding);
        assert_eq!(dec(&s), text);
        assert_eq!(s.len() as usize, text.len());
        assert_eq!(dec(&s.to_uppercase()), text.to_uppercase());
        assert_eq!(dec(&s.to_lowercase()), text.to_lowercase());
        assert_eq!(dec(&s.trim_start()), text.trim_start());
        assert_eq!(dec(&s.trim_end()), text.trim_end());
        assert_eq!(dec(&s.trim()), text.trim());
        assert_eq!(dec(&s.repeat_clear(3)), text.repeat(3));
        assert_eq!(dec(&s.reversed()), text.chars().rev().collect::<String>());
        assert_eq!(dec(&(s.duplicate() + padded("tail", padding))), format!("{text}tail"));
    }
}

#[test]
fn equality_overlooks_a_longer_content_without_the_end_flag() {
    // the content is longer than the pattern, but nothing tells that its end may be padded
    let s = string(&[0, b'a', b'b', b'c'], Padding { start: true, middle: false, end: false });
    assert!(s.eq(&string(b"ab", Padding::default())));
}
