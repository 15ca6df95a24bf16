use fhe_strings::ciphertext::{FheAsciiChar, FheString, MaxedFheUint8, Padding};
use fhe_strings::client_key::StringClientKey;
use fhe_strings::trivial::{Trivial, TrivialKey};

fn string(bytes: &[u8], start: bool, middle: bool, end: bool) -> FheString<Trivial> {
    FheString {
        chars: bytes.iter().map(|b| FheAsciiChar { byte: *b }).collect(),
        padding: Padding { start, middle, end },
    }
}

/// Do the zeros of the string stand only where its flags allow them?
fn well_padded(s: &FheString<Trivial>) -> bool {
    let bytes: Vec<u8> = s.chars.iter().map(|c| c.byte).collect();
    (0..bytes.len()).filter(|i| bytes[*i] == 0).all(|i| {
        let before = bytes[..i].iter().any(|b| *b != 0);
        let after = bytes[i + 1..].iter().any(|b| *b != 0);
        match (before, after) {
            (true, true) => s.padding.middle,
            (true, false) => s.padding.end,
            (false, true) => s.padding.start,
            (false, false) => s.padding.start || s.padding.end,
        }
    })
}

fn samples() -> Vec<FheString<Trivial>> {
    vec![
        string(b"ab", false, false, false),
        string(&[b'a', b'b', 0, 0], false, false, true),
        string(&[0, b'a', b'b'], true, false, false),
        string(&[b'a', 0, b'b'], false, true, false),
        string(&[0, b'a', 0, b'b', 0], true, true, true),
        string(&[0, 0], false, false, true),
        string(&[0, 0], true, false, false),
        string(&[], false, false, false),
    ]
}

#[test]
fn misplaced_padding_is_told() {
    assert!(!well_padded(&string(&[b'a', 0], false, false, false)));
    assert!(!well_padded(&string(&[0, b'a'], false, true, true)));
    assert!(!well_padded(&string(&[b'a', 0, b'b'], true, false, true)));
    assert!(!well_padded(&string(&[0], false, true, false)));
    for s in samples() {
        assert!(well_padded(&s));
    }
}

#[test]
fn encryption_pads_where_its_flags_say() {
    for block in [0usize, 1, 3, 8] {
        let key = StringClientKey::new(TrivialKey {}, block);
        for text in ["", "a", "abc", "abcd", "ab\0", "\0\0"] {
            assert!(well_padded(&key.encrypt::<Trivial>(text)), "{text:?} {block}");
        }
    }
}

#[test]
fn case_folding_and_reversal_keep_padding_in_place() {
    for s in samples() {
        assert!(well_padded(&s.to_uppercase()));
        assert!(well_padded(&s.to_lowercase()));
        assert!(well_padded(&s.reversed()));
    }
}

#[test]
fn trimming_keeps_padding_in_place() {
    let mut rows = samples();
    rows.push(string(b"  ab  ", false, false, false));
    rows.push(string(&[b' ', 0, b'a', b' ', 0, b' '], true, true, true));
    rows.push(string(&[b'a', 0, b' ', b'b'], false, true, false));
    rows.push(string(b" \t\n", false, false, false));
    for s in rows {
        assert!(well_padded(&s.trim_start()));
        assert!(well_padded(&s.trim_end()));
        assert!(well_padded(&s.trim()));
    }
    let trimmed = string(b"ab ", false, false, false).trim_end();
    assert_eq!(trimmed.chars.iter().map(|c| c.byte).collect::<Vec<u8>>(), vec![b'a', b'b', 0]);
    assert!(trimmed.padding.end);
    assert!(trimmed.ends_with_clear("b"));
    assert!(!trimmed.ends_with_clear(" "));
}

#[test]
fn stripping_keeps_padding_in_place() {
    let rows = vec![
        string(b"abab", false, false, false),
        string(&[b'a', b'b', b'a', b'b', 0, 0], false, false, true),
        string(&[0, b'a', b'b', b'c'], true, false, false),
        string(&[0, b'a', 0, b'b', 0, b'a', b'b', 0], true, true, true),
        string(&[0, 0], false, false, true),
    ];
    for s in rows {
        for pattern in ["ab", "a", "b", "abab", "x"] {
            assert!(well_padded(&s.strip_prefix_clear(pattern)), "{pattern}");
            assert!(well_padded(&s.strip_suffix_clear(pattern)), "{pattern}");
        }
    }
}

#[test]
fn repetition_keeps_padding_in_place() {
    for s in samples() {
        for max_val in 0u8..4 {
            for val in 0u8..5 {
                assert!(well_padded(&s.repeat(MaxedFheUint8 { val, max_val })));
            }
            assert!(well_padded(&s.repeat_clear(max_val)));
        }
    }
}

#[test]
fn concatenation_keeps_padding_in_place() {
    for a in samples() {
        for b in samples() {
            let a_holds = a.chars.iter().any(|c| c.byte != 0);
            let b_holds = b.chars.iter().any(|c| c.byte != 0);
            if (a_holds || a.padding.start) && (b_holds || b.padding.end) {
                assert!(well_padded(&(a.clone() + b.clone())));
            }
        }
    }
}

#[test]
fn concatenation_with_a_row_of_padding_alone_may_misplace_it() {
    // the zeros of the left operand end up before the first character; the
    // joined flags carry `start` of the left operand, which is not set
    let joined = string(&[0, 0], false, false, true) + string(b"x", false, false, false);
    assert_eq!((joined.padding.start, joined.padding.middle, joined.padding.end), (false, true, false));
    assert!(!well_padded(&joined));
}
