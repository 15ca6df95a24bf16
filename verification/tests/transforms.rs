use fhe_strings::ciphertext::{FheAsciiChar, FheString, MaxedFheUint8, Padding};
use fhe_strings::trivial::Trivial;

fn string(bytes: &[u8], padding: Padding) -> FheString<Trivial> {
    FheString { chars: bytes.iter().map(|b| FheAsciiChar { byte: *b }).collect(), padding }
}

fn bytes(s: &FheString<Trivial>) -> Vec<u8> {
    s.chars.iter().map(|c| c.byte).collect()
}

fn flags(start: bool, middle: bool, end: bool) -> Padding {
    Padding { start, middle, end }
}

fn triple(p: Padding) -> (bool, bool, bool) {
    (p.start, p.middle, p.end)
}

#[test]
fn len_counts_bytes_that_are_no_padding() {
    assert_eq!(string(&[0, b'a', 0, b'b', 0, 0], flags(true, true, true)).len(), 2);
    assert_eq!(string(&[], flags(false, false, false)).len(), 0);
    assert_eq!(string(b"hello", flags(false, false, false)).len(), 5);
}

#[test]
fn is_empty_looks_at_the_first_byte() {
    assert!(string(&[], flags(false, false, false)).is_empty());
    assert!(string(&[0, 0], flags(false, false, true)).is_empty());
    assert!(!string(&[b'a', 0], flags(false, false, true)).is_empty());
    // leading padding hides the characters behind it
    assert!(string(&[0, b'a'], flags(true, false, false)).is_empty());
}

#[test]
fn case_folding_changes_letters_only() {
    let s = string(&[b'a', b'z', b'A', b'Z', b'`', b'{', b'@', b'[', 0, b'1'], flags(false, true, false));
    assert_eq!(bytes(&s.to_uppercase()), vec![b'A', b'Z', b'A', b'Z', b'`', b'{', b'@', b'[', 0, b'1']);
    assert_eq!(bytes(&s.to_lowercase()), vec![b'a', b'z', b'a', b'z', b'`', b'{', b'@', b'[', 0, b'1']);
    assert_eq!(triple(s.to_uppercase().padding), (false, true, false));
    assert_eq!(triple(s.to_lowercase().padding), (false, true, false));
}

#[test]
fn case_folding_is_idempotent() {
    let s = string(b"Hello, World! 123", flags(false, false, false));
    assert_eq!(bytes(&s.to_uppercase().to_uppercase()), bytes(&s.to_uppercase()));
    assert_eq!(bytes(&s.to_lowercase().to_lowercase()), bytes(&s.to_lowercase()));
}

#[test]
fn whitespace_is_tab_newline_vertical_tab_return_and_space() {
    for b in 0..=255u8 {
        let c = FheAsciiChar::<Trivial> { byte: b };
        assert_eq!(c.is_whitespace(), [9u8, 10, 11, 13, 32].contains(&b), "byte {b}");
    }
}

#[test]
fn trim_turns_white_space_into_padding() {
    let s = string(&[b' ', 0, b'\t', b'a', b' ', b'b', b'\n', 0, b'\r'], flags(false, true, false));
    assert_eq!(bytes(&s.trim_start()), vec![0, 0, 0, b'a', b' ', b'b', b'\n', 0, b'\r']);
    assert_eq!(bytes(&s.trim_end()), vec![b' ', 0, b'\t', b'a', b' ', b'b', 0, 0, 0]);
    assert_eq!(bytes(&s.trim()), vec![0, 0, 0, b'a', b' ', b'b', 0, 0, 0]);
    assert_eq!(triple(s.trim_start().padding), (true, true, false));
    assert_eq!(triple(s.trim_end().padding), (true, true, true));
    assert_eq!(triple(s.trim().padding), (true, true, true));
    let blank = string(b" \t ", flags(false, false, false));
    assert_eq!(bytes(&blank.trim()), vec![0, 0, 0]);
    assert_eq!(bytes(&blank.trim_start()), vec![0, 0, 0]);
    assert_eq!(bytes(&blank.trim_end()), vec![0, 0, 0]);
}

#[test]
fn trim_is_idempotent_and_its_sides_commute() {
    for text in ["  a b  ", "ab", "   ", "", " a", "a ", "\t\na\x0b\r b \n"] {
        let s = string(text.as_bytes(), flags(false, false, false));
        assert_eq!(bytes(&s.trim().trim()), bytes(&s.trim()), "{text:?}");
        assert_eq!(bytes(&s.trim_start().trim_end()), bytes(&s.trim_end().trim_start()), "{text:?}");
        assert_eq!(bytes(&s.trim()), bytes(&s.trim_start().trim_end()), "{text:?}");
    }
}

#[test]
fn repeat_keeps_as_many_copies_as_the_encrypted_number_says() {
    let s = string(b"ab", flags(false, false, true));
    let twice = s.repeat(MaxedFheUint8 { val: 2u8, max_val: 3 });
    assert_eq!(bytes(&twice), vec![b'a', b'b', b'a', b'b', 0, 0]);
    assert_eq!(triple(twice.padding), (false, true, true));
    let none = s.repeat(MaxedFheUint8 { val: 0u8, max_val: 2 });
    assert_eq!(bytes(&none), vec![0, 0, 0, 0]);
    assert_eq!(none.len(), 0);
    let capped = s.repeat(MaxedFheUint8 { val: 9u8, max_val: 2 });
    assert_eq!(bytes(&capped), vec![b'a', b'b', b'a', b'b']);
    let gapped = string(&[b'a', 0, b'b'], flags(false, true, false)).repeat(MaxedFheUint8 { val: 1u8, max_val: 1 });
    assert_eq!(triple(gapped.padding), (false, true, true));
    let unpadded = string(b"ab", flags(false, false, false)).repeat(MaxedFheUint8 { val: 1u8, max_val: 2 });
    assert_eq!(bytes(&unpadded), vec![b'a', b'b', 0, 0]);
    assert_eq!(triple(unpadded.padding), (false, false, true));
    let leading = string(&[0, b'a'], flags(true, false, false)).repeat(MaxedFheUint8 { val: 2u8, max_val: 2 });
    assert_eq!(bytes(&leading), vec![0, b'a', 0, b'a']);
    assert_eq!(triple(leading.padding), (true, true, true));
    assert_eq!(bytes(&s.repeat(MaxedFheUint8 { val: 1u8, max_val: 0 })), Vec::<u8>::new());
}

#[test]
fn repeat_clear_copies_the_bytes() {
    let s = string(&[b'a', 0], flags(false, false, true));
    let thrice = s.repeat_clear(3);
    assert_eq!(bytes(&thrice), vec![b'a', 0, b'a', 0, b'a', 0]);
    assert_eq!(triple(thrice.padding), (false, true, true));
    let never = s.repeat_clear(0);
    assert_eq!(bytes(&never), Vec::<u8>::new());
    assert_eq!(triple(never.padding), (false, false, true));
    let gapped = string(&[b'a', 0, b'b'], flags(false, true, false));
    assert_eq!(triple(gapped.repeat_clear(2).padding), (false, true, false));
    assert_eq!(triple(gapped.repeat_clear(0).padding), (false, true, false));
    let plain = string(b"ab", flags(false, false, false));
    assert_eq!(triple(plain.repeat_clear(2).padding), (false, false, false));
}

#[test]
fn reversed_turns_bytes_and_flags_around() {
    let s = string(&[b'a', b'b', 0], flags(false, true, true));
    let r = s.reversed();
    assert_eq!(bytes(&r), vec![0, b'b', b'a']);
    assert_eq!(triple(r.padding), (true, true, false));
    assert_eq!(bytes(&r.reversed()), bytes(&s));
    let copy = s.clone();
    assert_eq!(bytes(&copy), bytes(&s));
    assert_eq!(triple(copy.padding), triple(s.padding));
}

#[test]
fn concatenation_joins_bytes_and_flags() {
    let a = string(&[b'a', 0], flags(false, false, true));
    let b = string(&[b'b', b'c'], flags(false, false, false));
    let joined = a + b;
    assert_eq!(bytes(&joined), vec![b'a', 0, b'b', b'c']);
    assert_eq!(triple(joined.padding), (false, true, false));
    let a = string(&[0, b'a'], flags(true, false, false));
    let b = string(&[b'b', 0], flags(false, false, true));
    assert_eq!(triple((a + b).padding), (true, false, true));
    let a = string(b"a", flags(false, false, false));
    let b = string(&[0, b'b'], flags(true, false, false));
    assert_eq!(triple((a + b).padding), (false, true, false));
}

#[test]
fn length_of_a_concatenation_is_the_sum() {
    let a = string(&[b'a', 0, b'b'], flags(false, true, false));
    let b = string(&[0, b'c', 0, 0], flags(true, false, true));
    let sum = a.len() + b.len();
    assert_eq!((a + b).len(), sum);
    assert_eq!(sum, 3);
}

#[test]
fn padding_builders_set_one_flag_each() {
    let mut p = Padding::default();
    assert_eq!(triple(p), (false, false, false));
    p.start(true);
    assert_eq!(triple(p), (true, false, false));
    p.middle(true).end(true).start(false);
    assert_eq!(triple(p), (false, true, true));
    assert!(string(b"a", p).has_padding());
    assert!(!string(b"a", Padding::default()).has_padding());
}
