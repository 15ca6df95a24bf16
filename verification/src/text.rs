//! The clear side of the string transforms: what each transform does to the
//! bytes that an encrypted string decrypts to.
//!
//! A zero byte is padding.  The characters of a row of bytes are its bytes
//! that are not zero, in their order: [`visible`].
use crate::primitives::wrap_i16;
use vstd::prelude::*;

verus! {

/// Distance between an upper-case letter and its lower-case form.
pub const UP_LOW_DISTANCE: u8 = 32;

/// The characters of a row of bytes: the bytes that are no padding.
pub open spec fn visible(s: Seq<u8>) -> Seq<u8> {
    s.filter(|b: u8| b != 0)
}

/// Number of bytes among the first `upto` that are no padding.
pub open spec fn nonzeros(s: Seq<u8>, upto: int) -> nat
    decreases upto,
{
    if upto <= 0 {
        0
    } else {
        nonzeros(s, upto - 1) + if s[upto - 1] != 0 {
            1nat
        } else {
            0nat
        }
    }
}

/// Tab, newline, vertical tab, carriage return and space.
pub open spec fn is_whitespace(b: u8) -> bool {
    b == 9 || b == 10 || b == 11 || b == 13 || b == 32
}

/// The byte is white space or padding.
pub open spec fn is_blank(b: u8) -> bool {
    is_whitespace(b) || b == 0
}

/// Are the bytes at `from .. to` all white space or padding?
pub open spec fn all_blank(s: Seq<u8>, from: int, to: int) -> bool {
    forall|j: int| from <= j < to ==> is_blank(#[trigger] s[j])
}

/// The upper-case form of a lower-case letter; any other byte as it is.
pub open spec fn upper(b: u8) -> u8 {
    if 96 < b < 123 {
        (b - UP_LOW_DISTANCE) as u8
    } else {
        b
    }
}

/// The lower-case form of an upper-case letter; any other byte as it is.
pub open spec fn lower(b: u8) -> u8 {
    if 64 < b < 91 {
        (b + UP_LOW_DISTANCE) as u8
    } else {
        b
    }
}

/// Every byte in upper case.
pub open spec fn uppercased(s: Seq<u8>) -> Seq<u8> {
    Seq::new(s.len(), |i: int| upper(s[i]))
}

/// Every byte in lower case.
pub open spec fn lowercased(s: Seq<u8>) -> Seq<u8> {
    Seq::new(s.len(), |i: int| lower(s[i]))
}

/// The row with its leading white space turned into padding: a byte becomes
/// zero where it and all bytes before it are white space or padding.
pub open spec fn trimmed_start(s: Seq<u8>) -> Seq<u8> {
    Seq::new(
        s.len(),
        |i: int|
            if all_blank(s, 0, i + 1) {
                0u8
            } else {
                s[i]
            },
    )
}

/// The row with its trailing white space turned into padding: a byte becomes
/// zero where it and all bytes after it are white space or padding.
pub open spec fn trimmed_end(s: Seq<u8>) -> Seq<u8> {
    Seq::new(
        s.len(),
        |i: int|
            if all_blank(s, i, s.len() as int) {
                0u8
            } else {
                s[i]
            },
    )
}

/// `max_n` copies of the row, of which the first `n` are kept and the others
/// are padding.
pub open spec fn repeated(s: Seq<u8>, n: int, max_n: int) -> Seq<u8> {
    Seq::new(
        (max_n * s.len()) as nat,
        |i: int|
            if i / (s.len() as int) < n {
                s[i % (s.len() as int)]
            } else {
                0u8
            },
    )
}

/// The row in which the bytes up to position `end_index` (for a prefix) or
/// from position `end_index` on (for a suffix) are turned into padding, if
/// `found`.  Positions are compared as sixteen-bit signed integers.
pub open spec fn stripped(s: Seq<u8>, found: bool, end_index: i16, is_prefix: bool) -> Seq<u8> {
    Seq::new(
        s.len(),
        |i: int|
            if found && (if is_prefix {
                end_index >= wrap_i16(i)
            } else {
                end_index <= wrap_i16(i)
            }) {
                0u8
            } else {
                s[i]
            },
    )
}

/// The index that a search from the end returns: where the search on the
/// reversed strings gave `rev_find`, in a string of `s_len` characters and for
/// a pattern of `m` bytes.  -1 where `rev_find` is negative.
pub open spec fn last_index(s_len: u16, m: int, rev_find: i16) -> i16 {
    let flipped = wrap_i16(
        wrap_i16(wrap_i16(wrap_i16(s_len as int) - wrap_i16(m)) - rev_find) + 1,
    );
    let kept = if rev_find > -1 {
        flipped
    } else {
        0i16
    };
    wrap_i16(kept - 1)
}

} // verus!
