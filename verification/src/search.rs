//! What each search operation yields, in the clear.
//!
//! The operations are stated over the bytes `s` that the content decrypts to,
//! the padding flags of the content and the bytes `p` of the pattern.  They
//! are reductions to the match of [`Scene`]: a search from the end is a search
//! from the start on the reversed strings.
use crate::ciphertext::Padding;
use crate::primitives::{wrap_i16, wrap_u16};
use crate::semantics::{found_index, Scene, Shape};
use crate::text::{last_index, lowercased, nonzeros, stripped};
use vstd::prelude::*;

verus! {

/// The matching call on the content `s` with the flags `padding` and the
/// pattern `p`, under the anchors `sof` and `eof`.
pub open spec fn match_scene(s: Seq<u8>, padding: Padding, p: Seq<u8>, sof: bool, eof: bool)
    -> Scene {
    Scene {
        shape: Shape { n: s.len() as usize, m: p.len() as usize, padding, sof, eof },
        content: s,
        pattern: p,
    }
}

/// The flags of the reversed string: `start` and `end` exchanged.
pub open spec fn flipped(padding: Padding) -> Padding {
    Padding { start: padding.end, middle: padding.middle, end: padding.start }
}

/// Does the pattern match somewhere in the content?
pub open spec fn contains(s: Seq<u8>, padding: Padding, p: Seq<u8>) -> bool {
    match_scene(s, padding, p, false, false).outcome(false).truth()
}

/// Does the pattern match where the content begins?
pub open spec fn starts_with(s: Seq<u8>, padding: Padding, p: Seq<u8>) -> bool {
    match_scene(s, padding, p, true, false).outcome(false).truth()
}

/// Does the pattern match where the content ends?  That is, does the reversed
/// pattern match where the reversed content begins?
pub open spec fn ends_with(s: Seq<u8>, padding: Padding, p: Seq<u8>) -> bool {
    starts_with(s.reverse(), flipped(padding), p.reverse())
}

/// Does the pattern match the whole content?
pub open spec fn equal(s: Seq<u8>, padding: Padding, p: Seq<u8>) -> bool {
    match_scene(s, padding, p, true, true).outcome(false).truth()
}

/// The raw index of the first match: one more than the content position where
/// it begins, or 0.
pub open spec fn raw_index(s: Seq<u8>, padding: Padding, p: Seq<u8>) -> u16 {
    match_scene(s, padding, p, false, false).outcome(true).index()
}

/// The index of the first match, counted in characters, or -1.
pub open spec fn find(s: Seq<u8>, padding: Padding, p: Seq<u8>) -> i16 {
    found_index(s, raw_index(s, padding, p), false)
}

/// The index of the last match, counted in characters, or -1.
pub open spec fn rfind(s: Seq<u8>, padding: Padding, p: Seq<u8>) -> i16 {
    last_index(
        wrap_u16(nonzeros(s, s.len() as int) as int),
        p.len() as int,
        find(s.reverse(), flipped(padding), p.reverse()),
    )
}

/// The last content position that a match of the pattern at the start takes,
/// as the strip operation computes it: the raw position where the first match
/// begins, and the length of the pattern less one.
pub open spec fn prefix_end(s: Seq<u8>, padding: Padding, p: Seq<u8>) -> i16 {
    wrap_i16(
        found_index(s, raw_index(s, padding, p), true) + wrap_i16(wrap_i16(p.len() as int) - 1),
    )
}

/// The first content position that a match of the pattern at the end takes,
/// as the strip operation computes it from the raw position of the first match
/// in the reversed content.
pub open spec fn suffix_start(s: Seq<u8>, padding: Padding, p: Seq<u8>) -> i16 {
    wrap_i16(
        wrap_i16(wrap_i16(s.len() as int) - wrap_i16(p.len() as int)) - found_index(
            s.reverse(),
            raw_index(s.reverse(), flipped(padding), p.reverse()),
            true,
        ),
    )
}

/// The content without the pattern at its start, if it starts with it.
pub open spec fn strip_prefix(s: Seq<u8>, padding: Padding, p: Seq<u8>) -> Seq<u8> {
    stripped(s, starts_with(s, padding, p), prefix_end(s, padding, p), true)
}

/// The content without the pattern at its end, if it ends with it.
pub open spec fn strip_suffix(s: Seq<u8>, padding: Padding, p: Seq<u8>) -> Seq<u8> {
    stripped(s, ends_with(s, padding, p), suffix_start(s, padding, p), false)
}

/// Are the two strings equal when letters are compared without case?
pub open spec fn equal_ignore_case(s: Seq<u8>, padding: Padding, p: Seq<u8>) -> bool {
    equal(lowercased(s), padding, lowercased(p))
}

} // verus!
