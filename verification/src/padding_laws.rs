//! The transforms keep the padding where the flags allow it.
//!
//! Each lemma here is about the clear bytes of a transform and the flags that
//! the transform gives its result; the transforms state them of their results.
use crate::ciphertext::Padding;
use crate::primitives::wrap_i16;
use crate::search_laws::{consistent, has_after, has_before, zero_allowed};
use crate::text::{
    all_blank, is_blank, lower, lowercased, repeated, stripped, trimmed_end, trimmed_start, upper,
    uppercased,
};
use vstd::arithmetic::div_mod::{
    lemma_div_is_ordered, lemma_fundamental_div_mod, lemma_fundamental_div_mod_converse,
    lemma_mod_bound,
};
use vstd::prelude::*;

verus! {

/// Does the row hold a character?
pub open spec fn has_character(s: Seq<u8>) -> bool {
    exists|j: int| 0 <= j < s.len() && #[trigger] s[j] != 0
}

/// Bytes whose zeros all stand at their end have their padding where the
/// `end` flag alone allows it.
pub proof fn lemma_zeros_at_end(s: Seq<u8>, padding: Padding)
    requires
        forall|i: int, j: int| 0 <= i < j < s.len() && s[i] == 0 ==> s[j] == 0,
        s.contains(0u8) ==> padding.end,
    ensures
        consistent(s, padding),
{
    assert forall|i: int| 0 <= i < s.len() && #[trigger] s[i] == 0 implies zero_allowed(
        s,
        padding,
        i,
    ) by {
        assert(s.contains(0u8));
        if has_after(s, i) {
            let j = choose|j: int| i < j < s.len() && #[trigger] s[j] != 0;
            assert(s[j] == 0);
        }
    }
}

/// Two rows with their zeros at the same positions have their padding where
/// the same flags allow it.
pub proof fn lemma_same_zeros(s: Seq<u8>, t: Seq<u8>, padding: Padding)
    requires
        consistent(s, padding),
        s.len() == t.len(),
        forall|i: int|
            #![trigger s[i]]
            #![trigger t[i]]
            0 <= i < s.len() ==> (s[i] == 0) == (t[i] == 0),
    ensures
        consistent(t, padding),
{
    assert forall|i: int| 0 <= i < t.len() && #[trigger] t[i] == 0 implies zero_allowed(
        t,
        padding,
        i,
    ) by {
        assert(s[i] == 0);
        assert(zero_allowed(s, padding, i));
        if has_before(s, i) {
            let j = choose|j: int| 0 <= j < i && #[trigger] s[j] != 0;
            assert(t[j] != 0);
        }
        if has_before(t, i) {
            let j = choose|j: int| 0 <= j < i && #[trigger] t[j] != 0;
            assert(s[j] != 0);
        }
        if has_after(s, i) {
            let j = choose|j: int| i < j < s.len() && #[trigger] s[j] != 0;
            assert(t[j] != 0);
        }
        if has_after(t, i) {
            let j = choose|j: int| i < j < t.len() && #[trigger] t[j] != 0;
            assert(s[j] != 0);
        }
    }
}

/// Case folding moves no padding.
pub proof fn lemma_cased(s: Seq<u8>, padding: Padding)
    requires
        consistent(s, padding),
    ensures
        consistent(uppercased(s), padding),
        consistent(lowercased(s), padding),
{
    assert forall|i: int| 0 <= i < s.len() implies (#[trigger] s[i] == 0) == (upper(s[i]) == 0)
        && (s[i] == 0) == (lower(s[i]) == 0) by {}
    lemma_same_zeros(s, uppercased(s), padding);
    lemma_same_zeros(s, lowercased(s), padding);
}

/// The reversed row has its padding where the flags allow it once `start`
/// and `end` are exchanged.
pub proof fn lemma_reversed(s: Seq<u8>, padding: Padding)
    requires
        consistent(s, padding),
    ensures
        consistent(
            s.reverse(),
            Padding { start: padding.end, middle: padding.middle, end: padding.start },
        ),
{
    let r = s.reverse();
    let flipped = Padding { start: padding.end, middle: padding.middle, end: padding.start };
    let n = s.len() as int;
    assert forall|i: int| 0 <= i < r.len() && #[trigger] r[i] == 0 implies zero_allowed(
        r,
        flipped,
        i,
    ) by {
        let k = n - 1 - i;
        assert(s[k] == 0);
        assert(zero_allowed(s, padding, k));
        if has_before(r, i) {
            let j = choose|j: int| 0 <= j < i && #[trigger] r[j] != 0;
            assert(s[n - 1 - j] != 0);
        }
        if has_after(s, k) {
            let j = choose|j: int| k < j < s.len() && #[trigger] s[j] != 0;
            assert(r[n - 1 - j] != 0);
        }
        if has_after(r, i) {
            let j = choose|j: int| i < j < r.len() && #[trigger] r[j] != 0;
            assert(s[n - 1 - j] != 0);
        }
        if has_before(s, k) {
            let j = choose|j: int| 0 <= j < k && #[trigger] s[j] != 0;
            assert(r[n - 1 - j] != 0);
        }
    }
}

/// The row trimmed at its start has its padding where the flags allow it
/// once `start` is set.
pub proof fn lemma_trimmed_start(s: Seq<u8>, padding: Padding)
    requires
        consistent(s, padding),
    ensures
        consistent(trimmed_start(s), Padding { start: true, ..padding }),
{
    let t = trimmed_start(s);
    let flags = Padding { start: true, ..padding };
    assert forall|i: int| 0 <= i < t.len() && #[trigger] t[i] == 0 implies zero_allowed(
        t,
        flags,
        i,
    ) by {
        if all_blank(s, 0, i + 1) {
            if has_before(t, i) {
                let j = choose|j: int| 0 <= j < i && #[trigger] t[j] != 0;
                assert(all_blank(s, 0, j + 1));
            }
        } else {
            let first = choose|j: int| 0 <= j < i + 1 && !is_blank(#[trigger] s[j]);
            assert(s[i] == 0);
            assert(!all_blank(s, 0, first + 1));
            assert(t[first] != 0);
            assert(has_before(t, i) && has_before(s, i));
            assert(zero_allowed(s, padding, i));
            if has_after(t, i) {
                let j = choose|j: int| i < j < t.len() && #[trigger] t[j] != 0;
                assert(s[j] != 0);
            }
            if has_after(s, i) {
                let j = choose|j: int| i < j < s.len() && #[trigger] s[j] != 0;
                assert(!all_blank(s, 0, j + 1));
                assert(t[j] != 0);
            }
        }
    }
}

/// The row trimmed at its end has its padding where the flags allow it once
/// `start` and `end` are set.
pub proof fn lemma_trimmed_end(s: Seq<u8>, padding: Padding)
    requires
        consistent(s, padding),
    ensures
        consistent(trimmed_end(s), Padding { start: true, middle: padding.middle, end: true }),
{
    let t = trimmed_end(s);
    let flags = Padding { start: true, middle: padding.middle, end: true };
    let n = s.len() as int;
    assert forall|i: int| 0 <= i < t.len() && #[trigger] t[i] == 0 implies zero_allowed(
        t,
        flags,
        i,
    ) by {
        if all_blank(s, i, n) {
            if has_after(t, i) {
                let j = choose|j: int| i < j < t.len() && #[trigger] t[j] != 0;
                assert(all_blank(s, j, n));
            }
        } else {
            let last = choose|j: int| i <= j < n && !is_blank(#[trigger] s[j]);
            assert(s[i] == 0);
            assert(!all_blank(s, last, n));
            assert(t[last] != 0);
            assert(has_after(t, i) && has_after(s, i));
            assert(zero_allowed(s, padding, i));
            if has_before(t, i) {
                let j = choose|j: int| 0 <= j < i && #[trigger] t[j] != 0;
                assert(s[j] != 0);
            }
            if has_before(s, i) {
                let j = choose|j: int| 0 <= j < i && #[trigger] s[j] != 0;
                assert(!all_blank(s, j, n));
                assert(t[j] != 0);
            }
        }
    }
}

/// The flags of a stripped row: `start` is set where a prefix was turned into
/// padding, `end` where a suffix was.
pub open spec fn stripped_flags(padding: Padding, is_prefix: bool) -> Padding {
    if is_prefix {
        Padding { start: true, ..padding }
    } else {
        Padding { end: true, ..padding }
    }
}

/// A stripped row has its padding where the flags allow it, as long as its
/// positions are sixteen-bit signed integers.
pub proof fn lemma_stripped(
    s: Seq<u8>,
    padding: Padding,
    found: bool,
    end_index: i16,
    is_prefix: bool,
)
    ensures
        consistent(s, padding) && s.len() <= i16::MAX ==> consistent(
            stripped(s, found, end_index, is_prefix),
            stripped_flags(padding, is_prefix),
        ),
{
    let t = stripped(s, found, end_index, is_prefix);
    let flags = stripped_flags(padding, is_prefix);
    assert forall|i: int|
        consistent(s, padding) && s.len() <= i16::MAX && 0 <= i < t.len() && #[trigger] t[i]
            == 0 implies zero_allowed(t, flags, i) by {
        assert forall|j: int| 0 <= j < s.len() implies #[trigger] wrap_i16(j) == j by {}
        let cleared = found && if is_prefix {
            end_index >= wrap_i16(i)
        } else {
            end_index <= wrap_i16(i)
        };
        if has_before(t, i) {
            let j = choose|j: int| 0 <= j < i && #[trigger] t[j] != 0;
            assert(wrap_i16(j) == j);
            assert(s[j] != 0);
        }
        if has_after(t, i) {
            let j = choose|j: int| i < j < t.len() && #[trigger] t[j] != 0;
            assert(wrap_i16(j) == j);
            assert(s[j] != 0);
        }
        if !cleared {
            assert(s[i] == 0);
            assert(zero_allowed(s, padding, i));
            if is_prefix && has_after(s, i) {
                let j = choose|j: int| i < j < s.len() && #[trigger] s[j] != 0;
                assert(wrap_i16(j) == j);
                assert(t[j] != 0);
            }
            if !is_prefix && has_before(s, i) {
                let j = choose|j: int| 0 <= j < i && #[trigger] s[j] != 0;
                assert(wrap_i16(j) == j);
                assert(t[j] != 0);
            }
        }
    }
}

/// The flags of a concatenation.
pub open spec fn joined_flags(left: Padding, right: Padding) -> Padding {
    Padding {
        start: left.start,
        middle: left.middle || left.end || right.start || right.middle,
        end: right.end,
    }
}

/// May the two rows be joined without padding ending up where the joined
/// flags do not allow it?  A left row without a character must carry the
/// `start` flag and a right row without a character the `end` flag: their
/// zeros lie at the start or at the end of the joined row.
pub open spec fn joinable(a: Seq<u8>, left: Padding, b: Seq<u8>, right: Padding) -> bool {
    (has_character(a) || left.start) && (has_character(b) || right.end)
}

/// The concatenation of two rows has its padding where the joined flags
/// allow it.
pub proof fn lemma_joined(a: Seq<u8>, left: Padding, b: Seq<u8>, right: Padding)
    requires
        consistent(a, left),
        consistent(b, right),
        joinable(a, left, b, right),
    ensures
        consistent(a + b, joined_flags(left, right)),
{
    let ab = a + b;
    let flags = joined_flags(left, right);
    let first = a.len() as int;
    if has_character(a) {
        let j = choose|j: int| 0 <= j < a.len() && #[trigger] a[j] != 0;
        assert(ab[j] != 0);
    }
    if has_character(b) {
        let j = choose|j: int| 0 <= j < b.len() && #[trigger] b[j] != 0;
        assert(ab[first + j] != 0);
    }
    assert forall|i: int| 0 <= i < ab.len() && #[trigger] ab[i] == 0 implies zero_allowed(
        ab,
        flags,
        i,
    ) by {
        if has_before(ab, i) {
            let j = choose|j: int| 0 <= j < i && #[trigger] ab[j] != 0;
            if j < first {
                assert(a[j] != 0);
            } else {
                assert(b[j - first] != 0);
            }
        }
        if has_after(ab, i) {
            let j = choose|j: int| i < j < ab.len() && #[trigger] ab[j] != 0;
            if j < first {
                assert(a[j] != 0);
            } else {
                assert(b[j - first] != 0);
            }
        }
        if i < first {
            assert(a[i] == 0);
            assert(zero_allowed(a, left, i));
            if has_before(a, i) {
                let j = choose|j: int| 0 <= j < i && #[trigger] a[j] != 0;
                assert(ab[j] != 0);
            }
            if has_after(a, i) {
                let j = choose|j: int| i < j < a.len() && #[trigger] a[j] != 0;
                assert(ab[j] != 0);
            }
        } else {
            let k = i - first;
            assert(b[k] == 0);
            assert(zero_allowed(b, right, k));
            if has_before(b, k) {
                let j = choose|j: int| 0 <= j < k && #[trigger] b[j] != 0;
                assert(ab[first + j] != 0);
            }
            if has_after(b, k) {
                let j = choose|j: int| k < j < b.len() && #[trigger] b[j] != 0;
                assert(ab[first + j] != 0);
            }
        }
    }
}

/// The byte at place `j` of copy `k` of a repetition of `s`.
proof fn lemma_copy_byte(s: Seq<u8>, n: int, max_n: int, k: int, j: int)
    requires
        0 <= k < max_n,
        0 <= j < s.len(),
    ensures
        0 <= k * s.len() + j < repeated(s, n, max_n).len(),
        repeated(s, n, max_n)[k * s.len() + j] == if k < n {
            s[j]
        } else {
            0u8
        },
{
    let len = s.len() as int;
    assert(0 <= k * len && k * len + len <= max_n * len) by (nonlinear_arith)
        requires
            0 <= k < max_n,
            0 < len,
    ;
    lemma_fundamental_div_mod_converse(k * len + j, len, k, j);
}

/// Where the byte at position `i` of a repetition of `s` comes from.
proof fn lemma_copy_of(s: Seq<u8>, n: int, max_n: int, i: int)
    requires
        0 <= max_n,
        0 <= i < repeated(s, n, max_n).len(),
    ensures
        s.len() > 0,
        0 <= i / (s.len() as int) < max_n,
        0 <= i % (s.len() as int) < s.len(),
        i == (i / (s.len() as int)) * s.len() + i % (s.len() as int),
{
    let len = s.len() as int;
    assert(len > 0) by (nonlinear_arith)
        requires
            0 <= i < max_n * len,
            0 <= len,
            0 <= max_n,
    ;
    lemma_fundamental_div_mod(i, len);
    lemma_mod_bound(i, len);
    let k = i / len;
    assert(0 <= k < max_n) by (nonlinear_arith)
        requires
            i == len * k + i % len,
            0 <= i % len < len,
            0 <= i < max_n * len,
    ;
    assert(len * k == k * len) by (nonlinear_arith);
}

/// A repetition has its padding where the flags `flags` allow it if these
/// keep `start`, grow `end` by the copies that may be dropped, and grow
/// `middle` by `start` and `end`, which a following or a preceding copy
/// turns into the middle.
pub proof fn lemma_repeated(s: Seq<u8>, padding: Padding, n: int, max_n: int, flags: Padding)
    requires
        consistent(s, padding),
        0 <= max_n,
        flags.start == padding.start,
        padding.middle ==> flags.middle,
        max_n > 0 && (padding.start || padding.end) ==> flags.middle,
        padding.end ==> flags.end,
        n < max_n ==> flags.end,
    ensures
        consistent(repeated(s, n, max_n), flags),
{
    let r = repeated(s, n, max_n);
    let len = s.len() as int;
    assert forall|i: int| 0 <= i < r.len() && #[trigger] r[i] == 0 implies zero_allowed(
        r,
        flags,
        i,
    ) by {
        lemma_copy_of(s, n, max_n, i);
        let k = i / len;
        let j = i % len;
        if k < n {
            assert(s[j] == 0);
            assert(zero_allowed(s, padding, j));
            if has_before(s, j) {
                let b = choose|b: int| 0 <= b < j && #[trigger] s[b] != 0;
                lemma_copy_byte(s, n, max_n, k, b);
                assert(r[k * len + b] != 0);
                assert(has_before(r, i));
            }
            if has_after(s, j) {
                let a = choose|a: int| j < a < s.len() && #[trigger] s[a] != 0;
                lemma_copy_byte(s, n, max_n, k, a);
                assert(r[k * len + a] != 0);
                assert(has_after(r, i));
            }
            if !has_before(s, j) && !has_after(s, j) {
                if has_before(r, i) {
                    let b = choose|b: int| 0 <= b < i && #[trigger] r[b] != 0;
                    lemma_copy_of(s, n, max_n, b);
                    assert(s[b % len] != 0);
                }
                if has_after(r, i) {
                    let a = choose|a: int| i < a < r.len() && #[trigger] r[a] != 0;
                    lemma_copy_of(s, n, max_n, a);
                    assert(s[a % len] != 0);
                }
            }
        } else {
            if has_after(r, i) {
                let a = choose|a: int| i < a < r.len() && #[trigger] r[a] != 0;
                lemma_copy_of(s, n, max_n, a);
                lemma_div_is_ordered(i, a, len);
            }
        }
    }
}

} // verus!
