//! Laws of the string transforms, stated over the bytes that the strings
//! decrypt to and over their characters.
use crate::primitives::wrap_u16;
use crate::text::{
    all_blank, is_blank, is_whitespace, lower, lowercased, nonzeros, repeated, trimmed_end,
    trimmed_start, upper, uppercased, visible,
};
use vstd::prelude::*;

verus! {

/// The first `n` characters of `v` that are white space, counted from the
/// front: the length of the leading white space.
pub open spec fn leading_whitespace(v: Seq<u8>) -> nat
    decreases v.len(),
{
    if v.len() > 0 && is_whitespace(v[0]) {
        1 + leading_whitespace(v.skip(1))
    } else {
        0
    }
}

/// The length of the trailing white space of `v`.
pub open spec fn trailing_whitespace(v: Seq<u8>) -> nat
    decreases v.len(),
{
    if v.len() > 0 && is_whitespace(v.last()) {
        1 + trailing_whitespace(v.drop_last())
    } else {
        0
    }
}

/// The characters without the leading white space.
pub open spec fn clear_trim_start(v: Seq<u8>) -> Seq<u8> {
    v.skip(leading_whitespace(v) as int)
}

/// The characters without the trailing white space.
pub open spec fn clear_trim_end(v: Seq<u8>) -> Seq<u8> {
    v.take(v.len() - trailing_whitespace(v))
}

/// The characters repeated `n` times.
pub open spec fn clear_repeat(v: Seq<u8>, n: nat) -> Seq<u8>
    decreases n,
{
    if n == 0 {
        Seq::empty()
    } else {
        clear_repeat(v, (n - 1) as nat) + v
    }
}

// ---- the characters of a row of bytes ----
/// The characters of a row that begins with the byte `s[0]`: that byte, if it
/// is no padding, and the characters of the rest.
pub proof fn lemma_visible_front(s: Seq<u8>)
    requires
        s.len() > 0,
    ensures
        visible(s) == if s[0] != 0 {
            seq![s[0]] + visible(s.skip(1))
        } else {
            visible(s.skip(1))
        },
{
    let head = seq![s[0]];
    assert(s =~= head + s.skip(1));
    Seq::filter_distributes_over_add(head, s.skip(1), |b: u8| b != 0);
    reveal(Seq::filter);
    assert(head.drop_last() =~= Seq::<u8>::empty());
    assert(visible(Seq::<u8>::empty()) =~= Seq::<u8>::empty());
    if s[0] != 0 {
        assert(visible(head) =~= head);
    } else {
        assert(visible(head) =~= Seq::<u8>::empty());
        assert(Seq::<u8>::empty() + visible(s.skip(1)) =~= visible(s.skip(1)));
    }
}

/// The characters of a row with a last byte.
pub proof fn lemma_visible_back(s: Seq<u8>)
    requires
        s.len() > 0,
    ensures
        visible(s) == if s.last() != 0 {
            visible(s.drop_last()).push(s.last())
        } else {
            visible(s.drop_last())
        },
{
    reveal(Seq::filter);
}

/// The characters of two rows joined are the characters of both.
pub proof fn lemma_visible_add(a: Seq<u8>, b: Seq<u8>)
    ensures
        visible(a + b) == visible(a) + visible(b),
{
    Seq::filter_distributes_over_add(a, b, |x: u8| x != 0);
}

/// No character is padding.
pub proof fn lemma_visible_nonzero(s: Seq<u8>)
    ensures
        forall|i: int| 0 <= i < visible(s).len() ==> #[trigger] visible(s)[i] != 0,
        visible(s).len() <= s.len(),
{
    s.lemma_filter_len(|b: u8| b != 0);
    assert forall|i: int| 0 <= i < visible(s).len() implies #[trigger] visible(s)[i] != 0 by {
        s.lemma_filter_pred(|b: u8| b != 0, i);
    }
}

/// A row without padding is its own characters.
pub proof fn lemma_visible_all(s: Seq<u8>)
    requires
        forall|i: int| 0 <= i < s.len() ==> #[trigger] s[i] != 0,
    ensures
        visible(s) == s,
    decreases s.len(),
{
    if s.len() > 0 {
        lemma_visible_back(s);
        lemma_visible_all(s.drop_last());
        assert(s.drop_last().push(s.last()) =~= s);
    } else {
        reveal(Seq::filter);
    }
}

/// A row of padding has no characters.
pub proof fn lemma_visible_none(s: Seq<u8>)
    requires
        forall|i: int| 0 <= i < s.len() ==> #[trigger] s[i] == 0,
    ensures
        visible(s) == Seq::<u8>::empty(),
    decreases s.len(),
{
    if s.len() > 0 {
        lemma_visible_back(s);
        lemma_visible_none(s.drop_last());
    } else {
        reveal(Seq::filter);
        assert(visible(s) =~= Seq::<u8>::empty());
    }
}

/// The number of characters among the first `upto` bytes.
pub proof fn lemma_nonzeros_take(s: Seq<u8>, upto: int)
    requires
        0 <= upto <= s.len(),
    ensures
        nonzeros(s, upto) == visible(s.take(upto)).len(),
    decreases upto,
{
    if upto > 0 {
        lemma_nonzeros_take(s, upto - 1);
        let t = s.take(upto);
        lemma_visible_back(t);
        assert(t.drop_last() =~= s.take(upto - 1));
    } else {
        lemma_visible_none(s.take(0));
    }
}

/// What the encrypted length counts is the number of characters.
pub proof fn law_len_counts_characters(s: Seq<u8>)
    ensures
        nonzeros(s, s.len() as int) == visible(s).len(),
{
    lemma_nonzeros_take(s, s.len() as int);
    assert(s.take(s.len() as int) =~= s);
}

// ---- case folding ----
/// Turning a string into upper case twice is turning it once.
pub proof fn law_uppercase_idempotent(s: Seq<u8>)
    ensures
        uppercased(uppercased(s)) == uppercased(s),
{
    assert(uppercased(uppercased(s)) =~= uppercased(s));
}

/// Turning a string into lower case twice is turning it once.
pub proof fn law_lowercase_idempotent(s: Seq<u8>)
    ensures
        lowercased(lowercased(s)) == lowercased(s),
{
    assert(lowercased(lowercased(s)) =~= lowercased(s));
}

/// A transform that changes each byte by itself, keeps padding and makes no
/// new padding does to the characters what it does to the bytes.
proof fn lemma_visible_map(s: Seq<u8>, f: spec_fn(u8) -> u8)
    requires
        forall|b: u8| (#[trigger] f(b) == 0) == (b == 0),
    ensures
        visible(Seq::new(s.len(), |i: int| f(s[i]))) == Seq::new(
            visible(s).len(),
            |i: int| f(visible(s)[i]),
        ),
    decreases s.len(),
{
    let t = Seq::new(s.len(), |i: int| f(s[i]));
    let right = Seq::new(visible(s).len(), |i: int| f(visible(s)[i]));
    if s.len() > 0 {
        lemma_visible_back(s);
        lemma_visible_back(t);
        lemma_visible_map(s.drop_last(), f);
        assert(t.drop_last() =~= Seq::new(s.drop_last().len(), |i: int| f(s.drop_last()[i])));
        assert(visible(t) =~= right);
    } else {
        reveal(Seq::filter);
        assert(visible(t) =~= right);
    }
}

/// The characters of the upper-cased string are the upper-cased characters.
pub proof fn law_uppercase_sound(s: Seq<u8>)
    ensures
        visible(uppercased(s)) == uppercased(visible(s)),
{
    lemma_visible_map(s, |b: u8| upper(b));
    assert(uppercased(s) =~= Seq::new(s.len(), |i: int| (|b: u8| upper(b))(s[i])));
    assert(uppercased(visible(s)) =~= Seq::new(
        visible(s).len(),
        |i: int| (|b: u8| upper(b))(visible(s)[i]),
    ));
}

/// The characters of the lower-cased string are the lower-cased characters.
pub proof fn law_lowercase_sound(s: Seq<u8>)
    ensures
        visible(lowercased(s)) == lowercased(visible(s)),
{
    lemma_visible_map(s, |b: u8| lower(b));
    assert(lowercased(s) =~= Seq::new(s.len(), |i: int| (|b: u8| lower(b))(s[i])));
    assert(lowercased(visible(s)) =~= Seq::new(
        visible(s).len(),
        |i: int| (|b: u8| lower(b))(visible(s)[i]),
    ));
}

// ---- trimming ----
/// Trimming keeps which bytes are white space or padding.
proof fn lemma_trim_keeps_blanks(s: Seq<u8>)
    ensures
        forall|i: int| 0 <= i < s.len() ==> is_blank(#[trigger] trimmed_start(s)[i]) == is_blank(s[i]),
        forall|i: int| 0 <= i < s.len() ==> is_blank(#[trigger] trimmed_end(s)[i]) == is_blank(s[i]),
        forall|a: int, b: int|
            0 <= a <= b <= s.len() ==> #[trigger] all_blank(trimmed_start(s), a, b) == all_blank(
                s,
                a,
                b,
            ),
        forall|a: int, b: int|
            0 <= a <= b <= s.len() ==> #[trigger] all_blank(trimmed_end(s), a, b) == all_blank(
                s,
                a,
                b,
            ),
{
    assert forall|i: int| 0 <= i < s.len() implies is_blank(#[trigger] trimmed_start(s)[i])
        == is_blank(s[i]) by {
        if all_blank(s, 0, i + 1) {
            assert(is_blank(s[i]));
        }
    }
    assert forall|i: int| 0 <= i < s.len() implies is_blank(#[trigger] trimmed_end(s)[i])
        == is_blank(s[i]) by {
        if all_blank(s, i, s.len() as int) {
            assert(is_blank(s[i]));
        }
    }
    assert forall|a: int, b: int| 0 <= a <= b <= s.len() implies #[trigger] all_blank(
        trimmed_start(s),
        a,
        b,
    ) == all_blank(s, a, b) by {
        let t = trimmed_start(s);
        if all_blank(s, a, b) {
            assert forall|j: int| a <= j < b implies is_blank(#[trigger] t[j]) by {
                assert(is_blank(s[j]));
            }
        }
        if all_blank(t, a, b) {
            assert forall|j: int| a <= j < b implies is_blank(#[trigger] s[j]) by {
                assert(is_blank(t[j]));
            }
        }
    }
    assert forall|a: int, b: int| 0 <= a <= b <= s.len() implies #[trigger] all_blank(
        trimmed_end(s),
        a,
        b,
    ) == all_blank(s, a, b) by {
        let t = trimmed_end(s);
        if all_blank(s, a, b) {
            assert forall|j: int| a <= j < b implies is_blank(#[trigger] t[j]) by {
                assert(is_blank(s[j]));
            }
        }
        if all_blank(t, a, b) {
            assert forall|j: int| a <= j < b implies is_blank(#[trigger] s[j]) by {
                assert(is_blank(t[j]));
            }
        }
    }
}

/// Trimming at the start and then at the end is trimming at the end and then
/// at the start.
pub proof fn law_trim_sides_commute(s: Seq<u8>)
    ensures
        trimmed_end(trimmed_start(s)) == trimmed_start(trimmed_end(s)),
{
    lemma_trim_keeps_blanks(s);
    let a = trimmed_end(trimmed_start(s));
    let b = trimmed_start(trimmed_end(s));
    assert forall|i: int| 0 <= i < s.len() implies a[i] == b[i] by {
        assert(all_blank(trimmed_start(s), i, s.len() as int) == all_blank(s, i, s.len() as int));
        assert(all_blank(trimmed_end(s), 0, i + 1) == all_blank(s, 0, i + 1));
    }
    assert(a =~= b);
}

/// Trimming a trimmed string changes nothing.
pub proof fn law_trim_idempotent(s: Seq<u8>)
    ensures
        trimmed_start(trimmed_start(s)) == trimmed_start(s),
        trimmed_end(trimmed_end(s)) == trimmed_end(s),
        trimmed_end(trimmed_start(trimmed_end(trimmed_start(s)))) == trimmed_end(trimmed_start(s)),
{
    lemma_trim_keeps_blanks(s);
    let t1 = trimmed_start(s);
    let t2 = trimmed_end(s);
    assert forall|i: int| 0 <= i < s.len() implies trimmed_start(t1)[i] == t1[i] by {
        assert(all_blank(t1, 0, i + 1) == all_blank(s, 0, i + 1));
    }
    assert(trimmed_start(t1) =~= t1);
    assert forall|i: int| 0 <= i < s.len() implies trimmed_end(t2)[i] == t2[i] by {
        assert(all_blank(t2, i, s.len() as int) == all_blank(s, i, s.len() as int));
    }
    assert(trimmed_end(t2) =~= t2);
    let t = trimmed_end(t1);
    law_trim_sides_commute(t);
    lemma_trim_keeps_blanks(t1);
    // trimmed_end(trimmed_start(t)) == trimmed_start(trimmed_end(t)), and t is trimmed at
    // its end already
    assert forall|i: int| 0 <= i < s.len() implies trimmed_end(t)[i] == t[i] by {
        assert(all_blank(t, i, s.len() as int) == all_blank(t1, i, s.len() as int));
    }
    assert(trimmed_end(t) =~= t);
    assert forall|i: int| 0 <= i < s.len() implies trimmed_start(t)[i] == t[i] by {
        assert(all_blank(t, 0, i + 1) == all_blank(t1, 0, i + 1));
        assert(all_blank(t1, 0, i + 1) == all_blank(s, 0, i + 1));
    }
    assert(trimmed_start(t) =~= t);
}

// ---- length and concatenation ----
/// The number of characters of a concatenation is the sum of the numbers of
/// characters of its parts.
pub proof fn law_concat_len(a: Seq<u8>, b: Seq<u8>)
    ensures
        nonzeros(a + b, (a + b).len() as int) == nonzeros(a, a.len() as int) + nonzeros(
            b,
            b.len() as int,
        ),
        wrap_u16(nonzeros(a + b, (a + b).len() as int) as int) == wrap_u16(
            wrap_u16(nonzeros(a, a.len() as int) as int) + wrap_u16(
                nonzeros(b, b.len() as int) as int,
            ),
        ),
        visible(a + b) == visible(a) + visible(b),
{
    law_len_counts_characters(a + b);
    law_len_counts_characters(a);
    law_len_counts_characters(b);
    lemma_visible_add(a, b);
}

// ---- repetition ----
/// A string repeated zero times has no characters.
pub proof fn law_repeat_zero(s: Seq<u8>, max_n: int)
    requires
        0 <= max_n,
    ensures
        visible(repeated(s, 0, max_n)) == Seq::<u8>::empty(),
{
    let r = repeated(s, 0, max_n);
    assert forall|i: int| 0 <= i < r.len() implies #[trigger] r[i] == 0 by {
        let len = s.len() as int;
        assert(max_n * len >= 0) by (nonlinear_arith)
            requires
                max_n >= 0,
                len >= 0,
        ;
        if len > 0 {
            assert(i / len >= 0) by (nonlinear_arith)
                requires
                    i >= 0,
                    len > 0,
            ;
        } else {
            assert(max_n * len == 0) by (nonlinear_arith)
                requires
                    len == 0,
            ;
        }
    }
    lemma_visible_none(r);
}

// ---- the transforms and the characters ----
/// The white space at either side is no longer than the characters.
pub proof fn lemma_whitespace_bounds(v: Seq<u8>)
    ensures
        leading_whitespace(v) <= v.len(),
        trailing_whitespace(v) <= v.len(),
    decreases v.len(),
{
    if v.len() > 0 {
        lemma_whitespace_bounds(v.skip(1));
        lemma_whitespace_bounds(v.drop_last());
    }
}

/// The characters of the string trimmed at its start are the characters
/// without their leading white space.
pub proof fn law_trim_start_sound(s: Seq<u8>)
    ensures
        visible(trimmed_start(s)) == clear_trim_start(visible(s)),
    decreases s.len(),
{
    let t = trimmed_start(s);
    if s.len() == 0 {
        assert(t =~= s);
        lemma_visible_none(s);
        assert(clear_trim_start(visible(s)) =~= visible(s));
    } else {
        let rest = s.skip(1);
        lemma_visible_front(s);
        lemma_visible_front(t);
        if is_blank(s[0]) {
            assert(all_blank(s, 0, 1));
            assert forall|i: int| 0 <= i < rest.len() implies t.skip(1)[i] == trimmed_start(
                rest,
            )[i] by {
                if all_blank(s, 0, i + 2) {
                    assert forall|j: int| 0 <= j < i + 1 implies is_blank(#[trigger] rest[j]) by {
                        assert(is_blank(s[j + 1]));
                    }
                }
                if all_blank(rest, 0, i + 1) {
                    assert forall|j: int| 0 <= j < i + 2 implies is_blank(#[trigger] s[j]) by {
                        if j > 0 {
                            assert(is_blank(rest[j - 1]));
                        }
                    }
                }
            }
            assert(t.skip(1) =~= trimmed_start(rest));
            law_trim_start_sound(rest);
            if s[0] != 0 {
                let v = visible(s);
                assert(v[0] == s[0]);
                assert(v.skip(1) =~= visible(rest));
                lemma_whitespace_bounds(v.skip(1));
                assert(v.skip(1).skip(leading_whitespace(v.skip(1)) as int) =~= v.skip(
                    1 + leading_whitespace(v.skip(1)) as int,
                ));
            }
        } else {
            assert forall|i: int| 0 <= i < s.len() implies t[i] == s[i] by {
                if all_blank(s, 0, i + 1) {
                    assert(is_blank(s[0]));
                }
            }
            assert(t =~= s);
            let v = visible(s);
            assert(v[0] == s[0]);
            assert(leading_whitespace(v) == 0);
            assert(v.skip(0) =~= v);
        }
    }
}

/// The characters of the string trimmed at its end are the characters
/// without their trailing white space.
pub proof fn law_trim_end_sound(s: Seq<u8>)
    ensures
        visible(trimmed_end(s)) == clear_trim_end(visible(s)),
    decreases s.len(),
{
    let t = trimmed_end(s);
    let n = s.len() as int;
    if s.len() == 0 {
        assert(t =~= s);
        lemma_visible_none(s);
        assert(clear_trim_end(visible(s)) =~= visible(s));
    } else {
        let rest = s.drop_last();
        lemma_visible_back(s);
        lemma_visible_back(t);
        if is_blank(s.last()) {
            assert(all_blank(s, n - 1, n));
            assert forall|i: int| 0 <= i < rest.len() implies t.drop_last()[i] == trimmed_end(
                rest,
            )[i] by {
                if all_blank(s, i, n) {
                    assert forall|j: int| i <= j < n - 1 implies is_blank(#[trigger] rest[j]) by {
                        assert(is_blank(s[j]));
                    }
                }
                if all_blank(rest, i, n - 1) {
                    assert forall|j: int| i <= j < n implies is_blank(#[trigger] s[j]) by {
                        if j < n - 1 {
                            assert(is_blank(rest[j]));
                        }
                    }
                }
            }
            assert(t.drop_last() =~= trimmed_end(rest));
            law_trim_end_sound(rest);
            if s.last() != 0 {
                let v = visible(s);
                assert(v.last() == s.last());
                assert(v.drop_last() =~= visible(rest));
                let w = v.drop_last();
                lemma_whitespace_bounds(w);
                assert(w.take(w.len() - trailing_whitespace(w)) =~= v.take(
                    v.len() - (1 + trailing_whitespace(w)),
                ));
            }
        } else {
            assert forall|i: int| 0 <= i < s.len() implies t[i] == s[i] by {
                if all_blank(s, i, n) {
                    assert(is_blank(s[n - 1]));
                }
            }
            assert(t =~= s);
            let v = visible(s);
            assert(v.last() == s.last());
            assert(trailing_whitespace(v) == 0);
            assert(v.take(v.len() as int) =~= v);
        }
    }
}

/// The characters of the trimmed string are the characters without leading
/// and trailing white space.
pub proof fn law_trim_sound(s: Seq<u8>)
    ensures
        visible(trimmed_end(trimmed_start(s))) == clear_trim_end(clear_trim_start(visible(s))),
{
    law_trim_start_sound(s);
    law_trim_end_sound(trimmed_start(s));
}

/// The characters of the reversed string are the reversed characters.
pub proof fn law_reverse_sound(s: Seq<u8>)
    ensures
        visible(s.reverse()) == visible(s).reverse(),
    decreases s.len(),
{
    if s.len() == 0 {
        assert(s.reverse() =~= s);
        lemma_visible_none(s);
        assert(visible(s).reverse() =~= visible(s));
    } else {
        let r = s.reverse();
        let rest = s.drop_last();
        lemma_visible_back(s);
        lemma_visible_front(r);
        assert(r[0] == s.last());
        assert(r.skip(1) =~= rest.reverse());
        law_reverse_sound(rest);
        if s.last() != 0 {
            assert(visible(rest).push(s.last()).reverse() =~= seq![s.last()] + visible(
                rest,
            ).reverse());
        }
    }
}

/// The bytes of `max_n` copies are the bytes of `max_n - 1` copies and one
/// more copy, kept or turned into padding.
proof fn lemma_repeated_step(s: Seq<u8>, n: int, max_n: int)
    requires
        0 < max_n,
    ensures
        repeated(s, n, max_n) == repeated(s, n, max_n - 1) + if max_n - 1 < n {
            s
        } else {
            Seq::new(s.len(), |i: int| 0u8)
        },
{
    let len = s.len() as int;
    let last = if max_n - 1 < n {
        s
    } else {
        Seq::new(s.len(), |i: int| 0u8)
    };
    let left = repeated(s, n, max_n);
    let right = repeated(s, n, max_n - 1) + last;
    assert((max_n - 1) * len + len == max_n * len) by (nonlinear_arith);
    assert((max_n - 1) * len >= 0) by (nonlinear_arith)
        requires
            max_n >= 1,
            len >= 0,
    ;
    assert(left.len() == right.len());
    assert forall|i: int| 0 <= i < left.len() implies left[i] == right[i] by {
        if i >= (max_n - 1) * len {
            let j = i - (max_n - 1) * len;
            vstd::arithmetic::div_mod::lemma_fundamental_div_mod_converse(i, len, max_n - 1, j);
        }
    }
    assert(left =~= right);
}

/// The characters of the repeated string are the characters repeated, as
/// often as the encrypted number says and at most as often as its bound.
pub proof fn law_repeat_sound(s: Seq<u8>, n: int, max_n: int)
    requires
        0 <= n,
        0 <= max_n,
    ensures
        visible(repeated(s, n, max_n)) == clear_repeat(
            visible(s),
            (if n < max_n {
                n
            } else {
                max_n
            }) as nat,
        ),
    decreases max_n,
{
    if max_n == 0 {
        law_repeat_zero(s, 0);
        assert(0 * s.len() == 0) by (nonlinear_arith);
        assert(repeated(s, n, 0) =~= repeated(s, 0, 0));
    } else {
        lemma_repeated_step(s, n, max_n);
        law_repeat_sound(s, n, max_n - 1);
        let last = if max_n - 1 < n {
            s
        } else {
            Seq::new(s.len(), |i: int| 0u8)
        };
        lemma_visible_add(repeated(s, n, max_n - 1), last);
        if max_n - 1 >= n {
            lemma_visible_none(last);
            assert(visible(repeated(s, n, max_n - 1)) + Seq::<u8>::empty() =~= visible(
                repeated(s, n, max_n - 1),
            ));
        }
    }
}

/// Where a string has no padding before its first character, it is empty
/// exactly if its first byte is padding.
pub proof fn law_is_empty_sound(s: Seq<u8>)
    requires
        s.len() > 0 && s[0] == 0 ==> forall|i: int| 0 <= i < s.len() ==> #[trigger] s[i] == 0,
    ensures
        (s.len() == 0 || s[0] == 0) == (visible(s).len() == 0),
{
    if s.len() == 0 || s[0] == 0 {
        lemma_visible_none(s);
    } else {
        lemma_visible_front(s);
    }
}

} // verus!
