//! Laws of the search operations: what they yield is what the same
//! operations yield on the characters of the content.
//!
//! The laws hold of contents whose padding is where the flags allow it
//! ([`consistent`]) and of patterns without zero bytes.
use crate::ciphertext::Padding;
use crate::primitives::{wrap_i16, wrap_u16};
use crate::search;
use crate::search::{flipped, match_scene};
use crate::semantics::{found_index, zeros_before, Scene};
use crate::text::{
    lowercased, nonzeros, repeated, stripped, trimmed_end, trimmed_start, uppercased, visible,
};
use crate::text_laws::{
    law_reverse_sound, lemma_nonzeros_take, lemma_visible_add, lemma_visible_all, lemma_visible_back,
    lemma_visible_front, lemma_visible_none, lemma_visible_nonzero,
};
use vstd::prelude::*;

verus! {

/// Is there a character before position `i`?
pub open spec fn has_before(s: Seq<u8>, i: int) -> bool {
    exists|j: int| 0 <= j < i && #[trigger] s[j] != 0
}

/// Is there a character after position `i`?
pub open spec fn has_after(s: Seq<u8>, i: int) -> bool {
    exists|j: int| i < j < s.len() && #[trigger] s[j] != 0
}

/// May the byte at `i` be zero under the flags?  Between two characters it
/// needs `middle`, before the first character `start`, after the last
/// character `end`, and in a string without characters `start` or `end`.
pub open spec fn zero_allowed(s: Seq<u8>, padding: Padding, i: int) -> bool {
    if has_before(s, i) {
        if has_after(s, i) {
            padding.middle
        } else {
            padding.end
        }
    } else {
        if has_after(s, i) {
            padding.start
        } else {
            padding.start || padding.end
        }
    }
}

/// The padding of the bytes is where the flags allow it.
pub open spec fn consistent(s: Seq<u8>, padding: Padding) -> bool {
    forall|i: int| 0 <= i < s.len() && #[trigger] s[i] == 0 ==> zero_allowed(s, padding, i)
}

/// No byte of the pattern is zero.
pub open spec fn unpadded(p: Seq<u8>) -> bool {
    forall|i: int| 0 <= i < p.len() ==> #[trigger] p[i] != 0
}

/// Do the characters `v` begin with `p`?
pub open spec fn is_prefix(p: Seq<u8>, v: Seq<u8>) -> bool {
    p.len() <= v.len() && v.take(p.len() as int) == p
}

/// Does `p` occur in the characters `v` at index `i`?
pub open spec fn occurs_at(v: Seq<u8>, p: Seq<u8>, i: int) -> bool {
    0 <= i && i + p.len() <= v.len() && v.subrange(i, i + p.len()) == p
}

/// Does `p` occur in the characters `v`?
pub open spec fn clear_contains(v: Seq<u8>, p: Seq<u8>) -> bool {
    exists|i: int| occurs_at(v, p, i)
}

/// Do the characters `v` begin with `p`?
pub open spec fn clear_starts_with(v: Seq<u8>, p: Seq<u8>) -> bool {
    occurs_at(v, p, 0)
}

/// Do the characters `v` end with `p`?
pub open spec fn clear_ends_with(v: Seq<u8>, p: Seq<u8>) -> bool {
    occurs_at(v, p, v.len() - p.len())
}

/// Is `i` the index of the first occurrence of `p` in `v`?
pub open spec fn is_first_occurrence(v: Seq<u8>, p: Seq<u8>, i: int) -> bool {
    occurs_at(v, p, i) && forall|j: int| 0 <= j < i ==> !occurs_at(v, p, j)
}

/// Is `i` the index of the last occurrence of `p` in `v`?
pub open spec fn is_last_occurrence(v: Seq<u8>, p: Seq<u8>, i: int) -> bool {
    occurs_at(v, p, i) && forall|j: int| i < j ==> !occurs_at(v, p, j)
}

/// The characters without `p` at their start, if they start with it.
pub open spec fn clear_strip_prefix(v: Seq<u8>, p: Seq<u8>) -> Seq<u8> {
    if clear_starts_with(v, p) {
        v.skip(p.len() as int)
    } else {
        v
    }
}

/// The characters without `p` at their end, if they end with it.
pub open spec fn clear_strip_suffix(v: Seq<u8>, p: Seq<u8>) -> Seq<u8> {
    if clear_ends_with(v, p) {
        v.take(v.len() - p.len())
    } else {
        v
    }
}

// ---- characters and positions ----
/// The characters from position `c` on: the byte at `c`, if it is no padding,
/// and the characters from `c + 1` on.
proof fn lemma_visible_skip(s: Seq<u8>, c: int)
    requires
        0 <= c < s.len(),
    ensures
        visible(s.skip(c)) == if s[c] != 0 {
            seq![s[c]] + visible(s.skip(c + 1))
        } else {
            visible(s.skip(c + 1))
        },
{
    lemma_visible_front(s.skip(c));
    assert(s.skip(c).skip(1) =~= s.skip(c + 1));
}

/// The characters are those before position `c` and those from `c` on.
proof fn lemma_visible_split(s: Seq<u8>, c: int)
    requires
        0 <= c <= s.len(),
    ensures
        visible(s) == visible(s.take(c)) + visible(s.skip(c)),
        visible(s.take(c)).len() == nonzeros(s, c),
{
    assert(s =~= s.take(c) + s.skip(c));
    lemma_visible_add(s.take(c), s.skip(c));
    lemma_nonzeros_take(s, c);
}

/// Where there are characters there is a byte that is no padding.
proof fn lemma_visible_witness(s: Seq<u8>) -> (i: int)
    requires
        visible(s).len() > 0,
    ensures
        0 <= i < s.len(),
        s[i] != 0,
{
    if forall|i: int| 0 <= i < s.len() ==> #[trigger] s[i] == 0 {
        lemma_visible_none(s);
        0
    } else {
        choose|i: int| 0 <= i < s.len() && #[trigger] s[i] != 0
    }
}

proof fn lemma_prefix_cons(x: u8, a: Seq<u8>, b: Seq<u8>)
    requires
        is_prefix(a, b),
    ensures
        is_prefix(seq![x] + a, seq![x] + b),
{
    let left = seq![x] + a;
    let right = seq![x] + b;
    assert(right.take(left.len() as int) =~= left) by {
        assert forall|i: int| 0 <= i < left.len() implies right.take(left.len() as int)[i]
            == left[i] by {
            if i > 0 {
                assert(b.take(a.len() as int)[i - 1] == a[i - 1]);
            }
        }
    }
}

proof fn lemma_prefix_uncons(a: Seq<u8>, b: Seq<u8>)
    requires
        is_prefix(a, b),
        a.len() > 0,
    ensures
        b[0] == a[0],
        is_prefix(a.skip(1), b.skip(1)),
{
    assert(b.take(a.len() as int)[0] == a[0]);
    assert(b.skip(1).take(a.len() - 1) =~= a.skip(1)) by {
        assert forall|i: int| 0 <= i < a.len() - 1 implies b.skip(1).take(a.len() - 1)[i]
            == a.skip(1)[i] by {
            assert(b.take(a.len() as int)[i + 1] == a[i + 1]);
        }
    }
}

impl Scene {
    /// A match from `(c, p)` on passes the rest of the pattern on the
    /// characters from `c` on: it consumes padding and the bytes of the
    /// pattern, nothing else.
    pub proof fn lemma_match_is_prefix(self, c: int, p: int)
        requires
            self.wf(),
            unpadded(self.pattern),
            self.pm(c, p),
        ensures
            is_prefix(self.pattern.skip(p), visible(self.content.skip(c))),
        decreases self.shape.n - c,
    {
        let s = self.content;
        let pat = self.pattern;
        lemma_visible_skip(s, c);
        assert(pat.skip(p) =~= seq![pat[p]] + pat.skip(p + 1));
        if self.byte_step(c, p, self.pm(c + 1, p + 1)) {
            if p + 1 < self.shape.m {
                self.lemma_match_is_prefix(c + 1, p + 1);
                lemma_prefix_cons(s[c], pat.skip(p + 1), visible(s.skip(c + 1)));
            } else {
                assert(pat.skip(p + 1) =~= Seq::<u8>::empty());
                let rest = visible(s.skip(c + 1));
                assert(is_prefix(pat.skip(p + 1), rest)) by {
                    assert(rest.take(0) =~= Seq::<u8>::empty());
                }
                lemma_prefix_cons(s[c], pat.skip(p + 1), rest);
            }
        } else {
            self.lemma_match_is_prefix(c + 1, p);
        }
    }

    /// Under both the end anchor and the `end` flag, a match from `(c, p)` on
    /// passes all characters from `c` on.
    pub proof fn lemma_match_is_exact(self, c: int, p: int)
        requires
            self.wf(),
            unpadded(self.pattern),
            self.shape.eof,
            self.shape.padding.end,
            self.pm(c, p),
        ensures
            visible(self.content.skip(c)) == self.pattern.skip(p),
        decreases self.shape.n - c,
    {
        let s = self.content;
        let pat = self.pattern;
        let n = self.shape.n as int;
        lemma_visible_skip(s, c);
        assert(pat.skip(p) =~= seq![pat[p]] + pat.skip(p + 1));
        if self.byte_step(c, p, self.pm(c + 1, p + 1)) {
            if p + 1 < self.shape.m {
                self.lemma_match_is_exact(c + 1, p + 1);
            } else {
                assert(pat.skip(p + 1) =~= Seq::<u8>::empty());
                let rest = s.skip(c + 1);
                assert forall|i: int| 0 <= i < rest.len() implies #[trigger] rest[i] == 0 by {
                    assert(self.shape.zero_suffixed(c, p));
                    assert(s[c + 1 + i] == 0);
                }
                lemma_visible_none(rest);
            }
        } else {
            self.lemma_match_is_exact(c + 1, p);
        }
    }
}

/// A zero between two characters stands only under the `middle` flag.
pub open spec fn middle_consistent(s: Seq<u8>, padding: Padding) -> bool {
    forall|i: int|
        0 <= i < s.len() && #[trigger] s[i] == 0 && has_before(s, i) && has_after(s, i)
            ==> padding.middle
}

/// The position of the character with index `k`.
pub open spec fn position_of(s: Seq<u8>, k: int) -> int
    decreases s.len(),
{
    if s.len() == 0 {
        0
    } else if s[0] != 0 {
        if k <= 0 {
            0
        } else {
            1 + position_of(s.skip(1), k - 1)
        }
    } else {
        1 + position_of(s.skip(1), k)
    }
}

/// The character with index `k` stands at `position_of(s, k)`: `k` characters
/// stand before that position, and the characters from there on are the
/// characters from index `k` on.
pub proof fn lemma_position_of(s: Seq<u8>, k: int)
    requires
        0 <= k < visible(s).len(),
    ensures
        0 <= position_of(s, k) < s.len(),
        s[position_of(s, k)] != 0,
        nonzeros(s, position_of(s, k)) == k,
        visible(s.skip(position_of(s, k))) == visible(s).skip(k),
    decreases s.len(),
{
    if s.len() == 0 {
        lemma_visible_none(s);
    } else {
        let rest = s.skip(1);
        lemma_visible_front(s);
        let c = position_of(s, k);
        if s[0] != 0 && k == 0 {
            assert(s.skip(0) =~= s);
            assert(visible(s).skip(0) =~= visible(s));
        } else {
            let k2 = if s[0] != 0 {
                k - 1
            } else {
                k
            };
            if s[0] != 0 {
                assert(visible(s).skip(1) =~= visible(rest));
            }
            lemma_position_of(rest, k2);
            let c2 = position_of(rest, k2);
            assert(c == c2 + 1);
            assert(s.skip(c) =~= rest.skip(c2));
            if s[0] != 0 {
                assert(visible(s).skip(1).skip(k - 1) =~= visible(s).skip(k));
            }
            lemma_visible_split(s, c);
            lemma_visible_split(rest, c2);
            assert(s.take(c) =~= seq![s[0]] + rest.take(c2));
            lemma_visible_add(seq![s[0]], rest.take(c2));
            lemma_visible_front(seq![s[0]]);
            assert(seq![s[0]].skip(1) =~= Seq::<u8>::empty());
            lemma_visible_none(Seq::<u8>::empty());
        }
    }
}

/// Only padding stands before the first character.
pub proof fn lemma_first_position(s: Seq<u8>)
    ensures
        forall|j: int| 0 <= j < position_of(s, 0) && j < s.len() ==> #[trigger] s[j] == 0,
    decreases s.len(),
{
    if s.len() > 0 && s[0] == 0 {
        let rest = s.skip(1);
        lemma_first_position(rest);
        assert forall|j: int| 0 <= j < position_of(s, 0) && j < s.len() implies #[trigger] s[j]
            == 0 by {
            if j > 0 {
                assert(rest[j - 1] == 0);
            }
        }
    }
}

impl Scene {
    /// Where the rest of the pattern begins the characters from `c` on, there
    /// is a match from `(c, p)` on, provided that the padding passed on the
    /// way is allowed: before the first pattern byte the match stands at a
    /// character, with only padding before it where the start anchor demands
    /// that; later a character stands before `c`; and under the end anchor
    /// and the `end` flag the pattern is all that is left.
    pub proof fn lemma_prefix_gives_match(self, c: int, p: int)
        requires
            self.wf(),
            unpadded(self.pattern),
            middle_consistent(self.content, self.shape.padding),
            0 <= c < self.shape.n,
            0 <= p < self.shape.m,
            is_prefix(self.pattern.skip(p), visible(self.content.skip(c))),
            self.shape.eof && self.shape.padding.end ==> visible(self.content.skip(c))
                == self.pattern.skip(p),
            p == 0 ==> self.content[c] != 0 && (self.shape.zero_prefixed(c, 0) ==> self.zeros(
                0,
                c,
            )),
            p > 0 ==> has_before(self.content, c),
        ensures
            self.pm(c, p),
        decreases self.shape.n - c,
    {
        let s = self.content;
        let pat = self.pattern;
        let n = self.shape.n as int;
        let m = self.shape.m as int;
        lemma_visible_skip(s, c);
        lemma_visible_nonzero(s.skip(c));
        lemma_visible_nonzero(s.skip(c + 1));
        let rest = visible(s.skip(c + 1));
        assert(self.shape.in_range(c, p));
        if s[c] != 0 {
            lemma_prefix_uncons(pat.skip(p), visible(s.skip(c)));
            assert(pat.skip(p).skip(1) =~= pat.skip(p + 1));
            assert(visible(s.skip(c)).skip(1) =~= rest);
            if self.shape.eof && self.shape.padding.end {
                assert(rest =~= pat.skip(p + 1));
            }
            if p + 1 < m {
                assert(has_before(s, c + 1)) by {
                    assert(s[c] != 0);
                }
                self.lemma_prefix_gives_match(c + 1, p + 1);
            }
            if self.shape.zero_suffixed(c, p) {
                assert(rest.len() == 0);
                assert forall|i: int| c + 1 <= i < n implies self.content[i] == 0 by {
                    if s[i] != 0 {
                        assert(s.skip(c + 1)[i - c - 1] != 0);
                        lemma_visible_some(s.skip(c + 1));
                    }
                }
                assert(self.zeros(c + 1, n));
            }
            assert(s[c] == pat[p]) by {
                assert(pat.skip(p)[0] == pat[p]);
                assert((seq![s[c]] + rest)[0] == s[c]);
            }
            assert(self.byte_step(c, p, self.pm(c + 1, p + 1)));
        } else {
            assert(p > 0);
            let i = lemma_visible_witness(s.skip(c + 1));
            assert(s[c + 1 + i] != 0);
            assert(has_after(s, c));
            assert(self.shape.padding.middle);
            assert(has_before(s, c + 1)) by {
                let j = choose|j: int| 0 <= j < c && #[trigger] s[j] != 0;
                assert(s[j] != 0);
            }
            self.lemma_prefix_gives_match(c + 1, p);
        }
    }
}

/// A row with a byte that is no padding has a character.
proof fn lemma_visible_some(s: Seq<u8>)
    requires
        exists|i: int| 0 <= i < s.len() && #[trigger] s[i] != 0,
    ensures
        visible(s).len() > 0,
    decreases s.len(),
{
    if s.len() > 0 {
        lemma_visible_back(s);
        if s.last() == 0 {
            let i = choose|i: int| 0 <= i < s.len() && #[trigger] s[i] != 0;
            assert(s.drop_last()[i] != 0);
            lemma_visible_some(s.drop_last());
        }
    }
}

/// The inputs of which the laws speak: a content and a pattern of lengths that
/// a machine can hold, a pattern of at least one byte and without zero byte.
pub open spec fn searchable(s: Seq<u8>, p: Seq<u8>) -> bool {
    &&& s.len() <= usize::MAX
    &&& 1 <= p.len() <= usize::MAX
    &&& unpadded(p)
}

proof fn lemma_consistent_middle(s: Seq<u8>, padding: Padding)
    requires
        consistent(s, padding),
    ensures
        middle_consistent(s, padding),
{
    assert forall|i: int|
        0 <= i < s.len() && #[trigger] s[i] == 0 && has_before(s, i) && has_after(
            s,
            i,
        ) implies padding.middle by {
        assert(zero_allowed(s, padding, i));
    }
}

/// A string whose flags allow no padding has none.
proof fn lemma_consistent_unflagged(s: Seq<u8>, padding: Padding)
    requires
        consistent(s, padding),
        !padding.any(),
    ensures
        forall|i: int| 0 <= i < s.len() ==> #[trigger] s[i] != 0,
        visible(s) == s,
{
    assert forall|i: int| 0 <= i < s.len() implies #[trigger] s[i] != 0 by {
        if s[i] == 0 {
            assert(zero_allowed(s, padding, i));
        }
    }
    lemma_visible_all(s);
}

impl Scene {
    /// A match from a position behind leading padding is a match from the
    /// first position, where the flags allow padding at the start.
    proof fn lemma_leading_zeros(self, c: int)
        requires
            self.wf(),
            self.pm(c, 0),
            self.zeros(0, c),
            c > 0 ==> self.shape.padding.start,
        ensures
            self.pm(0, 0),
        decreases c,
    {
        if c > 0 {
            assert(self.shape.in_range(c, 0));
            assert(self.content[c - 1] == 0);
            assert(self.shape.can_consume_zero(c - 1, 0));
            assert(self.pm(c - 1, 0));
            self.lemma_leading_zeros(c - 1);
        }
    }

    /// Where the pattern begins the characters, there is a match from the
    /// first position on.
    proof fn lemma_prefix_gives_anchored_match(self)
        requires
            self.wf(),
            self.shape.m >= 1,
            unpadded(self.pattern),
            consistent(self.content, self.shape.padding),
            is_prefix(self.pattern, visible(self.content)),
            self.shape.eof && self.shape.padding.end ==> visible(self.content) == self.pattern,
        ensures
            self.pm(0, 0),
    {
        let s = self.content;
        let c = position_of(s, 0);
        lemma_consistent_middle(s, self.shape.padding);
        lemma_position_of(s, 0);
        lemma_first_position(s);
        assert(visible(s).skip(0) =~= visible(s));
        assert(self.pattern.skip(0) =~= self.pattern);
        assert(self.zeros(0, c));
        self.lemma_prefix_gives_match(c, 0);
        if c > 0 {
            assert(s[0] == 0);
            assert(!has_before(s, 0));
            assert(has_after(s, 0)) by {
                assert(s[c] != 0);
            }
            assert(zero_allowed(s, self.shape.padding, 0));
        }
        self.lemma_leading_zeros(c);
    }
}

proof fn lemma_prefix_occurs(v: Seq<u8>, p: Seq<u8>)
    ensures
        is_prefix(p, v) == occurs_at(v, p, 0),
{
    if p.len() <= v.len() {
        assert(v.take(p.len() as int) =~= v.subrange(0, 0 + p.len() as int));
    }
}

/// Where padding stands between characters only under the `middle` flag, the
/// pattern occurs in the content exactly if it occurs in the characters of the
/// content.
pub proof fn law_contains_sound(s: Seq<u8>, padding: Padding, p: Seq<u8>)
    requires
        searchable(s, p),
        middle_consistent(s, padding),
    ensures
        search::contains(s, padding, p) == clear_contains(visible(s), p),
{
    let scene = match_scene(s, padding, p, false, false);
    let v = visible(s);
    let m = p.len() as int;
    lemma_visible_nonzero(s);
    if search::contains(s, padding, p) {
        let c = choose|c: int| 0 <= c <= scene.shape.max_start() && #[trigger] scene.pm(c, 0);
        scene.lemma_match_is_prefix(c, 0);
        assert(p.skip(0) =~= p);
        lemma_visible_split(s, c);
        let k = nonzeros(s, c) as int;
        let tail = visible(s.skip(c));
        assert(v.subrange(k, k + m) =~= tail.take(m));
        assert(occurs_at(v, p, k));
    }
    if clear_contains(v, p) {
        let k = choose|k: int| occurs_at(v, p, k);
        lemma_position_of(s, k);
        let c = position_of(s, k);
        assert(v.skip(k).take(m) =~= v.subrange(k, k + m));
        assert(p.skip(0) =~= p);
        scene.lemma_prefix_gives_match(c, 0);
        assert(scene.shape.in_range(c, 0));
        assert(scene.any_match());
    }
}

/// The content starts with the pattern exactly if its characters do.
pub proof fn law_starts_with_sound(s: Seq<u8>, padding: Padding, p: Seq<u8>)
    requires
        searchable(s, p),
        consistent(s, padding),
    ensures
        search::starts_with(s, padding, p) == clear_starts_with(visible(s), p),
{
    let scene = match_scene(s, padding, p, true, false);
    let v = visible(s);
    lemma_visible_nonzero(s);
    lemma_prefix_occurs(v, p);
    if search::starts_with(s, padding, p) {
        let c = choose|c: int| 0 <= c <= scene.shape.max_start() && #[trigger] scene.pm(c, 0);
        scene.lemma_match_is_prefix(0, 0);
        assert(p.skip(0) =~= p);
        assert(s.skip(0) =~= s);
    }
    if clear_starts_with(v, p) {
        scene.lemma_prefix_gives_anchored_match();
        assert(scene.any_match());
    }
}

/// The content is equal to the pattern exactly if its characters are, where
/// the content may end in padding or holds no padding at all.
pub proof fn law_equal_sound(s: Seq<u8>, padding: Padding, p: Seq<u8>)
    requires
        searchable(s, p),
        consistent(s, padding),
        padding.end || !padding.any(),
    ensures
        search::equal(s, padding, p) == (visible(s) == p),
{
    let scene = match_scene(s, padding, p, true, true);
    let v = visible(s);
    lemma_visible_nonzero(s);
    assert(p.skip(0) =~= p);
    assert(s.skip(0) =~= s);
    if search::equal(s, padding, p) {
        let c = choose|c: int| 0 <= c <= scene.shape.max_start() && #[trigger] scene.pm(c, 0);
        if padding.end {
            scene.lemma_match_is_exact(0, 0);
        } else {
            lemma_consistent_unflagged(s, padding);
            scene.lemma_match_is_prefix(0, 0);
            assert(v.take(p.len() as int) =~= v);
        }
    }
    if v == p {
        if !padding.end {
            lemma_consistent_unflagged(s, padding);
        }
        assert(v.take(p.len() as int) =~= v);
        scene.lemma_prefix_gives_anchored_match();
        assert(scene.any_match());
    }
}

// ---- reversal ----
/// An occurrence in the characters is an occurrence of the reversed pattern
/// in the reversed characters, counted from the other end.
pub proof fn lemma_occurs_reverse(v: Seq<u8>, p: Seq<u8>, i: int)
    ensures
        occurs_at(v, p, i) == occurs_at(v.reverse(), p.reverse(), v.len() - p.len() - i),
{
    let n = v.len() as int;
    let m = p.len() as int;
    let j = n - m - i;
    let r = v.reverse();
    let q = p.reverse();
    if 0 <= i && i + m <= n {
        if occurs_at(v, p, i) {
            assert forall|k: int| 0 <= k < m implies r.subrange(j, j + m)[k] == q[k] by {
                assert(v.subrange(i, i + m)[m - 1 - k] == p[m - 1 - k]);
            }
            assert(r.subrange(j, j + m) =~= q);
        }
        if occurs_at(r, q, j) {
            assert forall|k: int| 0 <= k < m implies v.subrange(i, i + m)[k] == p[k] by {
                assert(r.subrange(j, j + m)[m - 1 - k] == q[m - 1 - k]);
            }
            assert(v.subrange(i, i + m) =~= p);
        }
    }
}

/// The reversed string is consistent with the flipped flags.
pub proof fn lemma_consistent_reverse(s: Seq<u8>, padding: Padding)
    requires
        consistent(s, padding),
    ensures
        consistent(s.reverse(), flipped(padding)),
{
    let r = s.reverse();
    let n = s.len() as int;
    assert forall|i: int| 0 <= i < r.len() && #[trigger] r[i] == 0 implies zero_allowed(
        r,
        flipped(padding),
        i,
    ) by {
        let o = n - 1 - i;
        assert(s[o] == 0);
        assert(zero_allowed(s, padding, o));
        if has_before(r, i) {
            let j = choose|j: int| 0 <= j < i && #[trigger] r[j] != 0;
            assert(s[n - 1 - j] != 0);
            assert(has_after(s, o));
        }
        if has_after(s, o) {
            let j = choose|j: int| o < j < s.len() && #[trigger] s[j] != 0;
            assert(r[n - 1 - j] != 0);
            assert(has_before(r, i));
        }
        if has_after(r, i) {
            let j = choose|j: int| i < j < r.len() && #[trigger] r[j] != 0;
            assert(s[n - 1 - j] != 0);
            assert(has_before(s, o));
        }
        if has_before(s, o) {
            let j = choose|j: int| 0 <= j < o && #[trigger] s[j] != 0;
            assert(r[n - 1 - j] != 0);
            assert(has_after(r, i));
        }
    }
}

/// The content ends with the pattern exactly if its characters do.
pub proof fn law_ends_with_sound(s: Seq<u8>, padding: Padding, p: Seq<u8>)
    requires
        searchable(s, p),
        consistent(s, padding),
    ensures
        search::ends_with(s, padding, p) == clear_ends_with(visible(s), p),
{
    lemma_consistent_reverse(s, padding);
    assert(unpadded(p.reverse()));
    law_starts_with_sound(s.reverse(), flipped(padding), p.reverse());
    law_reverse_sound(s);
    let v = visible(s);
    lemma_occurs_reverse(v, p, v.len() - p.len());
}

/// Whether the content ends with the pattern is whether the reversed content
/// starts with the reversed pattern.
pub proof fn law_reverse_symmetry(s: Seq<u8>, padding: Padding, p: Seq<u8>)
    ensures
        search::ends_with(s, padding, p) == search::starts_with(
            s.reverse(),
            flipped(padding),
            p.reverse(),
        ),
{
}

// ---- indices ----
/// The number of characters before a position grows with the position.
pub proof fn lemma_nonzeros_monotone(s: Seq<u8>, a: int, b: int)
    requires
        a <= b,
    ensures
        nonzeros(s, a) <= nonzeros(s, b),
        nonzeros(s, b) - nonzeros(s, a) <= b - a || b <= 0,
    decreases b - a,
{
    if a < b {
        lemma_nonzeros_monotone(s, a, b - 1);
    }
}

/// In a content that sixteen signed bits can index, the padding zeros counted
/// before a raw index are the bytes before it that are no characters.
proof fn lemma_zeros_before(s: Seq<u8>, raw: u16, upto: int)
    requires
        s.len() <= i16::MAX,
        0 <= upto <= s.len(),
    ensures
        zeros_before(s, raw, upto) == (if upto < raw {
            upto
        } else {
            raw as int
        }) - nonzeros(
            s,
            if upto < raw {
                upto
            } else {
                raw as int
            },
        ),
    decreases upto,
{
    if upto > 0 {
        lemma_zeros_before(s, raw, upto - 1);
        lemma_nonzeros_monotone(s, 0, upto - 1);
        assert(wrap_u16(upto - 1) == upto - 1);
        if upto - 1 >= raw {
            lemma_nonzeros_monotone(s, 0, raw as int);
        }
    }
}

impl Scene {
    /// Does a match begin at the content position `c`, at a character?
    pub open spec fn is_hit(self, c: int) -> bool {
        self.pm(c, 0) && self.content[c] != 0
    }

    /// What the first raw index says: the first hit from `c` on, or that
    /// there is none.  Returned is the content position of that hit, or -1.
    proof fn lemma_first_index(self, c: int) -> (hit: int)
        requires
            self.wf(),
            self.shape.n <= i16::MAX,
            0 <= c,
        ensures
            hit == -1 ==> self.first_index_from(c) == 0 && forall|d: int|
                c <= d <= self.shape.max_start() ==> !self.is_hit(d),
            hit != -1 ==> c <= hit <= self.shape.max_start() && self.is_hit(hit)
                && self.first_index_from(c) == hit + 1 && forall|d: int|
                c <= d < hit ==> !self.is_hit(d),
        decreases self.shape.max_start() - c + 1,
    {
        if c > self.shape.max_start() {
            -1
        } else {
            if self.pm(c, 0) {
                assert(self.shape.in_range(c, 0));
            }
            assert(self.is_hit(c) ==> wrap_u16(c + 1) == c + 1);
            if self.index_at(c, 0) != 0 {
                c
            } else {
                self.lemma_first_index(c + 1)
            }
        }
    }

    /// A start position at a character is a hit exactly if the pattern
    /// occurs in the characters at the index of that character.
    proof fn lemma_hit_is_occurrence(self, c: int)
        requires
            self.wf(),
            self.shape.m >= 1,
            unpadded(self.pattern),
            middle_consistent(self.content, self.shape.padding),
            !self.shape.sof,
            !self.shape.eof,
            0 <= c < self.shape.n,
            self.content[c] != 0,
        ensures
            self.pm(c, 0) == occurs_at(
                visible(self.content),
                self.pattern,
                nonzeros(self.content, c) as int,
            ),
    {
        let s = self.content;
        let p = self.pattern;
        let v = visible(s);
        let m = p.len() as int;
        let k = nonzeros(s, c) as int;
        let tail = visible(s.skip(c));
        lemma_visible_split(s, c);
        assert(p.skip(0) =~= p);
        if self.pm(c, 0) {
            self.lemma_match_is_prefix(c, 0);
            assert(v.subrange(k, k + m) =~= tail.take(m));
        }
        if occurs_at(v, p, k) {
            assert(tail.take(m) =~= v.subrange(k, k + m));
            self.lemma_prefix_gives_match(c, 0);
        }
    }
}

/// Where the first hit of a search stands at the content position `hit`, the
/// search returns the index of the character at `hit`; where there is no hit,
/// it returns -1.
proof fn lemma_found_index(s: Seq<u8>, hit: int, keep_raw: bool)
    requires
        s.len() <= i16::MAX,
        -1 <= hit < s.len(),
        hit >= 0 ==> s[hit] != 0,
    ensures
        found_index(s, (hit + 1) as u16, keep_raw) == if hit < 0 {
            -1
        } else if keep_raw {
            hit
        } else {
            nonzeros(s, hit) as int
        },
{
    let raw = (hit + 1) as u16;
    lemma_zeros_before(s, raw, s.len() as int);
    if hit >= 0 {
        lemma_nonzeros_monotone(s, 0, hit);
        assert(nonzeros(s, hit + 1) == nonzeros(s, hit) + 1);
    }
}

/// The index of the first occurrence of the pattern in the content, counted
/// in characters, is the index of its first occurrence in the characters; it
/// is -1 where there is none.
pub proof fn law_find_sound(s: Seq<u8>, padding: Padding, p: Seq<u8>)
    requires
        searchable(s, p),
        middle_consistent(s, padding),
        s.len() <= i16::MAX,
    ensures
        search::find(s, padding, p) >= -1,
        search::find(s, padding, p) >= 0 ==> is_first_occurrence(
            visible(s),
            p,
            search::find(s, padding, p) as int,
        ),
        search::find(s, padding, p) == -1 ==> !clear_contains(visible(s), p),
{
    let scene = match_scene(s, padding, p, false, false);
    let v = visible(s);
    let m = p.len() as int;
    let n = s.len() as int;
    lemma_visible_nonzero(s);
    let hit = if scene.shape.impossible() {
        -1
    } else {
        scene.lemma_first_index(0)
    };
    lemma_found_index(s, hit, false);
    assert(search::raw_index(s, padding, p) == (hit + 1) as u16);
    if hit == -1 {
        if clear_contains(v, p) {
            let k = choose|k: int| occurs_at(v, p, k);
            lemma_position_of(s, k);
            let c = position_of(s, k);
            scene.lemma_hit_is_occurrence(c);
            assert(scene.shape.in_range(c, 0));
            assert(scene.is_hit(c));
        }
    } else {
        let k0 = nonzeros(s, hit) as int;
        scene.lemma_hit_is_occurrence(hit);
        assert forall|j: int| 0 <= j < k0 implies !occurs_at(v, p, j) by {
            if occurs_at(v, p, j) {
                lemma_position_of(s, j);
                let c = position_of(s, j);
                scene.lemma_hit_is_occurrence(c);
                assert(scene.shape.in_range(c, 0));
                if c >= hit {
                    lemma_nonzeros_monotone(s, hit, c);
                }
                assert(scene.is_hit(c));
            }
        }
    }
}

/// A zero between two characters of the reversed string stands only under
/// the `middle` flag.
proof fn lemma_middle_consistent_reverse(s: Seq<u8>, padding: Padding)
    requires
        middle_consistent(s, padding),
    ensures
        middle_consistent(s.reverse(), flipped(padding)),
{
    let r = s.reverse();
    let n = s.len() as int;
    assert forall|i: int|
        0 <= i < r.len() && #[trigger] r[i] == 0 && has_before(r, i) && has_after(
            r,
            i,
        ) implies flipped(padding).middle by {
        let o = n - 1 - i;
        let j = choose|j: int| 0 <= j < i && #[trigger] r[j] != 0;
        assert(s[n - 1 - j] != 0);
        assert(has_after(s, o));
        let k = choose|k: int| i < k < r.len() && #[trigger] r[k] != 0;
        assert(s[n - 1 - k] != 0);
        assert(has_before(s, o));
        assert(s[o] == 0);
    }
}

/// The index of the last occurrence of the pattern in the content, counted
/// in characters, is the index of its last occurrence in the characters; it
/// is -1 where there is none.
pub proof fn law_rfind_sound(s: Seq<u8>, padding: Padding, p: Seq<u8>)
    requires
        searchable(s, p),
        middle_consistent(s, padding),
        s.len() <= i16::MAX,
    ensures
        search::rfind(s, padding, p) >= -1,
        search::rfind(s, padding, p) >= 0 ==> is_last_occurrence(
            visible(s),
            p,
            search::rfind(s, padding, p) as int,
        ),
        search::rfind(s, padding, p) == -1 ==> !clear_contains(visible(s), p),
{
    let r = s.reverse();
    let q = p.reverse();
    let v = visible(s);
    let m = p.len() as int;
    lemma_middle_consistent_reverse(s, padding);
    assert(unpadded(q));
    law_find_sound(r, flipped(padding), q);
    law_reverse_sound(s);
    crate::text_laws::law_len_counts_characters(s);
    lemma_visible_nonzero(s);
    let rev_find = search::find(r, flipped(padding), q);
    if rev_find >= 0 {
        let i = v.len() - m - rev_find;
        assert(occurs_at(v.reverse(), q, rev_find as int));
        lemma_last_index(v.len() as int, m, rev_find);
        lemma_occurs_reverse(v, p, i);
        assert forall|j: int| i < j implies !occurs_at(v, p, j) by {
            lemma_occurs_reverse(v, p, j);
        }
    } else {
        lemma_last_index(v.len() as int, m, rev_find);
        if clear_contains(v, p) {
            let k = choose|k: int| occurs_at(v, p, k);
            lemma_occurs_reverse(v, p, k);
            assert(occurs_at(v.reverse(), q, v.len() - m - k));
        }
    }
}

/// The arithmetic of a search from the end, where sixteen signed bits hold
/// the numbers.
proof fn lemma_last_index(s_len: int, m: int, rev_find: i16)
    requires
        0 <= s_len <= i16::MAX,
        rev_find >= -1,
        rev_find >= 0 ==> 0 <= m && rev_find + m <= s_len,
    ensures
        crate::text::last_index(wrap_u16(s_len), m, rev_find) == if rev_find >= 0 {
            s_len - m - rev_find
        } else {
            -1
        },
{
    assert(wrap_u16(s_len) == s_len);
    if rev_find >= 0 {
        assert(wrap_i16(m) == m);
    }
}

/// The pattern occurs in the content exactly if a search from the start
/// finds it, and exactly if a search from the end finds it.
pub proof fn law_search_consistency(s: Seq<u8>, padding: Padding, p: Seq<u8>)
    requires
        searchable(s, p),
        middle_consistent(s, padding),
        s.len() <= i16::MAX,
    ensures
        search::contains(s, padding, p) == (search::find(s, padding, p) >= 0),
        search::contains(s, padding, p) == (search::rfind(s, padding, p) >= 0),
{
    law_contains_sound(s, padding, p);
    law_find_sound(s, padding, p);
    law_rfind_sound(s, padding, p);
}

/// Where neither string is padded, the strings are equal exactly if the
/// content starts with the pattern, ends with it and has as many characters.
pub proof fn law_anchor_composition(s: Seq<u8>, padding: Padding, p: Seq<u8>)
    requires
        searchable(s, p),
        consistent(s, padding),
        !padding.any(),
    ensures
        search::equal(s, padding, p) == (search::starts_with(s, padding, p) && search::ends_with(
            s,
            padding,
            p,
        ) && nonzeros(s, s.len() as int) == nonzeros(p, p.len() as int)),
{
    law_equal_sound(s, padding, p);
    law_starts_with_sound(s, padding, p);
    law_ends_with_sound(s, padding, p);
    crate::text_laws::law_len_counts_characters(s);
    crate::text_laws::law_len_counts_characters(p);
    lemma_visible_all(p);
    let v = visible(s);
    if occurs_at(v, p, 0) && v.len() == p.len() {
        assert(v.subrange(0, 0 + p.len() as int) =~= v);
    }
    if v == p {
        assert(v.subrange(0, 0 + p.len() as int) =~= v);
    }
}

// ---- stripping ----
impl Scene {
    /// Without padding between characters, a match that begins at a character
    /// or behind the first pattern byte takes the content bytes one by one.
    proof fn lemma_match_is_contiguous(self, c: int, p: int)
        requires
            self.wf(),
            unpadded(self.pattern),
            !self.shape.padding.middle,
            self.pm(c, p),
            p > 0 || self.content[c] != 0,
        ensures
            forall|k: int|
                0 <= k < self.shape.m - p ==> #[trigger] self.content[c + k] == self.pattern[p + k],
        decreases self.shape.n - c,
    {
        assert(self.byte_step(c, p, self.pm(c + 1, p + 1)));
        if p + 1 < self.shape.m {
            self.lemma_match_is_contiguous(c + 1, p + 1);
            assert forall|k: int| 0 <= k < self.shape.m - p implies #[trigger] self.content[c + k]
                == self.pattern[p + k] by {
                if k > 0 {
                    assert(self.content[c + 1 + (k - 1)] == self.pattern[p + 1 + (k - 1)]);
                }
            }
        }
    }
}

/// Over a run of characters the number of characters grows by the length of
/// the run.
proof fn lemma_nonzeros_run(s: Seq<u8>, a: int, b: int)
    requires
        0 <= a <= b <= s.len(),
        forall|i: int| a <= i < b ==> #[trigger] s[i] != 0,
    ensures
        nonzeros(s, b) == nonzeros(s, a) + (b - a),
    decreases b - a,
{
    if a < b {
        lemma_nonzeros_run(s, a, b - 1);
    }
}

/// The characters of the content stripped of the pattern at its start are
/// the characters stripped of the pattern: without it where they begin with
/// it, and else as they are.  This holds where no padding stands between
/// characters.
pub proof fn law_strip_prefix_sound(s: Seq<u8>, padding: Padding, p: Seq<u8>)
    requires
        searchable(s, p),
        consistent(s, padding),
        !padding.middle,
        s.len() <= i16::MAX,
    ensures
        visible(search::strip_prefix(s, padding, p)) == clear_strip_prefix(visible(s), p),
{
    let v = visible(s);
    let m = p.len() as int;
    law_starts_with_sound(s, padding, p);
    if !clear_starts_with(v, p) {
        assert(search::strip_prefix(s, padding, p) =~= s);
    } else {
        assert(middle_consistent(s, padding)) by {
            lemma_consistent_middle(s, padding);
        }
        lemma_first_hit(s, padding, p);
        let z = position_of(s, 0);
        assert(search::prefix_end(s, padding, p) == z + m - 1) by {
            assert(wrap_i16(m) == m);
        }
        lemma_strip_front(s, z, m);
    }
}

/// The characters of a row whose first `z + m` bytes are turned into padding,
/// where `z` bytes of padding and then `m` characters stand at its start: the
/// characters without the first `m`.
proof fn lemma_strip_front(s: Seq<u8>, z: int, m: int)
    requires
        s.len() <= i16::MAX,
        0 <= z,
        0 <= m,
        z + m <= s.len(),
        forall|i: int| 0 <= i < z ==> #[trigger] s[i] == 0,
        forall|i: int| z <= i < z + m ==> #[trigger] s[i] != 0,
    ensures
        m <= visible(s).len(),
        visible(stripped(s, true, (z + m - 1) as i16, true)) == visible(s).skip(m),
{
    let v = visible(s);
    let n = s.len() as int;
    let t = stripped(s, true, (z + m - 1) as i16, true);
    lemma_nonzeros_gap(s, 0, z);
    lemma_nonzeros_run(s, z, z + m);
    lemma_visible_split(s, z + m);
    lemma_visible_split(t, z + m);
    assert forall|i: int| 0 <= i < t.take(z + m).len() implies #[trigger] t.take(z + m)[i]
        == 0 by {
        assert(wrap_i16(i) == i);
    }
    lemma_visible_none(t.take(z + m));
    assert(t.skip(z + m) =~= s.skip(z + m)) by {
        assert forall|i: int| 0 <= i < n - z - m implies #[trigger] t.skip(z + m)[i] == s.skip(
            z + m,
        )[i] by {
            assert(wrap_i16(i + z + m) == i + z + m);
        }
    }
    assert(visible(t) =~= visible(s.skip(z + m)));
    assert(v.skip(m) =~= visible(s.skip(z + m)));
}

/// The characters of a row whose bytes from position `a` on are turned into
/// padding, where `m` characters stand from `a` on and only padding behind
/// them: the characters without the last `m`.
proof fn lemma_strip_back(s: Seq<u8>, a: int, m: int)
    requires
        s.len() <= i16::MAX,
        0 <= a,
        0 <= m,
        a + m <= s.len(),
        forall|i: int| a <= i < a + m ==> #[trigger] s[i] != 0,
        forall|i: int| a + m <= i < s.len() ==> #[trigger] s[i] == 0,
    ensures
        m <= visible(s).len(),
        visible(stripped(s, true, a as i16, false)) == visible(s).take(visible(s).len() - m),
{
    let t = stripped(s, true, a as i16, false);
    lemma_cut_before_last(s, a, m);
    lemma_visible_split(t, a);
    assert forall|i: int| 0 <= i < t.skip(a).len() implies #[trigger] t.skip(a)[i] == 0 by {
        assert(wrap_i16(i + a) == i + a);
    }
    lemma_visible_none(t.skip(a));
    assert(t.take(a) =~= s.take(a)) by {
        assert forall|i: int| 0 <= i < a implies #[trigger] t.take(a)[i] == s.take(a)[i] by {
            assert(wrap_i16(i) == i);
        }
    }
    assert(visible(t) =~= visible(s.take(a)));
}

// ---- padding transparency ----
/// Two contents with the same characters and the same flags, each with its
/// padding where the flags allow it, give the same results: where the padding
/// zeros stand and how many they are does not show.
pub proof fn law_padding_transparency(a: Seq<u8>, b: Seq<u8>, padding: Padding, p: Seq<u8>)
    requires
        searchable(a, p),
        searchable(b, p),
        consistent(a, padding),
        consistent(b, padding),
        visible(a) == visible(b),
        a.len() <= i16::MAX,
        b.len() <= i16::MAX,
    ensures
        search::contains(a, padding, p) == search::contains(b, padding, p),
        search::starts_with(a, padding, p) == search::starts_with(b, padding, p),
        search::ends_with(a, padding, p) == search::ends_with(b, padding, p),
        search::find(a, padding, p) == search::find(b, padding, p),
        search::rfind(a, padding, p) == search::rfind(b, padding, p),
        padding.end || !padding.any() ==> search::equal(a, padding, p) == search::equal(
            b,
            padding,
            p,
        ),
        !padding.middle ==> visible(search::strip_prefix(a, padding, p)) == visible(
            search::strip_prefix(b, padding, p),
        ),
        nonzeros(a, a.len() as int) == nonzeros(b, b.len() as int),
        visible(uppercased(a)) == visible(uppercased(b)),
        visible(lowercased(a)) == visible(lowercased(b)),
        visible(trimmed_start(a)) == visible(trimmed_start(b)),
        visible(trimmed_end(a)) == visible(trimmed_end(b)),
        visible(trimmed_end(trimmed_start(a))) == visible(trimmed_end(trimmed_start(b))),
        visible(a.reverse()) == visible(b.reverse()),
        forall|n: int, max_n: int|
            0 <= n && 0 <= max_n ==> #[trigger] visible(repeated(a, n, max_n)) == visible(
                repeated(b, n, max_n),
            ),
{
    lemma_consistent_middle(a, padding);
    lemma_consistent_middle(b, padding);
    law_contains_sound(a, padding, p);
    law_contains_sound(b, padding, p);
    law_starts_with_sound(a, padding, p);
    law_starts_with_sound(b, padding, p);
    law_ends_with_sound(a, padding, p);
    law_ends_with_sound(b, padding, p);
    law_find_sound(a, padding, p);
    law_find_sound(b, padding, p);
    law_rfind_sound(a, padding, p);
    law_rfind_sound(b, padding, p);
    if padding.end || !padding.any() {
        law_equal_sound(a, padding, p);
        law_equal_sound(b, padding, p);
    }
    if !padding.middle {
        law_strip_prefix_sound(a, padding, p);
        law_strip_prefix_sound(b, padding, p);
    }
    crate::text_laws::law_len_counts_characters(a);
    crate::text_laws::law_len_counts_characters(b);
    crate::text_laws::law_uppercase_sound(a);
    crate::text_laws::law_uppercase_sound(b);
    crate::text_laws::law_lowercase_sound(a);
    crate::text_laws::law_lowercase_sound(b);
    crate::text_laws::law_trim_start_sound(a);
    crate::text_laws::law_trim_start_sound(b);
    crate::text_laws::law_trim_end_sound(a);
    crate::text_laws::law_trim_end_sound(b);
    crate::text_laws::law_trim_sound(a);
    crate::text_laws::law_trim_sound(b);
    law_reverse_sound(a);
    law_reverse_sound(b);
    assert forall|n: int, max_n: int| 0 <= n && 0 <= max_n implies #[trigger] visible(
        repeated(a, n, max_n),
    ) == visible(repeated(b, n, max_n)) by {
        crate::text_laws::law_repeat_sound(a, n, max_n);
        crate::text_laws::law_repeat_sound(b, n, max_n);
    }
    let v = visible(a);
    let fa = search::find(a, padding, p);
    let fb = search::find(b, padding, p);
    if fa >= 0 {
        assert(occurs_at(v, p, fa as int));
        assert(clear_contains(v, p));
    }
    if fb >= 0 {
        assert(occurs_at(v, p, fb as int));
        assert(clear_contains(v, p));
    }
    let ra = search::rfind(a, padding, p);
    let rb = search::rfind(b, padding, p);
    if ra >= 0 {
        assert(occurs_at(v, p, ra as int));
        assert(clear_contains(v, p));
    }
    if rb >= 0 {
        assert(occurs_at(v, p, rb as int));
        assert(clear_contains(v, p));
    }
}

// ---- stripping at the end, and equality without case ----
/// Over a run of padding the number of characters does not grow.
proof fn lemma_nonzeros_gap(s: Seq<u8>, a: int, b: int)
    requires
        0 <= a <= b <= s.len(),
        forall|i: int| a <= i < b ==> #[trigger] s[i] == 0,
    ensures
        nonzeros(s, b) == nonzeros(s, a),
    decreases b - a,
{
    if a < b {
        lemma_nonzeros_gap(s, a, b - 1);
    }
}

/// Where the characters begin with the pattern and no padding stands between
/// characters, the first match begins at the first character and takes the
/// content bytes from there on one by one.
proof fn lemma_first_hit(s: Seq<u8>, padding: Padding, p: Seq<u8>)
    requires
        searchable(s, p),
        middle_consistent(s, padding),
        !padding.middle,
        s.len() <= i16::MAX,
        clear_starts_with(visible(s), p),
    ensures
        0 <= position_of(s, 0),
        position_of(s, 0) + p.len() <= s.len(),
        search::raw_index(s, padding, p) == (position_of(s, 0) + 1) as u16,
        found_index(s, search::raw_index(s, padding, p), true) == position_of(s, 0),
        forall|i: int| 0 <= i < position_of(s, 0) ==> #[trigger] s[i] == 0,
        forall|i: int|
            position_of(s, 0) <= i < position_of(s, 0) + p.len() ==> #[trigger] s[i] != 0,
{
    let scene = match_scene(s, padding, p, false, false);
    let m = p.len() as int;
    let z = position_of(s, 0);
    lemma_visible_nonzero(s);
    lemma_position_of(s, 0);
    lemma_first_position(s);
    scene.lemma_hit_is_occurrence(z);
    assert(scene.shape.in_range(z, 0));
    let hit = scene.lemma_first_index(0);
    assert(hit == z) by {
        assert(scene.is_hit(z));
        if hit != -1 && hit < z {
            assert(s[hit] == 0);
        }
    }
    lemma_found_index(s, z, true);
    scene.lemma_match_is_contiguous(z, 0);
    assert forall|i: int| z <= i < z + m implies #[trigger] s[i] != 0 by {
        assert(s[z + (i - z)] == p[0 + (i - z)]);
    }
}

/// The arithmetic of the strip operation at the end, where sixteen signed
/// bits hold the numbers.
proof fn lemma_suffix_arith(n: int, m: int, back: i16)
    requires
        0 <= m,
        0 <= back,
        back + m <= n <= i16::MAX,
    ensures
        wrap_i16(wrap_i16(wrap_i16(n) - wrap_i16(m)) - back) == n - m - back,
{
}

/// Where the reversed characters begin with the reversed pattern and no
/// padding stands between characters, the strip operation finds the content
/// position where the pattern begins, counted from the first character of the
/// reversed content.
proof fn lemma_suffix_start(s: Seq<u8>, padding: Padding, p: Seq<u8>)
    requires
        searchable(s.reverse(), p.reverse()),
        middle_consistent(s.reverse(), flipped(padding)),
        !padding.middle,
        s.len() <= i16::MAX,
        clear_starts_with(visible(s.reverse()), p.reverse()),
    ensures
        0 <= position_of(s.reverse(), 0),
        position_of(s.reverse(), 0) + p.len() <= s.len(),
        search::suffix_start(s, padding, p) == s.len() - p.len() - position_of(s.reverse(), 0),
        forall|i: int| 0 <= i < position_of(s.reverse(), 0) ==> #[trigger] s.reverse()[i] == 0,
        forall|i: int|
            position_of(s.reverse(), 0) <= i < position_of(s.reverse(), 0) + p.len()
                ==> #[trigger] s.reverse()[i] != 0,
{
    let r = s.reverse();
    let q = p.reverse();
    lemma_first_hit(r, flipped(padding), q);
    let back = found_index(r, search::raw_index(r, flipped(padding), q), true);
    lemma_suffix_arith(s.len() as int, p.len() as int, back);
}

/// What the bytes of the reversed string are, the bytes of the string are at
/// the mirrored positions.
proof fn lemma_mirror_layout(s: Seq<u8>, z: int, m: int)
    requires
        0 <= z,
        0 <= m,
        z + m <= s.len(),
        forall|i: int| 0 <= i < z ==> #[trigger] s.reverse()[i] == 0,
        forall|i: int| z <= i < z + m ==> #[trigger] s.reverse()[i] != 0,
    ensures
        forall|i: int| s.len() - m - z <= i < s.len() - z ==> #[trigger] s[i] != 0,
        forall|i: int| s.len() - z <= i < s.len() ==> #[trigger] s[i] == 0,
{
    let r = s.reverse();
    let n = s.len() as int;
    assert forall|i: int| n - m - z <= i < n - z implies #[trigger] s[i] != 0 by {
        assert(r[n - 1 - i] == s[i]);
    }
    assert forall|i: int| n - z <= i < n implies #[trigger] s[i] == 0 by {
        assert(r[n - 1 - i] == s[i]);
    }
}

/// The characters of a row that is cut at a position where a run of `m`
/// characters begins, behind which only padding stands.
proof fn lemma_cut_before_last(s: Seq<u8>, a: int, m: int)
    requires
        0 <= a,
        0 <= m,
        a + m <= s.len(),
        forall|i: int| a <= i < a + m ==> #[trigger] s[i] != 0,
        forall|i: int| a + m <= i < s.len() ==> #[trigger] s[i] == 0,
    ensures
        m <= visible(s).len(),
        visible(s.take(a)) == visible(s).take(visible(s).len() - m),
{
    let v = visible(s);
    lemma_nonzeros_run(s, a, a + m);
    lemma_nonzeros_gap(s, a + m, s.len() as int);
    crate::text_laws::law_len_counts_characters(s);
    lemma_visible_split(s, a);
    assert(v.take(v.len() - m) =~= visible(s.take(a)));
}

/// The characters of the content stripped of the pattern at its end are the
/// characters stripped of the pattern: without it where they end with it, and
/// else as they are.  This holds where no padding stands between characters.
pub proof fn law_strip_suffix_sound(s: Seq<u8>, padding: Padding, p: Seq<u8>)
    requires
        searchable(s, p),
        consistent(s, padding),
        !padding.middle,
        s.len() <= i16::MAX,
    ensures
        visible(search::strip_suffix(s, padding, p)) == clear_strip_suffix(visible(s), p),
{
    let v = visible(s);
    let m = p.len() as int;
    let n = s.len() as int;
    law_ends_with_sound(s, padding, p);
    if !clear_ends_with(v, p) {
        assert(search::strip_suffix(s, padding, p) =~= s);
    } else {
        assert(unpadded(p.reverse()));
        assert(middle_consistent(s.reverse(), flipped(padding))) by {
            lemma_consistent_reverse(s, padding);
            lemma_consistent_middle(s.reverse(), flipped(padding));
        }
        assert(clear_starts_with(visible(s.reverse()), p.reverse())) by {
            law_reverse_sound(s);
            lemma_occurs_reverse(v, p, v.len() - m);
        }
        lemma_suffix_start(s, padding, p);
        let z = position_of(s.reverse(), 0);
        lemma_mirror_layout(s, z, m);
        lemma_strip_back(s, n - m - z, m);
    }
}

/// Turning a string into lower case keeps its padding where it is.
proof fn lemma_lowercase_consistent(s: Seq<u8>, padding: Padding)
    requires
        consistent(s, padding),
    ensures
        consistent(lowercased(s), padding),
{
    let t = lowercased(s);
    assert forall|i: int| 0 <= i < t.len() && #[trigger] t[i] == 0 implies zero_allowed(
        t,
        padding,
        i,
    ) by {
        assert(s[i] == 0);
        assert(zero_allowed(s, padding, i));
        if has_before(t, i) {
            let j = choose|j: int| 0 <= j < i && #[trigger] t[j] != 0;
            assert(s[j] != 0);
        }
        if has_before(s, i) {
            let j = choose|j: int| 0 <= j < i && #[trigger] s[j] != 0;
            assert(t[j] != 0);
        }
        if has_after(t, i) {
            let j = choose|j: int| i < j < t.len() && #[trigger] t[j] != 0;
            assert(s[j] != 0);
        }
        if has_after(s, i) {
            let j = choose|j: int| i < j < s.len() && #[trigger] s[j] != 0;
            assert(t[j] != 0);
        }
    }
}

/// The strings are equal without case exactly if their characters are equal
/// once in lower case, where the content may end in padding or holds no
/// padding at all.
pub proof fn law_equal_ignore_case_sound(s: Seq<u8>, padding: Padding, p: Seq<u8>)
    requires
        searchable(s, p),
        consistent(s, padding),
        padding.end || !padding.any(),
    ensures
        search::equal_ignore_case(s, padding, p) == (lowercased(visible(s)) == lowercased(p)),
{
    lemma_lowercase_consistent(s, padding);
    assert(unpadded(lowercased(p))) by {
        assert forall|i: int| 0 <= i < lowercased(p).len() implies #[trigger] lowercased(p)[i]
            != 0 by {
            assert(p[i] != 0);
        }
    }
    law_equal_sound(lowercased(s), padding, lowercased(p));
    crate::text_laws::law_lowercase_sound(s);
}

} // verus!
