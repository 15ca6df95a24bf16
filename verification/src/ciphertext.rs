//! Encrypted strings and the transforms on them.
use crate::padding_laws::{
    joinable, lemma_cased, lemma_joined, lemma_repeated, lemma_reversed, lemma_stripped,
    lemma_trimmed_end, lemma_trimmed_start,
};
use crate::pattern_matcher::{MatchResult, MatchingOptions, Pattern, SimpleEngine};
use crate::primitives::{bit, wrap_i16, wrap_u16, wrap_u8, ClientKey, Fhe};
use crate::search;
use crate::search_laws::consistent;
use crate::text::{
    all_blank, is_blank, is_whitespace, lower, lowercased, nonzeros, repeated, trimmed_end,
    stripped, trimmed_start, upper, uppercased, UP_LOW_DISTANCE,
};
use vstd::string::StringSliceAdditionalSpecFns;
use vstd::prelude::*;

verus! {

/// Where zero bytes may stand in an encrypted string.  The flags are public.
#[derive(Debug, Copy, Clone)]
pub struct Padding {
    /// Zeros may precede the first character.
    pub start: bool,
    /// Zeros may stand between two characters.
    pub middle: bool,
    /// Zeros may follow the last character.
    pub end: bool,
}

impl Default for Padding {
    fn default() -> (padding: Self)
        ensures
            padding == (Padding { start: false, middle: false, end: false }),
    {
        Padding { start: false, middle: false, end: false }
    }
}

impl Padding {
    /// Is any region flagged?
    pub open spec fn any(self) -> bool {
        self.start || self.middle || self.end
    }

    /// Sets the `start` flag.
    pub fn start(&mut self, value: bool) -> (this: &mut Self)
        ensures
            *this == (Padding { start: value, ..*old(self) }),
            *final(self) == *final(this),
    {
        self.start = value;
        self
    }

    /// Sets the `middle` flag.
    pub fn middle(&mut self, value: bool) -> (this: &mut Self)
        ensures
            *this == (Padding { middle: value, ..*old(self) }),
            *final(self) == *final(this),
    {
        self.middle = value;
        self
    }

    /// Sets the `end` flag.
    pub fn end(&mut self, value: bool) -> (this: &mut Self)
        ensures
            *this == (Padding { end: value, ..*old(self) }),
            *final(self) == *final(this),
    {
        self.end = value;
        self
    }
}

/// An encrypted ASCII character.  A zero byte is padding.
pub struct FheAsciiChar<F: Fhe> {
    pub byte: F::U8,
}

/// An encrypted string: a row of encrypted bytes of public length, with the
/// public flags that say where padding may stand.  How many of the bytes are
/// characters is secret.
pub struct FheString<F: Fhe> {
    pub chars: Vec<FheAsciiChar<F>>,
    pub padding: Padding,
}

impl<F: Fhe> FheAsciiChar<F> {
    /// The byte that the character decrypts to.
    pub open spec fn view(&self) -> u8 {
        F::clear_u8(self.byte)
    }
}

impl<F: Fhe> FheString<F> {
    /// The bytes that the string decrypts to, padding included.
    pub open spec fn view(&self) -> Seq<u8> {
        Seq::new(self.chars@.len(), |i: int| self.chars@[i]@)
    }

    /// The invariant of an encrypted string: its zero bytes stand only where
    /// its flags allow them.  Encryption establishes it; the transforms that
    /// state it keep it.
    pub open spec fn well_padded(&self) -> bool {
        consistent(self@, self.padding)
    }

    pub fn has_padding(&self) -> (b: bool)
        ensures
            b == self.padding.any(),
    {
        self.padding.start || self.padding.middle || self.padding.end
    }
}

/// An encrypted number of repetitions with a public upper bound.
pub struct MaxedFheUint8<F: Fhe> {
    pub val: F::U8,
    pub max_val: u8,
}

/// Masking a byte with all ones keeps it, masking with zero clears it.
pub proof fn lemma_mask_u8(x: u8, keep: bool)
    ensures
        x & wrap_u8((bit(keep) as u8) * 0xFFu8) == if keep {
            x
        } else {
            0u8
        },
{
    if keep {
        assert(wrap_u8(1u8 * 0xFFu8) == 0xFFu8);
        assert(x & 0xFFu8 == x) by (bit_vector);
    } else {
        assert(wrap_u8(0u8 * 0xFFu8) == 0u8);
        assert(x & 0u8 == 0u8) by (bit_vector);
    }
}

impl<F: Fhe> FheAsciiChar<F> {
    /// Encrypts a byte under a client key.
    pub fn encrypt<K: ClientKey<F>>(clear_byte: u8, key: &K) -> (c: Self)
        ensures
            c@ == clear_byte,
    {
        FheAsciiChar { byte: key.encrypt_u8(clear_byte) }
    }

    /// A copy of the character.
    pub fn duplicate(&self) -> (c: Self)
        ensures
            c@ == self@,
    {
        FheAsciiChar { byte: F::u8_clone(&self.byte) }
    }

    /// Is the character a tab, a newline, a vertical tab, a carriage return or
    /// a space?
    pub fn is_whitespace(&self) -> (b: F::Bool)
        ensures
            F::clear_bool(b) == is_whitespace(self@),
    {
        let tab = F::u8_eq_scalar(&self.byte, 9);
        let newline = F::u8_eq_scalar(&self.byte, 10);
        let vertical_tab = F::u8_eq_scalar(&self.byte, 11);
        let carriage_return = F::u8_eq_scalar(&self.byte, 13);
        let space = F::u8_eq_scalar(&self.byte, 32);
        let acc = F::bool_or(&tab, &newline);
        let acc = F::bool_or(&acc, &vertical_tab);
        let acc = F::bool_or(&acc, &carriage_return);
        F::bool_or(&acc, &space)
    }

    /// The character in upper case.
    pub fn to_upper(&self) -> (c: Self)
        ensures
            c@ == upper(self@),
    {
        let is_lower = F::bool_and(&F::u8_gt_scalar(&self.byte, 96), &F::u8_lt_scalar(&self.byte, 123));
        let distance = F::u8_mul_scalar(&F::u8_from_bool(&is_lower), UP_LOW_DISTANCE);
        FheAsciiChar { byte: F::u8_sub(&self.byte, &distance) }
    }

    /// The character in lower case.
    pub fn to_lower(&self) -> (c: Self)
        ensures
            c@ == lower(self@),
    {
        let is_upper = F::bool_and(&F::u8_gt_scalar(&self.byte, 64), &F::u8_lt_scalar(&self.byte, 91));
        let distance = F::u8_mul_scalar(&F::u8_from_bool(&is_upper), UP_LOW_DISTANCE);
        FheAsciiChar { byte: F::u8_add(&self.byte, &distance) }
    }
}

impl<F: Fhe> FheString<F> {
    /// A copy of the string.
    pub fn duplicate(&self) -> (copy: Self)
        ensures
            copy@ == self@,
            copy.padding == self.padding,
    {
        let mut chars: Vec<FheAsciiChar<F>> = Vec::new();
        let mut i: usize = 0;
        while i < self.chars.len()
            invariant
                i <= self.chars@.len(),
                chars@.len() == i,
                forall|k: int| 0 <= k < i ==> (#[trigger] chars@[k])@ == self.chars@[k]@,
            decreases self.chars@.len() - i,
        {
            chars.push(self.chars[i].duplicate());
            i = i + 1;
        }
        let copy = FheString { chars, padding: self.padding };
        assert(copy@ =~= self@);
        copy
    }

    /// The number of characters, encrypted: the number of bytes that are no
    /// padding, counted in sixteen bits.
    pub fn len(&self) -> (n: F::U16)
        ensures
            F::clear_u16(n) == wrap_u16(nonzeros(self@, self@.len() as int) as int),
    {
        let mut res = F::u16_trivial(0);
        let mut i: usize = 0;
        while i < self.chars.len()
            invariant
                i <= self.chars@.len(),
                F::clear_u16(res) == wrap_u16(nonzeros(self@, i as int) as int),
            decreases self.chars@.len() - i,
        {
            assert(self@[i as int] == F::clear_u8(self.chars@[i as int].byte));
            res = F::u16_add(&res, &F::u16_from_bool(&F::u8_ne_scalar(&self.chars[i].byte, 0)));
            i = i + 1;
        }
        res
    }

    /// Is the first byte padding?  True for a string without bytes.
    pub fn is_empty(&self) -> (b: F::Bool)
        ensures
            F::clear_bool(b) == (self@.len() == 0 || self@[0] == 0),
    {
        if self.chars.len() == 0 {
            return F::bool_trivial(true);
        }
        assert(self@[0] == F::clear_u8(self.chars@[0].byte));
        F::u8_eq_scalar(&self.chars[0].byte, 0)
    }

    /// The string in upper case.
    pub fn to_uppercase(&self) -> (result: Self)
        ensures
            result@ == uppercased(self@),
            result.padding == self.padding,
            self.well_padded() ==> result.well_padded(),
    {
        let mut chars: Vec<FheAsciiChar<F>> = Vec::new();
        let mut i: usize = 0;
        while i < self.chars.len()
            invariant
                i <= self.chars@.len(),
                chars@.len() == i,
                forall|k: int| 0 <= k < i ==> (#[trigger] chars@[k])@ == upper(self.chars@[k]@),
            decreases self.chars@.len() - i,
        {
            chars.push(self.chars[i].to_upper());
            i = i + 1;
        }
        let upper = FheString { chars, padding: self.padding };
        assert(upper@ =~= uppercased(self@));
        proof {
            if self.well_padded() {
                lemma_cased(self@, self.padding);
            }
        }
        upper
    }

    /// The string in lower case.
    pub fn to_lowercase(&self) -> (result: Self)
        ensures
            result@ == lowercased(self@),
            result.padding == self.padding,
            self.well_padded() ==> result.well_padded(),
    {
        let mut chars: Vec<FheAsciiChar<F>> = Vec::new();
        let mut i: usize = 0;
        while i < self.chars.len()
            invariant
                i <= self.chars@.len(),
                chars@.len() == i,
                forall|k: int| 0 <= k < i ==> (#[trigger] chars@[k])@ == lower(self.chars@[k]@),
            decreases self.chars@.len() - i,
        {
            chars.push(self.chars[i].to_lower());
            i = i + 1;
        }
        let lower = FheString { chars, padding: self.padding };
        assert(lower@ =~= lowercased(self@));
        proof {
            if self.well_padded() {
                lemma_cased(self@, self.padding);
            }
        }
        lower
    }

    /// One pass over the bytes, from the first on if `forward` and else from
    /// the last on: a byte is replaced by zero as long as it and all bytes
    /// passed before it are white space or padding.  The new bytes come in
    /// the order of the pass.
    fn trim_helper(&self, forward: bool) -> (new_bytes: Vec<F::U8>)
        ensures
            new_bytes@.len() == self@.len(),
            forall|k: int|
                0 <= k < self@.len() ==> F::clear_u8(#[trigger] new_bytes@[k]) == if forward {
                    trimmed_start(self@)[k]
                } else {
                    trimmed_end(self@)[self@.len() - 1 - k]
                },
    {
        let mut new_bytes: Vec<F::U8> = Vec::new();
        let fhe_max_u8 = F::u8_trivial(u8::MAX);
        let mut prev_zeroed = F::bool_trivial(true);
        let n = self.chars.len();
        let ghost s = self@;
        let mut k: usize = 0;
        while k < n
            invariant
                k <= n,
                n == self.chars@.len(),
                s == self@,
                F::clear_u8(fhe_max_u8) == 0xFF,
                new_bytes@.len() == k,
                F::clear_bool(prev_zeroed) == if forward {
                    all_blank(s, 0, k as int)
                } else {
                    all_blank(s, n - k, n as int)
                },
                forall|a: int|
                    0 <= a < k ==> F::clear_u8(#[trigger] new_bytes@[a]) == if forward {
                        trimmed_start(s)[a]
                    } else {
                        trimmed_end(s)[n - 1 - a]
                    },
            decreases n - k,
        {
            let at = if forward {
                k
            } else {
                n - 1 - k
            };
            let c = &self.chars[at];
            assert(s[at as int] == c@);
            let must_zero = F::bool_and(
                &prev_zeroed,
                &F::bool_or(&c.is_whitespace(), &F::u8_eq_scalar(&c.byte, 0)),
            );
            let keep = F::u8_mul(&F::u8_from_bool(&F::bool_not(&must_zero)), &fhe_max_u8);
            let new_byte = F::u8_bitand(&c.byte, &keep);
            proof {
                lemma_mask_u8(c@, !F::clear_bool(must_zero));
                if forward {
                    assert(all_blank(s, 0, k + 1) == (all_blank(s, 0, k as int) && is_blank(
                        s[k as int],
                    )));
                } else {
                    assert(all_blank(s, n - k - 1, n as int) == (all_blank(s, n - k, n as int)
                        && is_blank(s[n - k - 1])));
                }
            }
            new_bytes.push(new_byte);
            prev_zeroed = must_zero;
            k = k + 1;
        }
        new_bytes
    }

    /// The string without its leading white space: the bytes of the white
    /// space become padding, and the `start` flag is set.
    pub fn trim_start(&self) -> (trimmed: Self)
        ensures
            trimmed@ == trimmed_start(self@),
            trimmed.padding == (Padding { start: true, ..self.padding }),
            self.well_padded() ==> trimmed.well_padded(),
    {
        let new_bytes = self.trim_helper(true);
        let mut chars: Vec<FheAsciiChar<F>> = Vec::new();
        let mut i: usize = 0;
        while i < new_bytes.len()
            invariant
                i <= new_bytes@.len(),
                chars@.len() == i,
                forall|k: int| 0 <= k < i ==> (#[trigger] chars@[k])@ == F::clear_u8(new_bytes@[k]),
            decreases new_bytes@.len() - i,
        {
            chars.push(FheAsciiChar { byte: F::u8_clone(&new_bytes[i]) });
            i = i + 1;
        }
        let mut padding = self.padding;
        padding.start(true);
        let result = FheString { chars, padding };
        assert(result@ =~= trimmed_start(self@));
        proof {
            if self.well_padded() {
                lemma_trimmed_start(self@, self.padding);
            }
        }
        result
    }

    /// The string without its trailing white space: the bytes of the white
    /// space become padding.  The `start` flag is set, as by every trim, and
    /// the `end` flag, since the new padding follows the last character.
    pub fn trim_end(&self) -> (trimmed: Self)
        ensures
            trimmed@ == trimmed_end(self@),
            trimmed.padding == (Padding { start: true, middle: self.padding.middle, end: true }),
            self.well_padded() ==> trimmed.well_padded(),
    {
        let new_bytes = self.trim_helper(false);
        let n = new_bytes.len();
        let mut chars: Vec<FheAsciiChar<F>> = Vec::new();
        let mut i: usize = 0;
        while i < n
            invariant
                i <= n,
                n == new_bytes@.len(),
                chars@.len() == i,
                forall|k: int|
                    0 <= k < i ==> (#[trigger] chars@[k])@ == F::clear_u8(new_bytes@[n - 1 - k]),
            decreases n - i,
        {
            chars.push(FheAsciiChar { byte: F::u8_clone(&new_bytes[n - 1 - i]) });
            i = i + 1;
        }
        let mut padding = self.padding;
        padding.start(true).end(true);
        let result = FheString { chars, padding };
        assert(result@ =~= trimmed_end(self@));
        proof {
            if self.well_padded() {
                lemma_trimmed_end(self@, self.padding);
            }
        }
        result
    }

    /// The string without leading and trailing white space; the `start` and
    /// the `end` flag are set.
    pub fn trim(&self) -> (trimmed: Self)
        ensures
            trimmed@ == trimmed_end(trimmed_start(self@)),
            trimmed.padding == (Padding { start: true, middle: self.padding.middle, end: true }),
            self.well_padded() ==> trimmed.well_padded(),
    {
        self.trim_start().trim_end()
    }

    /// The string repeated an encrypted number of times, `n.max_val` at most.
    /// The result has `n.max_val` copies of the bytes; the copies beyond the
    /// encrypted number are padding.  The flags only grow: `middle` is set
    /// where `start` or `end` was, since the padding at the start or the end
    /// of a copy may lie between the characters of two copies, and `end` is
    /// set, since copies may be padding.
    pub fn repeat(&self, n: MaxedFheUint8<F>) -> (copies: Self)
        ensures
            copies@ == repeated(self@, F::clear_u8(n.val) as int, n.max_val as int),
            copies.padding == (Padding {
                start: self.padding.start,
                middle: self.padding.middle || self.padding.start || self.padding.end,
                end: true,
            }),
            self.well_padded() ==> copies.well_padded(),
    {
        let ghost s = self@;
        let ghost count = F::clear_u8(n.val) as int;
        let len = self.chars.len();
        let mut new_chars: Vec<FheAsciiChar<F>> = Vec::new();
        let mut rem = F::u8_clone(&n.val);
        let mut k: u8 = 0;
        while k < n.max_val
            invariant
                k <= n.max_val,
                len == self.chars@.len(),
                s == self@,
                count == F::clear_u8(n.val),
                F::clear_u8(rem) == if count > k {
                    count - k
                } else {
                    0
                },
                new_chars@.len() == k * len,
                forall|i: int|
                    0 <= i < k * len ==> (#[trigger] new_chars@[i])@ == repeated(
                        s,
                        count,
                        n.max_val as int,
                    )[i],
            decreases n.max_val - k,
        {
            let operand = F::u8_from_bool(&F::u8_gt_scalar(&rem, 0));
            let mut j: usize = 0;
            proof {
                assert(k * len + len == (k + 1) * len) by (nonlinear_arith);
                assert((k + 1) * len <= n.max_val * len) by (nonlinear_arith)
                    requires
                        k + 1 <= n.max_val,
                        len >= 0,
                ;
            }
            while j < len
                invariant
                    j <= len,
                    len == self.chars@.len(),
                    s == self@,
                    k < n.max_val,
                    (k + 1) * len <= n.max_val * len,
                    F::clear_u8(operand) == bit(count > k),
                    new_chars@.len() == k * len + j,
                    forall|i: int|
                        0 <= i < k * len + j ==> (#[trigger] new_chars@[i])@ == repeated(
                            s,
                            count,
                            n.max_val as int,
                        )[i],
                decreases len - j,
            {
                let c = &self.chars[j];
                assert(s[j as int] == c@);
                let ghost at = k * len + j;
                proof {
                    lemma_block_position(k as int, len as int, j as int);
                    assert(at < (k + 1) * len) by (nonlinear_arith)
                        requires
                            at == k * len + j,
                            j < len,
                    ;
                }
                new_chars.push(FheAsciiChar { byte: F::u8_mul(&c.byte, &operand) });
                j = j + 1;
            }
            rem = F::u8_sub(&rem, &F::u8_from_bool(&F::u8_gt_scalar(&rem, 0)));
            proof {
                assert(k * len + len == (k + 1) * len) by (nonlinear_arith);
            }
            k = k + 1;
        }
        let mut padding = self.padding;
        padding.middle(self.padding.middle || self.padding.start || self.padding.end).end(true);
        let result = FheString { chars: new_chars, padding };
        assert(result@ =~= repeated(self@, count, n.max_val as int));
        proof {
            if self.well_padded() {
                lemma_repeated(self@, self.padding, count, n.max_val as int, result.padding);
            }
        }
        result
    }

    /// The string repeated `n` times.  The flags only grow: for `n > 0` the
    /// `middle` flag is set where `start` or `end` was.
    pub fn repeat_clear(&self, n: u8) -> (copies: Self)
        ensures
            copies@ == repeated(self@, n as int, n as int),
            copies.padding == (Padding {
                middle: self.padding.middle || (n > 0 && (self.padding.start
                    || self.padding.end)),
                ..self.padding
            }),
            self.well_padded() ==> copies.well_padded(),
    {
        let ghost s = self@;
        let len = self.chars.len();
        let mut new_chars: Vec<FheAsciiChar<F>> = Vec::new();
        let mut k: u8 = 0;
        while k < n
            invariant
                k <= n,
                len == self.chars@.len(),
                s == self@,
                new_chars@.len() == k * len,
                forall|i: int|
                    0 <= i < k * len ==> (#[trigger] new_chars@[i])@ == repeated(
                        s,
                        n as int,
                        n as int,
                    )[i],
            decreases n - k,
        {
            let mut j: usize = 0;
            proof {
                assert((k + 1) * len <= n * len) by (nonlinear_arith)
                    requires
                        k + 1 <= n,
                        len >= 0,
                ;
            }
            while j < len
                invariant
                    j <= len,
                    len == self.chars@.len(),
                    s == self@,
                    k < n,
                    (k + 1) * len <= n * len,
                    new_chars@.len() == k * len + j,
                    forall|i: int|
                        0 <= i < k * len + j ==> (#[trigger] new_chars@[i])@ == repeated(
                            s,
                            n as int,
                            n as int,
                        )[i],
                decreases len - j,
            {
                let c = &self.chars[j];
                assert(s[j as int] == c@);
                let ghost at = k * len + j;
                proof {
                    lemma_block_position(k as int, len as int, j as int);
                    assert(at < (k + 1) * len) by (nonlinear_arith)
                        requires
                            at == k * len + j,
                            j < len,
                    ;
                }
                new_chars.push(c.duplicate());
                j = j + 1;
            }
            proof {
                assert(k * len + len == (k + 1) * len) by (nonlinear_arith);
            }
            k = k + 1;
        }
        let mut padding = self.padding;
        padding.middle(self.padding.middle || (n > 0 && (self.padding.start || self.padding.end)));
        let result = FheString { chars: new_chars, padding };
        assert(result@ =~= repeated(self@, n as int, n as int));
        proof {
            if self.well_padded() {
                lemma_repeated(self@, self.padding, n as int, n as int, result.padding);
            }
        }
        result
    }

    /// The string with its bytes in reverse order, and with the `start` and
    /// `end` flags exchanged.
    pub fn reversed(&self) -> (result: Self)
        ensures
            result@ == self@.reverse(),
            result.padding == (Padding {
                start: self.padding.end,
                middle: self.padding.middle,
                end: self.padding.start,
            }),
            self.well_padded() ==> result.well_padded(),
    {
        let n = self.chars.len();
        let mut chars: Vec<FheAsciiChar<F>> = Vec::new();
        let mut i: usize = 0;
        while i < n
            invariant
                i <= n,
                n == self.chars@.len(),
                chars@.len() == i,
                forall|k: int| 0 <= k < i ==> (#[trigger] chars@[k])@ == self.chars@[n - 1 - k]@,
            decreases n - i,
        {
            chars.push(self.chars[n - 1 - i].duplicate());
            i = i + 1;
        }
        let result = FheString {
            chars,
            padding: Padding {
                start: self.padding.end,
                middle: self.padding.middle,
                end: self.padding.start,
            },
        };
        assert(result@ =~= self@.reverse());
        proof {
            if self.well_padded() {
                lemma_reversed(self@, self.padding);
            }
        }
        result
    }

}

impl<F: Fhe> vstd::std_specs::ops::AddSpecImpl for FheString<F> {
    /// The sum is stated by the contract of `add`, over the clear bytes.
    open spec fn obeys_add_spec() -> bool {
        false
    }

    open spec fn add_req(self, other: Self) -> bool {
        true
    }

    open spec fn add_spec(self, other: Self) -> Self {
        self
    }
}

impl<F: Fhe> std::ops::Add for FheString<F> {
    type Output = Self;

    /// The bytes of `self` followed by those of `other`.  The result may hold
    /// zeros at its start where `self` may, at its end where `other` may, and
    /// in its middle where either may in its middle or where the two meet.
    /// The padding of the result is where these flags allow it if each
    /// operand holds a character, or carries the flag of the side at which it
    /// is joined.
    fn add(self, other: Self) -> (joined: Self)
        ensures
            joined@ == self@ + other@,
            joined.padding == (Padding {
                start: self.padding.start,
                middle: self.padding.middle || self.padding.end || other.padding.start
                    || other.padding.middle,
                end: other.padding.end,
            }),
            self.well_padded() && other.well_padded() && joinable(
                self@,
                self.padding,
                other@,
                other.padding,
            ) ==> joined.well_padded(),
    {
        let mut chars: Vec<FheAsciiChar<F>> = Vec::new();
        let mut i: usize = 0;
        while i < self.chars.len()
            invariant
                i <= self.chars@.len(),
                chars@.len() == i,
                forall|k: int| 0 <= k < i ==> (#[trigger] chars@[k])@ == self.chars@[k]@,
            decreases self.chars@.len() - i,
        {
            chars.push(self.chars[i].duplicate());
            i = i + 1;
        }
        let ghost first = self.chars@.len();
        let mut j: usize = 0;
        while j < other.chars.len()
            invariant
                j <= other.chars@.len(),
                first == self.chars@.len(),
                chars@.len() == first + j,
                forall|k: int| 0 <= k < first ==> (#[trigger] chars@[k])@ == self.chars@[k]@,
                forall|k: int|
                    first <= k < first + j ==> (#[trigger] chars@[k])@ == other.chars@[k - first]@,
            decreases other.chars@.len() - j,
        {
            chars.push(other.chars[j].duplicate());
            j = j + 1;
        }
        let mut padding = Padding::default();
        padding.start(self.padding.start).middle(
            self.padding.middle || self.padding.end || other.padding.start || other.padding.middle,
        ).end(other.padding.end);
        let result = FheString { chars, padding };
        assert(result@ =~= self@ + other@);
        proof {
            if self.well_padded() && other.well_padded() && joinable(
                self@,
                self.padding,
                other@,
                other.padding,
            ) {
                lemma_joined(self@, self.padding, other@, other.padding);
            }
        }
        result
    }
}

/// The byte at place `j` of copy `k` stands at position `k * len + j`.
proof fn lemma_block_position(k: int, len: int, j: int)
    requires
        0 <= k,
        0 <= j < len,
    ensures
        (k * len + j) / len == k,
        (k * len + j) % len == j,
{
    vstd::arithmetic::div_mod::lemma_fundamental_div_mod_converse(k * len + j, len, k, j);
}

impl<F: Fhe> Clone for FheAsciiChar<F> {
    fn clone(&self) -> (copy: Self)
        ensures
            copy@ == self@,
    {
        self.duplicate()
    }
}

impl<F: Fhe> Clone for FheString<F> {
    fn clone(&self) -> (copy: Self)
        ensures
            copy@ == self@,
            copy.padding == self.padding,
    {
        self.duplicate()
    }
}

/// `len` as a sixteen-bit signed integer: its low sixteen bits, reinterpreted.
pub fn wrapping_i16(len: usize) -> (r: i16)
    ensures
        r == wrap_i16(len as int),
{
    let modulus: usize = 0x1_0000;
    let low: u16 = (len % modulus) as u16;
    if low >= 0x8000 {
        let half: i16 = (low - 0x8000) as i16;
        half + i16::MIN
    } else {
        low as i16
    }
}

/// The bytes of a clear pattern.
pub fn clear_pattern(pattern: &str) -> (bytes: Vec<u8>)
    ensures
        bytes@ == pattern.spec_bytes(),
{
    let source = pattern.as_bytes();
    let mut bytes: Vec<u8> = Vec::new();
    let mut i: usize = 0;
    while i < source.len()
        invariant
            i <= source@.len(),
            bytes@ == source@.take(i as int),
        decreases source@.len() - i,
    {
        bytes.push(source[i]);
        proof {
            assert(source@.take(i + 1) =~= source@.take(i as int).push(source@[i as int]));
        }
        i = i + 1;
    }
    proof {
        assert(source@.take(source@.len() as int) =~= source@);
    }
    bytes
}

/// The bytes in reverse order.
pub fn reversed_bytes(bytes: &Vec<u8>) -> (reversed: Vec<u8>)
    ensures
        reversed@ == bytes@.reverse(),
{
    let n = bytes.len();
    let mut reversed: Vec<u8> = Vec::new();
    let mut i: usize = 0;
    while i < n
        invariant
            i <= n,
            n == bytes@.len(),
            reversed@.len() == i,
            forall|k: int| 0 <= k < i ==> #[trigger] reversed@[k] == bytes@[n - 1 - k],
        decreases n - i,
    {
        reversed.push(bytes[n - 1 - i]);
        i = i + 1;
    }
    assert(reversed@ =~= bytes@.reverse());
    reversed
}

impl<F: Fhe> FheString<F> {
    /// Does the pattern match the content under the anchors `sof` and `eof`?
    fn has_match(&self, pattern: &Pattern<F>, sof: bool, eof: bool) -> (found: F::Bool)
        requires
            !pattern.padded(),
            pattern@.len() >= 1,
        ensures
            F::clear_bool(found) == search::match_scene(
                self@,
                self.padding,
                pattern@,
                sof,
                eof,
            ).outcome(false).truth(),
    {
        let mut se = SimpleEngine::new();
        let match_options = MatchingOptions { sof, eof, result: MatchResult::Bool };
        se.has_match(self, pattern, match_options)
    }

    /// The index of the first match of the pattern: raw if `raw`, else
    /// counted in characters.
    fn first_index(&self, pattern: &Pattern<F>, raw: bool) -> (index: F::I16)
        requires
            !pattern.padded(),
            pattern@.len() >= 1,
        ensures
            F::clear_i16(index) == crate::semantics::found_index(
                self@,
                search::raw_index(self@, self.padding, pattern@),
                raw,
            ),
    {
        let mut se = SimpleEngine::new();
        let match_options = MatchingOptions {
            sof: false,
            eof: false,
            result: if raw {
                MatchResult::RawStartIndex
            } else {
                MatchResult::StartIndex
            },
        };
        se.find(self, pattern, match_options)
    }

    /// Does the content end with the pattern?
    fn ends_with_pattern(&self, pattern: &Pattern<F>) -> (found: F::Bool)
        requires
            !pattern.padded(),
            pattern@.len() >= 1,
        ensures
            F::clear_bool(found) == search::ends_with(self@, self.padding, pattern@),
    {
        let rev_s = self.reversed();
        match pattern {
            Pattern::Encrypted(p) => {
                let rev_p = p.reversed();
                rev_s.has_match(&Pattern::Encrypted(&rev_p), true, false)
            },
            Pattern::Clear(p) => rev_s.has_match(&Pattern::Clear(reversed_bytes(p)), true, false),
        }
    }

    /// The index of the first match in the reversed content of the reversed
    /// pattern.
    fn first_index_reversed(&self, pattern: &Pattern<F>, raw: bool) -> (index: F::I16)
        requires
            !pattern.padded(),
            pattern@.len() >= 1,
        ensures
            F::clear_i16(index) == crate::semantics::found_index(
                self@.reverse(),
                search::raw_index(
                    self@.reverse(),
                    search::flipped(self.padding),
                    pattern@.reverse(),
                ),
                raw,
            ),
    {
        let rev_s = self.reversed();
        match pattern {
            Pattern::Encrypted(p) => {
                let rev_p = p.reversed();
                rev_s.first_index(&Pattern::Encrypted(&rev_p), raw)
            },
            Pattern::Clear(p) => rev_s.first_index(&Pattern::Clear(reversed_bytes(p)), raw),
        }
    }

    /// The index of the last match of the pattern, counted in characters.
    fn last_index(&self, pattern: &Pattern<F>) -> (index: F::I16)
        requires
            !pattern.padded(),
            pattern@.len() >= 1,
        ensures
            F::clear_i16(index) == search::rfind(self@, self.padding, pattern@),
    {
        let rev_find = self.first_index_reversed(pattern, false);
        let s_len = F::i16_from_u16(&self.len());
        let p_len = F::i16_trivial(wrapping_i16(pattern.len()));
        let flipped = F::i16_add_scalar(&F::i16_sub(&F::i16_sub(&s_len, &p_len), &rev_find), 1);
        let found = F::i16_from_bool(&F::i16_gt_scalar(&rev_find, -1));
        let kept = F::i16_mul(&found, &flipped);
        proof {
            let f = F::clear_i16(flipped);
            assert(wrap_i16(1 * f) == f);
            assert(wrap_i16(0 * f) == 0);
            assert(F::clear_i16(kept) == if F::clear_i16(rev_find) > -1 {
                f
            } else {
                0i16
            });
        }
        F::i16_sub_scalar(&kept, 1)
    }

    /// The content in which the bytes of the pattern at its start (if
    /// `is_prefix`) or at its end are turned into padding, provided that the
    /// content starts or ends with the pattern.  The `start` flag (for a
    /// prefix) or the `end` flag is set.
    fn strip_helper(&self, pattern: Pattern<F>, is_prefix: bool) -> (result: Self)
        requires
            !pattern.padded(),
            pattern@.len() >= 1,
        ensures
            result@ == if is_prefix {
                search::strip_prefix(self@, self.padding, pattern@)
            } else {
                search::strip_suffix(self@, self.padding, pattern@)
            },
            result.padding == if is_prefix {
                Padding { start: true, ..self.padding }
            } else {
                Padding { end: true, ..self.padding }
            },
            self.well_padded() && self@.len() <= i16::MAX ==> result.well_padded(),
    {
        let fhe_max_u8 = F::u8_trivial(u8::MAX);
        let raw_index = if is_prefix {
            self.first_index(&pattern, true)
        } else {
            let rev_find = self.first_index_reversed(&pattern, true);
            let s_len = F::i16_trivial(wrapping_i16(self.chars.len()));
            let p_len = F::i16_trivial(wrapping_i16(pattern.len()));
            F::i16_sub(&F::i16_sub(&s_len, &p_len), &rev_find)
        };
        let found = if is_prefix {
            self.has_match(&pattern, true, false)
        } else {
            self.ends_with_pattern(&pattern)
        };
        let end_index = if is_prefix {
            F::i16_add(
                &raw_index,
                &F::i16_trivial(wrapping_i16(pattern.len()).wrapping_sub(1)),
            )
        } else {
            raw_index
        };
        let ghost s = self@;
        let ghost was_found = F::clear_bool(found);
        let ghost end = F::clear_i16(end_index);
        let mut chars: Vec<FheAsciiChar<F>> = Vec::new();
        let mut i: usize = 0;
        while i < self.chars.len()
            invariant
                i <= self.chars@.len(),
                s == self@,
                was_found == F::clear_bool(found),
                end == F::clear_i16(end_index),
                F::clear_u8(fhe_max_u8) == 0xFF,
                chars@.len() == i,
                forall|k: int|
                    0 <= k < i ==> (#[trigger] chars@[k])@ == stripped(s, was_found, end, is_prefix)[k],
            decreases self.chars@.len() - i,
        {
            let c = &self.chars[i];
            assert(s[i as int] == c@);
            let position = wrapping_i16(i);
            let reached = if is_prefix {
                F::i16_ge_scalar(&end_index, position)
            } else {
                F::i16_le_scalar(&end_index, position)
            };
            let must_zero = F::bool_and(&found, &reached);
            let keep = F::u8_mul(&F::u8_from_bool(&F::bool_not(&must_zero)), &fhe_max_u8);
            proof {
                lemma_mask_u8(c@, !F::clear_bool(must_zero));
            }
            chars.push(FheAsciiChar { byte: F::u8_bitand(&c.byte, &keep) });
            i = i + 1;
        }
        let mut padding = self.padding;
        if is_prefix {
            padding.start(true);
        } else {
            padding.end(true);
        }
        let result = FheString { chars, padding };
        assert(result@ =~= stripped(s, was_found, end, is_prefix));
        proof {
            lemma_stripped(s, self.padding, was_found, end, is_prefix);
        }
        result
    }

    /// Does the pattern occur in the string?
    pub fn contains(&self, pattern: &FheString<F>) -> (found: F::Bool)
        requires
            !pattern.padding.any(),
            pattern@.len() >= 1,
        ensures
            F::clear_bool(found) == search::contains(self@, self.padding, pattern@),
    {
        self.has_match(&Pattern::Encrypted(pattern), false, false)
    }

    /// Does the string start with the pattern?
    pub fn starts_with(&self, pattern: &FheString<F>) -> (found: F::Bool)
        requires
            !pattern.padding.any(),
            pattern@.len() >= 1,
        ensures
            F::clear_bool(found) == search::starts_with(self@, self.padding, pattern@),
    {
        self.has_match(&Pattern::Encrypted(pattern), true, false)
    }

    /// Does the string end with the pattern?
    pub fn ends_with(&self, pattern: &FheString<F>) -> (found: F::Bool)
        requires
            !pattern.padding.any(),
            pattern@.len() >= 1,
        ensures
            F::clear_bool(found) == search::ends_with(self@, self.padding, pattern@),
    {
        self.ends_with_pattern(&Pattern::Encrypted(pattern))
    }

    /// Is the string equal to `other`?
    pub fn eq(&self, other: &Self) -> (equal: F::Bool)
        requires
            !other.padding.any(),
            other@.len() >= 1,
        ensures
            F::clear_bool(equal) == search::equal(self@, self.padding, other@),
    {
        self.has_match(&Pattern::Encrypted(other), true, true)
    }

    /// Is the string different from `other`?
    pub fn ne(&self, other: &Self) -> (different: F::Bool)
        requires
            !other.padding.any(),
            other@.len() >= 1,
        ensures
            F::clear_bool(different) == !search::equal(self@, self.padding, other@),
    {
        F::bool_not(&self.eq(other))
    }

    /// Is the string equal to `other` when letters are compared without case?
    pub fn eq_ignore_case(&self, other: &Self) -> (equal: F::Bool)
        requires
            !other.padding.any(),
            other@.len() >= 1,
        ensures
            F::clear_bool(equal) == search::equal_ignore_case(self@, self.padding, other@),
    {
        self.to_lowercase().eq(&other.to_lowercase())
    }

    /// The index of the first occurrence of the pattern, counted in
    /// characters; -1 where there is none.
    pub fn find(&self, pattern: &FheString<F>) -> (index: F::I16)
        requires
            !pattern.padding.any(),
            pattern@.len() >= 1,
        ensures
            F::clear_i16(index) == search::find(self@, self.padding, pattern@),
    {
        self.first_index(&Pattern::Encrypted(pattern), false)
    }

    /// The index of the last occurrence of the pattern, counted in
    /// characters; -1 where there is none.
    pub fn rfind(&self, pattern: &FheString<F>) -> (index: F::I16)
        requires
            !pattern.padding.any(),
            pattern@.len() >= 1,
        ensures
            F::clear_i16(index) == search::rfind(self@, self.padding, pattern@),
    {
        self.last_index(&Pattern::Encrypted(pattern))
    }

    /// The string without the pattern at its start, if it starts with it;
    /// else the string as it is.
    pub fn strip_prefix(&self, pattern: &FheString<F>) -> (result: Self)
        requires
            !pattern.padding.any(),
            pattern@.len() >= 1,
        ensures
            result@ == search::strip_prefix(self@, self.padding, pattern@),
            result.padding == (Padding { start: true, ..self.padding }),
            self.well_padded() && self@.len() <= i16::MAX ==> result.well_padded(),
    {
        self.strip_helper(Pattern::Encrypted(pattern), true)
    }

    /// The string without the pattern at its end, if it ends with it; else
    /// the string as it is.
    pub fn strip_suffix(&self, pattern: &FheString<F>) -> (result: Self)
        requires
            !pattern.padding.any(),
            pattern@.len() >= 1,
        ensures
            result@ == search::strip_suffix(self@, self.padding, pattern@),
            result.padding == (Padding { end: true, ..self.padding }),
            self.well_padded() && self@.len() <= i16::MAX ==> result.well_padded(),
    {
        self.strip_helper(Pattern::Encrypted(pattern), false)
    }

    // ----------------------------------------------------------
    // Functions with clear parameters
    // ----------------------------------------------------------
    /// Does the clear pattern occur in the string?
    pub fn contains_clear(&self, pattern: &str) -> (found: F::Bool)
        requires
            pattern.spec_bytes().len() >= 1,
        ensures
            F::clear_bool(found) == search::contains(self@, self.padding, pattern.spec_bytes()),
    {
        self.has_match(&Pattern::Clear(clear_pattern(pattern)), false, false)
    }

    /// Does the string start with the clear pattern?
    pub fn starts_with_clear(&self, pattern: &str) -> (found: F::Bool)
        requires
            pattern.spec_bytes().len() >= 1,
        ensures
            F::clear_bool(found) == search::starts_with(self@, self.padding, pattern.spec_bytes()),
    {
        self.has_match(&Pattern::Clear(clear_pattern(pattern)), true, false)
    }

    /// Does the string end with the clear pattern?
    pub fn ends_with_clear(&self, pattern: &str) -> (found: F::Bool)
        requires
            pattern.spec_bytes().len() >= 1,
        ensures
            F::clear_bool(found) == search::ends_with(self@, self.padding, pattern.spec_bytes()),
    {
        self.ends_with_pattern(&Pattern::Clear(clear_pattern(pattern)))
    }

    /// The index of the first occurrence of the clear pattern, counted in
    /// characters; -1 where there is none.
    pub fn find_clear(&self, pattern: &str) -> (index: F::I16)
        requires
            pattern.spec_bytes().len() >= 1,
        ensures
            F::clear_i16(index) == search::find(self@, self.padding, pattern.spec_bytes()),
    {
        self.first_index(&Pattern::Clear(clear_pattern(pattern)), false)
    }

    /// The index of the last occurrence of the clear pattern, counted in
    /// characters; -1 where there is none.
    pub fn rfind_clear(&self, pattern: &str) -> (index: F::I16)
        requires
            pattern.spec_bytes().len() >= 1,
        ensures
            F::clear_i16(index) == search::rfind(self@, self.padding, pattern.spec_bytes()),
    {
        self.last_index(&Pattern::Clear(clear_pattern(pattern)))
    }

    /// The string without the clear pattern at its start, if it starts with
    /// it; else the string as it is.
    pub fn strip_prefix_clear(&self, pattern: &str) -> (result: Self)
        requires
            pattern.spec_bytes().len() >= 1,
        ensures
            result@ == search::strip_prefix(self@, self.padding, pattern.spec_bytes()),
            result.padding == (Padding { start: true, ..self.padding }),
            self.well_padded() && self@.len() <= i16::MAX ==> result.well_padded(),
    {
        self.strip_helper(Pattern::Clear(clear_pattern(pattern)), true)
    }

    /// The string without the clear pattern at its end, if it ends with it;
    /// else the string as it is.
    pub fn strip_suffix_clear(&self, pattern: &str) -> (result: Self)
        requires
            pattern.spec_bytes().len() >= 1,
        ensures
            result@ == search::strip_suffix(self@, self.padding, pattern.spec_bytes()),
            result.padding == (Padding { end: true, ..self.padding }),
            self.well_padded() && self@.len() <= i16::MAX ==> result.well_padded(),
    {
        self.strip_helper(Pattern::Clear(clear_pattern(pattern)), false)
    }
}

} // verus!
