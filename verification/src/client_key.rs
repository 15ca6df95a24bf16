//! The client side: turning clear strings into encrypted strings and back.
use crate::ciphertext::{FheAsciiChar, FheString, Padding};
use crate::padding_laws::lemma_zeros_at_end;
use crate::primitives::{ClientKey, Fhe};
use crate::text::visible;
use crate::text_laws::lemma_visible_back;
use vstd::prelude::*;
use vstd::string::StringSliceAdditionalSpecFns;

verus! {

/// A client key together with the padding policy for the strings it
/// encrypts: with a block size of 0 a string is encrypted as it is, else zeros
/// are appended up to the next multiple of the block size.
pub struct StringClientKey<K> {
    pub key: K,
    padding: usize,
}

/// Can the bytes be encrypted?  They are ASCII, and a zero byte is followed by
/// zero bytes only.
pub open spec fn valid_clear(bytes: Seq<u8>) -> bool {
    &&& forall|i: int| 0 <= i < bytes.len() ==> #[trigger] bytes[i] < 128
    &&& forall|i: int, j: int| 0 <= i < j < bytes.len() && bytes[i] == 0 ==> bytes[j] == 0
}

/// Number of zeros that are appended to `len` bytes for the block size
/// `block`: none for a block size of 0 or a string that brings its own
/// padding; else as many as lead to the next multiple of the block size, a
/// whole block for the empty string.
pub open spec fn required_zeros(len: nat, block: nat, already_padded: bool) -> nat {
    if block == 0 || already_padded {
        0
    } else if len < block {
        (block - len) as nat
    } else {
        ((block - len % block) % (block as int)) as nat
    }
}

/// May the clear string be encrypted?
pub fn is_valid_clear(clear_str: &str) -> (valid: bool)
    ensures
        valid == valid_clear(clear_str.spec_bytes()),
{
    let bytes = clear_str.as_bytes();
    let mut seen_zero = false;
    let mut i: usize = 0;
    while i < bytes.len()
        invariant
            i <= bytes@.len(),
            bytes@ == clear_str.spec_bytes(),
            forall|k: int| 0 <= k < i ==> #[trigger] bytes@[k] < 128,
            forall|a: int, b: int| 0 <= a < b < i && bytes@[a] == 0 ==> bytes@[b] == 0,
            seen_zero == exists|k: int| 0 <= k < i && bytes@[k] == 0,
        decreases bytes@.len() - i,
    {
        let b = bytes[i];
        if b >= 128 {
            assert(!(bytes@[i as int] < 128));
            assert(!valid_clear(bytes@));
            return false;
        }
        if seen_zero && b != 0 {
            proof {
                let k = choose|k: int| 0 <= k < i && bytes@[k] == 0;
                assert(0 <= k < i < bytes@.len() && bytes@[k] == 0 && bytes@[i as int] != 0);
                assert(!valid_clear(bytes@));
            }
            return false;
        }
        if b == 0 {
            seen_zero = true;
        }
        i = i + 1;
    }
    true
}

impl<K> StringClientKey<K> {
    pub fn new(key: K, padding: usize) -> (client_key: Self)
        ensures
            client_key.holds() == key,
            client_key.block() == padding,
    {
        Self { key, padding }
    }

    /// The key that the wrapper holds.
    pub closed spec fn holds(&self) -> K {
        self.key
    }

    /// The block size of the padding policy.
    pub closed spec fn block(&self) -> usize {
        self.padding
    }

    /// Encrypts a clear string byte by byte and appends the zeros that the
    /// padding policy asks for.  The result may hold zeros at its end if the
    /// policy pads or the string brought zeros of its own.
    pub fn encrypt<F: Fhe>(&self, clear_str: &str) -> (fhe_string: FheString<F>) where
        K: ClientKey<F>,

        requires
            valid_clear(clear_str.spec_bytes()),
        ensures
            fhe_string@ == clear_str.spec_bytes() + Seq::new(
                required_zeros(
                    clear_str.spec_bytes().len(),
                    self.block() as nat,
                    clear_str.spec_bytes().contains(0u8),
                ),
                |i: int| 0u8,
            ),
            fhe_string.padding == (Padding {
                start: false,
                middle: false,
                end: self.block() > 0 || clear_str.spec_bytes().contains(0u8),
            }),
            fhe_string.well_padded(),
    {
        let bytes = clear_str.as_bytes();
        let len = bytes.len();
        let mut chars: Vec<FheAsciiChar<F>> = Vec::new();
        let mut already_padded = false;
        let mut i: usize = 0;
        while i < len
            invariant
                i <= len,
                len == bytes@.len(),
                chars@.len() == i,
                forall|k: int| 0 <= k < i ==> (#[trigger] chars@[k])@ == bytes@[k],
                already_padded == exists|k: int| 0 <= k < i && bytes@[k] == 0,
            decreases len - i,
        {
            if bytes[i] == 0 {
                already_padded = true;
            }
            chars.push(FheAsciiChar::encrypt(bytes[i], &self.key));
            i = i + 1;
        }
        proof {
            if bytes@.contains(0u8) {
                let k = choose|k: int| 0 <= k < bytes@.len() && bytes@[k] == 0u8;
                assert(bytes@[k] == 0);
            }
            assert(already_padded == bytes@.contains(0u8));
        }
        let required: usize = if self.padding == 0 || already_padded {
            0
        } else if len < self.padding {
            self.padding - len
        } else {
            (self.padding - len % self.padding) % self.padding
        };
        let mut z: usize = 0;
        while z < required
            invariant
                z <= required,
                len == bytes@.len(),
                chars@.len() == len + z,
                forall|k: int| 0 <= k < len ==> (#[trigger] chars@[k])@ == bytes@[k],
                forall|k: int| len <= k < len + z ==> (#[trigger] chars@[k])@ == 0,
            decreases required - z,
        {
            chars.push(FheAsciiChar::encrypt(0, &self.key));
            z = z + 1;
        }
        let mut padding = Padding::default();
        padding.end(already_padded || self.padding > 0);
        let fhe_string = FheString { chars, padding };
        assert(fhe_string@ =~= bytes@ + Seq::new(required as nat, |i: int| 0u8));
        proof {
            let all = fhe_string@;
            assert forall|i: int, j: int| 0 <= i < j < all.len() && all[i] == 0 implies all[j]
                == 0 by {
                if j < len {
                    assert(bytes@[i] == 0);
                }
            }
            if all.contains(0u8) {
                let k = choose|k: int| 0 <= k < all.len() && all[k] == 0u8;
                if k < len {
                    assert(bytes@[k] == 0u8);
                    assert(bytes@.contains(0u8));
                }
            }
            lemma_zeros_at_end(all, fhe_string.padding);
        }
        fhe_string
    }

    /// Decrypts an encrypted string: its characters, that is, its bytes that
    /// are no padding, in their order.
    pub fn decrypt<F: Fhe>(&self, fhe_string: &FheString<F>) -> (ascii_bytes: Vec<u8>) where
        K: ClientKey<F>,

        ensures
            ascii_bytes@ == visible(fhe_string@),
    {
        let ghost s = fhe_string@;
        let mut ascii_bytes: Vec<u8> = Vec::new();
        let mut i: usize = 0;
        while i < fhe_string.chars.len()
            invariant
                i <= fhe_string.chars@.len(),
                s == fhe_string@,
                ascii_bytes@ == visible(s.take(i as int)),
            decreases fhe_string.chars@.len() - i,
        {
            let byte = self.key.decrypt_u8(&fhe_string.chars[i].byte);
            assert(byte == s[i as int]);
            proof {
                lemma_visible_back(s.take(i + 1));
                assert(s.take(i + 1).drop_last() =~= s.take(i as int));
            }
            if byte != 0 {
                ascii_bytes.push(byte);
            }
            i = i + 1;
        }
        proof {
            assert(s.take(s.len() as int) =~= s);
        }
        ascii_bytes
    }
}

} // verus!
