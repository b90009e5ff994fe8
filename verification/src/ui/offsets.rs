//! Mapping byte offsets to UTF-16 string indices.
//!
//! The parser reports spans as UTF-8 byte offsets. A JavaScript string is
//! UTF-16, and `String.prototype.slice` counts UTF-16 code units, so once a
//! document holds any non-ASCII character every later offset names a
//! different position in the two encodings. The table below converts once,
//! in the one place that has both the source text and the offsets.

use vstd::prelude::*;
use vstd::utf8::*;
use vstd::string::StringSliceAdditionalSpecFns;
use crate::syntax::utf8_facts::{at_boundary, char_width, lemma_scalar_at};

verus! {

broadcast use vstd::utf8::encode_utf8_valid_utf8;

/// UTF-16 code units of the character whose leading byte is `b`: two for a
/// four-byte character (a surrogate pair), one otherwise.
pub open spec fn units_of(b: u8) -> nat {
    if 0xf0 <= b <= 0xf7 {
        2
    } else {
        1
    }
}

/// UTF-16 units of the characters that start before byte `n` and end at or
/// before byte `i`.
pub open spec fn ended_units(bytes: Seq<u8>, i: int, n: int) -> nat
    decreases n,
{
    if n <= 0 {
        0
    } else {
        ended_units(bytes, i, n - 1) + (if !is_continuation_byte(bytes[n - 1]) && n - 1
            + char_width(bytes[n - 1]) <= i {
            units_of(bytes[n - 1])
        } else {
            0
        })
    }
}

/// The UTF-16 index of byte offset `i`: the UTF-16 length of the characters
/// that end at or before it. An offset inside a character maps to that
/// character's start.
pub open spec fn utf16_index(bytes: Seq<u8>, i: int) -> nat {
    ended_units(bytes, i, i)
}

/// In ASCII text a byte offset is its own UTF-16 index.
pub proof fn lemma_ascii_offsets_unchanged(bytes: Seq<u8>, i: int)
    requires
        forall|k: int| 0 <= k < bytes.len() ==> #[trigger] bytes[k] < 0x80,
        0 <= i <= bytes.len(),
    ensures
        utf16_index(bytes, i) == i,
{
    lemma_ascii_units(bytes, i, i);
}

proof fn lemma_ascii_units(bytes: Seq<u8>, i: int, n: int)
    requires
        forall|k: int| 0 <= k < bytes.len() ==> #[trigger] bytes[k] < 0x80,
        0 <= n <= i <= bytes.len(),
    ensures
        ended_units(bytes, i, n) == n,
    decreases n,
{
    if n > 0 {
        lemma_ascii_units(bytes, i, n - 1);
        assert(bytes[n - 1] < 0x80);
    }
}

/// Byte offset to UTF-16 code-unit offset, precomputed for one source string.
pub struct Utf16Offsets {
    /// Indexed by byte offset, one past the end included.
    prefix: Vec<u32>,
}

impl View for Utf16Offsets {
    type V = Seq<u32>;

    closed spec fn view(&self) -> Seq<u32> {
        self.prefix@
    }
}

/// Characters before a boundary end at or before it.
proof fn lemma_before_boundary(bytes: Seq<u8>, b: int, i: int, n: int)
    requires
        valid_utf8(bytes),
        0 <= n <= b <= i,
        b <= bytes.len(),
        at_boundary(bytes, b),
    ensures
        ended_units(bytes, i, n) == ended_units(bytes, b, n),
    decreases n,
{
    if n > 0 {
        lemma_before_boundary(bytes, b, i, n - 1);
        let s = n - 1;
        if !is_continuation_byte(bytes[s]) {
            lemma_scalar_at(bytes, s);
            let w = char_width(bytes[s]);
            if s + w > b {
                assert(s < b < s + w);
                assert(is_continuation_byte(bytes[b]));
            }
        }
    }
}

/// Continuation bytes add nothing.
proof fn lemma_continuations(bytes: Seq<u8>, i: int, from: int, n: int)
    requires
        0 <= from <= n <= bytes.len(),
        forall|s: int| from <= s < n ==> is_continuation_byte(#[trigger] bytes[s]),
    ensures
        ended_units(bytes, i, n) == ended_units(bytes, i, from),
    decreases n - from,
{
    if n > from {
        lemma_continuations(bytes, i, from, n - 1);
    }
}

impl Utf16Offsets {
    #[verifier::type_invariant]
    spec fn inv(self) -> bool {
        self.prefix@.len() >= 1
    }

    /// The table for `source`: entry `i` is the UTF-16 index of byte `i`.
    pub fn new(source: &str) -> (r: Utf16Offsets)
        requires
            source.spec_bytes().len() < u32::MAX,
        ensures
            r@.len() == source.spec_bytes().len() + 1,
            forall|i: int| 0 <= i < r@.len() ==> #[trigger] r@[i] == utf16_index(source.spec_bytes(), i),
    {
        let bytes = source.as_bytes();
        let ghost bs = bytes@;
        let n = bytes.len();
        let mut prefix: Vec<u32> = Vec::new();
        prefix.push(0);
        let mut byte: usize = 0;
        let mut utf16: u32 = 0;
        proof {
            assert(valid_utf8(bs));
        }
        while byte < n
            invariant
                bytes@ == bs,
                n == bs.len(),
                n < u32::MAX,
                valid_utf8(bs),
                byte <= n,
                at_boundary(bs, byte as int),
                prefix@.len() == byte + 1,
                utf16 == utf16_index(bs, byte as int),
                utf16 <= byte,
                forall|j: int| 0 <= j <= byte ==> #[trigger] prefix@[j] == utf16_index(bs, j),
            decreases n - byte,
        {
            let lead = bytes[byte];
            let width: usize = if lead < 0x80 {
                1
            } else if lead < 0xe0 {
                2
            } else if lead < 0xf0 {
                3
            } else if lead <= 0xf7 {
                4
            } else {
                1
            };
            let units: u32 = if lead >= 0xf0 && lead <= 0xf7 {
                2
            } else {
                1
            };
            proof {
                lemma_scalar_at(bs, byte as int);
                assert(width == char_width(lead));
                assert(units <= width);
            }
            let mut k: usize = 1;
            while k < width
                invariant
                    bytes@ == bs,
                    n == bs.len(),
                    valid_utf8(bs),
                    byte < n,
                    1 <= k <= width,
                    width == char_width(bs[byte as int]),
                    byte + width <= n,
                    at_boundary(bs, byte as int),
                    forall|j: int|
                        byte < j < byte + width ==> is_continuation_byte(#[trigger] bs[j]),
                    prefix@.len() == byte + k,
                    utf16 == utf16_index(bs, byte as int),
                    forall|j: int| 0 <= j < byte + k ==> #[trigger] prefix@[j] == utf16_index(bs, j),
                decreases width - k,
            {
                proof {
                    let j = byte + k;
                    lemma_before_boundary(bs, byte as int, j, byte as int);
                    lemma_continuations(bs, j, byte + 1, j);
                }
                prefix.push(utf16);
                k = k + 1;
            }
            utf16 = utf16 + units;
            byte = byte + width;
            proof {
                let b0 = byte - width;
                lemma_before_boundary(bs, b0, byte as int, b0);
                lemma_continuations(bs, byte as int, b0 + 1, byte as int);
            }
            prefix.push(utf16);
        }
        Utf16Offsets { prefix }
    }

    /// The UTF-16 index a JavaScript caller should use for this byte offset;
    /// an offset past the end maps to the end.
    pub fn at(&self, byte: usize) -> (r: usize)
        ensures
            self@.len() >= 1,
            r == (if byte < self@.len() {
                self@[byte as int]
            } else {
                self@[self@.len() - 1]
            }),
    {
        proof {
            use_type_invariant(self);
        }
        if byte < self.prefix.len() {
            self.prefix[byte] as usize
        } else {
            self.prefix[self.prefix.len() - 1] as usize
        }
    }
}

} // verus!
