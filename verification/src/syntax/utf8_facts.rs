//! Facts about UTF-8 byte sequences that the lexer and the outline rely on to
//! cut source text only at character boundaries.

use vstd::prelude::*;
use vstd::utf8::*;
use vstd::string::StringSliceAdditionalSpecFns;

verus! {

broadcast use vstd::utf8::encode_utf8_valid_utf8;

/// The number of bytes a UTF-8 scalar occupies, read off its leading byte.
/// Bytes that cannot lead a scalar count as one byte.
pub open spec fn char_width(b: u8) -> int {
    if b < 0x80 {
        1
    } else if 0xc0 <= b <= 0xdf {
        2
    } else if 0xe0 <= b <= 0xef {
        3
    } else if 0xf0 <= b <= 0xf7 {
        4
    } else {
        1
    }
}

/// `k` is the start of a character in `bytes`, or the end of `bytes`.
pub open spec fn at_boundary(bytes: Seq<u8>, k: int) -> bool {
    k == bytes.len() || (0 <= k < bytes.len() && !is_continuation_byte(bytes[k]))
}

/// In valid UTF-8, a character that starts at `i` spans exactly its leading
/// byte's width, and the next character (if any) starts right after it.
pub proof fn lemma_scalar_at(bytes: Seq<u8>, i: int)
    requires
        valid_utf8(bytes),
        0 <= i < bytes.len(),
        !is_continuation_byte(bytes[i]),
    ensures
        i + char_width(bytes[i]) <= bytes.len(),
        forall|j: int| i < j < i + char_width(bytes[i]) ==> is_continuation_byte(#[trigger] bytes[j]),
        at_boundary(bytes, i + char_width(bytes[i])),
    decreases bytes.len(),
{
    let l = length_of_first_scalar(bytes);
    let rest = pop_first_scalar(bytes);
    assert(valid_first_scalar(bytes));
    assert(valid_utf8(rest));
    assert(rest.len() == bytes.len() - l);
    if i < l {
        if i > 0 {
            assert(is_continuation_byte(bytes[i]));
        }
        assert(i == 0);
        assert(char_width(bytes[0]) == l);
        if l < bytes.len() {
            assert(rest[0] == bytes[l]);
            assert(valid_first_scalar(rest));
        }
    } else {
        assert(rest[i - l] == bytes[i]);
        lemma_scalar_at(rest, i - l);
        let w = char_width(bytes[i]);
        assert forall|j: int| i < j < i + w implies is_continuation_byte(#[trigger] bytes[j]) by {
            assert(bytes[j] == rest[j - l]);
        }
        if i + w < bytes.len() {
            assert(bytes[i + w] == rest[i - l + w]);
        }
    }
}

/// Valid UTF-8 does not start in the middle of a character.
pub proof fn lemma_scalar_at_start(bytes: Seq<u8>)
    requires
        valid_utf8(bytes),
        bytes.len() > 0,
    ensures
        !is_continuation_byte(bytes[0]),
{
    assert(valid_first_scalar(bytes));
}

/// An ASCII byte at a character start is a whole character.
pub proof fn lemma_ascii_step(bytes: Seq<u8>, i: int)
    requires
        valid_utf8(bytes),
        0 <= i < bytes.len(),
        bytes[i] < 0x80,
    ensures
        at_boundary(bytes, i + 1),
{
    lemma_scalar_at(bytes, i);
}

/// Our notion of boundary agrees with the standard library's.
pub proof fn lemma_boundary_is_char_boundary(bytes: Seq<u8>, k: int)
    requires
        valid_utf8(bytes),
        at_boundary(bytes, k),
    ensures
        is_char_boundary(bytes, k),
{
    if k == bytes.len() {
        is_char_boundary_start_end_of_seq(bytes);
    } else {
        is_char_boundary_iff_not_is_continuation_byte(bytes, k);
    }
}

/// Encoding distributes over concatenation.
pub proof fn lemma_encode_concat(a: Seq<char>, b: Seq<char>)
    ensures
        encode_utf8(a + b) == encode_utf8(a) + encode_utf8(b),
    decreases a.len(),
{
    if a.len() == 0 {
        assert(a + b =~= b);
        assert(encode_utf8(a) =~= Seq::<u8>::empty());
        assert(encode_utf8(a) + encode_utf8(b) =~= encode_utf8(b));
    } else {
        assert((a + b).drop_first() =~= a.drop_first() + b);
        assert((a + b)[0] == a[0]);
        lemma_encode_concat(a.drop_first(), b);
        assert(encode_utf8(a + b) =~= encode_scalar(a[0] as u32) + encode_utf8(a.drop_first() + b));
        assert(encode_utf8(a) + encode_utf8(b) =~= encode_scalar(a[0] as u32) + (encode_utf8(
            a.drop_first(),
        ) + encode_utf8(b)));
    }
}

/// Two character sequences with the same encoding are equal.
pub proof fn lemma_encode_injective(a: Seq<char>, b: Seq<char>)
    requires
        encode_utf8(a) == encode_utf8(b),
    ensures
        a == b,
{
    encode_utf8_decode_utf8(a);
    encode_utf8_decode_utf8(b);
}

/// The part of `source` between two character boundaries, given as byte offsets.
pub fn slice_str<'a>(source: &'a str, start: usize, end: usize) -> (r: &'a str)
    requires
        start <= end <= source.spec_bytes().len(),
        at_boundary(source.spec_bytes(), start as int),
        at_boundary(source.spec_bytes(), end as int),
    ensures
        r.spec_bytes() == source.spec_bytes().subrange(start as int, end as int),
{
    let ghost bytes = source.spec_bytes();
    proof {
        lemma_boundary_is_char_boundary(bytes, end as int);
    }
    let (head, _) = source.split_at(end);
    let ghost hb = head.spec_bytes();
    proof {
        assert(hb =~= bytes.subrange(0, end as int));
        if start < end {
            assert(hb[start as int] == bytes[start as int]);
        }
        assert(at_boundary(hb, start as int));
        lemma_boundary_is_char_boundary(hb, start as int);
    }
    let (_, tail) = head.split_at(start);
    proof {
        assert(tail.spec_bytes() =~= bytes.subrange(start as int, end as int));
    }
    tail
}

/// An owned copy of the part of `source` between two character boundaries.
pub fn slice_string(source: &str, start: usize, end: usize) -> (r: String)
    requires
        start <= end <= source.spec_bytes().len(),
        at_boundary(source.spec_bytes(), start as int),
        at_boundary(source.spec_bytes(), end as int),
    ensures
        encode_utf8(r@) == source.spec_bytes().subrange(start as int, end as int),
{
    let piece = slice_str(source, start, end);
    piece.to_owned()
}

} // verus!
