//! Splicing replacements into a source text without touching any other byte.

use vstd::prelude::*;
use vstd::utf8::*;
use vstd::string::StringSliceAdditionalSpecFns;
use vstd::string::StringExecFns;
use crate::syntax::lexer::{SyntaxError, TextRange};
use crate::syntax::utf8_facts::{at_boundary, lemma_encode_concat, slice_str};

verus! {

broadcast use vstd::utf8::encode_utf8_valid_utf8;

#[derive(Debug, Clone, PartialEq, Eq)]
pub struct TextEdit {
    pub range: TextRange,
    pub replacement: String,
}

impl TextEdit {
    /// Replace the bytes in `range` with `replacement`.
    pub fn replace(range: TextRange, replacement: &str) -> (r: TextEdit)
        ensures
            r.range == range,
            r.replacement@ == replacement@,
    {
        TextEdit { range, replacement: replacement.to_owned() }
    }

    /// Insert `text` at byte `offset`.
    pub fn insert(offset: usize, text: &str) -> (r: TextEdit)
        ensures
            r.range == (TextRange { start: offset, end: offset }),
            r.replacement@ == text@,
    {
        Self::replace(TextRange::new(offset, offset), text)
    }

    /// Remove the bytes in `range`.
    pub fn delete(range: TextRange) -> (r: TextEdit)
        ensures
            r.range == range,
            r.replacement@ == Seq::<char>::empty(),
    {
        let empty = String::new();
        Self::replace(range, empty.as_str())
    }
}

/// Edits are applied in order of `(start, end)`.
pub open spec fn key_le(a: TextEdit, b: TextEdit) -> bool {
    a.range.start < b.range.start || (a.range.start == b.range.start && a.range.end
        <= b.range.end)
}

/// `e` placed after every element of the sorted `s` whose key is not greater.
pub open spec fn insert_stable(s: Seq<TextEdit>, e: TextEdit) -> Seq<TextEdit>
    decreases s.len(),
{
    if s.len() == 0 {
        seq![e]
    } else if key_le(s.last(), e) {
        s.push(e)
    } else {
        insert_stable(s.drop_last(), e).push(s.last())
    }
}

/// The edits in stable `(start, end)` order.
pub open spec fn stable_sort(s: Seq<TextEdit>) -> Seq<TextEdit>
    decreases s.len(),
{
    if s.len() == 0 {
        Seq::empty()
    } else {
        insert_stable(stable_sort(s.drop_last()), s.last())
    }
}

/// What applying sorted edits from the `k`-th on, with everything before
/// `cursor` already emitted, comes to.
pub enum EditWalk {
    Done(Seq<u8>),
    Failed(SyntaxError),
    /// Slicing the source would cut a character in two.
    Panics,
}

pub open spec fn walk(bytes: Seq<u8>, edits: Seq<TextEdit>, k: int, cursor: int) -> EditWalk
    decreases edits.len() - k,
{
    if k < 0 || k >= edits.len() {
        if at_boundary(bytes, cursor) {
            EditWalk::Done(bytes.subrange(cursor, bytes.len() as int))
        } else {
            EditWalk::Panics
        }
    } else {
        let e = edits[k];
        if e.range.end > bytes.len() || e.range.start > e.range.end {
            EditWalk::Failed(
                SyntaxError::InvalidEditRange {
                    start: e.range.start,
                    end: e.range.end,
                    source_len: bytes.len() as usize,
                },
            )
        } else if e.range.start < cursor {
            EditWalk::Failed(SyntaxError::OverlappingEdits(e.range.start))
        } else if !at_boundary(bytes, cursor) || !at_boundary(bytes, e.range.start as int) {
            EditWalk::Panics
        } else {
            match walk(bytes, edits, k + 1, e.range.end as int) {
                EditWalk::Done(rest) => EditWalk::Done(
                    bytes.subrange(cursor, e.range.start as int) + encode_utf8(e.replacement@)
                        + rest,
                ),
                other => other,
            }
        }
    }
}

/// The outcome of applying `edits` to source bytes `bytes`.
pub open spec fn spec_apply(bytes: Seq<u8>, edits: Seq<TextEdit>) -> EditWalk {
    walk(bytes, stable_sort(edits), 0, 0)
}

/// One edit replaces exactly the bytes of its range: everything before and
/// after it is kept as it was.
pub proof fn lemma_single_edit_splices(bytes: Seq<u8>, e: TextEdit)
    requires
        valid_utf8(bytes),
        e.range.start <= e.range.end <= bytes.len(),
        at_boundary(bytes, e.range.start as int),
        at_boundary(bytes, e.range.end as int),
    ensures
        spec_apply(bytes, seq![e]) == EditWalk::Done(
            bytes.subrange(0, e.range.start as int) + encode_utf8(e.replacement@) + bytes.subrange(
                e.range.end as int,
                bytes.len() as int,
            ),
        ),
{
    let s = seq![e];
    let empty = Seq::<TextEdit>::empty();
    assert(s.drop_last() =~= empty);
    assert(stable_sort(empty) == empty);
    assert(insert_stable(empty, e) == s);
    assert(stable_sort(s) == insert_stable(stable_sort(s.drop_last()), s.last()));
    assert(stable_sort(s) =~= s);
    if bytes.len() > 0 {
        crate::syntax::utf8_facts::lemma_scalar_at_start(bytes);
    }
    assert(at_boundary(bytes, 0));
    assert(walk(bytes, s, 1, e.range.end as int) == EditWalk::Done(
        bytes.subrange(e.range.end as int, bytes.len() as int),
    ));
}

/// Edits that only touch are both applied: replacing `[p, q)` and then
/// `[q, r)` splices both replacements in, side by side, and keeps the bytes
/// before `p` and from `r` on.
pub proof fn lemma_touching_edits_both_apply(bytes: Seq<u8>, a: TextEdit, b: TextEdit)
    requires
        valid_utf8(bytes),
        a.range.start <= a.range.end,
        a.range.end == b.range.start,
        b.range.start <= b.range.end <= bytes.len(),
        at_boundary(bytes, a.range.start as int),
        at_boundary(bytes, a.range.end as int),
        at_boundary(bytes, b.range.end as int),
    ensures
        spec_apply(bytes, seq![a, b]) == EditWalk::Done(
            bytes.subrange(0, a.range.start as int) + encode_utf8(a.replacement@) + encode_utf8(
                b.replacement@,
            ) + bytes.subrange(b.range.end as int, bytes.len() as int),
        ),
{
    let s = seq![a, b];
    let one = seq![a];
    let empty = Seq::<TextEdit>::empty();
    assert(one.drop_last() =~= empty);
    assert(stable_sort(empty) == empty);
    assert(insert_stable(empty, a) == one);
    assert(stable_sort(one) == insert_stable(stable_sort(one.drop_last()), one.last()));
    assert(stable_sort(one) =~= one);
    assert(s.drop_last() =~= one);
    assert(key_le(a, b));
    assert(insert_stable(one, b) =~= s);
    assert(stable_sort(s) == insert_stable(stable_sort(s.drop_last()), s.last()));
    assert(stable_sort(s) =~= s);
    if bytes.len() > 0 {
        crate::syntax::utf8_facts::lemma_scalar_at_start(bytes);
    }
    assert(at_boundary(bytes, 0));
    assert(walk(bytes, s, 2, b.range.end as int) == EditWalk::Done(
        bytes.subrange(b.range.end as int, bytes.len() as int),
    ));
    assert(bytes.subrange(a.range.end as int, b.range.start as int) =~= Seq::<u8>::empty());
    assert(walk(bytes, s, 1, a.range.end as int) == EditWalk::Done(
        bytes.subrange(a.range.end as int, b.range.start as int) + encode_utf8(b.replacement@)
            + bytes.subrange(b.range.end as int, bytes.len() as int),
    ));
    assert(bytes.subrange(a.range.end as int, b.range.start as int) + encode_utf8(b.replacement@)
        + bytes.subrange(b.range.end as int, bytes.len() as int) =~= encode_utf8(b.replacement@)
        + bytes.subrange(b.range.end as int, bytes.len() as int));
    assert(bytes.subrange(0, a.range.start as int) + encode_utf8(a.replacement@) + (encode_utf8(
        b.replacement@,
    ) + bytes.subrange(b.range.end as int, bytes.len() as int)) =~= bytes.subrange(
        0,
        a.range.start as int,
    ) + encode_utf8(a.replacement@) + encode_utf8(b.replacement@) + bytes.subrange(
        b.range.end as int,
        bytes.len() as int,
    ));
}

/// Two edits that do not overlap are both applied, whatever order they are
/// given in: the text between them is kept, and so is the text before the
/// first and after the second.
pub proof fn lemma_disjoint_edits_in_either_order(bytes: Seq<u8>, a: TextEdit, b: TextEdit)
    requires
        valid_utf8(bytes),
        a.range.start <= a.range.end <= b.range.start <= b.range.end <= bytes.len(),
        a.range.start < b.range.start,
        at_boundary(bytes, a.range.start as int),
        at_boundary(bytes, a.range.end as int),
        at_boundary(bytes, b.range.start as int),
        at_boundary(bytes, b.range.end as int),
    ensures
        spec_apply(bytes, seq![a, b]) == EditWalk::Done(
            bytes.subrange(0, a.range.start as int) + encode_utf8(a.replacement@) + bytes.subrange(
                a.range.end as int,
                b.range.start as int,
            ) + encode_utf8(b.replacement@) + bytes.subrange(b.range.end as int, bytes.len() as int),
        ),
        spec_apply(bytes, seq![b, a]) == spec_apply(bytes, seq![a, b]),
{
    let s = seq![a, b];
    let t = seq![b, a];
    let empty = Seq::<TextEdit>::empty();
    let one = seq![a];
    let other = seq![b];
    assert(one.drop_last() =~= empty);
    assert(other.drop_last() =~= empty);
    assert(stable_sort(empty) == empty);
    assert(insert_stable(empty, a) == one);
    assert(insert_stable(empty, b) == other);
    assert(stable_sort(one) == insert_stable(stable_sort(one.drop_last()), one.last()));
    assert(stable_sort(other) == insert_stable(stable_sort(other.drop_last()), other.last()));
    assert(stable_sort(one) =~= one);
    assert(stable_sort(other) =~= other);
    assert(s.drop_last() =~= one);
    assert(t.drop_last() =~= other);
    assert(insert_stable(one, b) =~= s);
    assert(!key_le(b, a));
    assert(insert_stable(other, a) == insert_stable(other.drop_last(), a).push(b));
    assert(insert_stable(other, a) =~= s);
    assert(stable_sort(s) == insert_stable(stable_sort(s.drop_last()), s.last()));
    assert(stable_sort(t) == insert_stable(stable_sort(t.drop_last()), t.last()));
    assert(stable_sort(s) =~= s);
    assert(stable_sort(t) =~= s);
    if bytes.len() > 0 {
        crate::syntax::utf8_facts::lemma_scalar_at_start(bytes);
    }
    assert(at_boundary(bytes, 0));
    assert(walk(bytes, s, 2, b.range.end as int) == EditWalk::Done(
        bytes.subrange(b.range.end as int, bytes.len() as int),
    ));
    assert(walk(bytes, s, 1, a.range.end as int) == EditWalk::Done(
        bytes.subrange(a.range.end as int, b.range.start as int) + encode_utf8(b.replacement@)
            + bytes.subrange(b.range.end as int, bytes.len() as int),
    ));
    assert(bytes.subrange(0, a.range.start as int) + encode_utf8(a.replacement@) + (bytes.subrange(
        a.range.end as int,
        b.range.start as int,
    ) + encode_utf8(b.replacement@) + bytes.subrange(b.range.end as int, bytes.len() as int))
        =~= bytes.subrange(0, a.range.start as int) + encode_utf8(a.replacement@) + bytes.subrange(
        a.range.end as int,
        b.range.start as int,
    ) + encode_utf8(b.replacement@) + bytes.subrange(b.range.end as int, bytes.len() as int));
}

/// An edit that starts strictly inside the one before it is refused as
/// overlapping, at its own start.
pub proof fn lemma_overlapping_edit_refused(bytes: Seq<u8>, a: TextEdit, b: TextEdit)
    requires
        valid_utf8(bytes),
        a.range.start < b.range.start < a.range.end <= bytes.len(),
        b.range.start <= b.range.end <= bytes.len(),
        at_boundary(bytes, a.range.start as int),
    ensures
        spec_apply(bytes, seq![a, b]) == EditWalk::Failed(SyntaxError::OverlappingEdits(b.range.start)),
{
    let s = seq![a, b];
    let one = seq![a];
    let empty = Seq::<TextEdit>::empty();
    assert(one.drop_last() =~= empty);
    assert(stable_sort(empty) == empty);
    assert(insert_stable(empty, a) == one);
    assert(stable_sort(one) == insert_stable(stable_sort(one.drop_last()), one.last()));
    assert(stable_sort(one) =~= one);
    assert(s.drop_last() =~= one);
    assert(insert_stable(one, b) =~= s);
    assert(stable_sort(s) == insert_stable(stable_sort(s.drop_last()), s.last()));
    assert(stable_sort(s) =~= s);
    if bytes.len() > 0 {
        crate::syntax::utf8_facts::lemma_scalar_at_start(bytes);
    }
    assert(at_boundary(bytes, 0));
    assert(s[1] == b);
    assert(walk(bytes, s, 1, a.range.end as int) == EditWalk::Failed(
        SyntaxError::OverlappingEdits(b.range.start),
    ));
    assert(walk(bytes, s, 0, 0) == EditWalk::Failed(SyntaxError::OverlappingEdits(b.range.start)));
}

fn copy_edit(e: &TextEdit) -> (r: TextEdit)
    ensures
        r == *e,
{
    TextEdit { range: e.range, replacement: e.replacement.clone() }
}

fn key_le_exec(a: &TextEdit, b: &TextEdit) -> (r: bool)
    ensures
        r == key_le(*a, *b),
{
    a.range.start < b.range.start || (a.range.start == b.range.start && a.range.end
        <= b.range.end)
}

/// Inserting at the position after the last not-greater element is what
/// `insert_stable` describes.
proof fn lemma_insert_stable_at(s: Seq<TextEdit>, e: TextEdit, p: int)
    requires
        0 <= p <= s.len(),
        p == 0 || key_le(s[p - 1], e),
        forall|j: int| p <= j < s.len() ==> !key_le(#[trigger] s[j], e),
    ensures
        insert_stable(s, e) == s.take(p) + seq![e] + s.skip(p),
    decreases s.len(),
{
    if s.len() == 0 {
        assert(s.take(p) + seq![e] + s.skip(p) =~= seq![e]);
    } else if p == s.len() {
        assert(key_le(s.last(), e));
        assert(s.take(p) + seq![e] + s.skip(p) =~= s.push(e));
    } else {
        assert(!key_le(s[s.len() - 1], e));
        let init = s.drop_last();
        assert forall|j: int| p <= j < init.len() implies !key_le(#[trigger] init[j], e) by {
            assert(init[j] == s[j]);
        }
        if p > 0 {
            assert(init[p - 1] == s[p - 1]);
        }
        lemma_insert_stable_at(init, e, p);
        assert(init.take(p) + seq![e] + init.skip(p) + seq![s.last()] =~= s.take(p) + seq![e]
            + s.skip(p));
    }
}

/// Sort the edits by `(start, end)`, keeping equal keys in their given order.
fn sort_edits(edits: &[TextEdit]) -> (r: Vec<TextEdit>)
    ensures
        r@ == stable_sort(edits@),
{
    let mut ordered: Vec<TextEdit> = Vec::new();
    let mut i: usize = 0;
    while i < edits.len()
        invariant
            i <= edits@.len(),
            ordered@ == stable_sort(edits@.take(i as int)),
        decreases edits@.len() - i,
    {
        let e = copy_edit(&edits[i]);
        let mut p = ordered.len();
        while p > 0 && !key_le_exec(&ordered[p - 1], &e)
            invariant
                p <= ordered@.len(),
                forall|j: int| p <= j < ordered@.len() ==> !key_le(#[trigger] ordered@[j], e),
            decreases p,
        {
            p = p - 1;
        }
        proof {
            lemma_insert_stable_at(ordered@, e, p as int);
            let t = edits@.take(i + 1);
            assert(t.drop_last() =~= edits@.take(i as int));
            assert(t.last() == edits@[i as int]);
        }
        ordered.insert(p, e);
        proof {
            assert(ordered@ =~= stable_sort(edits@.take(i as int)).take(p as int) + seq![edits@[i as int]]
                + stable_sort(edits@.take(i as int)).skip(p as int));
        }
        i = i + 1;
    }
    proof {
        assert(edits@.take(edits@.len() as int) =~= edits@);
    }
    ordered
}

pub open spec fn prefix_walk(p: Seq<u8>, w: EditWalk) -> EditWalk {
    match w {
        EditWalk::Done(rest) => EditWalk::Done(p + rest),
        other => other,
    }
}

/// Apply `edits` to `source`. Edits are taken in `(start, end)` order; one
/// that runs past the end or is reversed, or that starts before the previous
/// one ends, fails the whole call. Bytes outside every edit are copied
/// unchanged.
pub fn apply_text_edits(source: &str, edits: &[TextEdit]) -> (res: Result<String, SyntaxError>)
    requires
        !(spec_apply(source.spec_bytes(), edits@) is Panics),
    ensures
        match res {
            Ok(out) => spec_apply(source.spec_bytes(), edits@) == EditWalk::Done(encode_utf8(out@)),
            Err(e) => spec_apply(source.spec_bytes(), edits@) == EditWalk::Failed(e),
        },
{
    let ghost bytes = source.spec_bytes();
    let ordered = sort_edits(edits);
    assert(spec_apply(bytes, edits@) == walk(bytes, ordered@, 0, 0));
    let n = source.as_bytes().len();
    let mut cursor: usize = 0;
    let mut output = String::new();
    let mut k: usize = 0;
    proof {
        assert(encode_utf8(output@) =~= Seq::<u8>::empty());
        assert(Seq::<u8>::empty() + Seq::<u8>::empty() =~= Seq::<u8>::empty());
        assert(prefix_walk(Seq::<u8>::empty(), walk(bytes, ordered@, 0, 0)) == walk(
            bytes,
            ordered@,
            0,
            0,
        )) by {
            match walk(bytes, ordered@, 0, 0) {
                EditWalk::Done(r) => {
                    assert(Seq::<u8>::empty() + r =~= r);
                },
                _ => {},
            }
        }
    }
    while k < ordered.len()
        invariant
            n == bytes.len(),
            bytes == source.spec_bytes(),
            k <= ordered@.len(),
            cursor <= n,
            walk(bytes, ordered@, 0, 0) == prefix_walk(
                encode_utf8(output@),
                walk(bytes, ordered@, k as int, cursor as int),
            ),
            !(walk(bytes, ordered@, 0, 0) is Panics),
            spec_apply(bytes, edits@) == walk(bytes, ordered@, 0, 0),
        decreases ordered@.len() - k,
    {
        let edit = &ordered[k];
        proof {
            assert(ordered@[k as int] == *edit);
        }
        if edit.range.end > n || edit.range.start > edit.range.end {
            proof {
                assert(walk(bytes, ordered@, k as int, cursor as int) == EditWalk::Failed(
                    SyntaxError::InvalidEditRange {
                        start: edit.range.start,
                        end: edit.range.end,
                        source_len: n,
                    },
                ));
            }
            return Err(
                SyntaxError::InvalidEditRange {
                    start: edit.range.start,
                    end: edit.range.end,
                    source_len: n,
                },
            );
        }
        if edit.range.start < cursor {
            proof {
                assert(walk(bytes, ordered@, k as int, cursor as int) == EditWalk::Failed(
                    SyntaxError::OverlappingEdits(edit.range.start),
                ));
                assert(walk(bytes, ordered@, 0, 0) == EditWalk::Failed(
                    SyntaxError::OverlappingEdits(edit.range.start),
                ));
            }
            return Err(SyntaxError::OverlappingEdits(edit.range.start));
        }
        let ghost before = output@;
        let piece = slice_str(source, cursor, edit.range.start);
        output.append(piece);
        let ghost mid = output@;
        output.append(edit.replacement.as_str());
        proof {
            lemma_encode_concat(before, piece@);
            lemma_encode_concat(mid, edit.replacement@);
            let rest = walk(bytes, ordered@, k + 1, edit.range.end as int);
            match rest {
                EditWalk::Done(r) => {
                    assert(encode_utf8(before) + (bytes.subrange(
                        cursor as int,
                        edit.range.start as int,
                    ) + encode_utf8(edit.replacement@) + r) =~= encode_utf8(output@) + r);
                },
                _ => {},
            }
        }
        cursor = edit.range.end;
        k = k + 1;
    }
    let ghost before = output@;
    let tail = slice_str(source, cursor, n);
    output.append(tail);
    proof {
        lemma_encode_concat(before, tail@);
    }
    Ok(output)
}

} // verus!
