//! A syntactic map of every declaration and statement in a document, with the
//! byte ranges needed to rewrite one of them in place.
//!
//! The outline is purely syntactic: it groups tokens into statements (ending
//! at a `;`) and declarations (ending with a `{ ... }` block) and reads the
//! leading identifiers, but it does not know what an `ingredient` is.
//!
//! Within any scope (the document, or the inside of a block) the nodes are
//! contiguous and non-overlapping, the first starts at the scope start, and
//! each node's `range` ends exactly where the next begins; whatever precedes a
//! node's code inside its range, and whatever follows the last node, is
//! trivia. Leading trivia attaches to the node that follows it.

use vstd::prelude::*;
use vstd::utf8::*;
use vstd::string::StringSliceAdditionalSpecFns;
use crate::syntax::lexer::{SyntaxError, SyntaxKind, SyntaxToken, TextRange, kind_is_trivia};
use crate::syntax::tree::{
    CstElement, CstNode, CstNodeKind, LosslessDocument, delimited, elem_range, elems_contiguous,
    lemma_wf_node, lemma_wf_token, spec_parse, wf_element,
};
use crate::syntax::text::str_eq;
use crate::syntax::utf8_facts::{at_boundary, lemma_ascii_step, slice_string};

verus! {

broadcast use vstd::utf8::encode_utf8_valid_utf8;

#[derive(Debug, Clone, Copy, PartialEq, Eq, Structural)]
pub enum OutlineForm {
    /// Carries a block: `ingredient flour measured by mass { ... }`.
    Declaration,
    /// Ends at a semicolon: `title "Pizza Dough";`.
    Statement,
}

#[derive(Debug, PartialEq, Eq)]
pub struct OutlineNode {
    /// The leading identifier (`ingredient`, `title`, ...); empty when the
    /// node does not start with one.
    pub keyword: String,
    pub form: OutlineForm,
    /// The second element when it is an identifier: the declared symbol on a
    /// declaration, the referenced one on a binding.
    pub symbol: Option<String>,
    /// The whole node including leading trivia: the span to delete.
    pub range: TextRange,
    /// The node without leading trivia: the span to replace.
    pub code_range: TextRange,
    /// Everything after the keyword, up to (not including) the `;` or block.
    pub value_range: Option<TextRange>,
    /// Declarations only: the keyword through to just before the `{`.
    pub header_range: Option<TextRange>,
    /// Declarations only: between the braces.
    pub block_inner_range: Option<TextRange>,
    /// Whitespace preceding the node on its own line.
    pub indent: String,
    pub children: Vec<OutlineNode>,
}

#[derive(Debug, PartialEq, Eq)]
pub struct Outline {
    /// Document-level nodes: the header statement and the top declaration.
    pub nodes: Vec<OutlineNode>,
    pub source_len: usize,
}

// ---------------------------------------------------------------------------
// What a well-formed outline of a scope looks like.
// ---------------------------------------------------------------------------

pub open spec fn trivia_token(e: CstElement) -> bool {
    e matches CstElement::Token(t) && kind_is_trivia(t.kind)
}

/// Every element starting in `[a, b)` is trivia.
pub open spec fn gap_is_trivia(elems: Seq<CstElement>, a: int, b: int) -> bool {
    forall|m: int|
        0 <= m < elems.len() && a <= elem_range(#[trigger] elems[m]).start < b ==> trivia_token(
            elems[m],
        )
}

/// The span between a block's braces, and the index range of the elements
/// inside them.
pub open spec fn interior(b: CstNode) -> (TextRange, int, int) {
    let c = b.children@;
    if c.len() >= 2 && c[0] is Token && c[c.len() - 1] is Token {
        (
            TextRange { start: elem_range(c[0]).end, end: elem_range(c[c.len() - 1]).start },
            1,
            c.len() - 1,
        )
    } else {
        (b.range, 0, c.len() as int)
    }
}

pub open spec fn interior_elems(b: CstNode) -> Seq<CstElement> {
    b.children@.subrange(interior(b).1, interior(b).2)
}

/// The text of an identifier token; nothing for any other element.
pub open spec fn ident_text(e: CstElement) -> Seq<char> {
    match e {
        CstElement::Token(t) => if t.kind == SyntaxKind::Identifier {
            t.text@
        } else {
            Seq::empty()
        },
        CstElement::Node(_) => Seq::empty(),
    }
}

/// The text of an identifier token, if the element is one.
pub open spec fn ident_opt(e: CstElement) -> Option<Seq<char>> {
    match e {
        CstElement::Token(t) => if t.kind == SyntaxKind::Identifier {
            Some(t.text@)
        } else {
            None
        },
        CstElement::Node(_) => None,
    }
}

pub open spec fn opt_view(o: Option<String>) -> Option<Seq<char>> {
    match o {
        Some(s) => Some(s@),
        None => None,
    }
}

/// The nodes tile the scope `[lo, hi)` whose elements are `elems`.
pub open spec fn scope_tiled(nodes: Seq<OutlineNode>, elems: Seq<CstElement>, lo: int, hi: int) -> bool
    decreases nodes,
{
    &&& (nodes.len() == 0 ==> gap_is_trivia(elems, lo, hi))
    &&& (nodes.len() > 0 ==> {
        &&& nodes[0].range.start == lo
        &&& nodes[nodes.len() - 1].range.end <= hi
        &&& gap_is_trivia(elems, nodes[nodes.len() - 1].range.end as int, hi)
    })
    &&& forall|a: int, b: int|
        #![trigger nodes[a], nodes[b]]
        0 <= a && b == a + 1 && b < nodes.len() ==> nodes[a].range.end == nodes[b].range.start
    &&& forall|k: int| 0 <= k < nodes.len() ==> node_ok(#[trigger] nodes[k], elems)
}

/// One node of a scope: its code sits inside its range behind trivia, its
/// value and header sit inside its code, and a declaration's children tile
/// the inside of its block.
pub open spec fn node_ok(n: OutlineNode, elems: Seq<CstElement>) -> bool
    decreases n,
{
    &&& n.range.start <= n.code_range.start < n.code_range.end
    &&& n.code_range.end == n.range.end
    &&& gap_is_trivia(elems, n.range.start as int, n.code_range.start as int)
    &&& (n.value_range matches Some(v) ==> n.code_range.start < v.start < v.end <= n.code_range.end)
    &&& (exists|m: int|
        0 <= m < elems.len() && elem_range(#[trigger] elems[m]).start == n.code_range.start
            && n.keyword@ == ident_text(elems[m]))
    &&& (n.value_range is None ==> n.symbol is None)
    &&& (n.value_range matches Some(v) ==> exists|m: int|
        0 <= m < elems.len() && elem_range(#[trigger] elems[m]).start == v.start && opt_view(
            n.symbol,
        ) == ident_opt(elems[m]))
    &&& (n.form == OutlineForm::Declaration) == (n.block_inner_range is Some)
    &&& (n.form == OutlineForm::Declaration) == (n.header_range is Some)
    &&& (n.header_range matches Some(h) ==> h.start == n.code_range.start && h.end
        < n.code_range.end)
    &&& (n.form == OutlineForm::Statement ==> n.children@.len() == 0)
    &&& node_end_ok(n, elems)
    &&& (n.form == OutlineForm::Declaration ==> exists|m: int|
        0 <= m < elems.len() && (#[trigger] elems[m] matches CstElement::Node(b) && b.kind
            == CstNodeKind::Block && b.range.end == n.code_range.end && n.block_inner_range
            == Some(interior(b).0) && scope_tiled(
            n.children@,
            interior_elems(b),
            interior(b).0.start as int,
            interior(b).0.end as int,
        )))
}

/// The elements that end a node: a block, or a `;`.
pub open spec fn is_terminator(e: CstElement) -> bool {
    ||| (e matches CstElement::Node(b) && b.kind == CstNodeKind::Block)
    ||| (e matches CstElement::Token(t) && t.kind == SyntaxKind::Semicolon)
}

/// Element `m` of the scope is the block or `;` that closes the node's code.
pub open spec fn closes(n: OutlineNode, elems: Seq<CstElement>, m: int) -> bool {
    &&& 0 <= m < elems.len()
    &&& is_terminator(elems[m])
    &&& n.code_range.start <= elem_range(elems[m]).start
    &&& elem_range(elems[m]).end == n.code_range.end
}

/// Only trivia starts strictly between `a` and `b`.
pub open spec fn trivia_between(elems: Seq<CstElement>, a: int, b: int) -> bool {
    forall|m: int|
        0 <= m < elems.len() && a < elem_range(#[trigger] elems[m]).start < b ==> trivia_token(
            elems[m],
        )
}

/// The node's value starts at the second element of its code and runs to
/// `e` (where the closing block or `;` starts, or the code's end); a node
/// whose second element starts at `e` or later has no value.
pub open spec fn value_from(n: OutlineNode, elems: Seq<CstElement>, e: int) -> bool {
    &&& (n.value_range matches Some(v) ==> {
        &&& v.end == e
        &&& trivia_between(elems, n.code_range.start as int, v.start as int)
        &&& exists|m: int|
            0 <= m < elems.len() && elem_range(#[trigger] elems[m]).start == v.start
                && !trivia_token(elems[m])
    })
    &&& (n.value_range is None ==> trivia_between(elems, n.code_range.start as int, e))
}

/// Where a node ends and which form it takes: its code runs from an element
/// that is not trivia up to and including the first block or `;`, which
/// makes it a declaration or a statement; a run with neither is a statement
/// followed only by trivia.
#[verifier::opaque]
pub open spec fn node_end_ok(n: OutlineNode, elems: Seq<CstElement>) -> bool {
    &&& exists|m: int|
        0 <= m < elems.len() && elem_range(#[trigger] elems[m]).start == n.code_range.start
            && !trivia_token(elems[m])
    &&& exists|m: int|
        0 <= m < elems.len() && elem_range(#[trigger] elems[m]).end == n.code_range.end
            && !trivia_token(elems[m])
    &&& forall|m: int|
        0 <= m < elems.len() && n.code_range.start <= elem_range(#[trigger] elems[m]).start
            < n.code_range.end && is_terminator(elems[m]) ==> elem_range(elems[m]).end
            == n.code_range.end
    &&& forall|m: int|
        #[trigger] closes(n, elems, m) ==> {
            &&& (n.form == OutlineForm::Declaration) == (elems[m] is Node)
            &&& (elems[m] is Node ==> n.header_range == Some(
                TextRange { start: n.code_range.start, end: elem_range(elems[m]).start },
            ))
            &&& value_from(n, elems, elem_range(elems[m]).start as int)
        }
    &&& (forall|m: int| !#[trigger] closes(n, elems, m)) ==> {
        &&& n.form == OutlineForm::Statement
        &&& forall|m: int|
            0 <= m < elems.len() && elem_range(#[trigger] elems[m]).start >= n.code_range.end
                ==> trivia_token(elems[m])
        &&& value_from(n, elems, n.code_range.end as int)
    }
}

/// An element whose start lies between the positions of elements `x` and
/// `y` of a contiguous run sits between them.
proof fn lemma_index_between(es: Seq<CstElement>, lo: int, hi: int, x: int, y: int, m: int)
    requires
        elems_contiguous(es, lo, hi),
        0 <= x <= y <= es.len(),
        0 <= m < es.len(),
        elem_pos(es, x, hi) <= elem_range(es[m]).start < elem_pos(es, y, hi),
    ensures
        x <= m < y,
{
    if m < x {
        lemma_contiguous_order(es, lo, hi, m, x);
        lemma_contiguous_bounds(es, lo, hi, m);
    }
    if m >= y {
        lemma_contiguous_order(es, lo, hi, y, m);
    }
}

/// Only one element of a contiguous run ends at a given place.
proof fn lemma_end_unique(es: Seq<CstElement>, lo: int, hi: int, a: int, m: int)
    requires
        elems_contiguous(es, lo, hi),
        0 <= a < es.len(),
        0 <= m < es.len(),
        elem_range(es[m]).end == elem_range(es[a]).end,
    ensures
        m == a,
{
    if m < a {
        lemma_contiguous_order(es, lo, hi, m, a);
        lemma_contiguous_bounds(es, lo, hi, a);
    }
    if a < m {
        lemma_contiguous_order(es, lo, hi, a, m);
        lemma_contiguous_bounds(es, lo, hi, m);
    }
}

proof fn lemma_trivia_between(es: Seq<CstElement>, lo: int, hi: int, ci: int, y: int, e: int)
    requires
        elems_contiguous(es, lo, hi),
        0 <= ci < es.len(),
        ci <= y <= es.len(),
        e <= elem_pos(es, y, hi),
        trivia_run(es, ci + 1, y),
    ensures
        trivia_between(es, elem_pos(es, ci, hi), e),
{
    assert forall|m: int|
        0 <= m < es.len() && elem_pos(es, ci, hi) < elem_range(#[trigger] es[m]).start < e implies trivia_token(
        es[m],
    ) by {
        lemma_index_between(es, lo, hi, ci, y, m);
    }
}

/// A node whose code runs from element `ci` to the block or `;` at `t`.
proof fn lemma_closed_ends(n: OutlineNode, es: Seq<CstElement>, lo: int, hi: int, ci: int, t: int, vi: int)
    requires
        elems_contiguous(es, lo, hi),
        0 <= ci <= t < es.len(),
        n.code_range.start == elem_range(es[ci]).start,
        n.code_range.end == elem_range(es[t]).end,
        !trivia_token(es[ci]),
        forall|k: int| ci <= k < t ==> !is_terminator(#[trigger] es[k]),
        is_terminator(es[t]),
        (n.form == OutlineForm::Declaration) == (es[t] is Node),
        es[t] is Node ==> n.header_range == Some(
            TextRange { start: n.code_range.start, end: elem_range(es[t]).start },
        ),
        n.value_range is None ==> trivia_run(es, ci + 1, t),
        n.value_range matches Some(v) ==> ci < vi < t && v.start == elem_range(es[vi]).start
            && v.end == elem_range(es[t]).start && trivia_run(es, ci + 1, vi) && !trivia_token(
            es[vi],
        ),
    ensures
        node_end_ok(n, es),
{
    reveal(node_end_ok);
    lemma_contiguous_bounds(es, lo, hi, t);
    lemma_pos_mono(es, lo, hi, ci, t);
    lemma_next_pos(es, lo, hi, t);
    assert(!trivia_token(es[t]));
    assert forall|m: int|
        0 <= m < es.len() && n.code_range.start <= elem_range(#[trigger] es[m]).start
            < n.code_range.end && is_terminator(es[m]) implies elem_range(es[m]).end
        == n.code_range.end by {
        lemma_index_between(es, lo, hi, ci, t + 1, m);
    }
    assert forall|m: int| #[trigger] closes(n, es, m) implies {
        &&& (n.form == OutlineForm::Declaration) == (es[m] is Node)
        &&& (es[m] is Node ==> n.header_range == Some(
            TextRange { start: n.code_range.start, end: elem_range(es[m]).start },
        ))
        &&& value_from(n, es, elem_range(es[m]).start as int)
    } by {
        lemma_end_unique(es, lo, hi, t, m);
        if n.value_range is None {
            lemma_trivia_between(es, lo, hi, ci, t, elem_range(es[t]).start as int);
        } else {
            let v = n.value_range->0;
            lemma_pos_mono(es, lo, hi, vi, t);
            lemma_trivia_between(es, lo, hi, ci, vi, v.start as int);
            assert(elem_range(es[vi]).start == v.start && !trivia_token(es[vi]));
        }
    }
    assert(closes(n, es, t));
}

/// The last node of a scope, whose code runs from element `ci` through
/// element `ei - 1` with neither a block nor a `;` in it.
proof fn lemma_open_ends(n: OutlineNode, es: Seq<CstElement>, lo: int, hi: int, ci: int, ei: int, vi: int)
    requires
        elems_contiguous(es, lo, hi),
        0 <= ci < ei <= es.len(),
        n.code_range.start == elem_range(es[ci]).start,
        n.code_range.end == elem_range(es[ei - 1]).end,
        !trivia_token(es[ci]),
        !trivia_token(es[ei - 1]),
        forall|k: int| ci <= k < es.len() ==> !is_terminator(#[trigger] es[k]),
        trivia_run(es, ei, es.len() as int),
        n.form == OutlineForm::Statement,
        n.value_range is None ==> trivia_run(es, ci + 1, ei),
        n.value_range matches Some(v) ==> ci < vi < ei && v.start == elem_range(es[vi]).start
            && v.end == n.code_range.end && trivia_run(es, ci + 1, vi) && !trivia_token(es[vi]),
    ensures
        node_end_ok(n, es),
{
    reveal(node_end_ok);
    lemma_next_pos(es, lo, hi, ei - 1);
    lemma_pos_mono(es, lo, hi, ci, ei - 1);
    assert forall|m: int| !#[trigger] closes(n, es, m) by {
        if closes(n, es, m) {
            lemma_end_unique(es, lo, hi, ei - 1, m);
            lemma_contiguous_order(es, lo, hi, ci, m);
        }
    }
    assert forall|m: int|
        0 <= m < es.len() && n.code_range.start <= elem_range(#[trigger] es[m]).start
            < n.code_range.end && is_terminator(es[m]) implies elem_range(es[m]).end
        == n.code_range.end by {
        lemma_index_between(es, lo, hi, ci, ei, m);
    }
    assert forall|m: int|
        0 <= m < es.len() && elem_range(#[trigger] es[m]).start >= n.code_range.end implies trivia_token(
        es[m],
    ) by {
        if m < ei {
            lemma_contiguous_order(es, lo, hi, m, ei - 1);
        }
    }
    if n.value_range is None {
        lemma_trivia_between(es, lo, hi, ci, ei, n.code_range.end as int);
    } else {
        let v = n.value_range->0;
        lemma_pos_mono(es, lo, hi, vi, ei);
        lemma_trivia_between(es, lo, hi, ci, vi, v.start as int);
        assert(elem_range(es[vi]).start == v.start && !trivia_token(es[vi]));
    }
    assert(elem_range(es[ci]).start == n.code_range.start);
    assert(elem_range(es[ei - 1]).end == n.code_range.end);
}

// ---------------------------------------------------------------------------
// Indentation.
// ---------------------------------------------------------------------------

/// Every node's indent is the indentation of the line its code starts on.
pub open spec fn indents_ok(nodes: Seq<OutlineNode>, bytes: Seq<u8>) -> bool
    decreases nodes,
{
    forall|k: int| 0 <= k < nodes.len() ==> indent_ok(#[trigger] nodes[k], bytes)
}

pub open spec fn indent_ok(n: OutlineNode, bytes: Seq<u8>) -> bool
    decreases n,
{
    &&& encode_utf8(n.indent@) == indent_bytes(bytes, n.code_range.start as int)
    &&& indents_ok(n.children@, bytes)
}

/// The start of the line holding `offset`.
pub open spec fn line_start(bytes: Seq<u8>, offset: int) -> int
    decreases offset,
{
    if offset <= 0 {
        0
    } else if bytes[offset - 1] == 0x0a {
        offset
    } else {
        line_start(bytes, offset - 1)
    }
}

pub open spec fn is_indent_byte(b: u8) -> bool {
    b == 0x20 || b == 0x09
}

/// The spaces and tabs that precede `offset` on its line, or nothing when
/// anything else precedes it there.
pub open spec fn indent_bytes(bytes: Seq<u8>, offset: int) -> Seq<u8> {
    let p = bytes.subrange(line_start(bytes, offset), offset);
    if p.len() > 0 && (forall|i: int| 0 <= i < p.len() ==> is_indent_byte(#[trigger] p[i])) {
        p
    } else {
        Seq::empty()
    }
}

proof fn lemma_line_start(bytes: Seq<u8>, offset: int)
    requires
        0 <= offset <= bytes.len(),
    ensures
        0 <= line_start(bytes, offset) <= offset,
        line_start(bytes, offset) > 0 ==> bytes[line_start(bytes, offset) - 1] == 0x0a,
        forall|i: int| line_start(bytes, offset) <= i < offset ==> #[trigger] bytes[i] != 0x0a,
    decreases offset,
{
    if offset > 0 && bytes[offset - 1] != 0x0a {
        lemma_line_start(bytes, offset - 1);
    }
}

/// Indentation on the line where `offset` sits, or empty when something other
/// than whitespace precedes it (an inline `{ quantity 1 tbsp; }`).
fn indent_at(source: &str, offset: usize) -> (r: String)
    requires
        offset <= source.spec_bytes().len(),
        at_boundary(source.spec_bytes(), offset as int),
    ensures
        encode_utf8(r@) == indent_bytes(source.spec_bytes(), offset as int),
{
    let bytes = source.as_bytes();
    let ghost bs = bytes@;
    let mut start = offset;
    while start > 0 && bytes[start - 1] != 0x0a
        invariant
            start <= offset <= bs.len(),
            bytes@ == bs,
            line_start(bs, offset as int) == line_start(bs, start as int),
        decreases start,
    {
        start = start - 1;
    }
    proof {
        lemma_line_start(bs, offset as int);
    }
    let mut i = start;
    let mut all = true;
    while i < offset
        invariant
            start <= i <= offset <= bs.len(),
            bytes@ == bs,
            all == (forall|m: int| start <= m < i ==> is_indent_byte(#[trigger] bs[m])),
        decreases offset - i,
    {
        if !(bytes[i] == 0x20 || bytes[i] == 0x09) {
            all = false;
        }
        i = i + 1;
    }
    let ghost p = bs.subrange(start as int, offset as int);
    if start < offset && all {
        proof {
            assert forall|m: int| 0 <= m < p.len() implies is_indent_byte(#[trigger] p[m]) by {
                assert(p[m] == bs[start + m]);
            }
            if start > 0 {
                lemma_ascii_step(bs, start - 1);
            }
        }
        slice_string(source, start, offset)
    } else {
        proof {
            if start < offset {
                let m = choose|m: int| start <= m < offset && !is_indent_byte(#[trigger] bs[m]);
                assert(p[m - start] == bs[m]);
            }
            assert(encode_utf8(Seq::<char>::empty()) =~= Seq::<u8>::empty());
        }
        String::new()
    }
}

// ---------------------------------------------------------------------------
// Facts about elements.
// ---------------------------------------------------------------------------

proof fn lemma_encode_first_not_continuation(cs: Seq<char>)
    requires
        cs.len() > 0,
    ensures
        encode_utf8(cs).len() > 0,
        !is_continuation_byte(encode_utf8(cs)[0]),
{
    vstd::utf8::encode_utf8_first_scalar(cs);
}

/// A well-formed element starts at a character boundary.
proof fn lemma_elem_start_boundary(e: CstElement, bytes: Seq<u8>)
    requires
        wf_element(e, bytes),
    ensures
        at_boundary(bytes, elem_range(e).start as int),
        elem_range(e).start < elem_range(e).end <= bytes.len(),
    decreases e,
{
    match e {
        CstElement::Token(t) => {
            lemma_wf_token(t, bytes);
            let cs = t.text@;
            if cs.len() == 0 {
                assert(encode_utf8(cs) =~= Seq::<u8>::empty());
            } else {
                lemma_encode_first_not_continuation(cs);
                assert(encode_utf8(cs)[0] == bytes[t.range.start as int]);
            }
        },
        CstElement::Node(n) => {
            lemma_wf_node(n, bytes);
            let c = n.children@;
            assert(c.len() >= 2);
            assert(wf_element(c[0], bytes));
            assert(wf_element(c[c.len() - 1], bytes));
            lemma_elem_start_boundary(c[0], bytes);
            lemma_elem_start_boundary(c[c.len() - 1], bytes);
            lemma_contiguous_order(c, n.range.start as int, n.range.end as int, 0, c.len() - 1);
        },
    }
}

/// In contiguous elements, an earlier element ends no later than a later one
/// starts.
proof fn lemma_contiguous_forward(s: Seq<CstElement>, lo: int, hi: int, a: int, b: int)
    requires
        elems_contiguous(s, lo, hi),
        0 <= a <= b < s.len(),
    ensures
        elem_range(s[a]).start <= elem_range(s[b]).start,
        a < b ==> elem_range(s[a]).end <= elem_range(s[b]).start,
    decreases b - a,
{
    if a < b {
        assert(elem_range(s[a]).end == elem_range(s[a + 1]).start);
        lemma_contiguous_forward(s, lo, hi, a + 1, b);
    }
}

proof fn lemma_contiguous_order(s: Seq<CstElement>, lo: int, hi: int, a: int, b: int)
    requires
        elems_contiguous(s, lo, hi),
        0 <= a <= b < s.len(),
    ensures
        elem_range(s[a]).start <= elem_range(s[b]).start,
        a < b ==> elem_range(s[a]).end <= elem_range(s[b]).start,
        elem_range(s[b]).end <= hi,
        lo <= elem_range(s[a]).start,
{
    lemma_contiguous_forward(s, lo, hi, a, b);
    lemma_contiguous_forward(s, lo, hi, 0, a);
    lemma_contiguous_forward(s, lo, hi, b, s.len() - 1);
}

/// Every element of a contiguous run lies inside it.
proof fn lemma_contiguous_bounds(s: Seq<CstElement>, lo: int, hi: int, m: int)
    requires
        elems_contiguous(s, lo, hi),
        0 <= m < s.len(),
    ensures
        lo <= elem_range(s[m]).start < elem_range(s[m]).end <= hi,
{
    lemma_contiguous_order(s, lo, hi, m, m);
}

/// Dropping the first and last of contiguous elements leaves the inside.
proof fn lemma_contiguous_inner(s: Seq<CstElement>, lo: int, hi: int)
    requires
        elems_contiguous(s, lo, hi),
        s.len() >= 2,
    ensures
        elems_contiguous(
            s.subrange(1, s.len() - 1),
            elem_range(s[0]).end as int,
            elem_range(s[s.len() - 1]).start as int,
        ),
{
    let t = s.subrange(1, s.len() - 1);
    assert forall|k: int| 0 <= k < t.len() implies elem_range(#[trigger] t[k]).start < elem_range(
        t[k],
    ).end by {
        assert(t[k] == s[k + 1]);
    }
    assert forall|a: int, b: int|
        #![trigger t[a], t[b]]
        0 <= a && b == a + 1 && b < t.len() implies elem_range(t[a]).end == elem_range(
        t[b],
    ).start by {
        assert(t[a] == s[a + 1]);
        assert(t[b] == s[b + 1]);
    }
    if t.len() > 0 {
        assert(t[0] == s[1]);
        assert(t[t.len() - 1] == s[s.len() - 2]);
    }
}

/// The position of element `j` of a scope, or its end.
pub open spec fn elem_pos(s: Seq<CstElement>, j: int, hi: int) -> int {
    if 0 <= j < s.len() {
        elem_range(s[j]).start as int
    } else {
        hi
    }
}


pub open spec fn trivia_run(es: Seq<CstElement>, x: int, y: int) -> bool {
    forall|m: int| x <= m < y ==> trivia_token(#[trigger] es[m])
}

proof fn lemma_gap_from_run(es: Seq<CstElement>, lo: int, hi: int, x: int, y: int)
    requires
        elems_contiguous(es, lo, hi),
        0 <= x <= y <= es.len(),
        trivia_run(es, x, y),
    ensures
        gap_is_trivia(es, elem_pos(es, x, hi), elem_pos(es, y, hi)),
{
    assert forall|m: int|
        0 <= m < es.len() && elem_pos(es, x, hi) <= elem_range(#[trigger] es[m]).start < elem_pos(
            es,
            y,
            hi,
        ) implies trivia_token(es[m]) by {
        if m < x {
            lemma_contiguous_order(es, lo, hi, m, x);
        }
        if m >= y {
            lemma_contiguous_order(es, lo, hi, y, m);
        }
    }
}

/// The end of element `j` is where element `j + 1` starts.
proof fn lemma_next_pos(es: Seq<CstElement>, lo: int, hi: int, j: int)
    requires
        elems_contiguous(es, lo, hi),
        0 <= j < es.len(),
    ensures
        elem_range(es[j]).end == elem_pos(es, j + 1, hi),
        elem_pos(es, j, hi) < elem_pos(es, j + 1, hi),
{
    if j + 1 < es.len() {
        assert(elem_range(es[j]).end == elem_range(es[j + 1]).start);
    }
}

proof fn lemma_pos_mono(es: Seq<CstElement>, lo: int, hi: int, x: int, y: int)
    requires
        elems_contiguous(es, lo, hi),
        0 <= x <= y <= es.len(),
    ensures
        lo <= elem_pos(es, x, hi) <= elem_pos(es, y, hi) <= hi,
        x < y ==> elem_pos(es, x, hi) < elem_pos(es, y, hi),
{
    if x < es.len() {
        lemma_contiguous_bounds(es, lo, hi, x);
    }
    if y < es.len() {
        lemma_contiguous_order(es, lo, hi, x, y);
        lemma_contiguous_bounds(es, lo, hi, y);
    } else if x < y {
        lemma_contiguous_bounds(es, lo, hi, x);
    }
    if es.len() == 0 {
        assert(lo == hi);
    } else {
        lemma_contiguous_bounds(es, lo, hi, 0);
    }
}

/// Nodes already emitted tile `[lo, end)`.
pub open spec fn prefix_tiled(nodes: Seq<OutlineNode>, es: Seq<CstElement>, lo: int, end: int) -> bool {
    &&& (nodes.len() == 0 ==> end == lo)
    &&& (nodes.len() > 0 ==> nodes[0].range.start == lo && nodes[nodes.len() - 1].range.end == end)
    &&& forall|a: int, b: int|
        #![trigger nodes[a], nodes[b]]
        0 <= a && b == a + 1 && b < nodes.len() ==> nodes[a].range.end == nodes[b].range.start
    &&& forall|k: int| 0 <= k < nodes.len() ==> node_ok(#[trigger] nodes[k], es)
}

proof fn lemma_prefix_push(
    nodes: Seq<OutlineNode>,
    n: OutlineNode,
    es: Seq<CstElement>,
    lo: int,
    mid: int,
    end: int,
)
    requires
        prefix_tiled(nodes, es, lo, mid),
        node_ok(n, es),
        n.range.start == mid,
        n.range.end == end,
    ensures
        prefix_tiled(nodes.push(n), es, lo, end),
{
    let t = nodes.push(n);
    assert forall|a: int, b: int|
        #![trigger t[a], t[b]]
        0 <= a && b == a + 1 && b < t.len() implies t[a].range.end == t[b].range.start by {
        assert(t[a] == nodes[a]);
        if b < nodes.len() {
            assert(t[b] == nodes[b]);
        }
    }
    assert forall|k: int| 0 <= k < t.len() implies node_ok(#[trigger] t[k], es) by {
        if k < nodes.len() {
            assert(t[k] == nodes[k]);
        }
    }
    if nodes.len() > 0 {
        assert(t[0] == nodes[0]);
    }
}

proof fn lemma_statement_ok(n: OutlineNode, es: Seq<CstElement>, ki: int, vi: int)
    requires
        n.range.start <= n.code_range.start < n.code_range.end,
        n.code_range.end == n.range.end,
        gap_is_trivia(es, n.range.start as int, n.code_range.start as int),
        n.value_range matches Some(v) ==> n.code_range.start < v.start < v.end
            <= n.code_range.end,
        0 <= ki < es.len(),
        elem_range(es[ki]).start == n.code_range.start,
        n.keyword@ == ident_text(es[ki]),
        n.value_range is None ==> n.symbol is None,
        n.value_range matches Some(v) ==> 0 <= vi < es.len() && elem_range(es[vi]).start
            == v.start && opt_view(n.symbol) == ident_opt(es[vi]),
        n.form == OutlineForm::Statement,
        n.block_inner_range is None,
        n.header_range is None,
        n.children@.len() == 0,
        node_end_ok(n, es),
    ensures
        node_ok(n, es),
{
    assert(elem_range(es[ki]).start == n.code_range.start);
    if n.value_range is Some {
        assert(elem_range(es[vi]).start == n.value_range->0.start);
    }
}

proof fn lemma_declaration_ok(n: OutlineNode, es: Seq<CstElement>, m: int, b: CstNode, ki: int, vi: int)
    requires
        n.range.start <= n.code_range.start < n.code_range.end,
        n.code_range.end == n.range.end,
        gap_is_trivia(es, n.range.start as int, n.code_range.start as int),
        n.value_range matches Some(v) ==> n.code_range.start < v.start < v.end
            <= n.code_range.end,
        0 <= ki < es.len(),
        elem_range(es[ki]).start == n.code_range.start,
        n.keyword@ == ident_text(es[ki]),
        n.value_range is None ==> n.symbol is None,
        n.value_range matches Some(v) ==> 0 <= vi < es.len() && elem_range(es[vi]).start
            == v.start && opt_view(n.symbol) == ident_opt(es[vi]),
        n.form == OutlineForm::Declaration,
        n.header_range matches Some(h) && h.start == n.code_range.start && h.end
            < n.code_range.end,
        0 <= m < es.len(),
        es[m] == CstElement::Node(b),
        b.kind == CstNodeKind::Block,
        b.range.end == n.code_range.end,
        n.block_inner_range == Some(interior(b).0),
        scope_tiled(
            n.children@,
            interior_elems(b),
            interior(b).0.start as int,
            interior(b).0.end as int,
        ),
        node_end_ok(n, es),
    ensures
        node_ok(n, es),
{
    assert(elem_range(es[ki]).start == n.code_range.start);
    if n.value_range is Some {
        assert(elem_range(es[vi]).start == n.value_range->0.start);
    }
    assert(es[m] matches CstElement::Node(bb) && bb.kind == CstNodeKind::Block && bb.range.end
        == n.code_range.end && n.block_inner_range == Some(interior(bb).0) && scope_tiled(
        n.children@,
        interior_elems(bb),
        interior(bb).0.start as int,
        interior(bb).0.end as int,
    ));
}

proof fn lemma_scope_tiled_intro(nodes: Seq<OutlineNode>, es: Seq<CstElement>, lo: int, end: int, hi: int)
    requires
        prefix_tiled(nodes, es, lo, end),
        end <= hi,
        gap_is_trivia(es, end, hi),
    ensures
        scope_tiled(nodes, es, lo, hi),
{
}

proof fn lemma_indents_push(nodes: Seq<OutlineNode>, n: OutlineNode, bytes: Seq<u8>)
    requires
        indents_ok(nodes, bytes),
        indent_ok(n, bytes),
    ensures
        indents_ok(nodes.push(n), bytes),
{
    let t = nodes.push(n);
    assert forall|k: int| 0 <= k < t.len() implies indent_ok(#[trigger] t[k], bytes) by {
        if k < nodes.len() {
            assert(t[k] == nodes[k]);
        }
    }
}

/// The token an element is, if it is one.
fn as_token(element: &CstElement) -> (r: Option<&SyntaxToken>)
    ensures
        r is Some <==> element is Token,
        r matches Some(t) ==> *element == CstElement::Token(*t),
{
    match element {
        CstElement::Token(token) => Some(token),
        CstElement::Node(_) => None,
    }
}

fn block_interior(block: &CstNode) -> (r: (TextRange, usize, usize))
    ensures
        r.0 == interior(*block).0,
        r.1 == interior(*block).1,
        r.2 == interior(*block).2,
{
    let n = block.children.len();
    if n >= 2 {
        match (as_token(&block.children[0]), as_token(&block.children[n - 1])) {
            (Some(open), Some(close)) => (
                TextRange::new(open.range.end, close.range.start),
                1,
                n - 1,
            ),
            _ => (block.range, 0, n),
        }
    } else {
        (block.range, 0, n)
    }
}

/// The inside of a well-formed block is itself a well-formed scope.
proof fn lemma_interior_ok(b: CstNode, bytes: Seq<u8>)
    requires
        wf_element(CstElement::Node(b), bytes),
    ensures
        interior(b).1 <= interior(b).2 <= b.children@.len(),
        interior(b).0.start <= interior(b).0.end <= bytes.len(),
        elems_contiguous(interior_elems(b), interior(b).0.start as int, interior(b).0.end as int),
        forall|m: int|
            interior(b).1 <= m < interior(b).2 ==> wf_element(#[trigger] b.children@[m], bytes),
{
    lemma_wf_node(b, bytes);
    let c = b.children@;
    lemma_elem_start_boundary(CstElement::Node(b), bytes);
    if c.len() >= 2 && c[0] is Token && c[c.len() - 1] is Token {
        lemma_contiguous_inner(c, b.range.start as int, b.range.end as int);
        lemma_contiguous_order(c, b.range.start as int, b.range.end as int, 0, c.len() - 1);
        lemma_elem_start_boundary(c[c.len() - 1], bytes);
    } else {
        assert(c.subrange(0, c.len() as int) =~= c);
    }
}

/// Split one scope's elements `elems[from..to]`, which cover `scope`, into
/// nodes.
#[verifier::rlimit(100)]
fn scope_nodes(
    source: &str,
    elems: &Vec<CstElement>,
    from: usize,
    to: usize,
    scope: TextRange,
    Ghost(bytes): Ghost<Seq<u8>>,
) -> (nodes: Vec<OutlineNode>)
    requires
        bytes == source.spec_bytes(),
        from <= to <= elems@.len(),
        scope.start <= scope.end <= bytes.len(),
        elems_contiguous(elems@.subrange(from as int, to as int), scope.start as int, scope.end as int),
        forall|m: int| from <= m < to ==> wf_element(#[trigger] elems@[m], bytes),
    ensures
        scope_tiled(
            nodes@,
            elems@.subrange(from as int, to as int),
            scope.start as int,
            scope.end as int,
        ),
        indents_ok(nodes@, bytes),
    decreases elems@,
{
    let ghost es = elems@.subrange(from as int, to as int);
    let ghost lo = scope.start as int;
    let ghost hi = scope.end as int;
    let mut nodes: Vec<OutlineNode> = Vec::new();
    let mut node_start = scope.start;
    let mut code_start: Option<usize> = None;
    let mut code_end = scope.start;
    let mut keyword = String::new();
    let mut symbol: Option<String> = None;
    let mut value_start: Option<usize> = None;
    let mut seen: usize = 0;
    let ghost mut node_idx: int = 0;
    let ghost mut code_idx: int = 0;
    let ghost mut end_idx: int = 0;
    let ghost mut val_idx: int = 0;
    let mut j = from;
    while j < to
        invariant
            bytes == source.spec_bytes(),
            from <= j <= to <= elems@.len(),
            es == elems@.subrange(from as int, to as int),
            lo == scope.start,
            hi == scope.end,
            scope.start <= scope.end <= bytes.len(),
            elems_contiguous(es, lo, hi),
            forall|m: int| from <= m < to ==> wf_element(#[trigger] elems@[m], bytes),
            prefix_tiled(nodes@, es, lo, node_start as int),
            indents_ok(nodes@, bytes),
            0 <= node_idx <= j - from,
            node_start == elem_pos(es, node_idx, hi),
            seen <= j - from,
            code_start is None ==> trivia_run(es, node_idx, j - from) && value_start is None
                && seen == 0,
            code_start is None ==> keyword@ == Seq::<char>::empty() && symbol is None,
            seen < 2 ==> value_start is None,
            code_start is Some ==> seen >= 1,
            code_start matches Some(c) ==> {
                &&& node_idx <= code_idx < end_idx <= j - from
                &&& c == elem_pos(es, code_idx, hi)
                &&& code_end == elem_pos(es, end_idx, hi)
                &&& trivia_run(es, node_idx, code_idx)
                &&& trivia_run(es, end_idx, j - from)
                &&& !trivia_token(es[code_idx])
                &&& (value_start matches Some(v) ==> c < v < code_end)
                &&& keyword@ == ident_text(es[code_idx])
                &&& (value_start matches Some(v) ==> code_idx < val_idx < end_idx && v == elem_pos(
                    es,
                    val_idx,
                    hi,
                ) && opt_view(symbol) == ident_opt(es[val_idx]))
                &&& (value_start is None ==> symbol is None)
                &&& forall|k: int| code_idx <= k < j - from ==> !is_terminator(#[trigger] es[k])
                &&& !trivia_token(es[end_idx - 1])
                &&& (seen == 1 ==> trivia_run(es, code_idx + 1, j - from))
                &&& (seen >= 2 ==> value_start is Some)
            },
            value_start is Some ==> trivia_run(es, code_idx + 1, val_idx) && !trivia_token(
                es[val_idx],
            ),
        decreases to - j,
    {
        let ghost lj = j - from;
        proof {
            assert(es[lj] == elems@[j as int]);
            lemma_next_pos(es, lo, hi, lj);
            lemma_elem_start_boundary(es[lj], bytes);
            lemma_pos_mono(es, lo, hi, node_idx, lj);
            lemma_pos_mono(es, lo, hi, lj, lj + 1);
            if code_start is Some {
                lemma_pos_mono(es, lo, hi, code_idx, lj);
                lemma_pos_mono(es, lo, hi, end_idx, lj);
                assert(es[code_idx] == elems@[from + code_idx]);
                lemma_elem_start_boundary(es[code_idx], bytes);
            }
        }
        let element = &elems[j];
        let (range, token): (TextRange, Option<&SyntaxToken>) = match element {
            CstElement::Token(t) => {
                if t.kind.is_trivia() {
                    j = j + 1;
                    proof {
                        if code_start is None {
                            assert(trivia_run(es, node_idx, lj + 1));
                        } else {
                            assert(trivia_run(es, end_idx, lj + 1));
                            if seen == 1 {
                                assert(trivia_run(es, code_idx + 1, lj + 1));
                            }
                        }
                    }
                    continue;
                }
                (t.range, Some(t))
            },
            CstElement::Node(n) => (n.range, None),
        };
        let is_block = match element {
            CstElement::Node(n) => matches!(n.kind, CstNodeKind::Block),
            CstElement::Token(_) => false,
        };
        let is_semicolon = match token {
            Some(t) => matches!(t.kind, SyntaxKind::Semicolon),
            None => false,
        };
        let ghost seen0 = seen;
        let ghost started = code_start is Some;
        proof {
            assert(es[lj] == elems@[j as int]);
            assert(is_terminator(es[lj]) == (is_block || is_semicolon));
            assert(!trivia_token(es[lj]));
        }
        if code_start.is_none() {
            code_start = Some(range.start);
            proof {
                code_idx = lj;
            }
        }
        seen = seen + 1;
        if seen == 1 {
            if let Some(t) = token {
                if matches!(t.kind, SyntaxKind::Identifier) {
                    keyword = t.text.clone();
                }
            }
        } else if seen == 2 && !is_semicolon {
            value_start = Some(range.start);
            proof {
                val_idx = lj;
            }
            if let Some(t) = token {
                if matches!(t.kind, SyntaxKind::Identifier) {
                    symbol = Some(t.text.clone());
                }
            }
        }
        code_end = range.end;
        proof {
            end_idx = lj + 1;
        }
        if !is_block && !is_semicolon {
            j = j + 1;
            continue;
        }
        let start = match code_start {
            Some(s) => s,
            None => range.start,
        };
        proof {
            assert(range == elem_range(es[lj]));
            assert(start == elem_pos(es, code_idx, hi));
            assert(code_idx <= lj);
            lemma_pos_mono(es, lo, hi, node_idx, code_idx);
            lemma_pos_mono(es, lo, hi, code_idx, lj);
            lemma_gap_from_run(es, lo, hi, node_idx, code_idx);
            if value_start is Some {
                lemma_pos_mono(es, lo, hi, val_idx, lj);
            }
        }
        let node = if is_block {
            let block = match element {
                CstElement::Node(n) => n,
                CstElement::Token(t) => {
                    proof {
                        assert(false);
                    }
                    return nodes;
                },
            };
            let (inner, inner_from, inner_to) = block_interior(block);
            proof {
                lemma_interior_ok(*block, bytes);
                assert(decreases_to!(elems@ => elems@[j as int]));
            }
            let children = scope_nodes(source, &block.children, inner_from, inner_to, inner, Ghost(bytes));
            let value_end = block.range.start;
            let value_range = match value_start {
                Some(begin) => if begin < value_end {
                    Some(TextRange::new(begin, value_end))
                } else {
                    None
                },
                None => None,
            };
            OutlineNode {
                keyword: keyword,
                form: OutlineForm::Declaration,
                symbol: symbol,
                range: TextRange::new(node_start, code_end),
                code_range: TextRange::new(start, code_end),
                value_range,
                header_range: Some(TextRange::new(start, block.range.start)),
                block_inner_range: Some(inner),
                indent: indent_at(source, start),
                children,
            }
        } else {
            let value_end = range.start;
            let value_range = match value_start {
                Some(begin) => if begin < value_end {
                    Some(TextRange::new(begin, value_end))
                } else {
                    None
                },
                None => None,
            };
            OutlineNode {
                keyword: keyword,
                form: OutlineForm::Statement,
                symbol: symbol,
                range: TextRange::new(node_start, code_end),
                code_range: TextRange::new(start, code_end),
                value_range,
                header_range: None,
                block_inner_range: None,
                indent: indent_at(source, start),
                children: Vec::new(),
            }
        };
        proof {
            if value_start is None || !(value_start->0 < range.start) {
                if seen0 >= 2 {
                    assert(value_start->0 == elem_pos(es, val_idx, hi));
                    lemma_pos_mono(es, lo, hi, val_idx, lj);
                }
                assert(trivia_run(es, code_idx + 1, lj));
            }
            lemma_closed_ends(node, es, lo, hi, code_idx, lj, val_idx);
            if is_block {
                let b = match es[lj] {
                    CstElement::Node(b) => b,
                    _ => arbitrary(),
                };
                lemma_declaration_ok(node, es, lj, b, code_idx, val_idx);
            } else {
                lemma_statement_ok(node, es, code_idx, val_idx);
            }
            lemma_prefix_push(nodes@, node, es, lo, node_start as int, code_end as int);
            lemma_indents_push(nodes@, node, bytes);
        }
        nodes.push(node);
        keyword = String::new();
        symbol = None;
        value_start = None;
        node_start = code_end;
        code_start = None;
        seen = 0;
        proof {
            node_idx = lj + 1;
        }
        j = j + 1;
    }
    proof {
        assert(j - from == es.len());
    }
    if let Some(start) = code_start {
        proof {
            lemma_pos_mono(es, lo, hi, node_idx, code_idx);
            lemma_pos_mono(es, lo, hi, code_idx, end_idx);
            lemma_pos_mono(es, lo, hi, end_idx, es.len() as int);
            lemma_gap_from_run(es, lo, hi, node_idx, code_idx);
            lemma_gap_from_run(es, lo, hi, end_idx, es.len() as int);
            lemma_elem_start_boundary(es[code_idx], bytes);
            assert(es[code_idx] == elems@[from + code_idx]);
            if value_start is Some {
                lemma_pos_mono(es, lo, hi, val_idx, end_idx);
            }
        }
        let value_range = match value_start {
            Some(begin) => if begin < code_end {
                Some(TextRange::new(begin, code_end))
            } else {
                None
            },
            None => None,
        };
        let node = OutlineNode {
            keyword,
            form: OutlineForm::Statement,
            symbol,
            range: TextRange::new(node_start, code_end),
            code_range: TextRange::new(start, code_end),
            value_range,
            header_range: None,
            block_inner_range: None,
            indent: indent_at(source, start),
            children: Vec::new(),
        };
        proof {
            lemma_next_pos(es, lo, hi, end_idx - 1);
            if value_start is None {
                assert(trivia_run(es, code_idx + 1, end_idx));
            }
            lemma_open_ends(node, es, lo, hi, code_idx, end_idx, val_idx);
            lemma_statement_ok(node, es, code_idx, val_idx);
            lemma_prefix_push(nodes@, node, es, lo, node_start as int, code_end as int);
            lemma_indents_push(nodes@, node, bytes);
        }
        nodes.push(node);
        proof {
            lemma_scope_tiled_intro(nodes@, es, lo, code_end as int, hi);
        }
    } else {
        proof {
            lemma_gap_from_run(es, lo, hi, node_idx, es.len() as int);
            lemma_pos_mono(es, lo, hi, node_idx, es.len() as int);
            lemma_scope_tiled_intro(nodes@, es, lo, node_start as int, hi);
        }
    }
    nodes
}


// ---------------------------------------------------------------------------
// Lookup and construction.
// ---------------------------------------------------------------------------

/// The nodes among `nodes` with this keyword, in order.
pub open spec fn named(nodes: Seq<OutlineNode>, keyword: Seq<char>) -> Seq<OutlineNode>
    decreases nodes.len(),
{
    if nodes.len() == 0 {
        Seq::empty()
    } else {
        let rest = named(nodes.drop_last(), keyword);
        if nodes.last().keyword@ == keyword {
            rest.push(nodes.last())
        } else {
            rest
        }
    }
}

/// `r` is the first of `nodes` whose keyword is `keyword`, or `None` when
/// there is none.
pub open spec fn is_first_named(
    nodes: Seq<OutlineNode>,
    keyword: Seq<char>,
    r: Option<OutlineNode>,
) -> bool {
    match r {
        Some(n) => exists|i: int|
            0 <= i < nodes.len() && #[trigger] nodes[i] == n && n.keyword@ == keyword && forall|
                j: int,
            |
                0 <= j < i ==> (#[trigger] nodes[j]).keyword@ != keyword,
        None => forall|j: int| 0 <= j < nodes.len() ==> (#[trigger] nodes[j]).keyword@ != keyword,
    }
}

pub open spec fn opt_deref(r: Option<&OutlineNode>) -> Option<OutlineNode> {
    match r {
        Some(n) => Some(*n),
        None => None,
    }
}

/// No node carries `keyword` exactly when none is named by it.
proof fn lemma_named_empty(nodes: Seq<OutlineNode>, keyword: Seq<char>)
    ensures
        (named(nodes, keyword).len() == 0) == (forall|j: int| 0 <= j < nodes.len() ==> (#[trigger] nodes[j]).keyword@ != keyword),
    decreases nodes.len(),
{
    if nodes.len() > 0 {
        let init = nodes.drop_last();
        lemma_named_empty(init, keyword);
        if named(nodes, keyword).len() == 0 {
            assert forall|j: int| 0 <= j < nodes.len() implies (#[trigger] nodes[j]).keyword@ != keyword by {
                if j < nodes.len() - 1 {
                    assert(nodes[j] == init[j]);
                }
            }
        }
        if forall|j: int| 0 <= j < nodes.len() ==> (#[trigger] nodes[j]).keyword@ != keyword {
            assert forall|j: int| 0 <= j < init.len() implies (#[trigger] init[j]).keyword@ != keyword by {
                assert(nodes[j] == init[j]);
            }
            assert(nodes[nodes.len() - 1].keyword@ != keyword);
        }
    }
}

/// The first node named by `keyword` leads the nodes it names.
proof fn lemma_named_first(nodes: Seq<OutlineNode>, keyword: Seq<char>, i: int)
    requires
        0 <= i < nodes.len(),
        nodes[i].keyword@ == keyword,
        forall|j: int| 0 <= j < i ==> (#[trigger] nodes[j]).keyword@ != keyword,
    ensures
        named(nodes, keyword).len() > 0,
        named(nodes, keyword)[0] == nodes[i],
    decreases nodes.len(),
{
    let init = nodes.drop_last();
    if i < nodes.len() - 1 {
        assert(init[i] == nodes[i]);
        assert forall|j: int| 0 <= j < i implies (#[trigger] init[j]).keyword@ != keyword by {
            assert(init[j] == nodes[j]);
        }
        lemma_named_first(init, keyword, i);
    } else {
        assert forall|j: int| 0 <= j < init.len() implies (#[trigger] init[j]).keyword@ != keyword by {
            assert(init[j] == nodes[j]);
        }
        lemma_named_empty(init, keyword);
    }
}

/// What [`OutlineNode::child`] finds leads what
/// [`OutlineNode::children_named`] lists, and there is nothing to find
/// exactly when the list is empty.
pub proof fn lemma_child_leads_children_named(node: OutlineNode, keyword: Seq<char>, found: Option<OutlineNode>)
    requires
        is_first_named(node.children@, keyword, found),
    ensures
        found is None <==> named(node.children@, keyword).len() == 0,
        found matches Some(n) ==> named(node.children@, keyword)[0] == n,
{
    let nodes = node.children@;
    lemma_named_empty(nodes, keyword);
    if let Some(n) = found {
        let i = choose|i: int|
            0 <= i < nodes.len() && #[trigger] nodes[i] == n && n.keyword@ == keyword && forall|j: int|
                0 <= j < i ==> (#[trigger] nodes[j]).keyword@ != keyword;
        lemma_named_first(nodes, keyword, i);
    }
}

fn first_named<'a>(nodes: &'a Vec<OutlineNode>, keyword: &str) -> (r: Option<&'a OutlineNode>)
    ensures
        is_first_named(nodes@, keyword@, opt_deref(r)),
{
    let mut i: usize = 0;
    while i < nodes.len()
        invariant
            i <= nodes@.len(),
            forall|j: int| 0 <= j < i ==> (#[trigger] nodes@[j]).keyword@ != keyword@,
        decreases nodes@.len() - i,
    {
        if str_eq(nodes[i].keyword.as_str(), keyword) {
            proof {
                assert(nodes@[i as int] == nodes@[i as int]);
            }
            return Some(&nodes[i]);
        }
        i = i + 1;
    }
    None
}

impl OutlineNode {
    /// Direct child statement/declaration with this keyword, if any.
    pub fn child(&self, keyword: &str) -> (r: Option<&OutlineNode>)
        ensures
            is_first_named(self.children@, keyword@, opt_deref(r)),
    {
        first_named(&self.children, keyword)
    }

    /// Every direct child with this keyword (`note` and `input` repeat), in
    /// order.
    pub fn children_named<'a>(&'a self, keyword: &str) -> (r: Vec<&'a OutlineNode>)
        ensures
            r@.len() == named(self.children@, keyword@).len(),
            forall|i: int| 0 <= i < r@.len() ==> *r@[i] == named(self.children@, keyword@)[i],
    {
        let mut out: Vec<&'a OutlineNode> = Vec::new();
        let mut i: usize = 0;
        while i < self.children.len()
            invariant
                i <= self.children@.len(),
                out@.len() == named(self.children@.take(i as int), keyword@).len(),
                forall|k: int|
                    0 <= k < out@.len() ==> *out@[k] == named(self.children@.take(i as int), keyword@)[k],
            decreases self.children@.len() - i,
        {
            let ghost before = self.children@.take(i as int);
            proof {
                assert(self.children@.take(i + 1).drop_last() =~= before);
                assert(self.children@.take(i + 1).last() == self.children@[i as int]);
            }
            if str_eq(self.children[i].keyword.as_str(), keyword) {
                out.push(&self.children[i]);
            }
            i = i + 1;
        }
        proof {
            assert(self.children@.take(i as int) =~= self.children@);
        }
        out
    }
}

/// What an outline promises of every scope `[lo, hi)` it tiles (the whole
/// source for a document's nodes, the inside of a block for a declaration's
/// children): the nodes follow one another without a gap from `lo`, only
/// trivia lies between the last one and `hi` (only trivia fills an empty
/// scope), and each node's code ends its range with only trivia before it.
/// Each node is `node_ok`, which makes a declaration's children tile the
/// inside of its block in the same way.
pub proof fn lemma_scope_tiles(nodes: Seq<OutlineNode>, elems: Seq<CstElement>, lo: int, hi: int)
    requires
        scope_tiled(nodes, elems, lo, hi),
    ensures
        nodes.len() == 0 ==> gap_is_trivia(elems, lo, hi),
        nodes.len() > 0 ==> nodes[0].range.start == lo && nodes.last().range.end <= hi
            && gap_is_trivia(elems, nodes.last().range.end as int, hi),
        forall|i: int, j: int|
            #![trigger nodes[i], nodes[j]]
            0 <= i && j == i + 1 && j < nodes.len() ==> nodes[i].range.end == nodes[j].range.start,
        forall|i: int|
            0 <= i < nodes.len() ==> node_ok(#[trigger] nodes[i], elems) && code_ends_range(nodes[i], elems),
{
    assert forall|i: int| 0 <= i < nodes.len() implies node_ok(#[trigger] nodes[i], elems)
        && code_ends_range(nodes[i], elems) by {
        lemma_node_code(nodes[i], elems);
    }
}

/// A node's code ends its range, and only trivia comes before it.
pub open spec fn code_ends_range(n: OutlineNode, elems: Seq<CstElement>) -> bool {
    &&& n.range.start <= n.code_range.start <= n.code_range.end
    &&& n.code_range.end == n.range.end
    &&& gap_is_trivia(elems, n.range.start as int, n.code_range.start as int)
}

proof fn lemma_node_code(n: OutlineNode, elems: Seq<CstElement>)
    requires
        node_ok(n, elems),
    ensures
        code_ends_range(n, elems),
{
}

/// `nodes` is the outline of a well-formed tree of `bytes`: its nodes tile
/// the root's elements and carry their line's indentation.
pub open spec fn outlines_tree(nodes: Seq<OutlineNode>, root: CstNode, bytes: Seq<u8>) -> bool {
    &&& root.range.start == 0
    &&& root.range.end == bytes.len()
    &&& elems_contiguous(root.children@, 0, bytes.len() as int)
    &&& (forall|k: int|
        0 <= k < root.children@.len() ==> wf_element(#[trigger] root.children@[k], bytes))
    &&& scope_tiled(nodes, root.children@, 0, bytes.len() as int)
    &&& indents_ok(nodes, bytes)
}

/// `nodes` is the outline of some well-formed tree of `chars`, whose tokens
/// are the lexemes of `chars`.
pub open spec fn outlines_source(nodes: Seq<OutlineNode>, chars: Seq<char>) -> bool {
    exists|doc: LosslessDocument|
        #![trigger doc.wf()]
        doc.wf() && doc.source@ == chars && spec_parse(encode_utf8(chars)) == Ok::<
            Seq<(SyntaxKind, int, int)>,
            SyntaxError,
        >(crate::syntax::lexer::tokens_view(doc.tokens@)) && outlines_tree(
            nodes,
            doc.root,
            encode_utf8(chars),
        )
}

impl Outline {
    /// Outline of a source that has a walkable tree; the tree's error
    /// otherwise.
    pub fn parse(source: &str) -> (res: Result<Outline, SyntaxError>)
        ensures
            match res {
                Ok(o) => {
                    &&& spec_parse(source.spec_bytes()) is Ok
                    &&& o.source_len == source.spec_bytes().len()
                    &&& outlines_source(o.nodes@, source@)
                },
                Err(e) => spec_parse(source.spec_bytes()) == Err::<
                    Seq<(SyntaxKind, int, int)>,
                    SyntaxError,
                >(e),
            },
    {
        match LosslessDocument::parse(source) {
            Ok(doc) => {
                let o = Self::from_document(&doc);
                proof {
                    assert(doc.wf());
                }
                Ok(o)
            },
            Err(e) => Err(e),
        }
    }

    /// Parse, or yield an empty outline when the source has no tree to walk.
    ///
    /// The tree hard-fails on an unbalanced delimiter or an unterminated
    /// string, and there is no sensible partial answer: callers keep their
    /// last good outline rather than read the empty one as "no
    /// declarations".
    pub fn parse_recovering(source: &str) -> (o: Outline)
        ensures
            o.source_len == source.spec_bytes().len(),
            spec_parse(source.spec_bytes()) is Err ==> o.nodes@.len() == 0,
            spec_parse(source.spec_bytes()) is Ok ==> outlines_source(o.nodes@, source@),
    {
        match Self::parse(source) {
            Ok(o) => o,
            Err(_) => Outline { nodes: Vec::new(), source_len: source.as_bytes().len() },
        }
    }

    fn from_document(document: &LosslessDocument) -> (o: Outline)
        requires
            document.wf(),
        ensures
            o.source_len == encode_utf8(document.source@).len(),
            outlines_tree(o.nodes@, document.root, encode_utf8(document.source@)),
    {
        let source = document.source();
        let root = document.root();
        let ghost bytes = encode_utf8(document.source@);
        let len = source.len();
        proof {
            assert(root.children@.subrange(0, root.children@.len() as int) =~= root.children@);
        }
        let nodes = scope_nodes(
            source,
            &root.children,
            0,
            root.children.len(),
            TextRange::new(0, len),
            Ghost(bytes),
        );
        Outline { nodes, source_len: len }
    }

    /// The `recipe` declaration, which owns everything a recipe editor
    /// touches.
    pub fn recipe(&self) -> (r: Option<&OutlineNode>)
        ensures
            is_first_named(self.nodes@, "recipe"@, opt_deref(r)),
    {
        first_named(&self.nodes, "recipe")
    }
}

} // verus!
