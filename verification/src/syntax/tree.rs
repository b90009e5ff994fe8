//! The concrete syntax tree: tokens grouped by their delimiters. Braces,
//! brackets and parentheses open nested nodes; every other token, trivia
//! included, stays a leaf in place, so the tree still spells the source.

use vstd::prelude::*;
use vstd::utf8::*;
use vstd::string::StringSliceAdditionalSpecFns;
use vstd::string::StringExecFns;
use crate::syntax::lexer::{
    SyntaxError, SyntaxKind, SyntaxToken, TextRange, lex_lossless, lexemes_tile, spec_lex,
    texts_match, token_view, tokens_view,
};
use crate::syntax::utf8_facts::{lemma_encode_concat, lemma_encode_injective};

verus! {

broadcast use vstd::utf8::encode_utf8_valid_utf8;

#[derive(Debug, Clone, Copy, PartialEq, Eq, Structural)]
pub enum CstNodeKind {
    /// The whole document.
    Root,
    /// `{ ... }`
    Block,
    /// `[ ... ]`
    Bracket,
    /// `( ... )`
    Paren,
}

#[derive(Debug, PartialEq, Eq)]
pub struct CstNode {
    pub kind: CstNodeKind,
    pub range: TextRange,
    pub children: Vec<CstElement>,
}

#[derive(Debug, PartialEq, Eq)]
pub enum CstElement {
    Token(SyntaxToken),
    Node(CstNode),
}

// ---------------------------------------------------------------------------
// Delimiters.
// ---------------------------------------------------------------------------

pub open spec fn closer_of(kind: SyntaxKind) -> Option<SyntaxKind> {
    match kind {
        SyntaxKind::LBrace => Some(SyntaxKind::RBrace),
        SyntaxKind::LBracket => Some(SyntaxKind::RBracket),
        SyntaxKind::LParen => Some(SyntaxKind::RParen),
        _ => None,
    }
}

pub open spec fn is_closer(kind: SyntaxKind) -> bool {
    kind == SyntaxKind::RBrace || kind == SyntaxKind::RBracket || kind == SyntaxKind::RParen
}

pub open spec fn group_kind(opener: SyntaxKind) -> CstNodeKind {
    match opener {
        SyntaxKind::LBrace => CstNodeKind::Block,
        SyntaxKind::LBracket => CstNodeKind::Bracket,
        _ => CstNodeKind::Paren,
    }
}

pub open spec fn opener_of_group(kind: CstNodeKind) -> SyntaxKind {
    match kind {
        CstNodeKind::Block => SyntaxKind::LBrace,
        CstNodeKind::Bracket => SyntaxKind::LBracket,
        _ => SyntaxKind::LParen,
    }
}

/// The delimiter grammar over a token sequence. Scanning from index `i`
/// inside a group that expects `closer` (or at top level when `closer` is
/// `None`, with `open_at` the opener's byte offset): the index of the closing
/// token, the end of the tokens at top level, or the first delimiter error.
#[verifier::opaque]
pub open spec fn spec_scope(
    toks: Seq<(SyntaxKind, int, int)>,
    i: int,
    closer: Option<SyntaxKind>,
    open_at: int,
) -> Result<int, SyntaxError>
    decreases toks.len() - i,
{
    if i < 0 || i >= toks.len() {
        match closer {
            Some(_) => Err(SyntaxError::UnclosedDelimiter(open_at as usize)),
            None => Ok(toks.len() as int),
        }
    } else {
        let kind = toks[i].0;
        match closer_of(kind) {
            Some(c) => match spec_scope(toks, i + 1, Some(c), toks[i].1) {
                Ok(k) => if i + 1 <= k < toks.len() {
                    spec_scope(toks, k + 1, closer, open_at)
                } else {
                    Ok(toks.len() as int)
                },
                Err(e) => Err(e),
            },
            None => if is_closer(kind) {
                if closer == Some(kind) {
                    Ok(i)
                } else {
                    Err(SyntaxError::UnexpectedClose(toks[i].1 as usize))
                }
            } else {
                spec_scope(toks, i + 1, closer, open_at)
            },
        }
    }
}

/// One step of the delimiter grammar, case by case.
pub proof fn lemma_scope_step(
    toks: Seq<(SyntaxKind, int, int)>,
    j: int,
    closer: Option<SyntaxKind>,
    open_at: int,
)
    requires
        0 <= j <= toks.len(),
    ensures
        j == toks.len() ==> spec_scope(toks, j, closer, open_at) == (match closer {
            Some(_) => Err(SyntaxError::UnclosedDelimiter(open_at as usize)),
            None => Ok(toks.len() as int),
        }),
        j < toks.len() && closer_of(toks[j].0) is None && !is_closer(toks[j].0) ==> spec_scope(
            toks,
            j,
            closer,
            open_at,
        ) == spec_scope(toks, j + 1, closer, open_at),
        j < toks.len() && closer_of(toks[j].0) is None && is_closer(toks[j].0) ==> spec_scope(
            toks,
            j,
            closer,
            open_at,
        ) == (if closer == Some(toks[j].0) {
            Ok(j)
        } else {
            Err(SyntaxError::UnexpectedClose(toks[j].1 as usize))
        }),
        j < toks.len() && closer_of(toks[j].0) is Some ==> match spec_scope(
            toks,
            j + 1,
            closer_of(toks[j].0),
            toks[j].1,
        ) {
            Ok(k) => (j + 1 <= k < toks.len()) ==> spec_scope(toks, j, closer, open_at)
                == spec_scope(toks, k + 1, closer, open_at),
            Err(e) => spec_scope(toks, j, closer, open_at) == Err::<int, SyntaxError>(e),
        },
{
    reveal(spec_scope);
}

// ---------------------------------------------------------------------------
// Shape of a well-formed tree.
// ---------------------------------------------------------------------------

pub open spec fn elem_range(e: CstElement) -> TextRange {
    match e {
        CstElement::Token(t) => t.range,
        CstElement::Node(n) => n.range,
    }
}

/// The elements cover `[lo, hi)` in order, with no gap or overlap, each
/// non-empty.
pub open spec fn elems_contiguous(elems: Seq<CstElement>, lo: int, hi: int) -> bool {
    &&& (elems.len() == 0 ==> lo == hi)
    &&& (elems.len() > 0 ==> elem_range(elems[0]).start == lo && elem_range(
        elems[elems.len() - 1],
    ).end == hi)
    &&& forall|k: int|
        0 <= k < elems.len() ==> elem_range(#[trigger] elems[k]).start < elem_range(elems[k]).end
    &&& forall|a: int, b: int|
        #![trigger elems[a], elems[b]]
        0 <= a && b == a + 1 && b < elems.len() ==> elem_range(elems[a]).end == elem_range(
            elems[b],
        ).start
}

pub open spec fn is_token_of(e: CstElement, kind: SyntaxKind) -> bool {
    e matches CstElement::Token(t) && t.kind == kind
}

/// A group node opens with its delimiter and closes with the matching one.
pub open spec fn delimited(n: CstNode) -> bool {
    n.kind != CstNodeKind::Root ==> {
        &&& n.children@.len() >= 2
        &&& is_token_of(n.children@[0], opener_of_group(n.kind))
        &&& is_token_of(n.children@[n.children@.len() - 1], closer_of(opener_of_group(n.kind)).unwrap())
    }
}

#[verifier::opaque]
pub open spec fn wf_element(e: CstElement, bytes: Seq<u8>) -> bool
    decreases e,
{
    match e {
        CstElement::Token(t) => {
            &&& t.range.start < t.range.end <= bytes.len()
            &&& encode_utf8(t.text@) == bytes.subrange(t.range.start as int, t.range.end as int)
        },
        CstElement::Node(n) => {
            &&& elems_contiguous(n.children@, n.range.start as int, n.range.end as int)
            &&& delimited(n)
            &&& n.kind != CstNodeKind::Root
            &&& forall|k: int|
                0 <= k < n.children@.len() ==> wf_element(#[trigger] n.children@[k], bytes)
        },
    }
}

/// The bytes an element spells: its tokens' texts, in order.
pub open spec fn elem_bytes(e: CstElement) -> Seq<u8>
    decreases e,
{
    match e {
        CstElement::Token(t) => encode_utf8(t.text@),
        CstElement::Node(n) => elems_bytes(n.children@),
    }
}

pub open spec fn elems_bytes(s: Seq<CstElement>) -> Seq<u8>
    decreases s,
{
    if s.len() == 0 {
        Seq::empty()
    } else {
        elems_bytes(s.drop_last()) + elem_bytes(s.last())
    }
}


/// What well-formedness of a token says.
pub proof fn lemma_wf_token(t: SyntaxToken, bytes: Seq<u8>)
    ensures
        wf_element(CstElement::Token(t), bytes) <==> (t.range.start < t.range.end <= bytes.len()
            && encode_utf8(t.text@) == bytes.subrange(t.range.start as int, t.range.end as int)),
{
    reveal(wf_element);
}

/// What well-formedness of a group node says.
pub proof fn lemma_wf_node(n: CstNode, bytes: Seq<u8>)
    ensures
        wf_element(CstElement::Node(n), bytes) <==> {
            &&& elems_contiguous(n.children@, n.range.start as int, n.range.end as int)
            &&& delimited(n)
            &&& n.kind != CstNodeKind::Root
            &&& forall|k: int|
                0 <= k < n.children@.len() ==> wf_element(#[trigger] n.children@[k], bytes)
        },
{
    reveal(wf_element);
}

/// A well-formed element spells exactly the source bytes in its range.
pub proof fn lemma_elem_bytes(e: CstElement, bytes: Seq<u8>)
    requires
        wf_element(e, bytes),
    ensures
        elem_range(e).start <= elem_range(e).end <= bytes.len(),
        elem_bytes(e) == bytes.subrange(elem_range(e).start as int, elem_range(e).end as int),
    decreases e,
{
    match e {
        CstElement::Token(t) => {
            lemma_wf_token(t, bytes);
        },
        CstElement::Node(n) => {
            lemma_wf_node(n, bytes);
            lemma_elems_bytes(n.children@, n.range.start as int, n.range.end as int, bytes);
        },
    }
}

/// Contiguous well-formed elements spell exactly the bytes they cover.
pub proof fn lemma_elems_bytes(s: Seq<CstElement>, lo: int, hi: int, bytes: Seq<u8>)
    requires
        elems_contiguous(s, lo, hi),
        forall|k: int| 0 <= k < s.len() ==> wf_element(#[trigger] s[k], bytes),
        0 <= lo,
    ensures
        lo <= hi,
        s.len() > 0 ==> hi <= bytes.len(),
        s.len() == 0 ==> elems_bytes(s) == Seq::<u8>::empty(),
        s.len() > 0 ==> elems_bytes(s) == bytes.subrange(lo, hi),
    decreases s,
{
    if s.len() > 0 {
        let last = s.last();
        let init = s.drop_last();
        assert(wf_element(s[s.len() - 1], bytes));
        lemma_elem_bytes(last, bytes);
        let mid = elem_range(last).start as int;
        if init.len() > 0 {
            assert(elem_range(init[init.len() - 1]).end == mid) by {
                assert(init[init.len() - 1] == s[s.len() - 2]);
            }
            assert forall|k: int| 0 <= k < init.len() implies elem_range(#[trigger] init[k]).start
                < elem_range(init[k]).end by {
                assert(init[k] == s[k]);
            }
            assert forall|a: int, b: int|
                #![trigger init[a], init[b]]
                0 <= a && b == a + 1 && b < init.len() implies elem_range(init[a]).end
                == elem_range(init[b]).start by {
                assert(init[a] == s[a]);
                assert(init[b] == s[b]);
            }
            assert(elems_contiguous(init, lo, mid));
            assert forall|k: int| 0 <= k < init.len() implies wf_element(#[trigger] init[k], bytes) by {
                assert(init[k] == s[k]);
            }
            lemma_elems_bytes(init, lo, mid, bytes);
            assert(bytes.subrange(lo, mid) + bytes.subrange(mid, hi) =~= bytes.subrange(lo, hi));
        } else {
            assert(elems_bytes(init) == Seq::<u8>::empty()) by {
                lemma_elems_bytes(init, lo, lo, bytes);
            }
            assert(mid == lo);
            assert(Seq::<u8>::empty() + bytes.subrange(mid, hi) =~= bytes.subrange(lo, hi));
        }
    }
}

// ---------------------------------------------------------------------------
// Building the tree.
// ---------------------------------------------------------------------------

fn closer_for(kind: SyntaxKind) -> (r: Option<SyntaxKind>)
    ensures
        r == closer_of(kind),
{
    match kind {
        SyntaxKind::LBrace => Some(SyntaxKind::RBrace),
        SyntaxKind::LBracket => Some(SyntaxKind::RBracket),
        SyntaxKind::LParen => Some(SyntaxKind::RParen),
        _ => None,
    }
}

fn is_closing(kind: SyntaxKind) -> (r: bool)
    ensures
        r == is_closer(kind),
{
    matches!(kind, SyntaxKind::RBrace | SyntaxKind::RBracket | SyntaxKind::RParen)
}

fn group_for(opener: SyntaxKind) -> (r: CstNodeKind)
    ensures
        r == group_kind(opener),
{
    match opener {
        SyntaxKind::LBrace => CstNodeKind::Block,
        SyntaxKind::LBracket => CstNodeKind::Bracket,
        _ => CstNodeKind::Paren,
    }
}

/// The tokens of a sequence of elements, in order, read through every group.
pub open spec fn leaves(s: Seq<CstElement>) -> Seq<SyntaxToken>
    decreases s,
{
    if s.len() == 0 {
        Seq::empty()
    } else {
        leaves(s.drop_last()) + elem_leaves(s.last())
    }
}

pub open spec fn elem_leaves(e: CstElement) -> Seq<SyntaxToken>
    decreases e,
{
    match e {
        CstElement::Token(t) => seq![t],
        CstElement::Node(n) => leaves(n.children@),
    }
}

proof fn lemma_leaves_concat(a: Seq<CstElement>, b: Seq<CstElement>)
    ensures
        leaves(a + b) == leaves(a) + leaves(b),
    decreases b.len(),
{
    if b.len() == 0 {
        assert(a + b =~= a);
        assert(leaves(a) + leaves(b) =~= leaves(a));
    } else {
        lemma_leaves_concat(a, b.drop_last());
        assert((a + b).drop_last() =~= a + b.drop_last());
        assert((a + b).last() == b.last());
        assert(leaves(a) + leaves(b.drop_last()) + elem_leaves(b.last()) =~= leaves(a) + leaves(b));
    }
}

proof fn lemma_leaves_push(a: Seq<CstElement>, e: CstElement)
    ensures
        leaves(a.push(e)) == leaves(a) + elem_leaves(e),
{
    assert(a.push(e).drop_last() =~= a);
}

proof fn lemma_leaves_single(e: CstElement)
    ensures
        leaves(seq![e]) == elem_leaves(e),
{
    lemma_leaves_push(Seq::<CstElement>::empty(), e);
    assert(Seq::<CstElement>::empty().push(e) =~= seq![e]);
    assert(Seq::<SyntaxToken>::empty() + elem_leaves(e) =~= elem_leaves(e));
}

/// A copy of a token.
pub fn copy_token(t: &SyntaxToken) -> (r: SyntaxToken)
    ensures
        r == *t,
{
    SyntaxToken { kind: t.kind, range: t.range, text: t.text.clone() }
}

/// The byte offset where token `j` starts, or the end of the source.
pub open spec fn token_pos(toks: Seq<(SyntaxKind, int, int)>, j: int, total: int) -> int {
    if 0 <= j < toks.len() {
        toks[j].1
    } else {
        total
    }
}

/// The tokens of a source of `total` bytes, tiling it, with texts in place.
#[verifier::opaque]
pub open spec fn tokens_ok(tokens: Seq<SyntaxToken>, bytes: Seq<u8>) -> bool {
    &&& lexemes_tile(tokens_view(tokens), 0, bytes.len() as int)
    &&& texts_match(tokens, bytes)
}

proof fn lemma_token_facts(tokens: Seq<SyntaxToken>, bytes: Seq<u8>, j: int)
    requires
        tokens_ok(tokens, bytes),
        0 <= j < tokens.len(),
    ensures
        tokens[j].range.start as int == token_pos(tokens_view(tokens), j, bytes.len() as int),
        tokens[j].range.end as int == token_pos(tokens_view(tokens), j + 1, bytes.len() as int),
        tokens[j].range.start < tokens[j].range.end <= bytes.len(),
        wf_element(CstElement::Token(tokens[j]), bytes),
{
    reveal(tokens_ok);
    let tv = tokens_view(tokens);
    assert(tv[j] == token_view(tokens[j]));
    lemma_wf_token(tokens[j], bytes);
    if j + 1 < tokens.len() {
        assert(tv[j + 1] == token_view(tokens[j + 1]));
    }
}

proof fn lemma_push_contiguous(s: Seq<CstElement>, e: CstElement, lo: int, mid: int, hi: int)
    requires
        elems_contiguous(s, lo, mid),
        elem_range(e).start == mid,
        elem_range(e).end == hi,
        mid < hi,
    ensures
        elems_contiguous(s.push(e), lo, hi),
{
    let t = s.push(e);
    assert forall|k: int| 0 <= k < t.len() implies elem_range(#[trigger] t[k]).start < elem_range(
        t[k],
    ).end by {
        if k < s.len() {
            assert(t[k] == s[k]);
        }
    }
    assert forall|a: int, b: int|
        #![trigger t[a], t[b]]
        0 <= a && b == a + 1 && b < t.len() implies elem_range(t[a]).end == elem_range(
        t[b],
    ).start by {
        assert(t[a] == s[a]);
        if b < s.len() {
            assert(t[b] == s[b]);
        }
    }
    if s.len() > 0 {
        assert(t[0] == s[0]);
    }
}

/// A group built from its opener, its contents and its closer is well formed.
#[verifier::rlimit(60)]
proof fn lemma_group_wf(
    open: SyntaxToken,
    inner: Seq<CstElement>,
    close: SyntaxToken,
    node: CstNode,
    bytes: Seq<u8>,
)
    requires
        node.children@ == seq![CstElement::Token(open)] + inner + seq![CstElement::Token(close)],
        wf_element(CstElement::Token(open), bytes),
        wf_element(CstElement::Token(close), bytes),
        forall|m: int| 0 <= m < inner.len() ==> wf_element(#[trigger] inner[m], bytes),
        elems_contiguous(inner, open.range.end as int, close.range.start as int),
        closer_of(open.kind) == Some(close.kind),
        node.kind == group_kind(open.kind),
        node.range.start == open.range.start,
        node.range.end == close.range.end,
    ensures
        wf_element(CstElement::Node(node), bytes),
        node.range.start < node.range.end,
{
    lemma_wf_token(open, bytes);
    lemma_wf_token(close, bytes);
    lemma_elems_bytes(inner, open.range.end as int, close.range.start as int, bytes);
    let c = node.children@;
    assert forall|m: int| 0 <= m < c.len() implies elem_range(#[trigger] c[m]).start < elem_range(
        c[m],
    ).end by {
        if 0 < m < c.len() - 1 {
            assert(c[m] == inner[m - 1]);
        }
    }
    assert forall|a: int, b: int|
        #![trigger c[a], c[b]]
        0 <= a && b == a + 1 && b < c.len() implies elem_range(c[a]).end == elem_range(
        c[b],
    ).start by {
        if a == 0 {
            if inner.len() > 0 {
                assert(c[1] == inner[0]);
            }
        } else if b < c.len() - 1 {
            assert(c[a] == inner[a - 1]);
            assert(c[b] == inner[b - 1]);
            assert(elem_range(inner[a - 1]).end == elem_range(inner[b - 1]).start);
        } else {
            assert(c[a] == inner[a - 1]);
            assert(a - 1 == inner.len() - 1);
        }
    }
    assert forall|m: int| 0 <= m < c.len() implies wf_element(#[trigger] c[m], bytes) by {
        if 0 < m < c.len() - 1 {
            assert(c[m] == inner[m - 1]);
        }
    }
    assert(c[0] == CstElement::Token(open));
    assert(c[c.len() - 1] == CstElement::Token(close));
    assert(elems_contiguous(c, node.range.start as int, node.range.end as int));
    lemma_wf_node(node, bytes);
}

/// A group's tokens are its opener's, its contents', then its closer's.
proof fn lemma_group_leaves(tokens: Seq<SyntaxToken>, j: int, k: int, inner: Seq<CstElement>, node: CstNode)
    requires
        0 <= j < k < tokens.len(),
        leaves(inner) == tokens.subrange(j + 1, k),
        node.children@ == seq![CstElement::Token(tokens[j])] + inner + seq![CstElement::Token(tokens[k])],
    ensures
        elem_leaves(CstElement::Node(node)) == tokens.subrange(j, k + 1),
{
    let a = seq![CstElement::Token(tokens[j])];
    let b = seq![CstElement::Token(tokens[k])];
    lemma_leaves_concat(a + inner, b);
    lemma_leaves_concat(a, inner);
    lemma_leaves_single(CstElement::Token(tokens[j]));
    lemma_leaves_single(CstElement::Token(tokens[k]));
    assert(seq![tokens[j]] + tokens.subrange(j + 1, k) + seq![tokens[k]] =~= tokens.subrange(j, k + 1));
}

#[verifier::rlimit(60)]
/// Group the tokens from index `i` until the closer of the enclosing group
/// (or the end of the tokens at top level).
fn build_scope(
    tokens: &Vec<SyntaxToken>,
    i: usize,
    closer: Option<SyntaxKind>,
    open_at: usize,
    Ghost(bytes): Ghost<Seq<u8>>,
) -> (res: Result<(Vec<CstElement>, usize), SyntaxError>)
    requires
        tokens_ok(tokens@, bytes),
        i <= tokens@.len(),
    ensures
        match res {
            Ok((elems, k)) => {
                &&& spec_scope(tokens_view(tokens@), i as int, closer, open_at as int) == Ok::<
                    int,
                    SyntaxError,
                >(k as int)
                &&& i <= k <= tokens@.len()
                &&& (closer is Some ==> k < tokens@.len() && Some(tokens@[k as int].kind) == closer)
                &&& (closer is None ==> k == tokens@.len())
                &&& elems_contiguous(
                    elems@,
                    token_pos(tokens_view(tokens@), i as int, bytes.len() as int),
                    token_pos(tokens_view(tokens@), k as int, bytes.len() as int),
                )
                &&& forall|m: int| 0 <= m < elems@.len() ==> wf_element(#[trigger] elems@[m], bytes)
                &&& leaves(elems@) == tokens@.subrange(i as int, k as int)
            },
            Err(e) => spec_scope(tokens_view(tokens@), i as int, closer, open_at as int) == Err::<
                int,
                SyntaxError,
            >(e),
        },
    decreases tokens@.len() - i,
{
    let ghost tv = tokens_view(tokens@);
    let ghost total = bytes.len() as int;
    let n = tokens.len();
    let mut elems: Vec<CstElement> = Vec::new();
    let mut j = i;
    proof {
        assert(tokens@.subrange(i as int, i as int) =~= Seq::<SyntaxToken>::empty());
        assert(leaves(elems@) =~= Seq::<SyntaxToken>::empty());
    }
    while j < n
        invariant
            tokens_ok(tokens@, bytes),
            tv == tokens_view(tokens@),
            total == bytes.len(),
            n == tokens@.len(),
            i <= j <= n,
            spec_scope(tv, i as int, closer, open_at as int) == spec_scope(
                tv,
                j as int,
                closer,
                open_at as int,
            ),
            elems_contiguous(elems@, token_pos(tv, i as int, total), token_pos(tv, j as int, total)),
            forall|m: int| 0 <= m < elems@.len() ==> wf_element(#[trigger] elems@[m], bytes),
            leaves(elems@) == tokens@.subrange(i as int, j as int),
        decreases n - j,
    {
        let t = &tokens[j];
        proof {
            lemma_token_facts(tokens@, bytes, j as int);
            assert(tv[j as int] == token_view(tokens@[j as int]));
            lemma_scope_step(tv, j as int, closer, open_at as int);
        }
        match closer_for(t.kind) {
            Some(c) => {
                match build_scope(tokens, j + 1, Some(c), t.range.start, Ghost(bytes)) {
                    Err(e) => {
                        return Err(e);
                    },
                    Ok((inner, k)) => {
                        let close = &tokens[k];
                        proof {
                            lemma_token_facts(tokens@, bytes, k as int);
                        }
                        let mut children: Vec<CstElement> = Vec::new();
                        children.push(CstElement::Token(copy_token(t)));
                        let ghost c1 = children@;
                        let mut inner = inner;
                        let ghost inner_view = inner@;
                        children.append(&mut inner);
                        let ghost c2 = children@;
                        children.push(CstElement::Token(copy_token(close)));
                        proof {
                            assert(c1 =~= seq![CstElement::Token(tokens@[j as int])]);
                            assert(c2 =~= c1 + inner_view);
                            assert(children@ =~= seq![CstElement::Token(tokens@[j as int])]
                                + inner_view + seq![CstElement::Token(tokens@[k as int])]);
                        }
                        let node = CstNode {
                            kind: group_for(t.kind),
                            range: TextRange { start: t.range.start, end: close.range.end },
                            children,
                        };
                        proof {
                            lemma_group_wf(tokens@[j as int], inner_view, tokens@[k as int], node, bytes);
                            lemma_group_leaves(tokens@, j as int, k as int, inner_view, node);
                        }
                        let ghost old_elems = elems@;
                        elems.push(CstElement::Node(node));
                        proof {
                            lemma_leaves_push(old_elems, CstElement::Node(node));
                            assert(tokens@.subrange(i as int, j as int) + tokens@.subrange(j as int, k + 1)
                                =~= tokens@.subrange(i as int, k + 1));
                            lemma_push_contiguous(
                                old_elems,
                                CstElement::Node(node),
                                token_pos(tv, i as int, total),
                                token_pos(tv, j as int, total),
                                token_pos(tv, k + 1, total),
                            );
                            assert forall|m: int| 0 <= m < elems@.len() implies wf_element(
                                #[trigger] elems@[m],
                                bytes,
                            ) by {
                                if m < old_elems.len() {
                                    assert(elems@[m] == old_elems[m]);
                                }
                            }
                        }
                        j = k + 1;
                    },
                }
            },
            None => {
                if is_closing(t.kind) {
                    if closer == Some(t.kind) {
                        return Ok((elems, j));
                    } else {
                        return Err(SyntaxError::UnexpectedClose(t.range.start));
                    }
                }
                let ghost old_elems = elems@;
                elems.push(CstElement::Token(copy_token(t)));
                proof {
                    lemma_leaves_push(old_elems, CstElement::Token(tokens@[j as int]));
                    assert(tokens@.subrange(i as int, j as int).push(tokens@[j as int])
                        =~= tokens@.subrange(i as int, j + 1));
                    lemma_push_contiguous(
                        old_elems,
                        CstElement::Token(tokens@[j as int]),
                        token_pos(tv, i as int, total),
                        token_pos(tv, j as int, total),
                        token_pos(tv, j + 1, total),
                    );
                    assert forall|m: int| 0 <= m < elems@.len() implies wf_element(
                        #[trigger] elems@[m],
                        bytes,
                    ) by {
                        if m < old_elems.len() {
                            assert(elems@[m] == old_elems[m]);
                        }
                    }
                }
                j = j + 1;
            },
        }
    }
    proof {
        lemma_scope_step(tv, n as int, closer, open_at as int);
    }
    match closer {
        Some(_) => Err(SyntaxError::UnclosedDelimiter(open_at)),
        None => Ok((elems, n)),
    }
}


// ---------------------------------------------------------------------------
// Text of a subtree.
// ---------------------------------------------------------------------------

fn push_elem_text(e: &CstElement, out: &mut String)
    ensures
        encode_utf8(final(out)@) == encode_utf8(old(out)@) + elem_bytes(*e),
    decreases e,
{
    match e {
        CstElement::Token(t) => {
            let ghost before = out@;
            out.append(t.text.as_str());
            proof {
                lemma_encode_concat(before, t.text@);
            }
        },
        CstElement::Node(n) => {
            push_elems_text(&n.children, out);
        },
    }
}

fn push_elems_text(v: &Vec<CstElement>, out: &mut String)
    ensures
        encode_utf8(final(out)@) == encode_utf8(old(out)@) + elems_bytes(v@),
    decreases v@,
{
    let ghost start = encode_utf8(out@);
    let mut i: usize = 0;
    proof {
        assert(v@.take(0) =~= Seq::<CstElement>::empty());
        assert(start + Seq::<u8>::empty() =~= start);
    }
    while i < v.len()
        invariant
            i <= v@.len(),
            encode_utf8(out@) == start + elems_bytes(v@.take(i as int)),
            start == encode_utf8(old(out)@),
        decreases v@.len() - i,
    {
        proof {
            assert(decreases_to!(v@ => v@[i as int]));
        }
        push_elem_text(&v[i], out);
        proof {
            let t = v@.take(i + 1);
            assert(t.drop_last() =~= v@.take(i as int));
            assert(t.last() == v@[i as int]);
            assert(elems_bytes(t) == elems_bytes(v@.take(i as int)) + elem_bytes(v@[i as int]));
            assert(start + elems_bytes(v@.take(i as int)) + elem_bytes(v@[i as int]) =~= start
                + elems_bytes(t));
        }
        i = i + 1;
    }
    proof {
        assert(v@.take(i as int) =~= v@);
    }
}

impl CstNode {
    /// The source text this node spans, rebuilt from its tokens.
    pub fn text(&self) -> (r: String)
        ensures
            encode_utf8(r@) == elems_bytes(self.children@),
    {
        let mut out = String::new();
        push_elems_text(&self.children, &mut out);
        proof {
            assert(encode_utf8(Seq::<char>::empty()) =~= Seq::<u8>::empty());
            assert(Seq::<u8>::empty() + elems_bytes(self.children@) =~= elems_bytes(
                self.children@,
            ));
        }
        out
    }
}

// ---------------------------------------------------------------------------
// The lossless document.
// ---------------------------------------------------------------------------

/// A source text together with its tokens and its delimiter tree.
pub struct LosslessDocument {
    pub source: String,
    pub tokens: Vec<SyntaxToken>,
    pub root: CstNode,
}

/// What parsing a source yields: its tokens, or the first lexical or
/// delimiter error.
pub open spec fn spec_parse(bytes: Seq<u8>) -> Result<Seq<(SyntaxKind, int, int)>, SyntaxError> {
    match spec_lex(bytes, 0) {
        Err(e) => Err(e),
        Ok(tv) => match spec_scope(tv, 0, None, 0) {
            Ok(_) => Ok(tv),
            Err(e) => Err(e),
        },
    }
}

proof fn lemma_tokens_ok(tokens: Seq<SyntaxToken>, bytes: Seq<u8>)
    requires
        lexemes_tile(tokens_view(tokens), 0, bytes.len() as int),
        texts_match(tokens, bytes),
    ensures
        tokens_ok(tokens, bytes),
        token_pos(tokens_view(tokens), 0, bytes.len() as int) == 0,
        token_pos(tokens_view(tokens), tokens.len() as int, bytes.len() as int) == bytes.len(),
{
    reveal(tokens_ok);
}

impl LosslessDocument {
    /// The document is consistent: tokens tile the source, the root covers
    /// it, and every node is well formed.
    pub open spec fn wf(&self) -> bool {
        let bytes = encode_utf8(self.source@);
        &&& tokens_ok(self.tokens@, bytes)
        &&& self.root.kind == CstNodeKind::Root
        &&& self.root.range.start == 0
        &&& self.root.range.end == bytes.len()
        &&& elems_contiguous(self.root.children@, 0, bytes.len() as int)
        &&& leaves(self.root.children@) == self.tokens@
        &&& forall|k: int|
            0 <= k < self.root.children@.len() ==> wf_element(
                #[trigger] self.root.children@[k],
                bytes,
            )
    }

    /// Lex and group `source`. Fails on an unterminated string or comment
    /// and on unbalanced delimiters.
    pub fn parse(source: &str) -> (res: Result<LosslessDocument, SyntaxError>)
        ensures
            match res {
                Ok(doc) => {
                    &&& doc.wf()
                    &&& doc.source@ == source@
                    &&& spec_parse(source.spec_bytes()) == Ok::<
                        Seq<(SyntaxKind, int, int)>,
                        SyntaxError,
                    >(tokens_view(doc.tokens@))
                },
                Err(e) => spec_parse(source.spec_bytes()) == Err::<
                    Seq<(SyntaxKind, int, int)>,
                    SyntaxError,
                >(e),
            },
    {
        let ghost bytes = source.spec_bytes();
        let tokens = match lex_lossless(source) {
            Ok(tokens) => tokens,
            Err(e) => {
                return Err(e);
            },
        };
        proof {
            lemma_tokens_ok(tokens@, bytes);
        }
        match build_scope(&tokens, 0, None, 0, Ghost(bytes)) {
            Err(e) => Err(e),
            Ok((children, k)) => {
                let owned = source.to_owned();
                let root = CstNode {
                    kind: CstNodeKind::Root,
                    range: TextRange { start: 0, end: source.len() },
                    children,
                };
                proof {
                    lemma_tokens_ok(tokens@, bytes);
                    assert(encode_utf8(owned@) == bytes);
                    assert(tokens@.subrange(0, tokens@.len() as int) =~= tokens@);
                }
                Ok(LosslessDocument { source: owned, tokens, root })
            },
        }
    }

    pub fn source(&self) -> (r: &str)
        ensures
            r@ == self.source@,
    {
        self.source.as_str()
    }

    pub fn tokens(&self) -> (r: &Vec<SyntaxToken>)
        ensures
            r == &self.tokens,
    {
        &self.tokens
    }

    pub fn root(&self) -> (r: &CstNode)
        ensures
            r == &self.root,
    {
        &self.root
    }

    /// The source rebuilt by concatenating the tokens' texts.
    pub fn round_trip(&self) -> (r: String)
        requires
            self.wf(),
        ensures
            r@ == self.source@,
    {
        let ghost bytes = encode_utf8(self.source@);
        let mut out = String::new();
        let mut i: usize = 0;
        proof {
            reveal(tokens_ok);
            assert(encode_utf8(out@) =~= Seq::<u8>::empty());
        }
        while i < self.tokens.len()
            invariant
                self.wf(),
                bytes == encode_utf8(self.source@),
                i <= self.tokens@.len(),
                encode_utf8(out@) == bytes.subrange(
                    0,
                    token_pos(tokens_view(self.tokens@), i as int, bytes.len() as int),
                ),
            decreases self.tokens@.len() - i,
        {
            let ghost before = out@;
            proof {
                reveal(tokens_ok);
                lemma_token_facts(self.tokens@, bytes, i as int);
            }
            out.append(self.tokens[i].text.as_str());
            proof {
                let tv = tokens_view(self.tokens@);
                let a = token_pos(tv, i as int, bytes.len() as int);
                let b = token_pos(tv, i + 1, bytes.len() as int);
                lemma_encode_concat(before, self.tokens@[i as int].text@);
                lemma_wf_token(self.tokens@[i as int], bytes);
                assert(bytes.subrange(0, a) + bytes.subrange(a, b) =~= bytes.subrange(0, b));
            }
            i = i + 1;
        }
        proof {
            reveal(tokens_ok);
            let tv = tokens_view(self.tokens@);
            assert(token_pos(tv, i as int, bytes.len() as int) == bytes.len());
            assert(bytes.subrange(0, bytes.len() as int) =~= bytes);
            lemma_encode_injective(out@, self.source@);
        }
        out
    }
}

/// The tree spells its source: the root's tokens, in order, are exactly the
/// source bytes.
pub proof fn lemma_tree_spells_source(doc: LosslessDocument)
    requires
        doc.wf(),
    ensures
        elems_bytes(doc.root.children@) == encode_utf8(doc.source@),
{
    let bytes = encode_utf8(doc.source@);
    lemma_elems_bytes(doc.root.children@, 0, bytes.len() as int, bytes);
    if doc.root.children@.len() == 0 {
        assert(bytes.len() == 0);
        assert(bytes =~= Seq::<u8>::empty());
    } else {
        assert(bytes.subrange(0, bytes.len() as int) =~= bytes);
    }
}

} // verus!
