//! The document outline in the shape the recipe builder consumes, with every
//! offset converted to UTF-16 so that `String.prototype.slice` lands where
//! the parser meant.

use vstd::prelude::*;
use vstd::utf8::*;
use vstd::string::StringSliceAdditionalSpecFns;
use crate::syntax::lexer::TextRange;
use crate::syntax::outline::{Outline, OutlineForm, OutlineNode, opt_view, outlines_source};
use crate::syntax::tree::spec_parse;
use crate::ui::offsets::{Utf16Offsets, utf16_index};

verus! {

#[derive(Debug, Clone, Copy, PartialEq, Eq, Structural)]
pub struct UiRange {
    pub start: usize,
    pub end: usize,
}

#[derive(Debug)]
pub struct UiOutlineNode {
    pub keyword: String,
    /// `"declaration"` when the node carries a block, otherwise `"statement"`.
    pub form: &'static str,
    pub symbol: Option<String>,
    /// Includes leading trivia: the span to delete.
    pub range: UiRange,
    /// Excludes leading trivia: the span to replace.
    pub code_range: UiRange,
    pub value_range: Option<UiRange>,
    pub header_range: Option<UiRange>,
    pub block_inner_range: Option<UiRange>,
    pub indent: String,
    pub children: Vec<UiOutlineNode>,
}

#[derive(Debug)]
pub struct UiOutline {
    pub nodes: Vec<UiOutlineNode>,
    /// In the same UTF-16 units as the ranges.
    pub source_len: usize,
    /// False when the source had no walkable tree (an unbalanced brace or an
    /// unterminated string); the builder then keeps its last good outline.
    pub parsed: bool,
}

/// The UTF-16 index of a byte offset, an offset past the end mapping to the
/// end.
pub open spec fn ui_pos(bytes: Seq<u8>, x: int) -> int {
    utf16_index(bytes, if x <= bytes.len() { x } else { bytes.len() as int }) as int
}

pub open spec fn ui_range(bytes: Seq<u8>, r: TextRange) -> UiRange {
    UiRange { start: ui_pos(bytes, r.start as int) as usize, end: ui_pos(bytes, r.end as int) as usize }
}

pub open spec fn ui_opt(bytes: Seq<u8>, r: Option<TextRange>) -> Option<UiRange> {
    match r {
        Some(r) => Some(ui_range(bytes, r)),
        None => None,
    }
}

pub open spec fn form_name(form: OutlineForm) -> Seq<char> {
    match form {
        OutlineForm::Declaration => "declaration"@,
        OutlineForm::Statement => "statement"@,
    }
}

/// `u` is `n` with its offsets in UTF-16 units of `bytes`.
pub open spec fn projects(u: UiOutlineNode, n: OutlineNode, bytes: Seq<u8>) -> bool
    decreases n,
{
    &&& u.keyword@ == n.keyword@
    &&& u.form@ == form_name(n.form)
    &&& opt_view(u.symbol) == opt_view(n.symbol)
    &&& u.range == ui_range(bytes, n.range)
    &&& u.code_range == ui_range(bytes, n.code_range)
    &&& u.value_range == ui_opt(bytes, n.value_range)
    &&& u.header_range == ui_opt(bytes, n.header_range)
    &&& u.block_inner_range == ui_opt(bytes, n.block_inner_range)
    &&& u.indent@ == n.indent@
    &&& u.children@.len() == n.children@.len()
    &&& forall|k: int|
        0 <= k < n.children@.len() ==> projects(#[trigger] u.children@[k], n.children@[k], bytes)
}

pub open spec fn projects_all(us: Seq<UiOutlineNode>, ns: Seq<OutlineNode>, bytes: Seq<u8>) -> bool {
    &&& us.len() == ns.len()
    &&& forall|k: int| 0 <= k < ns.len() ==> projects(#[trigger] us[k], ns[k], bytes)
}

/// The table for `bytes` holds every offset's UTF-16 index.
pub open spec fn table_of(t: Seq<u32>, bytes: Seq<u8>) -> bool {
    &&& t.len() == bytes.len() + 1
    &&& forall|i: int| 0 <= i < t.len() ==> #[trigger] t[i] == utf16_index(bytes, i)
}

fn convert(offsets: &Utf16Offsets, x: usize, Ghost(bytes): Ghost<Seq<u8>>) -> (r: usize)
    requires
        table_of(offsets@, bytes),
    ensures
        r == ui_pos(bytes, x as int),
{
    offsets.at(x)
}

fn ui_range_of(range: TextRange, offsets: &Utf16Offsets, Ghost(bytes): Ghost<Seq<u8>>) -> (r: UiRange)
    requires
        table_of(offsets@, bytes),
    ensures
        r == ui_range(bytes, range),
{
    UiRange { start: convert(offsets, range.start, Ghost(bytes)), end: convert(offsets, range.end, Ghost(bytes)) }
}

fn ui_opt_of(range: Option<TextRange>, offsets: &Utf16Offsets, Ghost(bytes): Ghost<Seq<u8>>) -> (r: Option<UiRange>)
    requires
        table_of(offsets@, bytes),
    ensures
        r == ui_opt(bytes, range),
{
    match range {
        Some(range) => Some(ui_range_of(range, offsets, Ghost(bytes))),
        None => None,
    }
}

fn clone_opt(s: &Option<String>) -> (r: Option<String>)
    ensures
        opt_view(r) == opt_view(*s),
{
    match s {
        Some(s) => Some(s.clone()),
        None => None,
    }
}

fn node(n: &OutlineNode, offsets: &Utf16Offsets, Ghost(bytes): Ghost<Seq<u8>>) -> (r: UiOutlineNode)
    requires
        table_of(offsets@, bytes),
    ensures
        projects(r, *n, bytes),
    decreases n,
{
    let form: &'static str = match n.form {
        OutlineForm::Declaration => "declaration",
        OutlineForm::Statement => "statement",
    };
    let children = nodes(&n.children, offsets, Ghost(bytes));
    UiOutlineNode {
        keyword: n.keyword.clone(),
        form,
        symbol: clone_opt(&n.symbol),
        range: ui_range_of(n.range, offsets, Ghost(bytes)),
        code_range: ui_range_of(n.code_range, offsets, Ghost(bytes)),
        value_range: ui_opt_of(n.value_range, offsets, Ghost(bytes)),
        header_range: ui_opt_of(n.header_range, offsets, Ghost(bytes)),
        block_inner_range: ui_opt_of(n.block_inner_range, offsets, Ghost(bytes)),
        indent: n.indent.clone(),
        children,
    }
}

fn nodes(ns: &Vec<OutlineNode>, offsets: &Utf16Offsets, Ghost(bytes): Ghost<Seq<u8>>) -> (r: Vec<UiOutlineNode>)
    requires
        table_of(offsets@, bytes),
    ensures
        projects_all(r@, ns@, bytes),
    decreases ns,
{
    let mut out: Vec<UiOutlineNode> = Vec::new();
    let mut i: usize = 0;
    while i < ns.len()
        invariant
            table_of(offsets@, bytes),
            i <= ns@.len(),
            out@.len() == i,
            forall|k: int| 0 <= k < i ==> projects(#[trigger] out@[k], ns@[k], bytes),
        decreases ns@.len() - i,
    {
        proof {
            assert(decreases_to!(ns => ns@[i as int]));
        }
        let u = node(&ns[i], offsets, Ghost(bytes));
        out.push(u);
        i = i + 1;
    }
    out
}

/// Project the outline of `source` for the editor.
pub fn project(source: &str) -> (r: UiOutline)
    requires
        source.spec_bytes().len() < u32::MAX,
    ensures
        r.source_len == ui_pos(source.spec_bytes(), source.spec_bytes().len() as int),
        r.parsed == spec_parse(source.spec_bytes()) is Ok,
        !r.parsed ==> r.nodes@.len() == 0,
        r.parsed ==> exists|o: Seq<OutlineNode>|
            #![trigger outlines_source(o, source@)]
            outlines_source(o, source@) && projects_all(r.nodes@, o, source.spec_bytes()),
{
    let ghost bytes = source.spec_bytes();
    let offsets = Utf16Offsets::new(source);
    let source_len = convert(&offsets, source.as_bytes().len(), Ghost(bytes));
    match Outline::parse(source) {
        Ok(outline) => {
            let ns = nodes(&outline.nodes, &offsets, Ghost(bytes));
            proof {
                assert(outlines_source(outline.nodes@, source@));
            }
            UiOutline { nodes: ns, source_len, parsed: true }
        },
        Err(_) => UiOutline { nodes: Vec::new(), source_len, parsed: false },
    }
}

} // verus!
