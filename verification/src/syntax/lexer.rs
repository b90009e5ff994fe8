//! The lossless lexer. Every byte of the source belongs to exactly one token,
//! trivia (whitespace and comments) and unrecognised characters included, so
//! the token texts concatenate back to the source.

use vstd::prelude::*;
use vstd::utf8::*;
use vstd::string::StringSliceAdditionalSpecFns;
use crate::syntax::utf8_facts::{at_boundary, char_width, lemma_ascii_step, lemma_scalar_at, slice_string};

verus! {

broadcast use vstd::utf8::encode_utf8_valid_utf8;

/// A half-open byte range `[start, end)` into a source text.
#[derive(Debug, Clone, Copy, PartialEq, Eq, Structural)]
pub struct TextRange {
    pub start: usize,
    pub end: usize,
}

impl TextRange {
    pub fn new(start: usize, end: usize) -> (r: TextRange)
        ensures
            r.start == start,
            r.end == end,
    {
        TextRange { start, end }
    }

    /// The same range as a standard range, for slicing.
    pub fn as_range(&self) -> (r: core::ops::Range<usize>)
        ensures
            r.start == self.start,
            r.end == self.end,
    {
        core::ops::Range { start: self.start, end: self.end }
    }

    pub fn len(&self) -> (r: usize)
        requires
            self.start <= self.end,
        ensures
            r == self.end - self.start,
    {
        self.end - self.start
    }

    pub fn is_empty(&self) -> (r: bool)
        ensures
            r == (self.end <= self.start),
    {
        self.end <= self.start
    }
}

#[derive(Debug, Clone, Copy, PartialEq, Eq, Structural)]
pub enum SyntaxKind {
    Whitespace,
    LineComment,
    BlockComment,
    Identifier,
    Number,
    String,
    LBrace,
    RBrace,
    LBracket,
    RBracket,
    LParen,
    RParen,
    Lt,
    Gt,
    Comma,
    Semicolon,
    Colon,
    Dot,
    Eq,
    /// A character the language has no use for. Kept so no byte is lost.
    Unknown,
}

pub open spec fn kind_is_trivia(kind: SyntaxKind) -> bool {
    kind == SyntaxKind::Whitespace || kind == SyntaxKind::LineComment || kind
        == SyntaxKind::BlockComment
}

impl SyntaxKind {
    /// Whitespace and comments: tokens that carry no syntax.
    pub fn is_trivia(&self) -> (r: bool)
        ensures
            r == kind_is_trivia(*self),
    {
        matches!(self, SyntaxKind::Whitespace | SyntaxKind::LineComment | SyntaxKind::BlockComment)
    }
}

#[derive(Debug, Clone, PartialEq, Eq)]
pub struct SyntaxToken {
    pub kind: SyntaxKind,
    pub range: TextRange,
    pub text: String,
}

#[derive(Debug, Clone, PartialEq, Eq, Structural)]
pub enum SyntaxError {
    /// A `"` with no closing quote; the offset is the opening quote.
    UnterminatedString(usize),
    /// A `/*` with no closing `*/`; the offset is the opening slash.
    UnterminatedBlockComment(usize),
    /// A closing delimiter with no matching opener, or of the wrong kind.
    UnexpectedClose(usize),
    /// An opening delimiter that is never closed.
    UnclosedDelimiter(usize),
    /// An edit whose range is reversed or runs past the end of the source.
    InvalidEditRange { start: usize, end: usize, source_len: usize },
    /// Two edits touch the same bytes; the offset is the later edit's start.
    OverlappingEdits(usize),
}

/// The decimal digits of `n`.
pub open spec fn decimal(n: nat) -> Seq<char>
    decreases n,
{
    if n < 10 {
        seq![digit_char(n)]
    } else {
        decimal(n / 10).push(digit_char(n % 10))
    }
}

pub open spec fn digit_char(d: nat) -> char {
    if d == 0 {
        '0'
    } else if d == 1 {
        '1'
    } else if d == 2 {
        '2'
    } else if d == 3 {
        '3'
    } else if d == 4 {
        '4'
    } else if d == 5 {
        '5'
    } else if d == 6 {
        '6'
    } else if d == 7 {
        '7'
    } else if d == 8 {
        '8'
    } else {
        '9'
    }
}

fn digit_str(d: usize) -> (r: &'static str)
    requires
        d < 10,
    ensures
        r@ == seq![digit_char(d as nat)],
{
    proof {
        reveal_strlit("0");
        reveal_strlit("1");
        reveal_strlit("2");
        reveal_strlit("3");
        reveal_strlit("4");
        reveal_strlit("5");
        reveal_strlit("6");
        reveal_strlit("7");
        reveal_strlit("8");
        reveal_strlit("9");
    }
    if d == 0 {
        "0"
    } else if d == 1 {
        "1"
    } else if d == 2 {
        "2"
    } else if d == 3 {
        "3"
    } else if d == 4 {
        "4"
    } else if d == 5 {
        "5"
    } else if d == 6 {
        "6"
    } else if d == 7 {
        "7"
    } else if d == 8 {
        "8"
    } else {
        "9"
    }
}

/// Append the decimal digits of `n` to `out`.
pub fn push_decimal(out: &mut String, n: usize)
    ensures
        final(out)@ == old(out)@ + decimal(n as nat),
    decreases n,
{
    if n < 10 {
        out.append(digit_str(n));
    } else {
        push_decimal(out, n / 10);
        out.append(digit_str(n % 10));
        proof {
            assert(old(out)@ + decimal((n / 10) as nat) + seq![digit_char((n % 10) as nat)] =~= old(out)@
                + decimal(n as nat));
        }
    }
}

/// The description of an error.
pub open spec fn error_text(e: SyntaxError) -> Seq<char> {
    match e {
        SyntaxError::UnterminatedString(at) => "unterminated string at byte "@ + decimal(at as nat),
        SyntaxError::UnterminatedBlockComment(at) => "unterminated block comment at byte "@ + decimal(
            at as nat,
        ),
        SyntaxError::UnexpectedClose(at) => "unexpected closing delimiter at byte "@ + decimal(
            at as nat,
        ),
        SyntaxError::UnclosedDelimiter(at) => "unclosed delimiter at byte "@ + decimal(at as nat),
        SyntaxError::InvalidEditRange { start, end, source_len } => "invalid edit range "@ + decimal(
            start as nat,
        ) + ".."@ + decimal(end as nat) + " for source of "@ + decimal(source_len as nat) + " bytes"@,
        SyntaxError::OverlappingEdits(at) => "overlapping edits at byte "@ + decimal(at as nat),
    }
}

fn text_at(prefix: &str, at: usize) -> (r: String)
    ensures
        r@ == prefix@ + decimal(at as nat),
{
    let mut out = prefix.to_owned();
    push_decimal(&mut out, at);
    out
}

impl SyntaxError {
    /// A human-readable description of the error.
    pub fn message(&self) -> (r: String)
        ensures
            r@ == error_text(*self),
    {
        match self {
            SyntaxError::UnterminatedString(at) => text_at("unterminated string at byte ", *at),
            SyntaxError::UnterminatedBlockComment(at) => text_at(
                "unterminated block comment at byte ",
                *at,
            ),
            SyntaxError::UnexpectedClose(at) => text_at("unexpected closing delimiter at byte ", *at),
            SyntaxError::UnclosedDelimiter(at) => text_at("unclosed delimiter at byte ", *at),
            SyntaxError::InvalidEditRange { start, end, source_len } => {
                let mut out = text_at("invalid edit range ", *start);
                out.append("..");
                push_decimal(&mut out, *end);
                out.append(" for source of ");
                push_decimal(&mut out, *source_len);
                out.append(" bytes");
                out
            },
            SyntaxError::OverlappingEdits(at) => text_at("overlapping edits at byte ", *at),
        }
    }
}

// ---------------------------------------------------------------------------
// The token grammar, stated over the source bytes.
// ---------------------------------------------------------------------------

/// Byte classes that tokens run over.
#[derive(Clone, Copy, PartialEq, Eq, Structural)]
pub enum ByteClass {
    Space,
    IdentContinue,
    NumberContinue,
    NotNewline,
}

pub open spec fn is_space_byte(b: u8) -> bool {
    b == 0x20 || b == 0x09 || b == 0x0a || b == 0x0d || b == 0x0b || b == 0x0c
}

pub open spec fn is_digit_byte(b: u8) -> bool {
    0x30 <= b <= 0x39
}

pub open spec fn is_ident_start_byte(b: u8) -> bool {
    (0x61 <= b <= 0x7a) || (0x41 <= b <= 0x5a) || b == 0x5f
}

pub open spec fn in_class(class: ByteClass, b: u8) -> bool {
    match class {
        ByteClass::Space => is_space_byte(b),
        ByteClass::IdentContinue => is_ident_start_byte(b) || is_digit_byte(b),
        ByteClass::NumberContinue => is_digit_byte(b) || b == 0x2e,
        ByteClass::NotNewline => b != 0x0a,
    }
}

/// The first index at or after `j` whose byte is not in `class`.
pub open spec fn run_end(bytes: Seq<u8>, j: int, class: ByteClass) -> int
    decreases bytes.len() - j,
{
    if 0 <= j < bytes.len() && in_class(class, bytes[j]) {
        run_end(bytes, j + 1, class)
    } else {
        j
    }
}

/// Where a block comment whose body starts at `j` ends (just past its `*/`).
pub open spec fn block_comment_close(bytes: Seq<u8>, j: int) -> Option<int>
    decreases bytes.len() - j,
{
    if j < 0 || j + 1 >= bytes.len() {
        None
    } else if bytes[j] == 0x2a && bytes[j + 1] == 0x2f {
        Some(j + 2)
    } else {
        block_comment_close(bytes, j + 1)
    }
}

/// Where a string whose body starts at `j` ends (just past its closing quote).
/// A backslash escapes the byte after it.
pub open spec fn string_close(bytes: Seq<u8>, j: int) -> Option<int>
    decreases bytes.len() + 2 - j,
{
    if j < 0 || j >= bytes.len() {
        None
    } else if bytes[j] == 0x22 {
        Some(j + 1)
    } else if bytes[j] == 0x5c {
        string_close(bytes, j + 2)
    } else {
        string_close(bytes, j + 1)
    }
}

/// The end of a number whose first byte is at `j - 1`: digits and dots, then
/// an optional `%`.
pub open spec fn number_end(bytes: Seq<u8>, j: int) -> int {
    let e = run_end(bytes, j, ByteClass::NumberContinue);
    if 0 <= e < bytes.len() && bytes[e] == 0x25 {
        e + 1
    } else {
        e
    }
}

pub open spec fn punct_kind(b: u8) -> Option<SyntaxKind> {
    if b == 0x7b {
        Some(SyntaxKind::LBrace)
    } else if b == 0x7d {
        Some(SyntaxKind::RBrace)
    } else if b == 0x5b {
        Some(SyntaxKind::LBracket)
    } else if b == 0x5d {
        Some(SyntaxKind::RBracket)
    } else if b == 0x28 {
        Some(SyntaxKind::LParen)
    } else if b == 0x29 {
        Some(SyntaxKind::RParen)
    } else if b == 0x3c {
        Some(SyntaxKind::Lt)
    } else if b == 0x3e {
        Some(SyntaxKind::Gt)
    } else if b == 0x2c {
        Some(SyntaxKind::Comma)
    } else if b == 0x3b {
        Some(SyntaxKind::Semicolon)
    } else if b == 0x3a {
        Some(SyntaxKind::Colon)
    } else if b == 0x2e {
        Some(SyntaxKind::Dot)
    } else if b == 0x3d {
        Some(SyntaxKind::Eq)
    } else {
        None
    }
}

/// The token that starts at byte `i` (longest match), as its kind and end.
pub open spec fn spec_scan(bytes: Seq<u8>, i: int) -> Result<(SyntaxKind, int), SyntaxError> {
    let b = bytes[i];
    let n = bytes.len();
    if is_space_byte(b) {
        Ok((SyntaxKind::Whitespace, run_end(bytes, i + 1, ByteClass::Space)))
    } else if b == 0x2f && i + 1 < n && bytes[i + 1] == 0x2f {
        Ok((SyntaxKind::LineComment, run_end(bytes, i + 2, ByteClass::NotNewline)))
    } else if b == 0x2f && i + 1 < n && bytes[i + 1] == 0x2a {
        match block_comment_close(bytes, i + 2) {
            Some(e) => Ok((SyntaxKind::BlockComment, e)),
            None => Err(SyntaxError::UnterminatedBlockComment(i as usize)),
        }
    } else if b == 0x22 {
        match string_close(bytes, i + 1) {
            Some(e) => Ok((SyntaxKind::String, e)),
            None => Err(SyntaxError::UnterminatedString(i as usize)),
        }
    } else if is_digit_byte(b) || (b == 0x2d && i + 1 < n && is_digit_byte(bytes[i + 1])) {
        Ok((SyntaxKind::Number, number_end(bytes, i + 1)))
    } else if is_ident_start_byte(b) {
        Ok((SyntaxKind::Identifier, run_end(bytes, i + 1, ByteClass::IdentContinue)))
    } else {
        match punct_kind(b) {
            Some(k) => Ok((k, i + 1)),
            None => Ok(
                (
                    SyntaxKind::Unknown,
                    if i + char_width(b) <= n {
                        i + char_width(b)
                    } else {
                        n as int
                    },
                ),
            ),
        }
    }
}

/// The whole tokenization from byte `i` on: `(kind, start, end)` triples, or
/// the first error.
pub open spec fn spec_lex(bytes: Seq<u8>, i: int) -> Result<Seq<(SyntaxKind, int, int)>, SyntaxError>
    decreases bytes.len() - i,
{
    if i < 0 || i >= bytes.len() {
        Ok(Seq::empty())
    } else {
        match spec_scan(bytes, i) {
            Err(e) => Err(e),
            Ok((k, e)) => if e > i && e <= bytes.len() {
                match spec_lex(bytes, e) {
                    Ok(rest) => Ok(seq![(k, i, e)] + rest),
                    Err(er) => Err(er),
                }
            } else {
                Ok(Seq::empty())
            },
        }
    }
}

pub open spec fn token_view(t: SyntaxToken) -> (SyntaxKind, int, int) {
    (t.kind, t.range.start as int, t.range.end as int)
}

pub open spec fn tokens_view(tokens: Seq<SyntaxToken>) -> Seq<(SyntaxKind, int, int)> {
    tokens.map_values(|t: SyntaxToken| token_view(t))
}

/// Each token's text is exactly the source bytes in its range.
pub open spec fn texts_match(tokens: Seq<SyntaxToken>, bytes: Seq<u8>) -> bool {
    forall|k: int|
        0 <= k < tokens.len() ==> {
            &&& (#[trigger] tokens[k]).range.start <= tokens[k].range.end <= bytes.len()
            &&& encode_utf8(tokens[k].text@) == bytes.subrange(
                tokens[k].range.start as int,
                tokens[k].range.end as int,
            )
        }
}

/// Lexemes that cover `[from, to)` with no gap or overlap, each non-empty.
pub open spec fn lexemes_tile(s: Seq<(SyntaxKind, int, int)>, from: int, to: int) -> bool {
    &&& (s.len() == 0 ==> from == to)
    &&& (s.len() > 0 ==> s[0].1 == from && s[s.len() - 1].2 == to)
    &&& forall|k: int| 0 <= k < s.len() ==> (#[trigger] s[k]).1 < s[k].2
    &&& forall|a: int, b: int|
        #![trigger s[a], s[b]]
        0 <= a && b == a + 1 && b < s.len() ==> s[a].2 == s[b].1
}

/// The tokenization covers the rest of the source exactly.
pub proof fn lemma_lex_tiles(bytes: Seq<u8>, i: int)
    requires
        0 <= i <= bytes.len(),
    ensures
        spec_lex(bytes, i) matches Ok(s) ==> lexemes_tile(s, i, bytes.len() as int),
    decreases bytes.len() - i,
{
    if i < bytes.len() {
        if let Ok((k, e)) = spec_scan(bytes, i) {
            if e > i {
                if e <= bytes.len() {
                    lemma_lex_tiles(bytes, e);
                    if let Ok(rest) = spec_lex(bytes, e) {
                        let s = seq![(k, i, e)] + rest;
                        assert forall|a: int, b: int|
                            #![trigger s[a], s[b]]
                            0 <= a && b == a + 1 && b < s.len() implies s[a].2 == s[b].1 by {
                            if a > 0 {
                                assert(s[a] == rest[a - 1]);
                                assert(s[b] == rest[b - 1]);
                            } else {
                                assert(s[b] == rest[0]);
                            }
                        }
                        assert forall|m: int| 0 <= m < s.len() implies (#[trigger] s[m]).1 < s[m].2 by {
                            if m > 0 {
                                assert(s[m] == rest[m - 1]);
                            }
                        }
                    }
                } else {
                    lemma_scan_end_in_bounds(bytes, i);
                }
            } else {
                lemma_scan_progress(bytes, i);
            }
        }
    }
}

pub proof fn lemma_run_end_bounds(bytes: Seq<u8>, j: int, class: ByteClass)
    requires
        0 <= j <= bytes.len(),
    ensures
        j <= run_end(bytes, j, class) <= bytes.len(),
        forall|m: int| j <= m < run_end(bytes, j, class) ==> in_class(class, #[trigger] bytes[m]),
        run_end(bytes, j, class) < bytes.len() ==> !in_class(class, bytes[run_end(bytes, j, class)]),
    decreases bytes.len() - j,
{
    if j < bytes.len() && in_class(class, bytes[j]) {
        lemma_run_end_bounds(bytes, j + 1, class);
    }
}

pub proof fn lemma_block_comment_close(bytes: Seq<u8>, j: int)
    requires
        0 <= j,
    ensures
        block_comment_close(bytes, j) matches Some(e) ==> j + 2 <= e <= bytes.len() && bytes[e
            - 1] == 0x2f,
    decreases bytes.len() - j,
{
    if j + 1 < bytes.len() && !(bytes[j] == 0x2a && bytes[j + 1] == 0x2f) {
        lemma_block_comment_close(bytes, j + 1);
    }
}

pub proof fn lemma_string_close(bytes: Seq<u8>, j: int)
    requires
        0 <= j,
    ensures
        string_close(bytes, j) matches Some(e) ==> j + 1 <= e <= bytes.len() && bytes[e - 1]
            == 0x22,
    decreases bytes.len() + 2 - j,
{
    if j < bytes.len() && bytes[j] != 0x22 {
        if bytes[j] == 0x5c {
            lemma_string_close(bytes, j + 2);
        } else {
            lemma_string_close(bytes, j + 1);
        }
    }
}

pub proof fn lemma_scan_progress(bytes: Seq<u8>, i: int)
    requires
        0 <= i < bytes.len(),
    ensures
        spec_scan(bytes, i) matches Ok((k, e)) ==> i < e <= bytes.len(),
{
    lemma_scan_end_in_bounds(bytes, i);
}

pub proof fn lemma_scan_end_in_bounds(bytes: Seq<u8>, i: int)
    requires
        0 <= i < bytes.len(),
    ensures
        spec_scan(bytes, i) matches Ok((k, e)) ==> i < e <= bytes.len(),
{
    let n = bytes.len() as int;
    lemma_run_end_bounds(bytes, i + 1, ByteClass::Space);
    lemma_run_end_bounds(bytes, i + 1, ByteClass::NumberContinue);
    lemma_run_end_bounds(bytes, i + 1, ByteClass::IdentContinue);
    if i + 2 <= n {
        lemma_run_end_bounds(bytes, i + 2, ByteClass::NotNewline);
        lemma_block_comment_close(bytes, i + 2);
    }
    lemma_string_close(bytes, i + 1);
}

// ---------------------------------------------------------------------------
// Executable lexer.
// ---------------------------------------------------------------------------

fn byte_in_class(class: ByteClass, b: u8) -> (r: bool)
    ensures
        r == in_class(class, b),
{
    match class {
        ByteClass::Space => b == 0x20 || b == 0x09 || b == 0x0a || b == 0x0d || b == 0x0b || b
            == 0x0c,
        ByteClass::IdentContinue => (0x61 <= b && b <= 0x7a) || (0x41 <= b && b <= 0x5a) || b
            == 0x5f || (0x30 <= b && b <= 0x39),
        ByteClass::NumberContinue => (0x30 <= b && b <= 0x39) || b == 0x2e,
        ByteClass::NotNewline => b != 0x0a,
    }
}

fn scan_run(bytes: &[u8], j: usize, class: ByteClass) -> (e: usize)
    requires
        j <= bytes@.len(),
    ensures
        e == run_end(bytes@, j as int, class),
        j <= e <= bytes@.len(),
{
    let mut e = j;
    while e < bytes.len() && byte_in_class(class, bytes[e])
        invariant
            j <= e <= bytes@.len(),
            run_end(bytes@, j as int, class) == run_end(bytes@, e as int, class),
        decreases bytes@.len() - e,
    {
        e = e + 1;
    }
    e
}

fn scan_block_comment(bytes: &[u8], j: usize) -> (r: Option<usize>)
    requires
        j <= bytes@.len(),
    ensures
        r matches Some(e) ==> block_comment_close(bytes@, j as int) == Some(e as int),
        r is None ==> block_comment_close(bytes@, j as int) is None,
{
    let mut k = j;
    while k < bytes.len() && k + 1 < bytes.len()
        invariant
            j <= k <= bytes@.len(),
            block_comment_close(bytes@, j as int) == block_comment_close(bytes@, k as int),
        decreases bytes@.len() - k,
    {
        if bytes[k] == 0x2a && bytes[k + 1] == 0x2f {
            return Some(k + 2);
        }
        k = k + 1;
    }
    None
}

fn scan_string(bytes: &[u8], j: usize) -> (r: Option<usize>)
    requires
        j <= bytes@.len(),
    ensures
        r matches Some(e) ==> string_close(bytes@, j as int) == Some(e as int),
        r is None ==> string_close(bytes@, j as int) is None,
{
    let mut k = j;
    while k < bytes.len()
        invariant
            j <= k,
            string_close(bytes@, j as int) == string_close(bytes@, k as int),
        decreases bytes@.len() + 2 - k,
    {
        if bytes[k] == 0x22 {
            return Some(k + 1);
        }
        if bytes[k] == 0x5c {
            if k + 1 >= bytes.len() {
                assert(string_close(bytes@, k + 2) is None);
                return None;
            }
            k = k + 2;
        } else {
            k = k + 1;
        }
    }
    None
}

fn punct(b: u8) -> (r: Option<SyntaxKind>)
    ensures
        r == punct_kind(b),
{
    if b == 0x7b {
        Some(SyntaxKind::LBrace)
    } else if b == 0x7d {
        Some(SyntaxKind::RBrace)
    } else if b == 0x5b {
        Some(SyntaxKind::LBracket)
    } else if b == 0x5d {
        Some(SyntaxKind::RBracket)
    } else if b == 0x28 {
        Some(SyntaxKind::LParen)
    } else if b == 0x29 {
        Some(SyntaxKind::RParen)
    } else if b == 0x3c {
        Some(SyntaxKind::Lt)
    } else if b == 0x3e {
        Some(SyntaxKind::Gt)
    } else if b == 0x2c {
        Some(SyntaxKind::Comma)
    } else if b == 0x3b {
        Some(SyntaxKind::Semicolon)
    } else if b == 0x3a {
        Some(SyntaxKind::Colon)
    } else if b == 0x2e {
        Some(SyntaxKind::Dot)
    } else if b == 0x3d {
        Some(SyntaxKind::Eq)
    } else {
        None
    }
}

fn width_of(b: u8) -> (w: usize)
    ensures
        w == char_width(b),
{
    if b < 0x80 {
        1
    } else if 0xc0 <= b && b <= 0xdf {
        2
    } else if 0xe0 <= b && b <= 0xef {
        3
    } else if 0xf0 <= b && b <= 0xf7 {
        4
    } else {
        1
    }
}

/// After a run of ASCII bytes that began at a character start, the run's end
/// is a character start too.
proof fn lemma_ascii_run_boundary(bytes: Seq<u8>, i: int, e: int)
    requires
        valid_utf8(bytes),
        0 <= i < e <= bytes.len(),
        forall|m: int| i <= m < e ==> #[trigger] bytes[m] < 0x80,
    ensures
        at_boundary(bytes, e),
{
    lemma_ascii_step(bytes, e - 1);
}

/// Scan the token at byte `i`.
fn scan(bytes: &[u8], i: usize) -> (r: Result<(SyntaxKind, usize), SyntaxError>)
    requires
        i < bytes@.len(),
        valid_utf8(bytes@),
        at_boundary(bytes@, i as int),
    ensures
        r matches Ok((k, e)) ==> spec_scan(bytes@, i as int) == Ok::<(SyntaxKind, int), SyntaxError>(
            (k, e as int),
        ) && i < e <= bytes@.len() && at_boundary(bytes@, e as int),
        r matches Err(err) ==> spec_scan(bytes@, i as int) == Err::<(SyntaxKind, int), SyntaxError>(
            err,
        ),
{
    let ghost bs = bytes@;
    let n = bytes.len();
    let b = bytes[i];
    proof {
        lemma_scan_end_in_bounds(bs, i as int);
    }
    if byte_in_class(ByteClass::Space, b) {
        let e = scan_run(bytes, i + 1, ByteClass::Space);
        proof {
            lemma_run_end_bounds(bs, i + 1, ByteClass::Space);
            lemma_ascii_run_boundary(bs, i as int, e as int);
        }
        Ok((SyntaxKind::Whitespace, e))
    } else if b == 0x2f && i + 1 < n && bytes[i + 1] == 0x2f {
        let e = scan_run(bytes, i + 2, ByteClass::NotNewline);
        proof {
            lemma_run_end_bounds(bs, i + 2, ByteClass::NotNewline);
        }
        Ok((SyntaxKind::LineComment, e))
    } else if b == 0x2f && i + 1 < n && bytes[i + 1] == 0x2a {
        match scan_block_comment(bytes, i + 2) {
            Some(e) => {
                proof {
                    lemma_block_comment_close(bs, i + 2);
                    lemma_ascii_step(bs, e - 1);
                }
                Ok((SyntaxKind::BlockComment, e))
            },
            None => Err(SyntaxError::UnterminatedBlockComment(i)),
        }
    } else if b == 0x22 {
        match scan_string(bytes, i + 1) {
            Some(e) => {
                proof {
                    lemma_string_close(bs, i + 1);
                    lemma_ascii_step(bs, e - 1);
                }
                Ok((SyntaxKind::String, e))
            },
            None => Err(SyntaxError::UnterminatedString(i)),
        }
    } else if (0x30 <= b && b <= 0x39) || (b == 0x2d && i + 1 < n && 0x30 <= bytes[i + 1]
        && bytes[i + 1] <= 0x39) {
        let e0 = scan_run(bytes, i + 1, ByteClass::NumberContinue);
        proof {
            lemma_run_end_bounds(bs, i + 1, ByteClass::NumberContinue);
            lemma_ascii_run_boundary(bs, i as int, e0 as int);
        }
        let e = if e0 < n && bytes[e0] == 0x25 {
            proof {
                lemma_ascii_step(bs, e0 as int);
            }
            e0 + 1
        } else {
            e0
        };
        Ok((SyntaxKind::Number, e))
    } else if (0x61 <= b && b <= 0x7a) || (0x41 <= b && b <= 0x5a) || b == 0x5f {
        let e = scan_run(bytes, i + 1, ByteClass::IdentContinue);
        proof {
            lemma_run_end_bounds(bs, i + 1, ByteClass::IdentContinue);
            lemma_ascii_run_boundary(bs, i as int, e as int);
        }
        Ok((SyntaxKind::Identifier, e))
    } else {
        match punct(b) {
            Some(k) => {
                proof {
                    lemma_ascii_step(bs, i as int);
                }
                Ok((k, i + 1))
            },
            None => {
                let w = width_of(b);
                proof {
                    lemma_scalar_at(bs, i as int);
                }
                Ok((SyntaxKind::Unknown, i + w))
            },
        }
    }
}

pub open spec fn prepend_lexemes(
    p: Seq<(SyntaxKind, int, int)>,
    r: Result<Seq<(SyntaxKind, int, int)>, SyntaxError>,
) -> Result<Seq<(SyntaxKind, int, int)>, SyntaxError> {
    match r {
        Ok(s) => Ok(p + s),
        Err(e) => Err(e),
    }
}

/// Split `source` into tokens that tile it exactly. Fails only on an
/// unterminated string or block comment.
pub fn lex_lossless(source: &str) -> (res: Result<Vec<SyntaxToken>, SyntaxError>)
    ensures
        match res {
            Ok(tokens) => {
                &&& spec_lex(source.spec_bytes(), 0) == Ok::<
                    Seq<(SyntaxKind, int, int)>,
                    SyntaxError,
                >(tokens_view(tokens@))
                &&& texts_match(tokens@, source.spec_bytes())
                &&& lexemes_tile(tokens_view(tokens@), 0, source.spec_bytes().len() as int)
            },
            Err(e) => spec_lex(source.spec_bytes(), 0) == Err::<
                Seq<(SyntaxKind, int, int)>,
                SyntaxError,
            >(e),
        },
{
    let bytes = source.as_bytes();
    let ghost bs = bytes@;
    let n = bytes.len();
    let mut tokens: Vec<SyntaxToken> = Vec::new();
    let mut i: usize = 0;
    proof {
        assert(valid_utf8(bs));
        lemma_lex_tiles(bs, 0);
    }
    while i < n
        invariant
            n == bs.len(),
            bs == source.spec_bytes(),
            bytes@ == bs,
            valid_utf8(bs),
            i <= n,
            at_boundary(bs, i as int),
            spec_lex(bs, 0) == prepend_lexemes(tokens_view(tokens@), spec_lex(bs, i as int)),
            texts_match(tokens@, bs),
        decreases n - i,
    {
        match scan(bytes, i) {
            Err(e) => {
                return Err(e);
            },
            Ok((kind, e)) => {
                let text = slice_string(source, i, e);
                let token = SyntaxToken { kind, range: TextRange { start: i, end: e }, text };
                let ghost old_tokens = tokens@;
                tokens.push(token);
                proof {
                    assert(tokens_view(tokens@) =~= tokens_view(old_tokens) + seq![
                        (kind, i as int, e as int),
                    ]);
                    match spec_lex(bs, e as int) {
                        Ok(rest) => {
                            assert(seq![(kind, i as int, e as int)] + rest =~= seq![
                                (kind, i as int, e as int),
                            ] + rest);
                            assert(tokens_view(old_tokens) + (seq![(kind, i as int, e as int)]
                                + rest) =~= tokens_view(tokens@) + rest);
                        },
                        Err(_) => {},
                    }
                    assert forall|k: int| 0 <= k < tokens@.len() implies {
                        &&& (#[trigger] tokens@[k]).range.start <= tokens@[k].range.end <= bs.len()
                        &&& encode_utf8(tokens@[k].text@) == bs.subrange(
                            tokens@[k].range.start as int,
                            tokens@[k].range.end as int,
                        )
                    } by {
                        if k < old_tokens.len() {
                            assert(tokens@[k] == old_tokens[k]);
                        }
                    }
                }
                i = e;
            },
        }
    }
    proof {
        assert(tokens_view(tokens@) + Seq::<(SyntaxKind, int, int)>::empty() =~= tokens_view(
            tokens@,
        ));
    }
    Ok(tokens)
}

} // verus!
