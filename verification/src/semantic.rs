//! The tokens of the semantic layer: what the recipe reader sees once
//! comments and white space are gone.
//!
//! A number keeps its text here; its value is read as a floating-point
//! number by whoever needs it, and the lexer guarantees that the text is one
//! that `f64` parsing accepts.

use vstd::prelude::*;
use vstd::utf8::encode_utf8;
use vstd::string::StringSliceAdditionalSpecFns;
use crate::model::{BindingRole, Operation, Recipe, Resource, ResourceBinding, ResourceKind};
use crate::syntax::lexer::{SyntaxError, decimal, error_text, push_decimal};
use crate::syntax::text::str_eq;
use crate::validate::{declares_resource, is_declared_resource};
use crate::syntax::utf8_facts::{at_boundary, lemma_ascii_step, lemma_scalar_at_start, slice_string};

verus! {

broadcast use vstd::utf8::encode_utf8_valid_utf8;

/// A token; names, strings and numbers keep their source text.
#[derive(Debug, Clone, PartialEq)]
pub enum Token {
    Ident(String),
    /// The text between the quotes, escapes left as written.
    String(String),
    /// A number, as written.
    Number(String),
    /// A number followed by `%`, the number as written.
    Percent(String),
    LBrace,
    RBrace,
    LBracket,
    RBracket,
    Lt,
    Gt,
    Comma,
    Semi,
    Eq,
    Dot,
}

/// A token with its text as the bytes of the source it came from.
pub enum Lexeme {
    Ident(Seq<u8>),
    String(Seq<u8>),
    Number(Seq<u8>),
    Percent(Seq<u8>),
    LBrace,
    RBrace,
    LBracket,
    RBracket,
    Lt,
    Gt,
    Comma,
    Semi,
    Eq,
    Dot,
}

impl View for Token {
    type V = Lexeme;

    open spec fn view(&self) -> Lexeme {
        match self {
            Token::Ident(s) => Lexeme::Ident(encode_utf8(s@)),
            Token::String(s) => Lexeme::String(encode_utf8(s@)),
            Token::Number(s) => Lexeme::Number(encode_utf8(s@)),
            Token::Percent(s) => Lexeme::Percent(encode_utf8(s@)),
            Token::LBrace => Lexeme::LBrace,
            Token::RBrace => Lexeme::RBrace,
            Token::LBracket => Lexeme::LBracket,
            Token::RBracket => Lexeme::RBracket,
            Token::Lt => Lexeme::Lt,
            Token::Gt => Lexeme::Gt,
            Token::Comma => Lexeme::Comma,
            Token::Semi => Lexeme::Semi,
            Token::Eq => Lexeme::Eq,
            Token::Dot => Lexeme::Dot,
        }
    }
}

/// Why a document could not be read.
#[derive(Debug, Clone, PartialEq, Eq)]
pub enum ParseError {
    /// No token starts at this byte.
    Lex(usize, String),
    /// The tokens do not form a document; the index is the token's.
    Syntax(usize, String),
    /// The lossless layer refused the source.
    Lossless(String),
}

/// The description of a parse error.
pub open spec fn parse_error_text(e: ParseError) -> Seq<char> {
    match e {
        ParseError::Lex(at, m) => "lex error at byte "@ + decimal(at as nat) + ": "@ + m@,
        ParseError::Syntax(at, m) => "parse error near token "@ + decimal(at as nat) + ": "@ + m@,
        ParseError::Lossless(m) => "syntax error: "@ + m@,
    }
}

impl ParseError {
    /// A human-readable description of the error.
    pub fn message(&self) -> (r: String)
        ensures
            r@ == parse_error_text(*self),
    {
        match self {
            ParseError::Lex(at, m) => {
                let mut out = "lex error at byte ".to_owned();
                push_decimal(&mut out, *at);
                out.append(": ");
                out.append(m.as_str());
                out
            },
            ParseError::Syntax(at, m) => {
                let mut out = "parse error near token ".to_owned();
                push_decimal(&mut out, *at);
                out.append(": ");
                out.append(m.as_str());
                out
            },
            ParseError::Lossless(m) => {
                let mut out = "syntax error: ".to_owned();
                out.append(m.as_str());
                out
            },
        }
    }

    /// The error for a source the lossless layer refused.
    pub fn from_syntax(error: &SyntaxError) -> (r: ParseError)
        ensures
            r matches ParseError::Lossless(m) && m@ == error_text(*error),
    {
        ParseError::Lossless(error.message())
    }
}

// ---------------------------------------------------------------------------
// The lexer, stated over bytes. Bytes are written by their ASCII codes:
// 10 newline, 34 `"`, 37 `%`, 42 `*`, 45 `-`, 46 `.`, 47 `/`, 92 `\`,
// 95 `_`, 48..=57 digits, 65..=90 and 97..=122 letters; and for
// punctuation 44 `,`, 59 `;`, 60 `<`, 61 `=`, 62 `>`, 91 `[`, 93 `]`,
// 123 `{`, 125 `}`.
// ---------------------------------------------------------------------------

/// White space, reading the byte as a character of its own.
pub open spec fn ws_byte(x: u8) -> bool {
    (9 <= x <= 13) || x == 32 || x == 0x85 || x == 0xa0
}

pub open spec fn digit_byte(x: u8) -> bool {
    48 <= x <= 57
}

pub open spec fn alpha_byte(x: u8) -> bool {
    (65 <= x <= 90) || (97 <= x <= 122)
}

pub open spec fn word_byte(x: u8) -> bool {
    digit_byte(x) || alpha_byte(x) || x == 95
}

/// The token a one-byte punctuation mark stands for.
pub open spec fn punct_of(x: u8) -> Option<Lexeme> {
    if x == 123 {
        Some(Lexeme::LBrace)
    } else if x == 125 {
        Some(Lexeme::RBrace)
    } else if x == 91 {
        Some(Lexeme::LBracket)
    } else if x == 93 {
        Some(Lexeme::RBracket)
    } else if x == 60 {
        Some(Lexeme::Lt)
    } else if x == 62 {
        Some(Lexeme::Gt)
    } else if x == 44 {
        Some(Lexeme::Comma)
    } else if x == 59 {
        Some(Lexeme::Semi)
    } else if x == 61 {
        Some(Lexeme::Eq)
    } else if x == 46 {
        Some(Lexeme::Dot)
    } else {
        None
    }
}

/// Where a line comment from `j` ends: at the next newline, or the end.
pub open spec fn line_end(b: Seq<u8>, j: int) -> int
    decreases b.len() - j,
{
    if 0 <= j < b.len() && b[j] != 10 {
        line_end(b, j + 1)
    } else {
        j
    }
}

/// Where the `*/` of a block comment whose body starts at `j` is: the first
/// `*` followed by `/`, or the last byte when there is none.
pub open spec fn comment_end(b: Seq<u8>, j: int) -> int
    decreases b.len() - j,
{
    if 0 <= j && j + 1 < b.len() && !(b[j] == 42 && b[j + 1] == 47) {
        comment_end(b, j + 1)
    } else {
        j
    }
}

/// Where the closing quote of a string whose body starts at `j` is; a
/// backslash takes the byte after it along. The end when there is none.
pub open spec fn string_end(b: Seq<u8>, j: int) -> int
    decreases b.len() - j,
{
    if 0 <= j < b.len() && b[j] != 34 {
        if b[j] == 92 {
            if j + 2 <= b.len() {
                string_end(b, j + 2)
            } else {
                b.len() as int
            }
        } else {
            string_end(b, j + 1)
        }
    } else {
        j
    }
}

/// The end of the run from `j` of digits and points (`numeral`), or of
/// letters, digits and underscores.
pub open spec fn run_end(b: Seq<u8>, j: int, numeral: bool) -> int
    decreases b.len() - j,
{
    if 0 <= j < b.len() && (if numeral {
        digit_byte(b[j]) || b[j] == 46
    } else {
        word_byte(b[j])
    }) {
        run_end(b, j + 1, numeral)
    } else {
        j
    }
}

/// The number of `.` in `t`.
pub open spec fn dots(t: Seq<u8>) -> nat
    decreases t.len(),
{
    if t.len() == 0 {
        0
    } else {
        dots(t.drop_last()) + if t.last() == 46 {
            1nat
        } else {
            0nat
        }
    }
}

/// `t`, without a leading minus sign, has a digit and at most one point:
/// the numerals made of an optional `-`, digits and points that `f64`
/// parsing accepts.
pub open spec fn numeral_ok(t: Seq<u8>) -> bool {
    has_digit(unsigned(t)) && dots(unsigned(t)) <= 1
}

/// `t` without a leading minus sign.
pub open spec fn unsigned(t: Seq<u8>) -> Seq<u8> {
    if t.len() > 0 && t[0] == 45 {
        t.drop_first()
    } else {
        t
    }
}

pub open spec fn has_digit(t: Seq<u8>) -> bool {
    exists|k: int| 0 <= k < t.len() && digit_byte(#[trigger] t[k])
}

pub open spec fn unexpected_message(x: u8) -> Seq<char> {
    "unexpected character `"@ + seq![x as char] + "`"@
}

/// `t` in front of what `r` lexes to.
pub open spec fn cons(t: Lexeme, r: Result<Seq<Lexeme>, (int, Seq<char>)>) -> Result<
    Seq<Lexeme>,
    (int, Seq<char>),
> {
    match r {
        Ok(ts) => Ok(seq![t] + ts),
        Err(e) => Err(e),
    }
}

/// The tokens of `b` from byte `i` on, or where and why lexing stops.
pub open spec fn lex_from(b: Seq<u8>, i: int) -> Result<Seq<Lexeme>, (int, Seq<char>)>
    decreases b.len() - i,
{
    if i < 0 || i >= b.len() {
        Ok(Seq::empty())
    } else {
        let x = b[i];
        if ws_byte(x) {
            lex_from(b, i + 1)
        } else if x == 47 && i + 1 < b.len() && b[i + 1] == 47 {
            proof {
                lemma_line_end(b, i + 1);
            }
            lex_from(b, line_end(b, i))
        } else if x == 47 && i + 1 < b.len() && b[i + 1] == 42 {
            let e = comment_end(b, i + 2);
            proof {
                lemma_comment_end(b, i + 2);
            }
            if e + 1 >= b.len() {
                Err((i, "unterminated block comment"@))
            } else {
                lex_from(b, e + 2)
            }
        } else if punct_of(x) is Some {
            cons(punct_of(x)->0, lex_from(b, i + 1))
        } else if x == 34 {
            let e = string_end(b, i + 1);
            proof {
                lemma_string_end(b, i + 1);
            }
            if e >= b.len() {
                Err((i + 1, "unterminated string"@))
            } else {
                cons(Lexeme::String(b.subrange(i + 1, e)), lex_from(b, e + 1))
            }
        } else if digit_byte(x) || x == 45 {
            let e = run_end(b, i + 1, true);
            let t = b.subrange(i, e);
            proof {
                lemma_run_end(b, i + 1, true);
            }
            if !numeral_ok(t) {
                Err((i, "invalid number"@))
            } else if e < b.len() && b[e] == 37 {
                cons(Lexeme::Percent(t), lex_from(b, e + 1))
            } else {
                cons(Lexeme::Number(t), lex_from(b, e))
            }
        } else if alpha_byte(x) || x == 95 {
            let e = run_end(b, i + 1, false);
            proof {
                lemma_run_end(b, i + 1, false);
            }
            cons(Lexeme::Ident(b.subrange(i, e)), lex_from(b, e))
        } else {
            Err((i, unexpected_message(x)))
        }
    }
}

pub proof fn lemma_line_end(b: Seq<u8>, j: int)
    requires
        0 <= j <= b.len(),
    ensures
        j <= line_end(b, j) <= b.len(),
        line_end(b, j) == b.len() || b[line_end(b, j)] == 10,
        forall|k: int| j <= k < line_end(b, j) ==> b[k] != 10,
    decreases b.len() - j,
{
    if j < b.len() && b[j] != 10 {
        lemma_line_end(b, j + 1);
    }
}

pub proof fn lemma_comment_end(b: Seq<u8>, j: int)
    requires
        0 <= j <= b.len(),
    ensures
        j <= comment_end(b, j) <= b.len(),
        comment_end(b, j) + 1 >= b.len() || (b[comment_end(b, j)] == 42 && b[comment_end(b, j) + 1] == 47),
    decreases b.len() - j,
{
    if j + 1 < b.len() && !(b[j] == 42 && b[j + 1] == 47) {
        lemma_comment_end(b, j + 1);
    }
}

pub proof fn lemma_string_end(b: Seq<u8>, j: int)
    requires
        0 <= j <= b.len(),
    ensures
        j <= string_end(b, j) <= b.len(),
        string_end(b, j) < b.len() ==> b[string_end(b, j)] == 34,
    decreases b.len() - j,
{
    if j < b.len() && b[j] != 34 {
        if b[j] == 92 {
            if j + 2 <= b.len() {
                lemma_string_end(b, j + 2);
            }
        } else {
            lemma_string_end(b, j + 1);
        }
    }
}

pub proof fn lemma_run_end(b: Seq<u8>, j: int, numeral: bool)
    requires
        0 <= j <= b.len(),
    ensures
        j <= run_end(b, j, numeral) <= b.len(),
        forall|k: int|
            j <= k < run_end(b, j, numeral) ==> if numeral {
                digit_byte(#[trigger] b[k]) || b[k] == 46
            } else {
                word_byte(b[k])
            },
    decreases b.len() - j,
{
    if j < b.len() && (if numeral {
        digit_byte(b[j]) || b[j] == 46
    } else {
        word_byte(b[j])
    }) {
        lemma_run_end(b, j + 1, numeral);
    }
}


/// What the tokens `done` followed by the outcome `r` lex to.
pub open spec fn joined(done: Seq<Lexeme>, r: Result<Seq<Lexeme>, (int, Seq<char>)>) -> Result<
    Seq<Lexeme>,
    (int, Seq<char>),
> {
    match r {
        Ok(ts) => Ok(done + ts),
        Err(e) => Err(e),
    }
}

pub open spec fn lexemes(ts: Seq<Token>) -> Seq<Lexeme> {
    ts.map_values(|t: Token| t@)
}

proof fn lemma_joined_cons(done: Seq<Lexeme>, t: Lexeme, r: Result<Seq<Lexeme>, (int, Seq<char>)>)
    ensures
        joined(done, cons(t, r)) == joined(done.push(t), r),
{
    if let Ok(ts) = r {
        assert(done + (seq![t] + ts) =~= done.push(t) + ts);
    }
}

/// `char::to_string`: the text of one character.
#[verifier::external_body]
fn char_text(c: char) -> (r: String)
    ensures
        r@ == seq![c],
{
    c.to_string()
}

fn skip_line(b: &[u8], j: usize) -> (e: usize)
    requires
        j <= b@.len(),
    ensures
        e == line_end(b@, j as int),
{
    let mut k = j;
    while k < b.len() && b[k] != 10
        invariant
            j <= k <= b@.len(),
            line_end(b@, j as int) == line_end(b@, k as int),
        decreases b@.len() - k,
    {
        k = k + 1;
    }
    k
}

fn skip_comment(b: &[u8], j: usize) -> (e: usize)
    requires
        j <= b@.len(),
    ensures
        e == comment_end(b@, j as int),
{
    let mut k = j;
    while k < b.len() && k + 1 < b.len() && !(b[k] == 42 && b[k + 1] == 47)
        invariant
            j <= k <= b@.len(),
            comment_end(b@, j as int) == comment_end(b@, k as int),
        decreases b@.len() - k,
    {
        k = k + 1;
    }
    k
}

fn skip_string(b: &[u8], j: usize) -> (e: usize)
    requires
        j <= b@.len(),
    ensures
        e == string_end(b@, j as int),
{
    let mut k = j;
    while k < b.len() && b[k] != 34
        invariant
            j <= k <= b@.len(),
            string_end(b@, j as int) == string_end(b@, k as int),
        decreases b@.len() - k,
    {
        if b[k] == 92 {
            if k + 1 < b.len() {
                k = k + 2;
            } else {
                return b.len();
            }
        } else {
            k = k + 1;
        }
    }
    k
}

/// Whether `x` continues a numeral (`numeral`) or a name.
fn run_byte(x: u8, numeral: bool) -> (r: bool)
    ensures
        r == if numeral {
            digit_byte(x) || x == 46
        } else {
            word_byte(x)
        },
{
    if numeral {
        (48 <= x && x <= 57) || x == 46
    } else {
        (48 <= x && x <= 57) || (65 <= x && x <= 90) || (97 <= x && x <= 122) || x == 95
    }
}

fn skip_run(b: &[u8], j: usize, numeral: bool) -> (e: usize)
    requires
        j <= b@.len(),
    ensures
        e == run_end(b@, j as int, numeral),
{
    let mut k = j;
    while k < b.len() && run_byte(b[k], numeral)
        invariant
            j <= k <= b@.len(),
            run_end(b@, j as int, numeral) == run_end(b@, k as int, numeral),
        decreases b@.len() - k,
    {
        k = k + 1;
    }
    k
}

/// Whether `b[start..end)` is a numeral that `f64` parsing accepts.
fn numeral_valid(b: &[u8], start: usize, end: usize) -> (r: bool)
    requires
        start < end <= b@.len(),
    ensures
        r == numeral_ok(b@.subrange(start as int, end as int)),
{
    let ghost t = b@.subrange(start as int, end as int);
    let from = if b[start] == 45 {
        start + 1
    } else {
        start
    };
    let ghost body = b@.subrange(from as int, end as int);
    proof {
        assert(b@.subrange(from as int, from as int) =~= Seq::<u8>::empty());
    }
    let mut digit = false;
    let mut points: usize = 0;
    let mut k = from;
    while k < end
        invariant
            start <= from <= k <= end <= b@.len(),
            body == b@.subrange(from as int, end as int),
            t == b@.subrange(start as int, end as int),
            from == if b@[start as int] == 45 {
                start + 1
            } else {
                start as int
            },
            digit == exists|m: int| from <= m < k && digit_byte(#[trigger] b@[m]),
            points == dots(b@.subrange(from as int, k as int)),
            points <= k - from,
        decreases end - k,
    {
        proof {
            assert(b@.subrange(from as int, k + 1).drop_last() =~= b@.subrange(from as int, k as int));
        }
        if b[k] == 46 {
            points = points + 1;
        }
        if 48 <= b[k] && b[k] <= 57 {
            digit = true;
        }
        k = k + 1;
    }
    proof {
        assert(t[0] == b@[start as int]);
        assert(unsigned(t) =~= body);
        if digit {
            let m = choose|m: int| from <= m < end && digit_byte(#[trigger] b@[m]);
            assert(body[m - from] == b@[m]);
            assert(digit_byte(body[m - from]));
        }
        if exists|m: int| 0 <= m < body.len() && digit_byte(#[trigger] body[m]) {
            let m = choose|m: int| 0 <= m < body.len() && digit_byte(#[trigger] body[m]);
            assert(b@[from + m] == body[m]);
            assert(digit_byte(b@[from + m]));
        }
    }
    digit && points <= 1
}

/// Split a source into tokens, skipping white space and comments.
pub fn lex(source: &str) -> (r: Result<Vec<Token>, ParseError>)
    ensures
        match lex_from(source.spec_bytes(), 0) {
            Ok(ts) => (r matches Ok(v) && lexemes(v@) == ts),
            Err((at, m)) => (r matches Err(ParseError::Lex(p, s)) && p == at && s@ == m),
        },
{
    let b = source.as_bytes();
    let ghost bs = source.spec_bytes();
    let n = b.len();
    let mut out: Vec<Token> = Vec::new();
    let mut i: usize = 0;
    proof {
        assert(lexemes(out@) =~= Seq::<Lexeme>::empty());
        assert(joined(Seq::<Lexeme>::empty(), lex_from(bs, 0)) == lex_from(bs, 0)) by {
            if let Ok(ts) = lex_from(bs, 0) {
                assert(Seq::<Lexeme>::empty() + ts =~= ts);
            }
        }
        if n > 0 {
            lemma_scalar_at_start(bs);
        }
        reveal_strlit("unterminated block comment");
        reveal_strlit("unterminated string");
        reveal_strlit("invalid number");
        reveal_strlit("unexpected character `");
        reveal_strlit("`");
    }
    while i < n
        invariant
            b@ == bs,
            bs == source.spec_bytes(),
            n == bs.len(),
            i <= n,
            at_boundary(bs, i as int),
            lex_from(bs, 0) == joined(lexemes(out@), lex_from(bs, i as int)),
        decreases n - i,
    {
        let x = b[i];
        let ghost done = lexemes(out@);
        if (9 <= x && x <= 13) || x == 32 || x == 0x85 || x == 0xa0 {
            proof {
                lemma_ascii_step(bs, i as int);
            }
            i = i + 1;
        } else if x == 47 && i + 1 < n && b[i + 1] == 47 {
            let e = skip_line(b, i);
            proof {
                lemma_line_end(bs, i + 1);
                assert(line_end(bs, i as int) == line_end(bs, i + 1));
            }
            i = e;
        } else if x == 47 && i + 1 < n && b[i + 1] == 42 {
            let e = skip_comment(b, i + 2);
            proof {
                lemma_comment_end(bs, i + 2);
            }
            if n - e <= 1 {
                return Err(ParseError::Lex(i, "unterminated block comment".to_owned()));
            }
            proof {
                lemma_ascii_step(bs, e + 1);
            }
            i = e + 2;
        } else if x == 34 {
            let e = skip_string(b, i + 1);
            proof {
                lemma_string_end(bs, i + 1);
                lemma_ascii_step(bs, i as int);
            }
            if e >= n {
                return Err(ParseError::Lex(i + 1, "unterminated string".to_owned()));
            }
            let text = slice_string(source, i + 1, e);
            let ghost t = Token::String(text);
            proof {
                lemma_ascii_step(bs, e as int);
                lemma_joined_cons(done, t@, lex_from(bs, e + 1));
            }
            out.push(Token::String(text));
            proof {
                assert(lexemes(out@) =~= done.push(t@));
            }
            i = e + 1;
        } else if (48 <= x && x <= 57) || x == 45 {
            let e = skip_run(b, i + 1, true);
            proof {
                lemma_run_end(bs, i + 1, true);
            }
            if !numeral_valid(b, i, e) {
                return Err(ParseError::Lex(i, "invalid number".to_owned()));
            }
            proof {
                lemma_ascii_step(bs, e - 1);
            }
            let text = slice_string(source, i, e);
            if e < n && b[e] == 37 {
                let ghost t = Token::Percent(text);
                proof {
                    lemma_ascii_step(bs, e as int);
                    lemma_joined_cons(done, t@, lex_from(bs, e + 1));
                }
                out.push(Token::Percent(text));
                proof {
                    assert(lexemes(out@) =~= done.push(t@));
                }
                i = e + 1;
            } else {
                let ghost t = Token::Number(text);
                proof {
                    lemma_joined_cons(done, t@, lex_from(bs, e as int));
                }
                out.push(Token::Number(text));
                proof {
                    assert(lexemes(out@) =~= done.push(t@));
                }
                i = e;
            }
        } else if (65 <= x && x <= 90) || (97 <= x && x <= 122) || x == 95 {
            let e = skip_run(b, i + 1, false);
            proof {
                lemma_run_end(bs, i + 1, false);
                lemma_ascii_step(bs, e - 1);
            }
            let text = slice_string(source, i, e);
            let ghost t = Token::Ident(text);
            proof {
                lemma_joined_cons(done, t@, lex_from(bs, e as int));
            }
            out.push(Token::Ident(text));
            proof {
                assert(lexemes(out@) =~= done.push(t@));
            }
            i = e;
        } else {
            let p = punct(x);
            match p {
                Some(t) => {
                    proof {
                        lemma_ascii_step(bs, i as int);
                        lemma_joined_cons(done, t@, lex_from(bs, i + 1));
                    }
                    out.push(t);
                    proof {
                        assert(lexemes(out@) =~= done.push(t@));
                    }
                    i = i + 1;
                },
                None => {
                    let mut m = "unexpected character `".to_owned();
                    m.append(char_text(x as char).as_str());
                    m.append("`");
                    return Err(ParseError::Lex(i, m));
                },
            }
        }
    }
    proof {
        assert(lexemes(out@) + Seq::<Lexeme>::empty() =~= lexemes(out@));
    }
    Ok(out)
}

fn punct(x: u8) -> (r: Option<Token>)
    ensures
        match punct_of(x) {
            Some(l) => (r matches Some(t) && t@ == l),
            None => r is None,
        },
{
    if x == 123 {
        Some(Token::LBrace)
    } else if x == 125 {
        Some(Token::RBrace)
    } else if x == 91 {
        Some(Token::LBracket)
    } else if x == 93 {
        Some(Token::RBracket)
    } else if x == 60 {
        Some(Token::Lt)
    } else if x == 62 {
        Some(Token::Gt)
    } else if x == 44 {
        Some(Token::Comma)
    } else if x == 59 {
        Some(Token::Semi)
    } else if x == 61 {
        Some(Token::Eq)
    } else if x == 46 {
        Some(Token::Dot)
    } else {
        None
    }
}


// ---------------------------------------------------------------------------
// Implicit intermediates.
// ---------------------------------------------------------------------------

/// The resources that bindings produce, in order.
pub open spec fn binding_outputs(bs: Seq<ResourceBinding>) -> Seq<Seq<char>>
    decreases bs.len(),
{
    if bs.len() == 0 {
        Seq::empty()
    } else {
        let p = binding_outputs(bs.drop_last());
        if bs.last().role == BindingRole::Output {
            p.push(bs.last().resource@)
        } else {
            p
        }
    }
}

/// The resources that operations produce, in order.
pub open spec fn output_symbols(ops: Seq<Operation>) -> Seq<Seq<char>>
    decreases ops.len(),
{
    if ops.len() == 0 {
        Seq::empty()
    } else {
        output_symbols(ops.drop_last()) + binding_outputs(ops.last().bindings@)
    }
}

/// The produced resources that no declaration names, each once, in the
/// order they are first produced.
pub open spec fn fresh_outputs(declared: Seq<Resource>, outs: Seq<Seq<char>>) -> Seq<Seq<char>>
    decreases outs.len(),
{
    if outs.len() == 0 {
        Seq::empty()
    } else {
        let prev = fresh_outputs(declared, outs.drop_last());
        let s = outs.last();
        if declares_resource(declared, s) || prev.contains(s) {
            prev
        } else {
            prev.push(s)
        }
    }
}

pub open spec fn texts(v: Seq<String>) -> Seq<Seq<char>> {
    v.map_values(|x: String| x@)
}

pub(crate) fn contains_text(v: &Vec<String>, s: &str) -> (r: bool)
    ensures
        r == texts(v@).contains(s@),
{
    let mut k: usize = 0;
    while k < v.len()
        invariant
            k <= v@.len(),
            forall|m: int| 0 <= m < k ==> (#[trigger] v@[m])@ != s@,
        decreases v@.len() - k,
    {
        if str_eq(v[k].as_str(), s) {
            proof {
                assert(texts(v@)[k as int] == s@);
            }
            return true;
        }
        k = k + 1;
    }
    proof {
        if texts(v@).contains(s@) {
            let m = choose|m: int| 0 <= m < texts(v@).len() && texts(v@)[m] == s@;
            assert(v@[m]@ == s@);
        }
    }
    false
}

/// Everything of the two recipes but their resources is the same.
pub open spec fn same_but_resources(a: Recipe, b: Recipe) -> bool {
    &&& a.id == b.id
    &&& a.book_id == b.book_id
    &&& a.symbol == b.symbol
    &&& a.title == b.title
    &&& a.protocol_version == b.protocol_version
    &&& a.types == b.types
    &&& a.processes == b.processes
    &&& a.operations == b.operations
    &&& a.servings == b.servings
    &&& a.formulas == b.formulas
    &&& a.section == b.section
    &&& a.notes == b.notes
}

/// `after` is `before` with an intermediate resource added for each
/// produced resource that no declaration names, once each, in the order
/// they are first produced.
pub open spec fn registered(after: Recipe, before: Recipe) -> bool {
    let fresh = fresh_outputs(before.resources@, output_symbols(before.operations@));
    let n = before.resources@.len();
    &&& after.resources@.len() == n + fresh.len()
    &&& after.resources@.take(n as int) == before.resources@
    &&& forall|k: int|
        0 <= k < fresh.len() ==> {
            &&& (#[trigger] after.resources@[n + k]).symbol@ == fresh[k]
            &&& after.resources@[n + k].kind == ResourceKind::Intermediate
            &&& after.resources@[n + k].allergen is None
        }
    &&& same_but_resources(after, before)
}

/// Once intermediates are registered, every resource an operation produces
/// is declared, so registering again adds nothing; and no intermediate is
/// added twice.
pub proof fn lemma_registered_outputs_declared(after: Recipe, before: Recipe)
    requires
        registered(after, before),
    ensures
        forall|k: int|
            0 <= k < output_symbols(after.operations@).len() ==> declares_resource(
                after.resources@,
                #[trigger] output_symbols(after.operations@)[k],
            ),
        fresh_outputs(after.resources@, output_symbols(after.operations@)).len() == 0,
        forall|a: int, b: int|
            #![trigger fresh_outputs(before.resources@, output_symbols(before.operations@))[a], fresh_outputs(before.resources@, output_symbols(before.operations@))[b]]
            0 <= a < b < fresh_outputs(before.resources@, output_symbols(before.operations@)).len()
                ==> fresh_outputs(before.resources@, output_symbols(before.operations@))[a]
                != fresh_outputs(before.resources@, output_symbols(before.operations@))[b],
{
    let outs = output_symbols(before.operations@);
    let fresh = fresh_outputs(before.resources@, outs);
    let n = before.resources@.len();
    lemma_fresh_covers(before.resources@, outs);
    lemma_fresh_distinct(before.resources@, outs);
    assert(after.operations == before.operations);
    assert forall|k: int| 0 <= k < outs.len() implies declares_resource(after.resources@, #[trigger] outs[k]) by {
        if declares_resource(before.resources@, outs[k]) {
            let r = choose|r: int| 0 <= r < before.resources@.len() && (#[trigger] before.resources@[r]).symbol@ == outs[k];
            assert(after.resources@.take(n as int)[r] == after.resources@[r]);
            assert(after.resources@[r] == before.resources@[r]);
        } else {
            let m = choose|m: int| 0 <= m < fresh.len() && fresh[m] == outs[k];
            assert(after.resources@[n + m].symbol@ == fresh[m]);
        }
    }
    lemma_fresh_empty(after.resources@, outs);
}

/// Every produced resource is declared or among the fresh ones.
proof fn lemma_fresh_covers(declared: Seq<Resource>, outs: Seq<Seq<char>>)
    ensures
        forall|k: int|
            0 <= k < outs.len() ==> declares_resource(declared, #[trigger] outs[k]) || fresh_outputs(
                declared,
                outs,
            ).contains(outs[k]),
    decreases outs.len(),
{
    if outs.len() > 0 {
        let init = outs.drop_last();
        lemma_fresh_covers(declared, init);
        let prev = fresh_outputs(declared, init);
        let f = fresh_outputs(declared, outs);
        assert forall|k: int|
            0 <= k < outs.len() implies declares_resource(declared, #[trigger] outs[k]) || f.contains(outs[k]) by {
            if k < outs.len() - 1 {
                assert(outs[k] == init[k]);
                if prev.contains(init[k]) {
                    let m = choose|m: int| 0 <= m < prev.len() && prev[m] == init[k];
                    if !(declares_resource(declared, outs.last()) || prev.contains(outs.last())) {
                        assert(f[m] == prev[m]);
                    }
                }
            } else {
                if !declares_resource(declared, outs.last()) && !prev.contains(outs.last()) {
                    assert(f[f.len() - 1] == outs.last());
                }
            }
        }
    }
}

/// The fresh resources are distinct.
proof fn lemma_fresh_distinct(declared: Seq<Resource>, outs: Seq<Seq<char>>)
    ensures
        forall|a: int, b: int|
            #![trigger fresh_outputs(declared, outs)[a], fresh_outputs(declared, outs)[b]]
            0 <= a < b < fresh_outputs(declared, outs).len() ==> fresh_outputs(declared, outs)[a]
                != fresh_outputs(declared, outs)[b],
    decreases outs.len(),
{
    if outs.len() > 0 {
        let init = outs.drop_last();
        lemma_fresh_distinct(declared, init);
        let prev = fresh_outputs(declared, init);
        let f = fresh_outputs(declared, outs);
        if !(declares_resource(declared, outs.last()) || prev.contains(outs.last())) {
            assert forall|a: int, b: int|
                #![trigger f[a], f[b]]
                0 <= a < b < f.len() implies f[a] != f[b] by {
                if b == f.len() - 1 {
                    assert(f[a] == prev[a]);
                    if f[a] == f[b] {
                        assert(prev.contains(outs.last()));
                    }
                } else {
                    assert(f[a] == prev[a] && f[b] == prev[b]);
                }
            }
        }
    }
}

/// With every produced resource declared, none is fresh.
proof fn lemma_fresh_empty(declared: Seq<Resource>, outs: Seq<Seq<char>>)
    requires
        forall|k: int| 0 <= k < outs.len() ==> declares_resource(declared, #[trigger] outs[k]),
    ensures
        fresh_outputs(declared, outs).len() == 0,
    decreases outs.len(),
{
    if outs.len() > 0 {
        let init = outs.drop_last();
        assert forall|k: int| 0 <= k < init.len() implies declares_resource(declared, #[trigger] init[k]) by {
            assert(init[k] == outs[k]);
        }
        lemma_fresh_empty(declared, init);
        assert(declares_resource(declared, outs[outs.len() - 1]));
    }
}

/// Give every produced resource that no declaration names an implicit
/// intermediate resource, so that steps can hand partial products to each
/// other without a declaration for each. The new resources follow the
/// declared ones, once each, in the order they are first produced.
pub fn register_intermediates(recipe: &mut Recipe)
    ensures
        registered(*final(recipe), *old(recipe)),
{
    let ghost orig = *recipe;
    let ghost declared = recipe.resources@;
    let ghost ops = recipe.operations@;
    let mut added: Vec<String> = Vec::new();
    let mut o: usize = 0;
    proof {
        assert(ops.take(0) =~= Seq::<Operation>::empty());
        assert(texts(added@) =~= Seq::<Seq<char>>::empty());
    }
    while o < recipe.operations.len()
        invariant
            same_but_resources(*recipe, orig),
            recipe.resources@ == declared,
            recipe.operations@ == ops,
            o <= ops.len(),
            texts(added@) == fresh_outputs(declared, output_symbols(ops.take(o as int))),
        decreases ops.len() - o,
    {
        let op = &recipe.operations[o];
        let ghost bs = op.bindings@;
        let ghost before = output_symbols(ops.take(o as int));
        let mut k: usize = 0;
        proof {
            assert(bs.take(0) =~= Seq::<ResourceBinding>::empty());
            assert(before + binding_outputs(bs.take(0)) =~= before);
        }
        while k < op.bindings.len()
            invariant
                same_but_resources(*recipe, orig),
                recipe.resources@ == declared,
                recipe.operations@ == ops,
                o < ops.len(),
                op == ops[o as int],
                bs == op.bindings@,
                k <= bs.len(),
                texts(added@) == fresh_outputs(declared, before + binding_outputs(bs.take(k as int))),
            decreases bs.len() - k,
        {
            let binding = &op.bindings[k];
            let ghost outs = before + binding_outputs(bs.take(k as int));
            proof {
                assert(bs.take(k + 1).drop_last() =~= bs.take(k as int));
                assert(bs.take(k + 1).last() == binding);
            }
            if binding.role == BindingRole::Output {
                let symbol = binding.resource.as_str();
                proof {
                    assert(before + binding_outputs(bs.take(k + 1)) =~= outs.push(symbol@));
                    assert(outs.push(symbol@).drop_last() =~= outs);
                }
                if !is_declared_resource(&recipe.resources, symbol) && !contains_text(&added, symbol) {
                    let ghost prev = texts(added@);
                    added.push(binding.resource.clone());
                    proof {
                        assert(texts(added@) =~= prev.push(symbol@));
                    }
                }
            } else {
                proof {
                    assert(before + binding_outputs(bs.take(k + 1)) =~= outs);
                }
            }
            k = k + 1;
        }
        proof {
            assert(bs.take(bs.len() as int) =~= bs);
            assert(ops.take(o + 1).drop_last() =~= ops.take(o as int));
            assert(ops.take(o + 1).last() == ops[o as int]);
        }
        o = o + 1;
    }
    proof {
        assert(ops.take(ops.len() as int) =~= ops);
    }
    let ghost fresh = texts(added@);
    let n = recipe.resources.len();
    let mut k: usize = 0;
    while k < added.len()
        invariant
            same_but_resources(*recipe, orig),
            k <= added@.len(),
            n == declared.len(),
            fresh == texts(added@),
            recipe.operations@ == ops,
            recipe.resources@.len() == n + k,
            recipe.resources@.take(n as int) == declared,
            forall|m: int|
                0 <= m < k ==> {
                    &&& (#[trigger] recipe.resources@[n + m]).symbol@ == fresh[m]
                    &&& recipe.resources@[n + m].kind == ResourceKind::Intermediate
                    &&& recipe.resources@[n + m].allergen is None
                },
        decreases added@.len() - k,
    {
        let ghost prior = recipe.resources@;
        recipe.resources.push(Resource {
            symbol: added[k].clone(),
            kind: ResourceKind::Intermediate,
            allergen: None,
        });
        proof {
            assert(recipe.resources@.take(n as int) =~= prior.take(n as int));
            assert forall|m: int| 0 <= m < k + 1 implies {
                &&& (#[trigger] recipe.resources@[n + m]).symbol@ == fresh[m]
                &&& recipe.resources@[n + m].kind == ResourceKind::Intermediate
                &&& recipe.resources@[n + m].allergen is None
            } by {
                if m < k {
                    assert(recipe.resources@[n + m] == prior[n + m]);
                }
            }
        }
        k = k + 1;
    }
}

} // verus!
