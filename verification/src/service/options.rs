//! The service's command line.

use vstd::prelude::*;
use vstd::string::StrSliceExecFns;
use crate::syntax::text::str_eq;

verus! {

/// What the command line asks for.
#[derive(Debug, Clone)]
pub struct Options {
    pub database: String,
    pub port: u16,
    pub token: Option<String>,
    pub origins: Vec<String>,
    pub allow_missing_origin: bool,
}

pub struct OptionsView {
    pub database: Seq<char>,
    pub port: u16,
    pub token: Option<Seq<char>>,
    pub origins: Seq<Seq<char>>,
    pub allow_missing_origin: bool,
}

impl Options {
    pub open spec fn view_of(&self) -> OptionsView {
        OptionsView {
            database: self.database@,
            port: self.port,
            token: match self.token {
                Some(t) => Some(t@),
                None => None,
            },
            origins: self.origins@.map_values(|s: String| s@),
            allow_missing_origin: self.allow_missing_origin,
        }
    }
}

pub open spec fn is_digit(c: char) -> bool {
    '0' <= c <= '9'
}

pub open spec fn digits_value(s: Seq<char>) -> int
    decreases s.len(),
{
    if s.len() == 0 {
        0
    } else {
        digits_value(s.drop_last()) * 10 + (s.last() as int - '0' as int)
    }
}

/// The `u16` that `str::parse` reads from `s`: an optional `+`, then one or
/// more ASCII digits whose value fits.
/// `s` without its leading `+`, if it has one.
pub open spec fn unsigned_digits(s: Seq<char>) -> Seq<char> {
    if s.len() > 0 && s[0] == '+' {
        s.drop_first()
    } else {
        s
    }
}

pub open spec fn all_digits(d: Seq<char>) -> bool {
    forall|i: int| 0 <= i < d.len() ==> is_digit(#[trigger] d[i])
}

/// The `u16` that `str::parse` reads from `s`: an optional `+`, then one or
/// more ASCII digits whose value fits.
pub open spec fn parse_u16(s: Seq<char>) -> Option<u16> {
    let d = unsigned_digits(s);
    if d.len() > 0 && all_digits(d) && digits_value(d) <= 65535 {
        Some(digits_value(d) as u16)
    } else {
        None
    }
}

proof fn lemma_parse_none(s: Seq<char>, d: Seq<char>)
    requires
        d == unsigned_digits(s),
        !all_digits(d) || digits_value(d) > 65535,
    ensures
        parse_u16(s) is None,
{
}

proof fn lemma_digits_grow(s: Seq<char>, k: int)
    requires
        0 <= k <= s.len(),
        forall|i: int| 0 <= i < s.len() ==> is_digit(#[trigger] s[i]),
    ensures
        0 <= digits_value(s.take(k)) <= digits_value(s),
    decreases s.len() - k,
{
    if k < s.len() {
        lemma_digits_grow(s, k + 1);
        assert(s.take(k + 1).drop_last() =~= s.take(k));
        assert(s.take(k + 1).last() == s[k]);
        lemma_digits_nonneg(s.take(k));
    } else {
        assert(s.take(k) =~= s);
        lemma_digits_nonneg(s);
    }
}

proof fn lemma_digits_nonneg(s: Seq<char>)
    requires
        forall|i: int| 0 <= i < s.len() ==> is_digit(#[trigger] s[i]),
    ensures
        digits_value(s) >= 0,
    decreases s.len(),
{
    if s.len() > 0 {
        assert(is_digit(s[s.len() - 1]));
        lemma_digits_nonneg(s.drop_last());
    }
}

pub fn parse_port(s: &str) -> (r: Option<u16>)
    ensures
        r == parse_u16(s@),
{
    let n = s.unicode_len();
    let mut i: usize = 0;
    if n > 0 && s.get_char(0) == '+' {
        i = 1;
    }
    let ghost d = unsigned_digits(s@);
    let start = i;
    proof {
        if start == 1 {
            assert(s@.drop_first() =~= s@.subrange(1, n as int));
        } else {
            assert(s@ =~= s@.subrange(0, n as int));
        }
    }
    if start == n {
        return None;
    }
    let mut value: u32 = 0;
    while i < n
        invariant
            n == s@.len(),
            start <= i <= n,
            start < n,
            d == s@.subrange(start as int, n as int),
            d == unsigned_digits(s@),
            forall|k: int| start <= k < i ==> is_digit(#[trigger] s@[k]),
            value == digits_value(s@.subrange(start as int, i as int)),
            value <= u16::MAX,
        decreases n - i,
    {
        let c = s.get_char(i);
        if !('0' <= c && c <= '9') {
            proof {
                assert(d[i - start] == c);
                assert(!is_digit(d[i - start]));
                assert(!all_digits(d));
                lemma_parse_none(s@, d);
            }
            return None;
        }
        let ghost before = s@.subrange(start as int, i as int);
        proof {
            assert(s@.subrange(start as int, i + 1).drop_last() =~= before);
        }
        let next = value * 10 + (c as u32 - '0' as u32);
        if next > 65535 {
            proof {
                if all_digits(d) {
                    assert(d.take(i + 1 - start) =~= s@.subrange(start as int, i + 1));
                    lemma_digits_grow(d, i + 1 - start);
                    assert(digits_value(d) > 65535);
                }
                lemma_parse_none(s@, d);
            }
            return None;
        }
        value = next;
        i = i + 1;
    }
    proof {
        assert(s@.subrange(start as int, n as int) =~= d);
    }
    Some(value as u16)
}

pub open spec fn usage() -> Seq<char> {
    "usage: culinator-service [--db PATH] [--port PORT] [--token TOKEN] [--origin ORIGIN] [--allow-missing-origin]"@
}

/// Reading `args` from position `i` on, with `o` read so far.
pub open spec fn parse_from(args: Seq<Seq<char>>, i: int, o: OptionsView) -> Result<OptionsView, Seq<char>>
    decreases args.len() - i,
{
    if i < 0 || i >= args.len() {
        Ok(o)
    } else {
        let a = args[i];
        let has_value = i + 1 < args.len();
        if a == "--db"@ {
            if has_value {
                parse_from(args, i + 2, OptionsView { database: args[i + 1], ..o })
            } else {
                Err("--db requires a value"@)
            }
        } else if a == "--port"@ {
            if has_value {
                match parse_u16(args[i + 1]) {
                    Some(p) => parse_from(args, i + 2, OptionsView { port: p, ..o }),
                    None => Err("--port must be a valid u16"@),
                }
            } else {
                Err("--port requires a value"@)
            }
        } else if a == "--token"@ {
            if has_value {
                parse_from(args, i + 2, OptionsView { token: Some(args[i + 1]), ..o })
            } else {
                Err("--token requires a value"@)
            }
        } else if a == "--origin"@ {
            if has_value {
                parse_from(args, i + 2, OptionsView { origins: o.origins.push(args[i + 1]), ..o })
            } else {
                Err("--origin requires a value"@)
            }
        } else if a == "--allow-missing-origin"@ {
            parse_from(args, i + 1, OptionsView { allow_missing_origin: true, ..o })
        } else if a == "--help"@ || a == "-h"@ {
            Err(usage())
        } else {
            Err("unknown argument: "@ + a)
        }
    }
}

pub open spec fn defaults() -> OptionsView {
    OptionsView {
        database: "culinator-dev.sqlite3"@,
        port: 0,
        token: None,
        origins: Seq::empty(),
        allow_missing_origin: false,
    }
}

pub open spec fn views_of(args: Seq<String>) -> Seq<Seq<char>> {
    args.map_values(|s: String| s@)
}

impl Options {
    /// Read the command line (without the program name).
    pub fn parse(args: &Vec<String>) -> (r: Result<Options, String>)
        ensures
            match parse_from(views_of(args@), 0, defaults()) {
                Ok(v) => r matches Ok(o) && o.view_of() == v,
                Err(m) => r matches Err(e) && e@ == m,
            },
    {
        let ghost av = views_of(args@);
        let mut options = Options {
            database: "culinator-dev.sqlite3".to_owned(),
            port: 0,
            token: None,
            origins: Vec::new(),
            allow_missing_origin: false,
        };
        proof {
            assert(options.view_of().origins =~= Seq::<Seq<char>>::empty());
            assert(options.view_of() == defaults());
        }
        let mut i: usize = 0;
        while i < args.len()
            invariant
                av == views_of(args@),
                i <= args@.len(),
                parse_from(av, 0, defaults()) == parse_from(av, i as int, options.view_of()),
            decreases args@.len() - i,
        {
            let a = args[i].as_str();
            let has_value = i + 1 < args.len();
            proof {
                reveal_strlit(" requires a value");
                reveal_strlit("--db");
                reveal_strlit("--db requires a value");
                reveal_strlit("--port");
                reveal_strlit("--port requires a value");
                reveal_strlit("--token");
                reveal_strlit("--token requires a value");
                reveal_strlit("--origin");
                reveal_strlit("--origin requires a value");
                assert(av[i as int] == a@);
                if has_value {
                    assert(av[i + 1] == args@[i + 1]@);
                }
            }
            if str_eq(a, "--db") {
                options.database = match next_value(args, i, "--db") {
                    Ok(v) => v,
                    Err(e) => {
                        return Err(e);
                    },
                };
                i = i + 2;
            } else if str_eq(a, "--port") {
                let v = match next_value(args, i, "--port") {
                    Ok(v) => v,
                    Err(e) => {
                        return Err(e);
                    },
                };
                match parse_port(v.as_str()) {
                    Some(p) => {
                        options.port = p;
                    },
                    None => {
                        return Err("--port must be a valid u16".to_owned());
                    },
                }
                i = i + 2;
            } else if str_eq(a, "--token") {
                let v = match next_value(args, i, "--token") {
                    Ok(v) => v,
                    Err(e) => {
                        return Err(e);
                    },
                };
                options.token = Some(v);
                i = i + 2;
            } else if str_eq(a, "--origin") {
                let v = match next_value(args, i, "--origin") {
                    Ok(v) => v,
                    Err(e) => {
                        return Err(e);
                    },
                };
                let ghost before = options.view_of();
                options.origins.push(v);
                proof {
                    assert(options.view_of().origins =~= before.origins.push(av[i + 1]));
                }
                i = i + 2;
            } else if str_eq(a, "--allow-missing-origin") {
                options.allow_missing_origin = true;
                i = i + 1;
            } else if str_eq(a, "--help") || str_eq(a, "-h") {
                return Err(usage_text());
            } else {
                let mut m = "unknown argument: ".to_owned();
                m.append(a);
                return Err(m);
            }
        }
        Ok(options)
    }
}

/// The value that follows the flag at `i`, or the error that the flag
/// needs one.
fn next_value(args: &Vec<String>, i: usize, flag: &str) -> (r: Result<String, String>)
    requires
        i < args@.len(),
    ensures
        i + 1 < args@.len() ==> (r matches Ok(v) && v@ == args@[i + 1]@),
        i + 1 >= args@.len() ==> (r matches Err(e) && e@ == flag@ + " requires a value"@),
{
    if i < args.len() - 1 {
        Ok(args[i + 1].clone())
    } else {
        let mut e = flag.to_owned();
        e.append(" requires a value");
        Err(e)
    }
}

fn usage_text() -> (r: String)
    ensures
        r@ == usage(),
{
    "usage: culinator-service [--db PATH] [--port PORT] [--token TOKEN] [--origin ORIGIN] [--allow-missing-origin]".to_owned()
}

} // verus!
