//! Comparing an offered access token with the expected one.

use vstd::prelude::*;
use crate::application::services::{is_space, space_char};
use crate::syntax::text::str_eq;
use crate::syntax::utf8_facts::lemma_encode_injective;
use vstd::string::StrSliceExecFns;
use vstd::string::StringSliceAdditionalSpecFns;

verus! {

/// Whether two tokens are equal, looking at every byte whatever the first
/// difference, so that the time taken does not reveal where they differ.
pub fn constant_time_eq(left: &str, right: &str) -> (r: bool)
    ensures
        r == (left@ == right@),
{
    let a = left.as_bytes();
    let b = right.as_bytes();
    if a.len() != b.len() {
        return false;
    }
    let mut difference: u8 = 0;
    let mut i: usize = 0;
    while i < a.len()
        invariant
            a@.len() == b@.len(),
            i <= a@.len(),
            (difference == 0) == (forall|k: int| 0 <= k < i ==> a@[k] == b@[k]),
        decreases a@.len() - i,
    {
        let x = a[i];
        let y = b[i];
        let next = difference | (x ^ y);
        proof {
            assert((next == 0) == (difference == 0 && x == y)) by (bit_vector)
                requires
                    next == difference | (x ^ y),
            ;
        }
        difference = next;
        i = i + 1;
    }
    proof {
        if difference == 0 {
            assert(a@ =~= b@);
            lemma_encode_injective(left@, right@);
        }
    }
    difference == 0
}

// ---------------------------------------------------------------------------
// Opening the WebSocket.
// ---------------------------------------------------------------------------

/// The subprotocol a client must offer.
pub const PROTOCOL: &'static str = "culinator.v1";

/// The subprotocol that carries the launch token is this prefix followed by
/// the token.
pub const AUTH_PREFIX: &'static str = "culinator.auth.";

/// What becomes of a request to open the WebSocket.
#[derive(Debug, Clone, Copy, PartialEq, Eq, Structural)]
pub enum Handshake {
    /// Upgrade, answering with [`PROTOCOL`].
    Accept,
    /// Refused: the page's origin is not allowed.
    OriginRefused,
    /// Refused: no subprotocols were offered.
    MissingProtocols,
    /// Refused: the service's subprotocol or the launch token is missing.
    InvalidToken,
}

impl Handshake {
    /// The HTTP status of the answer.
    pub fn status(&self) -> (r: u16)
        ensures
            r == match *self {
                Handshake::Accept => 101u16,
                Handshake::OriginRefused => 403u16,
                _ => 401u16,
            },
    {
        match self {
            Handshake::Accept => 101,
            Handshake::OriginRefused => 403,
            _ => 401,
        }
    }

    /// The text of a refusal; empty for an upgrade.
    pub fn message(&self) -> (r: &'static str)
        ensures
            r@ == match *self {
                Handshake::Accept => ""@,
                Handshake::OriginRefused => "Origin is not allowed"@,
                Handshake::MissingProtocols => "Missing WebSocket protocol authentication"@,
                Handshake::InvalidToken => "Invalid launch token"@,
            },
    {
        match self {
            Handshake::Accept => "",
            Handshake::OriginRefused => "Origin is not allowed",
            Handshake::MissingProtocols => "Missing WebSocket protocol authentication",
            Handshake::InvalidToken => "Invalid launch token",
        }
    }
}

/// `s` without its leading white space.
pub open spec fn trim_start(s: Seq<char>) -> Seq<char>
    decreases s.len(),
{
    if s.len() > 0 && is_space(s[0]) {
        trim_start(s.drop_first())
    } else {
        s
    }
}

/// `s` without its trailing white space.
pub open spec fn trim_end(s: Seq<char>) -> Seq<char>
    decreases s.len(),
{
    if s.len() > 0 && is_space(s.last()) {
        trim_end(s.drop_last())
    } else {
        s
    }
}

/// `s` without white space at either end, as `str::trim` leaves it.
pub open spec fn trimmed(s: Seq<char>) -> Seq<char> {
    trim_end(trim_start(s))
}

/// The pieces of `s` between commas, as `str::split(',')` gives them.
pub open spec fn comma_pieces(s: Seq<char>) -> Seq<Seq<char>>
    decreases s.len(),
{
    if s.len() == 0 {
        seq![Seq::empty()]
    } else {
        let ps = comma_pieces(s.drop_last());
        if s.last() == ',' {
            ps.push(Seq::empty())
        } else {
            ps.update(ps.len() - 1, ps.last().push(s.last()))
        }
    }
}

/// The comma-separated list `protocols` offers `p`, white space around each
/// entry aside.
pub open spec fn offers(protocols: Seq<char>, p: Seq<char>) -> bool {
    exists|k: int| 0 <= k < comma_pieces(protocols).len() && trimmed(#[trigger] comma_pieces(protocols)[k]) == p
}

pub open spec fn opt_text(o: Option<&str>) -> Option<Seq<char>> {
    match o {
        Some(t) => Some(t@),
        None => None,
    }
}

/// The answer to a request to open the WebSocket: refused when the origin
/// is not allowed, when no subprotocols are offered, or when they do not
/// include both the service's own and the launch token's; accepted
/// otherwise.
pub open spec fn handshake_of(origin_allowed: bool, protocols: Option<Seq<char>>, token: Seq<char>) -> Handshake {
    if !origin_allowed {
        Handshake::OriginRefused
    } else {
        match protocols {
            None => Handshake::MissingProtocols,
            Some(p) => if offers(p, PROTOCOL@) && offers(p, AUTH_PREFIX@ + token) {
                Handshake::Accept
            } else {
                Handshake::InvalidToken
            },
        }
    }
}

proof fn lemma_pieces_nonempty(s: Seq<char>)
    ensures
        comma_pieces(s).len() >= 1,
    decreases s.len(),
{
    if s.len() > 0 {
        lemma_pieces_nonempty(s.drop_last());
    }
}

/// Where the text of `s[begin..end)` lies once trimmed.
fn trimmed_bounds(s: &str, begin: usize, end: usize) -> (r: (usize, usize))
    requires
        begin <= end <= s@.len(),
    ensures
        begin <= r.0 <= r.1 <= end,
        trimmed(s@.subrange(begin as int, end as int)) == s@.subrange(r.0 as int, r.1 as int),
{
    let mut lo = begin;
    while lo < end && space_char(s.get_char(lo))
        invariant
            begin <= lo <= end <= s@.len(),
            trim_start(s@.subrange(begin as int, end as int)) == trim_start(s@.subrange(lo as int, end as int)),
        decreases end - lo,
    {
        proof {
            assert(s@.subrange(lo as int, end as int).drop_first() =~= s@.subrange(lo + 1, end as int));
        }
        lo = lo + 1;
    }
    proof {
        if lo == end {
            assert(s@.subrange(lo as int, end as int) =~= Seq::<char>::empty());
        }
    }
    let mut hi = end;
    while hi > lo && space_char(s.get_char(hi - 1))
        invariant
            begin <= lo <= hi <= end <= s@.len(),
            trim_end(s@.subrange(lo as int, end as int)) == trim_end(s@.subrange(lo as int, hi as int)),
        decreases hi - lo,
    {
        proof {
            assert(s@.subrange(lo as int, hi as int).drop_last() =~= s@.subrange(lo as int, hi - 1));
        }
        hi = hi - 1;
    }
    proof {
        if hi == lo {
            assert(s@.subrange(lo as int, hi as int) =~= Seq::<char>::empty());
        }
    }
    (lo, hi)
}

/// Decide a request to open the WebSocket from whether its origin is
/// allowed, the subprotocols it offers, and the launch token.
pub fn handshake(origin_allowed: bool, protocols: Option<&str>, token: &str) -> (r: Handshake)
    ensures
        r == handshake_of(origin_allowed, opt_text(protocols), token@),
{
    if !origin_allowed {
        return Handshake::OriginRefused;
    }
    let s = match protocols {
        Some(s) => s,
        None => {
            return Handshake::MissingProtocols;
        },
    };
    let mut expected = String::new();
    expected.append(AUTH_PREFIX);
    expected.append(token);
    let n = s.unicode_len();
    let mut found_protocol = false;
    let mut found_token = false;
    let mut begin: usize = 0;
    let mut i: usize = 0;
    proof {
        assert(s@.subrange(0, 0) =~= Seq::<char>::empty());
    }
    while i < n
        invariant
            n == s@.len(),
            begin <= i <= n,
            expected@ == AUTH_PREFIX@ + token@,
            comma_pieces(s@.subrange(0, i as int)).len() >= 1,
            comma_pieces(s@.subrange(0, i as int)).last() == s@.subrange(begin as int, i as int),
            found_protocol == exists|k: int|
                0 <= k < comma_pieces(s@.subrange(0, i as int)).len() - 1 && trimmed(
                    #[trigger] comma_pieces(s@.subrange(0, i as int))[k],
                ) == PROTOCOL@,
            found_token == exists|k: int|
                0 <= k < comma_pieces(s@.subrange(0, i as int)).len() - 1 && trimmed(
                    #[trigger] comma_pieces(s@.subrange(0, i as int))[k],
                ) == expected@,
        decreases n - i,
    {
        let ghost ps = comma_pieces(s@.subrange(0, i as int));
        let c = s.get_char(i);
        proof {
            assert(s@.subrange(0, i + 1).drop_last() =~= s@.subrange(0, i as int));
            assert(s@.subrange(0, i + 1).last() == c);
        }
        if c == ',' {
            let (lo, hi) = trimmed_bounds(s, begin, i);
            let piece = s.substring_char(lo, hi);
            let is_protocol = str_eq(piece, PROTOCOL);
            let is_token = constant_time_eq(piece, expected.as_str());
            let ghost qs = comma_pieces(s@.subrange(0, i + 1));
            proof {
                assert(qs == ps.push(Seq::<char>::empty()));
                assert(qs[ps.len() - 1] == ps.last());
                assert forall|k: int| 0 <= k < ps.len() - 1 implies #[trigger] qs[k] == ps[k] by {}
                if found_protocol {
                    let k = choose|k: int| 0 <= k < ps.len() - 1 && trimmed(#[trigger] ps[k]) == PROTOCOL@;
                    assert(qs[k] == ps[k]);
                }
                if found_token {
                    let k = choose|k: int| 0 <= k < ps.len() - 1 && trimmed(#[trigger] ps[k]) == expected@;
                    assert(qs[k] == ps[k]);
                }
            }
            found_protocol = found_protocol || is_protocol;
            found_token = found_token || is_token;
            begin = i + 1;
            proof {
                assert(s@.subrange(begin as int, i + 1) =~= Seq::<char>::empty());
                assert(found_protocol == exists|k: int|
                    0 <= k < qs.len() - 1 && trimmed(#[trigger] qs[k]) == PROTOCOL@) by {
                    if is_protocol {
                        assert(trimmed(qs[ps.len() - 1]) == PROTOCOL@);
                    }
                    if exists|k: int| 0 <= k < qs.len() - 1 && trimmed(#[trigger] qs[k]) == PROTOCOL@ {
                        let k = choose|k: int| 0 <= k < qs.len() - 1 && trimmed(#[trigger] qs[k]) == PROTOCOL@;
                        if k < ps.len() - 1 {
                            assert(qs[k] == ps[k]);
                        }
                    }
                }
                assert(found_token == exists|k: int|
                    0 <= k < qs.len() - 1 && trimmed(#[trigger] qs[k]) == expected@) by {
                    if is_token {
                        assert(trimmed(qs[ps.len() - 1]) == expected@);
                    }
                    if exists|k: int| 0 <= k < qs.len() - 1 && trimmed(#[trigger] qs[k]) == expected@ {
                        let k = choose|k: int| 0 <= k < qs.len() - 1 && trimmed(#[trigger] qs[k]) == expected@;
                        if k < ps.len() - 1 {
                            assert(qs[k] == ps[k]);
                        }
                    }
                }
            }
        } else {
            let ghost qs = comma_pieces(s@.subrange(0, i + 1));
            proof {
                assert(qs == ps.update(ps.len() - 1, ps.last().push(c)));
                assert(s@.subrange(begin as int, i + 1) =~= s@.subrange(begin as int, i as int).push(c));
                assert forall|k: int| 0 <= k < ps.len() - 1 implies #[trigger] qs[k] == ps[k] by {}
                if found_protocol {
                    let k = choose|k: int| 0 <= k < ps.len() - 1 && trimmed(#[trigger] ps[k]) == PROTOCOL@;
                    assert(qs[k] == ps[k]);
                }
                if found_token {
                    let k = choose|k: int| 0 <= k < ps.len() - 1 && trimmed(#[trigger] ps[k]) == expected@;
                    assert(qs[k] == ps[k]);
                }
                if exists|k: int| 0 <= k < qs.len() - 1 && trimmed(#[trigger] qs[k]) == PROTOCOL@ {
                    let k = choose|k: int| 0 <= k < qs.len() - 1 && trimmed(#[trigger] qs[k]) == PROTOCOL@;
                    assert(qs[k] == ps[k]);
                }
                if exists|k: int| 0 <= k < qs.len() - 1 && trimmed(#[trigger] qs[k]) == expected@ {
                    let k = choose|k: int| 0 <= k < qs.len() - 1 && trimmed(#[trigger] qs[k]) == expected@;
                    assert(qs[k] == ps[k]);
                }
            }
        }
        i = i + 1;
    }
    let (lo, hi) = trimmed_bounds(s, begin, n);
    let piece = s.substring_char(lo, hi);
    let is_protocol = str_eq(piece, PROTOCOL);
    let is_token = constant_time_eq(piece, expected.as_str());
    proof {
        let ps = comma_pieces(s@.subrange(0, n as int));
        assert(s@.subrange(0, n as int) =~= s@);
        if is_protocol {
            assert(trimmed(ps[ps.len() - 1]) == PROTOCOL@);
        }
        if is_token {
            assert(trimmed(ps[ps.len() - 1]) == expected@);
        }
        if offers(s@, PROTOCOL@) {
            let k = choose|k: int| 0 <= k < ps.len() && trimmed(#[trigger] ps[k]) == PROTOCOL@;
        }
        if offers(s@, expected@) {
            let k = choose|k: int| 0 <= k < ps.len() && trimmed(#[trigger] ps[k]) == expected@;
        }
    }
    if (found_protocol || is_protocol) && (found_token || is_token) {
        Handshake::Accept
    } else {
        Handshake::InvalidToken
    }
}

} // verus!
