//! The pieces a schedule is computed from: symbols and their order, step
//! durations, resource conflicts and dependency constraints.

use vstd::prelude::*;
use vstd::string::StrSliceExecFns;
use crate::model::{BindingRole, Dependency, DependencyKind, Operation, ResourceBinding};
use crate::syntax::text::str_eq;

verus! {

// ---------------------------------------------------------------------------
// Symbols.
// ---------------------------------------------------------------------------

/// Where the part of `s` after its last `.` begins (0 when there is none).
pub open spec fn seg_start(s: Seq<char>) -> int
    decreases s.len(),
{
    if s.len() == 0 {
        0
    } else if s.last() == '.' {
        s.len() as int
    } else {
        seg_start(s.drop_last())
    }
}

/// The last dot-separated segment: `mixing.knead` names `knead`.
pub open spec fn last_segment(s: Seq<char>) -> Seq<char> {
    s.subrange(seg_start(s), s.len() as int)
}

proof fn lemma_seg_start_bounds(s: Seq<char>)
    ensures
        0 <= seg_start(s) <= s.len(),
    decreases s.len(),
{
    if s.len() > 0 && s.last() != '.' {
        lemma_seg_start_bounds(s.drop_last());
    }
}

pub fn last_segment_of(value: &str) -> (r: &str)
    ensures
        r@ == last_segment(value@),
{
    let n = value.unicode_len();
    let mut i = n;
    proof {
        assert(value@.subrange(0, n as int) =~= value@);
    }
    while i > 0 && value.get_char(i - 1) != '.'
        invariant
            i <= n,
            n == value@.len(),
            seg_start(value@) == seg_start(value@.subrange(0, i as int)),
        decreases i,
    {
        proof {
            assert(value@.subrange(0, i as int).drop_last() =~= value@.subrange(0, i - 1));
        }
        i = i - 1;
    }
    proof {
        if i > 0 {
            assert(value@.subrange(0, i as int).last() == value@[i - 1]);
        }
    }
    value.substring_char(i, n)
}

/// Byte-wise lexicographic order, the order of Rust strings.
pub open spec fn lex_lt(a: Seq<u8>, b: Seq<u8>) -> bool
    decreases a.len(),
{
    if a.len() == 0 {
        b.len() > 0
    } else if b.len() == 0 {
        false
    } else if a[0] != b[0] {
        a[0] < b[0]
    } else {
        lex_lt(a.drop_first(), b.drop_first())
    }
}

pub proof fn lemma_lex_asymmetric(a: Seq<u8>, b: Seq<u8>)
    requires
        lex_lt(a, b),
    ensures
        !lex_lt(b, a),
    decreases a.len(),
{
    if a.len() > 0 && b.len() > 0 && a[0] == b[0] {
        lemma_lex_asymmetric(a.drop_first(), b.drop_first());
    }
}

pub proof fn lemma_lex_irreflexive(a: Seq<u8>)
    ensures
        !lex_lt(a, a),
    decreases a.len(),
{
    if a.len() > 0 {
        lemma_lex_irreflexive(a.drop_first());
    }
}

pub proof fn lemma_lex_total(a: Seq<u8>, b: Seq<u8>)
    requires
        a != b,
    ensures
        lex_lt(a, b) || lex_lt(b, a),
    decreases a.len(),
{
    if a.len() == 0 && b.len() == 0 {
        assert(a =~= b);
    } else if a.len() > 0 && b.len() > 0 && a[0] == b[0] {
        if a.drop_first() =~= b.drop_first() {
            assert(a =~= b) by {
                assert forall|k: int| 0 <= k < a.len() implies a[k] == b[k] by {
                    if k > 0 {
                        assert(a[k] == a.drop_first()[k - 1]);
                        assert(b[k] == b.drop_first()[k - 1]);
                    }
                }
            }
        } else {
            lemma_lex_total(a.drop_first(), b.drop_first());
        }
    }
}

pub proof fn lemma_lex_transitive(a: Seq<u8>, b: Seq<u8>, c: Seq<u8>)
    requires
        lex_lt(a, b),
        lex_lt(b, c),
    ensures
        lex_lt(a, c),
    decreases a.len(),
{
    if a.len() > 0 && b.len() > 0 && c.len() > 0 && a[0] == b[0] && b[0] == c[0] {
        lemma_lex_transitive(a.drop_first(), b.drop_first(), c.drop_first());
    }
}

pub fn bytes_lt(a: &[u8], b: &[u8]) -> (r: bool)
    ensures
        r == lex_lt(a@, b@),
{
    let mut i: usize = 0;
    proof {
        assert(a@.skip(0) =~= a@);
        assert(b@.skip(0) =~= b@);
    }
    loop
        invariant
            i <= a@.len(),
            i <= b@.len(),
            lex_lt(a@, b@) == lex_lt(a@.skip(i as int), b@.skip(i as int)),
        decreases a@.len() - i,
    {
        if i == a.len() {
            return i < b.len();
        }
        if i == b.len() {
            return false;
        }
        if a[i] != b[i] {
            return a[i] < b[i];
        }
        proof {
            assert(a@.skip(i as int).drop_first() =~= a@.skip(i + 1));
            assert(b@.skip(i as int).drop_first() =~= b@.skip(i + 1));
        }
        i = i + 1;
    }
}

// ---------------------------------------------------------------------------
// Durations and lags.
// ---------------------------------------------------------------------------

/// The authored duration of one pass: the upper bound, else the lower, else
/// the fallback; never under a second.
pub open spec fn per_pass(op: Operation, fallback: u64) -> int {
    let d = match op.duration_max_seconds {
        Some(v) => v,
        None => match op.duration_min_seconds {
            Some(v) => v,
            None => fallback,
        },
    };
    if d < 1 {
        1
    } else {
        d as int
    }
}

pub open spec fn passes(op: Operation) -> int {
    match op.repeat {
        Some(r) => if r < 1 {
            1
        } else {
            r as int
        },
        None => 1,
    }
}

/// Wall-clock seconds of a step: a pass times the number of passes,
/// saturating.
pub open spec fn spec_duration(op: Operation, fallback: u64) -> int {
    let p = per_pass(op, fallback) * passes(op);
    if p > u64::MAX {
        u64::MAX as int
    } else {
        p
    }
}

pub fn duration_seconds(op: &Operation, fallback: u64) -> (r: u64)
    ensures
        r == spec_duration(*op, fallback),
        r >= 1,
{
    let d = match op.duration_max_seconds {
        Some(v) => v,
        None => match op.duration_min_seconds {
            Some(v) => v,
            None => fallback,
        },
    };
    let per: u64 = if d < 1 {
        1
    } else {
        d
    };
    let reps: u64 = match op.repeat {
        Some(r) => if r < 1 {
            1
        } else {
            r as u64
        },
        None => 1,
    };
    proof {
        assert(per * reps >= 1) by (nonlinear_arith)
            requires
                per >= 1,
                reps >= 1,
        ;
    }
    match per.checked_mul(reps) {
        Some(v) => v,
        None => u64::MAX,
    }
}

pub open spec fn lag_of(d: Dependency) -> int {
    match d.minimum_lag_seconds {
        Some(l) => l as int,
        None => 0,
    }
}

pub open spec fn lag_sum(ds: Seq<Dependency>) -> int
    decreases ds.len(),
{
    if ds.len() == 0 {
        0
    } else {
        lag_sum(ds.drop_last()) + lag_of(ds.last())
    }
}

pub proof fn lemma_lag_sum(ds: Seq<Dependency>, k: int)
    requires
        0 <= k <= ds.len(),
    ensures
        0 <= lag_sum(ds.take(k)) <= lag_sum(ds),
        k < ds.len() ==> lag_sum(ds.take(k)) + lag_of(ds[k]) == lag_sum(ds.take(k + 1)),
    decreases ds.len() - k,
{
    if k < ds.len() {
        assert(ds.take(k + 1).drop_last() =~= ds.take(k));
        lemma_lag_sum(ds, k + 1);
    } else {
        assert(ds.take(k) =~= ds);
    }
    lemma_lag_sum_nonneg(ds.take(k));
}

proof fn lemma_lag_sum_nonneg(ds: Seq<Dependency>)
    ensures
        lag_sum(ds) >= 0,
    decreases ds.len(),
{
    if ds.len() > 0 {
        lemma_lag_sum_nonneg(ds.drop_last());
    }
}

/// What scheduling a step can add to the timeline at most.
pub open spec fn cost(op: Operation, fallback: u64) -> int {
    spec_duration(op, fallback) + lag_sum(op.dependencies@)
}

pub open spec fn total_cost(ops: Seq<Operation>, fallback: u64) -> int
    decreases ops.len(),
{
    if ops.len() == 0 {
        0
    } else {
        total_cost(ops.drop_last(), fallback) + cost(ops.last(), fallback)
    }
}

// ---------------------------------------------------------------------------
// Resource conflicts.
// ---------------------------------------------------------------------------

pub open spec fn shared_role(role: BindingRole) -> bool {
    role == BindingRole::Equipment || role == BindingRole::Labor || role == BindingRole::Container
}

/// Two uses of one resource that cannot happen at the same time.
pub open spec fn bindings_conflict(a: ResourceBinding, b: ResourceBinding) -> bool {
    &&& a.resource@ == b.resource@
    &&& (a.exclusive || b.exclusive || shared_role(a.role) || shared_role(b.role))
}

pub open spec fn ops_conflict(x: Operation, y: Operation) -> bool {
    exists|a: int, b: int|
        #![trigger x.bindings@[a], y.bindings@[b]]
        0 <= a < x.bindings@.len() && 0 <= b < y.bindings@.len() && bindings_conflict(
            x.bindings@[a],
            y.bindings@[b],
        )
}

pub proof fn lemma_conflict_symmetric(x: Operation, y: Operation)
    requires
        ops_conflict(x, y),
    ensures
        ops_conflict(y, x),
{
    let (a, b) = choose|a: int, b: int|
        #![trigger x.bindings@[a], y.bindings@[b]]
        0 <= a < x.bindings@.len() && 0 <= b < y.bindings@.len() && bindings_conflict(
            x.bindings@[a],
            y.bindings@[b],
        );
    assert(bindings_conflict(y.bindings@[b], x.bindings@[a]));
}

fn is_shared_role(role: BindingRole) -> (r: bool)
    ensures
        r == shared_role(role),
{
    match role {
        BindingRole::Equipment | BindingRole::Labor | BindingRole::Container => true,
        _ => false,
    }
}

pub fn has_resource_conflict(left: &Operation, right: &Operation) -> (r: bool)
    ensures
        r == ops_conflict(*left, *right),
{
    let mut a: usize = 0;
    while a < left.bindings.len()
        invariant
            a <= left.bindings@.len(),
            forall|x: int, y: int|
                #![trigger left.bindings@[x], right.bindings@[y]]
                0 <= x < a && 0 <= y < right.bindings@.len() ==> !bindings_conflict(
                    left.bindings@[x],
                    right.bindings@[y],
                ),
        decreases left.bindings@.len() - a,
    {
        let mut b: usize = 0;
        while b < right.bindings.len()
            invariant
                a < left.bindings@.len(),
                b <= right.bindings@.len(),
                forall|x: int, y: int|
                    #![trigger left.bindings@[x], right.bindings@[y]]
                    0 <= x < a && 0 <= y < right.bindings@.len() ==> !bindings_conflict(
                        left.bindings@[x],
                        right.bindings@[y],
                    ),
                forall|y: int|
                    0 <= y < b ==> !bindings_conflict(
                        left.bindings@[a as int],
                        #[trigger] right.bindings@[y],
                    ),
            decreases right.bindings@.len() - b,
        {
            let x = &left.bindings[a];
            let y = &right.bindings[b];
            if str_eq(x.resource.as_str(), y.resource.as_str()) && (x.exclusive || y.exclusive
                || is_shared_role(x.role) || is_shared_role(y.role)) {
                proof {
                    assert(bindings_conflict(left.bindings@[a as int], right.bindings@[b as int]));
                }
                return true;
            }
            b = b + 1;
        }
        a = a + 1;
    }
    false
}

// ---------------------------------------------------------------------------
// Dependency constraints.
// ---------------------------------------------------------------------------

pub open spec fn sat_add(x: int, y: int) -> int {
    if x + y > u64::MAX {
        u64::MAX as int
    } else {
        x + y
    }
}

pub open spec fn sat_sub(x: int, y: int) -> int {
    if x - y < 0 {
        0
    } else {
        x - y
    }
}

/// The earliest start a dependency allows, given when its predecessor runs.
pub open spec fn constraint(kind: DependencyKind, lag: int, pred_start: int, pred_end: int, duration: int) -> int {
    match kind {
        DependencyKind::FinishStart => pred_end + lag,
        DependencyKind::StartStart => pred_start + lag,
        DependencyKind::FinishFinish => sat_sub(sat_add(pred_end, lag), duration),
        DependencyKind::StartFinish => sat_sub(sat_add(pred_start, lag), duration),
    }
}

pub open spec fn overlaps(a_start: int, a_end: int, b_start: int, b_end: int) -> bool {
    a_start < b_end && b_start < a_end
}

} // verus!
