//! Placing a recipe's operations on a timeline, round by round.
//!
//! Each round takes every operation whose required predecessors are already
//! placed, in order of symbol, and starts it as early as its dependencies
//! allow, then later still past any step it would collide with over a shared
//! resource. When a round finds nothing ready while operations remain, the
//! graph has a cycle or names a predecessor that does not exist.

use vstd::prelude::*;
use crate::model::{Dependency, DependencyKind, Operation};
use vstd::utf8::encode_utf8;
use crate::schedule::parts::{
    bytes_lt, constraint, cost, duration_seconds, has_resource_conflict, lag_of, lag_sum,
    last_segment, last_segment_of, lemma_conflict_symmetric, lemma_lag_sum, lemma_lex_asymmetric,
    lemma_lex_irreflexive, lemma_lex_total, lemma_lex_transitive, lex_lt, ops_conflict, overlaps,
    spec_duration, total_cost,
};
use crate::syntax::utf8_facts::lemma_encode_injective;
use crate::syntax::text::str_eq;

verus! {

// ---------------------------------------------------------------------------
// Which operations take part, and what their dependencies name.
// ---------------------------------------------------------------------------

/// Operation `i` is the last one declared with its symbol; an earlier
/// operation of the same symbol is superseded by it.
pub open spec fn kept(ops: Seq<Operation>, i: int) -> bool {
    &&& 0 <= i < ops.len()
    &&& forall|j: int| i < j < ops.len() ==> (#[trigger] ops[j]).symbol@ != ops[i].symbol@
}

/// Operation `j` is the one that symbol `s` names.
pub open spec fn resolves(ops: Seq<Operation>, s: Seq<char>, j: int) -> bool {
    kept(ops, j) && ops[j].symbol@ == s
}

pub open spec fn required(d: Dependency) -> bool {
    !d.optional
}

/// The operation a dependency names: the last segment of its predecessor.
pub open spec fn dep_target(d: Dependency) -> Seq<char> {
    last_segment(d.predecessor@)
}

/// Operation `i` waits on a required predecessor that is missing or inside
/// `u`.
pub open spec fn blocked(ops: Seq<Operation>, i: int, u: Set<int>) -> bool {
    exists|d: int|
        #![trigger ops[i].dependencies@[d]]
        0 <= d < ops[i].dependencies@.len() && required(ops[i].dependencies@[d]) && forall|j: int|
            resolves(ops, dep_target(ops[i].dependencies@[d]), j) ==> u.contains(j)
}

/// A non-empty group of operations each of which waits on the group or on a
/// predecessor that does not exist: none of them can ever start.
pub open spec fn stuck(ops: Seq<Operation>, u: Set<int>) -> bool {
    &&& exists|i: int| u.contains(i)
    &&& forall|i: int| u.contains(i) ==> kept(ops, i) && blocked(ops, i, u)
}

pub open spec fn schedulable(ops: Seq<Operation>) -> bool {
    !exists|u: Set<int>| stuck(ops, u)
}

pub proof fn lemma_resolves_unique(ops: Seq<Operation>, s: Seq<char>, a: int, b: int)
    requires
        resolves(ops, s, a),
        resolves(ops, s, b),
    ensures
        a == b,
{
    if a < b {
        assert(ops[b].symbol@ != ops[a].symbol@);
    }
    if b < a {
        assert(ops[a].symbol@ != ops[b].symbol@);
    }
}

pub fn kept_flags(ops: &Vec<Operation>) -> (r: Vec<bool>)
    ensures
        r@.len() == ops@.len(),
        forall|i: int| 0 <= i < ops@.len() ==> #[trigger] r@[i] == kept(ops@, i),
{
    let n = ops.len();
    let mut r: Vec<bool> = Vec::new();
    let mut i: usize = 0;
    while i < n
        invariant
            n == ops@.len(),
            i <= n,
            r@.len() == i,
            forall|k: int| 0 <= k < i ==> #[trigger] r@[k] == kept(ops@, k),
        decreases n - i,
    {
        let mut last = true;
        let mut j = i + 1;
        while j < n
            invariant
                n == ops@.len(),
                i < j <= n,
                last == (forall|m: int| i < m < j ==> (#[trigger] ops@[m]).symbol@ != ops@[i as int].symbol@),
            decreases n - j,
        {
            if str_eq(ops[j].symbol.as_str(), ops[i].symbol.as_str()) {
                last = false;
            }
            j = j + 1;
        }
        r.push(last);
        i = i + 1;
    }
    r
}

/// The operation that `s` names, if any.
pub fn find_kept(ops: &Vec<Operation>, s: &str) -> (r: Option<usize>)
    ensures
        match r {
            Some(j) => resolves(ops@, s@, j as int),
            None => forall|j: int| !resolves(ops@, s@, j),
        },
{
    let mut k = ops.len();
    while k > 0
        invariant
            k <= ops@.len(),
            forall|m: int| k <= m < ops@.len() ==> (#[trigger] ops@[m]).symbol@ != s@,
        decreases k,
    {
        if str_eq(ops[k - 1].symbol.as_str(), s) {
            return Some(k - 1);
        }
        k = k - 1;
    }
    None
}

/// For each dependency of `op`, the operation it names.
pub fn dep_targets(ops: &Vec<Operation>, op: &Operation) -> (r: Vec<Option<usize>>)
    ensures
        r@.len() == op.dependencies@.len(),
        forall|d: int| #![trigger r@[d]] 0 <= d < r@.len() ==> match r@[d] {
            Some(j) => resolves(ops@, dep_target(op.dependencies@[d]), j as int),
            None => forall|j: int| !resolves(ops@, dep_target(op.dependencies@[d]), j),
        },
{
    let mut r: Vec<Option<usize>> = Vec::new();
    let mut d: usize = 0;
    while d < op.dependencies.len()
        invariant
            d <= op.dependencies@.len(),
            r@.len() == d,
            forall|e: int| #![trigger r@[e]] 0 <= e < d ==> match r@[e] {
                Some(j) => resolves(ops@, dep_target(op.dependencies@[e]), j as int),
                None => forall|j: int| !resolves(ops@, dep_target(op.dependencies@[e]), j),
            },
        decreases op.dependencies@.len() - d,
    {
        let target = last_segment_of(op.dependencies[d].predecessor.as_str());
        r.push(find_kept(ops, target));
        d = d + 1;
    }
    r
}

// ---------------------------------------------------------------------------
// Bookkeeping.
// ---------------------------------------------------------------------------

pub open spec fn n_true(flags: Seq<bool>) -> nat
    decreases flags.len(),
{
    if flags.len() == 0 {
        0
    } else {
        n_true(flags.drop_last()) + (if flags.last() {
            1nat
        } else {
            0nat
        })
    }
}

proof fn lemma_n_true_set(flags: Seq<bool>, i: int, v: bool)
    requires
        0 <= i < flags.len(),
    ensures
        n_true(flags.update(i, v)) + (if flags[i] {
            1int
        } else {
            0int
        }) == n_true(flags) + (if v {
            1int
        } else {
            0int
        }),
        n_true(flags) <= flags.len(),
    decreases flags.len(),
{
    let g = flags.update(i, v);
    if i < flags.len() - 1 {
        assert(g.drop_last() =~= flags.drop_last().update(i, v));
        lemma_n_true_set(flags.drop_last(), i, v);
    } else {
        assert(g.drop_last() =~= flags.drop_last());
        lemma_n_true_bound(flags.drop_last());
    }
}

proof fn lemma_n_true_bound(flags: Seq<bool>)
    ensures
        n_true(flags) <= flags.len(),
    decreases flags.len(),
{
    if flags.len() > 0 {
        lemma_n_true_bound(flags.drop_last());
    }
}

/// The cost of the operations flagged done among the first `k`.
pub open spec fn done_cost(ops: Seq<Operation>, done: Seq<bool>, fallback: u64, k: int) -> int
    decreases k,
{
    if k <= 0 {
        0
    } else {
        done_cost(ops, done, fallback, k - 1) + (if done[k - 1] {
            cost(ops[k - 1], fallback)
        } else {
            0
        })
    }
}

proof fn lemma_cost_nonneg(op: Operation, fallback: u64)
    ensures
        cost(op, fallback) >= 1,
{
    lemma_lag_sum(op.dependencies@, 0);
    assert(op.dependencies@.take(0) =~= Seq::<Dependency>::empty());
    let p = crate::schedule::parts::per_pass(op, fallback);
    let q = crate::schedule::parts::passes(op);
    assert(p * q >= 1) by (nonlinear_arith)
        requires
            p >= 1,
            q >= 1,
    ;
}

proof fn lemma_done_cost_bound(ops: Seq<Operation>, done: Seq<bool>, fallback: u64, k: int)
    requires
        0 <= k <= ops.len(),
    ensures
        0 <= done_cost(ops, done, fallback, k) <= total_cost(ops.take(k), fallback),
    decreases k,
{
    if k > 0 {
        lemma_done_cost_bound(ops, done, fallback, k - 1);
        assert(ops.take(k).drop_last() =~= ops.take(k - 1));
        lemma_cost_nonneg(ops[k - 1], fallback);
    }
}

proof fn lemma_done_cost_set(ops: Seq<Operation>, done: Seq<bool>, fallback: u64, i: int, k: int)
    requires
        0 <= i < done.len(),
        !done[i],
        0 <= k <= done.len(),
    ensures
        done_cost(ops, done.update(i, true), fallback, k) == done_cost(ops, done, fallback, k) + (
        if i < k {
            cost(ops[i], fallback)
        } else {
            0
        }),
    decreases k,
{
    if k > 0 {
        lemma_done_cost_set(ops, done, fallback, i, k - 1);
    }
}

// ---------------------------------------------------------------------------
// The rounds.
// ---------------------------------------------------------------------------

pub open spec fn dur(ops: Seq<Operation>, fallback: u64, i: int) -> int {
    spec_duration(ops[i], fallback)
}

/// Slot `s` of operation `i` has a reason: it is time zero, the bound of
/// one of its required dependencies, or the end of a placed step it
/// contends with.
pub open spec fn justified_slot(
    ops: Seq<Operation>,
    fallback: u64,
    tv: Seq<Seq<Option<usize>>>,
    done: Seq<bool>,
    starts: Seq<u64>,
    ends: Seq<u64>,
    i: int,
    s: int,
) -> bool {
    ||| s == 0
    ||| exists|d: int|
        #![trigger ops[i].dependencies@[d]]
        0 <= d < ops[i].dependencies@.len() && required(ops[i].dependencies@[d]) && s == constraint(
            ops[i].dependencies@[d].kind,
            lag_of(ops[i].dependencies@[d]),
            starts[tv[i][d]->0 as int] as int,
            ends[tv[i][d]->0 as int] as int,
            dur(ops, fallback, i),
        )
    ||| exists|j: int|
        #![trigger done[j]]
        0 <= j < ops.len() && done[j] && j != i && ops_conflict(ops[i], ops[j]) && ends[j] == s
}

/// The earliest start that the first `d` dependencies of operation `i`
/// allow: the latest of the bounds its required ones set, and 0.
pub open spec fn dep_bound_upto(
    ops: Seq<Operation>,
    fallback: u64,
    tv: Seq<Seq<Option<usize>>>,
    starts: Seq<u64>,
    ends: Seq<u64>,
    i: int,
    d: int,
) -> int
    decreases d,
{
    if d <= 0 {
        0
    } else {
        let prev = dep_bound_upto(ops, fallback, tv, starts, ends, i, d - 1);
        let dep = ops[i].dependencies@[d - 1];
        if required(dep) {
            let c = constraint(
                dep.kind,
                lag_of(dep),
                starts[tv[i][d - 1]->0 as int] as int,
                ends[tv[i][d - 1]->0 as int] as int,
                dur(ops, fallback, i),
            );
            if c > prev {
                c
            } else {
                prev
            }
        } else {
            prev
        }
    }
}

/// The earliest start that the dependencies of operation `i` allow.
pub open spec fn dep_bound(
    ops: Seq<Operation>,
    fallback: u64,
    tv: Seq<Seq<Option<usize>>>,
    starts: Seq<u64>,
    ends: Seq<u64>,
    i: int,
) -> int {
    dep_bound_upto(ops, fallback, tv, starts, ends, i, ops[i].dependencies@.len() as int)
}

/// Run over `[s, s + dur)`, operation `i` would overlap an operation placed
/// before position `before` that it contends with.
pub open spec fn collides(
    ops: Seq<Operation>,
    fallback: u64,
    done: Seq<bool>,
    starts: Seq<u64>,
    ends: Seq<u64>,
    pos: Seq<int>,
    before: int,
    i: int,
    s: int,
) -> bool {
    exists|j: int|
        #![trigger done[j], pos[j]]
        0 <= j < ops.len() && done[j] && pos[j] < before && ops_conflict(ops[i], ops[j]) && overlaps(
            s,
            s + dur(ops, fallback, i),
            starts[j] as int,
            ends[j] as int,
        )
}

/// `s` is the earliest moment, from the bound its dependencies set on, at
/// which operation `i` overlaps none of the contending operations placed
/// before position `before`.
pub open spec fn earliest_slot(
    ops: Seq<Operation>,
    fallback: u64,
    tv: Seq<Seq<Option<usize>>>,
    done: Seq<bool>,
    starts: Seq<u64>,
    ends: Seq<u64>,
    pos: Seq<int>,
    before: int,
    i: int,
    s: int,
) -> bool {
    &&& s >= dep_bound(ops, fallback, tv, starts, ends, i)
    &&& forall|t: int|
        dep_bound(ops, fallback, tv, starts, ends, i) <= t < s ==> #[trigger] collides(
            ops,
            fallback,
            done,
            starts,
            ends,
            pos,
            before,
            i,
            t,
        )
}

/// What holds of the operations placed so far.
pub open spec fn placement_facts(
    ops: Seq<Operation>,
    fallback: u64,
    targets: Seq<Seq<Option<usize>>>,
    done: Seq<bool>,
    starts: Seq<u64>,
    ends: Seq<u64>,
    pos: Seq<int>,
    cnt: int,
    spent: int,
) -> bool {
    let n = ops.len();
    &&& done.len() == n && starts.len() == n && ends.len() == n && pos.len() == n
    &&& targets.len() == n
    &&& forall|i: int| 0 <= i < n ==> #[trigger] targets[i].len() == ops[i].dependencies@.len()
    &&& forall|i: int, d: int|
        #![trigger targets[i][d]]
        0 <= i < n && 0 <= d < targets[i].len() ==> match targets[i][d] {
            Some(j) => resolves(ops, dep_target(ops[i].dependencies@[d]), j as int),
            None => forall|j: int| !resolves(ops, dep_target(ops[i].dependencies@[d]), j),
        }
    &&& forall|i: int| 0 <= i < n && #[trigger] done[i] ==> kept(ops, i)
    &&& forall|i: int|
        0 <= i < n && #[trigger] done[i] ==> ends[i] == starts[i] + dur(ops, fallback, i) && ends[i]
            <= spent && 0 <= pos[i] < cnt
    &&& forall|i: int, d: int|
        #![trigger done[i], ops[i].dependencies@[d]]
        0 <= i < n && done[i] && 0 <= d < ops[i].dependencies@.len() && required(
            ops[i].dependencies@[d],
        ) ==> {
            let dep = ops[i].dependencies@[d];
            &&& targets[i][d] is Some
            &&& {
                let j = targets[i][d]->0 as int;
                &&& done[j]
                &&& pos[j] < pos[i]
                &&& starts[i] >= constraint(
                    dep.kind,
                    lag_of(dep),
                    starts[j] as int,
                    ends[j] as int,
                    dur(ops, fallback, i),
                )
            }
        }
    &&& forall|i: int, j: int|
        #![trigger done[i], done[j]]
        0 <= i < n && 0 <= j < n && i != j && done[i] && done[j] && ops_conflict(ops[i], ops[j])
            ==> !overlaps(starts[i] as int, ends[i] as int, starts[j] as int, ends[j] as int)
    &&& forall|i: int|
        0 <= i < n && #[trigger] done[i] ==> justified_slot(ops, fallback, targets, done, starts, ends, i, starts[i] as int)
    &&& forall|i: int|
        0 <= i < n && #[trigger] done[i] ==> earliest_slot(
            ops,
            fallback,
            targets,
            done,
            starts,
            ends,
            pos,
            pos[i],
            i,
            starts[i] as int,
        )
    &&& spent == done_cost(ops, done, fallback, n as int)
    &&& cnt == n_true(done)
}

/// What holds of the operations placed so far (see [`placement_facts`]).
pub closed spec fn placed_ok(
    ops: Seq<Operation>,
    fallback: u64,
    targets: Seq<Seq<Option<usize>>>,
    done: Seq<bool>,
    starts: Seq<u64>,
    ends: Seq<u64>,
    pos: Seq<int>,
    cnt: int,
    spent: int,
) -> bool {
    placement_facts(ops, fallback, targets, done, starts, ends, pos, cnt, spent)
}

/// What [`placed_ok`] says.
pub proof fn lemma_placed_ok(
    ops: Seq<Operation>,
    fallback: u64,
    targets: Seq<Seq<Option<usize>>>,
    done: Seq<bool>,
    starts: Seq<u64>,
    ends: Seq<u64>,
    pos: Seq<int>,
    cnt: int,
    spent: int,
)
    requires
        placed_ok(ops, fallback, targets, done, starts, ends, pos, cnt, spent),
    ensures
        placement_facts(ops, fallback, targets, done, starts, ends, pos, cnt, spent),
{
}


/// The slot of operation `i`, given what is already placed: as early as its
/// required dependencies allow, then pushed past every placed step it would
/// collide with.
#[verifier::rlimit(40)]
fn place_one(
    ops: &Vec<Operation>,
    fallback: u64,
    targets: &Vec<Vec<Option<usize>>>,
    done: &Vec<bool>,
    starts: &Vec<u64>,
    ends: &Vec<u64>,
    i: usize,
    Ghost(pos): Ghost<Seq<int>>,
    Ghost(cnt): Ghost<int>,
    Ghost(spent): Ghost<int>,
) -> (r: (u64, u64))
    requires
        placed_ok(ops@, fallback, targets@.map_values(|t: Vec<Option<usize>>| t@), done@, starts@, ends@, pos, cnt, spent),
        i < ops@.len(),
        !done@[i as int],
        spent + cost(ops@[i as int], fallback) <= u64::MAX,
        forall|d: int|
            #![trigger ops@[i as int].dependencies@[d]]
            0 <= d < ops@[i as int].dependencies@.len() && required(ops@[i as int].dependencies@[d]) ==> {
                &&& targets@[i as int]@[d] is Some
                &&& done@[targets@[i as int]@[d]->0 as int]
            },
    ensures
        r.1 == r.0 + dur(ops@, fallback, i as int),
        r.1 <= spent + cost(ops@[i as int], fallback),
        forall|d: int|
            #![trigger ops@[i as int].dependencies@[d]]
            0 <= d < ops@[i as int].dependencies@.len() && required(ops@[i as int].dependencies@[d]) ==> {
                let dep = ops@[i as int].dependencies@[d];
                let j = targets@[i as int]@[d]->0 as int;
                r.0 >= constraint(dep.kind, lag_of(dep), starts@[j] as int, ends@[j] as int, dur(ops@, fallback, i as int))
            },
        forall|j: int|
            0 <= j < ops@.len() && #[trigger] done@[j] && ops_conflict(ops@[i as int], ops@[j]) ==> !overlaps(
                r.0 as int,
                r.1 as int,
                starts@[j] as int,
                ends@[j] as int,
            ),
        justified_slot(ops@, fallback, targets@.map_values(|t: Vec<Option<usize>>| t@), done@, starts@, ends@, i as int, r.0 as int),
        earliest_slot(
            ops@,
            fallback,
            targets@.map_values(|t: Vec<Option<usize>>| t@),
            done@,
            starts@,
            ends@,
            pos,
            cnt,
            i as int,
            r.0 as int,
        ),
{
    let ghost tv = targets@.map_values(|t: Vec<Option<usize>>| t@);
    let n = ops.len();
    let op = &ops[i];
    let ghost deps = op.dependencies@;
    let duration = duration_seconds(op, fallback);
    let ghost lags = lag_sum(deps);
    proof {
        lemma_lag_sum(deps, deps.len() as int);
        lemma_lag_sum(deps, 0);
        assert(deps.take(deps.len() as int) =~= deps);
        assert(deps.take(0) =~= Seq::<Dependency>::empty());
        assert(tv[i as int] == targets@[i as int]@);
        lemma_done_cost_bound(ops@, done@, fallback, n as int);
    }
    let mut dependency_start: u64 = 0;
    let mut d: usize = 0;
    while d < op.dependencies.len()
        invariant
            placed_ok(ops@, fallback, tv, done@, starts@, ends@, pos, cnt, spent),
            tv == targets@.map_values(|t: Vec<Option<usize>>| t@),
            n == ops@.len(),
            i < n,
            op == ops@[i as int],
            deps == op.dependencies@,
            lags == lag_sum(deps),
            0 <= lag_sum(deps.take(d as int)) <= lags,
            duration == dur(ops@, fallback, i as int),
            spent + duration + lags <= u64::MAX,
            d <= deps.len(),
            targets@[i as int]@.len() == deps.len(),
            spent >= 0,
            dependency_start <= spent + lag_sum(deps.take(d as int)),
            tv[i as int] == targets@[i as int]@,
            dependency_start == dep_bound_upto(ops@, fallback, tv, starts@, ends@, i as int, d as int),
            forall|e: int|
                #![trigger deps[e]]
                0 <= e < deps.len() && required(deps[e]) ==> {
                    &&& targets@[i as int]@[e] is Some
                    &&& done@[targets@[i as int]@[e]->0 as int]
                },
            forall|e: int|
                #![trigger deps[e]]
                0 <= e < d && required(deps[e]) ==> {
                    let j = targets@[i as int]@[e]->0 as int;
                    dependency_start >= constraint(deps[e].kind, lag_of(deps[e]), starts@[j] as int, ends@[j] as int, duration as int)
                },
            dependency_start == 0 || exists|e: int|
                #![trigger deps[e]]
                0 <= e < d && required(deps[e]) && dependency_start == constraint(
                    deps[e].kind,
                    lag_of(deps[e]),
                    starts@[targets@[i as int]@[e]->0 as int] as int,
                    ends@[targets@[i as int]@[e]->0 as int] as int,
                    duration as int,
                ),
        decreases deps.len() - d,
    {
        proof {
            lemma_lag_sum(deps, d as int);
            lemma_lag_sum(deps, d + 1);
        }
        let dependency = &op.dependencies[d];
        if !dependency.optional {
            let j = match targets[i][d] {
                Some(j) => j,
                None => {
                    proof {
                        assert(false);
                    }
                    0
                },
            };
            proof {
                assert(tv[i as int][d as int] == targets@[i as int]@[d as int]);
                assert(done@[j as int]);
                assert(ends@[j as int] <= spent);
            }
            let lag: u64 = match dependency.minimum_lag_seconds {
                Some(l) => l,
                None => 0,
            };
            let candidate = match dependency.kind {
                DependencyKind::FinishStart => ends[j] + lag,
                DependencyKind::StartStart => starts[j] + lag,
                DependencyKind::FinishFinish => ends[j].saturating_add(lag).saturating_sub(duration),
                DependencyKind::StartFinish => starts[j].saturating_add(lag).saturating_sub(duration),
            };
            proof {
                assert(deps[d as int] == dependency);
                assert(required(deps[d as int]));
                assert(candidate == constraint(
                    deps[d as int].kind,
                    lag_of(deps[d as int]),
                    starts@[tv[i as int][d as int]->0 as int] as int,
                    ends@[tv[i as int][d as int]->0 as int] as int,
                    dur(ops@, fallback, i as int),
                ));
            }
            if candidate > dependency_start {
                dependency_start = candidate;
            }
        } else {
            proof {
                assert(!required(deps[d as int]));
            }
        }
        d = d + 1;
    }
    proof {
        assert(deps.take(deps.len() as int) =~= deps);
    }
    let mut start = dependency_start;
    loop
        invariant
            placed_ok(ops@, fallback, tv, done@, starts@, ends@, pos, cnt, spent),
            n == ops@.len(),
            i < n,
            op == ops@[i as int],
            deps == op.dependencies@,
            duration == dur(ops@, fallback, i as int),
            spent + duration + lags <= u64::MAX,
            lags >= 0,
            dependency_start <= start <= spent + lags,
            !done@[i as int],
            dependency_start == dep_bound(ops@, fallback, tv, starts@, ends@, i as int),
            forall|t: int|
                dependency_start <= t < start ==> #[trigger] collides(ops@, fallback, done@, starts@, ends@, pos, cnt, i as int, t),
            start == dependency_start || exists|j: int|
                #![trigger done@[j]]
                0 <= j < n && done@[j] && j != i && ops_conflict(ops@[i as int], ops@[j]) && ends@[j] == start,
        ensures
            dependency_start <= start <= spent + lags,
            forall|t: int|
                dependency_start <= t < start ==> #[trigger] collides(ops@, fallback, done@, starts@, ends@, pos, cnt, i as int, t),
            start == dependency_start || exists|j: int|
                #![trigger done@[j]]
                0 <= j < n && done@[j] && j != i && ops_conflict(ops@[i as int], ops@[j]) && ends@[j] == start,
            forall|m: int|
                0 <= m < n && #[trigger] done@[m] && ops_conflict(ops@[i as int], ops@[m]) ==> !overlaps(
                    start as int,
                    start + duration,
                    starts@[m] as int,
                    ends@[m] as int,
                ),
        decreases u64::MAX - start,
    {
        let mut best: Option<u64> = None;
        let mut best_at: usize = 0;
        let mut j: usize = 0;
        while j < n
            invariant
                placed_ok(ops@, fallback, tv, done@, starts@, ends@, pos, cnt, spent),
                n == ops@.len(),
                i < n,
                op == ops@[i as int],
                duration == dur(ops@, fallback, i as int),
                spent + duration + lags <= u64::MAX,
                start <= spent + lags,
                lags >= 0,
                j <= n,
                !done@[i as int],
                match best {
                    Some(e) => start < e <= spent && best_at < n && done@[best_at as int] && best_at != i
                        && ops_conflict(ops@[i as int], ops@[best_at as int]) && ends@[best_at as int] == e
                        && starts@[best_at as int] < start + duration,
                    None => forall|m: int|
                        0 <= m < j && #[trigger] done@[m] && ops_conflict(ops@[i as int], ops@[m]) ==> !overlaps(
                            start as int,
                            start + duration,
                            starts@[m] as int,
                            ends@[m] as int,
                        ),
                },
            decreases n - j,
        {
            if done[j] && start < ends[j] && starts[j] < start + duration && has_resource_conflict(op, &ops[j]) {
                match best {
                    Some(e) => {
                        if ends[j] > e {
                            best = Some(ends[j]);
                            best_at = j;
                        }
                    },
                    None => {
                        best = Some(ends[j]);
                        best_at = j;
                    },
                }
            }
            j = j + 1;
        }
        match best {
            Some(e) => {
                proof {
                    assert forall|t: int| dependency_start <= t < e implies #[trigger] collides(
                        ops@,
                        fallback,
                        done@,
                        starts@,
                        ends@,
                        pos,
                        cnt,
                        i as int,
                        t,
                    ) by {
                        if t >= start {
                            assert(done@[best_at as int]);
                            assert(pos[best_at as int] < cnt);
                        }
                    }
                }
                start = e;
            },
            None => {
                break;
            },
        }
    }
    (start, start + duration)
}

/// Every required dependency of `k` names an operation already placed.
pub open spec fn deps_placed(ops: Seq<Operation>, tv: Seq<Seq<Option<usize>>>, done: Seq<bool>, k: int) -> bool {
    forall|d: int|
        #![trigger ops[k].dependencies@[d]]
        0 <= d < ops[k].dependencies@.len() && required(ops[k].dependencies@[d]) ==> {
            &&& tv[k][d] is Some
            &&& done[tv[k][d]->0 as int]
        }
}

fn deps_ready(ops: &Vec<Operation>, targets: &Vec<Vec<Option<usize>>>, done: &Vec<bool>, k: usize) -> (r: bool)
    requires
        k < ops@.len(),
        k < targets@.len(),
        targets@[k as int]@.len() == ops@[k as int].dependencies@.len(),
        forall|d: int|
            0 <= d < targets@[k as int]@.len() ==> match #[trigger] targets@[k as int]@[d] {
                Some(j) => j < done@.len(),
                None => true,
            },
    ensures
        r == deps_placed(ops@, targets@.map_values(|t: Vec<Option<usize>>| t@), done@, k as int),
{
    let ghost tv = targets@.map_values(|t: Vec<Option<usize>>| t@);
    proof {
        assert(tv[k as int] == targets@[k as int]@);
    }
    let op = &ops[k];
    let mut d: usize = 0;
    while d < op.dependencies.len()
        invariant
            op == ops@[k as int],
            tv == targets@.map_values(|t: Vec<Option<usize>>| t@),
            tv[k as int] == targets@[k as int]@,
            k < ops@.len(),
            k < targets@.len(),
            targets@[k as int]@.len() == op.dependencies@.len(),
            forall|e: int|
                0 <= e < targets@[k as int]@.len() ==> match #[trigger] targets@[k as int]@[e] {
                    Some(j) => j < done@.len(),
                    None => true,
                },
            d <= op.dependencies@.len(),
            forall|e: int|
                #![trigger ops@[k as int].dependencies@[e]]
                0 <= e < d && required(ops@[k as int].dependencies@[e]) ==> {
                    &&& tv[k as int][e] is Some
                    &&& done@[tv[k as int][e]->0 as int]
                },
        decreases op.dependencies@.len() - d,
    {
        if !op.dependencies[d].optional {
            match targets[k][d] {
                Some(j) => {
                    if !done[j] {
                        return false;
                    }
                },
                None => {
                    return false;
                },
            }
        }
        d = d + 1;
    }
    true
}

/// One ready operation, the one with the smallest symbol.
fn pick_ready(ops: &Vec<Operation>, ready: &Vec<bool>) -> (r: Option<usize>)
    requires
        ready@.len() == ops@.len(),
    ensures
        match r {
            Some(b) => b < ready@.len() && ready@[b as int] && forall|k: int|
                0 <= k < ready@.len() && #[trigger] ready@[k] ==> !sym_lt(ops@, k, b as int),
            None => forall|k: int| 0 <= k < ready@.len() ==> !#[trigger] ready@[k],
        },
{
    let mut best: Option<usize> = None;
    let mut k: usize = 0;
    while k < ready.len()
        invariant
            ready@.len() == ops@.len(),
            k <= ready@.len(),
            match best {
                Some(b) => b < ready@.len() && ready@[b as int] && forall|m: int|
                    0 <= m < k && #[trigger] ready@[m] ==> !sym_lt(ops@, m, b as int),
                None => forall|m: int| 0 <= m < k ==> !#[trigger] ready@[m],
            },
        decreases ready@.len() - k,
    {
        if ready[k] {
            best = match best {
                Some(b) => if bytes_lt(ops[k].symbol.as_str().as_bytes(), ops[b].symbol.as_str().as_bytes()) {
                    proof {
                        assert forall|m: int| 0 <= m < k + 1 && #[trigger] ready@[m] implies !sym_lt(ops@, m, k as int) by {
                            if m < k && sym_lt(ops@, m, k as int) {
                                lemma_lex_transitive(
                                    encode_utf8(ops@[m].symbol@),
                                    encode_utf8(ops@[k as int].symbol@),
                                    encode_utf8(ops@[b as int].symbol@),
                                );
                            }
                            if m == k {
                                lemma_lex_irreflexive(encode_utf8(ops@[m].symbol@));
                            }
                        }
                    }
                    Some(k)
                } else {
                    Some(b)
                },
                None => {
                    proof {
                        lemma_lex_irreflexive(encode_utf8(ops@[k as int].symbol@));
                    }
                    Some(k)
                },
            };
        }
        k = k + 1;
    }
    best
}

/// Operation `x`'s symbol comes before `y`'s in the order of Rust strings.
pub open spec fn sym_lt(ops: Seq<Operation>, x: int, y: int) -> bool {
    lex_lt(encode_utf8(ops[x].symbol@), encode_utf8(ops[y].symbol@))
}

// ---------------------------------------------------------------------------
// The order of placement: round by round, each round in symbol order.
// ---------------------------------------------------------------------------

/// `lvl` gives each placed operation the round it was placed in: the round
/// after the latest of its required dependencies' (round 0 with none); and
/// the operations were placed round by round, each round in symbol order.
pub closed spec fn levels_ok(
    ops: Seq<Operation>,
    tv: Seq<Seq<Option<usize>>>,
    done: Seq<bool>,
    pos: Seq<int>,
    lvl: Seq<int>,
) -> bool {
    let n = ops.len();
    &&& lvl.len() == n
    &&& forall|m: int| 0 <= m < n && #[trigger] done[m] ==> lvl[m] >= 0
    &&& forall|m: int, d: int|
        #![trigger done[m], ops[m].dependencies@[d]]
        0 <= m < n && done[m] && 0 <= d < ops[m].dependencies@.len() && required(ops[m].dependencies@[d])
            ==> lvl[tv[m][d]->0 as int] < lvl[m]
    &&& forall|m: int|
        0 <= m < n && #[trigger] done[m] && lvl[m] > 0 ==> exists|d: int|
            #![trigger ops[m].dependencies@[d]]
            0 <= d < ops[m].dependencies@.len() && required(ops[m].dependencies@[d]) && lvl[tv[m][d]->0 as int]
                == lvl[m] - 1
    &&& forall|x: int, y: int|
        #![trigger done[x], done[y]]
        0 <= x < n && 0 <= y < n && done[x] && done[y] ==> (pos[x] < pos[y] <==> (lvl[x] < lvl[y] || (lvl[x]
            == lvl[y] && sym_lt(ops, x, y))))
}

/// What [`levels_ok`] says.
pub proof fn lemma_levels(
    ops: Seq<Operation>,
    tv: Seq<Seq<Option<usize>>>,
    done: Seq<bool>,
    pos: Seq<int>,
    lvl: Seq<int>,
)
    requires
        levels_ok(ops, tv, done, pos, lvl),
    ensures
        lvl.len() == ops.len(),
        forall|m: int| 0 <= m < ops.len() && #[trigger] done[m] ==> lvl[m] >= 0,
        forall|m: int, d: int|
            #![trigger done[m], ops[m].dependencies@[d]]
            0 <= m < ops.len() && done[m] && 0 <= d < ops[m].dependencies@.len() && required(ops[m].dependencies@[d])
                ==> lvl[tv[m][d]->0 as int] < lvl[m],
        forall|m: int|
            0 <= m < ops.len() && #[trigger] done[m] && lvl[m] > 0 ==> exists|d: int|
                #![trigger ops[m].dependencies@[d]]
                0 <= d < ops[m].dependencies@.len() && required(ops[m].dependencies@[d]) && lvl[tv[m][d]->0 as int]
                    == lvl[m] - 1,
        forall|x: int, y: int|
            #![trigger done[x], done[y]]
            0 <= x < ops.len() && 0 <= y < ops.len() && done[x] && done[y] ==> (pos[x] < pos[y] <==> (lvl[x] < lvl[y] || (lvl[x]
                == lvl[y] && sym_lt(ops, x, y)))),
{
}

/// At the start of round `r`, every operation still waiting waits on a
/// required dependency that names nothing, is not yet placed, or was placed
/// in the round before.
pub open spec fn waits_since(
    ops: Seq<Operation>,
    tv: Seq<Seq<Option<usize>>>,
    done: Seq<bool>,
    lvl: Seq<int>,
    r: int,
) -> bool {
    forall|m: int|
        0 <= m < ops.len() && kept(ops, m) && !#[trigger] done[m] && r > 0 ==> exists|d: int|
            #![trigger ops[m].dependencies@[d]]
            0 <= d < ops[m].dependencies@.len() && required(ops[m].dependencies@[d]) && (tv[m][d] is None
                || !done[tv[m][d]->0 as int] || lvl[tv[m][d]->0 as int] == r - 1)
}

/// Within round `r`: `done0` and `ready0` were the placed and the ready
/// operations at its start.
pub open spec fn round_ok(
    ops: Seq<Operation>,
    tv: Seq<Seq<Option<usize>>>,
    done0: Seq<bool>,
    ready0: Seq<bool>,
    done: Seq<bool>,
    ready: Seq<bool>,
    lvl: Seq<int>,
    r: int,
) -> bool {
    let n = ops.len();
    &&& done0.len() == n && ready0.len() == n && ready.len() == n
    &&& forall|m: int| 0 <= m < n && #[trigger] done0[m] ==> done[m] && 0 <= lvl[m] < r
    &&& forall|m: int| 0 <= m < n && #[trigger] done[m] && !done0[m] ==> lvl[m] == r && ready0[m]
    &&& forall|m: int| 0 <= m < n ==> #[trigger] ready[m] == (ready0[m] && !done[m])
    &&& forall|m: int| 0 <= m < n && #[trigger] ready0[m] ==> kept(ops, m) && !done0[m] && deps_placed(ops, tv, done0, m)
    &&& forall|m: int| 0 <= m < n && kept(ops, m) && !done0[m] && !#[trigger] ready0[m] ==> !deps_placed(ops, tv, done0, m)
    &&& forall|x: int, y: int|
        #![trigger done[x], ready[y]]
        0 <= x < n && 0 <= y < n && done[x] && !done0[x] && ready[y] ==> sym_lt(ops, x, y)
}

/// Two kept operations carry different symbols, so one comes first.
proof fn lemma_sym_order(ops: Seq<Operation>, x: int, y: int)
    requires
        kept(ops, x),
        kept(ops, y),
        x != y,
    ensures
        sym_lt(ops, x, y) || sym_lt(ops, y, x),
{
    if ops[x].symbol@ == ops[y].symbol@ {
        lemma_resolves_unique(ops, ops[x].symbol@, x, y);
    }
    if encode_utf8(ops[x].symbol@) == encode_utf8(ops[y].symbol@) {
        lemma_encode_injective(ops[x].symbol@, ops[y].symbol@);
    }
    lemma_lex_total(encode_utf8(ops[x].symbol@), encode_utf8(ops[y].symbol@));
}

/// Placing `b`, the ready operation with the least symbol, in round `r`
/// keeps the order of placement.
proof fn lemma_round_place(
    ops: Seq<Operation>,
    fallback: u64,
    tv: Seq<Seq<Option<usize>>>,
    done0: Seq<bool>,
    ready0: Seq<bool>,
    done: Seq<bool>,
    ready: Seq<bool>,
    starts: Seq<u64>,
    ends: Seq<u64>,
    pos: Seq<int>,
    cnt: int,
    spent: int,
    lvl: Seq<int>,
    r: int,
    b: int,
)
    requires
        placed_ok(ops, fallback, tv, done, starts, ends, pos, cnt, spent),
        levels_ok(ops, tv, done, pos, lvl),
        waits_since(ops, tv, done0, lvl, r),
        round_ok(ops, tv, done0, ready0, done, ready, lvl, r),
        r >= 0,
        0 <= b < ops.len(),
        ready[b],
        forall|k: int| 0 <= k < ops.len() && #[trigger] ready[k] ==> !sym_lt(ops, k, b),
    ensures
        levels_ok(ops, tv, done.update(b, true), pos.update(b, cnt), lvl.update(b, r)),
        waits_since(ops, tv, done0, lvl.update(b, r), r),
        round_ok(ops, tv, done0, ready0, done.update(b, true), ready.update(b, false), lvl.update(b, r), r),
{
    let n = ops.len();
    let done2 = done.update(b, true);
    let pos2 = pos.update(b, cnt);
    let lvl2 = lvl.update(b, r);
    let ready2 = ready.update(b, false);
    assert(ready0[b] && !done[b] && !done0[b]);
    assert(kept(ops, b) && deps_placed(ops, tv, done0, b));
    // required dependencies come in earlier rounds
    assert forall|m: int, d: int|
        #![trigger done2[m], ops[m].dependencies@[d]]
        0 <= m < n && done2[m] && 0 <= d < ops[m].dependencies@.len() && required(ops[m].dependencies@[d])
            implies lvl2[tv[m][d]->0 as int] < lvl2[m] by {
        if m == b {
            let t = tv[b][d]->0 as int;
            assert(done0[t]);
            assert(t != b);
        } else {
            assert(done[m]);
            let t = tv[m][d]->0 as int;
            assert(done[t]);
            assert(t != b);
        }
    }
    assert forall|m: int|
        0 <= m < n && #[trigger] done2[m] && lvl2[m] > 0 implies exists|d: int|
            #![trigger ops[m].dependencies@[d]]
            0 <= d < ops[m].dependencies@.len() && required(ops[m].dependencies@[d]) && lvl2[tv[m][d]->0 as int]
                == lvl2[m] - 1 by {
        if m == b {
            let d = choose|d: int|
                #![trigger ops[b].dependencies@[d]]
                0 <= d < ops[b].dependencies@.len() && required(ops[b].dependencies@[d]) && (tv[b][d] is None
                    || !done0[tv[b][d]->0 as int] || lvl[tv[b][d]->0 as int] == r - 1);
            let t = tv[b][d]->0 as int;
            assert(done0[t]);
            assert(t != b);
            assert(lvl2[t] == r - 1);
        } else {
            assert(done[m]);
            let d = choose|d: int|
                #![trigger ops[m].dependencies@[d]]
                0 <= d < ops[m].dependencies@.len() && required(ops[m].dependencies@[d]) && lvl[tv[m][d]->0 as int]
                    == lvl[m] - 1;
            let t = tv[m][d]->0 as int;
            assert(done[t]);
            assert(t != b);
        }
    }
    assert forall|x: int, y: int|
        #![trigger done2[x], done2[y]]
        0 <= x < n && 0 <= y < n && done2[x] && done2[y] implies (pos2[x] < pos2[y] <==> (lvl2[x] < lvl2[y] || (
            lvl2[x] == lvl2[y] && sym_lt(ops, x, y)))) by {
        if x == b && y == b {
            lemma_lex_irreflexive(encode_utf8(ops[b].symbol@));
        } else if y == b {
            assert(done[x]);
            assert(pos[x] < cnt);
            if !done0[x] {
                assert(sym_lt(ops, x, b));
            }
        } else if x == b {
            assert(done[y]);
            assert(pos[y] < cnt);
            if !done0[y] {
                assert(sym_lt(ops, y, b));
                lemma_lex_asymmetric(encode_utf8(ops[y].symbol@), encode_utf8(ops[b].symbol@));
            }
        } else {
            assert(done[x] && done[y]);
        }
    }
    assert forall|m: int| 0 <= m < n && #[trigger] done2[m] implies lvl2[m] >= 0 by {
        if m != b {
            assert(done[m]);
        }
    }
    assert(levels_ok(ops, tv, done2, pos2, lvl2));
    // what waited at the start of the round still does
    assert forall|m: int|
        0 <= m < n && kept(ops, m) && !#[trigger] done0[m] && r > 0 implies exists|d: int|
            #![trigger ops[m].dependencies@[d]]
            0 <= d < ops[m].dependencies@.len() && required(ops[m].dependencies@[d]) && (tv[m][d] is None
                || !done0[tv[m][d]->0 as int] || lvl2[tv[m][d]->0 as int] == r - 1) by {
        let d = choose|d: int|
            #![trigger ops[m].dependencies@[d]]
            0 <= d < ops[m].dependencies@.len() && required(ops[m].dependencies@[d]) && (tv[m][d] is None
                || !done0[tv[m][d]->0 as int] || lvl[tv[m][d]->0 as int] == r - 1);
        if tv[m][d] is Some && done0[tv[m][d]->0 as int] {
            assert(tv[m][d]->0 != b);
        }
    }
    // the round goes on in symbol order
    assert forall|x: int, y: int|
        #![trigger done2[x], ready2[y]]
        0 <= x < n && 0 <= y < n && done2[x] && !done0[x] && ready2[y] implies sym_lt(ops, x, y) by {
        assert(ready[y] && y != b);
        if x == b {
            assert(!sym_lt(ops, y, b));
            assert(ready0[y]);
            lemma_sym_order(ops, b, y);
        } else {
            assert(done[x]);
        }
    }
    assert forall|m: int| 0 <= m < n && #[trigger] done0[m] implies done2[m] && 0 <= lvl2[m] < r by {
        assert(m != b);
    }
    assert forall|m: int| 0 <= m < n && #[trigger] done2[m] && !done0[m] implies lvl2[m] == r && ready0[m] by {
        if m != b {
            assert(done[m]);
        }
    }
    assert forall|m: int| 0 <= m < n implies #[trigger] ready2[m] == (ready0[m] && !done2[m]) by {
        assert(ready[m] == (ready0[m] && !done[m]));
    }
}

/// At the end of a round, what still waits waits on something placed in it
/// or not placed at all.
proof fn lemma_round_end(
    ops: Seq<Operation>,
    tv: Seq<Seq<Option<usize>>>,
    done0: Seq<bool>,
    ready0: Seq<bool>,
    done: Seq<bool>,
    ready: Seq<bool>,
    lvl: Seq<int>,
    r: int,
)
    requires
        round_ok(ops, tv, done0, ready0, done, ready, lvl, r),
        r >= 0,
        forall|k: int| 0 <= k < ops.len() ==> !#[trigger] ready[k],
        done.len() == ops.len(),
        forall|m: int, d: int|
            #![trigger tv[m][d]]
            0 <= m < ops.len() && 0 <= d < tv[m].len() ==> match tv[m][d] {
                Some(j) => j < ops.len(),
                None => true,
            },
        forall|m: int| 0 <= m < ops.len() ==> #[trigger] tv[m].len() == ops[m].dependencies@.len(),
    ensures
        waits_since(ops, tv, done, lvl, r + 1),
        forall|m: int| 0 <= m < ops.len() && #[trigger] done[m] ==> 0 <= lvl[m] < r + 1,
{
    assert forall|m: int|
        0 <= m < ops.len() && kept(ops, m) && !#[trigger] done[m] && r + 1 > 0 implies exists|d: int|
            #![trigger ops[m].dependencies@[d]]
            0 <= d < ops[m].dependencies@.len() && required(ops[m].dependencies@[d]) && (tv[m][d] is None
                || !done[tv[m][d]->0 as int] || lvl[tv[m][d]->0 as int] == r) by {
        assert(!done0[m]);
        assert(!ready[m]);
        assert(!ready0[m]);
        assert(!deps_placed(ops, tv, done0, m));
        let d = choose|d: int|
            #![trigger ops[m].dependencies@[d]]
            !(0 <= d < ops[m].dependencies@.len() && required(ops[m].dependencies@[d]) ==> {
                &&& tv[m][d] is Some
                &&& done0[tv[m][d]->0 as int]
            });
        if tv[m][d] is Some && done[tv[m][d]->0 as int] {
            let t = tv[m][d]->0 as int;
            assert(tv[m][d] == tv[m][d]);
            assert(t < ops.len());
            assert(!done0[t]);
        }
    }
    assert forall|m: int| 0 <= m < ops.len() && #[trigger] done[m] implies 0 <= lvl[m] < r + 1 by {
        if done0[m] {
        } else {
            assert(lvl[m] == r);
        }
    }
}

proof fn lemma_place_step(
    ops: Seq<Operation>,
    fallback: u64,
    tv: Seq<Seq<Option<usize>>>,
    done: Seq<bool>,
    starts: Seq<u64>,
    ends: Seq<u64>,
    pos: Seq<int>,
    cnt: int,
    spent: int,
    cnt0: int,
    b: int,
    s: u64,
    e: u64,
)
    requires
        placed_ok(ops, fallback, tv, done, starts, ends, pos, cnt, spent),
        0 <= b < ops.len(),
        kept(ops, b),
        !done[b],
        cnt0 <= cnt,
        forall|d: int|
            #![trigger ops[b].dependencies@[d]]
            0 <= d < ops[b].dependencies@.len() && required(ops[b].dependencies@[d]) ==> {
                &&& tv[b][d] is Some
                &&& done[tv[b][d]->0 as int]
                &&& pos[tv[b][d]->0 as int] < cnt0
            },
        e == s + dur(ops, fallback, b),
        e <= spent + cost(ops[b], fallback),
        forall|d: int|
            #![trigger ops[b].dependencies@[d]]
            0 <= d < ops[b].dependencies@.len() && required(ops[b].dependencies@[d]) ==> {
                let dep = ops[b].dependencies@[d];
                let j = tv[b][d]->0 as int;
                s >= constraint(dep.kind, lag_of(dep), starts[j] as int, ends[j] as int, dur(ops, fallback, b))
            },
        forall|j: int|
            0 <= j < ops.len() && #[trigger] done[j] && ops_conflict(ops[b], ops[j]) ==> !overlaps(
                s as int,
                e as int,
                starts[j] as int,
                ends[j] as int,
            ),
        justified_slot(ops, fallback, tv, done, starts, ends, b, s as int),
        earliest_slot(ops, fallback, tv, done, starts, ends, pos, cnt, b, s as int),
    ensures
        placed_ok(
            ops,
            fallback,
            tv,
            done.update(b, true),
            starts.update(b, s),
            ends.update(b, e),
            pos.update(b, cnt),
            cnt + 1,
            spent + cost(ops[b], fallback),
        ),
{
    let n = ops.len();
    let done2 = done.update(b, true);
    let starts2 = starts.update(b, s);
    let ends2 = ends.update(b, e);
    let pos2 = pos.update(b, cnt);
    let spent2 = spent + cost(ops[b], fallback);
    lemma_cost_nonneg(ops[b], fallback);
    lemma_done_cost_set(ops, done, fallback, b, n as int);
    lemma_n_true_set(done, b, true);
    assert forall|i: int| 0 <= i < n && #[trigger] done2[i] implies ends2[i] == starts2[i] + dur(
        ops,
        fallback,
        i,
    ) && ends2[i] <= spent2 && 0 <= pos2[i] < cnt + 1 by {
        if i != b {
            assert(done[i]);
        }
    }
    assert forall|i: int| 0 <= i < n && #[trigger] done2[i] implies kept(ops, i) by {
        if i != b {
            assert(done[i]);
        }
    }
    assert forall|i: int, d: int|
        #![trigger done2[i], ops[i].dependencies@[d]]
        0 <= i < n && done2[i] && 0 <= d < ops[i].dependencies@.len() && required(
            ops[i].dependencies@[d],
        ) implies {
            let dep = ops[i].dependencies@[d];
            &&& tv[i][d] is Some
            &&& {
                let j = tv[i][d]->0 as int;
                &&& done2[j]
                &&& pos2[j] < pos2[i]
                &&& starts2[i] >= constraint(
                    dep.kind,
                    lag_of(dep),
                    starts2[j] as int,
                    ends2[j] as int,
                    dur(ops, fallback, i),
                )
            }
        } by {
        if i == b {
            let j = tv[b][d]->0 as int;
            assert(done[j]);
            assert(j != b);
        } else {
            assert(done[i]);
            let j = tv[i][d]->0 as int;
            assert(done[j]);
            assert(j != b);
        }
    }
    assert forall|i: int, j: int|
        #![trigger done2[i], done2[j]]
        0 <= i < n && 0 <= j < n && i != j && done2[i] && done2[j] && ops_conflict(ops[i], ops[j])
            implies !overlaps(starts2[i] as int, ends2[i] as int, starts2[j] as int, ends2[j] as int) by {
        if i == b {
            assert(done[j]);
        } else if j == b {
            assert(done[i]);
            lemma_conflict_symmetric(ops[i], ops[j]);
        } else {
            assert(done[i] && done[j]);
        }
    }
    assert forall|i: int| 0 <= i < n && #[trigger] done2[i] implies justified_slot(
        ops,
        fallback,
        tv,
        done2,
        starts2,
        ends2,
        i,
        starts2[i] as int,
    ) by {
        if i == b {
            assert forall|d: int|
                #![trigger ops[b].dependencies@[d]]
                0 <= d < ops[b].dependencies@.len() && required(ops[b].dependencies@[d]) implies {
                    &&& tv[b][d] is Some
                    &&& done[tv[b][d]->0 as int]
                    &&& tv[b][d]->0 < ops.len()
                } by {
                assert(tv[b][d] is Some);
            }
            lemma_justified_kept(ops, fallback, tv, done, starts, ends, b, s as int, b, s, e);
        } else {
            assert(done[i]);
            assert forall|d: int|
                #![trigger ops[i].dependencies@[d]]
                0 <= d < ops[i].dependencies@.len() && required(ops[i].dependencies@[d]) implies {
                    &&& tv[i][d] is Some
                    &&& done[tv[i][d]->0 as int]
                    &&& tv[i][d]->0 < ops.len()
                } by {
                assert(done[i]);
            }
            lemma_justified_kept(ops, fallback, tv, done, starts, ends, i, starts[i] as int, b, s, e);
        }
    }
    assert forall|i: int| 0 <= i < n && #[trigger] done2[i] implies earliest_slot(
        ops,
        fallback,
        tv,
        done2,
        starts2,
        ends2,
        pos2,
        pos2[i],
        i,
        starts2[i] as int,
    ) by {
        if i == b {
            assert forall|d: int|
                #![trigger ops[b].dependencies@[d]]
                0 <= d < ops[b].dependencies@.len() && required(ops[b].dependencies@[d]) implies {
                    &&& tv[b][d] is Some
                    &&& done[tv[b][d]->0 as int]
                    &&& tv[b][d]->0 < ops.len()
                } by {
                assert(tv[b][d] is Some);
            }
            lemma_earliest_kept(ops, fallback, tv, done, starts, ends, pos, cnt, b, s as int, b, s, e, cnt);
        } else {
            assert(done[i]);
            assert forall|d: int|
                #![trigger ops[i].dependencies@[d]]
                0 <= d < ops[i].dependencies@.len() && required(ops[i].dependencies@[d]) implies {
                    &&& tv[i][d] is Some
                    &&& done[tv[i][d]->0 as int]
                    &&& tv[i][d]->0 < ops.len()
                } by {
                assert(done[i]);
            }
            lemma_earliest_kept(ops, fallback, tv, done, starts, ends, pos, pos[i], i, starts[i] as int, b, s, e, cnt);
        }
    }
}

/// The bound dependencies set only reads the slots of their targets.
proof fn lemma_dep_bound_frame(
    ops: Seq<Operation>,
    fallback: u64,
    tv: Seq<Seq<Option<usize>>>,
    starts: Seq<u64>,
    ends: Seq<u64>,
    starts2: Seq<u64>,
    ends2: Seq<u64>,
    i: int,
    d: int,
)
    requires
        d <= ops[i].dependencies@.len(),
        forall|k: int|
            #![trigger ops[i].dependencies@[k]]
            0 <= k < ops[i].dependencies@.len() && required(ops[i].dependencies@[k]) ==> {
                &&& starts2[tv[i][k]->0 as int] == starts[tv[i][k]->0 as int]
                &&& ends2[tv[i][k]->0 as int] == ends[tv[i][k]->0 as int]
            },
    ensures
        dep_bound_upto(ops, fallback, tv, starts2, ends2, i, d) == dep_bound_upto(ops, fallback, tv, starts, ends, i, d),
    decreases d,
{
    if d > 0 {
        lemma_dep_bound_frame(ops, fallback, tv, starts, ends, starts2, ends2, i, d - 1);
        let dep = ops[i].dependencies@[d - 1];
        if required(dep) {
            assert(starts2[tv[i][d - 1]->0 as int] == starts[tv[i][d - 1]->0 as int]);
        }
    }
}

/// An earliest slot stays earliest when one more operation, not among those
/// it leans on, is placed.
proof fn lemma_earliest_kept(
    ops: Seq<Operation>,
    fallback: u64,
    tv: Seq<Seq<Option<usize>>>,
    done: Seq<bool>,
    starts: Seq<u64>,
    ends: Seq<u64>,
    pos: Seq<int>,
    before: int,
    i: int,
    x: int,
    b: int,
    s: u64,
    e: u64,
    p: int,
)
    requires
        earliest_slot(ops, fallback, tv, done, starts, ends, pos, before, i, x),
        0 <= b < done.len(),
        0 <= i < ops.len(),
        done.len() == ops.len() && starts.len() == ops.len() && ends.len() == ops.len() && pos.len() == ops.len(),
        !done[b],
        forall|d: int|
            #![trigger ops[i].dependencies@[d]]
            0 <= d < ops[i].dependencies@.len() && required(ops[i].dependencies@[d]) ==> {
                &&& tv[i][d] is Some
                &&& done[tv[i][d]->0 as int]
                &&& tv[i][d]->0 < ops.len()
            },
    ensures
        earliest_slot(
            ops,
            fallback,
            tv,
            done.update(b, true),
            starts.update(b, s),
            ends.update(b, e),
            pos.update(b, p),
            before,
            i,
            x,
        ),
{
    let done2 = done.update(b, true);
    let starts2 = starts.update(b, s);
    let ends2 = ends.update(b, e);
    let pos2 = pos.update(b, p);
    assert forall|k: int|
        #![trigger ops[i].dependencies@[k]]
        0 <= k < ops[i].dependencies@.len() && required(ops[i].dependencies@[k]) implies {
            &&& starts2[tv[i][k]->0 as int] == starts[tv[i][k]->0 as int]
            &&& ends2[tv[i][k]->0 as int] == ends[tv[i][k]->0 as int]
        } by {
        assert(tv[i][k]->0 != b);
    }
    lemma_dep_bound_frame(ops, fallback, tv, starts, ends, starts2, ends2, i, ops[i].dependencies@.len() as int);
    let lo = dep_bound(ops, fallback, tv, starts, ends, i);
    assert forall|t: int| lo <= t < x implies #[trigger] collides(
        ops,
        fallback,
        done2,
        starts2,
        ends2,
        pos2,
        before,
        i,
        t,
    ) by {
        assert(collides(ops, fallback, done, starts, ends, pos, before, i, t));
        let j = choose|j: int|
            #![trigger done[j], pos[j]]
            0 <= j < ops.len() && done[j] && pos[j] < before && ops_conflict(ops[i], ops[j]) && overlaps(
                t,
                t + dur(ops, fallback, i),
                starts[j] as int,
                ends[j] as int,
            );
        assert(j != b);
        assert(done2[j] && pos2[j] == pos[j] && starts2[j] == starts[j] && ends2[j] == ends[j]);
    }
}

/// A justified slot stays justified when one more operation, not among
/// those it leans on, is placed.
proof fn lemma_justified_kept(
    ops: Seq<Operation>,
    fallback: u64,
    tv: Seq<Seq<Option<usize>>>,
    done: Seq<bool>,
    starts: Seq<u64>,
    ends: Seq<u64>,
    i: int,
    x: int,
    b: int,
    s: u64,
    e: u64,
)
    requires
        justified_slot(ops, fallback, tv, done, starts, ends, i, x),
        0 <= b < done.len(),
        done.len() == ops.len() && starts.len() == ops.len() && ends.len() == ops.len(),
        !done[b],
        forall|d: int|
            #![trigger ops[i].dependencies@[d]]
            0 <= d < ops[i].dependencies@.len() && required(ops[i].dependencies@[d]) ==> {
                &&& tv[i][d] is Some
                &&& done[tv[i][d]->0 as int]
                &&& tv[i][d]->0 < ops.len()
            },
    ensures
        justified_slot(
            ops,
            fallback,
            tv,
            done.update(b, true),
            starts.update(b, s),
            ends.update(b, e),
            i,
            x,
        ),
{
    let done2 = done.update(b, true);
    let starts2 = starts.update(b, s);
    let ends2 = ends.update(b, e);
    if x == 0 {
    } else if exists|d: int|
        #![trigger ops[i].dependencies@[d]]
        0 <= d < ops[i].dependencies@.len() && required(ops[i].dependencies@[d]) && x == constraint(
            ops[i].dependencies@[d].kind,
            lag_of(ops[i].dependencies@[d]),
            starts[tv[i][d]->0 as int] as int,
            ends[tv[i][d]->0 as int] as int,
            dur(ops, fallback, i),
        ) {
        let d = choose|d: int|
            #![trigger ops[i].dependencies@[d]]
            0 <= d < ops[i].dependencies@.len() && required(ops[i].dependencies@[d]) && x == constraint(
                ops[i].dependencies@[d].kind,
                lag_of(ops[i].dependencies@[d]),
                starts[tv[i][d]->0 as int] as int,
                ends[tv[i][d]->0 as int] as int,
                dur(ops, fallback, i),
            );
        let j = tv[i][d]->0 as int;
        assert(done[j]);
        assert(j != b);
        assert(starts2[j] == starts[j] && ends2[j] == ends[j]);
    } else {
        let j = choose|j: int|
            #![trigger done[j]]
            0 <= j < ops.len() && done[j] && j != i && ops_conflict(ops[i], ops[j]) && ends[j] == x;
        assert(done2[j] && ends2[j] == x);
    }
}

/// With nothing ready and something waiting, the waiting operations are
/// stuck.
proof fn lemma_stuck_witness(
    ops: Seq<Operation>,
    fallback: u64,
    tv: Seq<Seq<Option<usize>>>,
    keep: Seq<bool>,
    done: Seq<bool>,
    starts: Seq<u64>,
    ends: Seq<u64>,
    pos: Seq<int>,
    cnt: int,
    spent: int,
    w: int,
)
    requires
        placed_ok(ops, fallback, tv, done, starts, ends, pos, cnt, spent),
        keep.len() == ops.len(),
        forall|k: int| 0 <= k < ops.len() ==> #[trigger] keep[k] == kept(ops, k),
        0 <= w < ops.len(),
        keep[w] && !done[w],
        forall|k: int|
            0 <= k < ops.len() && #[trigger] keep[k] && !done[k] ==> !deps_placed(ops, tv, done, k),
    ensures
        stuck(ops, Set::new(|k: int| 0 <= k < ops.len() && keep[k] && !done[k])),
{
    let u = Set::new(|k: int| 0 <= k < ops.len() && keep[k] && !done[k]);
    assert(u.contains(w));
    assert forall|i: int| u.contains(i) implies kept(ops, i) && blocked(ops, i, u) by {
        assert(keep[i]);
        assert(!deps_placed(ops, tv, done, i));
        let d = choose|d: int|
            #![trigger ops[i].dependencies@[d]]
            0 <= d < ops[i].dependencies@.len() && required(ops[i].dependencies@[d]) && !(
            tv[i][d] is Some && done[tv[i][d]->0 as int]);
        assert forall|j: int| resolves(ops, dep_target(ops[i].dependencies@[d]), j) implies u.contains(
            j,
        ) by {
            match tv[i][d] {
                Some(t) => {
                    lemma_resolves_unique(ops, dep_target(ops[i].dependencies@[d]), j, t as int);
                    assert(keep[j]);
                },
                None => {},
            }
        }
        assert(ops[i].dependencies@[d] == ops[i].dependencies@[d]);
    }
}

/// What placing every operation gives: each has a position, and each
/// required predecessor comes earlier.
proof fn lemma_placed_facts(
    ops: Seq<Operation>,
    fallback: u64,
    tv: Seq<Seq<Option<usize>>>,
    keep: Seq<bool>,
    starts: Seq<u64>,
    ends: Seq<u64>,
    pos: Seq<int>,
    cnt: int,
    spent: int,
)
    requires
        placed_ok(ops, fallback, tv, keep, starts, ends, pos, cnt, spent),
        keep.len() == ops.len(),
        forall|k: int| 0 <= k < ops.len() ==> #[trigger] keep[k] == kept(ops, k),
    ensures
        forall|i: int| kept(ops, i) ==> pos[i] >= 0,
        forall|i: int, d: int|
            #![trigger ops[i].dependencies@[d]]
            kept(ops, i) && 0 <= d < ops[i].dependencies@.len() && required(ops[i].dependencies@[d])
                ==> resolves(ops, dep_target(ops[i].dependencies@[d]), tv[i][d]->0 as int) && pos[tv[i][d]->0 as int] < pos[i],
{
    assert forall|i: int| kept(ops, i) implies pos[i] >= 0 by {
        assert(keep[i]);
    }
    assert forall|i: int, d: int|
        #![trigger ops[i].dependencies@[d]]
        kept(ops, i) && 0 <= d < ops[i].dependencies@.len() && required(ops[i].dependencies@[d])
            implies resolves(ops, dep_target(ops[i].dependencies@[d]), tv[i][d]->0 as int) && pos[tv[i][d]->0 as int] < pos[i] by {
        assert(keep[i]);
        assert(tv[i].len() == ops[i].dependencies@.len());
    }
}

/// When every operation has an earlier position than what depends on it,
/// nothing is stuck.
proof fn lemma_placed_not_stuck(ops: Seq<Operation>, tv: Seq<Seq<Option<usize>>>, pos: Seq<int>)
    requires
        forall|i: int| kept(ops, i) ==> pos[i] >= 0,
        forall|i: int, d: int|
            #![trigger ops[i].dependencies@[d]]
            kept(ops, i) && 0 <= d < ops[i].dependencies@.len() && required(ops[i].dependencies@[d])
                ==> resolves(ops, dep_target(ops[i].dependencies@[d]), tv[i][d]->0 as int) && pos[tv[i][d]->0 as int] < pos[i],
    ensures
        schedulable(ops),
{
    if exists|u: Set<int>| stuck(ops, u) {
        let u = choose|u: Set<int>| stuck(ops, u);
        let w = choose|i: int| u.contains(i);
        lemma_not_stuck_below(ops, tv, pos, u, pos[w] + 1);
    }
}

#[verifier::rlimit(50)]
proof fn lemma_not_stuck_below(
    ops: Seq<Operation>,
    tv: Seq<Seq<Option<usize>>>,
    pos: Seq<int>,
    u: Set<int>,
    r: int,
)
    requires
        forall|i: int| kept(ops, i) ==> pos[i] >= 0,
        forall|i: int, d: int|
            #![trigger ops[i].dependencies@[d]]
            kept(ops, i) && 0 <= d < ops[i].dependencies@.len() && required(ops[i].dependencies@[d])
                ==> resolves(ops, dep_target(ops[i].dependencies@[d]), tv[i][d]->0 as int) && pos[tv[i][d]->0 as int] < pos[i],
        stuck(ops, u),
        0 <= r,
    ensures
        forall|i: int| u.contains(i) ==> pos[i] >= r,
    decreases r,
{
    if r > 0 {
        lemma_not_stuck_below(ops, tv, pos, u, r - 1);
        assert forall|i: int| u.contains(i) implies pos[i] >= r by {
            assert(kept(ops, i) && blocked(ops, i, u));
            let d = choose|d: int|
                #![trigger ops[i].dependencies@[d]]
                0 <= d < ops[i].dependencies@.len() && required(ops[i].dependencies@[d]) && forall|j: int|
                    resolves(ops, dep_target(ops[i].dependencies@[d]), j) ==> u.contains(j);
            let j = tv[i][d]->0 as int;
            assert(resolves(ops, dep_target(ops[i].dependencies@[d]), j));
            assert(u.contains(j));
        }
    } else {
        assert forall|i: int| u.contains(i) implies pos[i] >= r by {
            assert(kept(ops, i));
        }
    }
}


/// The facts about `keep` and `targets` that the rounds rely on.
pub open spec fn tables_ok(
    ops: Seq<Operation>,
    keep: Seq<bool>,
    tv: Seq<Seq<Option<usize>>>,
) -> bool {
    &&& keep.len() == ops.len()
    &&& forall|k: int| 0 <= k < ops.len() ==> #[trigger] keep[k] == kept(ops, k)
    &&& tv.len() == ops.len()
    &&& forall|i: int| 0 <= i < ops.len() ==> #[trigger] tv[i].len() == ops[i].dependencies@.len()
    &&& forall|i: int, d: int|
        #![trigger tv[i][d]]
        0 <= i < ops.len() && 0 <= d < tv[i].len() ==> match tv[i][d] {
            Some(j) => resolves(ops, dep_target(ops[i].dependencies@[d]), j as int),
            None => forall|j: int| !resolves(ops, dep_target(ops[i].dependencies@[d]), j),
        }
}

/// The targets' tables as sequences.
pub open spec fn target_views(targets: Seq<Vec<Option<usize>>>) -> Seq<Seq<Option<usize>>> {
    targets.map_values(|t: Vec<Option<usize>>| t@)
}

/// Place every operation, or report that some can never start. On success
/// the slots come with the positions in which they were placed.
pub fn place_all(
    ops: &Vec<Operation>,
    fallback: u64,
    keep: &Vec<bool>,
    targets: &Vec<Vec<Option<usize>>>,
) -> (r: Option<(Vec<u64>, Vec<u64>, Ghost<Seq<int>>, Ghost<Seq<int>>)>)
    requires
        tables_ok(ops@, keep@, targets@.map_values(|t: Vec<Option<usize>>| t@)),
        total_cost(ops@, fallback) <= u64::MAX,
    ensures
        r is None <==> !schedulable(ops@),
        r matches Some((starts, ends, pos, lvl)) ==> placed_ok(
            ops@,
            fallback,
            targets@.map_values(|t: Vec<Option<usize>>| t@),
            keep@,
            starts@,
            ends@,
            pos@,
            n_true(keep@) as int,
            done_cost(ops@, keep@, fallback, ops@.len() as int),
        ),
        r matches Some((starts, ends, pos, lvl)) ==> levels_ok(ops@, target_views(targets@), keep@, pos@, lvl@),
{
    let ghost tv = targets@.map_values(|t: Vec<Option<usize>>| t@);
    let n = ops.len();
    let mut done: Vec<bool> = Vec::new();
    let mut starts: Vec<u64> = Vec::new();
    let mut ends: Vec<u64> = Vec::new();
    let mut k: usize = 0;
    while k < n
        invariant
            n == ops@.len(),
            k <= n,
            done@.len() == k && starts@.len() == k && ends@.len() == k,
            forall|m: int| 0 <= m < k ==> !#[trigger] done@[m],
        decreases n - k,
    {
        done.push(false);
        starts.push(0);
        ends.push(0);
        k = k + 1;
    }
    let ghost mut pos: Seq<int> = Seq::new(n as nat, |i: int| 0);
    let ghost mut cnt: int = 0;
    let ghost mut spent: int = 0;
    let ghost mut lvl: Seq<int> = Seq::new(n as nat, |i: int| 0);
    let ghost mut round: int = 0;
    proof {
        assert(done@ =~= Seq::new(n as nat, |i: int| false));
        lemma_n_true_zero(done@);
        lemma_done_cost_zero(ops@, done@, fallback, n as int);
        assert(ops@.take(n as int) =~= ops@);
        assert forall|i: int, d: int|
            #![trigger tv[i][d]]
            0 <= i < n && 0 <= d < tv[i].len() implies match tv[i][d] {
                Some(j) => resolves(ops@, dep_target(ops@[i].dependencies@[d]), j as int),
                None => forall|j: int| !resolves(ops@, dep_target(ops@[i].dependencies@[d]), j),
            } by {
        }
    }
    loop
        invariant
            n == ops@.len(),
            tv == targets@.map_values(|t: Vec<Option<usize>>| t@),
            tables_ok(ops@, keep@, tv),
            total_cost(ops@, fallback) <= u64::MAX,
            ops@.take(n as int) == ops@,
            placed_ok(ops@, fallback, tv, done@, starts@, ends@, pos, cnt, spent),
            levels_ok(ops@, tv, done@, pos, lvl),
            waits_since(ops@, tv, done@, lvl, round),
            round >= 0,
            forall|m: int| 0 <= m < n && #[trigger] done@[m] ==> 0 <= lvl[m] < round,
        ensures
            placed_ok(ops@, fallback, tv, done@, starts@, ends@, pos, cnt, spent),
            levels_ok(ops@, tv, done@, pos, lvl),
            forall|m: int| 0 <= m < n ==> #[trigger] done@[m] == keep@[m],
        decreases n - cnt,
    {
        let mut ready: Vec<bool> = Vec::new();
        let mut any_waiting = false;
        let mut any_ready = false;
        let mut waiting_at: usize = 0;
        let mut ready_at: usize = 0;
        let mut i: usize = 0;
        while i < n
            invariant
                n == ops@.len(),
                tv == targets@.map_values(|t: Vec<Option<usize>>| t@),
                tables_ok(ops@, keep@, tv),
                placed_ok(ops@, fallback, tv, done@, starts@, ends@, pos, cnt, spent),
                i <= n,
                ready@.len() == i,
                forall|m: int|
                    0 <= m < i ==> #[trigger] ready@[m] == (keep@[m] && !done@[m] && deps_placed(
                        ops@,
                        tv,
                        done@,
                        m,
                    )),
                any_waiting ==> waiting_at < n && keep@[waiting_at as int] && !done@[waiting_at as int],
                !any_waiting ==> forall|m: int| 0 <= m < i ==> !(#[trigger] keep@[m] && !done@[m]),
                any_ready ==> ready_at < i && ready@[ready_at as int],
                !any_ready ==> forall|m: int| 0 <= m < i ==> !#[trigger] ready@[m],
            decreases n - i,
        {
            proof {
                assert(tv[i as int] == targets@[i as int]@);
                assert forall|d: int| 0 <= d < targets@[i as int]@.len() implies match #[trigger] targets@[i as int]@[d] {
                    Some(j) => j < done@.len(),
                    None => true,
                } by {
                    assert(tv[i as int][d] == targets@[i as int]@[d]);
                }
            }
            let waiting = keep[i] && !done[i];
            let r = waiting && deps_ready(ops, targets, &done, i);
            if waiting {
                any_waiting = true;
                waiting_at = i;
            }
            if r {
                any_ready = true;
                ready_at = i;
            }
            ready.push(r);
            proof {
                assert(ready@[i as int] == r);
            }
            i = i + 1;
        }
        if !any_waiting {
            proof {
                assert forall|m: int| 0 <= m < n implies #[trigger] done@[m] == keep@[m] by {
                    if done@[m] {
                        assert(kept(ops@, m));
                    }
                }
            }
            break;
        }
        if !any_ready {
            proof {
                assert forall|m: int|
                    0 <= m < n && #[trigger] keep@[m] && !done@[m] implies !deps_placed(ops@, tv, done@, m) by {
                    assert(!ready@[m]);
                }
                lemma_stuck_witness(ops@, fallback, tv, keep@, done@, starts@, ends@, pos, cnt, spent, waiting_at as int);
            }
            return None;
        }
        let ghost cnt0 = cnt;
        let ghost done0 = done@;
        let ghost ready0 = ready@;
        proof {
            lemma_n_true_bound(done@);
            assert(ready@[ready_at as int]);
            assert forall|m: int| 0 <= m < n && #[trigger] ready0[m] implies kept(ops@, m) && !done0[m] && deps_placed(ops@, tv, done0, m) by {
                assert(keep@[m]);
            }
            assert forall|m: int| 0 <= m < n && kept(ops@, m) && !done0[m] && !#[trigger] ready0[m] implies !deps_placed(ops@, tv, done0, m) by {
                assert(keep@[m]);
            }
            assert(round_ok(ops@, tv, done0, ready0, done@, ready@, lvl, round));
        }
        loop
            invariant
                n == ops@.len(),
                tv == targets@.map_values(|t: Vec<Option<usize>>| t@),
                tables_ok(ops@, keep@, tv),
                total_cost(ops@, fallback) <= u64::MAX,
                ops@.take(n as int) == ops@,
                placed_ok(ops@, fallback, tv, done@, starts@, ends@, pos, cnt, spent),
                ready@.len() == n,
                cnt0 <= cnt <= n,
                any_ready ==> cnt == cnt0,
                !any_ready ==> cnt > cnt0,
                forall|m: int|
                    0 <= m < n && #[trigger] ready@[m] ==> keep@[m] && !done@[m] && forall|d: int|
                        #![trigger ops@[m].dependencies@[d]]
                        0 <= d < ops@[m].dependencies@.len() && required(ops@[m].dependencies@[d]) ==> {
                            &&& tv[m][d] is Some
                            &&& done@[tv[m][d]->0 as int]
                            &&& pos[tv[m][d]->0 as int] < cnt0
                        },
                any_ready ==> exists|m: int| 0 <= m < n && #[trigger] ready@[m],
                levels_ok(ops@, tv, done@, pos, lvl),
                waits_since(ops@, tv, done0, lvl, round),
                round_ok(ops@, tv, done0, ready0, done@, ready@, lvl, round),
                round >= 0,
            ensures
                placed_ok(ops@, fallback, tv, done@, starts@, ends@, pos, cnt, spent),
                cnt > cnt0,
                levels_ok(ops@, tv, done@, pos, lvl),
                round_ok(ops@, tv, done0, ready0, done@, ready@, lvl, round),
                forall|k: int| 0 <= k < n ==> !#[trigger] ready@[k],
            decreases n_true(ready@),
        {
            let b = match pick_ready(ops, &ready) {
                Some(b) => b,
                None => {
                    break;
                },
            };
            proof {
                assert(ready@[b as int]);
                lemma_done_cost_set(ops@, done@, fallback, b as int, n as int);
                lemma_done_cost_bound(ops@, done@.update(b as int, true), fallback, n as int);
                assert forall|d: int|
                    #![trigger ops@[b as int].dependencies@[d]]
                    0 <= d < ops@[b as int].dependencies@.len() && required(ops@[b as int].dependencies@[d]) implies {
                        &&& targets@[b as int]@[d] is Some
                        &&& done@[targets@[b as int]@[d]->0 as int]
                    } by {
                    assert(tv[b as int][d] == targets@[b as int]@[d]);
                }
            }
            let (s, e) = place_one(ops, fallback, targets, &done, &starts, &ends, b, Ghost(pos), Ghost(cnt), Ghost(spent));
            proof {
                assert forall|d: int|
                    #![trigger ops@[b as int].dependencies@[d]]
                    0 <= d < ops@[b as int].dependencies@.len() && required(ops@[b as int].dependencies@[d]) implies {
                        let dep = ops@[b as int].dependencies@[d];
                        let j = tv[b as int][d]->0 as int;
                        s >= constraint(dep.kind, lag_of(dep), starts@[j] as int, ends@[j] as int, dur(ops@, fallback, b as int))
                    } by {
                    assert(tv[b as int][d] == targets@[b as int]@[d]);
                }
                lemma_place_step(ops@, fallback, tv, done@, starts@, ends@, pos, cnt, spent, cnt0, b as int, s, e);
                lemma_round_place(ops@, fallback, tv, done0, ready0, done@, ready@, starts@, ends@, pos, cnt, spent, lvl, round, b as int);
                lemma_n_true_set(ready@, b as int, false);
                lemma_n_true_set(done@, b as int, true);
                lemma_n_true_bound(done@.update(b as int, true));
            }
            let ghost old_done = done@;
            done.set(b, true);
            starts.set(b, s);
            ends.set(b, e);
            ready.set(b, false);
            any_ready = false;
            proof {
                spent = spent + cost(ops@[b as int], fallback);
                pos = pos.update(b as int, cnt);
                lvl = lvl.update(b as int, round);
                cnt = cnt + 1;
                assert forall|m: int|
                    0 <= m < n && #[trigger] ready@[m] implies keep@[m] && !done@[m] && forall|d: int|
                        #![trigger ops@[m].dependencies@[d]]
                        0 <= d < ops@[m].dependencies@.len() && required(ops@[m].dependencies@[d]) ==> {
                            &&& tv[m][d] is Some
                            &&& done@[tv[m][d]->0 as int]
                            &&& pos[tv[m][d]->0 as int] < cnt0
                        } by {
                    assert(m != b);
                    assert forall|d: int|
                        #![trigger ops@[m].dependencies@[d]]
                        0 <= d < ops@[m].dependencies@.len() && required(ops@[m].dependencies@[d]) implies {
                            &&& tv[m][d] is Some
                            &&& done@[tv[m][d]->0 as int]
                            &&& pos[tv[m][d]->0 as int] < cnt0
                        } by {
                        let j = tv[m][d]->0 as int;
                        assert(old_done[j]);
                        assert(j != b);
                    }
                }
            }
        }
        proof {
            assert forall|m: int, d: int|
                #![trigger tv[m][d]]
                0 <= m < ops@.len() && 0 <= d < tv[m].len() implies match tv[m][d] {
                    Some(j) => j < ops@.len(),
                    None => true,
                } by {
                if let Some(j) = tv[m][d] {
                    assert(resolves(ops@, dep_target(ops@[m].dependencies@[d]), j as int));
                }
            }
            lemma_round_end(ops@, tv, done0, ready0, done@, ready@, lvl, round);
            round = round + 1;
        }
    }
    proof {
        assert(done@ =~= keep@);
        lemma_placed_facts(ops@, fallback, tv, keep@, starts@, ends@, pos, cnt, spent);
        lemma_placed_not_stuck(ops@, tv, pos);
        assert(tv == target_views(targets@));
        assert(levels_ok(ops@, target_views(targets@), keep@, pos, lvl));
    }
    Some((starts, ends, Ghost(pos), Ghost(lvl)))
}

proof fn lemma_n_true_zero(flags: Seq<bool>)
    requires
        forall|k: int| 0 <= k < flags.len() ==> !#[trigger] flags[k],
    ensures
        n_true(flags) == 0,
    decreases flags.len(),
{
    if flags.len() > 0 {
        lemma_n_true_zero(flags.drop_last());
    }
}

proof fn lemma_done_cost_zero(ops: Seq<Operation>, done: Seq<bool>, fallback: u64, k: int)
    requires
        0 <= k <= done.len(),
        forall|m: int| 0 <= m < done.len() ==> !#[trigger] done[m],
    ensures
        done_cost(ops, done, fallback, k) == 0,
    decreases k,
{
    if k > 0 {
        lemma_done_cost_zero(ops, done, fallback, k - 1);
    }
}

pub proof fn lemma_n_true_set_pub(flags: Seq<bool>, i: int, v: bool)
    requires
        0 <= i < flags.len(),
    ensures
        n_true(flags.update(i, v)) + (if flags[i] {
            1int
        } else {
            0int
        }) == n_true(flags) + (if v {
            1int
        } else {
            0int
        }),
{
    lemma_n_true_set(flags, i, v);
}

pub proof fn lemma_n_true_bound_pub(flags: Seq<bool>)
    ensures
        n_true(flags) <= flags.len(),
{
    lemma_n_true_bound(flags);
}

pub proof fn lemma_n_true_zero_pub(flags: Seq<bool>)
    requires
        forall|k: int| 0 <= k < flags.len() ==> !#[trigger] flags[k],
    ensures
        n_true(flags) == 0,
{
    lemma_n_true_zero(flags);
}
} // verus!
