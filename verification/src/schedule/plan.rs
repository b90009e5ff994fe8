//! The schedule of a recipe: every operation on a timeline, its makespan and
//! its critical path.

use vstd::prelude::*;
use vstd::utf8::encode_utf8;
use crate::application::error::ApplicationError;
use crate::model::{Operation, Recipe};
use crate::schedule::critical::{ScheduledOperation, critical, critical_path};
use crate::schedule::parts::{
    bytes_lt, constraint, duration_seconds, lag_of, last_segment_of, lemma_lex_asymmetric,
    lex_lt, ops_conflict, overlaps, spec_duration, total_cost,
};
use crate::schedule::rounds::{
    collides, dep_bound, dep_bound_upto, dep_target, dep_targets, done_cost, dur, earliest_slot,
    justified_slot, kept, kept_flags, lemma_levels, levels_ok, n_true, place_all, sym_lt,
    target_views,
    placed_ok, lemma_placed_ok, required, resolves, schedulable, tables_ok, lemma_resolves_unique,
};

verus! {

pub struct ScheduleOptions {
    /// The duration of a step that gives none.
    pub default_duration_seconds: u64,
}

pub struct RecipeSchedule {
    /// Ordered by start, then end, then symbol.
    pub operations: Vec<ScheduledOperation>,
    pub makespan_seconds: u64,
    /// Earliest step first.
    pub critical_path: Vec<String>,
}

/// Schedules a recipe along its critical path.
#[derive(Debug, Default, Clone, Copy)]
pub struct CriticalPathScheduler;

/// `e` is operation `op` placed somewhere on the timeline.
pub open spec fn describes(e: ScheduledOperation, op: Operation, fallback: u64) -> bool {
    &&& e.symbol@ == op.symbol@
    &&& e.process@ == op.process@
    &&& e.action@ == op.action@
    &&& e.labor == op.labor
    &&& e.duration_seconds == spec_duration(op, fallback)
    &&& e.end_seconds == e.start_seconds + e.duration_seconds
    &&& e.dependencies@.len() == op.dependencies@.len()
    &&& forall|k: int|
        0 <= k < op.dependencies@.len() ==> #[trigger] e.dependencies@[k]@ == dep_target(
            op.dependencies@[k],
        )
    &&& e.resources@.len() == op.bindings@.len()
    &&& forall|k: int| 0 <= k < op.bindings@.len() ==> #[trigger] e.resources@[k]@ == op.bindings@[k].resource@
}

/// The order of a schedule: by start, then end, then symbol.
pub open spec fn key_lt(a: ScheduledOperation, b: ScheduledOperation) -> bool {
    ||| a.start_seconds < b.start_seconds
    ||| a.start_seconds == b.start_seconds && a.end_seconds < b.end_seconds
    ||| a.start_seconds == b.start_seconds && a.end_seconds == b.end_seconds && lex_lt(
        encode_utf8(a.symbol@),
        encode_utf8(b.symbol@),
    )
}

/// `e` describes some operation that takes part.
pub open spec fn stands_for_some(ops: Seq<Operation>, fallback: u64, e: ScheduledOperation) -> bool {
    exists|i: int| #![trigger ops[i]] kept(ops, i) && describes(e, ops[i], fallback)
}

/// Some entry carries symbol `s`.
pub open spec fn has_entry(outs: Seq<ScheduledOperation>, s: Seq<char>) -> bool {
    exists|k: int| #![trigger outs[k]] 0 <= k < outs.len() && outs[k].symbol@ == s
}

/// One entry per operation that takes part, each describing it.
pub open spec fn covers(ops: Seq<Operation>, fallback: u64, outs: Seq<ScheduledOperation>) -> bool {
    &&& forall|k: int| 0 <= k < outs.len() ==> stands_for_some(ops, fallback, #[trigger] outs[k])
    &&& forall|i: int| kept(ops, i) ==> #[trigger] has_entry(outs, ops[i].symbol@)
    &&& forall|a: int, b: int|
        #![trigger outs[a], outs[b]]
        0 <= a < outs.len() && 0 <= b < outs.len() && a != b ==> outs[a].symbol@ != outs[b].symbol@
}

/// Every required dependency is honoured.
pub open spec fn honours_dependencies(ops: Seq<Operation>, outs: Seq<ScheduledOperation>) -> bool {
    forall|i: int, d: int|
        #![trigger ops[i].dependencies@[d]]
        kept(ops, i) && 0 <= d < ops[i].dependencies@.len() && required(ops[i].dependencies@[d])
            ==> exists|a: int, b: int|
            #![trigger outs[a], outs[b]]
            0 <= a < outs.len() && 0 <= b < outs.len() && outs[a].symbol@ == ops[i].symbol@
                && outs[b].symbol@ == dep_target(ops[i].dependencies@[d]) && outs[a].start_seconds
                >= constraint(
                ops[i].dependencies@[d].kind,
                lag_of(ops[i].dependencies@[d]),
                outs[b].start_seconds as int,
                outs[b].end_seconds as int,
                outs[a].duration_seconds as int,
            )
}

/// Steps that contend for a resource never overlap.
pub open spec fn keeps_apart(ops: Seq<Operation>, outs: Seq<ScheduledOperation>) -> bool {
    forall|a: int, b: int, i: int, j: int|
        #![trigger outs[a], outs[b], ops[i], ops[j]]
        0 <= a < outs.len() && 0 <= b < outs.len() && a != b && kept(ops, i) && kept(ops, j)
            && outs[a].symbol@ == ops[i].symbol@ && outs[b].symbol@ == ops[j].symbol@ && ops_conflict(
            ops[i],
            ops[j],
        ) ==> !overlaps(
            outs[a].start_seconds as int,
            outs[a].end_seconds as int,
            outs[b].start_seconds as int,
            outs[b].end_seconds as int,
        )
}

/// Ordered by start, then end, then symbol.
pub open spec fn ordered(outs: Seq<ScheduledOperation>) -> bool {
    forall|a: int, b: int|
        #![trigger outs[a], outs[b]]
        0 <= a && b == a + 1 && b < outs.len() ==> !key_lt(outs[b], outs[a])
}

/// The makespan is the latest end, and the critical path is the one of
/// these entries.
pub open spec fn summarises(s: RecipeSchedule) -> bool {
    let outs = s.operations@;
    &&& forall|k: int| 0 <= k < outs.len() ==> (#[trigger] outs[k]).end_seconds <= s.makespan_seconds
    &&& (outs.len() == 0 ==> s.makespan_seconds == 0)
    &&& (outs.len() > 0 ==> exists|k: int|
        0 <= k < outs.len() && (#[trigger] outs[k]).end_seconds == s.makespan_seconds)
    &&& s.critical_path@.len() == critical(outs, s.makespan_seconds).len()
    &&& forall|k: int|
        0 <= k < s.critical_path@.len() ==> #[trigger] s.critical_path@[k]@ == critical(
            outs,
            s.makespan_seconds,
        )[k]
}

/// Entry `a` starts at a moment something forces: time zero, the bound one
/// of its required dependencies sets, or the end of another entry it
/// contends with for a resource.
pub open spec fn start_forced(ops: Seq<Operation>, outs: Seq<ScheduledOperation>, a: int) -> bool {
    let e = outs[a];
    ||| e.start_seconds == 0
    ||| exists|i: int, d: int, b: int|
        #![trigger ops[i].dependencies@[d], outs[b]]
        kept(ops, i) && ops[i].symbol@ == e.symbol@ && 0 <= d < ops[i].dependencies@.len()
            && required(ops[i].dependencies@[d]) && 0 <= b < outs.len() && outs[b].symbol@
            == dep_target(ops[i].dependencies@[d]) && e.start_seconds == constraint(
            ops[i].dependencies@[d].kind,
            lag_of(ops[i].dependencies@[d]),
            outs[b].start_seconds as int,
            outs[b].end_seconds as int,
            e.duration_seconds as int,
        )
    ||| exists|b: int, i: int, j: int|
        #![trigger outs[b], ops[i], ops[j]]
        0 <= b < outs.len() && b != a && kept(ops, i) && kept(ops, j) && ops[i].symbol@ == e.symbol@
            && outs[b].symbol@ == ops[j].symbol@ && ops_conflict(ops[i], ops[j])
            && outs[b].end_seconds == e.start_seconds
}

/// No entry starts later than something forces it to.
pub open spec fn starts_forced(ops: Seq<Operation>, outs: Seq<ScheduledOperation>) -> bool {
    forall|a: int| 0 <= a < outs.len() ==> #[trigger] start_forced(ops, outs, a)
}

/// The entry that carries symbol `s`.
pub open spec fn entry_named(outs: Seq<ScheduledOperation>, s: Seq<char>) -> int {
    choose|b: int| 0 <= b < outs.len() && outs[b].symbol@ == s
}

/// The earliest start that the first `d` dependencies of operation `i`,
/// scheduled as entry `a`, allow given the entries they name: the latest of
/// the bounds its required ones set, and 0.
pub open spec fn entry_bound_upto(ops: Seq<Operation>, outs: Seq<ScheduledOperation>, i: int, a: int, d: int) -> int
    decreases d,
{
    if d <= 0 {
        0
    } else {
        let prev = entry_bound_upto(ops, outs, i, a, d - 1);
        let dep = ops[i].dependencies@[d - 1];
        if required(dep) {
            let p = outs[entry_named(outs, dep_target(dep))];
            let c = constraint(
                dep.kind,
                lag_of(dep),
                p.start_seconds as int,
                p.end_seconds as int,
                outs[a].duration_seconds as int,
            );
            if c > prev {
                c
            } else {
                prev
            }
        } else {
            prev
        }
    }
}

pub open spec fn entry_bound(ops: Seq<Operation>, outs: Seq<ScheduledOperation>, i: int, a: int) -> int {
    entry_bound_upto(ops, outs, i, a, ops[i].dependencies@.len() as int)
}

/// Run from `t`, entry `a` (operation `i`) would overlap an entry placed
/// before it that it contends with.
pub open spec fn entry_collides(
    ops: Seq<Operation>,
    outs: Seq<ScheduledOperation>,
    rank: Seq<int>,
    i: int,
    a: int,
    t: int,
) -> bool {
    exists|b: int, j: int|
        #![trigger outs[b], ops[j]]
        0 <= b < outs.len() && rank[b] < rank[a] && kept(ops, j) && outs[b].symbol@ == ops[j].symbol@
            && ops_conflict(ops[i], ops[j]) && overlaps(
            t,
            t + outs[a].duration_seconds,
            outs[b].start_seconds as int,
            outs[b].end_seconds as int,
        )
}

/// Placing the entries in the order `rank`, each required dependency is
/// placed before its dependant, and each entry starts at the earliest moment,
/// from the bound its dependencies set on, at which it overlaps none of the
/// contending entries placed before it.
pub open spec fn placed_earliest(ops: Seq<Operation>, outs: Seq<ScheduledOperation>, rank: Seq<int>) -> bool {
    &&& rank.len() == outs.len()
    &&& forall|a: int, i: int, d: int|
        #![trigger outs[a], ops[i].dependencies@[d]]
        0 <= a < outs.len() && kept(ops, i) && ops[i].symbol@ == outs[a].symbol@ && 0 <= d
            < ops[i].dependencies@.len() && required(ops[i].dependencies@[d]) ==> rank[entry_named(
            outs,
            dep_target(ops[i].dependencies@[d]),
        )] < rank[a]
    &&& forall|a: int, i: int|
        #![trigger outs[a], ops[i]]
        0 <= a < outs.len() && kept(ops, i) && ops[i].symbol@ == outs[a].symbol@ ==> {
            &&& outs[a].start_seconds >= entry_bound(ops, outs, i, a)
            &&& forall|t: int|
                entry_bound(ops, outs, i, a) <= t < outs[a].start_seconds ==> #[trigger] entry_collides(
                    ops,
                    outs,
                    rank,
                    i,
                    a,
                    t,
                )
        }
}

/// `lv` gives each entry its round: the round after the latest round of the
/// entries its required dependencies name (round 0 with none); and `rank`
/// places the entries round by round, each round in symbol order.
pub open spec fn placed_in_rounds(
    ops: Seq<Operation>,
    outs: Seq<ScheduledOperation>,
    rank: Seq<int>,
    lv: Seq<int>,
) -> bool {
    &&& lv.len() == outs.len()
    &&& forall|a: int| 0 <= a < outs.len() ==> #[trigger] lv[a] >= 0
    &&& forall|a: int, i: int, d: int|
        #![trigger outs[a], ops[i].dependencies@[d]]
        0 <= a < outs.len() && kept(ops, i) && ops[i].symbol@ == outs[a].symbol@ && 0 <= d
            < ops[i].dependencies@.len() && required(ops[i].dependencies@[d]) ==> lv[entry_named(
            outs,
            dep_target(ops[i].dependencies@[d]),
        )] < lv[a]
    &&& forall|a: int, i: int|
        #![trigger outs[a], ops[i]]
        0 <= a < outs.len() && kept(ops, i) && ops[i].symbol@ == outs[a].symbol@ && lv[a] > 0 ==> exists|d: int|
            #![trigger ops[i].dependencies@[d]]
            0 <= d < ops[i].dependencies@.len() && required(ops[i].dependencies@[d]) && lv[entry_named(
                outs,
                dep_target(ops[i].dependencies@[d]),
            )] == lv[a] - 1
    &&& forall|a: int, b: int|
        #![trigger outs[a], outs[b]]
        0 <= a < outs.len() && 0 <= b < outs.len() ==> (rank[a] < rank[b] <==> (lv[a] < lv[b] || (lv[a] == lv[b]
            && lex_lt(encode_utf8(outs[a].symbol@), encode_utf8(outs[b].symbol@)))))
}

/// What a successful schedule of `ops` states.
pub open spec fn schedules(ops: Seq<Operation>, fallback: u64, s: RecipeSchedule) -> bool {
    &&& covers(ops, fallback, s.operations@)
    &&& honours_dependencies(ops, s.operations@)
    &&& keeps_apart(ops, s.operations@)
    &&& starts_forced(ops, s.operations@)
    &&& exists|rank: Seq<int>, lv: Seq<int>|
        #![trigger placed_earliest(ops, s.operations@, rank), placed_in_rounds(ops, s.operations@, rank, lv)]
        placed_earliest(ops, s.operations@, rank) && placed_in_rounds(ops, s.operations@, rank, lv)
    &&& ordered(s.operations@)
    &&& summarises(s)
}

fn key_less(a: &ScheduledOperation, b: &ScheduledOperation) -> (r: bool)
    ensures
        r == key_lt(*a, *b),
{
    if a.start_seconds != b.start_seconds {
        return a.start_seconds < b.start_seconds;
    }
    if a.end_seconds != b.end_seconds {
        return a.end_seconds < b.end_seconds;
    }
    bytes_lt(a.symbol.as_str().as_bytes(), b.symbol.as_str().as_bytes())
}

proof fn lemma_key_asymmetric(a: ScheduledOperation, b: ScheduledOperation)
    requires
        key_lt(a, b),
    ensures
        !key_lt(b, a),
{
    if a.start_seconds == b.start_seconds && a.end_seconds == b.end_seconds {
        lemma_lex_asymmetric(encode_utf8(a.symbol@), encode_utf8(b.symbol@));
    }
}

/// The entry for operation `op` placed at `[start, end)`.
fn entry(op: &Operation, start: u64, end: u64, duration: u64) -> (e: ScheduledOperation)
    ensures
        e.symbol@ == op.symbol@,
        e.process@ == op.process@,
        e.action@ == op.action@,
        e.labor == op.labor,
        e.start_seconds == start,
        e.end_seconds == end,
        e.duration_seconds == duration,
        e.dependencies@.len() == op.dependencies@.len(),
        forall|k: int|
            0 <= k < op.dependencies@.len() ==> #[trigger] e.dependencies@[k]@ == dep_target(
                op.dependencies@[k],
            ),
        e.resources@.len() == op.bindings@.len(),
        forall|k: int| 0 <= k < op.bindings@.len() ==> #[trigger] e.resources@[k]@ == op.bindings@[k].resource@,
{
    let mut dependencies: Vec<String> = Vec::new();
    let mut k: usize = 0;
    while k < op.dependencies.len()
        invariant
            k <= op.dependencies@.len(),
            dependencies@.len() == k,
            forall|m: int|
                0 <= m < k ==> #[trigger] dependencies@[m]@ == dep_target(op.dependencies@[m]),
        decreases op.dependencies@.len() - k,
    {
        dependencies.push(last_segment_of(op.dependencies[k].predecessor.as_str()).to_owned());
        k = k + 1;
    }
    let mut resources: Vec<String> = Vec::new();
    let mut k: usize = 0;
    while k < op.bindings.len()
        invariant
            k <= op.bindings@.len(),
            resources@.len() == k,
            forall|m: int| 0 <= m < k ==> #[trigger] resources@[m]@ == op.bindings@[m].resource@,
        decreases op.bindings@.len() - k,
    {
        resources.push(op.bindings[k].resource.clone());
        k = k + 1;
    }
    ScheduledOperation {
        symbol: op.symbol.clone(),
        process: op.process.clone(),
        action: op.action.clone(),
        start_seconds: start,
        end_seconds: end,
        duration_seconds: duration,
        labor: op.labor,
        dependencies,
        resources,
    }
}

/// Entry `e` stands for the kept operation `i`, below `upto`, at its slot.
pub open spec fn entry_ok(
    ops: Seq<Operation>,
    fallback: u64,
    starts: Seq<u64>,
    ends: Seq<u64>,
    e: ScheduledOperation,
    i: int,
    upto: int,
) -> bool {
    &&& 0 <= i < upto
    &&& kept(ops, i)
    &&& describes(e, ops[i], fallback)
    &&& e.start_seconds == starts[i]
    &&& e.end_seconds == ends[i]
}

/// The entries sorted, each standing for the kept operation `perm[k]` at its
/// slot.
pub open spec fn entries_ok(
    ops: Seq<Operation>,
    fallback: u64,
    starts: Seq<u64>,
    ends: Seq<u64>,
    outs: Seq<ScheduledOperation>,
    perm: Seq<int>,
    upto: int,
) -> bool {
    &&& perm.len() == outs.len()
    &&& forall|k: int| 0 <= k < outs.len() ==> #[trigger] entry_ok(ops, fallback, starts, ends, outs[k], perm[k], upto)
    &&& forall|a: int, b: int|
        #![trigger perm[a], perm[b]]
        0 <= a < perm.len() && 0 <= b < perm.len() && a != b ==> perm[a] != perm[b]
    &&& forall|m: int| 0 <= m < upto && kept(ops, m) ==> exists|k: int| 0 <= k < perm.len() && #[trigger] perm[k] == m
    &&& forall|a: int, b: int|
        #![trigger outs[a], outs[b]]
        0 <= a && b == a + 1 && b < outs.len() ==> !key_lt(outs[b], outs[a])
}

/// For each operation, the operations its dependencies name.
fn all_targets(ops: &Vec<Operation>) -> (targets: Vec<Vec<Option<usize>>>)
    ensures
        targets@.len() == ops@.len(),
        forall|m: int| 0 <= m < ops@.len() ==> #[trigger] targets@[m]@.len() == ops@[m].dependencies@.len(),
        forall|m: int, d: int|
            #![trigger targets@[m]@[d]]
            0 <= m < ops@.len() && 0 <= d < targets@[m]@.len() ==> match targets@[m]@[d] {
                Some(j) => resolves(ops@, dep_target(ops@[m].dependencies@[d]), j as int),
                None => forall|j: int| !resolves(ops@, dep_target(ops@[m].dependencies@[d]), j),
            },
{
    let n = ops.len();
    let mut targets: Vec<Vec<Option<usize>>> = Vec::new();
    let mut i: usize = 0;
    while i < n
        invariant
            n == ops@.len(),
            i <= n,
            targets@.len() == i,
            forall|m: int| 0 <= m < i ==> #[trigger] targets@[m]@.len() == ops@[m].dependencies@.len(),
            forall|m: int, d: int|
                #![trigger targets@[m]@[d]]
                0 <= m < i && 0 <= d < targets@[m]@.len() ==> match targets@[m]@[d] {
                    Some(j) => resolves(ops@, dep_target(ops@[m].dependencies@[d]), j as int),
                    None => forall|j: int| !resolves(ops@, dep_target(ops@[m].dependencies@[d]), j),
                },
        decreases n - i,
    {
        let t = dep_targets(ops, &ops[i]);
        targets.push(t);
        i = i + 1;
    }
    targets
}

proof fn lemma_tables(ops: Seq<Operation>, keep: Seq<bool>, targets: Seq<Vec<Option<usize>>>)
    requires
        keep.len() == ops.len(),
        forall|k: int| 0 <= k < ops.len() ==> #[trigger] keep[k] == kept(ops, k),
        targets.len() == ops.len(),
        forall|m: int| 0 <= m < ops.len() ==> #[trigger] targets[m]@.len() == ops[m].dependencies@.len(),
        forall|m: int, d: int|
            #![trigger targets[m]@[d]]
            0 <= m < ops.len() && 0 <= d < targets[m]@.len() ==> match targets[m]@[d] {
                Some(j) => resolves(ops, dep_target(ops[m].dependencies@[d]), j as int),
                None => forall|j: int| !resolves(ops, dep_target(ops[m].dependencies@[d]), j),
            },
    ensures
        tables_ok(ops, keep, targets.map_values(|t: Vec<Option<usize>>| t@)),
{
    let tv = targets.map_values(|t: Vec<Option<usize>>| t@);
    assert forall|m: int, d: int|
        #![trigger tv[m][d]]
        0 <= m < ops.len() && 0 <= d < tv[m].len() implies match tv[m][d] {
            Some(j) => resolves(ops, dep_target(ops[m].dependencies@[d]), j as int),
            None => forall|j: int| !resolves(ops, dep_target(ops[m].dependencies@[d]), j),
        } by {
        assert(tv[m] == targets[m]@);
        assert(tv[m][d] == targets[m]@[d]);
    }
    assert forall|m: int| 0 <= m < ops.len() implies #[trigger] tv[m].len() == ops[m].dependencies@.len() by {
        assert(tv[m] == targets[m]@);
    }
}

/// The entries of the placed operations, sorted.
fn build_entries(
    ops: &Vec<Operation>,
    fallback: u64,
    keep: &Vec<bool>,
    starts: &Vec<u64>,
    ends: &Vec<u64>,
) -> (r: (Vec<ScheduledOperation>, Ghost<Seq<int>>))
    requires
        keep@.len() == ops@.len(),
        starts@.len() == ops@.len(),
        ends@.len() == ops@.len(),
        forall|k: int| 0 <= k < ops@.len() ==> #[trigger] keep@[k] == kept(ops@, k),
        forall|k: int| 0 <= k < ops@.len() && #[trigger] keep@[k] ==> ends@[k] == starts@[k] + dur(ops@, fallback, k),
    ensures
        entries_ok(ops@, fallback, starts@, ends@, r.0@, r.1@, ops@.len() as int),
{
    let n = ops.len();
    let mut outs: Vec<ScheduledOperation> = Vec::new();
    let ghost mut perm: Seq<int> = Seq::empty();
    let mut i: usize = 0;
    while i < n
        invariant
            n == ops@.len(),
            i <= n,
            keep@.len() == n,
            starts@.len() == n,
            ends@.len() == n,
            forall|k: int| 0 <= k < n ==> #[trigger] keep@[k] == kept(ops@, k),
            forall|k: int| 0 <= k < n && #[trigger] keep@[k] ==> ends@[k] == starts@[k] + dur(ops@, fallback, k),
            entries_ok(ops@, fallback, starts@, ends@, outs@, perm, i as int),
        decreases n - i,
    {
        if keep[i] {
            let duration = duration_seconds(&ops[i], fallback);
            let x = entry(&ops[i], starts[i], ends[i], duration);
            let mut p = outs.len();
            while p > 0 && key_less(&x, &outs[p - 1])
                invariant
                    p <= outs@.len(),
                    forall|m: int| p <= m < outs@.len() ==> key_lt(x, #[trigger] outs@[m]),
                decreases p,
            {
                p = p - 1;
            }
            proof {
                if p < outs@.len() {
                    lemma_key_asymmetric(x, outs@[p as int]);
                }
                assert(keep@[i as int]);
            }
            let ghost old_outs = outs@;
            let ghost old_perm = perm;
            outs.insert(p, x);
            proof {
                perm = perm.insert(p as int, i as int);
                lemma_entries_insert(ops@, fallback, starts@, ends@, old_outs, old_perm, i as int, p as int, x);
            }
        } else {
            proof {
                assert forall|m: int| 0 <= m < i + 1 && kept(ops@, m) implies exists|k: int|
                    0 <= k < perm.len() && #[trigger] perm[k] == m by {
                    if m == i {
                        assert(!keep@[m]);
                    }
                }
                assert forall|k: int| 0 <= k < outs@.len() implies #[trigger] entry_ok(ops@, fallback, starts@, ends@, outs@[k], perm[k], i + 1) by {
                    assert(entry_ok(ops@, fallback, starts@, ends@, outs@[k], perm[k], i as int));
                }
            }
        }
        i = i + 1;
    }
    (outs, Ghost(perm))
}

/// The latest end among the entries, and 0 when there are none.
fn latest_end(outs: &Vec<ScheduledOperation>) -> (makespan: u64)
    ensures
        forall|k: int| 0 <= k < outs@.len() ==> (#[trigger] outs@[k]).end_seconds <= makespan,
        outs@.len() == 0 ==> makespan == 0,
        outs@.len() > 0 ==> exists|k: int| 0 <= k < outs@.len() && (#[trigger] outs@[k]).end_seconds == makespan,
{
    let mut makespan: u64 = 0;
    let mut k: usize = 0;
    let mut at: usize = 0;
    while k < outs.len()
        invariant
            k <= outs@.len(),
            forall|m: int| 0 <= m < k ==> (#[trigger] outs@[m]).end_seconds <= makespan,
            k > 0 ==> at < k && outs@[at as int].end_seconds == makespan,
            k == 0 ==> makespan == 0,
        decreases outs@.len() - k,
    {
        if outs[k].end_seconds > makespan || k == 0 {
            makespan = outs[k].end_seconds;
            at = k;
        }
        k = k + 1;
    }
    proof {
        if outs@.len() > 0 {
            assert(outs@[at as int].end_seconds == makespan);
        }
    }
    makespan
}

/// Place `ops`, or report that the dependency graph has a cycle or names a
/// predecessor that does not exist.
#[verifier::rlimit(100)]
pub fn schedule_operations(ops: &Vec<Operation>, options: &ScheduleOptions) -> (res: Result<
    RecipeSchedule,
    ApplicationError,
>)
    requires
        total_cost(ops@, options.default_duration_seconds) <= u64::MAX,
    ensures
        res is Ok <==> schedulable(ops@),
        res matches Ok(s) ==> schedules(ops@, options.default_duration_seconds, s),
        res matches Err(e) ==> e == ApplicationError::InvalidInput(e->InvalidInput_0)
            && e->InvalidInput_0@
            == "Operation dependency graph contains a cycle or an unknown predecessor"@,
{
    let fallback = options.default_duration_seconds;
    let keep = kept_flags(ops);
    let targets = all_targets(ops);
    let ghost tv = targets@.map_values(|t: Vec<Option<usize>>| t@);
    proof {
        lemma_tables(ops@, keep@, targets@);
    }
    let (starts, ends, Ghost(pos), Ghost(lvl)) = match place_all(ops, fallback, &keep, &targets) {
        Some(p) => p,
        None => {
            return Err(
                ApplicationError::InvalidInput(
                    "Operation dependency graph contains a cycle or an unknown predecessor".to_owned(),
                ),
            );
        },
    };
    let ghost cnt = n_true(keep@) as int;
    let ghost spent = done_cost(ops@, keep@, fallback, ops@.len() as int);
    proof {
        lemma_slots(ops@, fallback, tv, keep@, starts@, ends@, pos, cnt, spent);
    }
    let (outs, Ghost(perm)) = build_entries(ops, fallback, &keep, &starts, &ends);
    let makespan = latest_end(&outs);
    proof {
        assert forall|m: int| 0 <= m < outs@.len() implies (#[trigger] outs@[m]).start_seconds
            < outs@[m].end_seconds by {
            assert(entry_ok(ops@, fallback, starts@, ends@, outs@[m], perm[m], ops@.len() as int));
            lemma_duration_positive(ops@[perm[m]], fallback);
        }
        lemma_covers(ops@, fallback, starts@, ends@, outs@, perm);
        lemma_honours(ops@, fallback, tv, starts@, ends@, outs@, perm);
        lemma_apart(ops@, fallback, starts@, ends@, outs@, perm);
        lemma_forced(ops@, fallback, tv, keep@, starts@, ends@, outs@, perm);
        lemma_earliest_entries(ops@, fallback, tv, keep@, starts@, ends@, pos, cnt, spent, outs@, perm);
        assert(tv == target_views(targets@));
        lemma_rounds_entries(ops@, fallback, tv, keep@, starts@, ends@, pos, cnt, spent, lvl, outs@, perm);
    }
    let critical_path = critical_path(&outs, makespan);
    Ok(RecipeSchedule { operations: outs, makespan_seconds: makespan, critical_path })
}

proof fn lemma_duration_positive(op: Operation, fallback: u64)
    ensures
        spec_duration(op, fallback) >= 1,
{
    let p = crate::schedule::parts::per_pass(op, fallback);
    let q = crate::schedule::parts::passes(op);
    assert(p * q >= 1) by (nonlinear_arith)
        requires
            p >= 1,
            q >= 1,
    ;
}

proof fn lemma_entries_insert(
    ops: Seq<Operation>,
    fallback: u64,
    starts: Seq<u64>,
    ends: Seq<u64>,
    outs: Seq<ScheduledOperation>,
    perm: Seq<int>,
    i: int,
    p: int,
    x: ScheduledOperation,
)
    requires
        entries_ok(ops, fallback, starts, ends, outs, perm, i),
        0 <= p <= outs.len(),
        kept(ops, i),
        describes(x, ops[i], fallback),
        x.start_seconds == starts[i],
        x.end_seconds == ends[i],
        p > 0 ==> !key_lt(x, outs[p - 1]),
        p < outs.len() ==> !key_lt(outs[p], x),
    ensures
        entries_ok(ops, fallback, starts, ends, outs.insert(p, x), perm.insert(p, i), i + 1),
{
    let o2 = outs.insert(p, x);
    let p2 = perm.insert(p, i);
    assert forall|k: int| 0 <= k < o2.len() implies #[trigger] entry_ok(ops, fallback, starts, ends, o2[k], p2[k], i + 1) by {
        if k < p {
            assert(o2[k] == outs[k] && p2[k] == perm[k]);
            assert(entry_ok(ops, fallback, starts, ends, outs[k], perm[k], i));
        } else if k > p {
            assert(o2[k] == outs[k - 1] && p2[k] == perm[k - 1]);
            assert(entry_ok(ops, fallback, starts, ends, outs[k - 1], perm[k - 1], i));
        }
    }
    assert forall|a: int, b: int|
        #![trigger p2[a], p2[b]]
        0 <= a < p2.len() && 0 <= b < p2.len() && a != b implies p2[a] != p2[b] by {
        if a != p && b != p {
            let a0 = if a < p { a } else { a - 1 };
            let b0 = if b < p { b } else { b - 1 };
            assert(p2[a] == perm[a0] && p2[b] == perm[b0]);
        } else if a == p {
            let b0 = if b < p { b } else { b - 1 };
            assert(p2[b] == perm[b0]);
            assert(entry_ok(ops, fallback, starts, ends, outs[b0], perm[b0], i));
            assert(p2[a] == i);
        } else {
            let a0 = if a < p { a } else { a - 1 };
            assert(p2[a] == perm[a0]);
            assert(entry_ok(ops, fallback, starts, ends, outs[a0], perm[a0], i));
            assert(p2[b] == i);
        }
    }
    assert forall|m: int| 0 <= m < i + 1 && kept(ops, m) implies exists|k: int|
        0 <= k < p2.len() && #[trigger] p2[k] == m by {
        if m == i {
            assert(p2[p] == i);
        } else {
            let k = choose|k: int| 0 <= k < perm.len() && #[trigger] perm[k] == m;
            if k < p {
                assert(p2[k] == m);
            } else {
                assert(p2[k + 1] == m);
            }
        }
    }
    assert forall|a: int, b: int|
        #![trigger o2[a], o2[b]]
        0 <= a && b == a + 1 && b < o2.len() implies !key_lt(o2[b], o2[a]) by {
        if b < p {
            assert(o2[a] == outs[a] && o2[b] == outs[b]);
        } else if a > p {
            assert(o2[a] == outs[a - 1] && o2[b] == outs[b - 1]);
        }
    }
}

/// What placing every operation gives, in the terms the entries use.
proof fn lemma_slots(
    ops: Seq<Operation>,
    fallback: u64,
    tv: Seq<Seq<Option<usize>>>,
    keep: Seq<bool>,
    starts: Seq<u64>,
    ends: Seq<u64>,
    pos: Seq<int>,
    cnt: int,
    spent: int,
)
    requires
        keep.len() == ops.len(),
        forall|k: int| 0 <= k < ops.len() ==> #[trigger] keep[k] == kept(ops, k),
        placed_ok(ops, fallback, tv, keep, starts, ends, pos, cnt, spent),
    ensures
        forall|i: int, d: int|
            #![trigger ops[i].dependencies@[d]]
            kept(ops, i) && 0 <= d < ops[i].dependencies@.len() && required(ops[i].dependencies@[d])
                ==> resolves(ops, dep_target(ops[i].dependencies@[d]), tv[i][d]->0 as int) && starts[i]
                >= constraint(
                ops[i].dependencies@[d].kind,
                lag_of(ops[i].dependencies@[d]),
                starts[tv[i][d]->0 as int] as int,
                ends[tv[i][d]->0 as int] as int,
                dur(ops, fallback, i),
            ),
        forall|i: int, j: int|
            #![trigger ops[i], ops[j]]
            kept(ops, i) && kept(ops, j) && i != j && ops_conflict(ops[i], ops[j]) ==> !overlaps(
                starts[i] as int,
                ends[i] as int,
                starts[j] as int,
                ends[j] as int,
            ),
        forall|i: int|
            kept(ops, i) ==> #[trigger] justified_slot(ops, fallback, tv, keep, starts, ends, i, starts[i] as int),
        starts.len() == ops.len() && ends.len() == ops.len(),
        forall|k: int| 0 <= k < ops.len() && #[trigger] keep[k] ==> ends[k] == starts[k] + dur(ops, fallback, k),
{
    lemma_placed_ok(ops, fallback, tv, keep, starts, ends, pos, cnt, spent);
    assert forall|i: int| kept(ops, i) implies #[trigger] justified_slot(
        ops,
        fallback,
        tv,
        keep,
        starts,
        ends,
        i,
        starts[i] as int,
    ) by {
        assert(keep[i]);
    }
    assert forall|i: int, d: int|
        #![trigger ops[i].dependencies@[d]]
        kept(ops, i) && 0 <= d < ops[i].dependencies@.len() && required(ops[i].dependencies@[d])
            implies resolves(ops, dep_target(ops[i].dependencies@[d]), tv[i][d]->0 as int) && starts[i]
            >= constraint(
            ops[i].dependencies@[d].kind,
            lag_of(ops[i].dependencies@[d]),
            starts[tv[i][d]->0 as int] as int,
            ends[tv[i][d]->0 as int] as int,
            dur(ops, fallback, i),
        ) by {
        assert(keep[i]);
        assert(keep[i] && 0 <= d < ops[i].dependencies@.len());
        assert(tv[i].len() == ops[i].dependencies@.len());
    }
    assert forall|i: int, j: int|
        #![trigger ops[i], ops[j]]
        kept(ops, i) && kept(ops, j) && i != j && ops_conflict(ops[i], ops[j]) implies !overlaps(
            starts[i] as int,
            ends[i] as int,
            starts[j] as int,
            ends[j] as int,
        ) by {
        assert(keep[i] && keep[j]);
    }
}

proof fn lemma_covers(
    ops: Seq<Operation>,
    fallback: u64,
    starts: Seq<u64>,
    ends: Seq<u64>,
    outs: Seq<ScheduledOperation>,
    perm: Seq<int>,
)
    requires
        entries_ok(ops, fallback, starts, ends, outs, perm, ops.len() as int),
    ensures
        covers(ops, fallback, outs),
        ordered(outs),
{
    assert forall|k: int| 0 <= k < outs.len() implies stands_for_some(ops, fallback, #[trigger] outs[k]) by {
        assert(entry_ok(ops, fallback, starts, ends, outs[k], perm[k], ops.len() as int));
        assert(kept(ops, perm[k]) && describes(outs[k], ops[perm[k]], fallback));
    }
    assert forall|i: int| kept(ops, i) implies #[trigger] has_entry(outs, ops[i].symbol@) by {
        let k = choose|k: int| 0 <= k < perm.len() && #[trigger] perm[k] == i;
        assert(entry_ok(ops, fallback, starts, ends, outs[k], perm[k], ops.len() as int));
        assert(outs[k].symbol@ == ops[i].symbol@);
    }
    assert forall|a: int, b: int|
        #![trigger outs[a], outs[b]]
        0 <= a < outs.len() && 0 <= b < outs.len() && a != b implies outs[a].symbol@
        != outs[b].symbol@ by {
        assert(perm[a] != perm[b]);
        assert(entry_ok(ops, fallback, starts, ends, outs[a], perm[a], ops.len() as int));
        assert(entry_ok(ops, fallback, starts, ends, outs[b], perm[b], ops.len() as int));
        if outs[a].symbol@ == outs[b].symbol@ {
            lemma_resolves_unique(ops, outs[a].symbol@, perm[a], perm[b]);
        }
    }
}

proof fn lemma_honours(
    ops: Seq<Operation>,
    fallback: u64,
    tv: Seq<Seq<Option<usize>>>,
    starts: Seq<u64>,
    ends: Seq<u64>,
    outs: Seq<ScheduledOperation>,
    perm: Seq<int>,
)
    requires
        entries_ok(ops, fallback, starts, ends, outs, perm, ops.len() as int),
        forall|i: int, d: int|
            #![trigger ops[i].dependencies@[d]]
            kept(ops, i) && 0 <= d < ops[i].dependencies@.len() && required(ops[i].dependencies@[d])
                ==> resolves(ops, dep_target(ops[i].dependencies@[d]), tv[i][d]->0 as int) && starts[i]
                >= constraint(
                ops[i].dependencies@[d].kind,
                lag_of(ops[i].dependencies@[d]),
                starts[tv[i][d]->0 as int] as int,
                ends[tv[i][d]->0 as int] as int,
                dur(ops, fallback, i),
            ),
    ensures
        honours_dependencies(ops, outs),
{
    assert forall|i: int, d: int|
        #![trigger ops[i].dependencies@[d]]
        kept(ops, i) && 0 <= d < ops[i].dependencies@.len() && required(ops[i].dependencies@[d])
            implies exists|a: int, b: int|
            #![trigger outs[a], outs[b]]
            0 <= a < outs.len() && 0 <= b < outs.len() && outs[a].symbol@ == ops[i].symbol@
                && outs[b].symbol@ == dep_target(ops[i].dependencies@[d]) && outs[a].start_seconds
                >= constraint(
                ops[i].dependencies@[d].kind,
                lag_of(ops[i].dependencies@[d]),
                outs[b].start_seconds as int,
                outs[b].end_seconds as int,
                outs[a].duration_seconds as int,
            ) by {
        let j = tv[i][d]->0 as int;
        assert(resolves(ops, dep_target(ops[i].dependencies@[d]), j));
        let a = choose|k: int| 0 <= k < perm.len() && #[trigger] perm[k] == i;
        let b = choose|k: int| 0 <= k < perm.len() && #[trigger] perm[k] == j;
        assert(entry_ok(ops, fallback, starts, ends, outs[a], perm[a], ops.len() as int));
        assert(entry_ok(ops, fallback, starts, ends, outs[b], perm[b], ops.len() as int));
    }
}

proof fn lemma_forced(
    ops: Seq<Operation>,
    fallback: u64,
    tv: Seq<Seq<Option<usize>>>,
    keep: Seq<bool>,
    starts: Seq<u64>,
    ends: Seq<u64>,
    outs: Seq<ScheduledOperation>,
    perm: Seq<int>,
)
    requires
        entries_ok(ops, fallback, starts, ends, outs, perm, ops.len() as int),
        keep.len() == ops.len(),
        forall|k: int| 0 <= k < ops.len() ==> #[trigger] keep[k] == kept(ops, k),
        forall|i: int, d: int|
            #![trigger ops[i].dependencies@[d]]
            kept(ops, i) && 0 <= d < ops[i].dependencies@.len() && required(ops[i].dependencies@[d])
                ==> resolves(ops, dep_target(ops[i].dependencies@[d]), tv[i][d]->0 as int),
        forall|i: int|
            kept(ops, i) ==> #[trigger] justified_slot(ops, fallback, tv, keep, starts, ends, i, starts[i] as int),
    ensures
        starts_forced(ops, outs),
{
    assert forall|a: int| 0 <= a < outs.len() implies #[trigger] start_forced(ops, outs, a) by {
        let i = perm[a];
        assert(entry_ok(ops, fallback, starts, ends, outs[a], perm[a], ops.len() as int));
        assert(justified_slot(ops, fallback, tv, keep, starts, ends, i, starts[i] as int));
        let s = starts[i] as int;
        if s == 0 {
        } else if exists|d: int|
            #![trigger ops[i].dependencies@[d]]
            0 <= d < ops[i].dependencies@.len() && required(ops[i].dependencies@[d]) && s == constraint(
                ops[i].dependencies@[d].kind,
                lag_of(ops[i].dependencies@[d]),
                starts[tv[i][d]->0 as int] as int,
                ends[tv[i][d]->0 as int] as int,
                dur(ops, fallback, i),
            ) {
            let d = choose|d: int|
                #![trigger ops[i].dependencies@[d]]
                0 <= d < ops[i].dependencies@.len() && required(ops[i].dependencies@[d]) && s == constraint(
                    ops[i].dependencies@[d].kind,
                    lag_of(ops[i].dependencies@[d]),
                    starts[tv[i][d]->0 as int] as int,
                    ends[tv[i][d]->0 as int] as int,
                    dur(ops, fallback, i),
                );
            let j = tv[i][d]->0 as int;
            assert(resolves(ops, dep_target(ops[i].dependencies@[d]), j));
            let b = choose|k: int| 0 <= k < perm.len() && #[trigger] perm[k] == j;
            assert(entry_ok(ops, fallback, starts, ends, outs[b], perm[b], ops.len() as int));
            assert(ops[i].dependencies@[d] == ops[i].dependencies@[d] && outs[b] == outs[b]);
        } else {
            let j = choose|j: int|
                #![trigger keep[j]]
                0 <= j < ops.len() && keep[j] && j != i && ops_conflict(ops[i], ops[j]) && ends[j] == s;
            assert(kept(ops, j));
            let b = choose|k: int| 0 <= k < perm.len() && #[trigger] perm[k] == j;
            assert(entry_ok(ops, fallback, starts, ends, outs[b], perm[b], ops.len() as int));
            assert(perm[a] != perm[b]);
            assert(outs[b] == outs[b] && ops[i] == ops[i] && ops[j] == ops[j]);
        }
    }
}

/// The entries' starts are the earliest ones, placing them in the order the
/// operations were placed.
proof fn lemma_earliest_entries(
    ops: Seq<Operation>,
    fallback: u64,
    tv: Seq<Seq<Option<usize>>>,
    keep: Seq<bool>,
    starts: Seq<u64>,
    ends: Seq<u64>,
    pos: Seq<int>,
    cnt: int,
    spent: int,
    outs: Seq<ScheduledOperation>,
    perm: Seq<int>,
)
    requires
        entries_ok(ops, fallback, starts, ends, outs, perm, ops.len() as int),
        keep.len() == ops.len(),
        forall|k: int| 0 <= k < ops.len() ==> #[trigger] keep[k] == kept(ops, k),
        placed_ok(ops, fallback, tv, keep, starts, ends, pos, cnt, spent),
    ensures
        placed_earliest(ops, outs, Seq::new(outs.len(), |k: int| pos[perm[k]])),
{
    lemma_placed_ok(ops, fallback, tv, keep, starts, ends, pos, cnt, spent);
    let rank = Seq::new(outs.len(), |k: int| pos[perm[k]]);
    lemma_covers(ops, fallback, starts, ends, outs, perm);
    assert forall|a: int, i: int, d: int|
        #![trigger outs[a], ops[i].dependencies@[d]]
        0 <= a < outs.len() && kept(ops, i) && ops[i].symbol@ == outs[a].symbol@ && 0 <= d
            < ops[i].dependencies@.len() && required(ops[i].dependencies@[d]) implies rank[entry_named(
            outs,
            dep_target(ops[i].dependencies@[d]),
        )] < rank[a] by {
        assert(entry_ok(ops, fallback, starts, ends, outs[a], perm[a], ops.len() as int));
        lemma_resolves_unique(ops, ops[i].symbol@, i, perm[a]);
        assert(keep[i]);
        let j = tv[i][d]->0 as int;
        assert(tv[i].len() == ops[i].dependencies@.len());
        assert(resolves(ops, dep_target(ops[i].dependencies@[d]), j));
        lemma_entry_of(ops, fallback, starts, ends, outs, perm, j);
    }
    assert forall|a: int, i: int|
        #![trigger outs[a], ops[i]]
        0 <= a < outs.len() && kept(ops, i) && ops[i].symbol@ == outs[a].symbol@ implies {
            &&& outs[a].start_seconds >= entry_bound(ops, outs, i, a)
            &&& forall|t: int|
                entry_bound(ops, outs, i, a) <= t < outs[a].start_seconds ==> #[trigger] entry_collides(
                    ops,
                    outs,
                    rank,
                    i,
                    a,
                    t,
                )
        } by {
        assert(entry_ok(ops, fallback, starts, ends, outs[a], perm[a], ops.len() as int));
        lemma_resolves_unique(ops, ops[i].symbol@, i, perm[a]);
        assert(keep[i]);
        assert(earliest_slot(ops, fallback, tv, keep, starts, ends, pos, pos[i], i, starts[i] as int));
        lemma_entry_bound(ops, fallback, tv, keep, starts, ends, pos, cnt, spent, outs, perm, i, a, ops[i].dependencies@.len() as int);
        assert forall|t: int|
            entry_bound(ops, outs, i, a) <= t < outs[a].start_seconds implies #[trigger] entry_collides(
                ops,
                outs,
                rank,
                i,
                a,
                t,
            ) by {
            assert(collides(ops, fallback, keep, starts, ends, pos, pos[i], i, t));
            let j = choose|j: int|
                #![trigger keep[j], pos[j]]
                0 <= j < ops.len() && keep[j] && pos[j] < pos[i] && ops_conflict(ops[i], ops[j]) && overlaps(
                    t,
                    t + dur(ops, fallback, i),
                    starts[j] as int,
                    ends[j] as int,
                );
            assert(kept(ops, j));
            let b = choose|k: int| 0 <= k < perm.len() && #[trigger] perm[k] == j;
            assert(entry_ok(ops, fallback, starts, ends, outs[b], perm[b], ops.len() as int));
            assert(rank[b] == pos[j] && rank[a] == pos[i]);
            assert(outs[b] == outs[b] && ops[j] == ops[j]);
        }
    }
}

/// The entries are placed round by round, each round in symbol order.
proof fn lemma_rounds_entries(
    ops: Seq<Operation>,
    fallback: u64,
    tv: Seq<Seq<Option<usize>>>,
    keep: Seq<bool>,
    starts: Seq<u64>,
    ends: Seq<u64>,
    pos: Seq<int>,
    cnt: int,
    spent: int,
    lvl: Seq<int>,
    outs: Seq<ScheduledOperation>,
    perm: Seq<int>,
)
    requires
        entries_ok(ops, fallback, starts, ends, outs, perm, ops.len() as int),
        keep.len() == ops.len(),
        forall|k: int| 0 <= k < ops.len() ==> #[trigger] keep[k] == kept(ops, k),
        placed_ok(ops, fallback, tv, keep, starts, ends, pos, cnt, spent),
        levels_ok(ops, tv, keep, pos, lvl),
    ensures
        placed_in_rounds(
            ops,
            outs,
            Seq::new(outs.len(), |k: int| pos[perm[k]]),
            Seq::new(outs.len(), |k: int| lvl[perm[k]]),
        ),
{
    lemma_placed_ok(ops, fallback, tv, keep, starts, ends, pos, cnt, spent);
    lemma_levels(ops, tv, keep, pos, lvl);
    lemma_covers(ops, fallback, starts, ends, outs, perm);
    let rank = Seq::new(outs.len(), |k: int| pos[perm[k]]);
    let lv = Seq::new(outs.len(), |k: int| lvl[perm[k]]);
    assert forall|a: int| 0 <= a < outs.len() implies #[trigger] lv[a] >= 0 by {
        assert(entry_ok(ops, fallback, starts, ends, outs[a], perm[a], ops.len() as int));
        assert(keep[perm[a]]);
    }
    assert forall|a: int, i: int, d: int|
        #![trigger outs[a], ops[i].dependencies@[d]]
        0 <= a < outs.len() && kept(ops, i) && ops[i].symbol@ == outs[a].symbol@ && 0 <= d
            < ops[i].dependencies@.len() && required(ops[i].dependencies@[d]) implies lv[entry_named(
            outs,
            dep_target(ops[i].dependencies@[d]),
        )] < lv[a] by {
        assert(entry_ok(ops, fallback, starts, ends, outs[a], perm[a], ops.len() as int));
        lemma_resolves_unique(ops, ops[i].symbol@, i, perm[a]);
        assert(keep[i]);
        assert(tv[i].len() == ops[i].dependencies@.len());
        let j = tv[i][d]->0 as int;
        assert(resolves(ops, dep_target(ops[i].dependencies@[d]), j));
        lemma_entry_of(ops, fallback, starts, ends, outs, perm, j);
    }
    assert forall|a: int, i: int|
        #![trigger outs[a], ops[i]]
        0 <= a < outs.len() && kept(ops, i) && ops[i].symbol@ == outs[a].symbol@ && lv[a] > 0 implies exists|d: int|
            #![trigger ops[i].dependencies@[d]]
            0 <= d < ops[i].dependencies@.len() && required(ops[i].dependencies@[d]) && lv[entry_named(
                outs,
                dep_target(ops[i].dependencies@[d]),
            )] == lv[a] - 1 by {
        assert(entry_ok(ops, fallback, starts, ends, outs[a], perm[a], ops.len() as int));
        lemma_resolves_unique(ops, ops[i].symbol@, i, perm[a]);
        assert(keep[i]);
        let d = choose|d: int|
            #![trigger ops[i].dependencies@[d]]
            0 <= d < ops[i].dependencies@.len() && required(ops[i].dependencies@[d]) && lvl[tv[i][d]->0 as int]
                == lvl[i] - 1;
        assert(tv[i].len() == ops[i].dependencies@.len());
        let j = tv[i][d]->0 as int;
        assert(resolves(ops, dep_target(ops[i].dependencies@[d]), j));
        lemma_entry_of(ops, fallback, starts, ends, outs, perm, j);
    }
    assert forall|a: int, b: int|
        #![trigger outs[a], outs[b]]
        0 <= a < outs.len() && 0 <= b < outs.len() implies (rank[a] < rank[b] <==> (lv[a] < lv[b] || (lv[a]
            == lv[b] && lex_lt(encode_utf8(outs[a].symbol@), encode_utf8(outs[b].symbol@))))) by {
        assert(entry_ok(ops, fallback, starts, ends, outs[a], perm[a], ops.len() as int));
        assert(entry_ok(ops, fallback, starts, ends, outs[b], perm[b], ops.len() as int));
        assert(keep[perm[a]] && keep[perm[b]]);
        assert(sym_lt(ops, perm[a], perm[b]) == lex_lt(encode_utf8(outs[a].symbol@), encode_utf8(outs[b].symbol@)));
    }
}

/// The entry that carries the symbol of a kept operation stands for it.
proof fn lemma_entry_of(
    ops: Seq<Operation>,
    fallback: u64,
    starts: Seq<u64>,
    ends: Seq<u64>,
    outs: Seq<ScheduledOperation>,
    perm: Seq<int>,
    j: int,
)
    requires
        entries_ok(ops, fallback, starts, ends, outs, perm, ops.len() as int),
        covers(ops, fallback, outs),
        kept(ops, j),
    ensures
        0 <= entry_named(outs, ops[j].symbol@) < outs.len(),
        perm[entry_named(outs, ops[j].symbol@)] == j,
{
    let k = choose|k: int| 0 <= k < perm.len() && #[trigger] perm[k] == j;
    assert(entry_ok(ops, fallback, starts, ends, outs[k], perm[k], ops.len() as int));
    assert(outs[k].symbol@ == ops[j].symbol@);
    let b = entry_named(outs, ops[j].symbol@);
    assert(0 <= b < outs.len() && outs[b].symbol@ == ops[j].symbol@);
    if b != k {
        assert(outs[b].symbol@ != outs[k].symbol@);
    }
}

/// The bound an entry's dependencies set is the one they set on its
/// operation.
proof fn lemma_entry_bound(
    ops: Seq<Operation>,
    fallback: u64,
    tv: Seq<Seq<Option<usize>>>,
    keep: Seq<bool>,
    starts: Seq<u64>,
    ends: Seq<u64>,
    pos: Seq<int>,
    cnt: int,
    spent: int,
    outs: Seq<ScheduledOperation>,
    perm: Seq<int>,
    i: int,
    a: int,
    d: int,
)
    requires
        entries_ok(ops, fallback, starts, ends, outs, perm, ops.len() as int),
        covers(ops, fallback, outs),
        keep.len() == ops.len(),
        forall|k: int| 0 <= k < ops.len() ==> #[trigger] keep[k] == kept(ops, k),
        placed_ok(ops, fallback, tv, keep, starts, ends, pos, cnt, spent),
        0 <= a < outs.len(),
        perm[a] == i,
        kept(ops, i),
        d <= ops[i].dependencies@.len(),
    ensures
        entry_bound_upto(ops, outs, i, a, d) == dep_bound_upto(ops, fallback, tv, starts, ends, i, d),
    decreases d,
{
    lemma_placed_ok(ops, fallback, tv, keep, starts, ends, pos, cnt, spent);
    if d > 0 {
        lemma_entry_bound(ops, fallback, tv, keep, starts, ends, pos, cnt, spent, outs, perm, i, a, d - 1);
        let dep = ops[i].dependencies@[d - 1];
        if required(dep) {
            assert(keep[i]);
            assert(tv[i].len() == ops[i].dependencies@.len());
            let j = tv[i][d - 1]->0 as int;
            assert(resolves(ops, dep_target(dep), j));
            lemma_entry_of(ops, fallback, starts, ends, outs, perm, j);
            let b = entry_named(outs, dep_target(dep));
            assert(entry_ok(ops, fallback, starts, ends, outs[b], perm[b], ops.len() as int));
            assert(entry_ok(ops, fallback, starts, ends, outs[a], perm[a], ops.len() as int));
        }
    }
}

proof fn lemma_apart(
    ops: Seq<Operation>,
    fallback: u64,
    starts: Seq<u64>,
    ends: Seq<u64>,
    outs: Seq<ScheduledOperation>,
    perm: Seq<int>,
)
    requires
        entries_ok(ops, fallback, starts, ends, outs, perm, ops.len() as int),
        forall|i: int, j: int|
            #![trigger ops[i], ops[j]]
            kept(ops, i) && kept(ops, j) && i != j && ops_conflict(ops[i], ops[j]) ==> !overlaps(
                starts[i] as int,
                ends[i] as int,
                starts[j] as int,
                ends[j] as int,
            ),
    ensures
        keeps_apart(ops, outs),
{
    assert forall|a: int, b: int, i: int, j: int|
        #![trigger outs[a], outs[b], ops[i], ops[j]]
        0 <= a < outs.len() && 0 <= b < outs.len() && a != b && kept(ops, i) && kept(ops, j)
            && outs[a].symbol@ == ops[i].symbol@ && outs[b].symbol@ == ops[j].symbol@ && ops_conflict(
            ops[i],
            ops[j],
        ) implies !overlaps(
            outs[a].start_seconds as int,
            outs[a].end_seconds as int,
            outs[b].start_seconds as int,
            outs[b].end_seconds as int,
        ) by {
        assert(entry_ok(ops, fallback, starts, ends, outs[a], perm[a], ops.len() as int));
        assert(entry_ok(ops, fallback, starts, ends, outs[b], perm[b], ops.len() as int));
        lemma_resolves_unique(ops, ops[i].symbol@, i, perm[a]);
        lemma_resolves_unique(ops, ops[j].symbol@, j, perm[b]);
        assert(perm[a] != perm[b]);
        assert(ops[i] == ops[i] && ops[j] == ops[j]);
    }
}

/// Schedule a recipe's operations.
pub fn schedule_recipe(recipe: &Recipe, options: &ScheduleOptions) -> (res: Result<
    RecipeSchedule,
    ApplicationError,
>)
    requires
        total_cost(recipe.operations@, options.default_duration_seconds) <= u64::MAX,
    ensures
        res is Ok <==> schedulable(recipe.operations@),
        res matches Ok(s) ==> schedules(recipe.operations@, options.default_duration_seconds, s),
        res matches Err(e) ==> e == ApplicationError::InvalidInput(e->InvalidInput_0)
            && e->InvalidInput_0@
            == "Operation dependency graph contains a cycle or an unknown predecessor"@,
{
    schedule_operations(&recipe.operations, options)
}

impl CriticalPathScheduler {
    pub fn schedule(&self, recipe: &Recipe, options: &ScheduleOptions) -> (res: Result<
        RecipeSchedule,
        ApplicationError,
    >)
        requires
            total_cost(recipe.operations@, options.default_duration_seconds) <= u64::MAX,
        ensures
            res is Ok <==> schedulable(recipe.operations@),
            res matches Ok(s) ==> schedules(recipe.operations@, options.default_duration_seconds, s),
            res matches Err(e) ==> e == ApplicationError::InvalidInput(e->InvalidInput_0)
                && e->InvalidInput_0@
                == "Operation dependency graph contains a cycle or an unknown predecessor"@,
    {
        schedule_recipe(recipe, options)
    }
}

} // verus!
