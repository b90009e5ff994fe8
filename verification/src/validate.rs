//! Structural checks of a recipe: every binding names a declared resource,
//! every dependency names a declared operation, and no operations wait on
//! one another in a circle.

use vstd::prelude::*;
use crate::application::models::{DiagnosticSeverity, SourceDiagnostic};
use crate::model::{Operation, Recipe, Resource, concat3, concat5};
use vstd::string::StrSliceExecFns;
use crate::schedule::rounds::{kept, kept_flags, find_kept, resolves, lemma_resolves_unique};
use crate::syntax::text::str_eq;

verus! {

#[derive(Debug, Clone)]
pub struct Diagnostic {
    pub code: &'static str,
    pub message: String,
}

/// The checker the application validates recipes with.
#[derive(Debug, Default, Clone, Copy)]
pub struct CulinatorValidator;

pub open spec fn declares_resource(resources: Seq<Resource>, s: Seq<char>) -> bool {
    exists|k: int| 0 <= k < resources.len() && (#[trigger] resources[k]).symbol@ == s
}

pub open spec fn declares_operation(ops: Seq<Operation>, s: Seq<char>) -> bool {
    exists|k: int| 0 <= k < ops.len() && (#[trigger] ops[k]).symbol@ == s
}

pub open spec fn unknown_resource_message(op: Seq<char>, resource: Seq<char>) -> Seq<char> {
    "operation `"@ + op + "` references unknown resource `"@ + resource + "`"@
}

pub open spec fn unknown_operation_message(op: Seq<char>, predecessor: Seq<char>) -> Seq<char> {
    "operation `"@ + op + "` depends on unknown operation `"@ + predecessor + "`"@
}

pub open spec fn cycle_message(node: Seq<char>) -> Seq<char> {
    "dependency cycle includes `"@ + node + "`"@
}

/// The reference findings for one operation's first `m` bindings.
pub open spec fn binding_findings(resources: Seq<Resource>, op: Operation, m: int) -> Seq<(Seq<char>, Seq<char>)>
    decreases m,
{
    if m <= 0 {
        Seq::empty()
    } else {
        let rest = binding_findings(resources, op, m - 1);
        let r = op.bindings@[m - 1].resource@;
        if declares_resource(resources, r) {
            rest
        } else {
            rest.push(("CG1001"@, unknown_resource_message(op.symbol@, r)))
        }
    }
}

/// The reference findings for one operation's first `m` dependencies.
pub open spec fn dependency_findings(ops: Seq<Operation>, op: Operation, m: int) -> Seq<(Seq<char>, Seq<char>)>
    decreases m,
{
    if m <= 0 {
        Seq::empty()
    } else {
        let rest = dependency_findings(ops, op, m - 1);
        let p = op.dependencies@[m - 1].predecessor@;
        if declares_operation(ops, p) {
            rest
        } else {
            rest.push(("CG1002"@, unknown_operation_message(op.symbol@, p)))
        }
    }
}

/// The reference findings of the first `k` operations, in order.
pub open spec fn reference_findings(recipe: Recipe, k: int) -> Seq<(Seq<char>, Seq<char>)>
    decreases k,
{
    if k <= 0 {
        Seq::empty()
    } else {
        let op = recipe.operations@[k - 1];
        reference_findings(recipe, k - 1) + binding_findings(
            recipe.resources@,
            op,
            op.bindings@.len() as int,
        ) + dependency_findings(recipe.operations@, op, op.dependencies@.len() as int)
    }
}

/// A non-empty group of operations each of which depends on another member
/// of the group: they wait on one another in a circle.
pub open spec fn circular(ops: Seq<Operation>, u: Set<int>) -> bool {
    &&& exists|i: int| u.contains(i)
    &&& forall|i: int|
        u.contains(i) ==> kept(ops, i) && exists|d: int, j: int|
            #![trigger ops[i].dependencies@[d], u.contains(j)]
            0 <= d < ops[i].dependencies@.len() && resolves(ops, ops[i].dependencies@[d].predecessor@, j)
                && u.contains(j)
}

pub open spec fn has_cycle(ops: Seq<Operation>) -> bool {
    exists|u: Set<int>| circular(ops, u)
}

fn message_for(a: &str, b: &str, c: &str) -> (r: String)
    ensures
        r@ == "operation `"@ + a@ + b@ + c@ + "`"@,
{
    concat5("operation `", a, b, c, "`")
}

pub(crate) fn is_declared_resource(resources: &Vec<Resource>, s: &str) -> (r: bool)
    ensures
        r == declares_resource(resources@, s@),
{
    let mut k: usize = 0;
    while k < resources.len()
        invariant
            k <= resources@.len(),
            forall|m: int| 0 <= m < k ==> (#[trigger] resources@[m]).symbol@ != s@,
        decreases resources@.len() - k,
    {
        if str_eq(resources[k].symbol.as_str(), s) {
            return true;
        }
        k = k + 1;
    }
    false
}

fn is_declared_operation(ops: &Vec<Operation>, s: &str) -> (r: bool)
    ensures
        r == declares_operation(ops@, s@),
{
    let mut k: usize = 0;
    while k < ops.len()
        invariant
            k <= ops@.len(),
            forall|m: int| 0 <= m < k ==> (#[trigger] ops@[m]).symbol@ != s@,
        decreases ops@.len() - k,
    {
        if str_eq(ops[k].symbol.as_str(), s) {
            return true;
        }
        k = k + 1;
    }
    false
}

pub open spec fn views(ds: Seq<Diagnostic>) -> Seq<(Seq<char>, Seq<char>)> {
    ds.map_values(|d: Diagnostic| (d.code@, d.message@))
}

fn reference_checks(recipe: &Recipe) -> (out: Vec<Diagnostic>)
    ensures
        views(out@) == reference_findings(*recipe, recipe.operations@.len() as int),
{
    let ops = &recipe.operations;
    let mut out: Vec<Diagnostic> = Vec::new();
    let mut k: usize = 0;
    while k < ops.len()
        invariant
            ops == &recipe.operations,
            k <= ops@.len(),
            views(out@) == reference_findings(*recipe, k as int),
        decreases ops@.len() - k,
    {
        let op = &ops[k];
        let ghost base = views(out@);
        let mut m: usize = 0;
        proof {
            assert(base =~= base + binding_findings(recipe.resources@, *op, 0));
        }
        while m < op.bindings.len()
            invariant
                op == recipe.operations@[k as int],
                m <= op.bindings@.len(),
                views(out@) == base + binding_findings(recipe.resources@, *op, m as int),
            decreases op.bindings@.len() - m,
        {
            let resource = op.bindings[m].resource.as_str();
            if !is_declared_resource(&recipe.resources, resource) {
                let message = message_for(op.symbol.as_str(), "` references unknown resource `", resource);
                let ghost before = out@;
                out.push(Diagnostic { code: "CG1001", message });
                proof {
                    assert(views(out@) =~= views(before).push(("CG1001"@, unknown_resource_message(op.symbol@, resource@))));
                }
            }
            m = m + 1;
        }
        let ghost mid = views(out@);
        let mut m: usize = 0;
        proof {
            assert(mid =~= mid + dependency_findings(ops@, *op, 0));
        }
        while m < op.dependencies.len()
            invariant
                op == recipe.operations@[k as int],
                ops == &recipe.operations,
                m <= op.dependencies@.len(),
                views(out@) == mid + dependency_findings(ops@, *op, m as int),
            decreases op.dependencies@.len() - m,
        {
            let predecessor = op.dependencies[m].predecessor.as_str();
            if !is_declared_operation(ops, predecessor) {
                let message = message_for(op.symbol.as_str(), "` depends on unknown operation `", predecessor);
                let ghost before = out@;
                out.push(Diagnostic { code: "CG1002", message });
                proof {
                    assert(views(out@) =~= views(before).push(("CG1002"@, unknown_operation_message(op.symbol@, predecessor@))));
                }
            }
            m = m + 1;
        }
        proof {
            assert(views(out@) =~= base + binding_findings(recipe.resources@, *op, op.bindings@.len() as int)
                + dependency_findings(ops@, *op, op.dependencies@.len() as int));
        }
        k = k + 1;
    }
    out
}


/// For each operation and dependency, the operation it names exactly.
fn exact_targets(ops: &Vec<Operation>) -> (targets: Vec<Vec<Option<usize>>>)
    ensures
        targets@.len() == ops@.len(),
        forall|m: int| 0 <= m < ops@.len() ==> #[trigger] targets@[m]@.len() == ops@[m].dependencies@.len(),
        forall|m: int, d: int|
            #![trigger targets@[m]@[d]]
            0 <= m < ops@.len() && 0 <= d < targets@[m]@.len() ==> match targets@[m]@[d] {
                Some(j) => resolves(ops@, ops@[m].dependencies@[d].predecessor@, j as int),
                None => forall|j: int| !resolves(ops@, ops@[m].dependencies@[d].predecessor@, j),
            },
{
    let n = ops.len();
    let mut targets: Vec<Vec<Option<usize>>> = Vec::new();
    let mut i: usize = 0;
    while i < n
        invariant
            n == ops@.len(),
            i <= n,
            targets@.len() == i,
            forall|m: int| 0 <= m < i ==> #[trigger] targets@[m]@.len() == ops@[m].dependencies@.len(),
            forall|m: int, d: int|
                #![trigger targets@[m]@[d]]
                0 <= m < i && 0 <= d < targets@[m]@.len() ==> match targets@[m]@[d] {
                    Some(j) => resolves(ops@, ops@[m].dependencies@[d].predecessor@, j as int),
                    None => forall|j: int| !resolves(ops@, ops@[m].dependencies@[d].predecessor@, j),
                },
        decreases n - i,
    {
        let op = &ops[i];
        let mut t: Vec<Option<usize>> = Vec::new();
        let mut d: usize = 0;
        while d < op.dependencies.len()
            invariant
                op == ops@[i as int],
                d <= op.dependencies@.len(),
                t@.len() == d,
                forall|e: int|
                    #![trigger t@[e]]
                    0 <= e < d ==> match t@[e] {
                        Some(j) => resolves(ops@, op.dependencies@[e].predecessor@, j as int),
                        None => forall|j: int| !resolves(ops@, op.dependencies@[e].predecessor@, j),
                    },
            decreases op.dependencies@.len() - d,
        {
            t.push(find_kept(ops, op.dependencies[d].predecessor.as_str()));
            d = d + 1;
        }
        targets.push(t);
        i = i + 1;
    }
    targets
}

/// Operations marked resolved depend only on resolved operations placed
/// before them.
pub open spec fn resolved_ok(
    ops: Seq<Operation>,
    tv: Seq<Seq<Option<usize>>>,
    resolved: Seq<bool>,
    pos: Seq<int>,
    cnt: int,
) -> bool {
    &&& resolved.len() == ops.len()
    &&& pos.len() == ops.len()
    &&& forall|i: int| 0 <= i < ops.len() && #[trigger] resolved[i] ==> kept(ops, i) && 0 <= pos[i] < cnt
    &&& forall|i: int, d: int|
        #![trigger resolved[i], tv[i][d]]
        0 <= i < ops.len() && resolved[i] && 0 <= d < tv[i].len() && tv[i][d] is Some ==> {
            let j = tv[i][d]->0 as int;
            resolved[j] && pos[j] < pos[i]
        }
}

/// `i` waits on an unresolved operation.
pub open spec fn waits(tv: Seq<Seq<Option<usize>>>, resolved: Seq<bool>, i: int) -> bool {
    exists|d: int|
        #![trigger tv[i][d]]
        0 <= d < tv[i].len() && tv[i][d] is Some && !resolved[tv[i][d]->0 as int]
}

fn all_resolved(targets: &Vec<Option<usize>>, resolved: &Vec<bool>) -> (r: bool)
    requires
        forall|d: int| 0 <= d < targets@.len() ==> match #[trigger] targets@[d] {
            Some(j) => j < resolved@.len(),
            None => true,
        },
    ensures
        r == !exists|d: int|
            #![trigger targets@[d]]
            0 <= d < targets@.len() && targets@[d] is Some && !resolved@[targets@[d]->0 as int],
{
    let mut d: usize = 0;
    while d < targets.len()
        invariant
            d <= targets@.len(),
            forall|e: int| 0 <= e < targets@.len() ==> match #[trigger] targets@[e] {
                Some(j) => j < resolved@.len(),
                None => true,
            },
            forall|e: int|
                #![trigger targets@[e]]
                0 <= e < d && targets@[e] is Some ==> resolved@[targets@[e]->0 as int],
        decreases targets@.len() - d,
    {
        match targets[d] {
            Some(j) => {
                if !resolved[j] {
                    return false;
                }
            },
            None => {},
        }
        d = d + 1;
    }
    true
}

#[verifier::rlimit(50)]
proof fn lemma_no_cycle_below(
    ops: Seq<Operation>,
    tv: Seq<Seq<Option<usize>>>,
    pos: Seq<int>,
    u: Set<int>,
    r: int,
)
    requires
        forall|i: int| kept(ops, i) ==> pos[i] >= 0,
        forall|i: int, d: int|
            #![trigger tv[i][d]]
            kept(ops, i) && 0 <= d < ops[i].dependencies@.len() && tv[i][d] is Some ==> pos[tv[i][d]->0 as int] < pos[i],
        forall|i: int| 0 <= i < ops.len() ==> #[trigger] tv[i].len() == ops[i].dependencies@.len(),
        forall|i: int, d: int|
            #![trigger tv[i][d]]
            0 <= i < ops.len() && 0 <= d < tv[i].len() ==> match tv[i][d] {
                Some(j) => resolves(ops, ops[i].dependencies@[d].predecessor@, j as int),
                None => forall|j: int| !resolves(ops, ops[i].dependencies@[d].predecessor@, j),
            },
        circular(ops, u),
        0 <= r,
    ensures
        forall|i: int| u.contains(i) ==> pos[i] >= r,
    decreases r,
{
    if r > 0 {
        lemma_no_cycle_below(ops, tv, pos, u, r - 1);
        assert forall|i: int| u.contains(i) implies pos[i] >= r by {
            assert(kept(ops, i));
            let (d, j) = choose|d: int, j: int|
                #![trigger ops[i].dependencies@[d], u.contains(j)]
                0 <= d < ops[i].dependencies@.len() && resolves(ops, ops[i].dependencies@[d].predecessor@, j)
                    && u.contains(j);
            assert(tv[i].len() == ops[i].dependencies@.len());
            match tv[i][d] {
                Some(t) => {
                    lemma_resolves_unique(ops, ops[i].dependencies@[d].predecessor@, j, t as int);
                },
                None => {
                    assert(!resolves(ops, ops[i].dependencies@[d].predecessor@, j));
                },
            }
        }
    } else {
        assert forall|i: int| u.contains(i) implies pos[i] >= r by {
            assert(kept(ops, i));
        }
    }
}

/// The facts about `keep` and the exact targets that cycle detection uses.
pub open spec fn exact_tables(ops: Seq<Operation>, keep: Seq<bool>, tv: Seq<Seq<Option<usize>>>) -> bool {
    &&& keep.len() == ops.len()
    &&& forall|m: int| 0 <= m < ops.len() ==> #[trigger] keep[m] == kept(ops, m)
    &&& tv.len() == ops.len()
    &&& forall|m: int| 0 <= m < ops.len() ==> #[trigger] tv[m].len() == ops[m].dependencies@.len()
    &&& forall|m: int, d: int|
        #![trigger tv[m][d]]
        0 <= m < ops.len() && 0 <= d < tv[m].len() ==> match tv[m][d] {
            Some(j) => resolves(ops, ops[m].dependencies@[d].predecessor@, j as int),
            None => forall|j: int| !resolves(ops, ops[m].dependencies@[d].predecessor@, j),
        }
}

/// Mark resolved, pass after pass, every operation whose named predecessors
/// are all resolved, until a pass changes nothing.
fn resolve_all(ops: &Vec<Operation>, keep: &Vec<bool>, targets: &Vec<Vec<Option<usize>>>) -> (r: (
    Vec<bool>,
    Ghost<Seq<int>>,
    Ghost<int>,
))
    requires
        exact_tables(ops@, keep@, targets@.map_values(|t: Vec<Option<usize>>| t@)),
    ensures
        resolved_ok(ops@, targets@.map_values(|t: Vec<Option<usize>>| t@), r.0@, r.1@, r.2@),
        forall|m: int|
            0 <= m < ops@.len() && #[trigger] keep@[m] && !r.0@[m] ==> waits(
                targets@.map_values(|t: Vec<Option<usize>>| t@),
                r.0@,
                m,
            ),
{
    let n = ops.len();
    let ghost tv = targets@.map_values(|t: Vec<Option<usize>>| t@);
    let mut resolved: Vec<bool> = Vec::new();
    let mut k: usize = 0;
    while k < n
        invariant
            k <= n,
            resolved@.len() == k,
            forall|m: int| 0 <= m < k ==> !#[trigger] resolved@[m],
        decreases n - k,
    {
        resolved.push(false);
        k = k + 1;
    }
    let ghost mut pos: Seq<int> = Seq::new(n as nat, |i: int| 0);
    let ghost mut cnt: int = 0;
    proof {
        crate::schedule::rounds::lemma_n_true_zero_pub(resolved@);
    }
    loop
        invariant
            n == ops@.len(),
            tv == targets@.map_values(|t: Vec<Option<usize>>| t@),
            exact_tables(ops@, keep@, tv),
            resolved_ok(ops@, tv, resolved@, pos, cnt),
            0 <= cnt <= n,
            cnt == crate::schedule::rounds::n_true(resolved@),
        ensures
            resolved_ok(ops@, tv, resolved@, pos, cnt),
            forall|m: int| 0 <= m < n && #[trigger] keep@[m] && !resolved@[m] ==> waits(tv, resolved@, m),
        decreases n - cnt,
    {
        let mut changed = false;
        let ghost start_cnt = cnt;
        let mut i: usize = 0;
        while i < n
            invariant
                n == ops@.len(),
                tv == targets@.map_values(|t: Vec<Option<usize>>| t@),
                exact_tables(ops@, keep@, tv),
                resolved_ok(ops@, tv, resolved@, pos, cnt),
                cnt == crate::schedule::rounds::n_true(resolved@),
                i <= n,
                changed ==> cnt > start_cnt,
                !changed ==> cnt == start_cnt,
                start_cnt <= cnt <= n,
                !changed ==> forall|m: int| 0 <= m < i && #[trigger] keep@[m] && !resolved@[m] ==> waits(tv, resolved@, m),
            decreases n - i,
        {
            proof {
                assert(tv[i as int] == targets@[i as int]@);
                assert forall|d: int| 0 <= d < targets@[i as int]@.len() implies match #[trigger] targets@[i as int]@[d] {
                    Some(j) => j < resolved@.len(),
                    None => true,
                } by {
                    assert(tv[i as int][d] == targets@[i as int]@[d]);
                }
            }
            if keep[i] && !resolved[i] && all_resolved(&targets[i], &resolved) {
                let ghost old = resolved@;
                proof {
                    crate::schedule::rounds::lemma_n_true_set_pub(resolved@, i as int, true);
                    crate::schedule::rounds::lemma_n_true_bound_pub(resolved@.update(i as int, true));
                }
                resolved.set(i, true);
                proof {
                    pos = pos.update(i as int, cnt);
                    cnt = cnt + 1;
                    assert forall|a: int, d: int|
                        #![trigger resolved@[a], tv[a][d]]
                        0 <= a < n && resolved@[a] && 0 <= d < tv[a].len() && tv[a][d] is Some implies {
                            let j = tv[a][d]->0 as int;
                            resolved@[j] && pos[j] < pos[a]
                        } by {
                        let j = tv[a][d]->0 as int;
                        if a == i {
                            assert(tv[a][d] == targets@[a]@[d]);
                            assert(old[j]);
                        } else {
                            assert(old[a]);
                            assert(old[j]);
                        }
                    }
                }
                changed = true;
            } else {
                proof {
                    if !changed && keep@[i as int] && !resolved@[i as int] {
                        let d = choose|d: int|
                            #![trigger targets@[i as int]@[d]]
                            0 <= d < targets@[i as int]@.len() && targets@[i as int]@[d] is Some && !resolved@[targets@[i as int]@[d]->0 as int];
                        assert(tv[i as int][d] == targets@[i as int]@[d]);
                    }
                }
            }
            i = i + 1;
        }
        if !changed {
            break;
        }
    }
    (resolved, Ghost(pos), Ghost(cnt))
}

/// The unresolved operations, when there are any, wait on one another.
proof fn lemma_unresolved_circular(
    ops: Seq<Operation>,
    keep: Seq<bool>,
    tv: Seq<Seq<Option<usize>>>,
    resolved: Seq<bool>,
    w: int,
)
    requires
        exact_tables(ops, keep, tv),
        resolved.len() == ops.len(),
        forall|m: int| 0 <= m < ops.len() && #[trigger] keep[m] && !resolved[m] ==> waits(tv, resolved, m),
        0 <= w < ops.len(),
        keep[w] && !resolved[w],
    ensures
        exists|u: Set<int>| #[trigger] circular(ops, u) && u.contains(w),
{
    let n = ops.len();
    let u = Set::new(|m: int| 0 <= m < n && keep[m] && !resolved[m]);
    assert(u.contains(w));
    assert forall|a: int| u.contains(a) implies kept(ops, a) && exists|d: int, j: int|
        #![trigger ops[a].dependencies@[d], u.contains(j)]
        0 <= d < ops[a].dependencies@.len() && resolves(ops, ops[a].dependencies@[d].predecessor@, j)
            && u.contains(j) by {
        assert(keep[a]);
        assert(waits(tv, resolved, a));
        let d = choose|d: int|
            #![trigger tv[a][d]]
            0 <= d < tv[a].len() && tv[a][d] is Some && !resolved[tv[a][d]->0 as int];
        let j = tv[a][d]->0 as int;
        assert(resolves(ops, ops[a].dependencies@[d].predecessor@, j));
        assert(keep[j]);
        assert(u.contains(j));
        assert(ops[a].dependencies@[d] == ops[a].dependencies@[d]);
    }
    assert(circular(ops, u));
}

/// With every operation resolved, each comes after what it names.
proof fn lemma_resolved_facts(
    ops: Seq<Operation>,
    keep: Seq<bool>,
    tv: Seq<Seq<Option<usize>>>,
    resolved: Seq<bool>,
    pos: Seq<int>,
    cnt: int,
)
    requires
        exact_tables(ops, keep, tv),
        resolved_ok(ops, tv, resolved, pos, cnt),
        forall|m: int| 0 <= m < ops.len() && #[trigger] keep[m] ==> resolved[m],
    ensures
        forall|i: int| kept(ops, i) ==> pos[i] >= 0,
        forall|i: int, d: int|
            #![trigger tv[i][d]]
            kept(ops, i) && 0 <= d < ops[i].dependencies@.len() && tv[i][d] is Some ==> pos[tv[i][d]->0 as int] < pos[i],
{
    assert forall|m: int| kept(ops, m) implies pos[m] >= 0 by {
        assert(keep[m]);
    }
    assert forall|a: int, d: int|
        #![trigger tv[a][d]]
        kept(ops, a) && 0 <= d < ops[a].dependencies@.len() && tv[a][d] is Some implies pos[tv[a][d]->0 as int] < pos[a] by {
        assert(keep[a]);
        assert(resolved[a]);
    }
}

/// When each operation comes after what it names, there is no cycle.
#[verifier::rlimit(50)]
proof fn lemma_resolved_acyclic(ops: Seq<Operation>, tv: Seq<Seq<Option<usize>>>, pos: Seq<int>)
    requires
        forall|i: int| kept(ops, i) ==> pos[i] >= 0,
        forall|i: int, d: int|
            #![trigger tv[i][d]]
            kept(ops, i) && 0 <= d < ops[i].dependencies@.len() && tv[i][d] is Some ==> pos[tv[i][d]->0 as int] < pos[i],
        forall|i: int| 0 <= i < ops.len() ==> #[trigger] tv[i].len() == ops[i].dependencies@.len(),
        forall|i: int, d: int|
            #![trigger tv[i][d]]
            0 <= i < ops.len() && 0 <= d < tv[i].len() ==> match tv[i][d] {
                Some(j) => resolves(ops, ops[i].dependencies@[d].predecessor@, j as int),
                None => forall|j: int| !resolves(ops, ops[i].dependencies@[d].predecessor@, j),
            },
    ensures
        !has_cycle(ops),
{
    if has_cycle(ops) {
        let u = choose|u: Set<int>| circular(ops, u);
        let w = choose|m: int| u.contains(m);
        lemma_no_cycle_below(ops, tv, pos, u, pos[w] + 1);
    }
}

/// An operation from which a cycle of dependencies is reachable, if there is
/// a cycle.
fn find_cycle(ops: &Vec<Operation>) -> (r: Option<usize>)
    ensures
        r is None <==> !has_cycle(ops@),
        r matches Some(i) ==> exists|u: Set<int>| #[trigger] circular(ops@, u) && u.contains(i as int),
{
    let n = ops.len();
    let keep = kept_flags(ops);
    let targets = exact_targets(ops);
    let ghost tv = targets@.map_values(|t: Vec<Option<usize>>| t@);
    proof {
        assert forall|m: int| 0 <= m < n implies #[trigger] tv[m].len() == ops@[m].dependencies@.len() by {
            assert(tv[m] == targets@[m]@);
        }
        assert forall|m: int, d: int|
            #![trigger tv[m][d]]
            0 <= m < n && 0 <= d < tv[m].len() implies match tv[m][d] {
                Some(j) => resolves(ops@, ops@[m].dependencies@[d].predecessor@, j as int),
                None => forall|j: int| !resolves(ops@, ops@[m].dependencies@[d].predecessor@, j),
            } by {
            assert(tv[m] == targets@[m]@);
            assert(tv[m][d] == targets@[m]@[d]);
        }
    }
    let (resolved, Ghost(pos), Ghost(cnt)) = resolve_all(ops, &keep, &targets);
    let mut i: usize = 0;
    while i < n
        invariant
            n == ops@.len(),
            exact_tables(ops@, keep@, tv),
            resolved@.len() == n,
            forall|m: int| 0 <= m < n && #[trigger] keep@[m] && !resolved@[m] ==> waits(tv, resolved@, m),
            i <= n,
            forall|m: int| 0 <= m < i ==> !(#[trigger] keep@[m] && !resolved@[m]),
        decreases n - i,
    {
        if keep[i] && !resolved[i] {
            proof {
                lemma_unresolved_circular(ops@, keep@, tv, resolved@, i as int);
            }
            return Some(i);
        }
        i = i + 1;
    }
    proof {
        assert forall|m: int| 0 <= m < n && #[trigger] keep@[m] implies resolved@[m] by {
            assert(!(keep@[m] && !resolved@[m]));
        }
        lemma_resolved_facts(ops@, keep@, tv, resolved@, pos, cnt);
        lemma_resolved_acyclic(ops@, tv, pos);
    }
    None
}

/// An operation that a circle of dependencies is reachable from: it belongs
/// to a group whose members each wait on another member.
pub open spec fn on_a_cycle(ops: Seq<Operation>, i: int) -> bool {
    exists|u: Set<int>| #[trigger] circular(ops, u) && u.contains(i)
}

/// Check `recipe`: first a finding for each binding to an undeclared
/// resource and each dependency on an undeclared operation, operation by
/// operation; then, when operations wait on one another in a circle, one
/// finding that names one of them.
pub fn validate(recipe: &Recipe) -> (r: Vec<Diagnostic>)
    ensures
        ({
            let refs = reference_findings(*recipe, recipe.operations@.len() as int);
            let ops = recipe.operations@;
            &&& !has_cycle(ops) ==> views(r@) == refs
            &&& has_cycle(ops) ==> {
                &&& r@.len() == refs.len() + 1
                &&& views(r@).take(refs.len() as int) == refs
                &&& r@.last().code@ == "CG2001"@
                &&& exists|i: int|
                    on_a_cycle(ops, i) && r@.last().message@ == cycle_message(#[trigger] ops[i].symbol@)
            }
        }),
{
    let mut out = reference_checks(recipe);
    let ghost refs = views(out@);
    match find_cycle(&recipe.operations) {
        Some(i) => {
            let message = concat3("dependency cycle includes `", recipe.operations[i].symbol.as_str(), "`");
            out.push(Diagnostic { code: "CG2001", message });
            proof {
                assert(views(out@).take(refs.len() as int) =~= refs);
                assert(on_a_cycle(recipe.operations@, i as int));
            }
        },
        None => {},
    }
    out
}

pub open spec fn severity_of(code: Seq<char>) -> DiagnosticSeverity {
    if code.len() >= 3 && code[0] == 'C' && code[1] == 'G' && code[2] == '2' {
        DiagnosticSeverity::Error
    } else {
        DiagnosticSeverity::Warning
    }
}

fn code_severity(code: &str) -> (r: DiagnosticSeverity)
    ensures
        r == severity_of(code@),
{
    let n = code.unicode_len();
    if n >= 3 && code.get_char(0) == 'C' && code.get_char(1) == 'G' && code.get_char(2) == '2' {
        DiagnosticSeverity::Error
    } else {
        DiagnosticSeverity::Warning
    }
}

impl CulinatorValidator {
    /// The findings of [`validate`] as source diagnostics: cycles (codes
    /// starting `CG2`) are errors, everything else a warning; none carries a
    /// span.
    pub fn validate(&self, recipe: &Recipe) -> (r: Vec<SourceDiagnostic>)
        ensures
            exists|ds: Seq<Diagnostic>|
                #![trigger views(ds)]
                validated(*recipe, ds) && r@.len() == ds.len() && forall|k: int|
                    0 <= k < ds.len() ==> {
                        &&& (#[trigger] r@[k]).code@ == ds[k].code@
                        &&& r@[k].message@ == ds[k].message@
                        &&& r@[k].severity == severity_of(ds[k].code@)
                        &&& r@[k].start is None
                        &&& r@[k].end is None
                    },
    {
        let found = validate(recipe);
        let mut out: Vec<SourceDiagnostic> = Vec::new();
        let mut k: usize = 0;
        while k < found.len()
            invariant
                k <= found@.len(),
                out@.len() == k,
                forall|m: int|
                    0 <= m < k ==> {
                        &&& (#[trigger] out@[m]).code@ == found@[m].code@
                        &&& out@[m].message@ == found@[m].message@
                        &&& out@[m].severity == severity_of(found@[m].code@)
                        &&& out@[m].start is None
                        &&& out@[m].end is None
                    },
            decreases found@.len() - k,
        {
            let d = &found[k];
            out.push(SourceDiagnostic {
                code: d.code.to_owned(),
                severity: code_severity(d.code),
                message: d.message.clone(),
                start: None,
                end: None,
            });
            k = k + 1;
        }
        proof {
            assert(validated(*recipe, found@));
        }
        out
    }
}

/// `ds` is what [`validate`] may return for `recipe`.
pub open spec fn validated(recipe: Recipe, ds: Seq<Diagnostic>) -> bool {
    let refs = reference_findings(recipe, recipe.operations@.len() as int);
    let ops = recipe.operations@;
    &&& !has_cycle(ops) ==> views(ds) == refs
    &&& has_cycle(ops) ==> {
        &&& ds.len() == refs.len() + 1
        &&& views(ds).take(refs.len() as int) == refs
        &&& ds.last().code@ == "CG2001"@
        &&& exists|i: int| on_a_cycle(ops, i) && ds.last().message@ == cycle_message(#[trigger] ops[i].symbol@)
    }
}

proof fn lemma_dependency_finding(ops: Seq<Operation>, op: Operation, m: int, d: int)
    requires
        0 <= d < m <= op.dependencies@.len(),
        !declares_operation(ops, op.dependencies@[d].predecessor@),
    ensures
        dependency_findings(ops, op, m).contains(
            ("CG1002"@, unknown_operation_message(op.symbol@, op.dependencies@[d].predecessor@)),
        ),
    decreases m,
{
    let f = ("CG1002"@, unknown_operation_message(op.symbol@, op.dependencies@[d].predecessor@));
    let rest = dependency_findings(ops, op, m - 1);
    if d < m - 1 {
        lemma_dependency_finding(ops, op, m - 1, d);
        let j = choose|j: int| 0 <= j < rest.len() && rest[j] == f;
        if declares_operation(ops, op.dependencies@[m - 1].predecessor@) {
        } else {
            assert(dependency_findings(ops, op, m)[j] == f);
        }
    } else {
        assert(dependency_findings(ops, op, m) == rest.push(f));
        assert(dependency_findings(ops, op, m)[rest.len() as int] == f);
    }
}

proof fn lemma_binding_finding(resources: Seq<Resource>, op: Operation, m: int, d: int)
    requires
        0 <= d < m <= op.bindings@.len(),
        !declares_resource(resources, op.bindings@[d].resource@),
    ensures
        binding_findings(resources, op, m).contains(
            ("CG1001"@, unknown_resource_message(op.symbol@, op.bindings@[d].resource@)),
        ),
    decreases m,
{
    let f = ("CG1001"@, unknown_resource_message(op.symbol@, op.bindings@[d].resource@));
    let rest = binding_findings(resources, op, m - 1);
    if d < m - 1 {
        lemma_binding_finding(resources, op, m - 1, d);
        let j = choose|j: int| 0 <= j < rest.len() && rest[j] == f;
        if declares_resource(resources, op.bindings@[m - 1].resource@) {
        } else {
            assert(binding_findings(resources, op, m)[j] == f);
        }
    } else {
        assert(binding_findings(resources, op, m) == rest.push(f));
        assert(binding_findings(resources, op, m)[rest.len() as int] == f);
    }
}

proof fn lemma_reference_finding(recipe: Recipe, n: int, k: int, f: (Seq<char>, Seq<char>))
    requires
        0 <= k < n <= recipe.operations@.len(),
        ({
            let op = recipe.operations@[k];
            binding_findings(recipe.resources@, op, op.bindings@.len() as int).contains(f)
                || dependency_findings(recipe.operations@, op, op.dependencies@.len() as int).contains(f)
        }),
    ensures
        reference_findings(recipe, n).contains(f),
    decreases n,
{
    let op = recipe.operations@[n - 1];
    let prev = reference_findings(recipe, n - 1);
    let bf = binding_findings(recipe.resources@, op, op.bindings@.len() as int);
    let df = dependency_findings(recipe.operations@, op, op.dependencies@.len() as int);
    let all = reference_findings(recipe, n);
    assert(all == prev + bf + df);
    if k < n - 1 {
        lemma_reference_finding(recipe, n - 1, k, f);
        let j = choose|j: int| 0 <= j < prev.len() && prev[j] == f;
        assert(all[j] == f);
    } else if bf.contains(f) {
        let j = choose|j: int| 0 <= j < bf.len() && bf[j] == f;
        assert(all[prev.len() + j] == f);
    } else {
        let j = choose|j: int| 0 <= j < df.len() && df[j] == f;
        assert(all[prev.len() + bf.len() + j] == f);
    }
}

/// Whatever else it finds, checking a recipe reports every dependency on an
/// operation the recipe does not declare, and every binding of a resource it
/// does not declare, each with the operation's and the missing name's
/// symbols in its message; so a recipe checked without findings declares
/// every predecessor and every bound resource.
pub proof fn lemma_unknown_references_reported(recipe: Recipe, ds: Seq<Diagnostic>, k: int, d: int)
    requires
        validated(recipe, ds),
        0 <= k < recipe.operations@.len(),
    ensures
        0 <= d < recipe.operations@[k].dependencies@.len() && !(exists|j: int|
            0 <= j < recipe.operations@.len() && (#[trigger] recipe.operations@[j]).symbol@
                == recipe.operations@[k].dependencies@[d].predecessor@) ==> views(ds).contains(
            (
                "CG1002"@,
                "operation `"@ + recipe.operations@[k].symbol@ + "` depends on unknown operation `"@
                    + recipe.operations@[k].dependencies@[d].predecessor@ + "`"@,
            ),
        ),
        0 <= d < recipe.operations@[k].bindings@.len() && !(exists|j: int|
            0 <= j < recipe.resources@.len() && (#[trigger] recipe.resources@[j]).symbol@
                == recipe.operations@[k].bindings@[d].resource@) ==> views(ds).contains(
            (
                "CG1001"@,
                "operation `"@ + recipe.operations@[k].symbol@ + "` references unknown resource `"@
                    + recipe.operations@[k].bindings@[d].resource@ + "`"@,
            ),
        ),
        ds.len() == 0 ==> (0 <= d < recipe.operations@[k].dependencies@.len() ==> exists|j: int|
            0 <= j < recipe.operations@.len() && (#[trigger] recipe.operations@[j]).symbol@
                == recipe.operations@[k].dependencies@[d].predecessor@),
{
    let n = recipe.operations@.len() as int;
    let refs = reference_findings(recipe, n);
    let op = recipe.operations@[k];
    assert(refs.len() <= views(ds).len() && views(ds).take(refs.len() as int) == refs) by {
        if !has_cycle(recipe.operations@) {
            assert(views(ds).take(refs.len() as int) =~= refs);
        }
    }
    if 0 <= d < op.dependencies@.len() && !declares_operation(recipe.operations@, op.dependencies@[d].predecessor@) {
        let f = ("CG1002"@, unknown_operation_message(op.symbol@, op.dependencies@[d].predecessor@));
        lemma_dependency_finding(recipe.operations@, op, op.dependencies@.len() as int, d);
        lemma_reference_finding(recipe, n, k, f);
        let j = choose|j: int| 0 <= j < refs.len() && refs[j] == f;
        assert(views(ds).take(refs.len() as int)[j] == f);
        assert(views(ds)[j] == f);
    }
    if 0 <= d < op.bindings@.len() && !declares_resource(recipe.resources@, op.bindings@[d].resource@) {
        let f = ("CG1001"@, unknown_resource_message(op.symbol@, op.bindings@[d].resource@));
        lemma_binding_finding(recipe.resources@, op, op.bindings@.len() as int, d);
        lemma_reference_finding(recipe, n, k, f);
        let j = choose|j: int| 0 <= j < refs.len() && refs[j] == f;
        assert(views(ds).take(refs.len() as int)[j] == f);
        assert(views(ds)[j] == f);
    }
}

/// A recipe whose every binding names a declared resource, whose every
/// dependency names a declared operation and whose operations do not wait on
/// one another in a circle checks clean.
pub proof fn lemma_sound_recipe_checks_clean(recipe: Recipe, ds: Seq<Diagnostic>)
    requires
        validated(recipe, ds),
        !has_cycle(recipe.operations@),
        forall|k: int, d: int|
            #![trigger recipe.operations@[k].bindings@[d]]
            0 <= k < recipe.operations@.len() && 0 <= d < recipe.operations@[k].bindings@.len()
                ==> exists|j: int|
                0 <= j < recipe.resources@.len() && (#[trigger] recipe.resources@[j]).symbol@
                    == recipe.operations@[k].bindings@[d].resource@,
        forall|k: int, d: int|
            #![trigger recipe.operations@[k].dependencies@[d]]
            0 <= k < recipe.operations@.len() && 0 <= d < recipe.operations@[k].dependencies@.len()
                ==> exists|j: int|
                0 <= j < recipe.operations@.len() && (#[trigger] recipe.operations@[j]).symbol@
                    == recipe.operations@[k].dependencies@[d].predecessor@,
    ensures
        ds.len() == 0,
{
    lemma_clean_upto(recipe, recipe.operations@.len() as int);
}

proof fn lemma_clean_upto(recipe: Recipe, n: int)
    requires
        0 <= n <= recipe.operations@.len(),
        forall|k: int, d: int|
            #![trigger recipe.operations@[k].bindings@[d]]
            0 <= k < recipe.operations@.len() && 0 <= d < recipe.operations@[k].bindings@.len()
                ==> exists|j: int|
                0 <= j < recipe.resources@.len() && (#[trigger] recipe.resources@[j]).symbol@
                    == recipe.operations@[k].bindings@[d].resource@,
        forall|k: int, d: int|
            #![trigger recipe.operations@[k].dependencies@[d]]
            0 <= k < recipe.operations@.len() && 0 <= d < recipe.operations@[k].dependencies@.len()
                ==> exists|j: int|
                0 <= j < recipe.operations@.len() && (#[trigger] recipe.operations@[j]).symbol@
                    == recipe.operations@[k].dependencies@[d].predecessor@,
    ensures
        reference_findings(recipe, n).len() == 0,
    decreases n,
{
    if n > 0 {
        lemma_clean_upto(recipe, n - 1);
        let op = recipe.operations@[n - 1];
        let k = n - 1;
        assert forall|d: int|
            0 <= d < recipe.operations@[k].bindings@.len() implies declares_resource(
                recipe.resources@,
                #[trigger] recipe.operations@[k].bindings@[d].resource@,
            ) by {
            let b = recipe.operations@[k].bindings@[d];
            let j = choose|j: int|
                0 <= j < recipe.resources@.len() && (#[trigger] recipe.resources@[j]).symbol@ == b.resource@;
            assert(recipe.resources@[j].symbol@ == b.resource@);
        }
        assert forall|d: int|
            0 <= d < recipe.operations@[k].dependencies@.len() implies declares_operation(
                recipe.operations@,
                #[trigger] recipe.operations@[k].dependencies@[d].predecessor@,
            ) by {
            let e = recipe.operations@[k].dependencies@[d];
            let j = choose|j: int|
                0 <= j < recipe.operations@.len() && (#[trigger] recipe.operations@[j]).symbol@ == e.predecessor@;
            assert(recipe.operations@[j].symbol@ == e.predecessor@);
        }
        lemma_bindings_clean(recipe, n - 1, op.bindings@.len() as int);
        lemma_dependencies_clean(recipe, n - 1, op.dependencies@.len() as int);
    }
}

proof fn lemma_bindings_clean(recipe: Recipe, k: int, m: int)
    requires
        0 <= k < recipe.operations@.len(),
        0 <= m <= recipe.operations@[k].bindings@.len(),
        forall|d: int|
            0 <= d < recipe.operations@[k].bindings@.len() ==> declares_resource(
                recipe.resources@,
                #[trigger] recipe.operations@[k].bindings@[d].resource@,
            ),
    ensures
        binding_findings(recipe.resources@, recipe.operations@[k], m).len() == 0,
    decreases m,
{
    if m > 0 {
        lemma_bindings_clean(recipe, k, m - 1);
        assert(declares_resource(recipe.resources@, recipe.operations@[k].bindings@[m - 1].resource@));
    }
}

proof fn lemma_dependencies_clean(recipe: Recipe, k: int, m: int)
    requires
        0 <= k < recipe.operations@.len(),
        0 <= m <= recipe.operations@[k].dependencies@.len(),
        forall|d: int|
            0 <= d < recipe.operations@[k].dependencies@.len() ==> declares_operation(
                recipe.operations@,
                #[trigger] recipe.operations@[k].dependencies@[d].predecessor@,
            ),
    ensures
        dependency_findings(recipe.operations@, recipe.operations@[k], m).len() == 0,
    decreases m,
{
    if m > 0 {
        lemma_dependencies_clean(recipe, k, m - 1);
        assert(declares_operation(recipe.operations@, recipe.operations@[k].dependencies@[m - 1].predecessor@));
    }
}

} // verus!
