//! The critical path of a finished schedule: the steps that end last, then,
//! from the first of them, the chain of predecessors each of which finishes
//! exactly when the next one starts.

use vstd::prelude::*;
use crate::syntax::text::str_eq;
use crate::model::LaborMode;

verus! {

/// One operation placed on the timeline.
#[derive(Debug)]
pub struct ScheduledOperation {
    pub symbol: String,
    pub process: String,
    pub action: String,
    pub start_seconds: u64,
    pub end_seconds: u64,
    pub duration_seconds: u64,
    pub labor: Option<LaborMode>,
    /// The symbols of its predecessors.
    pub dependencies: Vec<String>,
    /// The resources it binds.
    pub resources: Vec<String>,
}

/// The first operation from position `k` on whose symbol is `s`.
pub open spec fn find_from(outs: Seq<ScheduledOperation>, s: Seq<char>, k: int) -> Option<int>
    decreases outs.len() - k,
{
    if k < 0 || k >= outs.len() {
        None
    } else if outs[k].symbol@ == s {
        Some(k)
    } else {
        find_from(outs, s, k + 1)
    }
}

/// Among the first `m` predecessors of `outs[it]`, the one that ends exactly
/// when it starts and starts latest (the later-listed one on a tie).
pub open spec fn best_upto(outs: Seq<ScheduledOperation>, it: int, m: int) -> Option<int>
    decreases m,
{
    if m <= 0 {
        None
    } else {
        let prev = best_upto(outs, it, m - 1);
        match find_from(outs, outs[it].dependencies@[m - 1]@, 0) {
            Some(c) => if outs[c].end_seconds == outs[it].start_seconds {
                match prev {
                    Some(p) => if outs[c].start_seconds >= outs[p].start_seconds {
                        Some(c)
                    } else {
                        Some(p)
                    },
                    None => Some(c),
                }
            } else {
                prev
            },
            None => prev,
        }
    }
}

pub open spec fn best_prev(outs: Seq<ScheduledOperation>, it: int) -> Option<int> {
    best_upto(outs, it, outs[it].dependencies@.len() as int)
}

/// The symbols of the tight predecessors followed back from `outs[it]`.
pub open spec fn chain(outs: Seq<ScheduledOperation>, it: int) -> Seq<Seq<char>>
    decreases outs[it].start_seconds,
{
    match best_prev(outs, it) {
        Some(p) => if 0 <= p < outs.len() && outs[p].start_seconds < outs[it].start_seconds {
            seq![outs[p].symbol@] + chain(outs, p)
        } else {
            Seq::empty()
        },
        None => Seq::empty(),
    }
}

/// The symbols of the operations among the first `k` that end at `mk`.
pub open spec fn enders(outs: Seq<ScheduledOperation>, mk: u64, k: int) -> Seq<Seq<char>>
    decreases k,
{
    if k <= 0 {
        Seq::empty()
    } else if outs[k - 1].end_seconds == mk {
        enders(outs, mk, k - 1).push(outs[k - 1].symbol@)
    } else {
        enders(outs, mk, k - 1)
    }
}

/// The first operation that ends at `mk`.
pub open spec fn first_ender(outs: Seq<ScheduledOperation>, mk: u64, k: int) -> Option<int>
    decreases outs.len() - k,
{
    if k < 0 || k >= outs.len() {
        None
    } else if outs[k].end_seconds == mk {
        Some(k)
    } else {
        first_ender(outs, mk, k + 1)
    }
}

/// The critical path, earliest step first: the steps ending at `mk` and
/// the chain behind the first of them, read backwards.
pub open spec fn critical(outs: Seq<ScheduledOperation>, mk: u64) -> Seq<Seq<char>> {
    let e = enders(outs, mk, outs.len() as int);
    match first_ender(outs, mk, 0) {
        Some(f) => (e + chain(outs, f)).reverse(),
        None => e.reverse(),
    }
}

fn find_out(outs: &Vec<ScheduledOperation>, s: &str) -> (r: Option<usize>)
    ensures
        find_from(outs@, s@, 0) == (match r {
            Some(k) => Some(k as int),
            None => None::<int>,
        }),
{
    let mut k: usize = 0;
    while k < outs.len()
        invariant
            k <= outs@.len(),
            find_from(outs@, s@, 0) == find_from(outs@, s@, k as int),
        decreases outs@.len() - k,
    {
        if str_eq(outs[k].symbol.as_str(), s) {
            return Some(k);
        }
        k = k + 1;
    }
    None
}

fn best_predecessor(outs: &Vec<ScheduledOperation>, it: usize) -> (r: Option<usize>)
    requires
        it < outs@.len(),
    ensures
        best_prev(outs@, it as int) == (match r {
            Some(k) => Some(k as int),
            None => None::<int>,
        }),
        r matches Some(k) ==> k < outs@.len() && outs@[k as int].end_seconds == outs@[it as int].start_seconds,
{
    let item = &outs[it];
    let mut best: Option<usize> = None;
    let mut m: usize = 0;
    while m < item.dependencies.len()
        invariant
            it < outs@.len(),
            item == outs@[it as int],
            m <= item.dependencies@.len(),
            best_upto(outs@, it as int, m as int) == (match best {
                Some(k) => Some(k as int),
                None => None::<int>,
            }),
            best matches Some(k) ==> k < outs@.len() && outs@[k as int].end_seconds == outs@[it as int].start_seconds,
        decreases item.dependencies@.len() - m,
    {
        proof {
            lemma_find_from_range(outs@, item.dependencies@[m as int]@, 0);
        }
        match find_out(outs, item.dependencies[m].as_str()) {
            Some(c) => {
                if outs[c].end_seconds == item.start_seconds {
                    best = match best {
                        Some(p) => if outs[c].start_seconds >= outs[p].start_seconds {
                            Some(c)
                        } else {
                            Some(p)
                        },
                        None => Some(c),
                    };
                }
            },
            None => {},
        }
        m = m + 1;
    }
    best
}

proof fn lemma_find_from_range(outs: Seq<ScheduledOperation>, s: Seq<char>, k: int)
    ensures
        find_from(outs, s, k) matches Some(c) ==> 0 <= c < outs.len(),
    decreases outs.len() - k,
{
    if 0 <= k < outs.len() && outs[k].symbol@ != s {
        lemma_find_from_range(outs, s, k + 1);
    }
}

/// Dependency `d` of `outs[it]` names the operation `outs[c]`, which ends
/// exactly when `outs[it]` starts.
pub open spec fn tight_via(outs: Seq<ScheduledOperation>, it: int, d: int, c: int) -> bool {
    &&& 0 <= d < outs[it].dependencies@.len()
    &&& find_from(outs, outs[it].dependencies@[d]@, 0) == Some(c)
    &&& outs[c].end_seconds == outs[it].start_seconds
}

proof fn lemma_best_upto(outs: Seq<ScheduledOperation>, it: int, m: int)
    requires
        0 <= it < outs.len(),
        0 <= m <= outs[it].dependencies@.len(),
    ensures
        best_upto(outs, it, m) matches Some(p) ==> exists|d: int| 0 <= d < m && #[trigger] tight_via(outs, it, d, p),
        best_upto(outs, it, m) matches Some(p) ==> forall|d: int, c: int|
            0 <= d < m && #[trigger] tight_via(outs, it, d, c) ==> outs[c].start_seconds <= outs[p].start_seconds,
        best_upto(outs, it, m) is None ==> forall|d: int, c: int| 0 <= d < m ==> !#[trigger] tight_via(outs, it, d, c),
    decreases m,
{
    if m > 0 {
        lemma_best_upto(outs, it, m - 1);
        let prev = best_upto(outs, it, m - 1);
        let look = find_from(outs, outs[it].dependencies@[m - 1]@, 0);
        if let Some(c0) = look {
            if outs[c0].end_seconds == outs[it].start_seconds {
                assert(tight_via(outs, it, m - 1, c0));
            }
        }
        match best_upto(outs, it, m) {
            Some(p) => {
                if prev == Some(p) {
                    let d0 = choose|d: int| 0 <= d < m - 1 && #[trigger] tight_via(outs, it, d, p);
                    assert(tight_via(outs, it, d0, p));
                }
            },
            None => {},
        }
    }
}

/// Among all of a step's dependencies, the predecessor the path steps back
/// to is one that ends exactly when the step starts, and none of those
/// starts later; when there is none, the path stops.
pub proof fn lemma_best_prev_latest_tight(outs: Seq<ScheduledOperation>, it: int)
    requires
        0 <= it < outs.len(),
    ensures
        best_prev(outs, it) matches Some(p) ==> 0 <= p < outs.len() && exists|d: int|
            #[trigger] tight_via(outs, it, d, p),
        best_prev(outs, it) matches Some(p) ==> forall|d: int, c: int|
            #[trigger] tight_via(outs, it, d, c) ==> outs[c].start_seconds <= outs[p].start_seconds,
        best_prev(outs, it) is None ==> forall|d: int, c: int| !#[trigger] tight_via(outs, it, d, c),
{
    lemma_best_upto(outs, it, outs[it].dependencies@.len() as int);
    if let Some(p) = best_prev(outs, it) {
        let d0 = choose|d: int| #[trigger] tight_via(outs, it, d, p);
        lemma_find_from_range(outs, outs[it].dependencies@[d0]@, 0);
    }
}

/// Walking back from a step of a schedule whose steps all take time: when
/// any of its dependencies ends exactly when it starts, the path goes on to
/// such a dependency, the latest-starting one, and continues from there;
/// when none does, the path stops at the step.
pub proof fn lemma_chain_follows_tight(outs: Seq<ScheduledOperation>, it: int)
    requires
        0 <= it < outs.len(),
        forall|k: int| 0 <= k < outs.len() ==> (#[trigger] outs[k]).start_seconds < outs[k].end_seconds,
    ensures
        (forall|d: int, c: int| !#[trigger] tight_via(outs, it, d, c)) ==> chain(outs, it).len() == 0,
        (exists|d: int, c: int| #[trigger] tight_via(outs, it, d, c)) ==> exists|p: int|
            0 <= p < outs.len() && (exists|d: int| #[trigger] tight_via(outs, it, d, p)) && (forall|
                d: int,
                c: int,
            | #[trigger] tight_via(outs, it, d, c) ==> outs[c].start_seconds <= outs[p].start_seconds)
                && #[trigger] chain(outs, it) == seq![outs[p].symbol@] + chain(outs, p),
{
    lemma_best_prev_latest_tight(outs, it);
    match best_prev(outs, it) {
        Some(p) => {
            assert(outs[p].start_seconds < outs[p].end_seconds);
            assert(chain(outs, it) == seq![outs[p].symbol@] + chain(outs, p));
            let d0 = choose|d: int| #[trigger] tight_via(outs, it, d, p);
            assert(tight_via(outs, it, d0, p));
        },
        None => {
            assert(chain(outs, it) =~= Seq::<Seq<char>>::empty());
        },
    }
}

proof fn lemma_enders_contain(outs: Seq<ScheduledOperation>, mk: u64, n: int, k: int)
    requires
        0 <= k < n <= outs.len(),
        outs[k].end_seconds == mk,
    ensures
        enders(outs, mk, n).contains(outs[k].symbol@),
    decreases n,
{
    let prev = enders(outs, mk, n - 1);
    if k < n - 1 {
        lemma_enders_contain(outs, mk, n - 1, k);
        let j = choose|j: int| 0 <= j < prev.len() && prev[j] == outs[k].symbol@;
        if outs[n - 1].end_seconds == mk {
            assert(enders(outs, mk, n)[j] == outs[k].symbol@);
        }
    } else {
        assert(enders(outs, mk, n)[prev.len() as int] == outs[k].symbol@);
    }
}

/// Every step that ends when the schedule ends is on the critical path.
pub proof fn lemma_enders_on_path(outs: Seq<ScheduledOperation>, mk: u64, k: int)
    requires
        0 <= k < outs.len(),
        outs[k].end_seconds == mk,
    ensures
        critical(outs, mk).contains(outs[k].symbol@),
{
    let e = enders(outs, mk, outs.len() as int);
    lemma_enders_contain(outs, mk, outs.len() as int, k);
    let j = choose|j: int| 0 <= j < e.len() && e[j] == outs[k].symbol@;
    let full = match first_ender(outs, mk, 0) {
        Some(f) => e + chain(outs, f),
        None => e,
    };
    assert(full[j] == outs[k].symbol@);
    assert(critical(outs, mk) == full.reverse());
    assert(full.reverse()[full.len() - 1 - j] == outs[k].symbol@);
}

/// The critical path of a schedule whose steps all take time.
pub fn critical_path(operations: &Vec<ScheduledOperation>, makespan: u64) -> (r: Vec<String>)
    requires
        forall|k: int|
            0 <= k < operations@.len() ==> (#[trigger] operations@[k]).start_seconds
                < operations@[k].end_seconds,
    ensures
        r@.len() == critical(operations@, makespan).len(),
        forall|k: int| 0 <= k < r@.len() ==> #[trigger] r@[k]@ == critical(operations@, makespan)[k],
{
    let ghost outs = operations@;
    let mut path: Vec<String> = Vec::new();
    let mut first: Option<usize> = None;
    let mut k: usize = 0;
    while k < operations.len()
        invariant
            outs == operations@,
            k <= outs.len(),
            path@.len() == enders(outs, makespan, k as int).len(),
            forall|m: int| 0 <= m < path@.len() ==> #[trigger] path@[m]@ == enders(outs, makespan, k as int)[m],
            first_ender(outs, makespan, 0) == (match first {
                Some(f) => Some(f as int),
                None => first_ender(outs, makespan, k as int),
            }),
            first matches Some(f) ==> f < k,
        decreases outs.len() - k,
    {
        if operations[k].end_seconds == makespan {
            path.push(operations[k].symbol.clone());
            if first.is_none() {
                first = Some(k);
            }
        }
        k = k + 1;
    }
    let ghost e = enders(outs, makespan, outs.len() as int);
    let ghost tail: Seq<Seq<char>> = match first {
        Some(f) => chain(outs, f as int),
        None => Seq::empty(),
    };
    let ghost full = e + tail;
    proof {
        assert(e.len() == path@.len());
    }
    if let Some(f) = first {
        let mut cursor = f;
        let ghost before = path@.len();
        proof {
            assert(Seq::new((path@.len() - before) as nat, |m: int| path@[before + m]@) =~= Seq::<Seq<char>>::empty());
            assert(tail =~= Seq::new((path@.len() - before) as nat, |m: int| path@[before + m]@) + chain(outs, cursor as int));
        }
        loop
            invariant
                outs == operations@,
                cursor < outs.len(),
                forall|m: int|
                    0 <= m < outs.len() ==> (#[trigger] outs[m]).start_seconds < outs[m].end_seconds,
                tail == chain(outs, f as int),
                full == e + tail,
                before == e.len(),
                path@.len() >= before,
                forall|m: int| 0 <= m < before ==> #[trigger] path@[m]@ == e[m],
                tail == Seq::new((path@.len() - before) as nat, |m: int| path@[before + m]@) + chain(
                    outs,
                    cursor as int,
                ),
            ensures
                path@.len() == full.len(),
                forall|m: int| 0 <= m < path@.len() ==> #[trigger] path@[m]@ == full[m],
            decreases outs[cursor as int].start_seconds,
        {
            match best_predecessor(operations, cursor) {
                Some(p) => {
                    let ghost old_path = path@;
                    path.push(operations[p].symbol.clone());
                    proof {
                        assert(chain(outs, cursor as int) == seq![outs[p as int].symbol@] + chain(outs, p as int));
                        assert(Seq::new((path@.len() - before) as nat, |m: int| path@[before + m]@)
                            =~= Seq::new((old_path.len() - before) as nat, |m: int| old_path[before + m]@).push(outs[p as int].symbol@));
                        assert(tail =~= Seq::new((path@.len() - before) as nat, |m: int| path@[before + m]@) + chain(outs, p as int));
                    }
                    cursor = p;
                },
                None => {
                    proof {
                        assert(chain(outs, cursor as int) =~= Seq::<Seq<char>>::empty());
                        let rest = Seq::new((path@.len() - before) as nat, |m: int| path@[before + m]@);
                        assert(tail =~= rest);
                        assert forall|m: int| 0 <= m < path@.len() implies #[trigger] path@[m]@ == full[m] by {
                            if m >= before {
                                assert(rest[m - before] == path@[m]@);
                            }
                        }
                    }
                    break;
                },
            }
        }
    } else {
        proof {
            assert(full =~= e);
        }
    }
    proof {
        assert(critical(outs, makespan) == full.reverse());
    }
    let mut out: Vec<String> = Vec::new();
    let mut k = path.len();
    while k > 0
        invariant
            k <= path@.len(),
            out@.len() == path@.len() - k,
            forall|m: int| 0 <= m < out@.len() ==> #[trigger] out@[m]@ == path@[path@.len() - 1 - m]@,
            path@.len() == full.len(),
            forall|m: int| 0 <= m < path@.len() ==> #[trigger] path@[m]@ == full[m],
        decreases k,
    {
        out.push(path[k - 1].clone());
        k = k - 1;
    }
    out
}

} // verus!
