//! Which recoveries are crashed, and what the report says of their second crashes.

use crate::check::Call;
use crate::explain::VulnerabilityView;
use crate::recovery::{
    by_point, merged, merged_upto, noted_upto, placed_by_point, same_in_recovery, to_crash,
    with_recoveries, Outcome, RecoveredView, SubCheck,
};
use crate::report::ReportView;
use vstd::prelude::*;

verus! {

/// A recovery that did something to the disk: an op that is no mark.
pub open spec fn does_write(o: Outcome) -> bool {
    o matches Outcome::Repaired { trace, .. } && exists|k: int|
        0 <= k < trace.ops.len() && !((#[trigger] trace.ops[k]) is Mark)
}

/// The call `i` was recovered from by doing something to the disk that no
/// recovery before it did just so, and `x` is that recovery.
pub open spec fn first_did(
    calls: Seq<Call>,
    outcomes: Seq<Outcome>,
    i: int,
    x: RecoveredView,
) -> bool {
    &&& outcomes[i] matches Outcome::Repaired { trace, .. } && trace == x.trace
    &&& x.point == calls[i].point
    &&& x.marks == calls[i].marks
    &&& does_write(outcomes[i])
    &&& forall|k: int|
        0 <= k < i ==> !(#[trigger] outcomes[k] matches Outcome::Repaired { trace, .. } && trace
            == x.trace)
}

/// One of the first `n` calls is where a recovery comes from.
pub open spec fn has_origin(
    calls: Seq<Call>,
    outcomes: Seq<Outcome>,
    n: int,
    x: RecoveredView,
) -> bool {
    exists|i: int| 0 <= i < n && #[trigger] first_did(calls, outcomes, i, x)
}

proof fn lemma_noted(calls: Seq<Call>, outcomes: Seq<Outcome>, n: int)
    requires
        0 <= n <= outcomes.len(),
        n <= calls.len(),
    ensures
        ({
            let v = noted_upto(calls, outcomes, n);
            &&& forall|a: int, b: int|
                0 <= a < b < v.len() ==> (#[trigger] v[a]).trace != (#[trigger] v[b]).trace
            &&& forall|a: int|
                0 <= a < v.len() ==> has_origin(calls, outcomes, n, #[trigger] v[a])
            &&& forall|i: int|
                0 <= i < n && does_write(#[trigger] outcomes[i]) ==> exists|
                    a: int,
                |
                    0 <= a < v.len() && (#[trigger] v[a]).trace == outcomes[i]->trace
        }),
    decreases n,
{
    if n > 0 {
        lemma_noted(calls, outcomes, n - 1);
        let before = noted_upto(calls, outcomes, n - 1);
        let v = noted_upto(calls, outcomes, n);
        assert forall|a: int|
            0 <= a < v.len() implies has_origin(calls, outcomes, n, #[trigger] v[a]) by {
            if a < before.len() {
                assert(v[a] == before[a]);
                assert(has_origin(calls, outcomes, n - 1, before[a]));
                let i = choose|i: int|
                    0 <= i < n - 1 && #[trigger] first_did(calls, outcomes, i, before[a]);
                assert(first_did(calls, outcomes, i, v[a]));
            } else {
                let x = v[a];
                assert forall|k: int| 0 <= k < n - 1 implies !(#[trigger] outcomes[k] matches
                    Outcome::Repaired { trace, .. } && trace == x.trace) by {
                    if outcomes[k] matches Outcome::Repaired { trace, .. } && trace == x.trace {
                        let b = choose|b: int|
                            0 <= b < before.len() && (#[trigger] before[b]).trace
                                == outcomes[k]->trace;
                        assert(before[b].trace == x.trace);
                    }
                }
                assert(first_did(calls, outcomes, n - 1, x));
            }
        }
        assert forall|i: int|
            0 <= i < n && does_write(#[trigger] outcomes[i]) implies exists|
            a: int,
        |
            0 <= a < v.len() && (#[trigger] v[a]).trace == outcomes[i]->trace by {
            if i < n - 1 {
                let a = choose|a: int|
                    0 <= a < before.len() && (#[trigger] before[a]).trace == outcomes[i]->trace;
                assert(v[a] == before[a]);
            } else {
                let x = outcomes[i]->trace;
                if exists|a: int| 0 <= a < before.len() && (#[trigger] before[a]).trace == x {
                    let a = choose|a: int|
                        0 <= a < before.len() && (#[trigger] before[a]).trace == x;
                    assert(v[a] == before[a]);
                } else {
                    assert(v[before.len() as int].trace == x);
                }
            }
        }
    }
}

proof fn lemma_placed(v: Seq<RecoveredView>, x: RecoveredView)
    requires
        forall|a: int, b: int|
            0 <= a < b < v.len() ==> (#[trigger] v[a]).point <= (#[trigger] v[b]).point,
        forall|a: int| 0 <= a < v.len() ==> (#[trigger] v[a]).trace != x.trace,
        forall|a: int, b: int|
            0 <= a < b < v.len() ==> (#[trigger] v[a]).trace != (#[trigger] v[b]).trace,
    ensures
        ({
            let w = placed_by_point(v, x);
            &&& forall|a: int, b: int|
                0 <= a < b < w.len() ==> (#[trigger] w[a]).point <= (#[trigger] w[b]).point
            &&& forall|a: int, b: int|
                0 <= a < b < w.len() ==> (#[trigger] w[a]).trace != (#[trigger] w[b]).trace
            &&& forall|y: RecoveredView| #[trigger] w.contains(y) <==> v.contains(y) || y == x
            &&& w.len() == v.len() + 1
        }),
    decreases v.len(),
{
    let w = placed_by_point(v, x);
    if v.len() == 0 || v.last().point <= x.point {
        assert forall|y: RecoveredView| #[trigger] w.contains(y) <==> v.contains(y) || y == x by {
            if v.contains(y) {
                let i = choose|i: int| 0 <= i < v.len() && v[i] == y;
                assert(w[i] == y);
            }
            if y == x {
                assert(w[v.len() as int] == x);
            }
        }
        assert forall|a: int, b: int| 0 <= a < b < w.len() implies (#[trigger] w[a]).point <= (
        #[trigger] w[b]).point by {
            if b == v.len() {
                assert(v[a] == w[a]);
                assert(v[v.len() - 1] == v.last());
            }
        }
    } else {
        let front = v.drop_last();
        let q = placed_by_point(front, x);
        assert(forall|a: int| 0 <= a < front.len() ==> #[trigger] front[a] == v[a]);
        lemma_placed(front, x);
        assert(w =~= q.push(v.last()));
        assert forall|y: RecoveredView| #[trigger] w.contains(y) <==> v.contains(y) || y == x by {
            if w.contains(y) {
                let i = choose|i: int| 0 <= i < w.len() && w[i] == y;
                if i < q.len() {
                    assert(q[i] == y);
                    assert(q.contains(y));
                    if front.contains(y) {
                        let k = choose|k: int| 0 <= k < front.len() && front[k] == y;
                        assert(v[k] == y);
                    }
                } else {
                    assert(v[v.len() - 1] == y);
                }
            }
            if v.contains(y) || y == x {
                if v.len() > 0 && y == v.last() {
                    assert(w[q.len() as int] == y);
                } else {
                    if v.contains(y) {
                        let k = choose|k: int| 0 <= k < v.len() && v[k] == y;
                        assert(front[k] == y);
                    }
                    assert(q.contains(y));
                    let i = choose|i: int| 0 <= i < q.len() && q[i] == y;
                    assert(w[i] == y);
                }
            }
        }
        assert forall|a: int, b: int| 0 <= a < b < w.len() implies (#[trigger] w[a]).point <= (
        #[trigger] w[b]).point && w[a].trace != w[b].trace by {
            if b == q.len() {
                assert(q[a] == w[a]);
                assert(q.contains(q[a]));
                if front.contains(q[a]) {
                    let k = choose|k: int| 0 <= k < front.len() && front[k] == q[a];
                    assert(v[k] == q[a]);
                    assert(v[v.len() - 1] == v.last());
                } else {
                    assert(v[v.len() - 1].trace != x.trace);
                }
            } else {
                assert(q[a] == w[a] && q[b] == w[b]);
            }
        }
    }
}

proof fn lemma_sorted(v: Seq<RecoveredView>, n: int)
    requires
        0 <= n <= v.len(),
        forall|a: int, b: int|
            0 <= a < b < v.len() ==> (#[trigger] v[a]).trace != (#[trigger] v[b]).trace,
    ensures
        ({
            let w = by_point(v, n);
            &&& forall|a: int, b: int|
                0 <= a < b < w.len() ==> (#[trigger] w[a]).point <= (#[trigger] w[b]).point
            &&& forall|a: int, b: int|
                0 <= a < b < w.len() ==> (#[trigger] w[a]).trace != (#[trigger] w[b]).trace
            &&& forall|y: RecoveredView| #[trigger] w.contains(y) <==> v.take(n).contains(y)
            &&& w.len() == n
        }),
    decreases n,
{
    let w = by_point(v, n);
    if n == 0 {
        assert(v.take(0) =~= Seq::<RecoveredView>::empty());
    } else {
        lemma_sorted(v, n - 1);
        let before = by_point(v, n - 1);
        let x = v[n - 1];
        assert forall|a: int| 0 <= a < before.len() implies (#[trigger] before[a]).trace
            != x.trace by {
            assert(before.contains(before[a]));
            let shorter = v.take(n - 1);
            assert(shorter.contains(before[a]));
            let k = choose|k: int| 0 <= k < shorter.len() && shorter[k] == before[a];
            assert(v[k] == before[a]);
        }
        lemma_placed(before, x);
        assert forall|y: RecoveredView| #[trigger] w.contains(y) <==> v.take(n).contains(y) by {
            let shorter = v.take(n - 1);
            let longer = v.take(n);
            if shorter.contains(y) {
                let k = choose|k: int| 0 <= k < shorter.len() && shorter[k] == y;
                assert(longer[k] == y);
            }
            if y == x {
                assert(longer[n - 1] == y);
            }
            if longer.contains(y) {
                let k = choose|k: int| 0 <= k < longer.len() && longer[k] == y;
                if k < n - 1 {
                    assert(shorter[k] == y);
                }
            }
        }
    }
}

/// The recoveries that are crashed: for everything that a recovery did to the
/// disk, the first that did it, with the point and the marks of the crash that it
/// recovered from. None does just what another does, and they come in the order
/// of these crashes.
pub proof fn law_distinct_recoveries_are_crashed(calls: Seq<Call>, outcomes: Seq<Outcome>)
    requires
        calls.len() == outcomes.len(),
    ensures
        ({
            let recs = to_crash(calls, outcomes);
            &&& forall|a: int, b: int|
                0 <= a < b < recs.len() ==> (#[trigger] recs[a]).point <= (#[trigger] recs[b]).point
            &&& forall|a: int, b: int|
                0 <= a < b < recs.len() ==> (#[trigger] recs[a]).trace != (#[trigger] recs[b]).trace
            &&& forall|a: int|
                0 <= a < recs.len() ==> has_origin(
                    calls,
                    outcomes,
                    calls.len() as int,
                    #[trigger] recs[a],
                )
            &&& forall|i: int|
                0 <= i < calls.len() && does_write(#[trigger] outcomes[i]) ==> exists|
                    a: int,
                |
                    0 <= a < recs.len() && (#[trigger] recs[a]).trace == outcomes[i]->trace
        }),
{
    let n = calls.len() as int;
    let v = noted_upto(calls, outcomes, n);
    lemma_noted(calls, outcomes, n);
    lemma_sorted(v, v.len() as int);
    let recs = to_crash(calls, outcomes);
    assert(v.take(v.len() as int) =~= v);
    assert forall|a: int|
        0 <= a < recs.len() implies has_origin(
        calls,
        outcomes,
        calls.len() as int,
        #[trigger] recs[a],
    ) by {
        assert(recs.contains(recs[a]));
        let k = choose|k: int| 0 <= k < v.len() && v[k] == recs[a];
        assert(v[k] == recs[a]);
    }
    assert forall|i: int|
        0 <= i < calls.len() && does_write(#[trigger] outcomes[i]) implies exists|
        a: int,
    |
        0 <= a < recs.len() && (#[trigger] recs[a]).trace == outcomes[i]->trace by {
        let b = choose|b: int| 0 <= b < v.len() && (#[trigger] v[b]).trace == outcomes[i]->trace;
        assert(v.contains(v[b]));
        assert(recs.contains(v[b]));
        let a = choose|a: int| 0 <= a < recs.len() && recs[a] == v[b];
        assert(recs[a].trace == outcomes[i]->trace);
    }
}

proof fn lemma_same_in_recovery(v: Seq<VulnerabilityView>, x: VulnerabilityView, k: int)
    requires
        0 <= k,
    ensures
        match same_in_recovery(v, x, k) {
            Some(i) => k <= i < v.len() && v[i].in_recovery is Some && v[i].kind == x.kind
                && v[i].files == x.files,
            None => forall|i: int|
                k <= i < v.len() ==> !((#[trigger] v[i]).in_recovery is Some && v[i].kind == x.kind
                    && v[i].files == x.files),
        },
    decreases v.len() - k,
{
    if k < v.len() {
        lemma_same_in_recovery(v, x, k + 1);
    }
}

/// What one vulnerability of a recovery does to a report: where one of the same
/// kind and files was found in a recovery already, it counts towards that one;
/// otherwise it is added, and says after which point the first crash came.
/// Everything else stays.
pub proof fn law_merging_counts_or_adds(
    v: Seq<VulnerabilityView>,
    x: VulnerabilityView,
    point: usize,
)
    ensures
        ({
            let after = merged(v, x, point);
            let known = |i: int|
                0 <= i < v.len() && v[i].in_recovery is Some && v[i].kind == x.kind && v[i].files
                    == x.files;
            &&& (exists|i: int| #[trigger] known(i)) ==> exists|i: int| #[trigger]
                known(i) && after == v.update(
                    i,
                    VulnerabilityView {
                        occurrences: if v[i].occurrences + x.occurrences > usize::MAX {
                            usize::MAX
                        } else {
                            (v[i].occurrences + x.occurrences) as usize
                        },
                        ..v[i]
                    },
                )
            &&& !(exists|i: int| #[trigger] known(i)) ==> after == v.push(
                VulnerabilityView { in_recovery: Some(point), ..x },
            )
        }),
{
    let known = |i: int|
        0 <= i < v.len() && v[i].in_recovery is Some && v[i].kind == x.kind && v[i].files
            == x.files;
    lemma_same_in_recovery(v, x, 0);
    match same_in_recovery(v, x, 0) {
        Some(i) => {
            assert(known(i));
        },
        None => {},
    }
}

/// Another list of vulnerabilities has these at its front, but for how often they
/// occurred.
pub open spec fn keeps(v: Seq<VulnerabilityView>, after: Seq<VulnerabilityView>) -> bool {
    &&& v.len() <= after.len()
    &&& forall|i: int|
        0 <= i < v.len() ==> #[trigger] after[i] == (VulnerabilityView {
            occurrences: after[i].occurrences,
            ..v[i]
        })
}

/// A vulnerability of this kind, about these files, was found in a recovery.
pub open spec fn reported(v: Seq<VulnerabilityView>, x: VulnerabilityView) -> bool {
    exists|i: int|
        0 <= i < v.len() && (#[trigger] v[i]).in_recovery is Some && v[i].kind == x.kind
            && v[i].files == x.files
}

/// All of these were reported.
pub open spec fn all_reported(v: Seq<VulnerabilityView>, sub: Seq<VulnerabilityView>) -> bool {
    forall|k: int| 0 <= k < sub.len() ==> reported(v, #[trigger] sub[k])
}

proof fn lemma_keeps_reported(
    v: Seq<VulnerabilityView>,
    after: Seq<VulnerabilityView>,
    x: VulnerabilityView,
)
    requires
        keeps(v, after),
        reported(v, x),
    ensures
        reported(after, x),
{
    let i = choose|i: int|
        0 <= i < v.len() && (#[trigger] v[i]).in_recovery is Some && v[i].kind == x.kind
            && v[i].files == x.files;
    assert(after[i].kind == x.kind);
}

proof fn lemma_merged(
    v: Seq<VulnerabilityView>,
    sub: Seq<VulnerabilityView>,
    point: usize,
    n: int,
)
    requires
        0 <= n <= sub.len(),
    ensures
        keeps(v, merged_upto(v, sub, point, n)),
        forall|k: int| 0 <= k < n ==> reported(merged_upto(v, sub, point, n), #[trigger] sub[k]),
        forall|i: int|
            v.len() <= i < merged_upto(v, sub, point, n).len() ==> is_from(
                #[trigger] merged_upto(v, sub, point, n)[i],
                sub,
                point,
            ),
    decreases n,
{
    if n > 0 {
        lemma_merged(v, sub, point, n - 1);
        let before = merged_upto(v, sub, point, n - 1);
        let after = merged_upto(v, sub, point, n);
        let x = sub[n - 1];
        lemma_same_in_recovery(before, x, 0);
        assert(keeps(before, after));
        assert forall|k: int| 0 <= k < n implies reported(after, #[trigger] sub[k]) by {
            if k < n - 1 {
                lemma_keeps_reported(before, after, sub[k]);
            } else {
                match same_in_recovery(before, x, 0) {
                    Some(i) => {
                        assert(after[i].kind == x.kind);
                    },
                    None => {
                        assert(after[before.len() as int].kind == x.kind);
                    },
                }
            }
        }
        assert forall|i: int| v.len() <= i < after.len() implies is_from(
            #[trigger] after[i],
            sub,
            point,
        ) by {
            if i < before.len() {
                assert(is_from(before[i], sub, point));
                let k = choose|k: int|
                    0 <= k < sub.len() && before[i] == (VulnerabilityView {
                        occurrences: before[i].occurrences,
                        in_recovery: Some(point),
                        ..#[trigger] sub[k]
                    });
                assert(after[i] == (VulnerabilityView {
                    occurrences: after[i].occurrences,
                    in_recovery: Some(point),
                    ..sub[k]
                }));
            } else {
                assert(after[i] == (VulnerabilityView {
                    occurrences: after[i].occurrences,
                    in_recovery: Some(point),
                    ..sub[n - 1]
                }));
            }
        }
    }
}

/// A vulnerability of a recovery from a first crash at `point`, as it was found
/// there but for how often it occurred.
pub open spec fn is_from(
    x: VulnerabilityView,
    sub: Seq<VulnerabilityView>,
    point: usize,
) -> bool {
    exists|k: int|
        0 <= k < sub.len() && x == (VulnerabilityView {
            occurrences: x.occurrences,
            in_recovery: Some(point),
            ..#[trigger] sub[k]
        })
}

/// There was budget left to crash recovery `i`.
pub open spec fn was_crashed(
    r: ReportView,
    recs: Seq<RecoveredView>,
    subs: Seq<SubCheck>,
    max: usize,
    i: int,
) -> bool {
    with_recoveries(r, recs, subs, max, i).recovery_states < max
}

/// A vulnerability was found in one of the first `n` recoveries, when it was
/// crashed.
pub open spec fn found_in_one(
    r: ReportView,
    recs: Seq<RecoveredView>,
    subs: Seq<SubCheck>,
    max: usize,
    n: int,
    x: VulnerabilityView,
) -> bool {
    exists|i: int|
        0 <= i < n && was_crashed(r, recs, subs, max, i) && #[trigger] is_from(
            x,
            subs[i].report.vulnerabilities,
            recs[i].point,
        )
}

/// What a report says after its recoveries were crashed. It keeps what the
/// workload's own check found; it reports what each recovery that was crashed
/// showed, by kind and files; what is new in it comes from one of these, and says
/// from which first crash; and it is cut short if the own check was, if one of
/// these was, or if one was not crashed for lack of budget.
pub proof fn law_recoveries_are_reported(
    r: ReportView,
    recs: Seq<RecoveredView>,
    subs: Seq<SubCheck>,
    max: usize,
    n: int,
)
    requires
        0 <= n <= recs.len(),
        n <= subs.len(),
    ensures
        ({
            let after = with_recoveries(r, recs, subs, max, n);
            let all = after.vulnerabilities;
            &&& keeps(r.vulnerabilities, all)
            &&& forall|i: int|
                0 <= i < n && was_crashed(r, recs, subs, max, i) ==> all_reported(
                    all,
                    (#[trigger] subs[i]).report.vulnerabilities,
                )
            &&& forall|j: int|
                r.vulnerabilities.len() <= j < all.len() ==> found_in_one(
                    r,
                    recs,
                    subs,
                    max,
                    n,
                    #[trigger] all[j],
                )
            &&& after.truncated <==> r.truncated || exists|i: int|
                0 <= i < n && (!was_crashed(r, recs, subs, max, i) || (
                #[trigger] subs[i]).report.truncated)
        }),
    decreases n,
{
    if n > 0 {
        law_recoveries_are_reported(r, recs, subs, max, n - 1);
        let before = with_recoveries(r, recs, subs, max, n - 1);
        let after = with_recoveries(r, recs, subs, max, n);
        let v = before.vulnerabilities;
        let all = after.vulnerabilities;
        let sub = subs[n - 1].report;
        lemma_merged(v, sub.vulnerabilities, recs[n - 1].point, sub.vulnerabilities.len() as int);
        assert(keeps(v, all));
        assert forall|i: int| 0 <= i < n && was_crashed(r, recs, subs, max, i) implies all_reported(
            all,
            (#[trigger] subs[i]).report.vulnerabilities,
        ) by {
            let w = subs[i].report.vulnerabilities;
            assert forall|k: int| 0 <= k < w.len() implies reported(all, #[trigger] w[k]) by {
                if i < n - 1 {
                    assert(all_reported(v, w));
                    lemma_keeps_reported(v, all, w[k]);
                }
            }
        }
        assert forall|j: int|
            r.vulnerabilities.len() <= j < all.len() implies found_in_one(
                r,
                recs,
                subs,
                max,
                n,
                #[trigger] all[j],
            ) by {
            if j < v.len() {
                assert(found_in_one(r, recs, subs, max, n - 1, v[j]));
                let i = choose|i: int|
                    0 <= i < n - 1 && was_crashed(r, recs, subs, max, i) && #[trigger] is_from(
                        v[j],
                        subs[i].report.vulnerabilities,
                        recs[i].point,
                    );
                let s = subs[i].report.vulnerabilities;
                let k = choose|k: int|
                    0 <= k < s.len() && v[j] == (VulnerabilityView {
                        occurrences: v[j].occurrences,
                        in_recovery: Some(recs[i].point),
                        ..#[trigger] s[k]
                    });
                assert(all[j] == (VulnerabilityView {
                    occurrences: all[j].occurrences,
                    in_recovery: Some(recs[i].point),
                    ..s[k]
                }));
                assert(is_from(all[j], subs[i].report.vulnerabilities, recs[i].point));
            } else {
                assert(is_from(all[j], subs[n - 1].report.vulnerabilities, recs[n - 1].point));
            }
        }
        assert(after.truncated <==> r.truncated || exists|i: int|
            0 <= i < n && (!was_crashed(r, recs, subs, max, i) || (
            #[trigger] subs[i]).report.truncated)) by {
            if before.truncated && !r.truncated {
                let i = choose|i: int|
                    0 <= i < n - 1 && (!was_crashed(r, recs, subs, max, i) || (
                    #[trigger] subs[i]).report.truncated);
                assert(!was_crashed(r, recs, subs, max, i) || subs[i].report.truncated);
            }
            if after.truncated && !before.truncated {
                assert(!was_crashed(r, recs, subs, max, n - 1) || subs[n - 1].report.truncated);
            }
        }
    }
}

/// Each recovery that was crashed adds its states and its failures to the report,
/// as far as numbers go, and one that was not adds none. Nothing else of the
/// workload's own report changes.
pub proof fn law_recoveries_add_up(
    r: ReportView,
    recs: Seq<RecoveredView>,
    subs: Seq<SubCheck>,
    max: usize,
    i: int,
)
    requires
        0 <= i,
    ensures
        ({
            let before = with_recoveries(r, recs, subs, max, i);
            let after = with_recoveries(r, recs, subs, max, i + 1);
            let sub = subs[i].report;
            &&& !was_crashed(r, recs, subs, max, i) ==> after == ReportView {
                truncated: true,
                ..before
            }
            &&& was_crashed(r, recs, subs, max, i) ==> {
                &&& before.failures + sub.failures <= usize::MAX ==> after.failures
                    == before.failures + sub.failures
                &&& before.failures + sub.failures > usize::MAX ==> after.failures == usize::MAX
                &&& before.recovery_states + sub.states <= usize::MAX ==> after.recovery_states
                    == before.recovery_states + sub.states
            }
            &&& after.profile == r.profile
            &&& after.ops == r.ops
            &&& after.crash_points == r.crash_points
            &&& after.states == r.states
        }),
    decreases i,
{
    if i > 0 {
        law_recoveries_add_up(r, recs, subs, max, i - 1);
    }
}

proof fn lemma_placed_behind(v: Seq<RecoveredView>, x: RecoveredView) -> (k: int)
    requires
        forall|a: int, b: int|
            0 <= a < b < v.len() ==> (#[trigger] v[a]).point <= (#[trigger] v[b]).point,
    ensures
        0 <= k <= v.len(),
        placed_by_point(v, x) == v.insert(k, x),
        forall|i: int| k <= i < v.len() ==> x.point < (#[trigger] v[i]).point,
        forall|i: int| 0 <= i < k ==> (#[trigger] v[i]).point <= x.point,
    decreases v.len(),
{
    if v.len() == 0 || v.last().point <= x.point {
        assert(v.insert(v.len() as int, x) =~= v.push(x));
        assert forall|i: int| 0 <= i < v.len() implies (#[trigger] v[i]).point <= x.point by {
            if i < v.len() - 1 {
                assert(v[i].point <= v[v.len() - 1].point);
            }
        }
        v.len() as int
    } else {
        let w = v.drop_last();
        assert forall|a: int, b: int| 0 <= a < b < w.len() implies (#[trigger] w[a]).point <= (
        #[trigger] w[b]).point by {
            assert(w[a] == v[a] && w[b] == v[b]);
        }
        let k = lemma_placed_behind(w, x);
        assert(placed_by_point(v, x) =~= v.insert(k, x));
        assert forall|i: int| k <= i < v.len() implies x.point < (#[trigger] v[i]).point by {
            if i < w.len() {
                assert(w[i] == v[i]);
            }
        }
        assert forall|i: int| 0 <= i < k implies (#[trigger] v[i]).point <= x.point by {
            assert(w[i] == v[i]);
        }
        k
    }
}

/// Sorting by point moves recoveries only past ones with a later point: those with
/// the same point stay in the order in which they were found, and none is lost.
pub proof fn law_recoveries_at_one_point_keep_their_order(v: Seq<RecoveredView>, n: int) -> (from:
    Seq<int>)
    requires
        0 <= n <= v.len(),
    ensures
        from.len() == n,
        by_point(v, n).len() == n,
        forall|a: int|
            0 <= a < n ==> 0 <= #[trigger] from[a] < n && v[from[a]] == by_point(v, n)[a],
        forall|a: int, b: int|
            0 <= a < b < n ==> (#[trigger] from[a]) != (#[trigger] from[b]) && by_point(
                v,
                n,
            )[a].point <= by_point(v, n)[b].point && (by_point(v, n)[a].point == by_point(v, n)[b].point
                ==> from[a] < from[b]),
    decreases n,
{
    if n == 0 {
        Seq::empty()
    } else {
        let old_from = law_recoveries_at_one_point_keep_their_order(v, n - 1);
        let before = by_point(v, n - 1);
        let x = v[n - 1];
        assert forall|a: int, b: int| 0 <= a < b < before.len() implies (
        #[trigger] before[a]).point <= (#[trigger] before[b]).point by {
            assert(old_from[a] != old_from[b]);
        }
        let k = lemma_placed_behind(before, x);
        let from = old_from.insert(k, n - 1);
        let w = by_point(v, n);
        assert forall|a: int| 0 <= a < n implies 0 <= #[trigger] from[a] < n && v[from[a]]
            == w[a] by {
            if a < k {
                assert(from[a] == old_from[a]);
            } else if a > k {
                assert(from[a] == old_from[a - 1]);
            }
        }
        assert forall|a: int, b: int| 0 <= a < b < n implies (#[trigger] from[a]) != (
        #[trigger] from[b]) && w[a].point <= w[b].point && (w[a].point == w[b].point ==> from[a]
            < from[b]) by {
            let i = if a < k {
                a
            } else {
                a - 1
            };
            let j = if b < k {
                b
            } else {
                b - 1
            };
            if a != k && b != k {
                assert(from[a] == old_from[i] && from[b] == old_from[j]);
                assert(w[a] == before[i] && w[b] == before[j]);
            } else if a == k {
                assert(from[b] == old_from[j] && 0 <= old_from[j] < n - 1);
                assert(w[b] == before[j]);
            } else {
                assert(from[a] == old_from[i] && 0 <= old_from[i] < n - 1);
                assert(w[a] == before[i]);
            }
        }
        from
    }
}

} // verus!
