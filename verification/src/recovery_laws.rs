//! What holds of every check in which recovery is crashed too.

use crate::check::{
    all_asked, failing, grouped, is_outcome, lookup, minimized, vulnerability, Call, Crash,
    Options,
};
use crate::check_laws::{
    law_clean_is_complete_where_exhaustive, law_states_stay_within_the_limit,
    lemma_group_for_cause, lemma_group_for_lost, lemma_placed_len,
};
use crate::crash::{flight, legal, searchable_at};
use crate::explain::{lost_of, VulnerabilityView};
use crate::program::{compiled, program_sound, ProgramView};
use crate::recovery::{
    absorbed, answered_after_recovery, budget_of, by_point, has_trace, is_recovery_outcome,
    is_sub_check, judged_at, merged, merged_upto, noted, noted_upto, placed_by_point,
    same_in_recovery, to_crash, with_recoveries, writes, Outcome, RecoveredView, Recovery,
    SubCheck,
};
use crate::report::ReportView;
use crate::states::{state_key, states_to_check, Key, StateView};
use crate::trace::{OpView, TraceView, Tree};
use vstd::prelude::*;

verus! {

proof fn lemma_clean_before(
    r: ReportView,
    recs: Seq<RecoveredView>,
    subs: Seq<SubCheck>,
    max: usize,
    i: int,
    n: int,
)
    requires
        0 <= i <= n,
        with_recoveries(r, recs, subs, max, n).failures == 0,
        !with_recoveries(r, recs, subs, max, n).truncated,
    ensures
        with_recoveries(r, recs, subs, max, i).failures == 0,
        !with_recoveries(r, recs, subs, max, i).truncated,
    decreases n - i,
{
    if i < n {
        lemma_clean_before(r, recs, subs, max, i, n - 1);
    }
}

/// A clean report that was not cut short means that the workload's own check was
/// clean and not cut short, and that every recovery was crashed with a budget,
/// with the same result.
pub proof fn law_clean_means_every_recovery_is_clean<
    R: Fn(&Tree) -> Result<Recovery, String>,
    V: Fn(&Crash) -> Result<(), String>,
>(
    recover: R,
    verify: V,
    t: TraceView,
    opts: Options,
    calls: Seq<Call>,
    outcomes: Seq<Outcome>,
    first: ReportView,
    subs: Seq<SubCheck>,
    report: ReportView,
    i: int,
)
    requires
        is_recovery_outcome(recover, verify, t, opts, calls, outcomes, first, subs, report),
        report.failures == 0,
        !report.truncated,
        0 <= i < to_crash(calls, outcomes).len(),
    ensures
        first.failures == 0 && !first.truncated,
        ({
            let recs = to_crash(calls, outcomes);
            let budget = budget_of(
                opts.max_states,
                with_recoveries(first, recs, subs, opts.max_states, i),
            );
            &&& budget > 0
            &&& is_sub_check(recover, verify, opts, budget, recs[i], subs[i])
            &&& subs[i].report.failures == 0
            &&& !subs[i].report.truncated
        }),
{
    let recs = to_crash(calls, outcomes);
    let n = recs.len() as int;
    lemma_clean_before(first, recs, subs, opts.max_states, 0, n);
    lemma_clean_before(first, recs, subs, opts.max_states, i, n);
    lemma_clean_before(first, recs, subs, opts.max_states, i + 1, n);
    let before = with_recoveries(first, recs, subs, opts.max_states, i);
    let after = with_recoveries(first, recs, subs, opts.max_states, i + 1);
    assert(budget_of(opts.max_states, before) > 0);
    assert(after == absorbed(before, recs[i].point, subs[i].report));
}

proof fn lemma_noted_has(v: Seq<RecoveredView>, x: RecoveredView, t: TraceView)
    requires
        has_trace(v, t) || (x.trace == t && writes(t.ops)),
    ensures
        has_trace(noted(v, x), t),
{
    let w = noted(v, x);
    if has_trace(v, t) {
        let i = choose|i: int| 0 <= i < v.len() && (#[trigger] v[i]).trace == t;
        assert(w[i].trace == t);
    } else {
        assert(w[w.len() - 1].trace == t);
    }
}

proof fn lemma_noted_upto_has(calls: Seq<Call>, outcomes: Seq<Outcome>, i: int, n: int)
    requires
        0 <= i < n,
        outcomes[i] is Repaired,
        writes(outcomes[i]->trace.ops),
    ensures
        has_trace(noted_upto(calls, outcomes, n), outcomes[i]->trace),
    decreases n,
{
    if i < n - 1 {
        lemma_noted_upto_has(calls, outcomes, i, n - 1);
    }
    match outcomes[n - 1] {
        Outcome::Repaired { trace, .. } => {
            lemma_noted_has(
                noted_upto(calls, outcomes, n - 1),
                RecoveredView {
                    point: calls[n - 1].point,
                    marks: calls[n - 1].marks,
                    trace,
                },
                outcomes[i]->trace,
            );
        },
        Outcome::Failed { .. } => {},
    }
}

proof fn lemma_placed_has(v: Seq<RecoveredView>, x: RecoveredView, t: TraceView)
    requires
        has_trace(v, t) || x.trace == t,
    ensures
        has_trace(placed_by_point(v, x), t),
    decreases v.len(),
{
    let w = placed_by_point(v, x);
    if v.len() == 0 || v.last().point <= x.point {
        if has_trace(v, t) {
            let i = choose|i: int| 0 <= i < v.len() && (#[trigger] v[i]).trace == t;
            assert(w[i].trace == t);
        } else {
            assert(w[w.len() - 1].trace == t);
        }
    } else {
        let front = v.drop_last();
        if v.last().trace == t {
            assert(w[w.len() - 1].trace == t);
        } else {
            if has_trace(v, t) {
                let i = choose|i: int| 0 <= i < v.len() && (#[trigger] v[i]).trace == t;
                assert(front[i].trace == t);
            }
            lemma_placed_has(front, x, t);
            let u = placed_by_point(front, x);
            let i = choose|i: int| 0 <= i < u.len() && (#[trigger] u[i]).trace == t;
            assert(w[i].trace == t);
        }
    }
}

proof fn lemma_by_point_has(v: Seq<RecoveredView>, i: int, n: int)
    requires
        0 <= i < n <= v.len(),
    ensures
        has_trace(by_point(v, n), v[i].trace),
    decreases n,
{
    if i < n - 1 {
        lemma_by_point_has(v, i, n - 1);
    }
    lemma_placed_has(by_point(v, n - 1), v[n - 1], v[i].trace);
}

/// Every recovery that wrote is crashed, or one that did just the same.
pub proof fn law_every_writing_recovery_is_crashed(
    calls: Seq<Call>,
    outcomes: Seq<Outcome>,
    i: int,
)
    requires
        0 <= i < calls.len(),
        outcomes[i] is Repaired,
        writes(outcomes[i]->trace.ops),
    ensures
        has_trace(to_crash(calls, outcomes), outcomes[i]->trace),
{
    let n = calls.len() as int;
    lemma_noted_upto_has(calls, outcomes, i, n);
    let found = noted_upto(calls, outcomes, n);
    let k = choose|k: int| 0 <= k < found.len() && (#[trigger] found[k]).trace == outcomes[i]->trace;
    lemma_by_point_has(found, k, found.len() as int);
}

proof fn lemma_lookup_found(calls: Seq<Call>, key: Key)
    requires
        lookup(calls, key) is Some,
    ensures
        exists|k: int|
            0 <= k < calls.len() && (#[trigger] calls[k]).tree == key.tree && Some(
                calls[k].verdict,
            ) == lookup(calls, key),
    decreases calls.len(),
{
    let front = calls.drop_last();
    if lookup(front, key) is Some {
        lemma_lookup_found(front, key);
        let k = choose|k: int|
            0 <= k < front.len() && (#[trigger] front[k]).tree == key.tree && Some(
                front[k].verdict,
            ) == lookup(front, key);
        assert(calls[k].tree == key.tree);
    } else {
        assert(calls[calls.len() - 1].tree == key.tree);
    }
}

/// A recovery that passes survives a second crash: where few enough of its
/// micro-ops are in flight, every state that a crash at that point of it can
/// leave behind was recovered again, and what that left was accepted with the
/// marks of the first crash.
pub proof fn law_clean_recovery_survives_a_second_crash<
    R: Fn(&Tree) -> Result<Recovery, String>,
    V: Fn(&Crash) -> Result<(), String>,
>(
    recover: R,
    verify: V,
    t: TraceView,
    opts: Options,
    calls: Seq<Call>,
    outcomes: Seq<Outcome>,
    first: ReportView,
    subs: Seq<SubCheck>,
    report: ReportView,
    i: int,
    point: usize,
    s: Seq<bool>,
)
    requires
        is_recovery_outcome(recover, verify, t, opts, calls, outcomes, first, subs, report),
        report.failures == 0,
        !report.truncated,
        0 <= i < to_crash(calls, outcomes).len(),
        ({
            let p = compiled(
                to_crash(calls, outcomes)[i].trace,
                opts.profile,
                opts.block_size,
            )->Ok_0;
            &&& program_sound(p)
            &&& point < p.op_end.len()
            &&& flight(p, point as int).len() <= opts.search.exhaustive_limit
            &&& searchable_at(p, point as int, opts.search)
            &&& legal(p, point as int, s)
        }),
    ensures
        ({
            let rec = to_crash(calls, outcomes)[i];
            let p = compiled(rec.trace, opts.profile, opts.block_size)->Ok_0;
            let tree = state_key(p, StateView { point, persisted: s }).tree;
            exists|k: int|
                0 <= k < subs[i].calls.len() && (#[trigger] subs[i].calls[k]).tree == tree
                    && subs[i].calls[k].verdict is None && answered_after_recovery(
                    recover,
                    verify,
                    rec.point,
                    rec.marks,
                    subs[i].calls[k],
                    subs[i].outcomes[k],
                )
        }),
{
    law_clean_means_every_recovery_is_clean(
        recover,
        verify,
        t,
        opts,
        calls,
        outcomes,
        first,
        subs,
        report,
        i,
    );
    let recs = to_crash(calls, outcomes);
    let budget = budget_of(
        opts.max_states,
        with_recoveries(first, recs, subs, opts.max_states, i),
    );
    let p = compiled(recs[i].trace, opts.profile, opts.block_size)->Ok_0;
    let few = Options { max_states: budget, ..opts };
    let sub = subs[i];
    law_clean_is_complete_where_exhaustive(
        p,
        recs[i].trace.ops,
        few,
        sub.calls,
        sub.report,
        point,
        s,
    );
    let key = state_key(p, StateView { point, persisted: s });
    lemma_lookup_found(sub.calls, key);
    let k = choose|k: int|
        0 <= k < sub.calls.len() && (#[trigger] sub.calls[k]).tree == key.tree
            && sub.calls[k].verdict is None;
    assert(sub.calls[k].tree == key.tree);
}

proof fn lemma_same_in_recovery(v: Seq<VulnerabilityView>, x: VulnerabilityView, k: int)
    requires
        0 <= k,
    ensures
        same_in_recovery(v, x, k) matches Some(i) ==> k <= i < v.len() && v[i].in_recovery is Some,
    decreases v.len() - k,
{
    if k < v.len() {
        lemma_same_in_recovery(v, x, k + 1);
    }
}

/// The first vulnerabilities of a report are those of the workload's own check,
/// as they were, and the others were first found in a recovery.
pub open spec fn keeps_apart(v: Seq<VulnerabilityView>, own: Seq<VulnerabilityView>) -> bool {
    &&& own.len() <= v.len()
    &&& forall|i: int| 0 <= i < own.len() ==> #[trigger] v[i] == own[i]
    &&& forall|i: int| own.len() <= i < v.len() ==> (#[trigger] v[i]).in_recovery is Some
}

proof fn lemma_merged_keeps_apart(
    own: Seq<VulnerabilityView>,
    v: Seq<VulnerabilityView>,
    sub: Seq<VulnerabilityView>,
    point: usize,
    n: int,
)
    requires
        keeps_apart(v, own),
        forall|i: int| 0 <= i < own.len() ==> (#[trigger] own[i]).in_recovery is None,
        0 <= n <= sub.len(),
    ensures
        keeps_apart(merged_upto(v, sub, point, n), own),
    decreases n,
{
    if n > 0 {
        lemma_merged_keeps_apart(own, v, sub, point, n - 1);
        let w = merged_upto(v, sub, point, n - 1);
        let x = sub[n - 1];
        let u = merged(w, x, point);
        lemma_same_in_recovery(w, x, 0);
        assert forall|i: int| 0 <= i < own.len() implies #[trigger] u[i] == own[i] by {
            assert(w[i] == own[i]);
            assert(own[i].in_recovery is None);
        }
        assert forall|i: int| own.len() <= i < u.len() implies (#[trigger] u[i]).in_recovery is Some by {
            if i < w.len() {
                assert(w[i].in_recovery is Some);
            }
        }
    }
}

proof fn lemma_with_recoveries_bounds(
    own: ReportView,
    recs: Seq<RecoveredView>,
    subs: Seq<SubCheck>,
    max: usize,
    n: int,
)
    requires
        0 <= n,
        own.recovery_states == 0,
        forall|i: int| 0 <= i < own.vulnerabilities.len() ==> (
        #[trigger] own.vulnerabilities[i]).in_recovery is None,
        forall|i: int|
            0 <= i < n ==> budget_of(max, with_recoveries(own, recs, subs, max, i)) == 0
                || (#[trigger] subs[i]).report.states <= budget_of(
                max,
                with_recoveries(own, recs, subs, max, i),
            ),
    ensures
        with_recoveries(own, recs, subs, max, n).recovery_states <= max,
        with_recoveries(own, recs, subs, max, n).states == own.states,
        keeps_apart(
            with_recoveries(own, recs, subs, max, n).vulnerabilities,
            own.vulnerabilities,
        ),
    decreases n,
{
    if n > 0 {
        lemma_with_recoveries_bounds(own, recs, subs, max, n - 1);
        let before = with_recoveries(own, recs, subs, max, n - 1);
        let sub = subs[n - 1].report;
        if budget_of(max, before) > 0 {
            assert(subs[n - 1].report.states <= budget_of(max, before));
            lemma_merged_keeps_apart(
                own.vulnerabilities,
                before.vulnerabilities,
                sub.vulnerabilities,
                recs[n - 1].point,
                sub.vulnerabilities.len() as int,
            );
        }
    }
}

proof fn lemma_own_vulnerabilities(
    p: ProgramView,
    ops: Seq<OpView>,
    calls: Seq<Call>,
    limit: usize,
    states: Seq<StateView>,
    n: int,
)
    ensures
        forall|i: int|
            0 <= i < grouped(p, ops, calls, limit, states, n).groups.len() ==> (
            #[trigger] grouped(p, ops, calls, limit, states, n).groups[i]).vuln.in_recovery is None,
    decreases n,
{
    if n > 0 {
        lemma_own_vulnerabilities(p, ops, calls, limit, states, n - 1);
        let g = grouped(p, ops, calls, limit, states, n - 1);
        let h = grouped(p, ops, calls, limit, states, n);
        let x = states[n - 1];
        let s = minimized(p, calls, x.point as int, x.persisted);
        lemma_group_for_lost(g.groups, lost_of(p, x.persisted), 0);
        lemma_group_for_cause(g.groups, vulnerability(p, ops, calls, x.point, s), 0);
        assert forall|i: int| 0 <= i < h.groups.len() implies (
        #[trigger] h.groups[i]).vuln.in_recovery is None by {
            if i < g.groups.len() {
                assert(g.groups[i].vuln.in_recovery is None);
                assert(h.groups[i].vuln.in_recovery == g.groups[i].vuln.in_recovery);
            }
        }
    }
}

proof fn lemma_own_report(
    p: ProgramView,
    ops: Seq<OpView>,
    opts: Options,
    calls: Seq<Call>,
    r: ReportView,
)
    requires
        is_outcome(p, ops, opts, calls, r),
    ensures
        r.recovery_states == 0,
        forall|i: int|
            0 <= i < r.vulnerabilities.len() ==> (
            #[trigger] r.vulnerabilities[i]).in_recovery is None,
{
    let states = states_to_check(p, opts.search, opts.max_states);
    let f = failing(p, states, calls, states.len() as int);
    let g = grouped(p, ops, calls, opts.explain, f, f.len() as int);
    lemma_own_vulnerabilities(p, ops, calls, opts.explain, f, f.len() as int);
    assert forall|i: int| 0 <= i < r.vulnerabilities.len() implies (
    #[trigger] r.vulnerabilities[i]).in_recovery is None by {
        assert(r.vulnerabilities[i] == g.groups[i].vuln);
    }
}

proof fn lemma_sub_check_fits<
    R: Fn(&Tree) -> Result<Recovery, String>,
    V: Fn(&Crash) -> Result<(), String>,
>(recover: R, verify: V, opts: Options, left: usize, rec: RecoveredView, sub: SubCheck)
    requires
        is_sub_check(recover, verify, opts, left, rec, sub),
    ensures
        sub.report.states <= left,
{
    law_states_stay_within_the_limit(
        compiled(rec.trace, opts.profile, opts.block_size)->Ok_0,
        rec.trace.ops,
        Options { max_states: left, ..opts },
        sub.calls,
        sub.report,
    );
}

/// The states of recoveries stay within the limit; and the vulnerabilities of
/// the workload's own check stay as they were, while exactly those first found
/// in a recovery say so.
pub proof fn law_recoveries_stay_within_the_limit<
    R: Fn(&Tree) -> Result<Recovery, String>,
    V: Fn(&Crash) -> Result<(), String>,
>(
    recover: R,
    verify: V,
    t: TraceView,
    opts: Options,
    calls: Seq<Call>,
    outcomes: Seq<Outcome>,
    first: ReportView,
    subs: Seq<SubCheck>,
    report: ReportView,
)
    requires
        is_recovery_outcome(recover, verify, t, opts, calls, outcomes, first, subs, report),
    ensures
        report.recovery_states <= opts.max_states,
        report.states == first.states,
        keeps_apart(report.vulnerabilities, first.vulnerabilities),
        forall|i: int|
            0 <= i < report.vulnerabilities.len() ==> ((
            #[trigger] report.vulnerabilities[i]).in_recovery is None <==> i
                < first.vulnerabilities.len()),
{
    let recs = to_crash(calls, outcomes);
    let n = recs.len() as int;
    let max = opts.max_states;
    lemma_own_report(
        compiled(t, opts.profile, opts.block_size)->Ok_0,
        t.ops,
        opts,
        calls,
        first,
    );
    assert forall|i: int| 0 <= i < n implies budget_of(
        max,
        with_recoveries(first, recs, subs, max, i),
    ) == 0 || (#[trigger] subs[i]).report.states <= budget_of(
        max,
        with_recoveries(first, recs, subs, max, i),
    ) by {
        let left = budget_of(max, with_recoveries(first, recs, subs, max, i));
        if left > 0 {
            lemma_sub_check_fits(recover, verify, opts, left, recs[i], subs[i]);
        }
    }
    lemma_with_recoveries_bounds(first, recs, subs, opts.max_states, n);
    assert forall|i: int| 0 <= i < report.vulnerabilities.len() implies ((
    #[trigger] report.vulnerabilities[i]).in_recovery is None <==> i
        < first.vulnerabilities.len()) by {
        if i < first.vulnerabilities.len() {
            assert(report.vulnerabilities[i] == first.vulnerabilities[i]);
        }
    }
}

proof fn lemma_nothing_noted(calls: Seq<Call>, outcomes: Seq<Outcome>, n: int)
    requires
        0 <= n <= outcomes.len(),
        forall|i: int|
            0 <= i < outcomes.len() ==> ((#[trigger] outcomes[i]) is Repaired ==> !writes(
                outcomes[i]->trace.ops,
            )),
    ensures
        noted_upto(calls, outcomes, n).len() == 0,
    decreases n,
{
    if n > 0 {
        lemma_nothing_noted(calls, outcomes, n - 1);
        assert(outcomes[n - 1] is Repaired ==> !writes(outcomes[n - 1]->trace.ops));
    }
}

/// Where no recovery writes, there is nothing to crash: the report is that of
/// the workload's own check.
pub proof fn law_idle_recoveries_add_nothing<
    R: Fn(&Tree) -> Result<Recovery, String>,
    V: Fn(&Crash) -> Result<(), String>,
>(
    recover: R,
    verify: V,
    t: TraceView,
    opts: Options,
    calls: Seq<Call>,
    outcomes: Seq<Outcome>,
    first: ReportView,
    subs: Seq<SubCheck>,
    report: ReportView,
)
    requires
        is_recovery_outcome(recover, verify, t, opts, calls, outcomes, first, subs, report),
        forall|i: int|
            0 <= i < outcomes.len() ==> ((#[trigger] outcomes[i]) is Repaired ==> !writes(
                outcomes[i]->trace.ops,
            )),
    ensures
        report == first,
{
    lemma_nothing_noted(calls, outcomes, calls.len() as int);
}

/// A recovery that always fails is never judged: whatever the judge, every call
/// is answered with the reason of the failure, and nothing more is crashed.
pub proof fn law_failed_recoveries_are_not_judged<
    R: Fn(&Tree) -> Result<Recovery, String>,
    V: Fn(&Crash) -> Result<(), String>,
>(
    recover: R,
    verify: V,
    t: TraceView,
    opts: Options,
    calls: Seq<Call>,
    outcomes: Seq<Outcome>,
    first: ReportView,
    subs: Seq<SubCheck>,
    report: ReportView,
)
    requires
        is_recovery_outcome(recover, verify, t, opts, calls, outcomes, first, subs, report),
        forall|i: int| 0 <= i < outcomes.len() ==> (#[trigger] outcomes[i]) is Failed,
    ensures
        report == first,
        forall|i: int|
            0 <= i < calls.len() ==> (#[trigger] calls[i]).verdict == Some(
                "recovery failed: "@ + outcomes[i]->why,
            ),
        first.failures == first.states,
{
    law_idle_recoveries_add_nothing(
        recover,
        verify,
        t,
        opts,
        calls,
        outcomes,
        first,
        subs,
        report,
    );
    assert forall|i: int| 0 <= i < calls.len() implies (#[trigger] calls[i]).verdict == Some(
        "recovery failed: "@ + outcomes[i]->why,
    ) by {
        assert(outcomes[i] is Failed);
        assert(answered_after_recovery(
            recover,
            verify,
            judged_at(None, calls[i]).0,
            judged_at(None, calls[i]).1,
            calls[i],
            outcomes[i],
        ));
    }
    let p = compiled(t, opts.profile, opts.block_size)->Ok_0;
    let states = states_to_check(p, opts.search, opts.max_states);
    lemma_every_state_fails(p, states, calls, states.len() as int);
}

proof fn lemma_every_state_fails(
    p: ProgramView,
    states: Seq<StateView>,
    calls: Seq<Call>,
    n: int,
)
    requires
        all_asked(p, states, calls),
        forall|i: int| 0 <= i < calls.len() ==> (#[trigger] calls[i]).verdict is Some,
        0 <= n <= states.len(),
    ensures
        failing(p, states, calls, n).len() == n,
    decreases n,
{
    if n > 0 {
        lemma_every_state_fails(p, states, calls, n - 1);
        let key = state_key(p, states[n - 1]);
        assert(lookup(calls, key) is Some);
        lemma_lookup_found(calls, key);
        lemma_placed_len(failing(p, states, calls, n - 1), states[n - 1]);
    }
}

} // verus!
