//! How failing states become the vulnerabilities of a report.

use crate::check::{
    accounts_for, asked_once, failing, group_accounts_for, group_for_cause, group_for_lost,
    grouped, is_outcome, lookup, lost_count, minimized, placed, simpler, vulnerability, Call,
    GroupView, Options,
};
use crate::check_laws::{lemma_group_for_cause, lemma_group_for_lost, lemma_lookup_at};
use crate::explain::{lost_of, VulnerabilityView};
use crate::program::ProgramView;
use crate::report::ReportView;
use crate::states::{state_key, states_to_check, Key, StateView};
use crate::trace::OpView;
use vstd::prelude::*;

verus! {

/// What a checker said of a content and a number of marks is what it answered
/// when it was asked about them.
pub proof fn law_answers_are_remembered(calls: Seq<Call>, key: Key)
    requires
        asked_once(calls),
    ensures
        forall|i: int|
            0 <= i < calls.len() && (#[trigger] calls[i]).tree == key.tree && calls[i].marks.len()
                == key.marks ==> lookup(calls, key) == Some(calls[i].verdict),
        lookup(calls, key) is Some ==> exists|i: int|
            0 <= i < calls.len() && (#[trigger] calls[i]).tree == key.tree && calls[i].marks.len()
                == key.marks,
{
    assert forall|i: int|
        0 <= i < calls.len() && (#[trigger] calls[i]).tree == key.tree && calls[i].marks.len()
            == key.marks implies lookup(calls, key) == Some(calls[i].verdict) by {
        lemma_lookup_at(calls, i, key);
    }
    if lookup(calls, key) is Some {
        lemma_asked(calls, key);
    }
}

proof fn lemma_asked(calls: Seq<Call>, key: Key)
    requires
        lookup(calls, key) is Some,
    ensures
        exists|i: int|
            0 <= i < calls.len() && (#[trigger] calls[i]).tree == key.tree && calls[i].marks.len()
                == key.marks,
    decreases calls.len(),
{
    let front = calls.drop_last();
    if lookup(front, key) is Some {
        lemma_asked(front, key);
        let i = choose|i: int|
            0 <= i < front.len() && (#[trigger] front[i]).tree == key.tree && front[i].marks.len()
                == key.marks;
        assert(calls[i] == front[i]);
    } else {
        assert(calls[calls.len() - 1] == calls.last());
    }
}

/// A state that lost nothing lost none, and each micro-op more that is lost
/// counts as one.
pub proof fn law_each_loss_counts(s: Seq<bool>, j: int)
    requires
        0 <= j < s.len(),
        s[j],
    ensures
        lost_count(s.update(j, false)) == lost_count(s) + 1,
        lost_count(s) == 0 <==> forall|k: int| 0 <= k < s.len() ==> #[trigger] s[k],
    decreases s.len(),
{
    let t = s.update(j, false);
    if j < s.len() - 1 {
        assert(t.drop_last() =~= s.drop_last().update(j, false));
        law_each_loss_counts(s.drop_last(), j);
    } else {
        assert(t.drop_last() =~= s.drop_last());
    }
    lemma_none_lost(s);
}

proof fn lemma_none_lost(s: Seq<bool>)
    ensures
        lost_count(s) == 0 <==> forall|k: int| 0 <= k < s.len() ==> #[trigger] s[k],
    decreases s.len(),
{
    if s.len() > 0 {
        lemma_none_lost(s.drop_last());
        let front = s.drop_last();
        if forall|k: int| 0 <= k < front.len() ==> #[trigger] front[k] {
            assert forall|k: int| 0 <= k < s.len() - 1 implies #[trigger] s[k] by {
                assert(front[k]);
            }
        }
        if forall|k: int| 0 <= k < s.len() ==> #[trigger] s[k] {
            assert(s[s.len() - 1]);
            assert forall|k: int| 0 <= k < front.len() implies #[trigger] front[k] by {
                assert(s[k]);
            }
        }
    }
}

/// An earlier crash first; of crashes at one point, the one that lost less.
pub open spec fn simplest_first(v: Seq<StateView>) -> bool {
    forall|a: int, b: int|
        0 <= a < b < v.len() ==> (#[trigger] v[a]).point <= (#[trigger] v[b]).point && (v[a].point
            == v[b].point ==> lost_count(v[a].persisted) <= lost_count(v[b].persisted))
}

proof fn lemma_placed_in_order(v: Seq<StateView>, x: StateView)
    requires
        simplest_first(v),
    ensures
        simplest_first(placed(v, x)),
        placed(v, x).contains(x),
        forall|y: StateView| #[trigger] placed(v, x).contains(y) <==> v.contains(y) || y == x,
    decreases v.len(),
{
    let after = placed(v, x);
    if v.len() == 0 || !simpler(x, v.last()) {
        assert(after[v.len() as int] == x);
        assert forall|y: StateView| #[trigger] after.contains(y) <==> v.contains(y) || y == x by {
            if v.contains(y) {
                let i = choose|i: int| 0 <= i < v.len() && v[i] == y;
                assert(after[i] == y);
            }
        }
        assert forall|a: int, b: int| 0 <= a < b < after.len() implies (#[trigger] after[a]).point
            <= (#[trigger] after[b]).point && (after[a].point == after[b].point ==> lost_count(
            after[a].persisted,
        ) <= lost_count(after[b].persisted)) by {
            if b == v.len() {
                assert(v[a] == after[a]);
                assert(v[v.len() - 1] == v.last());
            }
        }
    } else {
        let w = v.drop_last();
        assert forall|a: int, b: int| 0 <= a < b < w.len() implies (#[trigger] w[a]).point <= (
        #[trigger] w[b]).point && (w[a].point == w[b].point ==> lost_count(w[a].persisted)
            <= lost_count(w[b].persisted)) by {
            assert(w[a] == v[a] && w[b] == v[b]);
        }
        lemma_placed_in_order(w, x);
        let q = placed(w, x);
        assert(after =~= q.push(v.last()));
        assert forall|y: StateView| #[trigger] after.contains(y) <==> v.contains(y) || y == x by {
            if after.contains(y) {
                let i = choose|i: int| 0 <= i < after.len() && after[i] == y;
                if i < q.len() {
                    assert(q[i] == y);
                    assert(q.contains(y));
                    if w.contains(y) {
                        let k = choose|k: int| 0 <= k < w.len() && w[k] == y;
                        assert(v[k] == y);
                    }
                } else {
                    assert(v[v.len() - 1] == y);
                }
            }
            if v.contains(y) {
                let k = choose|k: int| 0 <= k < v.len() && v[k] == y;
                if k < w.len() {
                    assert(w[k] == y);
                    assert(q.contains(y));
                    let i = choose|i: int| 0 <= i < q.len() && q[i] == y;
                    assert(after[i] == y);
                } else {
                    assert(after[q.len() as int] == y);
                }
            }
            if y == x {
                assert(q.contains(x));
                let i = choose|i: int| 0 <= i < q.len() && q[i] == x;
                assert(after[i] == x);
            }
        }
        assert(after.contains(x));
        assert forall|a: int, b: int| 0 <= a < b < after.len() implies (#[trigger] after[a]).point
            <= (#[trigger] after[b]).point && (after[a].point == after[b].point ==> lost_count(
            after[a].persisted,
        ) <= lost_count(after[b].persisted)) by {
            if b == q.len() {
                assert(q[a] == after[a]);
                assert(q.contains(q[a]));
                if w.contains(q[a]) {
                    let k = choose|k: int| 0 <= k < w.len() && w[k] == q[a];
                    assert(v[k] == q[a]);
                    assert(v[v.len() - 1] == v.last());
                }
            } else {
                assert(q[a] == after[a] && q[b] == after[b]);
            }
        }
    }
}

/// The failures are the checked states that were rejected, all of them and no
/// others, the simplest first.
pub proof fn law_failures_are_the_rejected_states(
    p: ProgramView,
    states: Seq<StateView>,
    calls: Seq<Call>,
    n: int,
)
    requires
        0 <= n <= states.len(),
    ensures
        simplest_first(failing(p, states, calls, n)),
        forall|i: int|
            0 <= i < n && (lookup(calls, state_key(p, #[trigger] states[i])) matches Some(Some(_)))
                ==> failing(p, states, calls, n).contains(states[i]),
        forall|x: StateView| #[trigger]
            failing(p, states, calls, n).contains(x) ==> {
                &&& lookup(calls, state_key(p, x)) matches Some(Some(_))
                &&& exists|i: int| 0 <= i < n && #[trigger] states[i] == x
            },
    decreases n,
{
    if n > 0 {
        law_failures_are_the_rejected_states(p, states, calls, n - 1);
        let before = failing(p, states, calls, n - 1);
        let x = states[n - 1];
        lemma_placed_in_order(before, x);
        let after = failing(p, states, calls, n);
        assert forall|y: StateView| #[trigger] after.contains(y) implies {
            &&& lookup(calls, state_key(p, y)) matches Some(Some(_))
            &&& exists|i: int| 0 <= i < n && #[trigger] states[i] == y
        } by {
            if before.contains(y) {
                let i = choose|i: int| 0 <= i < n - 1 && #[trigger] states[i] == y;
                assert(states[i] == y);
            } else {
                assert(states[n - 1] == y);
            }
        }
    }
}

proof fn lemma_found_for_cause(groups: Seq<GroupView>, v: VulnerabilityView, k: int)
    requires
        0 <= k,
    ensures
        group_for_cause(groups, v.kind, v.files, k) matches Some(i) ==> k <= i < groups.len()
            && groups[i].vuln.kind == v.kind && groups[i].vuln.files == v.files,
    decreases groups.len() - k,
{
    if k < groups.len() {
        lemma_found_for_cause(groups, v, k + 1);
    }
}

proof fn lemma_groups_last(
    p: ProgramView,
    ops: Seq<OpView>,
    calls: Seq<Call>,
    limit: usize,
    states: Seq<StateView>,
    m: int,
    n: int,
    k: int,
)
    requires
        m <= n,
        0 <= k < grouped(p, ops, calls, limit, states, m).groups.len(),
    ensures
        k < grouped(p, ops, calls, limit, states, n).groups.len(),
        ({
            let a = grouped(p, ops, calls, limit, states, m).groups[k].vuln;
            let b = grouped(p, ops, calls, limit, states, n).groups[k].vuln;
            b == (VulnerabilityView { occurrences: b.occurrences, ..a })
        }),
    decreases n - m,
{
    if 0 < n && m < n {
        lemma_groups_last(p, ops, calls, limit, states, m, n - 1, k);
        let g = grouped(p, ops, calls, limit, states, n - 1);
        let x = states[n - 1];
        lemma_group_for_lost(g.groups, lost_of(p, x.persisted), 0);
        let s = minimized(p, calls, x.point as int, x.persisted);
        lemma_group_for_cause(g.groups, vulnerability(p, ops, calls, x.point, s), 0);
    }
}

/// Every failure that was minimized is attributed to a vulnerability of the kind
/// and the files of its own minimized state, and the report keeps it.
pub proof fn law_minimized_failures_are_reported(
    p: ProgramView,
    ops: Seq<OpView>,
    calls: Seq<Call>,
    limit: usize,
    states: Seq<StateView>,
    i: int,
    n: int,
)
    requires
        0 <= i < n <= states.len(),
        grouped(p, ops, calls, limit, states, i + 1).minimized != grouped(
            p,
            ops,
            calls,
            limit,
            states,
            i,
        ).minimized,
    ensures
        ({
            let x = states[i];
            let s = minimized(p, calls, x.point as int, x.persisted);
            let own = vulnerability(p, ops, calls, x.point, s);
            exists|k: int|
                0 <= k < grouped(p, ops, calls, limit, states, n).groups.len() && {
                    let v = (#[trigger] grouped(p, ops, calls, limit, states, n).groups[k]).vuln;
                    v.kind == own.kind && v.files == own.files
                }
        }),
{
    let g = grouped(p, ops, calls, limit, states, i);
    let x = states[i];
    let s = minimized(p, calls, x.point as int, x.persisted);
    let own = vulnerability(p, ops, calls, x.point, s);
    lemma_found_for_cause(g.groups, own, 0);
    let k = match group_for_cause(g.groups, own.kind, own.files, 0) {
        Some(k) => k,
        None => g.groups.len() as int,
    };
    let h = grouped(p, ops, calls, limit, states, i + 1);
    assert(h.groups[k].vuln.kind == own.kind && h.groups[k].vuln.files == own.files);
    lemma_groups_last(p, ops, calls, limit, states, i + 1, n, k);
    let last = grouped(p, ops, calls, limit, states, n).groups[k];
    assert(last.vuln.kind == own.kind && last.vuln.files == own.files);
}

/// Every vulnerability is, but for the number of its occurrences, the
/// explanation of a failure that was minimized.
pub proof fn law_vulnerabilities_come_from_failures(
    p: ProgramView,
    ops: Seq<OpView>,
    calls: Seq<Call>,
    limit: usize,
    states: Seq<StateView>,
    n: int,
    k: int,
) -> (i: int)
    requires
        0 <= n <= states.len(),
        0 <= k < grouped(p, ops, calls, limit, states, n).groups.len(),
    ensures
        0 <= i < n,
        ({
            let v = grouped(p, ops, calls, limit, states, n).groups[k].vuln;
            let x = states[i];
            let s = minimized(p, calls, x.point as int, x.persisted);
            v == (VulnerabilityView {
                occurrences: v.occurrences,
                ..vulnerability(p, ops, calls, x.point, s)
            })
        }),
    decreases n,
{
    let g = grouped(p, ops, calls, limit, states, n - 1);
    let x = states[n - 1];
    lemma_group_for_lost(g.groups, lost_of(p, x.persisted), 0);
    let s = minimized(p, calls, x.point as int, x.persisted);
    lemma_group_for_cause(g.groups, vulnerability(p, ops, calls, x.point, s), 0);
    if k < g.groups.len() {
        law_vulnerabilities_come_from_failures(p, ops, calls, limit, states, n - 1, k)
    } else {
        n - 1
    }
}

proof fn lemma_found_for_lost(groups: Seq<GroupView>, lost: Seq<usize>, k: int)
    requires
        0 <= k,
    ensures
        match group_for_lost(groups, lost, k) {
            Some(i) => k <= i < groups.len() && group_accounts_for(groups[i], lost) && forall|
                j: int,
            |
                k <= j < i ==> !group_accounts_for(#[trigger] groups[j], lost),
            None => forall|i: int|
                k <= i < groups.len() ==> !group_accounts_for(#[trigger] groups[i], lost),
        },
    decreases groups.len() - k,
{
    if k < groups.len() {
        lemma_found_for_lost(groups, lost, k + 1);
    }
}

/// A failure is minimized exactly when the limit allows it and no minimized
/// cause so far is contained in what it lost. If one is, the failure counts as
/// one more occurrence of the first vulnerability with such a cause, and nothing
/// else changes.
pub proof fn law_known_causes_are_not_minimized_again(
    p: ProgramView,
    ops: Seq<OpView>,
    calls: Seq<Call>,
    limit: usize,
    states: Seq<StateView>,
    i: int,
)
    requires
        0 <= i < states.len(),
        i < usize::MAX,
    ensures
        ({
            let before = grouped(p, ops, calls, limit, states, i);
            let after = grouped(p, ops, calls, limit, states, i + 1);
            let lost = lost_of(p, states[i].persisted);
            let explains = |k: int, c: int|
                0 <= k < before.groups.len() && 0 <= c < before.groups[k].causes.len()
                    && before.groups[k].causes[c].len() > 0 && forall|o: usize|
                    before.groups[k].causes[c].contains(o) ==> lost.contains(o);
            &&& (exists|k: int, c: int| #[trigger] explains(k, c)) ==> {
                &&& after.minimized == before.minimized
                &&& exists|k: int, c: int| #[trigger]
                    explains(k, c) && (forall|i: int, j: int| #[trigger]
                        explains(i, j) ==> k <= i) && after.groups == before.groups.update(
                        k,
                        GroupView {
                            vuln: VulnerabilityView {
                                occurrences: (before.groups[k].vuln.occurrences + 1) as usize,
                                ..before.groups[k].vuln
                            },
                            causes: before.groups[k].causes,
                        },
                    )
            }
            &&& !(exists|k: int, c: int| #[trigger] explains(k, c)) && before.minimized == limit
                ==> after == before
            &&& !(exists|k: int, c: int| #[trigger] explains(k, c)) && before.minimized != limit
                ==> after.minimized == before.minimized + 1
        }),
{
    let before = grouped(p, ops, calls, limit, states, i);
    let after = grouped(p, ops, calls, limit, states, i + 1);
    let lost = lost_of(p, states[i].persisted);
    let explains = |k: int, c: int|
        0 <= k < before.groups.len() && 0 <= c < before.groups[k].causes.len()
            && before.groups[k].causes[c].len() > 0 && forall|o: usize|
            before.groups[k].causes[c].contains(o) ==> lost.contains(o);
    lemma_found_for_lost(before.groups, lost, 0);
    assert forall|k: int, c: int| #[trigger] explains(k, c) implies group_accounts_for(
        before.groups[k],
        lost,
    ) by {
        let cause = before.groups[k].causes[c];
        assert forall|j: int| 0 <= j < cause.len() implies lost.contains(#[trigger] cause[j]) by {
            assert(cause.contains(cause[j]));
        }
        assert(accounts_for(before.groups[k].causes[c], lost));
    }
    match group_for_lost(before.groups, lost, 0) {
        Some(k) => {
            let g = before.groups[k];
            let c = choose|c: int|
                0 <= c < g.causes.len() && accounts_for(#[trigger] g.causes[c], lost);
            assert(explains(k, c));
        },
        None => {},
    }
}

/// The causes that a vulnerability is known by are what its minimized failures
/// lost: a failure that was minimized adds the ops that its minimized state lost.
pub proof fn law_causes_are_what_was_lost(
    p: ProgramView,
    ops: Seq<OpView>,
    calls: Seq<Call>,
    limit: usize,
    states: Seq<StateView>,
    i: int,
)
    requires
        0 <= i < states.len(),
        grouped(p, ops, calls, limit, states, i + 1).minimized != grouped(
            p,
            ops,
            calls,
            limit,
            states,
            i,
        ).minimized,
    ensures
        ({
            let x = states[i];
            let s = minimized(p, calls, x.point as int, x.persisted);
            let own = vulnerability(p, ops, calls, x.point, s);
            let before = grouped(p, ops, calls, limit, states, i).groups;
            let after = grouped(p, ops, calls, limit, states, i + 1).groups;
            exists|k: int|
                0 <= k <= before.len() && {
                    let g = #[trigger] after[k];
                    &&& g.vuln.kind == own.kind
                    &&& g.vuln.files == own.files
                    &&& g.causes.len() > 0
                    &&& g.causes.last() == lost_of(p, s.persisted)
                    &&& k < before.len() ==> after == before.update(
                        k,
                        GroupView {
                            vuln: VulnerabilityView {
                                occurrences: (before[k].vuln.occurrences + 1) as usize,
                                ..before[k].vuln
                            },
                            causes: before[k].causes.push(lost_of(p, s.persisted)),
                        },
                    )
                    &&& k == before.len() ==> after == before.push(
                        GroupView { vuln: own, causes: seq![lost_of(p, s.persisted)] },
                    ) && own.occurrences == 1
                }
        }),
{
    let x = states[i];
    let s = minimized(p, calls, x.point as int, x.persisted);
    let own = vulnerability(p, ops, calls, x.point, s);
    let before = grouped(p, ops, calls, limit, states, i).groups;
    let after = grouped(p, ops, calls, limit, states, i + 1).groups;
    lemma_found_for_cause(before, own, 0);
    let k = match group_for_cause(before, own.kind, own.files, 0) {
        Some(k) => k,
        None => before.len() as int,
    };
    assert(after[k].causes.last() == lost_of(p, s.persisted));
}

/// A report explains what failed. Each of its vulnerabilities is, but for the
/// number of its occurrences, the explanation of a checked state that the checker
/// rejected; and the first is that of the simplest of these.
pub proof fn law_reports_explain_failures(
    p: ProgramView,
    ops: Seq<OpView>,
    opts: Options,
    calls: Seq<Call>,
    r: ReportView,
    k: int,
) -> (x: StateView)
    requires
        is_outcome(p, ops, opts, calls, r),
        0 <= k < r.vulnerabilities.len(),
    ensures
        states_to_check(p, opts.search, opts.max_states).contains(x),
        lookup(calls, state_key(p, x)) matches Some(Some(_)),
        ({
            let v = r.vulnerabilities[k];
            let s = minimized(p, calls, x.point as int, x.persisted);
            v == (VulnerabilityView {
                occurrences: v.occurrences,
                ..vulnerability(p, ops, calls, x.point, s)
            })
        }),
        k == 0 ==> forall|y: StateView|
            states_to_check(p, opts.search, opts.max_states).contains(y) && (
            #[trigger] lookup(calls, state_key(p, y)) matches Some(Some(_))) ==> x.point < y.point
                || (x.point == y.point && lost_count(x.persisted) <= lost_count(y.persisted)),
{
    let states = states_to_check(p, opts.search, opts.max_states);
    let n = states.len() as int;
    let f = failing(p, states, calls, n);
    law_failures_are_the_rejected_states(p, states, calls, n);
    let g = grouped(p, ops, calls, opts.explain, f, f.len() as int);
    let i = if k == 0 {
        lemma_first_group(p, ops, calls, opts.explain, f, f.len() as int);
        0
    } else {
        law_vulnerabilities_come_from_failures(
            p,
            ops,
            calls,
            opts.explain,
            f,
            f.len() as int,
            k,
        )
    };
    let x = f[i];
    assert(f.contains(x));
    let a = choose|a: int| 0 <= a < n && #[trigger] states[a] == x;
    assert(states[a] == x);
    if k == 0 {
        assert forall|y: StateView|
            states.contains(y) && (#[trigger] lookup(calls, state_key(p, y)) matches Some(
                Some(_),
            )) implies x.point < y.point || (x.point == y.point && lost_count(x.persisted)
            <= lost_count(y.persisted)) by {
            let b = choose|b: int| 0 <= b < n && states[b] == y;
            assert(lookup(calls, state_key(p, states[b])) matches Some(Some(_)));
            assert(f.contains(y));
            let c = choose|c: int| 0 <= c < f.len() && f[c] == y;
            if c > 0 {
                assert(f[0].point <= f[c].point);
            }
        }
    }
    x
}

proof fn lemma_first_group(
    p: ProgramView,
    ops: Seq<OpView>,
    calls: Seq<Call>,
    limit: usize,
    states: Seq<StateView>,
    n: int,
)
    requires
        0 <= n <= states.len(),
        grouped(p, ops, calls, limit, states, n).groups.len() > 0,
    ensures
        n > 0,
        ({
            let v = grouped(p, ops, calls, limit, states, n).groups[0].vuln;
            let x = states[0];
            let s = minimized(p, calls, x.point as int, x.persisted);
            v == (VulnerabilityView {
                occurrences: v.occurrences,
                ..vulnerability(p, ops, calls, x.point, s)
            })
        }),
    decreases n,
{
    if n == 1 {
        assert(grouped(p, ops, calls, limit, states, 0).groups.len() == 0);
    } else if n > 1 {
        let g = grouped(p, ops, calls, limit, states, n - 1);
        if g.groups.len() > 0 {
            lemma_first_group(p, ops, calls, limit, states, n - 1);
            lemma_groups_last(p, ops, calls, limit, states, n - 1, n, 0);
        } else {
            lemma_no_group(p, ops, calls, limit, states, n - 1);
        }
    }
}

/// Nothing is explained after some failures only if nothing may be.
proof fn lemma_no_group(
    p: ProgramView,
    ops: Seq<OpView>,
    calls: Seq<Call>,
    limit: usize,
    states: Seq<StateView>,
    n: int,
)
    requires
        0 < n <= states.len(),
        grouped(p, ops, calls, limit, states, n).groups.len() == 0,
    ensures
        limit == 0,
        grouped(p, ops, calls, limit, states, n).minimized == 0,
    decreases n,
{
    let g = grouped(p, ops, calls, limit, states, n - 1);
    let x = states[n - 1];
    lemma_group_for_lost(g.groups, lost_of(p, x.persisted), 0);
    let s = minimized(p, calls, x.point as int, x.persisted);
    lemma_group_for_cause(g.groups, vulnerability(p, ops, calls, x.point, s), 0);
    if n > 1 {
        lemma_no_group(p, ops, calls, limit, states, n - 1);
    } else {
        assert(grouped(p, ops, calls, limit, states, 0).minimized == 0);
    }
}

/// A report holds, for each failure that was minimized, a vulnerability of the
/// kind and the files of its minimized state.
pub proof fn law_reports_hold_what_was_minimized(
    p: ProgramView,
    ops: Seq<OpView>,
    opts: Options,
    calls: Seq<Call>,
    r: ReportView,
    i: int,
)
    requires
        is_outcome(p, ops, opts, calls, r),
        ({
            let states = states_to_check(p, opts.search, opts.max_states);
            let f = failing(p, states, calls, states.len() as int);
            &&& 0 <= i < f.len()
            &&& grouped(p, ops, calls, opts.explain, f, i + 1).minimized != grouped(
                p,
                ops,
                calls,
                opts.explain,
                f,
                i,
            ).minimized
        }),
    ensures
        ({
            let states = states_to_check(p, opts.search, opts.max_states);
            let x = failing(p, states, calls, states.len() as int)[i];
            let s = minimized(p, calls, x.point as int, x.persisted);
            let own = vulnerability(p, ops, calls, x.point, s);
            exists|k: int|
                0 <= k < r.vulnerabilities.len() && (#[trigger] r.vulnerabilities[k]).kind
                    == own.kind && r.vulnerabilities[k].files == own.files
        }),
{
    let states = states_to_check(p, opts.search, opts.max_states);
    let f = failing(p, states, calls, states.len() as int);
    let n = f.len() as int;
    law_minimized_failures_are_reported(p, ops, calls, opts.explain, f, i, n);
    let x = f[i];
    let s = minimized(p, calls, x.point as int, x.persisted);
    let own = vulnerability(p, ops, calls, x.point, s);
    let g = grouped(p, ops, calls, opts.explain, f, n);
    let k = choose|k: int|
        0 <= k < g.groups.len() && {
            let v = (#[trigger] g.groups[k]).vuln;
            v.kind == own.kind && v.files == own.files
        };
    assert(r.vulnerabilities[k] == g.groups[k].vuln);
}

proof fn lemma_placed_behind(v: Seq<StateView>, x: StateView) -> (k: int)
    requires
        simplest_first(v),
    ensures
        0 <= k <= v.len(),
        placed(v, x) == v.insert(k, x),
        forall|i: int| k <= i < v.len() ==> simpler(x, #[trigger] v[i]),
    decreases v.len(),
{
    if v.len() == 0 || !simpler(x, v.last()) {
        assert(v.insert(v.len() as int, x) =~= v.push(x));
        v.len() as int
    } else {
        let w = v.drop_last();
        assert forall|a: int, b: int| 0 <= a < b < w.len() implies (#[trigger] w[a]).point <= (
        #[trigger] w[b]).point && (w[a].point == w[b].point ==> lost_count(w[a].persisted)
            <= lost_count(w[b].persisted)) by {
            assert(w[a] == v[a] && w[b] == v[b]);
        }
        let k = lemma_placed_behind(w, x);
        assert(placed(v, x) =~= v.insert(k, x));
        assert forall|i: int| k <= i < v.len() implies simpler(x, #[trigger] v[i]) by {
            if i < w.len() {
                assert(w[i] == v[i]);
            }
        }
        k
    }
}

/// Where the failures come from: strictly different states, listed so that of two
/// that are equally simple the one that was checked first comes first.
pub open spec fn in_checked_order(v: Seq<StateView>, from: Seq<int>) -> bool {
    &&& from.len() == v.len()
    &&& forall|a: int, b: int|
        0 <= a < b < v.len() ==> (#[trigger] from[a]) != (#[trigger] from[b]) && (v[a].point
            == v[b].point && lost_count(v[a].persisted) == lost_count(v[b].persisted)
            ==> from[a] < from[b])
}

/// Failures that are equally simple come in the order in which they were checked,
/// and none comes twice.
pub proof fn law_equal_failures_keep_their_order(
    p: ProgramView,
    states: Seq<StateView>,
    calls: Seq<Call>,
    n: int,
) -> (from: Seq<int>)
    requires
        0 <= n <= states.len(),
    ensures
        in_checked_order(failing(p, states, calls, n), from),
        forall|a: int|
            0 <= a < from.len() ==> 0 <= #[trigger] from[a] < n && states[from[a]] == failing(
                p,
                states,
                calls,
                n,
            )[a],
    decreases n,
{
    if n <= 0 {
        Seq::empty()
    } else {
        let before = failing(p, states, calls, n - 1);
        let old_from = law_equal_failures_keep_their_order(p, states, calls, n - 1);
        let x = states[n - 1];
        if lookup(calls, state_key(p, x)) matches Some(Some(_)) {
            law_failures_are_the_rejected_states(p, states, calls, n - 1);
            let k = lemma_placed_behind(before, x);
            let from = old_from.insert(k, n - 1);
            let v = failing(p, states, calls, n);
            assert forall|a: int| 0 <= a < from.len() implies 0 <= #[trigger] from[a] < n
                && states[from[a]] == v[a] by {
                if a < k {
                    assert(from[a] == old_from[a]);
                } else if a > k {
                    assert(from[a] == old_from[a - 1]);
                }
            }
            assert forall|a: int, b: int| 0 <= a < b < v.len() implies (#[trigger] from[a]) != (
            #[trigger] from[b]) && (v[a].point == v[b].point && lost_count(v[a].persisted)
                == lost_count(v[b].persisted) ==> from[a] < from[b]) by {
                let i = if a < k {
                    a
                } else {
                    a - 1
                };
                let j = if b < k {
                    b
                } else {
                    b - 1
                };
                if a != k && b != k {
                    assert(from[a] == old_from[i] && from[b] == old_from[j]);
                    assert(v[a] == before[i] && v[b] == before[j]);
                } else if a == k {
                    assert(from[b] == old_from[j]);
                    assert(0 <= old_from[j] < n - 1);
                    assert(v[b] == before[j]);
                    assert(simpler(x, before[j]));
                } else {
                    assert(from[a] == old_from[i]);
                    assert(0 <= old_from[i] < n - 1);
                }
            }
            from
        } else {
            assert forall|a: int| 0 <= a < old_from.len() implies 0 <= #[trigger] old_from[a] < n
                && states[old_from[a]] == failing(p, states, calls, n)[a] by {}
            old_from
        }
    }
}

} // verus!
