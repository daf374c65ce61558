//! What holds of every check.

use crate::check::{
    asked_once, failing, group_for_cause, group_for_lost, grouped, grouped_with, is_call_on,
    is_check, is_outcome, lemma_checked_states_are_legal, lookup, minimized, once_more, placed,
    planned_first, state_legal, tried, tried_micros, tried_ops, unshrunk, vulnerability, vulns_of,
    with_more, Call, GroupView, Options, Shrunk,
};
use crate::crash::{candidates_of, closed, flight, legal, searchable_at, within, Search};
use crate::explain::{
    explained, first_lost, lost_of, lost_upto, survived_upto, Kind, VulnerabilityView,
};
use crate::laws::{law_closed_is_the_smallest_legal_state, law_small_searches_are_exhaustive};
use crate::program::{micro_op_sound, ops_of, program_sound, ProgramView};
use crate::report::ReportView;
use crate::states::{
    all_states, distinct, key_with, keys_of, state_key, states_at, states_to_check, states_upto,
    Key, StateView,
};
use crate::trace::OpView;
use vstd::prelude::*;

verus! {

/// No two states that are checked are the same to a checker.
pub proof fn law_checked_states_differ(p: ProgramView, states: Seq<StateView>)
    ensures
        forall|i: int, j: int|
            0 <= i < j < distinct(p, states).len() ==> state_key(
                p,
                #[trigger] distinct(p, states)[i],
            ) != state_key(p, #[trigger] distinct(p, states)[j]),
    decreases states.len(),
{
    if states.len() > 0 {
        law_checked_states_differ(p, states.drop_last());
        let a = distinct(p, states.drop_last());
        let b = distinct(p, states);
        assert forall|i: int, j: int| 0 <= i < j < b.len() implies state_key(p, #[trigger] b[i])
            != state_key(p, #[trigger] b[j]) by {
            assert(b[i] == a[i]);
            if j < a.len() {
                assert(b[j] == a[j]);
            } else {
                assert(keys_of(p, a)[i] == state_key(p, a[i]));
            }
        }
    }
}

/// Every state that the search comes across is the same, to a checker, as one
/// that is checked.
pub proof fn law_every_state_is_represented(p: ProgramView, states: Seq<StateView>, i: int)
    requires
        0 <= i < states.len(),
    ensures
        keys_of(p, distinct(p, states)).contains(state_key(p, states[i])),
    decreases states.len(),
{
    let a = distinct(p, states.drop_last());
    let b = distinct(p, states);
    if i < states.len() - 1 {
        law_every_state_is_represented(p, states.drop_last(), i);
        let k = choose|k: int|
            0 <= k < keys_of(p, a).len() && keys_of(p, a)[k] == state_key(p, states[i]);
        assert(keys_of(p, b)[k] == state_key(p, states[i]));
    } else if !keys_of(p, a).contains(state_key(p, states[i])) {
        assert(keys_of(p, b)[a.len() as int] == state_key(p, states[i]));
    } else {
        let k = choose|k: int|
            0 <= k < keys_of(p, a).len() && keys_of(p, a)[k] == state_key(p, states[i]);
        assert(keys_of(p, b)[k] == state_key(p, states[i]));
    }
}

pub proof fn lemma_placed_len(v: Seq<StateView>, x: StateView)
    ensures
        placed(v, x).len() == v.len() + 1,
    decreases v.len(),
{
    if v.len() > 0 {
        lemma_placed_len(v.drop_last(), x);
    }
}

proof fn lemma_failing_counts(p: ProgramView, states: Seq<StateView>, calls: Seq<Call>, n: int)
    requires
        0 <= n <= states.len(),
    ensures
        failing(p, states, calls, n).len() <= n,
        failing(p, states, calls, n).len() == 0 ==> forall|i: int|
            0 <= i < n ==> !(lookup(calls, state_key(p, #[trigger] states[i])) matches Some(
                Some(_),
            )),
    decreases n,
{
    if n > 0 {
        lemma_failing_counts(p, states, calls, n - 1);
        lemma_placed_len(failing(p, states, calls, n - 1), states[n - 1]);
    }
}

/// A report is clean exactly when the checker accepted every state that was
/// checked; and when the limit did not cut the enumeration short, these stand
/// for every state that the search comes across.
pub proof fn law_clean_means_accepted(
    p: ProgramView,
    ops: Seq<OpView>,
    opts: Options,
    calls: Seq<Call>,
    r: ReportView,
)
    requires
        is_outcome(p, ops, opts, calls, r),
    ensures
        r.failures == 0 <==> forall|i: int|
            0 <= i < states_to_check(p, opts.search, opts.max_states).len() ==> lookup(
                calls,
                state_key(p, #[trigger] states_to_check(p, opts.search, opts.max_states)[i]),
            ) == Some(None::<Seq<char>>),
        r.failures == 0 && !r.truncated ==> forall|i: int|
            0 <= i < all_states(p, opts.search).len() ==> lookup(
                calls,
                state_key(p, #[trigger] all_states(p, opts.search)[i]),
            ) == Some(None::<Seq<char>>),
{
    let states = states_to_check(p, opts.search, opts.max_states);
    let n = states.len() as int;
    lemma_failing_counts(p, states, calls, n);
    let accepted = forall|i: int|
        0 <= i < n ==> lookup(calls, state_key(p, #[trigger] states[i])) == Some(
            None::<Seq<char>>,
        );
    if r.failures == 0 {
        assert forall|i: int| 0 <= i < n implies lookup(
            calls,
            state_key(p, #[trigger] states[i]),
        ) == Some(None::<Seq<char>>) by {
            assert(lookup(calls, state_key(p, states[i])) is Some);
        }
        if !r.truncated {
            let all = all_states(p, opts.search);
            assert forall|i: int| 0 <= i < all.len() implies lookup(
                calls,
                state_key(p, #[trigger] all[i]),
            ) == Some(None::<Seq<char>>) by {
                law_every_state_is_represented(p, all, i);
                let keys = keys_of(p, states);
                let k = choose|k: int| 0 <= k < keys.len() && keys[k] == state_key(p, all[i]);
                assert(state_key(p, states[k]) == state_key(p, all[i]));
            }
        }
    }
    if accepted {
        lemma_none_failing(p, states, calls, n);
    }
}

proof fn lemma_none_failing(p: ProgramView, states: Seq<StateView>, calls: Seq<Call>, n: int)
    requires
        0 <= n <= states.len(),
        forall|i: int|
            0 <= i < states.len() ==> lookup(calls, state_key(p, #[trigger] states[i])) == Some(
                None::<Seq<char>>,
            ),
    ensures
        failing(p, states, calls, n).len() == 0,
    decreases n,
{
    if n > 0 {
        lemma_none_failing(p, states, calls, n - 1);
        assert(lookup(calls, state_key(p, states[n - 1])) == Some(None::<Seq<char>>));
    }
}

pub proof fn lemma_state_in_all(p: ProgramView, search: Search, point: int, i: int, n: int) -> (k: int)
    requires
        0 <= point < n,
        0 <= i < states_at(p, search, point).len(),
    ensures
        0 <= k < states_upto(p, search, n).len(),
        states_upto(p, search, n)[k] == states_at(p, search, point)[i],
    decreases n,
{
    if point == n - 1 {
        states_upto(p, search, n - 1).len() + i
    } else {
        lemma_state_in_all(p, search, point, i, n - 1)
    }
}

/// Where few enough micro-ops are in flight, a clean report that was not cut
/// short means that the checker accepts every state that a crash at that point
/// can leave behind.
pub proof fn law_clean_is_complete_where_exhaustive(
    p: ProgramView,
    ops: Seq<OpView>,
    opts: Options,
    calls: Seq<Call>,
    r: ReportView,
    point: usize,
    s: Seq<bool>,
)
    requires
        program_sound(p),
        is_outcome(p, ops, opts, calls, r),
        r.failures == 0,
        !r.truncated,
        point < p.op_end.len(),
        flight(p, point as int).len() <= opts.search.exhaustive_limit,
        searchable_at(p, point as int, opts.search),
        legal(p, point as int, s),
    ensures
        lookup(calls, state_key(p, StateView { point, persisted: s })) == Some(
            None::<Seq<char>>,
        ),
{
    law_clean_means_accepted(p, ops, opts, calls, r);
    law_small_searches_are_exhaustive(p, point as int, opts.search, s);
    let c = candidates_of(p, point as int, opts.search);
    let i = choose|i: int| 0 <= i < c.len() && s == closed(p, point as int, #[trigger] c[i]);
    let k = lemma_state_in_all(p, opts.search, point as int, i, p.op_end.len() as int);
    assert(all_states(p, opts.search)[k] == (StateView { point, persisted: s }));
}

/// A failing state on the way to its minimum holds all that it held, is one that
/// a crash can leave behind, and is rejected for the reason that is given.
pub open spec fn shrinks_well(
    p: ProgramView,
    calls: Seq<Call>,
    point: int,
    start: Seq<bool>,
    s: Shrunk,
) -> bool {
    &&& within(start, s.persisted)
    &&& legal(p, point, s.persisted)
    &&& lookup(calls, key_with(p, s.persisted, p.marks_before[point])) == Some(Some(s.message))
}

proof fn lemma_tried_shrinks_well(
    p: ProgramView,
    calls: Seq<Call>,
    point: int,
    start: Seq<bool>,
    s: Shrunk,
    more: spec_fn(int) -> bool,
)
    requires
        shrinks_well(p, calls, point, start, s),
    ensures
        shrinks_well(p, calls, point, start, tried(p, calls, point, s, more)),
{
    let wider = Seq::new(s.persisted.len(), |j: int| s.persisted[j] || more(j));
    law_closed_is_the_smallest_legal_state(p, point, wider);
    let trial = with_more(p, point, s.persisted, more);
    assert forall|j: int| 0 <= j < start.len() && #[trigger] start[j] implies trial[j] by {
        assert(s.persisted[j]);
        assert(wider[j]);
    }
}

pub proof fn lemma_tried_ops_shrinks_well(
    p: ProgramView,
    calls: Seq<Call>,
    point: int,
    start: Seq<bool>,
    s: Shrunk,
    ops: Seq<usize>,
    n: int,
)
    requires
        shrinks_well(p, calls, point, start, s),
    ensures
        shrinks_well(p, calls, point, start, tried_ops(p, calls, point, s, ops, n)),
    decreases n,
{
    if n > 0 {
        lemma_tried_ops_shrinks_well(p, calls, point, start, s, ops, n - 1);
        lemma_tried_shrinks_well(
            p,
            calls,
            point,
            start,
            tried_ops(p, calls, point, s, ops, n - 1),
            |j: int| p.micro[j].op == ops[n - 1],
        );
    }
}

pub proof fn lemma_tried_micros_shrinks_well(
    p: ProgramView,
    calls: Seq<Call>,
    point: int,
    start: Seq<bool>,
    s: Shrunk,
    n: int,
)
    requires
        shrinks_well(p, calls, point, start, s),
    ensures
        shrinks_well(p, calls, point, start, tried_micros(p, calls, point, s, n)),
    decreases n,
{
    if n > 0 {
        lemma_tried_micros_shrinks_well(p, calls, point, start, s, n - 1);
        lemma_tried_shrinks_well(
            p,
            calls,
            point,
            start,
            tried_micros(p, calls, point, s, n - 1),
            |j: int| j == n - 1,
        );
    }
}

/// Minimizing a failing state loses no more than it did, stays among the states
/// that a crash can leave behind, and ends in a state that the checker rejects,
/// with its reason.
pub proof fn law_minimized_state_still_fails(
    p: ProgramView,
    calls: Seq<Call>,
    point: int,
    start: Seq<bool>,
)
    requires
        legal(p, point, start),
        lookup(calls, key_with(p, start, p.marks_before[point])) matches Some(Some(_)),
    ensures
        shrinks_well(p, calls, point, start, minimized(p, calls, point, start)),
{
    let s = unshrunk(p, calls, point, start);
    let lost = lost_of(p, start);
    lemma_tried_ops_shrinks_well(p, calls, point, start, s, lost, lost.len() as int);
    lemma_tried_micros_shrinks_well(
        p,
        calls,
        point,
        start,
        tried_ops(p, calls, point, s, lost, lost.len() as int),
        start.len() as int,
    );
}

/// No two groups are of the same kind and about the same files.
pub open spec fn groups_differ(groups: Seq<GroupView>) -> bool {
    forall|i: int, j: int|
        0 <= i < j < groups.len() ==> !((#[trigger] groups[i]).vuln.kind == (
        #[trigger] groups[j]).vuln.kind && groups[i].vuln.files == groups[j].vuln.files)
}

pub proof fn lemma_group_for_cause(groups: Seq<GroupView>, v: VulnerabilityView, k: int)
    requires
        0 <= k,
    ensures
        match group_for_cause(groups, v.kind, v.files, k) {
            Some(i) => k <= i < groups.len(),
            None => forall|i: int|
                k <= i < groups.len() ==> !((#[trigger] groups[i]).vuln.kind == v.kind
                    && groups[i].vuln.files == v.files),
        },
    decreases groups.len() - k,
{
    if k < groups.len() {
        lemma_group_for_cause(groups, v, k + 1);
    }
}

pub proof fn lemma_group_for_lost(groups: Seq<GroupView>, lost: Seq<usize>, k: int)
    requires
        0 <= k,
    ensures
        group_for_lost(groups, lost, k) matches Some(i) ==> k <= i < groups.len(),
    decreases groups.len() - k,
{
    if k < groups.len() {
        lemma_group_for_lost(groups, lost, k + 1);
    }
}

/// Failures are grouped by root cause: no two vulnerabilities of a report are
/// of the same kind and about the same files.
pub proof fn law_vulnerabilities_differ(
    p: ProgramView,
    ops: Seq<OpView>,
    calls: Seq<Call>,
    limit: usize,
    states: Seq<StateView>,
    n: int,
)
    ensures
        groups_differ(grouped(p, ops, calls, limit, states, n).groups),
    decreases n,
{
    if n > 0 {
        law_vulnerabilities_differ(p, ops, calls, limit, states, n - 1);
        let g = grouped(p, ops, calls, limit, states, n - 1);
        let x = states[n - 1];
        let h = grouped_with(p, ops, calls, limit, g, x);
        lemma_group_for_lost(g.groups, lost_of(p, x.persisted), 0);
        let s = minimized(p, calls, x.point as int, x.persisted);
        let v = vulnerability(p, ops, calls, x.point, s);
        lemma_group_for_cause(g.groups, v, 0);
        assert forall|i: int, j: int| 0 <= i < j < h.groups.len() implies !((
        #[trigger] h.groups[i]).vuln.kind == (#[trigger] h.groups[j]).vuln.kind
            && h.groups[i].vuln.files == h.groups[j].vuln.files) by {
            if i < g.groups.len() {
                assert(h.groups[i].vuln.kind == g.groups[i].vuln.kind);
                assert(h.groups[i].vuln.files == g.groups[i].vuln.files);
            }
            if j < g.groups.len() {
                assert(h.groups[j].vuln.kind == g.groups[j].vuln.kind);
                assert(h.groups[j].vuln.files == g.groups[j].vuln.files);
            }
        }
    }
}

/// How many failing states were attributed to some groups.
pub open spec fn attributed_to(groups: Seq<GroupView>) -> nat
    decreases groups.len(),
{
    if groups.len() == 0 {
        0
    } else {
        attributed_to(groups.drop_last()) + groups.last().vuln.occurrences as nat
    }
}

proof fn lemma_attributed_bound(groups: Seq<GroupView>, i: int)
    requires
        0 <= i < groups.len(),
    ensures
        groups[i].vuln.occurrences <= attributed_to(groups),
    decreases groups.len(),
{
    if i < groups.len() - 1 {
        lemma_attributed_bound(groups.drop_last(), i);
    }
}

proof fn lemma_attributed_update(groups: Seq<GroupView>, i: int, g: GroupView)
    requires
        0 <= i < groups.len(),
        g.vuln.occurrences == groups[i].vuln.occurrences + 1,
    ensures
        attributed_to(groups.update(i, g)) == attributed_to(groups) + 1,
    decreases groups.len(),
{
    let after = groups.update(i, g);
    if i < groups.len() - 1 {
        lemma_attributed_update(groups.drop_last(), i, g);
        assert(after.drop_last() =~= groups.drop_last().update(i, g));
    } else {
        assert(after.drop_last() =~= groups.drop_last());
    }
}

/// Each failing state is attributed to one vulnerability at most, and to exactly
/// one as long as the limit on minimizing was not reached. There are no more
/// vulnerabilities than failures that were minimized, and at least one if any
/// was.
pub proof fn law_failures_are_attributed_once(
    p: ProgramView,
    ops: Seq<OpView>,
    calls: Seq<Call>,
    limit: usize,
    states: Seq<StateView>,
    n: int,
)
    requires
        0 <= n <= states.len(),
        n <= usize::MAX,
    ensures
        attributed_to(grouped(p, ops, calls, limit, states, n).groups) <= n,
        grouped(p, ops, calls, limit, states, n).minimized <= limit,
        grouped(p, ops, calls, limit, states, n).minimized < limit ==> attributed_to(
            grouped(p, ops, calls, limit, states, n).groups,
        ) == n,
        grouped(p, ops, calls, limit, states, n).minimized <= n,
        n <= limit ==> attributed_to(grouped(p, ops, calls, limit, states, n).groups) == n,
        grouped(p, ops, calls, limit, states, n).groups.len() <= grouped(
            p,
            ops,
            calls,
            limit,
            states,
            n,
        ).minimized,
        n > 0 && limit > 0 ==> grouped(p, ops, calls, limit, states, n).groups.len() > 0,
    decreases n,
{
    if n > 0 {
        law_failures_are_attributed_once(p, ops, calls, limit, states, n - 1);
        let g = grouped(p, ops, calls, limit, states, n - 1);
        let x = states[n - 1];
        lemma_group_for_lost(g.groups, lost_of(p, x.persisted), 0);
        match group_for_lost(g.groups, lost_of(p, x.persisted), 0) {
            Some(i) => {
                lemma_attributed_bound(g.groups, i);
                lemma_attributed_update(
                    g.groups,
                    i,
                    GroupView { vuln: once_more(g.groups[i].vuln), causes: g.groups[i].causes },
                );
            },
            None => {
                let s = minimized(p, calls, x.point as int, x.persisted);
                let v = vulnerability(p, ops, calls, x.point, s);
                lemma_group_for_cause(g.groups, v, 0);
                match group_for_cause(g.groups, v.kind, v.files, 0) {
                    Some(i) => {
                        lemma_attributed_bound(g.groups, i);
                        lemma_attributed_update(
                            g.groups,
                            i,
                            GroupView {
                                vuln: once_more(g.groups[i].vuln),
                                causes: g.groups[i].causes.push(lost_of(p, s.persisted)),
                            },
                        );
                    },
                    None => {
                        let more = g.groups.push(
                            GroupView { vuln: v, causes: seq![lost_of(p, s.persisted)] },
                        );
                        assert(more.drop_last() =~= g.groups);
                    },
                }
            },
        }
    }
}

/// A check never goes beyond its limit, and says so when there was more.
pub proof fn law_states_stay_within_the_limit(
    p: ProgramView,
    ops: Seq<OpView>,
    opts: Options,
    calls: Seq<Call>,
    r: ReportView,
)
    requires
        is_outcome(p, ops, opts, calls, r),
    ensures
        r.states <= opts.max_states,
        r.truncated <==> distinct(p, all_states(p, opts.search)).len() > opts.max_states,
        r.failures <= r.states,
{
    let states = states_to_check(p, opts.search, opts.max_states);
    lemma_failing_counts(p, states, calls, states.len() as int);
}

pub proof fn lemma_lost_upto(p: ProgramView, s: Seq<bool>, n: int)
    requires
        0 <= n <= s.len(),
    ensures
        forall|k: int| 0 <= k < n && !(#[trigger] s[k]) ==> lost_upto(p, s, n).contains(
            p.micro[k].op,
        ),
        forall|o: usize| #[trigger]
            lost_upto(p, s, n).contains(o) ==> exists|k: int|
                0 <= k < n && !(#[trigger] s[k]) && p.micro[k].op == o,
    decreases n,
{
    if n > 0 {
        lemma_lost_upto(p, s, n - 1);
        let before = lost_upto(p, s, n - 1);
        let after = lost_upto(p, s, n);
        assert forall|k: int| 0 <= k < n && !(#[trigger] s[k]) implies after.contains(
            p.micro[k].op,
        ) by {
            if k < n - 1 {
                let i = choose|i: int| 0 <= i < before.len() && before[i] == p.micro[k].op;
                assert(after[i] == p.micro[k].op);
            } else {
                assert(after[after.len() - 1] == p.micro[k].op);
            }
        }
        assert forall|o: usize| #[trigger] after.contains(o) implies exists|k: int|
            0 <= k < n && !(#[trigger] s[k]) && p.micro[k].op == o by {
            let i = choose|i: int| 0 <= i < after.len() && after[i] == o;
            if i < before.len() {
                assert(before.contains(o));
                let k = choose|k: int| 0 <= k < n - 1 && !(#[trigger] s[k]) && p.micro[k].op == o;
                assert(!s[k]);
            } else {
                assert(!s[n - 1]);
            }
        }
    }
}

pub proof fn lemma_first_lost(s: Seq<bool>, i: int)
    requires
        0 <= i <= s.len(),
    ensures
        i <= first_lost(s, i) <= s.len(),
        first_lost(s, i) < s.len() ==> !s[first_lost(s, i)],
        forall|k: int| i <= k < first_lost(s, i) ==> #[trigger] s[k],
    decreases s.len() - i,
{
    if i < s.len() && s[i] {
        lemma_first_lost(s, i + 1);
    }
}

proof fn lemma_survived(
    p: ProgramView,
    point: int,
    s: Seq<bool>,
    lost: Seq<usize>,
    first: int,
    n: int,
)
    requires
        0 <= first,
        n <= s.len(),
        survived_upto(p, point, s, lost, first, n).len() > 0,
    ensures
        exists|k: int|
            first <= k < n && (#[trigger] s[k]) && p.micro[k].durable_at >= point
                && !lost.contains(p.micro[k].op),
    decreases n - first,
{
    if n > first {
        let x = p.micro[n - 1];
        if s[n - 1] && x.durable_at >= point && !lost.contains(x.op) {
            assert(s[n - 1]);
        } else {
            lemma_survived(p, point, s, lost, first, n - 1);
        }
    }
}

pub proof fn lemma_ops_climb(p: ProgramView, j: int, k: int)
    requires
        program_sound(p),
        0 <= j <= k < p.micro.len(),
    ensures
        p.micro[j].op <= p.micro[k].op,
{
    assert(micro_op_sound(p, j));
    assert(micro_op_sound(p, k));
    let a = p.micro[j].op as int;
    let b = p.micro[k].op as int;
    if b < a {
        assert(p.op_end[b + 1] <= p.op_end[a]);
    }
}

/// What the kinds of bugs mean, of the state that a failure was minimized to.
/// Nothing was lost exactly when the update is not atomic; otherwise, if the
/// state passes once nothing is acknowledged, something is unsynced; otherwise a
/// torn write persisted in part; and otherwise an op was lost while a later one
/// persisted that no barrier covers, or else something is unsynced.
pub proof fn law_kinds_mean_what_they_say(
    p: ProgramView,
    ops: Seq<OpView>,
    point: usize,
    s: Seq<bool>,
    message: Seq<char>,
    durability: bool,
)
    requires
        program_sound(p),
        s.len() <= p.micro.len(),
    ensures
        ({
            let v = explained(p, ops, point, s, message, durability);
            &&& v.kind == Kind::NonAtomic <==> forall|k: int|
                0 <= k < s.len() ==> #[trigger] s[k]
            &&& v.kind != Kind::NonAtomic && durability ==> v.kind == Kind::Unsynced
            &&& v.kind == Kind::TornWrite ==> exists|j: int, k: int|
                0 <= j < s.len() && 0 <= k < s.len() && (#[trigger] s[j]) && !(#[trigger] s[k])
                    && p.micro[j].op == p.micro[k].op && ops[p.micro[j].op as int] is Write
                    && p.micro[j].m is Write
            &&& v.kind == Kind::Reordering ==> exists|j: int, k: int|
                0 <= j < k < s.len() && !(#[trigger] s[j]) && (#[trigger] s[k])
                    && p.micro[j].op < p.micro[k].op && p.micro[k].durable_at >= point
        }),
{
    let v = explained(p, ops, point, s, message, durability);
    let first = first_lost(s, 0);
    let lost = lost_of(p, s);
    let n = s.len() as int;
    let later = survived_upto(p, point as int, s, lost, first, n);
    lemma_first_lost(s, 0);
    lemma_lost_upto(p, s, n);
    if v.kind == Kind::TornWrite {
        let j = choose|j: int|
            0 <= j < s.len() && (#[trigger] s[j]) && p.micro[j].m is Write && lost.contains(
                p.micro[j].op,
            ) && ops[p.micro[j].op as int] is Write;
        let k = choose|k: int|
            0 <= k < n && !(#[trigger] s[k]) && p.micro[k].op == p.micro[j].op;
        assert(s[j] && !s[k]);
    }
    if v.kind == Kind::Reordering {
        lemma_survived(p, point as int, s, lost, first, n);
        let k = choose|k: int|
            first <= k < n && (#[trigger] s[k]) && p.micro[k].durable_at >= point
                && !lost.contains(p.micro[k].op);
        assert(!s[first]);
        assert(lost.contains(p.micro[first].op));
        lemma_ops_climb(p, first, k);
        assert(!s[first] && s[k]);
    }
}

/// How many failing states were attributed to some vulnerabilities.
pub open spec fn total_occurrences(v: Seq<VulnerabilityView>) -> nat
    decreases v.len(),
{
    if v.len() == 0 {
        0
    } else {
        total_occurrences(v.drop_last()) + v.last().occurrences as nat
    }
}

proof fn lemma_total_occurrences(groups: Seq<GroupView>)
    ensures
        total_occurrences(vulns_of(groups)) == attributed_to(groups),
    decreases groups.len(),
{
    if groups.len() > 0 {
        lemma_total_occurrences(groups.drop_last());
        assert(vulns_of(groups).drop_last() =~= vulns_of(groups.drop_last()));
    }
}

/// The numbers of a report agree: a crash point before, between and after the
/// ops; no more states than the limit, and no more failures than states; no more
/// vulnerabilities than may be explained, no two of the same kind and about the
/// same files, and some if anything failed and may be explained; and no failure
/// attributed twice, nor any left out where all may be explained.
pub proof fn law_reports_add_up(
    p: ProgramView,
    ops: Seq<OpView>,
    opts: Options,
    calls: Seq<Call>,
    r: ReportView,
)
    requires
        program_sound(p),
        ops_of(p) == ops.len(),
        is_outcome(p, ops, opts, calls, r),
    ensures
        r.ops == ops.len(),
        r.crash_points == r.ops + 1,
        r.failures <= r.states <= opts.max_states,
        r.truncated <==> distinct(p, all_states(p, opts.search)).len() > opts.max_states,
        r.vulnerabilities.len() <= opts.explain,
        forall|i: int, j: int|
            0 <= i < j < r.vulnerabilities.len() ==> !((#[trigger] r.vulnerabilities[i]).kind == (
            #[trigger] r.vulnerabilities[j]).kind && r.vulnerabilities[i].files
                == r.vulnerabilities[j].files),
        total_occurrences(r.vulnerabilities) <= r.failures,
        r.failures <= opts.explain ==> total_occurrences(r.vulnerabilities) == r.failures,
        r.failures > 0 && opts.explain > 0 ==> r.vulnerabilities.len() > 0,
{
    let states = states_to_check(p, opts.search, opts.max_states);
    let f = failing(p, states, calls, states.len() as int);
    let n = f.len() as int;
    let g = grouped(p, ops, calls, opts.explain, f, n);
    lemma_failing_counts(p, states, calls, states.len() as int);
    law_failures_are_attributed_once(p, ops, calls, opts.explain, f, n);
    law_vulnerabilities_differ(p, ops, calls, opts.explain, f, n);
    lemma_total_occurrences(g.groups);
    assert forall|i: int, j: int| 0 <= i < j < r.vulnerabilities.len() implies !((
    #[trigger] r.vulnerabilities[i]).kind == (#[trigger] r.vulnerabilities[j]).kind
        && r.vulnerabilities[i].files == r.vulnerabilities[j].files) by {
        assert(r.vulnerabilities[i] == g.groups[i].vuln);
        assert(r.vulnerabilities[j] == g.groups[j].vuln);
    }
}

/// What was said of what is asked about only once.
pub proof fn lemma_lookup_at(calls: Seq<Call>, i: int, key: Key)
    requires
        asked_once(calls),
        0 <= i < calls.len(),
        calls[i].tree == key.tree,
        calls[i].marks.len() == key.marks,
    ensures
        lookup(calls, key) == Some(calls[i].verdict),
    decreases calls.len(),
{
    let front = calls.drop_last();
    assert forall|a: int, b: int| 0 <= a < b < front.len() implies !((#[trigger] front[a]).tree
        == (#[trigger] front[b]).tree && front[a].marks.len() == front[b].marks.len()) by {
        assert(front[a] == calls[a] && front[b] == calls[b]);
    }
    if i < calls.len() - 1 {
        lemma_lookup_at(front, i, key);
    } else {
        lemma_not_asked(front, key, calls[i]);
    }
}

proof fn lemma_not_asked(calls: Seq<Call>, key: Key, c: Call)
    requires
        c.tree == key.tree,
        c.marks.len() == key.marks,
        forall|i: int|
            0 <= i < calls.len() ==> !((#[trigger] calls[i]).tree == c.tree
                && calls[i].marks.len() == c.marks.len()),
    ensures
        lookup(calls, key) is None,
    decreases calls.len(),
{
    if calls.len() > 0 {
        let front = calls.drop_last();
        assert forall|i: int| 0 <= i < front.len() implies !((#[trigger] front[i]).tree == c.tree
            && front[i].marks.len() == c.marks.len()) by {
            assert(front[i] == calls[i]);
        }
        lemma_not_asked(front, key, c);
        assert(calls[calls.len() - 1] == calls.last());
    }
}

/// How many of the first `n` calls were answered with a complaint.
pub open spec fn complaints(calls: Seq<Call>, n: int) -> nat
    decreases n,
{
    if n <= 0 {
        0
    } else {
        complaints(calls, n - 1) + if calls[n - 1].verdict is Some {
            1nat
        } else {
            0nat
        }
    }
}

proof fn lemma_complaints(p: ProgramView, states: Seq<StateView>, calls: Seq<Call>, n: int)
    requires
        program_sound(p),
        asked_once(calls),
        planned_first(p, states, calls),
        forall|i: int| 0 <= i < states.len() ==> (#[trigger] states[i]).point < p.op_end.len(),
        0 <= n <= states.len(),
    ensures
        failing(p, states, calls, n).len() == complaints(calls, n),
    decreases n,
{
    if n > 0 {
        lemma_complaints(p, states, calls, n - 1);
        let x = states[n - 1];
        let c = calls[n - 1];
        assert(is_call_on(p, x, c));
        assert(x.point < p.op_end.len());
        assert(p.marks_before[x.point as int] <= p.marks_before[p.marks_before.len() - 1]);
        lemma_lookup_at(calls, n - 1, state_key(p, x));
        lemma_placed_len(failing(p, states, calls, n - 1), x);
    }
}

/// The checker is asked once about each content and number of marks: first about
/// the planned states, in order and with the marks of their points, and the
/// failures are those of these calls that were answered with a complaint.
pub proof fn law_planned_states_come_first(
    p: ProgramView,
    ops: Seq<OpView>,
    opts: Options,
    calls: Seq<Call>,
    r: ReportView,
)
    requires
        program_sound(p),
        is_check(p, ops, opts, calls, r),
    ensures
        asked_once(calls),
        r.states <= calls.len(),
        forall|i: int|
            0 <= i < r.states ==> is_call_on(
                p,
                states_to_check(p, opts.search, opts.max_states)[i],
                #[trigger] calls[i],
            ),
        r.failures == complaints(calls, r.states as int),
{
    let states = states_to_check(p, opts.search, opts.max_states);
    lemma_checked_states_are_legal(p, opts.search, opts.max_states);
    assert forall|i: int| 0 <= i < states.len() implies (#[trigger] states[i]).point
        < p.op_end.len() by {
        assert(state_legal(p, states[i]));
    }
    lemma_complaints(p, states, calls, states.len() as int);
    lemma_failing_counts(p, states, calls, states.len() as int);
}

} // verus!
