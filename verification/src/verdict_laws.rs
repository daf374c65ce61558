//! How a report depends on what the checker says.

use crate::check::{
    accounts_for, all_asked, failing, group_accounts_for, group_for_cause, group_for_lost, grouped,
    is_check, is_durability, is_outcome, lemma_checked_states_are_legal, lookup, lost_count,
    minimized, once_more, placed, shows, simpler, state_legal, tried, tried_micros, tried_ops,
    unshrunk, vulnerability, with_more, Call, GroupView, Options, Shrunk,
};
use crate::check_laws::{lemma_first_lost, lemma_lost_upto};
use crate::crash::{candidates_of, every, flight, Search};
use crate::explain::{first_lost, lost_of, lost_upto, Kind, VulnerabilityView};
use crate::laws::law_closed_is_the_smallest_legal_state;
use crate::names::lemma_ordered_of;
use crate::program::{program_sound, ProgramView};
use crate::report::ReportView;
use crate::states::{
    all_states, distinct, key_with, keys_of, state_key, states_at, states_to_check, states_upto,
    Key, StateView,
};
use crate::trace::{OpView, TreeView};
use vstd::prelude::*;

verus! {

/// What a checker says that goes by the content and the marks alone.
pub type Rule = spec_fn(TreeView, Seq<Seq<char>>) -> Option<Seq<char>>;

/// Every call was answered by a rule.
pub open spec fn decided_by(rule: Rule, calls: Seq<Call>) -> bool {
    forall|i: int|
        0 <= i < calls.len() ==> (#[trigger] calls[i]).verdict == rule(
            calls[i].tree,
            calls[i].marks,
        )
}

/// What is known of the answers agrees with a rule.
spec fn agrees(p: ProgramView, rule: Rule, calls: Seq<Call>) -> bool {
    forall|key: Key| #[trigger]
        lookup(calls, key) matches Some(v) ==> v == rule(key.tree, p.marks.take(key.marks as int))
}

proof fn lemma_lookup_agrees(p: ProgramView, rule: Rule, calls: Seq<Call>, key: Key)
    requires
        program_sound(p),
        decided_by(rule, calls),
        forall|i: int| 0 <= i < calls.len() ==> shows(p, #[trigger] calls[i]),
    ensures
        lookup(calls, key) matches Some(v) ==> v == rule(key.tree, p.marks.take(key.marks as int)),
    decreases calls.len(),
{
    if calls.len() > 0 {
        let front = calls.drop_last();
        let c = calls[calls.len() - 1];
        assert forall|i: int| 0 <= i < front.len() implies (#[trigger] front[i]).verdict == rule(
            front[i].tree,
            front[i].marks,
        ) by {
            assert(front[i] == calls[i]);
        }
        assert forall|i: int| 0 <= i < front.len() implies shows(p, #[trigger] front[i]) by {
            assert(front[i] == calls[i]);
        }
        lemma_lookup_agrees(p, rule, front, key);
        assert(shows(p, c));
        let n = p.marks_before[c.point as int] as int;
        assert(n <= p.marks_before[p.marks_before.len() - 1]);
        assert(c.marks =~= p.marks.take(c.marks.len() as int));
    }
}

proof fn lemma_agrees(p: ProgramView, rule: Rule, calls: Seq<Call>)
    requires
        program_sound(p),
        decided_by(rule, calls),
        forall|i: int| 0 <= i < calls.len() ==> shows(p, #[trigger] calls[i]),
    ensures
        agrees(p, rule, calls),
{
    assert forall|key: Key| (#[trigger] lookup(calls, key)) is Some implies lookup(calls, key)->0
        == rule(key.tree, p.marks.take(key.marks as int)) by {
        lemma_lookup_agrees(p, rule, calls, key);
    }
}

proof fn lemma_tried_ops_same(
    p: ProgramView,
    rule: Rule,
    a: Seq<Call>,
    b: Seq<Call>,
    point: int,
    s: Shrunk,
    ops: Seq<usize>,
    n: int,
)
    requires
        agrees(p, rule, a),
        agrees(p, rule, b),
        tried_ops(p, a, point, s, ops, n).known,
        tried_ops(p, b, point, s, ops, n).known,
    ensures
        tried_ops(p, a, point, s, ops, n) == tried_ops(p, b, point, s, ops, n),
        s.known,
    decreases n,
{
    if n > 0 {
        lemma_tried_ops_same(p, rule, a, b, point, s, ops, n - 1);
    }
}

proof fn lemma_tried_micros_same(
    p: ProgramView,
    rule: Rule,
    a: Seq<Call>,
    b: Seq<Call>,
    point: int,
    s: Shrunk,
    t: Shrunk,
    n: int,
)
    requires
        agrees(p, rule, a),
        agrees(p, rule, b),
        tried_micros(p, a, point, s, n).known,
        tried_micros(p, b, point, t, n).known,
    ensures
        s.known,
        t.known,
        s == t ==> tried_micros(p, a, point, s, n) == tried_micros(p, b, point, t, n),
    decreases n,
{
    if n > 0 {
        lemma_tried_micros_same(p, rule, a, b, point, s, t, n - 1);
    }
}

proof fn lemma_ops_known(p: ProgramView, a: Seq<Call>, point: int, s: Shrunk, ops: Seq<usize>, n: int)
    requires
        tried_ops(p, a, point, s, ops, n).known,
    ensures
        s.known,
    decreases n,
{
    if n > 0 {
        lemma_ops_known(p, a, point, s, ops, n - 1);
    }
}

proof fn lemma_minimized_same(
    p: ProgramView,
    rule: Rule,
    a: Seq<Call>,
    b: Seq<Call>,
    point: int,
    s: Seq<bool>,
)
    requires
        agrees(p, rule, a),
        agrees(p, rule, b),
        minimized(p, a, point, s).known,
        minimized(p, b, point, s).known,
    ensures
        minimized(p, a, point, s) == minimized(p, b, point, s),
{
    let lost = lost_of(p, s);
    let n = lost.len() as int;
    let x = unshrunk(p, a, point, s);
    let y = unshrunk(p, b, point, s);
    let u = tried_ops(p, a, point, x, lost, n);
    let v = tried_ops(p, b, point, y, lost, n);
    lemma_tried_micros_same(p, rule, a, b, point, u, v, s.len() as int);
    lemma_ops_known(p, a, point, x, lost, n);
    lemma_ops_known(p, b, point, y, lost, n);
    assert(x == y);
    lemma_tried_ops_same(p, rule, a, b, point, x, lost, n);
}

proof fn lemma_failing_same(
    p: ProgramView,
    rule: Rule,
    states: Seq<StateView>,
    a: Seq<Call>,
    b: Seq<Call>,
    n: int,
)
    requires
        agrees(p, rule, a),
        agrees(p, rule, b),
        all_asked(p, states, a),
        all_asked(p, states, b),
        0 <= n <= states.len(),
    ensures
        failing(p, states, a, n) == failing(p, states, b, n),
    decreases n,
{
    if n > 0 {
        lemma_failing_same(p, rule, states, a, b, n - 1);
        let key = state_key(p, states[n - 1]);
        assert(lookup(a, key) is Some);
        assert(lookup(b, key) is Some);
    }
}

proof fn lemma_grouped_same(
    p: ProgramView,
    rule: Rule,
    ops: Seq<OpView>,
    limit: usize,
    states: Seq<StateView>,
    a: Seq<Call>,
    b: Seq<Call>,
    n: int,
)
    requires
        agrees(p, rule, a),
        agrees(p, rule, b),
        grouped(p, ops, a, limit, states, n).known,
        grouped(p, ops, b, limit, states, n).known,
    ensures
        grouped(p, ops, a, limit, states, n) == grouped(p, ops, b, limit, states, n),
    decreases n,
{
    if n > 0 {
        lemma_grouped_same(p, rule, ops, limit, states, a, b, n - 1);
        let g = grouped(p, ops, a, limit, states, n - 1);
        let x = states[n - 1];
        if group_for_lost(g.groups, lost_of(p, x.persisted), 0) is None && g.minimized != limit {
            lemma_minimized_same(p, rule, a, b, x.point as int, x.persisted);
            let s = minimized(p, a, x.point as int, x.persisted);
            let key = key_with(p, s.persisted, 0);
            assert(p.marks_before[x.point as int] > 0 ==> lookup(a, key) == lookup(b, key));
            assert(is_durability(p, a, x.point as int, s.persisted) == is_durability(
                p,
                b,
                x.point as int,
                s.persisted,
            ));
        }
    }
}

/// How many checkers run at once does not show: of a checker that goes by the
/// content and the marks alone, two checks of the same trace that differ in
/// nothing else come to the same report.
pub proof fn law_jobs_do_not_show(
    p: ProgramView,
    ops: Seq<OpView>,
    opts: Options,
    jobs: usize,
    rule: Rule,
    a: Seq<Call>,
    b: Seq<Call>,
    r: ReportView,
    s: ReportView,
)
    requires
        program_sound(p),
        is_check(p, ops, opts, a, r),
        is_check(p, ops, (Options { jobs, ..opts }), b, s),
        decided_by(rule, a),
        decided_by(rule, b),
    ensures
        r == s,
{
    let states = states_to_check(p, opts.search, opts.max_states);
    let n = states.len() as int;
    lemma_agrees(p, rule, a);
    lemma_agrees(p, rule, b);
    lemma_failing_same(p, rule, states, a, b, n);
    let f = failing(p, states, a, n);
    lemma_grouped_same(p, rule, ops, opts.explain, f, a, b, f.len() as int);
}

/// A checker that accepts everything finds nothing.
pub proof fn law_accepting_everything_is_clean(
    p: ProgramView,
    ops: Seq<OpView>,
    opts: Options,
    calls: Seq<Call>,
    r: ReportView,
)
    requires
        is_outcome(p, ops, opts, calls, r),
        forall|i: int| 0 <= i < calls.len() ==> (#[trigger] calls[i]).verdict is None,
    ensures
        r.failures == 0,
        r.vulnerabilities.len() == 0,
        r.states == states_to_check(p, opts.search, opts.max_states).len(),
{
    let states = states_to_check(p, opts.search, opts.max_states);
    lemma_none_fail(p, states, calls, states.len() as int);
}

proof fn lemma_lookup_accepts(calls: Seq<Call>, key: Key)
    requires
        forall|i: int| 0 <= i < calls.len() ==> (#[trigger] calls[i]).verdict is None,
    ensures
        lookup(calls, key) matches Some(v) ==> v is None,
    decreases calls.len(),
{
    if calls.len() > 0 {
        let front = calls.drop_last();
        assert forall|i: int| 0 <= i < front.len() implies (#[trigger] front[i]).verdict is None by {
            assert(front[i] == calls[i]);
        }
        lemma_lookup_accepts(front, key);
        assert(calls[calls.len() - 1].verdict is None);
    }
}

proof fn lemma_none_fail(p: ProgramView, states: Seq<StateView>, calls: Seq<Call>, n: int)
    requires
        0 <= n <= states.len(),
        forall|i: int| 0 <= i < calls.len() ==> (#[trigger] calls[i]).verdict is None,
    ensures
        failing(p, states, calls, n).len() == 0,
    decreases n,
{
    if n > 0 {
        lemma_none_fail(p, states, calls, n - 1);
        lemma_lookup_accepts(calls, state_key(p, states[n - 1]));
    }
}

/// Every call was answered with the same complaint.
pub open spec fn all_rejected(calls: Seq<Call>, why: Seq<char>) -> bool {
    forall|i: int| 0 <= i < calls.len() ==> (#[trigger] calls[i]).verdict == Some(why)
}

proof fn lemma_lookup_rejects(calls: Seq<Call>, why: Seq<char>, key: Key)
    requires
        all_rejected(calls, why),
    ensures
        lookup(calls, key) is None || lookup(calls, key) == Some(Some(why)),
    decreases calls.len(),
{
    if calls.len() > 0 {
        let front = calls.drop_last();
        assert forall|i: int| 0 <= i < front.len() implies (#[trigger] front[i]).verdict == Some(
            why,
        ) by {
            assert(front[i] == calls[i]);
        }
        lemma_lookup_rejects(front, why, key);
        assert(calls[calls.len() - 1].verdict == Some(why));
    }
}

/// Whatever is tried is kept.
proof fn lemma_tried_is_kept(
    p: ProgramView,
    calls: Seq<Call>,
    why: Seq<char>,
    point: int,
    s: Shrunk,
    more: spec_fn(int) -> bool,
)
    requires
        all_rejected(calls, why),
        s.persisted.len() == p.op_end[point],
        s.message == why,
        tried(p, calls, point, s, more).known,
    ensures
        ({
            let t = tried(p, calls, point, s, more);
            &&& s.known
            &&& t.persisted.len() == s.persisted.len()
            &&& t.message == why
            &&& forall|j: int|
                0 <= j < s.persisted.len() && (s.persisted[j] || more(j))
                    ==> #[trigger] t.persisted[j]
        }),
{
    let wider = Seq::new(s.persisted.len(), |j: int| s.persisted[j] || more(j));
    let trial = with_more(p, point, s.persisted, more);
    law_closed_is_the_smallest_legal_state(p, point, wider);
    lemma_lookup_rejects(calls, why, key_with(p, trial, p.marks_before[point]));
    let t = tried(p, calls, point, s, more);
    assert(t.persisted == trial);
    assert forall|j: int| 0 <= j < s.persisted.len() && (s.persisted[j] || more(j)) implies
        #[trigger] t.persisted[j] by {
        assert(wider[j]);
    }
}

proof fn lemma_tried_ops_are_kept(
    p: ProgramView,
    calls: Seq<Call>,
    why: Seq<char>,
    point: int,
    s: Shrunk,
    ops: Seq<usize>,
    n: int,
)
    requires
        all_rejected(calls, why),
        s.persisted.len() == p.op_end[point],
        s.message == why,
        0 <= n <= ops.len(),
        tried_ops(p, calls, point, s, ops, n).known,
    ensures
        ({
            let t = tried_ops(p, calls, point, s, ops, n);
            &&& t.persisted.len() == s.persisted.len()
            &&& t.message == why
            &&& forall|j: int| 0 <= j < s.persisted.len() && s.persisted[j]
                ==> #[trigger] t.persisted[j]
            &&& forall|j: int, k: int|
                0 <= j < s.persisted.len() && 0 <= k < n && p.micro[j].op == #[trigger] ops[k]
                    ==> #[trigger] t.persisted[j]
        }),
    decreases n,
{
    if n > 0 {
        let b = tried_ops(p, calls, point, s, ops, n - 1);
        let more = |j: int| p.micro[j].op == ops[n - 1];
        let t = tried(p, calls, point, b, more);
        assert(t == tried_ops(p, calls, point, s, ops, n));
        lemma_tried_known(p, calls, point, b, more);
        lemma_tried_ops_are_kept(p, calls, why, point, s, ops, n - 1);
        lemma_tried_is_kept(p, calls, why, point, b, more);
        assert forall|j: int, k: int|
            0 <= j < s.persisted.len() && 0 <= k < n && p.micro[j].op == #[trigger] ops[k] implies
            #[trigger] t.persisted[j] by {
            if k < n - 1 {
                assert(b.persisted[j]);
            } else {
                assert(more(j));
            }
        }
    }
}

proof fn lemma_tried_known(
    p: ProgramView,
    calls: Seq<Call>,
    point: int,
    s: Shrunk,
    more: spec_fn(int) -> bool,
)
    requires
        tried(p, calls, point, s, more).known,
    ensures
        s.known,
{
}

proof fn lemma_nothing_left_to_try(
    p: ProgramView,
    calls: Seq<Call>,
    point: int,
    s: Shrunk,
    n: int,
)
    requires
        0 <= n <= s.persisted.len(),
        forall|j: int| 0 <= j < s.persisted.len() ==> #[trigger] s.persisted[j],
    ensures
        tried_micros(p, calls, point, s, n) == s,
    decreases n,
{
    if n > 0 {
        lemma_nothing_left_to_try(p, calls, point, s, n - 1);
        assert(s.persisted[n - 1]);
    }
}

/// A state that fails whatever is persisted again is minimized to nothing lost.
proof fn lemma_minimized_to_nothing(
    p: ProgramView,
    calls: Seq<Call>,
    why: Seq<char>,
    point: int,
    s: Seq<bool>,
)
    requires
        all_rejected(calls, why),
        s.len() == p.op_end[point],
        minimized(p, calls, point, s).known,
    ensures
        ({
            let t = minimized(p, calls, point, s);
            &&& t.message == why
            &&& t.persisted.len() == s.len()
            &&& forall|j: int| 0 <= j < s.len() ==> #[trigger] t.persisted[j]
        }),
{
    let lost = lost_of(p, s);
    let n = lost.len() as int;
    let x = unshrunk(p, calls, point, s);
    let u = tried_ops(p, calls, point, x, lost, n);
    lemma_lookup_rejects(calls, why, key_with(p, s, p.marks_before[point]));
    lemma_micros_known(p, calls, point, u, s.len() as int);
    lemma_ops_known(p, calls, point, x, lost, n);
    lemma_tried_ops_are_kept(p, calls, why, point, x, lost, n);
    lemma_lost_upto(p, s, s.len() as int);
    assert forall|j: int| 0 <= j < s.len() implies #[trigger] u.persisted[j] by {
        if s[j] {
            assert(x.persisted[j]);
        } else {
            assert(lost.contains(p.micro[j].op));
            let k = choose|k: int| 0 <= k < lost.len() && lost[k] == p.micro[j].op;
            assert(p.micro[j].op == lost[k]);
        }
    }
    lemma_nothing_left_to_try(p, calls, point, u, s.len() as int);
}

proof fn lemma_micros_known(p: ProgramView, calls: Seq<Call>, point: int, s: Shrunk, n: int)
    requires
        tried_micros(p, calls, point, s, n).known,
    ensures
        s.known,
    decreases n,
{
    if n > 0 {
        let b = tried_micros(p, calls, point, s, n - 1);
        if !b.persisted[n - 1] {
            lemma_tried_known(p, calls, point, b, |j: int| j == n - 1);
        }
        lemma_micros_known(p, calls, point, s, n - 1);
    }
}

/// A vulnerability in which nothing was lost.
pub open spec fn blames_nothing(v: VulnerabilityView, point: usize, why: Seq<char>) -> bool {
    &&& v.kind == Kind::NonAtomic
    &&& v.lost.len() == 0
    &&& v.survived.len() == 0
    &&& v.files.len() == 0
    &&& v.crash_point == point
    &&& v.crash_after is None <==> point == 0
    &&& v.message == why
    &&& v.in_recovery is None
}

proof fn lemma_nothing_lost(p: ProgramView, s: Seq<bool>, n: int)
    requires
        0 <= n <= s.len(),
        forall|j: int| 0 <= j < s.len() ==> #[trigger] s[j],
    ensures
        lost_upto(p, s, n).len() == 0,
    decreases n,
{
    if n > 0 {
        lemma_nothing_lost(p, s, n - 1);
        assert(s[n - 1]);
    }
}

proof fn lemma_blames_nothing(
    p: ProgramView,
    ops: Seq<OpView>,
    calls: Seq<Call>,
    why: Seq<char>,
    x: StateView,
)
    requires
        all_rejected(calls, why),
        state_legal(p, x),
        minimized(p, calls, x.point as int, x.persisted).known,
    ensures
        ({
            let s = minimized(p, calls, x.point as int, x.persisted);
            let v = vulnerability(p, ops, calls, x.point, s);
            &&& blames_nothing(v, x.point, why)
            &&& v.occurrences == 1
            &&& lost_of(p, s.persisted).len() == 0
        }),
{
    let s = minimized(p, calls, x.point as int, x.persisted);
    lemma_minimized_to_nothing(p, calls, why, x.point as int, x.persisted);
    lemma_nothing_lost(p, s.persisted, s.persisted.len() as int);
    lemma_first_lost(s.persisted, 0);
    let first = first_lost(s.persisted, 0);
    if first < s.persisted.len() {
        assert(s.persisted[first]);
    }
    lemma_ordered_of(Set::<Seq<char>>::empty());
}

/// The one group there is when everything is rejected.
spec fn one_group(
    groups: Seq<GroupView>,
    point: usize,
    why: Seq<char>,
    occurrences: int,
) -> bool {
    &&& groups.len() == 1
    &&& blames_nothing(groups[0].vuln, point, why)
    &&& groups[0].vuln.occurrences == occurrences
    &&& forall|i: int| 0 <= i < groups[0].causes.len() ==> (#[trigger] groups[0].causes[i]).len() == 0
}

proof fn lemma_one_group(
    p: ProgramView,
    ops: Seq<OpView>,
    calls: Seq<Call>,
    why: Seq<char>,
    limit: usize,
    states: Seq<StateView>,
    n: int,
)
    requires
        all_rejected(calls, why),
        limit > 0,
        0 < n <= states.len() <= usize::MAX,
        forall|i: int| 0 <= i < states.len() ==> state_legal(p, #[trigger] states[i]),
        grouped(p, ops, calls, limit, states, n).known,
    ensures
        one_group(
            grouped(p, ops, calls, limit, states, n).groups,
            states[0].point,
            why,
            if n < limit {
                n
            } else {
                limit as int
            },
        ),
        grouped(p, ops, calls, limit, states, n).minimized == if n < limit {
            n
        } else {
            limit as int
        },
    decreases n,
{
    let g = grouped(p, ops, calls, limit, states, n - 1);
    let h = grouped(p, ops, calls, limit, states, n);
    let x = states[n - 1];
    let lost = lost_of(p, x.persisted);
    let s = minimized(p, calls, x.point as int, x.persisted);
    let v = vulnerability(p, ops, calls, x.point, s);
    assert(state_legal(p, states[n - 1]));
    if n == 1 {
        assert(group_for_lost(g.groups, lost, 0) is None);
        lemma_blames_nothing(p, ops, calls, why, x);
        assert(group_for_cause(g.groups, v.kind, v.files, 0) is None);
        assert(h.groups =~= seq![
            GroupView { vuln: v, causes: seq![lost_of(p, s.persisted)] },
        ]);
    } else {
        assert(g.known);
        lemma_one_group(p, ops, calls, why, limit, states, n - 1);
        assert(!group_accounts_for(g.groups[0], lost)) by {
            if group_accounts_for(g.groups[0], lost) {
                let i = choose|i: int|
                    0 <= i < g.groups[0].causes.len() && accounts_for(
                        #[trigger] g.groups[0].causes[i],
                        lost,
                    );
                assert(g.groups[0].causes[i].len() == 0);
            }
        }
        assert(group_for_lost(g.groups, lost, 1) is None);
        assert(group_for_lost(g.groups, lost, 0) is None);
        if g.minimized != limit {
            lemma_blames_nothing(p, ops, calls, why, x);
            assert(g.groups[0].vuln.files =~= v.files);
            assert(group_for_cause(g.groups, v.kind, v.files, 0) == Some(0int));
            assert(h.groups[0].vuln == once_more(g.groups[0].vuln));
            let cause = lost_of(p, s.persisted);
            assert(h.groups[0].causes == g.groups[0].causes.push(cause));
            assert forall|i: int| 0 <= i < h.groups[0].causes.len() implies (
            #[trigger] h.groups[0].causes[i]).len() == 0 by {
                if i < g.groups[0].causes.len() {
                    assert(g.groups[0].causes[i].len() == 0);
                }
            }
        }
    }
}

/// A state with which every other one compares.
spec fn is_simplest(x: StateView) -> bool {
    x.point == 0 && lost_count(x.persisted) == 0
}

proof fn lemma_placed_keeps(p: ProgramView, v: Seq<StateView>, x: StateView)
    requires
        forall|i: int| 0 <= i < v.len() ==> state_legal(p, #[trigger] v[i]),
        state_legal(p, x),
    ensures
        forall|i: int| 0 <= i < placed(v, x).len() ==> state_legal(p, #[trigger] placed(v, x)[i]),
        placed(v, x).len() == v.len() + 1,
        v.len() > 0 && is_simplest(v[0]) ==> placed(v, x)[0] == v[0],
    decreases v.len(),
{
    if v.len() > 0 && simpler(x, v.last()) {
        let front = v.drop_last();
        assert forall|i: int| 0 <= i < front.len() implies state_legal(p, #[trigger] front[i]) by {
            assert(front[i] == v[i]);
        }
        assert(state_legal(p, v[v.len() - 1]));
        lemma_placed_keeps(p, front, x);
    }
}

proof fn lemma_all_fail(
    p: ProgramView,
    states: Seq<StateView>,
    calls: Seq<Call>,
    why: Seq<char>,
    n: int,
)
    requires
        all_rejected(calls, why),
        all_asked(p, states, calls),
        0 <= n <= states.len(),
        forall|i: int| 0 <= i < states.len() ==> state_legal(p, #[trigger] states[i]),
        states.len() > 0 ==> is_simplest(states[0]),
    ensures
        ({
            let f = failing(p, states, calls, n);
            &&& f.len() == n
            &&& forall|i: int| 0 <= i < f.len() ==> state_legal(p, #[trigger] f[i])
            &&& n > 0 ==> f[0] == states[0]
        }),
    decreases n,
{
    if n > 0 {
        lemma_all_fail(p, states, calls, why, n - 1);
        let key = state_key(p, states[n - 1]);
        assert(lookup(calls, key) is Some);
        lemma_lookup_rejects(calls, why, key);
        lemma_placed_keeps(p, failing(p, states, calls, n - 1), states[n - 1]);
    }
}

proof fn lemma_distinct_begins(p: ProgramView, states: Seq<StateView>)
    requires
        states.len() > 0,
    ensures
        distinct(p, states).len() > 0,
        distinct(p, states)[0] == states[0],
    decreases states.len(),
{
    let front = states.drop_last();
    if states.len() > 1 {
        lemma_distinct_begins(p, front);
    } else {
        assert(distinct(p, front).len() == 0);
        assert(keys_of(p, distinct(p, front)).len() == 0);
    }
}

proof fn lemma_states_begin(p: ProgramView, search: Search, n: int)
    requires
        program_sound(p),
        n > 0,
    ensures
        states_upto(p, search, n).len() > 0,
        is_simplest(states_upto(p, search, n)[0]),
    decreases n,
{
    if n > 1 {
        lemma_states_begin(p, search, n - 1);
    } else {
        assert(flight(p, 0).len() == 0);
        let c = candidates_of(p, 0, search);
        assert(c == every(p, 0));
        assert(c.len() == 1);
        assert(c[0].len() == 0);
        let x = states_at(p, search, 0)[0];
        assert(x.persisted.len() == 0);
        assert(states_upto(p, search, 0).len() == 0);
        assert(states_upto(p, search, 1)[0] == x);
    }
}

/// A checker that rejects everything rejects the initial state, and that is all
/// that is found: one vulnerability, in which nothing was lost.
pub proof fn law_rejecting_everything_blames_the_start(
    p: ProgramView,
    ops: Seq<OpView>,
    opts: Options,
    calls: Seq<Call>,
    r: ReportView,
    why: Seq<char>,
)
    requires
        program_sound(p),
        is_outcome(p, ops, opts, calls, r),
        all_rejected(calls, why),
        opts.max_states > 0,
        opts.explain > 0,
    ensures
        r.failures == r.states,
        r.states == states_to_check(p, opts.search, opts.max_states).len(),
        r.states > 0,
        r.vulnerabilities.len() == 1,
        blames_nothing(r.vulnerabilities[0], 0, why),
        r.vulnerabilities[0].occurrences == if r.failures < opts.explain {
            r.failures
        } else {
            opts.explain
        },
{
    let all = all_states(p, opts.search);
    let states = states_to_check(p, opts.search, opts.max_states);
    let n = states.len() as int;
    lemma_states_begin(p, opts.search, p.op_end.len() as int);
    lemma_distinct_begins(p, all);
    assert(states[0] == all[0]);
    lemma_checked_states_are_legal(p, opts.search, opts.max_states);
    lemma_all_fail(p, states, calls, why, n);
    let f = failing(p, states, calls, n);
    lemma_one_group(p, ops, calls, why, opts.explain, f, n);
    let g = grouped(p, ops, calls, opts.explain, f, n);
    assert(r.vulnerabilities[0] == g.groups[0].vuln);
}

} // verus!
