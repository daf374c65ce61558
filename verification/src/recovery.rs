//! Crashes during recovery.
//!
//! Recovery code writes to disk, so a second crash can interrupt it. Each
//! distinct recovery is explored like a workload: it is crashed at every point,
//! run again on the result, and judged against the marks of the first crash.

use crate::check::{
    call_of, checkable, is_check, lemma_all_end, run, same_names, verdict_of, Call, Crash, Judge,
    Options,
};
use crate::error::{Error, ErrorView};
use crate::explain::{Vulnerability, VulnerabilityView};
use crate::program::{compile, compiled, ProgramView};
use crate::report::{vulnerabilities_view, Report, ReportView};
use crate::text::{cat, texts};
use crate::trace::{Op, OpView, Trace, TraceView, Tree, TreeView};
use vstd::prelude::*;

verus! {

/// What a recovery left behind, and what it did to get there.
#[derive(Debug, PartialEq, Eq)]
pub struct Recovery {
    pub tree: Tree,
    pub trace: Trace,
}

/// What a recovery left behind and what it did, or why it failed.
pub enum Outcome {
    Repaired { tree: TreeView, trace: TraceView },
    Failed { why: Seq<char> },
}

/// What came of a recovery.
pub open spec fn outcome_of(r: Result<Recovery, String>) -> Outcome {
    match r {
        Ok(x) => Outcome::Repaired { tree: x.tree@, trace: x.trace@ },
        Err(e) => Outcome::Failed { why: e@ },
    }
}

/// A recovery to crash: where the first crash was, what was acknowledged by
/// then, and what the recovery did.
#[derive(Debug, PartialEq, Eq)]
pub struct Recovered {
    pub point: usize,
    pub marks: Vec<String>,
    pub trace: Trace,
}

/// A recovery to crash, over mathematical values.
pub struct RecoveredView {
    pub point: usize,
    pub marks: Seq<Seq<char>>,
    pub trace: TraceView,
}

impl View for Recovered {
    type V = RecoveredView;

    open spec fn view(&self) -> RecoveredView {
        RecoveredView { point: self.point, marks: texts(self.marks@), trace: self.trace@ }
    }
}

/// What a list of recoveries says.
pub open spec fn recovered_view(v: Seq<Recovered>) -> Seq<RecoveredView> {
    Seq::new(v.len(), |i: int| v[i]@)
}

/// Whether something was done to the disk.
pub open spec fn writes(ops: Seq<OpView>) -> bool {
    exists|i: int| 0 <= i < ops.len() && !((#[trigger] ops[i]) is Mark)
}

/// Whether a recovery that did the same is in a list.
pub open spec fn has_trace(v: Seq<RecoveredView>, t: TraceView) -> bool {
    exists|i: int| 0 <= i < v.len() && (#[trigger] v[i]).trace == t
}

/// A recovery noted, if it wrote and did something new.
pub open spec fn noted(v: Seq<RecoveredView>, x: RecoveredView) -> Seq<RecoveredView> {
    if writes(x.trace.ops) && !has_trace(v, x.trace) {
        v.push(x)
    } else {
        v
    }
}

/// The recoveries to crash after the first `n` calls.
pub open spec fn noted_upto(calls: Seq<Call>, outcomes: Seq<Outcome>, n: int) -> Seq<
    RecoveredView,
>
    decreases n,
{
    if n <= 0 {
        Seq::empty()
    } else {
        let before = noted_upto(calls, outcomes, n - 1);
        match outcomes[n - 1] {
            Outcome::Repaired { trace, .. } => noted(
                before,
                RecoveredView {
                    point: calls[n - 1].point,
                    marks: calls[n - 1].marks,
                    trace,
                },
            ),
            Outcome::Failed { .. } => before,
        }
    }
}

/// A recovery put into a list that is sorted by the point of the first crash.
pub open spec fn placed_by_point(v: Seq<RecoveredView>, x: RecoveredView) -> Seq<RecoveredView>
    decreases v.len(),
{
    if v.len() == 0 || v.last().point <= x.point {
        v.push(x)
    } else {
        placed_by_point(v.drop_last(), x).push(v.last())
    }
}

/// The first `n` recoveries, sorted by the point of the first crash.
pub open spec fn by_point(v: Seq<RecoveredView>, n: int) -> Seq<RecoveredView>
    decreases n,
{
    if n <= 0 {
        Seq::empty()
    } else {
        placed_by_point(by_point(v, n - 1), v[n - 1])
    }
}

/// The sum, or the largest number there is.
pub open spec fn capped_sum(a: usize, b: usize) -> usize {
    if a + b > usize::MAX {
        usize::MAX
    } else {
        (a + b) as usize
    }
}

/// The first vulnerability, from `k` on, that was found in a recovery and has
/// the same kind and files.
pub open spec fn same_in_recovery(v: Seq<VulnerabilityView>, x: VulnerabilityView, k: int) -> Option<
    int,
>
    decreases v.len() - k,
{
    if k >= v.len() {
        None
    } else if v[k].in_recovery is Some && v[k].kind == x.kind && v[k].files == x.files {
        Some(k)
    } else {
        same_in_recovery(v, x, k + 1)
    }
}

/// A vulnerability of a recovery added to a report.
pub open spec fn merged(v: Seq<VulnerabilityView>, x: VulnerabilityView, point: usize) -> Seq<
    VulnerabilityView,
> {
    match same_in_recovery(v, x, 0) {
        Some(i) => v.update(
            i,
            VulnerabilityView {
                occurrences: capped_sum(v[i].occurrences, x.occurrences),
                ..v[i]
            },
        ),
        None => v.push(VulnerabilityView { in_recovery: Some(point), ..x }),
    }
}

/// The first `n` vulnerabilities of a recovery added to a report.
pub open spec fn merged_upto(
    v: Seq<VulnerabilityView>,
    sub: Seq<VulnerabilityView>,
    point: usize,
    n: int,
) -> Seq<VulnerabilityView>
    decreases n,
{
    if n <= 0 {
        v
    } else {
        merged(merged_upto(v, sub, point, n - 1), sub[n - 1], point)
    }
}

/// A report with what crashing a recovery showed.
pub open spec fn absorbed(r: ReportView, point: usize, sub: ReportView) -> ReportView {
    ReportView {
        recovery_states: capped_sum(r.recovery_states, sub.states),
        failures: capped_sum(r.failures, sub.failures),
        truncated: r.truncated || sub.truncated,
        vulnerabilities: merged_upto(
            r.vulnerabilities,
            sub.vulnerabilities,
            point,
            sub.vulnerabilities.len() as int,
        ),
        ..r
    }
}

/// How many states may still be checked.
pub open spec fn budget_of(max: usize, r: ReportView) -> usize {
    if r.recovery_states >= max {
        0
    } else {
        (max - r.recovery_states) as usize
    }
}

/// A report after the first `n` recoveries were crashed, as far as the budget
/// goes.
pub open spec fn with_recoveries(
    r: ReportView,
    recs: Seq<RecoveredView>,
    subs: Seq<SubCheck>,
    max: usize,
    n: int,
) -> ReportView
    decreases n,
{
    if n <= 0 {
        r
    } else {
        let before = with_recoveries(r, recs, subs, max, n - 1);
        if budget_of(max, before) == 0 {
            ReportView { truncated: true, ..before }
        } else {
            absorbed(before, recs[n - 1].point, subs[n - 1].report)
        }
    }
}

/// The check of one recovery: the calls, what recovering again came to in each,
/// and the report.
pub struct SubCheck {
    pub calls: Seq<Call>,
    pub outcomes: Seq<Outcome>,
    pub report: ReportView,
}

/// A call is answered by recovering and then judging what recovery left, at
/// `point` and with `marks`.
pub open spec fn answered_after_recovery<
    R: Fn(&Tree) -> Result<Recovery, String>,
    V: Fn(&Crash) -> Result<(), String>,
>(recover: R, verify: V, point: usize, marks: Seq<Seq<char>>, call: Call, outcome: Outcome) -> bool {
    &&& exists|t: Tree, out: Result<Recovery, String>|
        call_ensures(recover, (&t,), out) && (#[trigger] t@) == call.tree && (#[trigger] outcome_of(
            out,
        )) == outcome
    &&& match outcome {
        Outcome::Failed { why } => call.verdict == Some("recovery failed: "@ + why),
        Outcome::Repaired { tree, .. } => exists|c: Crash, r: Result<(), String>|
            call_ensures(verify, (&c,), r) && #[trigger] call_of(c, r) == (Call {
                tree,
                point,
                marks,
                verdict: call.verdict,
            }),
    }
}

/// Where, and with which marks, a call is judged: as in the first crash, where
/// there was one.
pub open spec fn judged_at(first: Option<(usize, Seq<Seq<char>>)>, call: Call) -> (
    usize,
    Seq<Seq<char>>,
) {
    match first {
        Some(x) => x,
        None => (call.point, call.marks),
    }
}

/// Every call is answered by recovering and then judging what recovery left.
pub open spec fn all_answered_after_recovery<
    R: Fn(&Tree) -> Result<Recovery, String>,
    V: Fn(&Crash) -> Result<(), String>,
>(
    recover: R,
    verify: V,
    first: Option<(usize, Seq<Seq<char>>)>,
    calls: Seq<Call>,
    outcomes: Seq<Outcome>,
) -> bool {
    &&& calls.len() == outcomes.len()
    &&& forall|i: int|
        0 <= i < calls.len() ==> answered_after_recovery(
            recover,
            verify,
            judged_at(first, #[trigger] calls[i]).0,
            judged_at(first, calls[i]).1,
            calls[i],
            outcomes[i],
        )
}

/// A recovery was crashed with a budget.
pub open spec fn is_sub_check<
    R: Fn(&Tree) -> Result<Recovery, String>,
    V: Fn(&Crash) -> Result<(), String>,
>(
    recover: R,
    verify: V,
    opts: Options,
    budget: usize,
    rec: RecoveredView,
    sub: SubCheck,
) -> bool {
    &&& compiled(rec.trace, opts.profile, opts.block_size) is Ok
    &&& is_check(
        compiled(rec.trace, opts.profile, opts.block_size)->Ok_0,
        rec.trace.ops,
        Options { max_states: budget, ..opts },
        sub.calls,
        sub.report,
    )
    &&& all_answered_after_recovery(
        recover,
        verify,
        Some((rec.point, rec.marks)),
        sub.calls,
        sub.outcomes,
    )
}

/// The first `n` recoveries were crashed, each with what the ones before it left
/// of the budget.
pub open spec fn are_sub_checks<
    R: Fn(&Tree) -> Result<Recovery, String>,
    V: Fn(&Crash) -> Result<(), String>,
>(
    recover: R,
    verify: V,
    opts: Options,
    first: ReportView,
    recs: Seq<RecoveredView>,
    subs: Seq<SubCheck>,
    n: int,
) -> bool {
    forall|i: int|
        0 <= i < n && budget_of(
            opts.max_states,
            with_recoveries(first, recs, subs, opts.max_states, i),
        ) > 0 ==> is_sub_check(
            recover,
            verify,
            opts,
            budget_of(
                opts.max_states,
                with_recoveries(first, recs, subs, opts.max_states, i),
            ),
            recs[i],
            #[trigger] subs[i],
        )
}

/// Recovers a crash state, then judges what recovery left.
pub struct Recovering<'a, R, V> {
    pub recover: &'a R,
    pub verify: &'a V,
    /// Where the first crash was and what was acknowledged by then, if this is
    /// the second one.
    pub first: Option<(usize, &'a Vec<String>)>,
    /// The recoveries to crash.
    pub found: Vec<Recovered>,
    pub log: Ghost<Seq<Call>>,
    pub outcomes: Ghost<Seq<Outcome>>,
}

/// The first crash, over mathematical values.
pub open spec fn first_view(first: Option<(usize, &Vec<String>)>) -> Option<
    (usize, Seq<Seq<char>>),
> {
    match first {
        Some(x) => Some((x.0, texts(x.1@))),
        None => None,
    }
}

fn copy_texts(v: &[String]) -> (r: Vec<String>)
    ensures
        texts(r@) == texts(v@),
{
    let mut r: Vec<String> = Vec::new();
    let mut i: usize = 0;
    while i < v.len()
        invariant
            i <= v@.len(),
            texts(r@) == texts(v@).take(i as int),
        decreases v@.len() - i,
    {
        let ghost before = texts(r@);
        let s = v[i].clone();
        r.push(s);
        assert(texts(r@) =~= before.push(s@));
        assert(texts(v@).take(i + 1) =~= texts(v@).take(i as int).push(v@[i as int]@));
        i += 1;
    }
    assert(texts(v@).take(v@.len() as int) =~= texts(v@));
    r
}

/// What is said of a state that recovery failed on.
pub fn failure(why: &str) -> (r: String)
    ensures
        r@ == "recovery failed: "@ + why@,
{
    cat("recovery failed: ".to_owned(), why)
}

/// Notes a recovery, if it wrote and did something new.
pub fn note(found: &mut Vec<Recovered>, point: usize, marks: &[String], trace: Trace)
    ensures
        recovered_view(final(found)@) == noted(
            recovered_view(old(found)@),
            (RecoveredView { point, marks: texts(marks@), trace: trace@ }),
        ),
{
    let ghost before = recovered_view(found@);
    let mut wrote = false;
    let mut i: usize = 0;
    while i < trace.ops.len()
        invariant
            i <= trace.ops@.len(),
            wrote == exists|k: int| 0 <= k < i && !((#[trigger] trace@.ops[k]) is Mark),
        decreases trace.ops@.len() - i,
    {
        assert(trace@.ops[i as int] == trace.ops@[i as int]@);
        match &trace.ops[i] {
            Op::Mark { .. } => {},
            _ => {
                assert(!(trace@.ops[i as int] is Mark));
                wrote = true;
            },
        }
        i += 1;
    }
    if !wrote {
        return;
    }
    let mut i: usize = 0;
    while i < found.len()
        invariant
            i <= found@.len(),
            before == recovered_view(found@),
            recovered_view(found@) == recovered_view(old(found)@),
            forall|k: int| 0 <= k < i ==> (#[trigger] before[k]).trace != trace@,
            writes(trace@.ops),
        decreases found@.len() - i,
    {
        if found[i].trace.same(&trace) {
            assert(before[i as int].trace == trace@);
            return;
        }
        i += 1;
    }
    let x = Recovered { point, marks: copy_texts(marks), trace };
    found.push(x);
    assert(recovered_view(found@) =~= before.push(x@));
}

impl<
    'a,
    R: Fn(&Tree) -> Result<Recovery, String>,
    V: Fn(&Crash) -> Result<(), String>,
> Judge for Recovering<'a, R, V> {
    type Oracle = (&'a R, &'a V, Option<(usize, &'a Vec<String>)>);

    open spec fn oracle(&self) -> (&'a R, &'a V, Option<(usize, &'a Vec<String>)>) {
        (self.recover, self.verify, self.first)
    }

    open spec fn calls(&self) -> Seq<Call> {
        self.log@
    }

    open spec fn ready(&self) -> bool {
        &&& forall|t: Tree| call_requires(*self.recover, (&t,))
        &&& forall|c: Crash| call_requires(*self.verify, (&c,))
        &&& all_answered_after_recovery(
            *self.recover,
            *self.verify,
            first_view(self.first),
            self.log@,
            self.outcomes@,
        )
        &&& self.first is None ==> recovered_view(self.found@) == noted_upto(
            self.log@,
            self.outcomes@,
            self.log@.len() as int,
        )
        &&& forall|i: int|
            0 <= i < self.found@.len() ==> came_from(*self.recover, (#[trigger] self.found@[i]).trace@)
    }

    fn judge(&mut self, crash: &Crash) -> (r: Result<(), String>) {
        let ghost calls = self.log@;
        let ghost outs = self.outcomes@;
        let ghost found0 = self.found@;
        let out = (self.recover)(crash.tree);
        let ghost outcome = outcome_of(out);
        assert(call_ensures(*self.recover, (crash.tree,), out));
        let r: Result<(), String> = match out {
            Err(e) => Err(failure(e.as_str())),
            Ok(Recovery { tree, trace }) => {
                let r = match self.first {
                    Some((point, marks)) => {
                        let c = Crash { tree: &tree, point, marks: marks.as_slice() };
                        let r = (self.verify)(&c);
                        assert(call_ensures(*self.verify, (&c,), r));
                        assert(call_of(c, r) == (Call {
                            tree: tree@,
                            point,
                            marks: texts(marks@),
                            verdict: verdict_of(r),
                        }));
                        r
                    },
                    None => {
                        let c = Crash { tree: &tree, point: crash.point, marks: crash.marks };
                        let r = (self.verify)(&c);
                        assert(call_ensures(*self.verify, (&c,), r));
                        assert(call_of(c, r) == (Call {
                            tree: tree@,
                            point: crash.point,
                            marks: texts(crash.marks@),
                            verdict: verdict_of(r),
                        }));
                        r
                    },
                };
                if self.first.is_none() {
                    let ghost t = trace@;
                    let ghost x = RecoveredView {
                        point: crash.point,
                        marks: texts(crash.marks@),
                        trace: t,
                    };
                    assert(came_from(*self.recover, t));
                    note(&mut self.found, crash.point, crash.marks, trace);
                    proof {
                        let before = recovered_view(found0);
                        let after = recovered_view(self.found@);
                        assert(after == before || after == before.push(x));
                        assert forall|i: int| 0 <= i < self.found@.len() implies came_from(
                            *self.recover,
                            (#[trigger] self.found@[i]).trace@,
                        ) by {
                            assert(after[i].trace == self.found@[i].trace@);
                            if i < before.len() {
                                assert(after[i] == before[i]);
                                assert(before[i].trace == found0[i].trace@);
                                assert(came_from(*self.recover, found0[i].trace@));
                            }
                        }
                    }
                }
                r
            },
        };
        let ghost call = call_of(*crash, r);
        self.log = Ghost(calls.push(call));
        self.outcomes = Ghost(outs.push(outcome));
        proof {
            let first = first_view(self.first);
            assert(outcome_of(out) == outcome && crash.tree@ == call.tree);
            assert(answered_after_recovery(
                *self.recover,
                *self.verify,
                judged_at(first, call).0,
                judged_at(first, call).1,
                call,
                outcome,
            ));
            let n = calls.len() as int;
            lemma_noted_prefix(calls, calls.push(call), outs, outs.push(outcome), n);
        }
        r
    }
}

/// A trace that a recovery returned.
pub open spec fn came_from<R: Fn(&Tree) -> Result<Recovery, String>>(
    recover: R,
    t: TraceView,
) -> bool {
    exists|x: Tree, out: Result<Recovery, String>|
        #[trigger] call_ensures(recover, (&x,), out) && (out matches Ok(rec) && rec.trace@ == t)
}

proof fn lemma_noted_prefix(
    calls: Seq<Call>,
    more_calls: Seq<Call>,
    outs: Seq<Outcome>,
    more_outs: Seq<Outcome>,
    n: int,
)
    requires
        0 <= n <= calls.len() <= more_calls.len(),
        calls.len() == outs.len() <= more_outs.len(),
        forall|i: int| 0 <= i < n ==> calls[i] == #[trigger] more_calls[i],
        forall|i: int| 0 <= i < n ==> outs[i] == #[trigger] more_outs[i],
    ensures
        noted_upto(calls, outs, n) == noted_upto(more_calls, more_outs, n),
    decreases n,
{
    if n > 0 {
        lemma_noted_prefix(calls, more_calls, outs, more_outs, n - 1);
        assert(calls[n - 1] == more_calls[n - 1]);
        assert(outs[n - 1] == more_outs[n - 1]);
    }
}

proof fn lemma_placed_by_point(v: Seq<RecoveredView>, x: RecoveredView, k: int)
    requires
        0 <= k <= v.len(),
        forall|i: int| k <= i < v.len() ==> x.point < (#[trigger] v[i]).point,
        k > 0 ==> v[k - 1].point <= x.point,
    ensures
        placed_by_point(v, x) == v.insert(k, x),
    decreases v.len(),
{
    if k == v.len() {
        assert(v.insert(k, x) =~= v.push(x));
    } else {
        let w = v.drop_last();
        assert(x.point < v[v.len() - 1].point);
        assert forall|i: int| k <= i < w.len() implies x.point < (#[trigger] w[i]).point by {
            assert(w[i] == v[i]);
        }
        lemma_placed_by_point(w, x, k);
        assert(v.insert(k, x) =~= w.insert(k, x).push(v.last()));
    }
}

/// Sorts recoveries by the point of the first crash.
pub fn sort_by_point(found: Vec<Recovered>) -> (r: Vec<Recovered>)
    ensures
        recovered_view(r@) == by_point(recovered_view(found@), found@.len() as int),
        forall|i: int| 0 <= i < r@.len() ==> found@.contains(#[trigger] r@[i]),
        r@.len() == found@.len(),
{
    let ghost all = recovered_view(found@);
    let mut r: Vec<Recovered> = Vec::new();
    assert(recovered_view(r@) =~= Seq::<RecoveredView>::empty());
    for x in it: found
        invariant
            it.seq() == found@,
            all == recovered_view(found@),
            recovered_view(r@) == by_point(all, it.index() as int),
            r@.len() == it.index(),
            forall|i: int| 0 <= i < r@.len() ==> found@.contains(#[trigger] r@[i]),
    {
        let ghost n = it.index() as int;
        assert(x == found@[n]);
        assert(all[n] == x@);
        let ghost before = recovered_view(r@);
        let ghost r0 = r@;
        let mut k: usize = r.len();
        while k > 0 && x.point < r[k - 1].point
            invariant
                k <= r@.len(),
                r@ == r0,
                before == recovered_view(r0),
                forall|i: int| k <= i < before.len() ==> x.point < (#[trigger] before[i]).point,
            decreases k,
        {
            assert(before[k - 1].point == r0[k - 1].point);
            k = k - 1;
        }
        proof {
            if k > 0 {
                assert(before[k - 1].point == r0[k - 1].point);
            }
            lemma_placed_by_point(before, x@, k as int);
        }
        r.insert(k, x);
        proof {
            let after = r@;
            assert(recovered_view(after) =~= before.insert(k as int, x@));
            assert forall|i: int| 0 <= i < after.len() implies found@.contains(
                #[trigger] after[i],
            ) by {
                if i < k {
                    assert(after[i] == r0[i]);
                } else if i > k {
                    assert(after[i] == r0[i - 1]);
                } else {
                    assert(after[i] == found@[n]);
                }
            }
        }
    }
    r
}

/// How many states may still be checked.
pub fn budget(max_states: usize, report: &Report) -> (r: usize)
    ensures
        r == budget_of(max_states, report@),
{
    if report.recovery_states >= max_states {
        0
    } else {
        max_states - report.recovery_states
    }
}

/// How many states the next recovery may be crashed in, if any; otherwise the
/// report is cut short here.
pub fn next_budget(max_states: usize, report: &mut Report) -> (r: Option<usize>)
    ensures
        match r {
            Some(left) => left == budget_of(max_states, old(report)@) && left > 0
                && final(report)@ == old(report)@,
            None => budget_of(max_states, old(report)@) == 0 && final(report)@ == (ReportView {
                truncated: true,
                ..old(report)@
            }),
        },
{
    let left: usize = budget(max_states, report);
    if left == 0 {
        report.truncated = true;
        None
    } else {
        Some(left)
    }
}

fn sum_up_to_max(a: usize, b: usize) -> (r: usize)
    ensures
        r == capped_sum(a, b),
{
    if b > usize::MAX - a {
        usize::MAX
    } else {
        a + b
    }
}

fn find_same(v: &Vec<Vulnerability>, x: &Vulnerability) -> (r: Option<usize>)
    ensures
        match r {
            Some(i) => i < v@.len() && same_in_recovery(vulnerabilities_view(v@), x@, 0) == Some(
                i as int,
            ),
            None => same_in_recovery(vulnerabilities_view(v@), x@, 0) is None,
        },
{
    let ghost all = vulnerabilities_view(v@);
    let mut k: usize = 0;
    while k < v.len()
        invariant
            k <= v@.len(),
            all == vulnerabilities_view(v@),
            same_in_recovery(all, x@, 0) == same_in_recovery(all, x@, k as int),
        decreases v@.len() - k,
    {
        let w = &v[k];
        assert(all[k as int] == w@);
        if w.in_recovery.is_some() && w.kind == x.kind && same_names(&w.files, &x.files) {
            return Some(k);
        }
        k += 1;
    }
    None
}

/// Adds what crashing a recovery showed to a report.
pub fn absorb(report: &mut Report, point: usize, sub: Report)
    ensures
        final(report)@ == absorbed(old(report)@, point, sub@),
{
    let ghost before = report@;
    let ghost subs = sub@.vulnerabilities;
    let ghost v0 = before.vulnerabilities;
    let Report { states, truncated, failures, vulnerabilities, .. } = sub;
    report.recovery_states = sum_up_to_max(report.recovery_states, states);
    report.failures = sum_up_to_max(report.failures, failures);
    report.truncated = report.truncated || truncated;
    for x in it: vulnerabilities
        invariant
            it.seq() == vulnerabilities@,
            subs == vulnerabilities_view(vulnerabilities@),
            report@ == (ReportView {
                recovery_states: capped_sum(before.recovery_states, states),
                failures: capped_sum(before.failures, failures),
                truncated: before.truncated || truncated,
                vulnerabilities: merged_upto(v0, subs, point, it.index() as int),
                ..before
            }),
    {
        let ghost k = it.index() as int;
        let ghost mid = report@.vulnerabilities;
        assert(x == vulnerabilities@[k]);
        assert(subs[k] == x@);
        match find_same(&report.vulnerabilities, &x) {
            Some(i) => {
                let ghost list = report.vulnerabilities@;
                let w: &mut Vulnerability = &mut report.vulnerabilities[i];
                w.occurrences = sum_up_to_max(w.occurrences, x.occurrences);
                proof {
                    let after = report.vulnerabilities@;
                    assert(mid[i as int] == list[i as int]@);
                    assert(vulnerabilities_view(after) =~= merged(mid, x@, point)) by {
                        assert forall|m: int| 0 <= m < after.len() implies (
                        #[trigger] vulnerabilities_view(after)[m]) == merged(mid, x@, point)[m] by {
                            assert(mid[m] == list[m]@);
                        }
                    }
                }
            },
            None => {
                let mut x: Vulnerability = x;
                let ghost was = x@;
                x.in_recovery = Some(point);
                report.vulnerabilities.push(x);
                assert(vulnerabilities_view(report.vulnerabilities@) =~= mid.push(x@));
                assert(x@ == (VulnerabilityView { in_recovery: Some(point), ..was }));
            },
        }
    }
}

proof fn lemma_with_recoveries_prefix(
    r: ReportView,
    recs: Seq<RecoveredView>,
    subs: Seq<SubCheck>,
    x: SubCheck,
    max: usize,
    n: int,
)
    requires
        0 <= n <= subs.len(),
    ensures
        with_recoveries(r, recs, subs.push(x), max, n) == with_recoveries(r, recs, subs, max, n),
    decreases n,
{
    if n > 0 {
        lemma_with_recoveries_prefix(r, recs, subs, x, max, n - 1);
    }
}

/// Crashes a recovery, with a budget of states.
fn crash_recovery<
    R: Fn(&Tree) -> Result<Recovery, String>,
    V: Fn(&Crash) -> Result<(), String>,
>(recover: &R, verify: &V, opts: &Options, left: usize, rec: &Recovered) -> (r: Result<
    (Report, Ghost<SubCheck>),
    Error,
>)
    requires
        checkable(rec.trace@, *opts),
        forall|t: Tree| call_requires(*recover, (&t,)),
        forall|c: Crash| call_requires(*verify, (&c,)),
    ensures
        match r {
            Ok(done) => is_sub_check(*recover, *verify, *opts, left, rec@, done.1@)
                && done.1@.report == done.0@,
            Err(e) => compiled(rec.trace@, opts.profile, opts.block_size) == Err::<
                ProgramView,
                ErrorView,
            >(e@),
        },
{
    let sub_opts = Options {
        profile: opts.profile,
        block_size: opts.block_size,
        search: opts.search,
        max_states: left,
        jobs: opts.jobs,
        explain: opts.explain,
    };
    let program = match compile(&rec.trace, opts.profile, opts.block_size) {
        Ok(p) => p,
        Err(e) => {
            return Err(e);
        },
    };
    proof {
        lemma_all_end(rec.trace@);
    }
    let mut judge = Recovering {
        recover,
        verify,
        first: Some((rec.point, &rec.marks)),
        found: Vec::new(),
        log: Ghost(Seq::empty()),
        outcomes: Ghost(Seq::empty()),
    };
    let report = run(&program, &rec.trace, &sub_opts, &mut judge);
    assert(judge.calls().skip(0) =~= judge.log@);
    assert(sub_opts == (Options { max_states: left, ..*opts }));
    let ghost done = SubCheck {
        calls: judge.log@,
        outcomes: judge.outcomes@,
        report: report@,
    };
    Ok((report, Ghost(done)))
}

/// The recoveries to crash, in order.
pub open spec fn to_crash(calls: Seq<Call>, outcomes: Seq<Outcome>) -> Seq<RecoveredView> {
    let found = noted_upto(calls, outcomes, calls.len() as int);
    by_point(found, found.len() as int)
}

/// The workload was checked with `calls`, each answered by recovering and
/// judging what recovery left, and `first` is the report.
pub open spec fn is_first_check<
    R: Fn(&Tree) -> Result<Recovery, String>,
    V: Fn(&Crash) -> Result<(), String>,
>(
    recover: R,
    verify: V,
    t: TraceView,
    opts: Options,
    calls: Seq<Call>,
    outcomes: Seq<Outcome>,
    first: ReportView,
) -> bool {
    &&& compiled(t, opts.profile, opts.block_size) is Ok
    &&& is_check(
        compiled(t, opts.profile, opts.block_size)->Ok_0,
        t.ops,
        opts,
        calls,
        first,
    )
    &&& all_answered_after_recovery(recover, verify, None, calls, outcomes)
}

/// Like `check`, but recovery is crash-tested too.
///
/// Every crash state is handed to `recover`, which returns what it left behind
/// and the [`Trace`] of what it did; then `verify` judges the result. Because
/// recovery writes, it can itself be interrupted: each distinct recovery trace
/// is explored like a workload, crashing it at every point, recovering again,
/// and verifying against the marks of the first crash.
pub fn check_with_recovery<
    R: Fn(&Tree) -> Result<Recovery, String>,
    V: Fn(&Crash) -> Result<(), String>,
>(trace: &Trace, opts: &Options, recover: R, verify: V) -> (r: Result<Report, Error>)
    requires
        checkable(trace@, *opts),
        forall|t: Tree| call_requires(recover, (&t,)),
        forall|c: Crash| call_requires(verify, (&c,)),
        forall|t: TraceView| #[trigger] came_from(recover, t) ==> checkable(t, *opts),
    ensures
        match r {
            Ok(report) => is_check_with_recovery(trace@, *opts, recover, verify, report@),
            Err(e) => is_recovery_error(trace@, *opts, recover, verify, e@),
        },
{
    let program = match compile(trace, opts.profile, opts.block_size) {
        Ok(p) => p,
        Err(e) => {
            return Err(e);
        },
    };
    proof {
        lemma_all_end(trace@);
    }
    let mut judge = Recovering {
        recover: &recover,
        verify: &verify,
        first: None,
        found: Vec::new(),
        log: Ghost(Seq::empty()),
        outcomes: Ghost(Seq::empty()),
    };
    assert(recovered_view(judge.found@) =~= Seq::<RecoveredView>::empty());
    let mut report = run(&program, trace, opts, &mut judge);
    let ghost first = report@;
    let ghost calls = judge.log@;
    let ghost outcomes = judge.outcomes@;
    assert(judge.calls().skip(0) =~= calls);
    let Recovering { found, .. } = judge;
    let recs = sort_by_point(found);
    let ghost mut subs: Seq<SubCheck> = Seq::empty();
    let ghost told = Told { t: trace@, opts: *opts, calls, outcomes, first };
    proof {
        lemma_progress_start(recover, verify, told, report@);
    }
    let n: usize = recs.len();
    let mut i: usize = 0;
    while i < n
        invariant
            i <= n,
            n == recs@.len(),
            recovered_view(recs@) == to_crash(calls, outcomes),
            told == (Told { t: trace@, opts: *opts, calls, outcomes, first }),
            forall|t: Tree| call_requires(recover, (&t,)),
            forall|c: Crash| call_requires(verify, (&c,)),
            forall|t: TraceView| #[trigger] came_from(recover, t) ==> checkable(t, *opts),
            forall|k: int| 0 <= k < n ==> came_from(recover, (#[trigger] recs@[k]).trace@),
            progress(recover, verify, told, subs, report@, i as int),
        decreases n - i,
    {
        let rec = &recs[i];
        assert(came_from(recover, recs@[i as int].trace@));
        assert(to_crash(calls, outcomes)[i as int] == rec@);
        let ghost before = report@;
        match next_budget(opts.max_states, &mut report) {
            None => {
                proof {
                    let none = SubCheck {
                        calls: Seq::empty(),
                        outcomes: Seq::empty(),
                        report: first,
                    };
                    lemma_progress_stopped(recover, verify, told, subs, before, none, i as int);
                    subs = subs.push(none);
                }
            },
            Some(left) => {
                let (sub, Ghost(x)) = match crash_recovery(&recover, &verify, opts, left, rec) {
                    Ok(done) => done,
                    Err(e) => {
                        proof {
                            lemma_progress_failed(
                                recover,
                                verify,
                                told,
                                subs,
                                before,
                                i as int,
                                e@,
                            );
                        }
                        return Err(e);
                    },
                };
                absorb(&mut report, rec.point, sub);
                proof {
                    lemma_progress_crashed(recover, verify, told, subs, before, x, i as int);
                    subs = subs.push(x);
                }
            },
        }
        i += 1;
    }
    proof {
        lemma_progress_done(recover, verify, told, subs, report@);
    }
    Ok(report)
}

/// A workload checked: the trace, the options, the calls, what recovery came to
/// in each, and the report.
struct Told {
    t: TraceView,
    opts: Options,
    calls: Seq<Call>,
    outcomes: Seq<Outcome>,
    first: ReportView,
}

/// The first `i` recoveries were crashed, and `report` is the report so far.
#[verifier::opaque]
spec fn progress<
    R: Fn(&Tree) -> Result<Recovery, String>,
    V: Fn(&Crash) -> Result<(), String>,
>(recover: R, verify: V, x: Told, subs: Seq<SubCheck>, report: ReportView, i: int) -> bool {
    let recs = to_crash(x.calls, x.outcomes);
    &&& is_first_check(recover, verify, x.t, x.opts, x.calls, x.outcomes, x.first)
    &&& subs.len() == i
    &&& report == with_recoveries(x.first, recs, subs, x.opts.max_states, i)
    &&& are_sub_checks(recover, verify, x.opts, x.first, recs, subs, i)
}

proof fn lemma_progress_start<
    R: Fn(&Tree) -> Result<Recovery, String>,
    V: Fn(&Crash) -> Result<(), String>,
>(recover: R, verify: V, x: Told, report: ReportView)
    requires
        is_first_check(recover, verify, x.t, x.opts, x.calls, x.outcomes, x.first),
        report == x.first,
    ensures
        progress(recover, verify, x, Seq::empty(), report, 0),
{
    reveal(progress);
}

#[verifier::spinoff_prover]
proof fn lemma_progress_stopped<
    R: Fn(&Tree) -> Result<Recovery, String>,
    V: Fn(&Crash) -> Result<(), String>,
>(
    recover: R,
    verify: V,
    x: Told,
    subs: Seq<SubCheck>,
    report: ReportView,
    none: SubCheck,
    i: int,
)
    requires
        0 <= i,
        progress(recover, verify, x, subs, report, i),
        budget_of(x.opts.max_states, report) == 0,
    ensures
        progress(
            recover,
            verify,
            x,
            subs.push(none),
            (ReportView { truncated: true, ..report }),
            i + 1,
        ),
{
    reveal(progress);
    let recs = to_crash(x.calls, x.outcomes);
    lemma_subs_push(recover, verify, x.opts, x.first, recs, subs, none, i);
}

#[verifier::spinoff_prover]
proof fn lemma_progress_crashed<
    R: Fn(&Tree) -> Result<Recovery, String>,
    V: Fn(&Crash) -> Result<(), String>,
>(
    recover: R,
    verify: V,
    x: Told,
    subs: Seq<SubCheck>,
    report: ReportView,
    sub: SubCheck,
    i: int,
)
    requires
        0 <= i,
        progress(recover, verify, x, subs, report, i),
        budget_of(x.opts.max_states, report) > 0,
        is_sub_check(
            recover,
            verify,
            x.opts,
            budget_of(x.opts.max_states, report),
            to_crash(x.calls, x.outcomes)[i],
            sub,
        ),
    ensures
        progress(
            recover,
            verify,
            x,
            subs.push(sub),
            absorbed(report, to_crash(x.calls, x.outcomes)[i].point, sub.report),
            i + 1,
        ),
{
    reveal(progress);
    let recs = to_crash(x.calls, x.outcomes);
    lemma_subs_push(recover, verify, x.opts, x.first, recs, subs, sub, i);
}

#[verifier::spinoff_prover]
proof fn lemma_progress_failed<
    R: Fn(&Tree) -> Result<Recovery, String>,
    V: Fn(&Crash) -> Result<(), String>,
>(
    recover: R,
    verify: V,
    x: Told,
    subs: Seq<SubCheck>,
    report: ReportView,
    i: int,
    e: ErrorView,
)
    requires
        0 <= i < to_crash(x.calls, x.outcomes).len(),
        progress(recover, verify, x, subs, report, i),
        budget_of(x.opts.max_states, report) > 0,
        compiled(
            to_crash(x.calls, x.outcomes)[i].trace,
            x.opts.profile,
            x.opts.block_size,
        ) == Err::<ProgramView, ErrorView>(e),
    ensures
        is_recovery_error(x.t, x.opts, recover, verify, e),
{
    reveal(progress);
    assert(is_failing_recovery(
        recover,
        verify,
        x.t,
        x.opts,
        x.calls,
        x.outcomes,
        x.first,
        subs,
        i,
        e,
    ));
}

#[verifier::spinoff_prover]
proof fn lemma_progress_done<
    R: Fn(&Tree) -> Result<Recovery, String>,
    V: Fn(&Crash) -> Result<(), String>,
>(recover: R, verify: V, x: Told, subs: Seq<SubCheck>, report: ReportView)
    requires
        progress(
            recover,
            verify,
            x,
            subs,
            report,
            to_crash(x.calls, x.outcomes).len() as int,
        ),
    ensures
        is_check_with_recovery(x.t, x.opts, recover, verify, report),
{
    reveal(progress);
    assert(is_recovery_outcome(
        recover,
        verify,
        x.t,
        x.opts,
        x.calls,
        x.outcomes,
        x.first,
        subs,
        report,
    ));
}

/// One more recovery was crashed, or none of the budget was left for it.
#[verifier::spinoff_prover]
proof fn lemma_subs_push<
    R: Fn(&Tree) -> Result<Recovery, String>,
    V: Fn(&Crash) -> Result<(), String>,
>(
    recover: R,
    verify: V,
    opts: Options,
    first: ReportView,
    recs: Seq<RecoveredView>,
    subs: Seq<SubCheck>,
    x: SubCheck,
    i: int,
)
    requires
        subs.len() == i,
        are_sub_checks(recover, verify, opts, first, recs, subs, i),
        budget_of(
            opts.max_states,
            with_recoveries(first, recs, subs, opts.max_states, i),
        ) > 0 ==> is_sub_check(
            recover,
            verify,
            opts,
            budget_of(
                opts.max_states,
                with_recoveries(first, recs, subs, opts.max_states, i),
            ),
            recs[i],
            x,
        ),
    ensures
        are_sub_checks(recover, verify, opts, first, recs, subs.push(x), i + 1),
        with_recoveries(first, recs, subs.push(x), opts.max_states, i) == with_recoveries(
            first,
            recs,
            subs,
            opts.max_states,
            i,
        ),
{
    let more = subs.push(x);
    lemma_with_recoveries_prefix(first, recs, subs, x, opts.max_states, i);
    assert forall|k: int|
        0 <= k < i + 1 && budget_of(
            opts.max_states,
            with_recoveries(first, recs, more, opts.max_states, k),
        ) > 0 implies is_sub_check(
        recover,
        verify,
        opts,
        budget_of(opts.max_states, with_recoveries(first, recs, more, opts.max_states, k)),
        recs[k],
        #[trigger] more[k],
    ) by {
        lemma_with_recoveries_prefix(first, recs, subs, x, opts.max_states, k);
        if k < i {
            assert(more[k] == subs[k]);
        }
    }
}

/// The report on a workload and on its recoveries: `first` is the report on the
/// workload alone, and `subs` are the checks of the recoveries.
pub open spec fn is_recovery_outcome<
    R: Fn(&Tree) -> Result<Recovery, String>,
    V: Fn(&Crash) -> Result<(), String>,
>(
    recover: R,
    verify: V,
    t: TraceView,
    opts: Options,
    calls: Seq<Call>,
    outcomes: Seq<Outcome>,
    first: ReportView,
    subs: Seq<SubCheck>,
    report: ReportView,
) -> bool {
    let recs = to_crash(calls, outcomes);
    &&& is_first_check(recover, verify, t, opts, calls, outcomes, first)
    &&& are_sub_checks(recover, verify, opts, first, recs, subs, recs.len() as int)
    &&& report == with_recoveries(first, recs, subs, opts.max_states, recs.len() as int)
}

/// Recovery `i` cannot be compiled, and there was budget left for it.
pub open spec fn is_failing_recovery<
    R: Fn(&Tree) -> Result<Recovery, String>,
    V: Fn(&Crash) -> Result<(), String>,
>(
    recover: R,
    verify: V,
    t: TraceView,
    opts: Options,
    calls: Seq<Call>,
    outcomes: Seq<Outcome>,
    first: ReportView,
    subs: Seq<SubCheck>,
    i: int,
    e: ErrorView,
) -> bool {
    let recs = to_crash(calls, outcomes);
    &&& is_first_check(recover, verify, t, opts, calls, outcomes, first)
    &&& 0 <= i < recs.len()
    &&& are_sub_checks(recover, verify, opts, first, recs, subs, i)
    &&& budget_of(
        opts.max_states,
        with_recoveries(first, recs, subs, opts.max_states, i),
    ) > 0
    &&& compiled(recs[i].trace, opts.profile, opts.block_size) == Err::<ProgramView, ErrorView>(e)
}

/// The report is one that checking the workload, and then its recoveries, comes
/// to.
pub open spec fn is_check_with_recovery<
    R: Fn(&Tree) -> Result<Recovery, String>,
    V: Fn(&Crash) -> Result<(), String>,
>(t: TraceView, opts: Options, recover: R, verify: V, report: ReportView) -> bool {
    exists|
        calls: Seq<Call>,
        outcomes: Seq<Outcome>,
        first: ReportView,
        subs: Seq<SubCheck>,
    | #[trigger]
        is_recovery_outcome(recover, verify, t, opts, calls, outcomes, first, subs, report)
}

/// The workload cannot be compiled, or one of its recoveries cannot.
pub open spec fn is_recovery_error<
    R: Fn(&Tree) -> Result<Recovery, String>,
    V: Fn(&Crash) -> Result<(), String>,
>(t: TraceView, opts: Options, recover: R, verify: V, e: ErrorView) -> bool {
    ||| compiled(t, opts.profile, opts.block_size) == Err::<ProgramView, ErrorView>(e)
    ||| exists|
        calls: Seq<Call>,
        outcomes: Seq<Outcome>,
        first: ReportView,
        subs: Seq<SubCheck>,
        i: int,
    | #[trigger]
        is_failing_recovery(recover, verify, t, opts, calls, outcomes, first, subs, i, e)
}

} // verus!
