//! The checking loop: enumerate crash states, dedupe them by content, run the
//! checker on each unique state, then minimize every failure down to the few
//! lost operations that cause it and explain them.

use crate::crash::{closed, legal, lemma_op_end, searchable, tree_of, Search};
use crate::error::{Error, ErrorView};
use crate::explain::{
    all_end, explain, explained, is_in, lemma_lost_are_ops, lost_of, lost_ops, Kind, Vulnerability,
    VulnerabilityView,
};
use crate::laws::{law_closed_is_the_smallest_legal_state, law_examined_states_are_legal};
use crate::model::{Fs, Profile};
use crate::names::{ordered, NameMap};
use crate::program::{compilable, compile, compiled, ops_of, program_sound, Program, ProgramView};
use crate::report::{vulnerabilities_view, Report, ReportView};
use crate::states::{
    all_states, cut_short, distinct, enumerate, hash, hash_of, key_with, state_key, states_at,
    states_to_check, states_upto, Key, Plan, StateView, Table,
};
use crate::text::{chars_of, same_str, texts};
use crate::trace::{
    op_ends, op_fits, op_path, ops_view, Op, OpView, Trace, TraceView, Tree, TreeView,
};
use vstd::prelude::*;

verus! {

/// Everything that controls a check.
#[derive(Debug, Clone, Copy, PartialEq, Eq)]
pub struct Options {
    pub profile: Profile,
    /// Writes tear at multiples of this many bytes.
    pub block_size: u64,
    pub search: Search,
    /// Stop enumerating after this many unique crash states.
    pub max_states: usize,
    /// Checker processes/threads to run at once.
    pub jobs: usize,
    /// Minimize at most this many failing states; the rest are attributed to
    /// the vulnerabilities found so far when they match one.
    pub explain: usize,
}

impl Default for Options {
    fn default() -> (r: Options)
        ensures
            r == (Options {
                profile: Profile::Posix,
                block_size: 4096,
                search: Search { exhaustive_limit: 10, samples: 32, seed: 0x5eed },
                max_states: 20_000,
                jobs: 4,
                explain: 16,
            }),
    {
        Options::with_parallelism(None)
    }
}

impl Options {
    /// The defaults on a machine that can run this many threads at once, where
    /// that is known.
    pub fn with_parallelism(threads: Option<usize>) -> (r: Options)
        ensures
            r == (Options {
                profile: Profile::Posix,
                block_size: 4096,
                search: Search { exhaustive_limit: 10, samples: 32, seed: 0x5eed },
                max_states: 20_000,
                jobs: match threads {
                    Some(n) => n,
                    None => 4,
                },
                explain: 16,
            }),
    {
        Options {
            profile: Profile::Posix,
            block_size: 4096,
            search: Search::default(),
            max_states: 20_000,
            jobs: match threads {
                Some(n) => n,
                None => 4,
            },
            explain: 16,
        }
    }
}

/// What a checker is given: one possible post-crash state.
#[derive(Debug, PartialEq, Eq)]
pub struct Crash<'a> {
    /// The directory content that the crash left behind.
    pub tree: &'a Tree,
    /// How many trace ops had completed when the power went out.
    pub point: usize,
    /// Marks the workload emitted before the crash (what it had acknowledged).
    pub marks: &'a [String],
}

/// What a checker was given and what it said: nothing, or why it rejects.
pub struct Call {
    pub tree: TreeView,
    pub point: usize,
    pub marks: Seq<Seq<char>>,
    pub verdict: Option<Seq<char>>,
}

/// What a verdict says: nothing, or why it rejects.
pub open spec fn verdict_of(r: Result<(), String>) -> Option<Seq<char>> {
    match r {
        Ok(_) => None,
        Err(e) => Some(e@),
    }
}

/// A call of a checker.
pub open spec fn call_of(c: Crash, r: Result<(), String>) -> Call {
    Call { tree: c.tree@, point: c.point, marks: texts(c.marks@), verdict: verdict_of(r) }
}

/// Judges crash states, and remembers what it was asked.
pub trait Judge {
    /// Who answers.
    type Oracle;

    /// Who answers: always the same.
    spec fn oracle(&self) -> Self::Oracle;

    /// What it was asked so far, and what it said.
    spec fn calls(&self) -> Seq<Call>;

    /// It can be asked about any state.
    spec fn ready(&self) -> bool;

    /// Whether the state is acceptable; if not, why.
    fn judge(&mut self, crash: &Crash) -> (r: Result<(), String>)
        requires
            old(self).ready(),
        ensures
            final(self).ready(),
            final(self).oracle() == old(self).oracle(),
            final(self).calls() == old(self).calls().push(call_of(*crash, r)),
    ;
}

/// What was said of a key, if it was asked about: the first answer counts.
pub open spec fn lookup(calls: Seq<Call>, key: Key) -> Option<Option<Seq<char>>>
    decreases calls.len(),
{
    if calls.len() == 0 {
        None
    } else {
        match lookup(calls.drop_last(), key) {
            Some(v) => Some(v),
            None => if calls.last().tree == key.tree && calls.last().marks.len() == key.marks {
                Some(calls.last().verdict)
            } else {
                None
            },
        }
    }
}

/// The later calls begin with the earlier ones.
pub open spec fn extends(later: Seq<Call>, calls: Seq<Call>) -> bool {
    calls.len() <= later.len() && later.take(calls.len() as int) == calls
}

pub proof fn lemma_lookup_extends(later: Seq<Call>, calls: Seq<Call>, key: Key)
    requires
        extends(later, calls),
        lookup(calls, key) is Some,
    ensures
        lookup(later, key) == lookup(calls, key),
    decreases later.len(),
{
    if later.len() == calls.len() {
        assert(later.take(calls.len() as int) =~= later);
    } else {
        assert(later.drop_last().take(calls.len() as int) =~= later.take(calls.len() as int));
        lemma_lookup_extends(later.drop_last(), calls, key);
    }
}

proof fn lemma_extends_transitive(c: Seq<Call>, b: Seq<Call>, a: Seq<Call>)
    requires
        extends(c, b),
        extends(b, a),
    ensures
        extends(c, a),
{
    assert(c.take(a.len() as int) =~= c.take(b.len() as int).take(a.len() as int));
}

/// A call shows a checker a state that a crash can leave behind, together with
/// the marks emitted before the crash, or with none of them.
pub open spec fn shows(p: ProgramView, c: Call) -> bool {
    &&& c.point < p.op_end.len()
    &&& exists|s: Seq<bool>| #[trigger] legal(p, c.point as int, s) && c.tree == tree_of(p, s)
    &&& c.marks == p.marks.take(p.marks_before[c.point as int] as int) || c.marks.len() == 0
}

/// A failing state on the way to its minimum.
pub struct Shrunk {
    pub persisted: Seq<bool>,
    pub message: Seq<char>,
    /// Whether everything that had to be asked was asked.
    pub known: bool,
}

/// A state with more micro-ops persisted.
pub open spec fn with_more(
    p: ProgramView,
    point: int,
    s: Seq<bool>,
    more: spec_fn(int) -> bool,
) -> Seq<bool> {
    closed(p, point, Seq::new(s.len(), |j: int| s[j] || more(j)))
}

/// Persists more, if the state still fails.
pub open spec fn tried(
    p: ProgramView,
    calls: Seq<Call>,
    point: int,
    s: Shrunk,
    more: spec_fn(int) -> bool,
) -> Shrunk {
    let trial = with_more(p, point, s.persisted, more);
    if trial == s.persisted {
        s
    } else {
        match lookup(calls, key_with(p, trial, p.marks_before[point])) {
            None => Shrunk { persisted: s.persisted, message: s.message, known: false },
            Some(None) => s,
            Some(Some(m)) => Shrunk { persisted: trial, message: m, known: s.known },
        }
    }
}

/// Tries each of the first `n` of `ops` as a whole.
pub open spec fn tried_ops(
    p: ProgramView,
    calls: Seq<Call>,
    point: int,
    s: Shrunk,
    ops: Seq<usize>,
    n: int,
) -> Shrunk
    decreases n,
{
    if n <= 0 {
        s
    } else {
        tried(
            p,
            calls,
            point,
            tried_ops(p, calls, point, s, ops, n - 1),
            |j: int| p.micro[j].op == ops[n - 1],
        )
    }
}

/// Tries each of the first `n` micro-ops that is still lost.
pub open spec fn tried_micros(
    p: ProgramView,
    calls: Seq<Call>,
    point: int,
    s: Shrunk,
    n: int,
) -> Shrunk
    decreases n,
{
    if n <= 0 {
        s
    } else {
        let before = tried_micros(p, calls, point, s, n - 1);
        if before.persisted[n - 1] {
            before
        } else {
            tried(p, calls, point, before, |j: int| j == n - 1)
        }
    }
}

/// A failing state, and why it fails.
pub open spec fn unshrunk(p: ProgramView, calls: Seq<Call>, point: int, s: Seq<bool>) -> Shrunk {
    match lookup(calls, key_with(p, s, p.marks_before[point])) {
        None => Shrunk { persisted: s, message: Seq::empty(), known: false },
        Some(None) => Shrunk { persisted: s, message: Seq::empty(), known: true },
        Some(Some(m)) => Shrunk { persisted: s, message: m, known: true },
    }
}

/// A failing state after lost micro-ops were persisted again, greedily, as long
/// as it still fails: whole ops first, then single micro-ops.
pub open spec fn minimized(p: ProgramView, calls: Seq<Call>, point: int, s: Seq<bool>) -> Shrunk {
    let lost = lost_of(p, s);
    tried_micros(
        p,
        calls,
        point,
        tried_ops(p, calls, point, unshrunk(p, calls, point, s), lost, lost.len() as int),
        s.len() as int,
    )
}

/// What a checker said of the states it was shown.
pub struct Cache {
    pub table: Table,
    pub verdicts: Vec<Result<(), String>>,
    pub calls: Ghost<Seq<Call>>,
}

impl Cache {
    /// The table holds the keys of the calls, in order, and each call was made
    /// on a state that a crash can leave behind.
    pub open spec fn sound(self, p: ProgramView) -> bool {
        &&& self.table.sound(p)
        &&& self.verdicts@.len() == self.table.sets@.len()
        &&& self.calls@.len() == self.table.sets@.len()
        &&& forall|i: int|
            0 <= i < self.calls@.len() ==> {
                &&& (#[trigger] self.calls@[i]).tree == self.table.key_at(p, i).tree
                &&& self.calls@[i].marks.len() == self.table.marks@[i]
                &&& self.calls@[i].verdict == verdict_of(self.verdicts@[i])
                &&& shows(p, self.calls@[i])
            }
    }

    proof fn lemma_lookup_at(self, p: ProgramView, i: int)
        requires
            self.sound(p),
            0 <= i < self.calls@.len(),
        ensures
            lookup(self.calls@, self.table.key_at(p, i)) == Some(self.calls@[i].verdict),
    {
        let key = self.table.key_at(p, i);
        self.lemma_not_before(p, i, i);
        let upto = self.calls@.take(i + 1);
        assert(upto.drop_last() =~= self.calls@.take(i));
        assert(self.calls@[i].tree == key.tree);
        assert(upto.last() == self.calls@[i]);
        assert(lookup(upto, key) == Some(self.calls@[i].verdict));
        lemma_lookup_extends(self.calls@, upto, key);
    }

    proof fn lemma_not_before(self, p: ProgramView, i: int, n: int)
        requires
            self.sound(p),
            0 <= n <= i < self.calls@.len(),
        ensures
            lookup(self.calls@.take(n), self.table.key_at(p, i)) is None,
        decreases n,
    {
        if n > 0 {
            self.lemma_not_before(p, i, n - 1);
            let upto = self.calls@.take(n);
            assert(upto.drop_last() =~= self.calls@.take(n - 1));
            assert(upto.last() == self.calls@[n - 1]);
            assert(self.calls@[n - 1].tree == self.table.key_at(p, n - 1).tree);
            assert(self.table.key_at(p, n - 1) != self.table.key_at(p, i));
        }
    }

    proof fn lemma_not_there(self, p: ProgramView, key: Key, n: int)
        requires
            self.sound(p),
            0 <= n <= self.calls@.len(),
            !self.table.keys(p).contains(key),
        ensures
            lookup(self.calls@.take(n), key) is None,
        decreases n,
    {
        if n > 0 {
            self.lemma_not_there(p, key, n - 1);
            let upto = self.calls@.take(n);
            assert(upto.drop_last() =~= self.calls@.take(n - 1));
            assert(upto.last() == self.calls@[n - 1]);
            assert(self.calls@[n - 1].tree == self.table.key_at(p, n - 1).tree);
            assert(self.table.keys(p)[n - 1] == self.table.key_at(p, n - 1));
        }
    }

    /// Records a call on a state that is not there yet.
    fn record(
        &mut self,
        program: &Program,
        set: Vec<bool>,
        marks: usize,
        h: u64,
        verdict: Result<(), String>,
        Ghost(call): Ghost<Call>,
    )
        requires
            old(self).sound(program@),
            set@.len() <= program@.micro.len(),
            h == hash_of(tree_of(program@, set@)),
            !old(self).table.keys(program@).contains(key_with(program@, set@, marks)),
            call.tree == tree_of(program@, set@),
            call.marks.len() == marks,
            call.verdict == verdict_of(verdict),
            shows(program@, call),
        ensures
            final(self).sound(program@),
            final(self).calls@ == old(self).calls@.push(call),
    {
        let ghost p = program@;
        let ghost before = *self;
        self.table.add_key(program, set, marks, h);
        self.verdicts.push(verdict);
        self.calls = Ghost(self.calls@.push(call));
        proof {
            let after = *self;
            assert forall|i: int| 0 <= i < after.calls@.len() implies {
                &&& (#[trigger] after.calls@[i]).tree == after.table.key_at(p, i).tree
                &&& after.calls@[i].marks.len() == after.table.marks@[i]
                &&& after.calls@[i].verdict == verdict_of(after.verdicts@[i])
                &&& shows(p, after.calls@[i])
            } by {
                if i < before.calls@.len() {
                    assert(after.calls@[i] == before.calls@[i]);
                    assert(after.table.sets@[i] == before.table.sets@[i]);
                    assert(before.calls@[i].tree == before.table.key_at(p, i).tree);
                }
            }
        }
    }
}

/// The same calls were added to both logs.
pub open spec fn grown(
    cache_before: Seq<Call>,
    cache_after: Seq<Call>,
    judge_before: Seq<Call>,
    judge_after: Seq<Call>,
) -> bool {
    &&& extends(cache_after, cache_before)
    &&& judge_after == judge_before + cache_after.skip(cache_before.len() as int)
}

proof fn lemma_grown_transitive(
    c0: Seq<Call>,
    c1: Seq<Call>,
    c2: Seq<Call>,
    j0: Seq<Call>,
    j1: Seq<Call>,
    j2: Seq<Call>,
)
    requires
        grown(c0, c1, j0, j1),
        grown(c1, c2, j1, j2),
    ensures
        grown(c0, c2, j0, j2),
{
    lemma_extends_transitive(c2, c1, c0);
    assert(c2.skip(c0.len() as int) =~= c1.skip(c0.len() as int) + c2.skip(c1.len() as int)) by {
        assert forall|i: int| 0 <= i < c1.len() implies c1[i] == c2[i] by {
            assert(c2.take(c1.len() as int)[i] == c2[i]);
        }
    }
    assert(j2 =~= j0 + c2.skip(c0.len() as int));
}

proof fn lemma_grown_not(c: Seq<Call>, j: Seq<Call>)
    ensures
        grown(c, c, j, j),
{
    assert(c.take(c.len() as int) =~= c);
    assert(c.skip(c.len() as int) =~= Seq::<Call>::empty());
    assert(j + Seq::<Call>::empty() =~= j);
}

/// What a verdict says, once more.
fn copy_verdict(v: &Result<(), String>) -> (r: Result<(), String>)
    ensures
        verdict_of(r) == verdict_of(*v),
{
    match v {
        Ok(_) => Ok(()),
        Err(e) => Err(e.clone()),
    }
}

/// A copy of a persisted-set.
fn copy_set(v: &Vec<bool>) -> (r: Vec<bool>)
    ensures
        r@ == v@,
{
    let r = v.clone();
    assert(r@ =~= v@);
    r
}

/// Checks one persisted-set, through the cache.
fn verdict<J: Judge>(
    program: &Program,
    cache: &mut Cache,
    judge: &mut J,
    point: usize,
    persisted: &Vec<bool>,
    with_marks: bool,
) -> (r: Result<(), String>)
    requires
        program_sound(program@),
        point < program@.op_end.len(),
        legal(program@, point as int, persisted@),
        old(cache).sound(program@),
        old(judge).ready(),
    ensures
        final(cache).sound(program@),
        final(judge).ready(),
        final(judge).oracle() == old(judge).oracle(),
        grown(old(cache).calls@, final(cache).calls@, old(judge).calls(), final(judge).calls()),
        lookup(
            final(cache).calls@,
            key_with(
                program@,
                persisted@,
                if with_marks {
                    program@.marks_before[point as int]
                } else {
                    0
                },
            ),
        ) == Some(verdict_of(r)),
{
    let ghost p = program@;
    let ghost c0 = cache.calls@;
    let ghost j0 = judge.calls();
    proof {
        lemma_op_end(p, point as int);
        assert(p.marks_before[point as int] <= p.marks_before[p.marks_before.len() - 1]);
    }
    let marks: usize = if with_marks {
        program.marks_before[point]
    } else {
        0
    };
    let tree = program.materialize(persisted);
    let h: u64 = hash(&tree);
    let ghost key = key_with(p, persisted@, marks);
    match cache.table.find(program, &tree, marks, h) {
        Some(i) => {
            proof {
                cache.lemma_lookup_at(p, i as int);
                lemma_grown_not(c0, j0);
            }
            copy_verdict(&cache.verdicts[i])
        },
        None => {
            let shown = vstd::slice::slice_subrange(program.marks.as_slice(), 0, marks);
            let crash = Crash { tree: &tree, point, marks: shown };
            let r = judge.judge(&crash);
            let ghost call = call_of(crash, r);
            proof {
                assert(texts(shown@) =~= p.marks.take(marks as int));
                assert(shows(p, call)) by {
                    assert(legal(p, point as int, persisted@));
                }
                cache.lemma_not_there(p, key, c0.len() as int);
                assert(c0.take(c0.len() as int) =~= c0);
            }
            cache.record(program, copy_set(persisted), marks, h, copy_verdict(&r), Ghost(call));
            proof {
                let c1 = cache.calls@;
                assert(c1.drop_last() =~= c0);
                assert(c1.take(c0.len() as int) =~= c0);
                assert(c1.skip(c0.len() as int) =~= seq![call]);
                assert(judge.calls() =~= j0 + seq![call]);
            }
            r
        },
    }
}

/// Persists more, if the state still fails.
fn attempt<J: Judge>(
    program: &Program,
    cache: &mut Cache,
    judge: &mut J,
    point: usize,
    persisted: &mut Vec<bool>,
    message: &mut String,
    add: &Vec<bool>,
    Ghost(more): Ghost<spec_fn(int) -> bool>,
)
    requires
        program_sound(program@),
        point < program@.op_end.len(),
        legal(program@, point as int, old(persisted)@),
        add@.len() == old(persisted)@.len(),
        forall|j: int| 0 <= j < add@.len() ==> #[trigger] add@[j] == more(j),
        old(cache).sound(program@),
        old(judge).ready(),
    ensures
        final(cache).sound(program@),
        final(judge).ready(),
        final(judge).oracle() == old(judge).oracle(),
        grown(old(cache).calls@, final(cache).calls@, old(judge).calls(), final(judge).calls()),
        legal(program@, point as int, final(persisted)@),
        final(persisted)@.len() == old(persisted)@.len(),
        forall|later: Seq<Call>| #[trigger]
            extends(later, final(cache).calls@) ==> tried(
                program@,
                later,
                point as int,
                (Shrunk { persisted: old(persisted)@, message: old(message)@, known: true }),
                more,
            ) == (Shrunk { persisted: final(persisted)@, message: final(message)@, known: true }),
{
    let ghost p = program@;
    let ghost s0 = Shrunk { persisted: persisted@, message: message@, known: true };
    let ghost c0 = cache.calls@;
    let ghost j0 = judge.calls();
    let n: usize = persisted.len();
    let mut trial: Vec<bool> = Vec::new();
    let mut j: usize = 0;
    while j < n
        invariant
            j <= n,
            n == persisted@.len(),
            add@.len() == n,
            trial@.len() == j,
            forall|k: int| 0 <= k < j ==> #[trigger] trial@[k] == (persisted@[k] || add@[k]),
        decreases n - j,
    {
        trial.push(persisted[j] || add[j]);
        j += 1;
    }
    proof {
        assert(trial@ =~= Seq::new(s0.persisted.len(), |j: int| s0.persisted[j] || more(j)));
        lemma_op_end(p, point as int);
        law_closed_is_the_smallest_legal_state(p, point as int, trial@);
    }
    program.close(point, &mut trial);
    let mut changed = false;
    let mut j: usize = 0;
    while j < n
        invariant
            j <= n,
            n == persisted@.len(),
            trial@.len() == n,
            changed == exists|k: int| 0 <= k < j && trial@[k] != persisted@[k],
        decreases n - j,
    {
        if trial[j] != persisted[j] {
            changed = true;
            assert(trial@[j as int] != persisted@[j as int]);
        }
        j += 1;
    }
    assert(changed == (trial@ != persisted@)) by {
        if !changed {
            assert(trial@ =~= persisted@);
        }
    }
    if !changed {
        proof {
            lemma_grown_not(c0, j0);
        }
        return;
    }
    let r = verdict(program, cache, judge, point, &trial, true);
    proof {
        let key = key_with(p, trial@, p.marks_before[point as int]);
        assert forall|later: Seq<Call>| #[trigger] extends(later, cache.calls@) implies lookup(
            later,
            key,
        ) == Some(verdict_of(r)) by {
            lemma_lookup_extends(later, cache.calls@, key);
        }
    }
    if let Err(m) = r {
        *persisted = trial;
        *message = m;
    }
}

/// Greedily re-persist lost micro-ops (whole ops first, then single micro-ops)
/// as long as the state still fails.
fn minimize<J: Judge>(
    program: &Program,
    cache: &mut Cache,
    judge: &mut J,
    point: usize,
    start: &Vec<bool>,
) -> (r: (Vec<bool>, String))
    requires
        program_sound(program@),
        point < program@.op_end.len(),
        legal(program@, point as int, start@),
        old(cache).sound(program@),
        old(judge).ready(),
    ensures
        final(cache).sound(program@),
        final(judge).ready(),
        final(judge).oracle() == old(judge).oracle(),
        grown(old(cache).calls@, final(cache).calls@, old(judge).calls(), final(judge).calls()),
        legal(program@, point as int, r.0@),
        forall|later: Seq<Call>| #[trigger]
            extends(later, final(cache).calls@) ==> minimized(
                program@,
                later,
                point as int,
                start@,
            ) == (Shrunk { persisted: r.0@, message: r.1@, known: true }),
{
    let ghost p = program@;
    let ghost pt = point as int;
    let ghost s = start@;
    let ghost c0 = cache.calls@;
    let ghost j0 = judge.calls();
    proof {
        lemma_op_end(p, pt);
    }
    let mut persisted = copy_set(start);
    let mut message: String = match verdict(program, cache, judge, point, start, true) {
        Ok(_) => "".to_owned(),
        Err(m) => m,
    };
    proof {
        reveal_strlit("");
        let key = key_with(p, s, p.marks_before[pt]);
        assert forall|later: Seq<Call>| #[trigger] extends(later, cache.calls@) implies unshrunk(
            p,
            later,
            pt,
            s,
        ) == (Shrunk { persisted: persisted@, message: message@, known: true }) by {
            lemma_lookup_extends(later, cache.calls@, key);
            assert(""@ =~= Seq::<char>::empty());
        }
    }
    let lost = lost_ops(program, start);
    let n: usize = start.len();
    let mut k: usize = 0;
    while k < lost.len()
        invariant
            k <= lost@.len(),
            p == program@,
            pt == point,
            s == start@,
            program_sound(p),
            point < p.op_end.len(),
            p.op_end[pt] <= p.micro.len(),
            n == s.len(),
            n == p.op_end[pt],
            persisted@.len() == n,
            legal(p, pt, persisted@),
            cache.sound(p),
            judge.ready(),
            judge.oracle() == old(judge).oracle(),
            lost@ == lost_of(p, s),
            grown(c0, cache.calls@, j0, judge.calls()),
            forall|later: Seq<Call>| #[trigger]
                extends(later, cache.calls@) ==> tried_ops(
                    p,
                    later,
                    pt,
                    unshrunk(p, later, pt, s),
                    lost@,
                    k as int,
                ) == (Shrunk { persisted: persisted@, message: message@, known: true }),
        decreases lost@.len() - k,
    {
        let op: usize = lost[k];
        let ghost c1 = cache.calls@;
        let ghost j1 = judge.calls();
        let ghost before = Shrunk { persisted: persisted@, message: message@, known: true };
        let mut add: Vec<bool> = Vec::new();
        let mut j: usize = 0;
        while j < n
            invariant
                j <= n <= program.micro@.len(),
                p == program@,
                add@.len() == j,
                forall|i: int| 0 <= i < j ==> #[trigger] add@[i] == (p.micro[i].op == op),
            decreases n - j,
        {
            assert(program.micro@[j as int]@ == p.micro[j as int]);
            add.push(program.micro[j].op == op);
            j += 1;
        }
        let ghost more = |j: int| p.micro[j].op == lost@[(k + 1) - 1];
        attempt(program, cache, judge, point, &mut persisted, &mut message, &add, Ghost(more));
        proof {
            lemma_grown_transitive(c0, c1, cache.calls@, j0, j1, judge.calls());
            assert forall|later: Seq<Call>| #[trigger] extends(
                later,
                cache.calls@,
            ) implies tried_ops(p, later, pt, unshrunk(p, later, pt, s), lost@, k + 1) == (Shrunk {
                persisted: persisted@,
                message: message@,
                known: true,
            }) by {
                lemma_extends_transitive(later, cache.calls@, c1);
                assert(extends(later, c1));
            }
        }
        k += 1;
    }
    let ghost all_ops = lost@.len() as int;
    let mut i: usize = 0;
    while i < n
        invariant
            i <= n,
            p == program@,
            pt == point,
            s == start@,
            program_sound(p),
            point < p.op_end.len(),
            p.op_end[pt] <= p.micro.len(),
            n == s.len(),
            n == p.op_end[pt],
            persisted@.len() == n,
            legal(p, pt, persisted@),
            cache.sound(p),
            judge.ready(),
            judge.oracle() == old(judge).oracle(),
            lost@ == lost_of(p, s),
            all_ops == lost@.len(),
            grown(c0, cache.calls@, j0, judge.calls()),
            forall|later: Seq<Call>| #[trigger]
                extends(later, cache.calls@) ==> tried_micros(
                    p,
                    later,
                    pt,
                    tried_ops(p, later, pt, unshrunk(p, later, pt, s), lost@, all_ops),
                    i as int,
                ) == (Shrunk { persisted: persisted@, message: message@, known: true }),
        decreases n - i,
    {
        if !persisted[i] {
            let ghost c1 = cache.calls@;
            let ghost j1 = judge.calls();
            let mut add: Vec<bool> = Vec::new();
            let mut j: usize = 0;
            while j < n
                invariant
                    j <= n,
                    add@.len() == j,
                    forall|k: int| 0 <= k < j ==> #[trigger] add@[k] == (k == i),
                decreases n - j,
            {
                add.push(j == i);
                j += 1;
            }
            let ghost more = |j: int| j == (i + 1) - 1;
            attempt(program, cache, judge, point, &mut persisted, &mut message, &add, Ghost(more));
            proof {
                lemma_grown_transitive(c0, c1, cache.calls@, j0, j1, judge.calls());
                assert forall|later: Seq<Call>| #[trigger] extends(
                    later,
                    cache.calls@,
                ) implies tried_micros(
                    p,
                    later,
                    pt,
                    tried_ops(p, later, pt, unshrunk(p, later, pt, s), lost@, all_ops),
                    i + 1,
                ) == (Shrunk { persisted: persisted@, message: message@, known: true }) by {
                    lemma_extends_transitive(later, cache.calls@, c1);
                    assert(extends(later, c1));
                }
            }
        }
        i += 1;
    }
    (persisted, message)
}

/// How many micro-ops a state lost.
pub open spec fn lost_count(s: Seq<bool>) -> nat
    decreases s.len(),
{
    if s.len() == 0 {
        0
    } else {
        lost_count(s.drop_last()) + if s.last() {
            0nat
        } else {
            1nat
        }
    }
}

/// An earlier crash, or one at the same point that lost less.
pub open spec fn simpler(a: StateView, b: StateView) -> bool {
    a.point < b.point || (a.point == b.point && lost_count(a.persisted) < lost_count(b.persisted))
}

/// A state put into a sorted list, behind those that are no less simple.
pub open spec fn placed(v: Seq<StateView>, x: StateView) -> Seq<StateView>
    decreases v.len(),
{
    if v.len() == 0 || !simpler(x, v.last()) {
        v.push(x)
    } else {
        placed(v.drop_last(), x).push(v.last())
    }
}

/// The states that were rejected, the simplest first.
pub open spec fn failing(p: ProgramView, states: Seq<StateView>, calls: Seq<Call>, n: int) -> Seq<
    StateView,
>
    decreases n,
{
    if n <= 0 {
        Seq::empty()
    } else {
        let before = failing(p, states, calls, n - 1);
        if lookup(calls, state_key(p, states[n - 1])) matches Some(Some(_)) {
            placed(before, states[n - 1])
        } else {
            before
        }
    }
}

/// A vulnerability with the minimized lost-op sets attributed to it.
pub struct GroupView {
    pub vuln: VulnerabilityView,
    pub causes: Seq<Seq<usize>>,
}

/// Failures attributed so far.
pub struct Grouping {
    pub groups: Seq<GroupView>,
    /// How many failures were minimized.
    pub minimized: nat,
    /// Whether everything that had to be asked was asked.
    pub known: bool,
}

/// All of a (nonempty) cause was lost.
pub open spec fn accounts_for(cause: Seq<usize>, lost: Seq<usize>) -> bool {
    cause.len() > 0 && forall|i: int| 0 <= i < cause.len() ==> lost.contains(#[trigger] cause[i])
}

/// One of the causes of a vulnerability was lost.
pub open spec fn group_accounts_for(g: GroupView, lost: Seq<usize>) -> bool {
    exists|i: int| 0 <= i < g.causes.len() && accounts_for(#[trigger] g.causes[i], lost)
}

/// The first group, from `k` on, that accounts for what was lost.
pub open spec fn group_for_lost(groups: Seq<GroupView>, lost: Seq<usize>, k: int) -> Option<int>
    decreases groups.len() - k,
{
    if k >= groups.len() {
        None
    } else if group_accounts_for(groups[k], lost) {
        Some(k)
    } else {
        group_for_lost(groups, lost, k + 1)
    }
}

/// The first group, from `k` on, of a kind and files.
pub open spec fn group_for_cause(
    groups: Seq<GroupView>,
    kind: Kind,
    files: Seq<Seq<char>>,
    k: int,
) -> Option<int>
    decreases groups.len() - k,
{
    if k >= groups.len() {
        None
    } else if groups[k].vuln.kind == kind && groups[k].vuln.files == files {
        Some(k)
    } else {
        group_for_cause(groups, kind, files, k + 1)
    }
}

/// A vulnerability seen once more.
pub open spec fn once_more(v: VulnerabilityView) -> VulnerabilityView {
    VulnerabilityView { occurrences: (v.occurrences + 1) as usize, ..v }
}

/// The paths that the first `n` of some ops are about.
pub open spec fn paths_upto(ops: Seq<OpView>, v: Seq<usize>, n: int) -> Set<Seq<char>>
    decreases n,
{
    if n <= 0 {
        Set::empty()
    } else {
        let before = paths_upto(ops, v, n - 1);
        match op_path(ops[v[n - 1] as int]) {
            Some(path) => before.insert(path),
            None => before,
        }
    }
}

/// The files that some ops are about, in order, each one once.
pub open spec fn files_of(ops: Seq<OpView>, v: Seq<usize>) -> Seq<Seq<char>> {
    ordered(paths_upto(ops, v, v.len() as int))
}

/// Attributes a failure to the vulnerability that was minimized from it.
pub open spec fn attributed(
    groups: Seq<GroupView>,
    vuln: VulnerabilityView,
    cause: Seq<usize>,
) -> Seq<GroupView> {
    match group_for_cause(groups, vuln.kind, vuln.files, 0) {
        Some(i) => groups.update(
            i,
            GroupView {
                vuln: once_more(groups[i].vuln),
                causes: groups[i].causes.push(cause),
            },
        ),
        None => groups.push(GroupView { vuln, causes: seq![cause] }),
    }
}

/// A durability bug disappears once nothing has been acknowledged.
pub open spec fn is_durability(
    p: ProgramView,
    calls: Seq<Call>,
    point: int,
    s: Seq<bool>,
) -> bool {
    p.marks_before[point] > 0 && lookup(calls, key_with(p, s, 0)) == Some(None::<Seq<char>>)
}

/// The vulnerability that a minimized failure is.
pub open spec fn vulnerability(
    p: ProgramView,
    ops: Seq<OpView>,
    calls: Seq<Call>,
    point: usize,
    s: Shrunk,
) -> VulnerabilityView {
    let v = explained(
        p,
        ops,
        point,
        s.persisted,
        s.message,
        is_durability(p, calls, point as int, s.persisted),
    );
    VulnerabilityView { files: files_of(ops, lost_of(p, s.persisted)), ..v }
}

/// One more failure attributed.
pub open spec fn grouped_with(
    p: ProgramView,
    ops: Seq<OpView>,
    calls: Seq<Call>,
    limit: usize,
    g: Grouping,
    x: StateView,
) -> Grouping {
    match group_for_lost(g.groups, lost_of(p, x.persisted), 0) {
        Some(i) => Grouping {
            groups: g.groups.update(
                i,
                GroupView { vuln: once_more(g.groups[i].vuln), causes: g.groups[i].causes },
            ),
            minimized: g.minimized,
            known: g.known,
        },
        None => if g.minimized == limit {
            g
        } else {
            let s = minimized(p, calls, x.point as int, x.persisted);
            let asked = p.marks_before[x.point as int] == 0 || lookup(
                calls,
                key_with(p, s.persisted, 0),
            ) is Some;
            Grouping {
                groups: attributed(
                    g.groups,
                    vulnerability(p, ops, calls, x.point, s),
                    lost_of(p, s.persisted),
                ),
                minimized: g.minimized + 1,
                known: g.known && s.known && asked,
            }
        },
    }
}

/// The first `n` failures attributed.
pub open spec fn grouped(
    p: ProgramView,
    ops: Seq<OpView>,
    calls: Seq<Call>,
    limit: usize,
    states: Seq<StateView>,
    n: int,
) -> Grouping
    decreases n,
{
    if n <= 0 {
        Grouping { groups: Seq::empty(), minimized: 0, known: true }
    } else {
        grouped_with(
            p,
            ops,
            calls,
            limit,
            grouped(p, ops, calls, limit, states, n - 1),
            states[n - 1],
        )
    }
}

/// The vulnerabilities of groups.
pub open spec fn vulns_of(groups: Seq<GroupView>) -> Seq<VulnerabilityView> {
    Seq::new(groups.len(), |i: int| groups[i].vuln)
}

/// Every state was asked about.
pub open spec fn all_asked(p: ProgramView, states: Seq<StateView>, calls: Seq<Call>) -> bool {
    forall|i: int|
        0 <= i < states.len() ==> lookup(calls, state_key(p, #[trigger] states[i])) is Some
}

/// The outcome of a check in which `calls` are the calls of the checker: the
/// report is determined by what the checker said, and nothing that the report
/// depends on was left unasked.
pub open spec fn is_outcome(
    p: ProgramView,
    ops: Seq<OpView>,
    opts: Options,
    calls: Seq<Call>,
    r: ReportView,
) -> bool {
    let states = states_to_check(p, opts.search, opts.max_states);
    let f = failing(p, states, calls, states.len() as int);
    let g = grouped(p, ops, calls, opts.explain, f, f.len() as int);
    &&& all_asked(p, states, calls)
    &&& g.known
    &&& r == ReportView {
        profile: p.profile,
        ops: ops.len() as usize,
        crash_points: p.op_end.len() as usize,
        states: states.len() as usize,
        truncated: cut_short(p, opts.search, opts.max_states),
        recovery_states: 0,
        failures: f.len() as usize,
        vulnerabilities: vulns_of(g.groups),
    }
}

/// No two calls on what is the same to a checker.
pub open spec fn asked_once(calls: Seq<Call>) -> bool {
    forall|i: int, j: int|
        0 <= i < j < calls.len() ==> !((#[trigger] calls[i]).tree == (#[trigger] calls[j]).tree
            && calls[i].marks.len() == calls[j].marks.len())
}

/// A crash after `point` ops that leaves the micro-ops `persisted` on disk.
struct State {
    point: usize,
    persisted: Vec<bool>,
    lost: usize,
}

spec fn state_of(s: State) -> StateView {
    StateView { point: s.point, persisted: s.persisted@ }
}

spec fn states_of(v: Seq<State>) -> Seq<StateView> {
    Seq::new(v.len(), |i: int| state_of(v[i]))
}

fn count_lost(s: &Vec<bool>) -> (r: usize)
    ensures
        r == lost_count(s@),
{
    let mut r: usize = 0;
    let mut i: usize = 0;
    while i < s.len()
        invariant
            i <= s@.len(),
            r <= i,
            r == lost_count(s@.take(i as int)),
        decreases s@.len() - i,
    {
        assert(s@.take(i + 1).drop_last() =~= s@.take(i as int));
        if !s[i] {
            r += 1;
        }
        i += 1;
    }
    assert(s@.take(i as int) =~= s@);
    r
}

proof fn lemma_placed(v: Seq<StateView>, x: StateView, k: int)
    requires
        0 <= k <= v.len(),
        forall|i: int| k <= i < v.len() ==> simpler(x, #[trigger] v[i]),
        k > 0 ==> !simpler(x, v[k - 1]),
    ensures
        placed(v, x) == v.insert(k, x),
    decreases v.len(),
{
    if k == v.len() {
        assert(v.insert(k, x) =~= v.push(x));
    } else {
        let w = v.drop_last();
        assert(simpler(x, v[v.len() - 1]));
        assert forall|i: int| k <= i < w.len() implies simpler(x, #[trigger] w[i]) by {
            assert(w[i] == v[i]);
        }
        lemma_placed(w, x, k);
        assert(v.insert(k, x) =~= w.insert(k, x).push(v.last()));
    }
}

/// Puts a state into a sorted list.
fn place(v: &mut Vec<State>, x: State)
    requires
        forall|i: int|
            0 <= i < old(v)@.len() ==> (#[trigger] old(v)@[i]).lost == lost_count(
                old(v)@[i].persisted@,
            ),
        x.lost == lost_count(x.persisted@),
    ensures
        states_of(final(v)@) == placed(states_of(old(v)@), state_of(x)),
        forall|i: int|
            0 <= i < final(v)@.len() ==> (#[trigger] final(v)@[i]).lost == lost_count(
                final(v)@[i].persisted@,
            ),
        final(v)@.len() == old(v)@.len() + 1,
        forall|i: int|
            0 <= i < final(v)@.len() ==> #[trigger] final(v)@[i] == x || old(v)@.contains(
                final(v)@[i],
            ),
{
    let ghost before = states_of(v@);
    let ghost v0 = v@;
    let ghost sx = state_of(x);
    let mut k: usize = v.len();
    while k > 0 && (x.point < v[k - 1].point || (x.point == v[k - 1].point && x.lost < v[k
        - 1].lost))
        invariant
            k <= v@.len(),
            v@ == v0,
            before == states_of(v0),
            sx == state_of(x),
            x.lost == lost_count(x.persisted@),
            forall|i: int|
                0 <= i < v0.len() ==> (#[trigger] v0[i]).lost == lost_count(v0[i].persisted@),
            forall|i: int| k <= i < before.len() ==> simpler(sx, #[trigger] before[i]),
        decreases k,
    {
        assert(v0[k - 1].lost == lost_count(v0[k - 1].persisted@));
        assert(simpler(sx, before[k - 1]));
        k = k - 1;
    }
    proof {
        if k > 0 {
            assert(v0[k - 1].lost == lost_count(v0[k - 1].persisted@));
            assert(before[k - 1] == state_of(v0[k - 1]));
        }
        lemma_placed(before, sx, k as int);
    }
    v.insert(k, x);
    proof {
        let after = v@;
        assert(states_of(after) =~= before.insert(k as int, sx));
        assert forall|i: int| 0 <= i < after.len() implies (#[trigger] after[i]).lost == lost_count(
            after[i].persisted@,
        ) && (after[i] == x || v0.contains(after[i])) by {
            if i < k {
                assert(after[i] == v0[i]);
            } else if i > k {
                assert(after[i] == v0[i - 1]);
            }
        }
    }
}

/// A vulnerability with the minimized lost-op sets attributed to it.
struct Group {
    vuln: Vulnerability,
    causes: Vec<Vec<usize>>,
}

spec fn lists_view(v: Seq<Vec<usize>>) -> Seq<Seq<usize>> {
    Seq::new(v.len(), |i: int| v[i]@)
}

spec fn group_view(g: Group) -> GroupView {
    GroupView { vuln: g.vuln@, causes: lists_view(g.causes@) }
}

spec fn groups_view(v: Seq<Group>) -> Seq<GroupView> {
    Seq::new(v.len(), |i: int| group_view(v[i]))
}

fn cause_accounts_for(cause: &Vec<usize>, lost: &Vec<usize>) -> (r: bool)
    ensures
        r == accounts_for(cause@, lost@),
{
    let mut i: usize = 0;
    while i < cause.len()
        invariant
            i <= cause@.len(),
            forall|k: int| 0 <= k < i ==> lost@.contains(#[trigger] cause@[k]),
        decreases cause@.len() - i,
    {
        if !is_in(lost, cause[i]) {
            assert(!lost@.contains(cause@[i as int]));
            return false;
        }
        i += 1;
    }
    cause.len() > 0
}

fn find_for_lost(groups: &Vec<Group>, lost: &Vec<usize>) -> (r: Option<usize>)
    ensures
        match r {
            Some(i) => i < groups@.len() && group_for_lost(groups_view(groups@), lost@, 0) == Some(
                i as int,
            ),
            None => group_for_lost(groups_view(groups@), lost@, 0) is None,
        },
{
    let ghost all = groups_view(groups@);
    let mut k: usize = 0;
    while k < groups.len()
        invariant
            k <= groups@.len(),
            all == groups_view(groups@),
            group_for_lost(all, lost@, 0) == group_for_lost(all, lost@, k as int),
        decreases groups@.len() - k,
    {
        let causes = &groups[k].causes;
        let ghost g = all[k as int];
        let mut i: usize = 0;
        let mut hit = false;
        while i < causes.len()
            invariant
                i <= causes@.len(),
                g.causes == lists_view(causes@),
                hit == exists|j: int| 0 <= j < i && accounts_for(#[trigger] g.causes[j], lost@),
            decreases causes@.len() - i,
        {
            let now = cause_accounts_for(&causes[i], lost);
            assert(g.causes[i as int] == causes@[i as int]@);
            if now {
                hit = true;
            }
            i += 1;
        }
        if hit {
            assert(group_accounts_for(g, lost@));
            return Some(k);
        }
        assert(!group_accounts_for(g, lost@));
        k += 1;
    }
    None
}

pub(crate) fn same_names(a: &Vec<String>, b: &Vec<String>) -> (r: bool)
    ensures
        r == (texts(a@) == texts(b@)),
{
    if a.len() != b.len() {
        assert(texts(a@).len() != texts(b@).len());
        return false;
    }
    let mut i: usize = 0;
    while i < a.len()
        invariant
            i <= a@.len(),
            a@.len() == b@.len(),
            forall|k: int| 0 <= k < i ==> (#[trigger] a@[k])@ == b@[k]@,
        decreases a@.len() - i,
    {
        if !same_str(a[i].as_str(), b[i].as_str()) {
            assert(texts(a@)[i as int] != texts(b@)[i as int]);
            return false;
        }
        i += 1;
    }
    assert(texts(a@) =~= texts(b@));
    true
}

fn find_for_cause(groups: &Vec<Group>, v: &Vulnerability) -> (r: Option<usize>)
    ensures
        match r {
            Some(i) => i < groups@.len() && group_for_cause(
                groups_view(groups@),
                v@.kind,
                v@.files,
                0,
            ) == Some(i as int),
            None => group_for_cause(groups_view(groups@), v@.kind, v@.files, 0) is None,
        },
{
    let ghost all = groups_view(groups@);
    let mut k: usize = 0;
    while k < groups.len()
        invariant
            k <= groups@.len(),
            all == groups_view(groups@),
            group_for_cause(all, v@.kind, v@.files, 0) == group_for_cause(
                all,
                v@.kind,
                v@.files,
                k as int,
            ),
        decreases groups@.len() - k,
    {
        let w = &groups[k].vuln;
        assert(all[k as int].vuln == w@);
        if w.kind == v.kind && same_names(&w.files, &v.files) {
            return Some(k);
        }
        k += 1;
    }
    None
}

/// The files that some ops are about, in order, each one once.
fn find_files(ops: &Vec<Op>, v: &Vec<usize>) -> (r: Vec<String>)
    requires
        forall|i: int| 0 <= i < v@.len() ==> (#[trigger] v@[i]) < ops@.len(),
    ensures
        texts(r@) == files_of(ops_view(ops@), v@),
{
    let ghost all = ops_view(ops@);
    let mut names: NameMap<usize> = NameMap::new();
    let mut i: usize = 0;
    assert(names@.dom() =~= Set::<Seq<char>>::empty());
    while i < v.len()
        invariant
            i <= v@.len(),
            all == ops_view(ops@),
            forall|i: int| 0 <= i < v@.len() ==> (#[trigger] v@[i]) < ops@.len(),
            names@.dom() == paths_upto(all, v@, i as int),
        decreases v@.len() - i,
    {
        let ghost before = names@;
        let o: usize = v[i];
        assert(all[o as int] == ops@[o as int]@);
        if let Some(path) = ops[o].path() {
            names.put(chars_of(path), 0);
            assert(names@.dom() =~= before.dom().insert(path@));
        }
        i += 1;
    }
    let n: usize = names.len();
    let mut r: Vec<String> = Vec::new();
    let mut j: usize = 0;
    while j < n
        invariant
            j <= n,
            n == names.names().len(),
            texts(r@) == names.names().take(j as int),
        decreases n - j,
    {
        let ghost before = texts(r@);
        let name = names.name_at(j);
        r.push(name);
        assert(texts(r@) =~= before.push(name@));
        assert(names.names().take(j + 1) =~= names.names().take(j as int).push(
            names.names()[j as int],
        ));
        j += 1;
    }
    assert(names.names().take(n as int) =~= names.names());
    r
}

/// No vulnerability was seen more often than this.
spec fn seen_at_most(groups: Seq<Group>, n: int) -> bool {
    forall|i: int| 0 <= i < groups.len() ==> (#[trigger] groups[i]).vuln.occurrences <= n
}

/// Counts a vulnerability once more.
fn count_again(groups: &mut Vec<Group>, i: usize, Ghost(n): Ghost<int>)
    requires
        i < old(groups)@.len(),
        seen_at_most(old(groups)@, n),
        0 <= n < usize::MAX,
    ensures
        groups_view(final(groups)@) == groups_view(old(groups)@).update(
            i as int,
            (GroupView {
                vuln: once_more(groups_view(old(groups)@)[i as int].vuln),
                causes: groups_view(old(groups)@)[i as int].causes,
            }),
        ),
        seen_at_most(final(groups)@, n + 1),
        final(groups)@.len() == old(groups)@.len(),
{
    let ghost before = groups_view(groups@);
    let ghost g0 = groups@;
    assert(g0[i as int].vuln.occurrences <= n);
    let g: &mut Group = &mut groups[i];
    g.vuln.occurrences = g.vuln.occurrences + 1;
    proof {
        let after = groups@;
        assert(after[i as int].causes == g0[i as int].causes);
        assert(after[i as int].vuln@ == once_more(g0[i as int].vuln@));
        assert(groups_view(after) =~= before.update(
            i as int,
            GroupView {
                vuln: once_more(before[i as int].vuln),
                causes: before[i as int].causes,
            },
        ));
        assert forall|k: int| 0 <= k < after.len() implies (
        #[trigger] after[k]).vuln.occurrences <= n + 1 by {
            assert(g0[k].vuln.occurrences <= n);
        }
    }
}

/// Attributes a failure to the vulnerability that was minimized from it.
fn attribute(groups: &mut Vec<Group>, vuln: Vulnerability, cause: Vec<usize>, Ghost(n): Ghost<int>)
    requires
        seen_at_most(old(groups)@, n),
        0 <= n < usize::MAX,
        vuln.occurrences == 1,
    ensures
        groups_view(final(groups)@) == attributed(groups_view(old(groups)@), vuln@, cause@),
        seen_at_most(final(groups)@, n + 1),
{
    let ghost before = groups_view(groups@);
    let ghost g0 = groups@;
    match find_for_cause(groups, &vuln) {
        Some(i) => {
            count_again(groups, i, Ghost(n));
            let ghost g1 = groups@;
            let g: &mut Group = &mut groups[i];
            g.causes.push(cause);
            proof {
                let after = groups@;
                assert(groups_view(g1)[i as int] == group_view(g1[i as int]));
                assert(lists_view(after[i as int].causes@) =~= lists_view(
                    g1[i as int].causes@,
                ).push(cause@));
                assert(groups_view(after) =~= attributed(before, vuln@, cause@)) by {
                    assert forall|k: int| 0 <= k < after.len() implies groups_view(after)[k]
                        == attributed(before, vuln@, cause@)[k] by {
                        assert(groups_view(g1)[k] == group_view(g1[k]));
                        if k != i {
                            assert(after[k] == g1[k]);
                        }
                    }
                }
                assert forall|k: int| 0 <= k < after.len() implies (
                #[trigger] after[k]).vuln.occurrences <= n + 1 by {
                    assert(g1[k].vuln.occurrences <= n + 1);
                }
            }
        },
        None => {
            let mut causes: Vec<Vec<usize>> = Vec::new();
            causes.push(cause);
            let g = Group { vuln, causes };
            groups.push(g);
            proof {
                assert(lists_view(causes@) =~= seq![cause@]);
                assert(groups_view(groups@) =~= before.push(group_view(g)));
                let after = groups@;
                assert forall|k: int| 0 <= k < after.len() implies (
                #[trigger] after[k]).vuln.occurrences <= n + 1 by {
                    if k < g0.len() {
                        assert(after[k] == g0[k]);
                    }
                }
            }
        },
    }
}

/// Minimizes a failure and explains it; also what caused it.
fn diagnose<J: Judge>(
    program: &Program,
    ops: &Vec<Op>,
    cache: &mut Cache,
    judge: &mut J,
    x: &State,
) -> (r: (Vulnerability, Vec<usize>))
    requires
        program_sound(program@),
        ops_of(program@) == ops@.len(),
        all_end(ops_view(ops@)),
        x.point < program@.op_end.len(),
        legal(program@, x.point as int, x.persisted@),
        old(cache).sound(program@),
        old(judge).ready(),
    ensures
        final(cache).sound(program@),
        final(judge).ready(),
        final(judge).oracle() == old(judge).oracle(),
        grown(old(cache).calls@, final(cache).calls@, old(judge).calls(), final(judge).calls()),
        r.0.occurrences == 1,
        forall|later: Seq<Call>| #[trigger]
            extends(later, final(cache).calls@) ==> {
                let s = minimized(program@, later, x.point as int, x.persisted@);
                &&& s.known
                &&& program@.marks_before[x.point as int] == 0 || lookup(
                    later,
                    key_with(program@, s.persisted, 0),
                ) is Some
                &&& r.0@ == vulnerability(program@, ops_view(ops@), later, x.point, s)
                &&& r.1@ == lost_of(program@, s.persisted)
            },
{
    let ghost p = program@;
    let ghost c0 = cache.calls@;
    let ghost j0 = judge.calls();
    let (persisted, message) = minimize(program, cache, judge, x.point, &x.persisted);
    let ghost c1 = cache.calls@;
    let ghost j1 = judge.calls();
    let ghost told = message@;
    let acked = program.marks_before[x.point] > 0;
    let mut durability = false;
    proof {
        lemma_grown_not(c1, j1);
    }
    if acked {
        let r = verdict(program, cache, judge, x.point, &persisted, false);
        durability = r.is_ok();
        proof {
            lemma_grown_transitive(c0, c1, cache.calls@, j0, j1, judge.calls());
            assert forall|later: Seq<Call>| #[trigger] extends(later, cache.calls@) implies lookup(
                later,
                key_with(p, persisted@, 0),
            ) == Some(verdict_of(r)) by {
                lemma_lookup_extends(later, cache.calls@, key_with(p, persisted@, 0));
            }
        }
    }
    proof {
        lemma_op_end(p, x.point as int);
        lemma_lost_are_ops(p, persisted@, persisted@.len() as int);
    }
    let mut v = explain(program, ops, x.point, &persisted, message, durability);
    let cause = lost_ops(program, &persisted);
    v.files = find_files(ops, &cause);
    proof {
        assert forall|later: Seq<Call>| #[trigger] extends(later, cache.calls@) implies {
            let s = minimized(p, later, x.point as int, x.persisted@);
            &&& s.known
            &&& p.marks_before[x.point as int] == 0 || lookup(
                later,
                key_with(p, s.persisted, 0),
            ) is Some
            &&& v@ == vulnerability(p, ops_view(ops@), later, x.point, s)
            &&& cause@ == lost_of(p, s.persisted)
        } by {
            lemma_extends_transitive(later, cache.calls@, c1);
            assert(extends(later, c1));
            let s = minimized(p, later, x.point as int, x.persisted@);
            assert(s.persisted == persisted@ && s.message == told);
            assert(durability == is_durability(p, later, x.point as int, persisted@));
        }
    }
    (v, cause)
}

/// The calls that were made on planned states, given what the checker said.
pub open spec fn planned_calls(
    p: ProgramView,
    states: Seq<StateView>,
    verdicts: Seq<Result<(), String>>,
) -> Seq<Call> {
    Seq::new(
        states.len(),
        |i: int|
            Call {
                tree: tree_of(p, states[i].persisted),
                point: states[i].point,
                marks: p.marks.take(p.marks_before[states[i].point as int] as int),
                verdict: verdict_of(verdicts[i]),
            },
    )
}

proof fn lemma_states_legal(p: ProgramView, search: Search, n: int)
    requires
        program_sound(p),
        0 <= n <= p.op_end.len(),
    ensures
        forall|i: int|
            0 <= i < states_upto(p, search, n).len() ==> state_legal(
                p,
                #[trigger] states_upto(p, search, n)[i],
            ),
    decreases n,
{
    if n > 0 {
        lemma_states_legal(p, search, n - 1);
        let a = states_upto(p, search, n - 1);
        let b = states_at(p, search, n - 1);
        assert forall|i: int| 0 <= i < (a + b).len() implies state_legal(
            p,
            #[trigger] (a + b)[i],
        ) by {
            if i < a.len() {
                assert((a + b)[i] == a[i]);
            } else {
                law_examined_states_are_legal(p, n - 1, search, i - a.len());
            }
        }
    }
}

/// A state that a crash can leave behind.
pub open spec fn state_legal(p: ProgramView, x: StateView) -> bool {
    x.point < p.op_end.len() && legal(p, x.point as int, x.persisted)
}

proof fn lemma_distinct_legal(p: ProgramView, states: Seq<StateView>)
    requires
        forall|i: int| 0 <= i < states.len() ==> state_legal(p, #[trigger] states[i]),
    ensures
        forall|i: int|
            0 <= i < distinct(p, states).len() ==> state_legal(
                p,
                #[trigger] distinct(p, states)[i],
            ),
    decreases states.len(),
{
    if states.len() > 0 {
        let before = states.drop_last();
        assert forall|i: int| 0 <= i < before.len() implies state_legal(
            p,
            #[trigger] before[i],
        ) by {
            assert(before[i] == states[i]);
        }
        lemma_distinct_legal(p, before);
        assert(state_legal(p, states[states.len() - 1]));
        let a = distinct(p, before);
        let b = distinct(p, states);
        assert forall|i: int| 0 <= i < b.len() implies state_legal(p, #[trigger] b[i]) by {
            if i < a.len() {
                assert(b[i] == a[i]);
            }
        }
    }
}

/// Only states that a crash can leave behind are checked.
pub proof fn lemma_checked_states_are_legal(p: ProgramView, search: Search, limit: usize)
    requires
        program_sound(p),
    ensures
        forall|i: int|
            0 <= i < states_to_check(p, search, limit).len() ==> state_legal(
                p,
                #[trigger] states_to_check(p, search, limit)[i],
            ),
{
    lemma_states_legal(p, search, p.op_end.len() as int);
    lemma_distinct_legal(p, all_states(p, search));
    let d = distinct(p, all_states(p, search));
    let c = states_to_check(p, search, limit);
    assert forall|i: int| 0 <= i < c.len() implies state_legal(p, #[trigger] c[i]) by {
        assert(c[i] == d[i]);
    }
}

/// The states that were rejected, the simplest first.
fn find_failing(program: &Program, plan_points: &Vec<usize>, cache: &Cache) -> (r: Vec<State>)
    requires
        program_sound(program@),
        cache.sound(program@),
        plan_points@.len() == cache.table.sets@.len(),
        forall|i: int|
            0 <= i < plan_points@.len() ==> {
                &&& (#[trigger] plan_points@[i]) < program@.op_end.len()
                &&& cache.table.marks@[i] == program@.marks_before[plan_points@[i] as int]
                &&& legal(program@, plan_points@[i] as int, cache.table.sets@[i]@)
            },
    ensures
        forall|i: int|
            0 <= i < r@.len() ==> (#[trigger] r@[i]).point < program@.op_end.len() && legal(
                program@,
                r@[i].point as int,
                r@[i].persisted@,
            ),
        forall|later: Seq<Call>| #[trigger]
            extends(later, cache.calls@) ==> failing(
                program@,
                Seq::new(
                    plan_points@.len(),
                    |i: int|
                        StateView { point: plan_points@[i], persisted: cache.table.sets@[i]@ },
                ),
                later,
                plan_points@.len() as int,
            ) == states_of(r@),
{
    let ghost p = program@;
    let ghost states = Seq::new(
        plan_points@.len(),
        |i: int| StateView { point: plan_points@[i], persisted: cache.table.sets@[i]@ },
    );
    let n: usize = plan_points.len();
    let mut r: Vec<State> = Vec::new();
    let mut i: usize = 0;
    assert(states_of(r@) =~= Seq::<StateView>::empty());
    while i < n
        invariant
            i <= n,
            n == plan_points@.len(),
            p == program@,
            cache.sound(p),
            n == cache.table.sets@.len(),
            states == Seq::new(
                plan_points@.len(),
                |i: int| StateView { point: plan_points@[i], persisted: cache.table.sets@[i]@ },
            ),
            forall|i: int|
                0 <= i < plan_points@.len() ==> {
                    &&& (#[trigger] plan_points@[i]) < p.op_end.len()
                    &&& cache.table.marks@[i] == p.marks_before[plan_points@[i] as int]
                    &&& legal(p, plan_points@[i] as int, cache.table.sets@[i]@)
                },
            forall|k: int|
                0 <= k < r@.len() ==> (#[trigger] r@[k]).lost == lost_count(r@[k].persisted@)
                    && r@[k].point < p.op_end.len() && legal(
                    p,
                    r@[k].point as int,
                    r@[k].persisted@,
                ),
            forall|later: Seq<Call>| #[trigger]
                extends(later, cache.calls@) ==> failing(p, states, later, i as int) == states_of(
                    r@,
                ),
        decreases n - i,
    {
        proof {
            assert(plan_points@[i as int] < p.op_end.len());
            assert(state_key(p, states[i as int]) == cache.table.key_at(p, i as int));
            assert forall|later: Seq<Call>| #[trigger] extends(later, cache.calls@) implies lookup(
                later,
                state_key(p, states[i as int]),
            ) == Some(verdict_of(cache.verdicts@[i as int])) by {
                cache.lemma_lookup_at(p, i as int);
                assert(cache.calls@[i as int].verdict == verdict_of(cache.verdicts@[i as int]));
                lemma_lookup_extends(later, cache.calls@, state_key(p, states[i as int]));
            }
        }
        if cache.verdicts[i].is_err() {
            let persisted = copy_set(&cache.table.sets[i]);
            let lost: usize = count_lost(&persisted);
            let x = State { point: plan_points[i], persisted, lost };
            let ghost before = r@;
            assert(state_of(x) == states[i as int]);
            place(&mut r, x);
            proof {
                let after = r@;
                assert forall|k: int| 0 <= k < after.len() implies (#[trigger] after[k]).point
                    < p.op_end.len() && legal(p, after[k].point as int, after[k].persisted@) by {
                    if after[k] != x {
                        let m = choose|m: int| 0 <= m < before.len() && before[m] == after[k];
                        assert(before[m].point < p.op_end.len());
                    }
                }
            }
        }
        i += 1;
    }
    r
}

/// Minimizes failures (simplest first) and groups them by root cause: the kind
/// of bug and the files whose lost operations trigger it.
fn find_groups<J: Judge>(
    program: &Program,
    ops: &Vec<Op>,
    limit: usize,
    cache: &mut Cache,
    judge: &mut J,
    failed: &Vec<State>,
) -> (r: Vec<Group>)
    requires
        program_sound(program@),
        ops_of(program@) == ops@.len(),
        all_end(ops_view(ops@)),
        forall|i: int|
            0 <= i < failed@.len() ==> (#[trigger] failed@[i]).point < program@.op_end.len()
                && legal(program@, failed@[i].point as int, failed@[i].persisted@),
        old(cache).sound(program@),
        old(judge).ready(),
    ensures
        final(cache).sound(program@),
        final(judge).ready(),
        final(judge).oracle() == old(judge).oracle(),
        grown(old(cache).calls@, final(cache).calls@, old(judge).calls(), final(judge).calls()),
        forall|later: Seq<Call>| #[trigger]
            extends(later, final(cache).calls@) ==> {
                let g = grouped(
                    program@,
                    ops_view(ops@),
                    later,
                    limit,
                    states_of(failed@),
                    failed@.len() as int,
                );
                g.known && g.groups == groups_view(r@)
            },
{
    let ghost p = program@;
    let ghost o = ops_view(ops@);
    let ghost c0 = cache.calls@;
    let ghost j0 = judge.calls();
    let ghost states = states_of(failed@);
    let n: usize = failed.len();
    let mut groups: Vec<Group> = Vec::new();
    let mut done: usize = 0;
    let mut k: usize = 0;
    proof {
        lemma_grown_not(c0, j0);
        assert(groups_view(groups@) =~= Seq::<GroupView>::empty());
    }
    while k < n
        invariant
            k <= n,
            n == failed@.len(),
            p == program@,
            o == ops_view(ops@),
            states == states_of(failed@),
            program_sound(p),
            ops_of(p) == ops@.len(),
            all_end(o),
            forall|i: int|
                0 <= i < failed@.len() ==> (#[trigger] failed@[i]).point < p.op_end.len() && legal(
                    p,
                    failed@[i].point as int,
                    failed@[i].persisted@,
                ),
            cache.sound(p),
            judge.ready(),
            judge.oracle() == old(judge).oracle(),
            grown(c0, cache.calls@, j0, judge.calls()),
            seen_at_most(groups@, k as int),
            done <= k,
            forall|later: Seq<Call>| #[trigger]
                extends(later, cache.calls@) ==> grouped(p, o, later, limit, states, k as int)
                    == (Grouping {
                    groups: groups_view(groups@),
                    minimized: done as nat,
                    known: true,
                }),
        decreases n - k,
    {
        let x = &failed[k];
        let ghost before = groups_view(groups@);
        let ghost c1 = cache.calls@;
        let ghost j1 = judge.calls();
        assert(failed@[k as int].point < p.op_end.len());
        assert(states[k as int] == state_of(*x));
        proof {
            lemma_op_end(p, x.point as int);
        }
        let lost = lost_ops(program, &x.persisted);
        match find_for_lost(&groups, &lost) {
            Some(i) => {
                count_again(&mut groups, i, Ghost(k as int));
            },
            None => {
                if done != limit {
                    done = done + 1;
                    let (vuln, cause) = diagnose(program, ops, cache, judge, x);
                    attribute(&mut groups, vuln, cause, Ghost(k as int));
                    proof {
                        lemma_grown_transitive(c0, c1, cache.calls@, j0, j1, judge.calls());
                        assert forall|later: Seq<Call>| #[trigger] extends(
                            later,
                            cache.calls@,
                        ) implies grouped(p, o, later, limit, states, k + 1) == (Grouping {
                            groups: groups_view(groups@),
                            minimized: done as nat,
                            known: true,
                        }) by {
                            lemma_extends_transitive(later, cache.calls@, c1);
                            assert(extends(later, c1));
                        }
                    }
                }
            },
        }
        k += 1;
    }
    groups
}

/// A call shows a checker a state, with the marks emitted before the crash.
pub open spec fn is_call_on(p: ProgramView, x: StateView, c: Call) -> bool {
    &&& c.tree == tree_of(p, x.persisted)
    &&& c.point == x.point
    &&& c.marks == p.marks.take(p.marks_before[x.point as int] as int)
}

/// The first calls are on the planned states, in order.
pub open spec fn planned_first(p: ProgramView, states: Seq<StateView>, calls: Seq<Call>) -> bool {
    &&& states.len() <= calls.len()
    &&& forall|i: int| 0 <= i < states.len() ==> is_call_on(p, states[i], #[trigger] calls[i])
}

/// A check that was done with `calls`: the report is determined by what the
/// checker said, the checker was first asked about the planned states and about
/// nothing twice, and it was only shown states that a crash can leave behind.
pub open spec fn is_check(
    p: ProgramView,
    ops: Seq<OpView>,
    opts: Options,
    calls: Seq<Call>,
    r: ReportView,
) -> bool {
    &&& is_outcome(p, ops, opts, calls, r)
    &&& planned_first(p, states_to_check(p, opts.search, opts.max_states), calls)
    &&& asked_once(calls)
    &&& forall|i: int| 0 <= i < calls.len() ==> shows(p, #[trigger] calls[i])
}

/// Draws up the report, given what the checker said of the planned states. To
/// minimize failures it may be asked about further states.
pub fn conclude<J: Judge>(
    program: &Program,
    trace: &Trace,
    opts: &Options,
    plan: Plan,
    verdicts: Vec<Result<(), String>>,
    judge: &mut J,
) -> (r: Report)
    requires
        program_sound(program@),
        ops_of(program@) == trace@.ops.len(),
        all_end(trace@.ops),
        plan.sound(program@),
        plan.states() == states_to_check(program@, opts.search, opts.max_states),
        plan.truncated == cut_short(program@, opts.search, opts.max_states),
        verdicts@.len() == plan.points@.len(),
        old(judge).ready(),
    ensures
        final(judge).ready(),
        final(judge).oracle() == old(judge).oracle(),
        extends(final(judge).calls(), old(judge).calls()),
        is_check(
            program@,
            trace@.ops,
            *opts,
            planned_calls(program@, plan.states(), verdicts@) + final(judge).calls().skip(
                old(judge).calls().len() as int,
            ),
            r@,
        ),
{
    let ghost p = program@;
    let ghost o = trace@.ops;
    let ghost states = plan.states();
    let ghost prior = planned_calls(p, states, verdicts@);
    let ghost j0 = judge.calls();
    let Plan { points, table, truncated } = plan;
    proof {
        lemma_checked_states_are_legal(p, opts.search, opts.max_states);
        assert forall|i: int| 0 <= i < points@.len() implies {
            &&& (#[trigger] points@[i]) < p.op_end.len()
            &&& table.marks@[i] == p.marks_before[points@[i] as int]
            &&& legal(p, points@[i] as int, table.sets@[i]@)
        } by {
            assert(state_legal(p, states[i]));
        }
        assert forall|i: int| 0 <= i < prior.len() implies {
            &&& (#[trigger] prior[i]).tree == table.key_at(p, i).tree
            &&& prior[i].marks.len() == table.marks@[i]
            &&& prior[i].verdict == verdict_of(verdicts@[i])
            &&& shows(p, prior[i])
        } by {
            assert(points@[i] < p.op_end.len());
            assert(p.marks_before[points@[i] as int] <= p.marks_before[p.marks_before.len() - 1]);
            assert(legal(p, points@[i] as int, table.sets@[i]@));
        }
    }
    let mut cache = Cache { table, verdicts, calls: Ghost(prior) };
    let failed = find_failing(program, &points, &cache);
    assert(states =~= Seq::new(
        points@.len(),
        |i: int| StateView { point: points@[i], persisted: cache.table.sets@[i]@ },
    ));
    let groups = find_groups(program, &trace.ops, opts.explain, &mut cache, judge, &failed);
    let ghost calls = cache.calls@;
    let mut vulnerabilities: Vec<Vulnerability> = Vec::new();
    let ghost all = groups_view(groups@);
    for g in it: groups
        invariant
            it.seq() == groups@,
            all == groups_view(groups@),
            vulnerabilities_view(vulnerabilities@) == vulns_of(all).take(it.index() as int),
    {
        let ghost k = it.index() as int;
        let ghost before = vulnerabilities_view(vulnerabilities@);
        assert(all[k] == group_view(g));
        vulnerabilities.push(g.vuln);
        assert(vulnerabilities_view(vulnerabilities@) =~= before.push(all[k].vuln));
        assert(vulns_of(all).take(k + 1) =~= vulns_of(all).take(k).push(all[k].vuln));
    }
    assert(vulns_of(all).take(all.len() as int) =~= vulns_of(all));
    let ops: usize = trace.ops.len();
    let crash_points: usize = program.op_end.len();
    let count: usize = points.len();
    let failures: usize = failed.len();
    let r = Report {
        profile: program.profile,
        ops,
        crash_points,
        states: count,
        truncated,
        recovery_states: 0,
        failures,
        vulnerabilities,
    };
    proof {
        let j1 = judge.calls();
        assert(calls =~= prior + calls.skip(prior.len() as int)) by {
            assert forall|i: int| 0 <= i < prior.len() implies prior[i] == calls[i] by {
                assert(calls.take(prior.len() as int)[i] == calls[i]);
            }
        }
        assert(j1.skip(j0.len() as int) =~= calls.skip(prior.len() as int));
        assert(j1.take(j0.len() as int) =~= j0);
        assert(extends(calls, calls)) by {
            assert(calls.take(calls.len() as int) =~= calls);
        }
        assert forall|i: int| 0 <= i < states.len() implies lookup(
            calls,
            state_key(p, #[trigger] states[i]),
        ) is Some by {
            assert(points@[i] < p.op_end.len());
            assert(calls[i] == prior[i]) by {
                assert(calls.take(prior.len() as int)[i] == calls[i]);
            }
            lemma_lookup_some(calls, i, state_key(p, states[i]));
        }
        assert(asked_once(calls)) by {
            assert forall|i: int, j: int| 0 <= i < j < calls.len() implies !((
            #[trigger] calls[i]).tree == (#[trigger] calls[j]).tree && calls[i].marks.len()
                == calls[j].marks.len()) by {
                assert(cache.table.key_at(p, i) != cache.table.key_at(p, j));
            }
        }
        assert(r@.vulnerabilities == vulns_of(all));
        assert forall|i: int| 0 <= i < states.len() implies is_call_on(
            p,
            states[i],
            #[trigger] calls[i],
        ) by {
            assert(calls.take(prior.len() as int)[i] == calls[i]);
            assert(calls[i] == prior[i]);
        }
    }
    r
}

proof fn lemma_lookup_some(calls: Seq<Call>, i: int, key: Key)
    requires
        0 <= i < calls.len(),
        calls[i].tree == key.tree,
        calls[i].marks.len() == key.marks,
    ensures
        lookup(calls, key) is Some,
    decreases calls.len(),
{
    if i < calls.len() - 1 {
        lemma_lookup_some(calls.drop_last(), i, key);
    }
}

/// Shows a checker the planned state `i`.
pub fn ask<J: Judge>(program: &Program, plan: &Plan, i: usize, judge: &mut J) -> (r: Result<
    (),
    String,
>)
    requires
        program_sound(program@),
        plan.sound(program@),
        i < plan.points@.len(),
        old(judge).ready(),
    ensures
        final(judge).ready(),
        final(judge).oracle() == old(judge).oracle(),
        final(judge).calls() == old(judge).calls().push(
            (Call {
                tree: tree_of(program@, plan.states()[i as int].persisted),
                point: plan.points@[i as int],
                marks: program@.marks.take(
                    program@.marks_before[plan.points@[i as int] as int] as int,
                ),
                verdict: verdict_of(r),
            }),
        ),
{
    let ghost p = program@;
    let point: usize = plan.points[i];
    assert(plan.points@[i as int] < p.op_end.len());
    proof {
        lemma_op_end(p, point as int);
        assert(p.marks_before[point as int] <= p.marks_before[p.marks_before.len() - 1]);
    }
    let tree = program.materialize(&plan.table.sets[i]);
    let marks = vstd::slice::slice_subrange(
        program.marks.as_slice(),
        0,
        program.marks_before[point],
    );
    let r = judge.judge(&Crash { tree: &tree, point, marks });
    assert(texts(marks@) =~= p.marks.take(p.marks_before[point as int] as int));
    r
}

/// Explores every crash state of a compiled trace.
pub fn run<J: Judge>(program: &Program, trace: &Trace, opts: &Options, judge: &mut J) -> (r: Report)
    requires
        program_sound(program@),
        searchable(program@, opts.search),
        ops_of(program@) == trace@.ops.len(),
        all_end(trace@.ops),
        old(judge).ready(),
    ensures
        final(judge).ready(),
        final(judge).oracle() == old(judge).oracle(),
        extends(final(judge).calls(), old(judge).calls()),
        is_check(
            program@,
            trace@.ops,
            *opts,
            final(judge).calls().skip(old(judge).calls().len() as int),
            r@,
        ),
{
    let ghost p = program@;
    let ghost j0 = judge.calls();
    let plan = enumerate(program, &opts.search, opts.max_states);
    let ghost states = plan.states();
    let n: usize = plan.points.len();
    let mut verdicts: Vec<Result<(), String>> = Vec::new();
    let mut i: usize = 0;
    assert(j0 + planned_calls(p, states, verdicts@).take(0) =~= j0);
    while i < n
        invariant
            i <= n,
            n == plan.points@.len(),
            p == program@,
            program_sound(p),
            plan.sound(p),
            states == plan.states(),
            judge.ready(),
            judge.oracle() == old(judge).oracle(),
            verdicts@.len() == i,
            judge.calls() == j0 + planned_calls(p, states, verdicts@).take(i as int),
        decreases n - i,
    {
        let ghost v0 = verdicts@;
        let r = ask(program, &plan, i, judge);
        verdicts.push(r);
        proof {
            let a = planned_calls(p, states, v0);
            let b = planned_calls(p, states, verdicts@);
            assert(b.take(i + 1) =~= a.take(i as int).push(b[i as int]));
            assert(j0 + b.take(i + 1) =~= (j0 + a.take(i as int)).push(b[i as int]));
        }
        i += 1;
    }
    let ghost prior = planned_calls(p, states, verdicts@);
    assert(prior.take(n as int) =~= prior);
    let ghost j1 = judge.calls();
    let r = conclude(program, trace, opts, plan, verdicts, judge);
    proof {
        let j2 = judge.calls();
        assert(j2 =~= j1 + j2.skip(j1.len() as int)) by {
            assert forall|k: int| 0 <= k < j1.len() implies j1[k] == j2[k] by {
                assert(j2.take(j1.len() as int)[k] == j2[k]);
            }
        }
        assert(j2.skip(j0.len() as int) =~= prior + j2.skip(j1.len() as int));
        assert(j2.take(j0.len() as int) =~= j0);
    }
    r
}

/// Asks a function, and remembers what it said.
pub struct Asking<F> {
    pub f: F,
    pub log: Ghost<Seq<Call>>,
}

/// Every call is one that the function can have answered so.
pub open spec fn answered_by<F: Fn(&Crash) -> Result<(), String>>(f: F, calls: Seq<Call>) -> bool {
    forall|i: int|
        0 <= i < calls.len() ==> exists|c: Crash, r: Result<(), String>|
            call_ensures(f, (&c,), r) && #[trigger] call_of(c, r) == #[trigger] calls[i]
}

impl<F: Fn(&Crash) -> Result<(), String>> Asking<F> {
    /// Nothing asked yet.
    pub fn new(f: F) -> (r: Asking<F>)
        requires
            forall|c: Crash| call_requires(f, (&c,)),
        ensures
            r.ready(),
            r.f == f,
            r.calls() == Seq::<Call>::empty(),
    {
        Asking { f, log: Ghost(Seq::empty()) }
    }
}

impl<F: Fn(&Crash) -> Result<(), String>> Judge for Asking<F> {
    type Oracle = F;

    open spec fn oracle(&self) -> F {
        self.f
    }

    open spec fn calls(&self) -> Seq<Call> {
        self.log@
    }

    open spec fn ready(&self) -> bool {
        &&& forall|c: Crash| call_requires(self.f, (&c,))
        &&& answered_by(self.f, self.log@)
    }

    fn judge(&mut self, crash: &Crash) -> (r: Result<(), String>) {
        let r = (self.f)(crash);
        let ghost before = self.log@;
        self.log = Ghost(before.push(call_of(*crash, r)));
        r
    }
}

/// A trace can be checked: it can be compiled, and if it compiles every crash
/// point can be searched.
pub open spec fn checkable(t: TraceView, opts: Options) -> bool {
    &&& compilable(t)
    &&& compiled(t, opts.profile, opts.block_size) matches Ok(p) ==> searchable(p, opts.search)
}

/// Writes that can be held in memory end at an offset that fits 64 bits.
pub proof fn lemma_all_end(t: TraceView)
    requires
        compilable(t),
    ensures
        all_end(t.ops),
{
    assert forall|i: int| 0 <= i < t.ops.len() implies op_ends(
        #[trigger] t.ops[i],
    ) by {
        assert(op_fits(t.ops[i]));
    }
}

/// Whether a trace can be compiled.
pub fn is_compilable(trace: &Trace) -> (r: bool)
    ensures
        r == compilable(trace@),
{
    let mut i: usize = 0;
    while i < trace.ops.len()
        invariant
            i <= trace.ops@.len(),
            forall|k: int| 0 <= k < i ==> op_fits(#[trigger] trace@.ops[k]),
        decreases trace.ops@.len() - i,
    {
        assert(trace@.ops[i as int] == trace.ops@[i as int]@);
        let fits = match &trace.ops[i] {
            Op::Write { offset, data, .. } => *offset <= (usize::MAX - data.len()) as u64,
            Op::Truncate { len, .. } => *len <= usize::MAX as u64,
            _ => true,
        };
        if !fits {
            assert(!op_fits(trace@.ops[i as int]));
            return false;
        }
        i += 1;
    }
    Fs::try_from_tree(&trace.initial).is_some()
}

/// Whether a trace can be checked.
pub fn is_checkable(trace: &Trace, opts: &Options) -> (r: bool)
    ensures
        r == checkable(trace@, *opts),
{
    if !is_compilable(trace) {
        return false;
    }
    match compile(trace, opts.profile, opts.block_size) {
        Ok(p) => p.can_search(&opts.search),
        Err(_) => true,
    }
}

/// Explore every crash state of `trace` and run `checker` on each.
///
/// `checker` returns `Err(reason)` when the recovered state is unacceptable.
pub fn check<F: Fn(&Crash) -> Result<(), String>>(
    trace: &Trace,
    opts: &Options,
    checker: F,
) -> (r: Result<Report, Error>)
    requires
        checkable(trace@, *opts),
        forall|c: Crash| call_requires(checker, (&c,)),
    ensures
        match r {
            Ok(report) => compiled(trace@, opts.profile, opts.block_size) is Ok
                && exists|calls: Seq<Call>| #[trigger]
                answered_by(checker, calls) && is_check(
                    compiled(trace@, opts.profile, opts.block_size)->Ok_0,
                    trace@.ops,
                    *opts,
                    calls,
                    report@,
                ),
            Err(e) => compiled(trace@, opts.profile, opts.block_size) == Err::<
                ProgramView,
                ErrorView,
            >(e@),
        },
{
    let program = match compile(trace, opts.profile, opts.block_size) {
        Ok(p) => p,
        Err(e) => {
            return Err(e);
        },
    };
    proof {
        lemma_all_end(trace@);
    }
    let mut judge = Asking::new(checker);
    let report = run(&program, trace, opts, &mut judge);
    proof {
        assert(judge.calls().skip(0) =~= judge.calls());
        assert(answered_by(checker, judge.calls()));
    }
    Ok(report)
}

} // verus!
