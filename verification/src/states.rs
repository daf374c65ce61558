//! The crash states of a compiled trace, each one once.
//!
//! Two crash states are the same to a checker when they leave the same
//! directory content behind and the same number of marks was emitted.

use crate::crash::{
    candidates_of, closed, lemma_op_end, searchable, searchable_at, sets_view, tree_of, Search,
};
use crate::laws::{holds_durable, law_candidates_hold_what_is_durable};
use crate::names::ordered;
use crate::program::{program_sound, Program, ProgramView};
use crate::trace::{Entry, EntryView, Tree, TreeView};
use vstd::prelude::*;

verus! {

/// What a checker can tell apart: the content, and how many marks were emitted.
pub struct Key {
    pub tree: TreeView,
    pub marks: usize,
}

/// A crash after `point` ops that leaves the micro-ops `persisted` on disk.
pub struct StateView {
    pub point: usize,
    pub persisted: Seq<bool>,
}

/// What a checker can tell of a state, when it is shown the first `marks` marks.
pub open spec fn key_with(p: ProgramView, persisted: Seq<bool>, marks: usize) -> Key {
    Key { tree: tree_of(p, persisted), marks }
}

/// What a checker can tell of a state.
pub open spec fn state_key(p: ProgramView, s: StateView) -> Key {
    key_with(p, s.persisted, p.marks_before[s.point as int])
}

/// The closed candidates of a crash point.
pub open spec fn states_at(p: ProgramView, search: Search, point: int) -> Seq<StateView> {
    Seq::new(
        candidates_of(p, point, search).len(),
        |i: int|
            StateView {
                point: point as usize,
                persisted: closed(p, point, candidates_of(p, point, search)[i]),
            },
    )
}

/// The states of the first `n` crash points.
pub open spec fn states_upto(p: ProgramView, search: Search, n: int) -> Seq<StateView>
    decreases n,
{
    if n <= 0 {
        Seq::empty()
    } else {
        states_upto(p, search, n - 1) + states_at(p, search, n - 1)
    }
}

/// Every state that the search comes across, in order.
pub open spec fn all_states(p: ProgramView, search: Search) -> Seq<StateView> {
    states_upto(p, search, p.op_end.len() as int)
}

/// What a checker can tell of a list of states.
pub open spec fn keys_of(p: ProgramView, states: Seq<StateView>) -> Seq<Key> {
    Seq::new(states.len(), |i: int| state_key(p, states[i]))
}

/// The states that differ, to a checker, from all before them.
pub open spec fn distinct(p: ProgramView, states: Seq<StateView>) -> Seq<StateView>
    decreases states.len(),
{
    if states.len() == 0 {
        Seq::empty()
    } else {
        let before = distinct(p, states.drop_last());
        if keys_of(p, before).contains(state_key(p, states.last())) {
            before
        } else {
            before.push(states.last())
        }
    }
}

/// The states to check: the distinct ones, up to a limit.
pub open spec fn states_to_check(p: ProgramView, search: Search, limit: usize) -> Seq<StateView> {
    let d = distinct(p, all_states(p, search));
    if d.len() > limit {
        d.take(limit as int)
    } else {
        d
    }
}

/// Whether the limit cut the enumeration short.
pub open spec fn cut_short(p: ProgramView, search: Search, limit: usize) -> bool {
    distinct(p, all_states(p, search)).len() > limit
}

/// One step of the hash.
pub open spec fn stirred(h: u64, x: u64) -> u64 {
    (h ^ x).wrapping_mul(0x100_0000_01b3)
}

pub open spec fn stirred_chars(h: u64, s: Seq<char>) -> u64
    decreases s.len(),
{
    if s.len() == 0 {
        stirred(h, 0x11_0000)
    } else {
        stirred_chars(stirred(h, s[0] as u64), s.skip(1))
    }
}

pub open spec fn stirred_bytes(h: u64, s: Seq<u8>) -> u64
    decreases s.len(),
{
    if s.len() == 0 {
        stirred(h, 0x100)
    } else {
        stirred_bytes(stirred(h, s[0] as u64), s.skip(1))
    }
}

pub open spec fn stirred_entry(h: u64, e: EntryView) -> u64 {
    match e {
        EntryView::Dir => stirred(h, 0x101),
        EntryView::File(data) => stirred_bytes(h, data),
    }
}

/// The hash of the first `n` entries of a tree.
pub open spec fn hash_upto(t: TreeView, names: Seq<Seq<char>>, n: int) -> u64
    decreases n,
{
    if n <= 0 {
        0xcbf2_9ce4_8422_2325
    } else {
        stirred_entry(stirred_chars(hash_upto(t, names, n - 1), names[n - 1]), t[names[n - 1]])
    }
}

/// The hash of a tree.
pub open spec fn hash_of(t: TreeView) -> u64 {
    hash_upto(t, ordered(t.dom()), ordered(t.dom()).len() as int)
}

fn stir(h: u64, x: u64) -> (r: u64)
    ensures
        r == stirred(h, x),
{
    (h ^ x).wrapping_mul(0x100_0000_01b3)
}

/// The hash of a tree: the same for the same content.
pub fn hash(tree: &Tree) -> (r: u64)
    ensures
        r == hash_of(tree@),
{
    let mut h: u64 = 0xcbf2_9ce4_8422_2325;
    let n: usize = tree.entries.len();
    let ghost names = tree.entries.names();
    assert(tree.entries@.dom() =~= tree@.dom());
    let mut i: usize = 0;
    while i < n
        invariant
            i <= n,
            n == names.len(),
            names == tree.entries.names(),
            h == hash_upto(tree@, names, i as int),
        decreases n - i,
    {
        let name = tree.entries.key_at(i);
        let entry = tree.entries.val_at(i);
        assert(tree@[name@] == entry@);
        let ghost h0 = h;
        let mut j: usize = 0;
        assert(name@.skip(0) =~= name@);
        while j < name.len()
            invariant
                j <= name@.len(),
                stirred_chars(h, name@.skip(j as int)) == stirred_chars(h0, name@),
            decreases name@.len() - j,
        {
            assert(name@.skip(j as int).skip(1) =~= name@.skip(j + 1));
            h = stir(h, name[j] as u64);
            j += 1;
        }
        h = stir(h, 0x11_0000);
        match entry {
            Entry::Dir => {
                h = stir(h, 0x101);
            },
            Entry::File(data) => {
                let ghost h1 = h;
                let mut j: usize = 0;
                assert(data@.skip(0) =~= data@);
                while j < data.len()
                    invariant
                        j <= data@.len(),
                        stirred_bytes(h, data@.skip(j as int)) == stirred_bytes(h1, data@),
                    decreases data@.len() - j,
                {
                    assert(data@.skip(j as int).skip(1) =~= data@.skip(j + 1));
                    h = stir(h, data[j] as u64);
                    j += 1;
                }
                h = stir(h, 0x100);
            },
        }
        i += 1;
    }
    h
}

/// How many buckets a table has.
pub const BUCKETS: usize = 4096;

/// The keys of the states seen so far, no two of them equal. A state is held by
/// the micro-ops that persisted, and found again by the hash of its content.
#[derive(Debug, PartialEq, Eq)]
pub struct Table {
    pub sets: Vec<Vec<bool>>,
    pub marks: Vec<usize>,
    pub hashes: Vec<u64>,
    pub buckets: Vec<Vec<usize>>,
}

impl Table {
    /// The key at an index.
    pub open spec fn key_at(self, p: ProgramView, i: int) -> Key {
        key_with(p, self.sets@[i]@, self.marks@[i])
    }

    /// The keys, in the order in which they were added.
    pub open spec fn keys(self, p: ProgramView) -> Seq<Key> {
        Seq::new(self.sets@.len(), |i: int| self.key_at(p, i))
    }

    /// Every key is in the bucket of its hash, and nowhere twice.
    pub open spec fn sound(self, p: ProgramView) -> bool {
        &&& self.marks@.len() == self.sets@.len()
        &&& self.hashes@.len() == self.sets@.len()
        &&& self.buckets@.len() == BUCKETS
        &&& forall|i: int|
            0 <= i < self.sets@.len() ==> {
                &&& (#[trigger] self.sets@[i])@.len() <= p.micro.len()
                &&& self.hashes@[i] == hash_of(self.key_at(p, i).tree)
                &&& self.buckets@[self.hashes@[i] as int % BUCKETS as int]@.contains(i as usize)
            }
        &&& forall|b: int, k: int|
            0 <= b < BUCKETS && 0 <= k < self.buckets@[b]@.len() ==> (#[trigger] self.buckets@[b]@[k])
                < self.sets@.len()
        &&& forall|i: int, j: int|
            0 <= i < j < self.sets@.len() ==> #[trigger] self.key_at(p, i) != #[trigger] self.key_at(
                p,
                j,
            )
    }

    /// An empty table.
    pub(crate) fn new(Ghost(p): Ghost<ProgramView>) -> (r: Table)
        ensures
            r.sound(p),
            r.keys(p) == Seq::<Key>::empty(),
    {
        let mut buckets: Vec<Vec<usize>> = Vec::new();
        let mut b: usize = 0;
        while b < BUCKETS
            invariant
                b <= BUCKETS,
                buckets@.len() == b,
                forall|k: int| 0 <= k < b ==> (#[trigger] buckets@[k])@.len() == 0,
            decreases BUCKETS - b,
        {
            buckets.push(Vec::new());
            b += 1;
        }
        let r = Table { sets: Vec::new(), marks: Vec::new(), hashes: Vec::new(), buckets };
        assert(r.keys(p) =~= Seq::<Key>::empty());
        r
    }

    /// Where a key is.
    pub fn find(&self, program: &Program, tree: &Tree, marks: usize, h: u64) -> (r: Option<usize>)
        requires
            program_sound(program@),
            self.sound(program@),
            h == hash_of(tree@),
        ensures
            match r {
                Some(i) => i < self.sets@.len() && self.key_at(program@, i as int) == (Key {
                    tree: tree@,
                    marks,
                }),
                None => !self.keys(program@).contains(Key { tree: tree@, marks }),
            },
    {
        let ghost p = program@;
        let ghost key = Key { tree: tree@, marks };
        let b: usize = (h % BUCKETS as u64) as usize;
        assert(b == h as int % BUCKETS as int);
        let total: usize = self.sets.len();
        let n: usize = self.buckets[b].len();
        let mut k: usize = 0;
        while k < n
            invariant
                k <= n,
                b < BUCKETS,
                program_sound(p),
                p == program@,
                self.sound(p),
                n == self.buckets@[b as int]@.len(),
                key == (Key { tree: tree@, marks }),
                h == hash_of(tree@),
                forall|j: int|
                    0 <= j < k ==> self.key_at(
                        p,
                        (#[trigger] self.buckets@[b as int]@[j]) as int,
                    ) != key,
            decreases n - k,
        {
            let i: usize = self.buckets[b][k];
            assert(i < self.sets@.len());
            assert(self.sets@[i as int]@.len() <= p.micro.len());
            if self.hashes[i] == h && self.marks[i] == marks {
                let other = program.materialize(&self.sets[i]);
                if other.same(tree) {
                    return Some(i);
                }
            }
            k += 1;
        }
        proof {
            if self.keys(p).contains(key) {
                let i = choose|i: int| 0 <= i < self.keys(p).len() && self.keys(p)[i] == key;
                assert(self.sets@[i]@.len() <= p.micro.len());
                assert(self.key_at(p, i) == key);
                let bucket = self.buckets@[b as int]@;
                assert(bucket.contains(i as usize));
                let j = choose|j: int| 0 <= j < bucket.len() && bucket[j] == i as usize;
                assert(i < total);
                assert(self.key_at(p, bucket[j] as int) != key);
            }
        }
        None
    }

    /// Adds a key that is not there.
    pub fn add_key(&mut self, program: &Program, set: Vec<bool>, marks: usize, h: u64)
        requires
            old(self).sound(program@),
            set@.len() <= program@.micro.len(),
            h == hash_of(tree_of(program@, set@)),
            !old(self).keys(program@).contains(key_with(program@, set@, marks)),
        ensures
            final(self).sound(program@),
            final(self).keys(program@) == old(self).keys(program@).push(
                key_with(program@, set@, marks),
            ),
            final(self).sets@ == old(self).sets@.push(set),
            final(self).marks@ == old(self).marks@.push(marks),
    {
        let ghost p = program@;
        let ghost before = *self;
        let ghost key = key_with(p, set@, marks);
        let b: usize = (h % BUCKETS as u64) as usize;
        let n: usize = self.sets.len();
        self.sets.push(set);
        self.marks.push(marks);
        self.hashes.push(h);
        {
            let bucket: &mut Vec<usize> = &mut self.buckets[b];
            bucket.push(n);
        }
        proof {
            let after = *self;
            let nb = before.buckets@[b as int]@;
            assert(after.buckets@[b as int]@ == nb.push(n));
            assert(forall|c: int|
                0 <= c < BUCKETS && c != b ==> after.buckets@[c] == before.buckets@[c]);
            assert forall|i: int| 0 <= i < n implies after.key_at(p, i) == before.key_at(p, i) by {
                assert(after.sets@[i] == before.sets@[i]);
            }
            assert(after.keys(p) =~= before.keys(p).push(key));
            assert forall|i: int| 0 <= i < after.sets@.len() implies {
                &&& (#[trigger] after.sets@[i])@.len() <= p.micro.len()
                &&& after.hashes@[i] == hash_of(after.key_at(p, i).tree)
                &&& after.buckets@[after.hashes@[i] as int % BUCKETS as int]@.contains(i as usize)
            } by {
                if i < n {
                    assert(before.sets@[i]@.len() <= p.micro.len());
                    let c = after.hashes@[i] as int % BUCKETS as int;
                    let x = choose|x: int|
                        0 <= x < before.buckets@[c]@.len() && before.buckets@[c]@[x] == i as usize;
                    assert(after.buckets@[c]@[x] == i as usize);
                } else {
                    assert(after.buckets@[b as int]@[nb.len() as int] == n);
                }
            }
            assert forall|c: int, k: int|
                0 <= c < BUCKETS && 0 <= k < after.buckets@[c]@.len() implies (
            #[trigger] after.buckets@[c]@[k]) < after.sets@.len() by {
                if c == b && k == nb.len() {
                } else {
                    assert(after.buckets@[c]@[k] == before.buckets@[c]@[k]);
                }
            }
            assert forall|i: int, j: int| 0 <= i < j < after.sets@.len() implies #[trigger]
                after.key_at(p, i) != #[trigger] after.key_at(p, j) by {
                assert(after.key_at(p, i) == before.key_at(p, i));
                if j < n {
                    assert(after.key_at(p, j) == before.key_at(p, j));
                } else {
                    assert(before.keys(p)[i] == before.key_at(p, i));
                }
            }
        }
    }
}

/// The states to check.
#[derive(Debug, PartialEq, Eq)]
pub struct Plan {
    /// The crash point of each state.
    pub points: Vec<usize>,
    /// What persisted in each state.
    pub table: Table,
    /// Whether a limit cut the enumeration short.
    pub truncated: bool,
}

impl Plan {
    /// The states.
    pub open spec fn states(self) -> Seq<StateView> {
        Seq::new(
            self.points@.len(),
            |i: int|
                StateView { point: self.points@[i], persisted: self.table.sets@[i]@ },
        )
    }

    /// The states are states of `p`, and no two are the same to a checker.
    pub open spec fn sound(self, p: ProgramView) -> bool {
        &&& self.table.sound(p)
        &&& self.points@.len() == self.table.sets@.len()
        &&& forall|i: int|
            0 <= i < self.points@.len() ==> {
                &&& (#[trigger] self.points@[i]) < p.op_end.len()
                &&& self.table.sets@[i]@.len() == p.op_end[self.points@[i] as int]
                &&& self.table.marks@[i] == p.marks_before[self.points@[i] as int]
            }
    }
}

/// More states can only add to the distinct ones.
pub proof fn lemma_distinct_extends(p: ProgramView, a: Seq<StateView>, b: Seq<StateView>)
    ensures
        distinct(p, a).len() <= distinct(p, a + b).len(),
        distinct(p, a + b).take(distinct(p, a).len() as int) == distinct(p, a),
    decreases b.len(),
{
    let d = distinct(p, a);
    if b.len() == 0 {
        assert(a + b =~= a);
        assert(d.take(d.len() as int) =~= d);
    } else {
        lemma_distinct_extends(p, a, b.drop_last());
        assert((a + b).drop_last() =~= a + b.drop_last());
        let mid = distinct(p, a + b.drop_last());
        assert(distinct(p, a + b).take(d.len() as int) =~= mid.take(d.len() as int));
    }
}

/// Adds the states of one crash point to a plan. The result tells whether the
/// limit was exceeded.
fn scan(
    program: &Program,
    point: usize,
    sets: Vec<Vec<bool>>,
    limit: usize,
    plan: &mut Plan,
    Ghost(search): Ghost<Search>,
) -> (r: bool)
    requires
        program_sound(program@),
        point < program@.op_end.len(),
        sets_view(sets@) == candidates_of(program@, point as int, search),
        old(plan).sound(program@),
        old(plan).states() == distinct(
            program@,
            states_upto(program@, search, point as int),
        ),
        old(plan).points@.len() <= limit,
        forall|i: int|
            0 <= i < sets@.len() ==> (#[trigger] sets@[i])@.len() == program@.op_end[point as int],
    ensures
        final(plan).sound(program@),
        final(plan).points@.len() <= limit,
        final(plan).truncated == old(plan).truncated,
        !r ==> final(plan).states() == distinct(
            program@,
            states_upto(program@, search, point + 1),
        ),
        r ==> {
            let d = distinct(program@, states_upto(program@, search, point + 1));
            &&& d.len() > limit
            &&& final(plan).states() == d.take(limit as int)
        },
{
    let ghost p = program@;
    let ghost at = states_at(p, search, point as int);
    let ghost earlier = states_upto(p, search, point as int);
    proof {
        lemma_op_end(p, point as int);
        assert(earlier + at.take(0) =~= earlier);
    }
    for set in it: sets
        invariant
            it.seq() == sets@,
            program_sound(p),
            p == program@,
            point < p.op_end.len(),
            p.op_end[point as int] <= p.micro.len(),
            at == states_at(p, search, point as int),
            earlier == states_upto(p, search, point as int),
            sets_view(sets@) == candidates_of(p, point as int, search),
            forall|i: int|
                0 <= i < sets@.len() ==> (#[trigger] sets@[i])@.len() == p.op_end[point as int],
            plan.sound(p),
            plan.points@.len() <= limit,
            plan.truncated == old(plan).truncated,
            plan.states() == distinct(p, earlier + at.take(it.index() as int)),
    {
        let ghost k = it.index() as int;
        assert(set == sets@[k]);
        assert(sets_view(sets@)[k] == set@);
        let mut persisted: Vec<bool> = set;
        program.close(point, &mut persisted);
        let ghost state = StateView { point, persisted: persisted@ };
        proof {
            assert(state == at[k]);
            assert((earlier + at.take(k + 1)).drop_last() =~= earlier + at.take(k));
            assert((earlier + at.take(k + 1)).last() == state);
        }
        let tree = program.materialize(&persisted);
        let h: u64 = hash(&tree);
        let marks: usize = program.marks_before[point];
        let ghost before = *plan;
        assert(keys_of(p, plan.states()) =~= plan.table.keys(p)) by {
            assert forall|i: int| 0 <= i < plan.points@.len() implies #[trigger] keys_of(
                p,
                plan.states(),
            )[i] == plan.table.keys(p)[i] by {
                assert(plan.points@[i] < p.op_end.len());
            }
        }
        let known = plan.table.find(program, &tree, marks, h);
        if let Some(i) = known {
            assert(before.table.keys(p)[i as int] == state_key(p, state));
        } else {
            if plan.points.len() == limit {
                proof {
                    let d0 = distinct(p, earlier + at.take(k));
                    let d1 = distinct(p, earlier + at.take(k + 1));
                    assert(d1 == d0.push(state));
                    assert(at =~= at.take(k + 1) + at.skip(k + 1));
                    assert(earlier + at =~= (earlier + at.take(k + 1)) + at.skip(k + 1));
                    lemma_distinct_extends(p, earlier + at.take(k + 1), at.skip(k + 1));
                    let d = distinct(p, earlier + at);
                    assert(d.take(limit as int) =~= d.take(d1.len() as int).take(limit as int));
                    assert(d1.take(limit as int) =~= d0);
                }
                return true;
            }
            plan.points.push(point);
            plan.table.add_key(program, persisted, marks, h);
            proof {
                let after = *plan;
                assert(after.states() =~= before.states().push(state));
            }
        }
    }
    assert(at.take(at.len() as int) =~= at);
    false
}

/// Enumerates the crash states of a compiled trace, each one once, up to a
/// limit.
pub fn enumerate(program: &Program, search: &Search, limit: usize) -> (r: Plan)
    requires
        program_sound(program@),
        searchable(program@, *search),
    ensures
        r.sound(program@),
        r.states() == states_to_check(program@, *search, limit),
        r.truncated == cut_short(program@, *search, limit),
{
    let ghost p = program@;
    let mut plan = Plan {
        points: Vec::new(),
        table: Table::new(Ghost(program@)),
        truncated: false,
    };
    let n: usize = program.op_end.len();
    let ghost all = all_states(p, *search);
    assert(plan.states() =~= Seq::<StateView>::empty());
    assert(plan.table.keys(p).len() == plan.table.sets@.len());
    let mut point: usize = 0;
    while point < n
        invariant
            point <= n,
            n == p.op_end.len(),
            p == program@,
            program_sound(p),
            searchable(p, *search),
            plan.sound(p),
            !plan.truncated,
            plan.points@.len() <= limit,
            plan.states() == distinct(p, states_upto(p, *search, point as int)),
            all == all_states(p, *search),
        decreases n - point,
    {
        assert(searchable_at(p, point as int, *search));
        let sets = program.candidates(point, search);
        proof {
            law_candidates_hold_what_is_durable(p, point as int, *search);
            assert forall|i: int| 0 <= i < sets@.len() implies (#[trigger] sets@[i])@.len()
                == p.op_end[point as int] by {
                assert(sets_view(sets@)[i] == sets@[i]@);
                assert(holds_durable(p, point as int, sets_view(sets@)[i]));
            }
        }
        if scan(program, point, sets, limit, &mut plan, Ghost(*search)) {
            proof {
                lemma_states_extend(p, *search, point + 1, n as int);
                let a = states_upto(p, *search, point + 1);
                let b = all.skip(a.len() as int);
                assert(all =~= a + b);
                lemma_distinct_extends(p, a, b);
                let d = distinct(p, all);
                let d1 = distinct(p, a);
                assert(d.take(limit as int) =~= d.take(d1.len() as int).take(limit as int));
            }
            plan.truncated = true;
            assert(plan.states() == states_to_check(p, *search, limit));
            return plan;
        }
        point += 1;
    }
    plan
}

/// The states of fewer crash points come first.
proof fn lemma_states_extend(p: ProgramView, search: Search, i: int, n: int)
    requires
        0 <= i <= n,
    ensures
        states_upto(p, search, i).len() <= states_upto(p, search, n).len(),
        states_upto(p, search, n).take(states_upto(p, search, i).len() as int) == states_upto(
            p,
            search,
            i,
        ),
    decreases n - i,
{
    let a = states_upto(p, search, i);
    if i < n {
        lemma_states_extend(p, search, i, n - 1);
        assert(states_upto(p, search, n).take(a.len() as int) =~= states_upto(
            p,
            search,
            n - 1,
        ).take(a.len() as int));
    } else {
        assert(a.take(a.len() as int) =~= a);
    }
}

} // verus!
