//! Crash-state enumeration.
//!
//! A crash after the first `k` trace ops leaves on disk every micro-op made
//! durable by a barrier among those `k` ops, plus *some* subset of the rest.
//! The profile constrains which subsets are legal; candidate subsets come from
//! a fixed battery of strategies (exhaustive when small) and are then closed
//! under the profile's rules.

use crate::model::{applied, fs_sound, is_meta, listed, FsView, Ino, Micro, MicroView, Profile};
use crate::program::{micro_op_sound, program_sound, Program, ProgramView};
use crate::trace::{Tree, TreeView};
use vstd::prelude::*;

verus! {

/// Knobs for how hard to search.
#[derive(Debug, Clone, Copy, PartialEq, Eq)]
pub struct Search {
    /// Enumerate every subset when at most this many micro-ops are in flight.
    pub exhaustive_limit: usize,
    /// Random subsets to add at each crash point beyond the exhaustive limit.
    pub samples: usize,
    pub seed: u64,
}

impl Default for Search {
    fn default() -> (r: Search)
        ensures
            r == (Search { exhaustive_limit: 10, samples: 32, seed: 0x5eed }),
    {
        Search { exhaustive_limit: 10, samples: 32, seed: 0x5eed }
    }
}

/// The micro-ops, among the first `n`, that may or may not have persisted at a
/// crash after `point` ops.
pub open spec fn flight_upto(p: ProgramView, point: int, n: int) -> Seq<usize>
    decreases n,
{
    if n <= 0 {
        Seq::empty()
    } else {
        let before = flight_upto(p, point, n - 1);
        if p.micro[n - 1].durable_at >= point {
            before.push((n - 1) as usize)
        } else {
            before
        }
    }
}

/// The micro-ops that may or may not have persisted at a crash after `point`
/// ops.
pub open spec fn flight(p: ProgramView, point: int) -> Seq<usize> {
    flight_upto(p, point, p.op_end[point] as int)
}

/// The persisted-set that holds what is durable, and of the rest what `keep`
/// picks: it is told how many micro-ops in flight come before, and the index.
pub open spec fn chosen(p: ProgramView, point: int, keep: spec_fn(int, int) -> bool) -> Seq<bool> {
    Seq::new(
        p.op_end[point] as nat,
        |j: int|
            p.micro[j].durable_at < point || keep(
                flight_upto(p, point, j).len() as int,
                j,
            ),
    )
}

/// A bit of a number.
pub open spec fn bit(mask: u64, pos: int) -> bool {
    (mask >> (pos as u64)) & 1u64 == 1u64
}

/// Two to the power `m`, for `m` below 64.
pub open spec fn subsets(m: nat) -> nat
    decreases m,
{
    if m == 0 {
        1
    } else {
        2 * subsets((m - 1) as nat)
    }
}

/// Every subset of what is in flight.
pub open spec fn every(p: ProgramView, point: int) -> Seq<Seq<bool>> {
    Seq::new(
        subsets(flight(p, point).len()),
        |mask: int| chosen(p, point, |pos: int, j: int| bit(mask as u64, pos)),
    )
}

/// For each of the first `m` micro-ops in flight: exactly that one lost, and
/// in-order persistence cut there.
pub open spec fn singles(p: ProgramView, point: int, m: int) -> Seq<Seq<bool>>
    decreases m,
{
    if m <= 0 {
        Seq::empty()
    } else {
        singles(p, point, m - 1).push(chosen(p, point, |pos: int, j: int| pos != m - 1)).push(
            chosen(p, point, |pos: int, j: int| pos < m - 1),
        )
    }
}

/// The ops that the first `m` micro-ops in flight belong to, each run of
/// equals once.
pub open spec fn ops_in_flight(p: ProgramView, point: int, m: int) -> Seq<usize>
    decreases m,
{
    if m <= 0 {
        Seq::empty()
    } else {
        let before = ops_in_flight(p, point, m - 1);
        let op = p.micro[flight(p, point)[m - 1] as int].op;
        if before.len() > 0 && before.last() == op {
            before
        } else {
            before.push(op)
        }
    }
}

/// One whole op lost, for each of `ops`.
pub open spec fn whole_ops(p: ProgramView, point: int, ops: Seq<usize>) -> Seq<Seq<bool>> {
    Seq::new(
        ops.len(),
        |i: int| chosen(p, point, |pos: int, j: int| p.micro[j].op != ops[i]),
    )
}

/// The state of the generator one step on.
pub open spec fn stepped(state: u64) -> u64 {
    state.wrapping_add(0x9e37_79b9_7f4a_7c15)
}

/// The state of the generator `n` steps on.
pub open spec fn stepped_by(state: u64, n: nat) -> u64
    decreases n,
{
    if n == 0 {
        state
    } else {
        stepped(stepped_by(state, (n - 1) as nat))
    }
}

/// The number that a state of the generator stands for.
pub open spec fn mixed(state: u64) -> u64 {
    let a = (state ^ (state >> 30)).wrapping_mul(0xbf58_476d_1ce4_e5b9);
    let b = (a ^ (a >> 27)).wrapping_mul(0x94d0_49bb_1331_11eb);
    b ^ (b >> 31)
}

/// The `pos`-th coin after a state of the generator.
pub open spec fn coin(state: u64, pos: int) -> bool {
    mixed(stepped_by(state, (pos + 1) as nat)) & 1u64 == 1u64
}

/// `count` random subsets of `m` micro-ops in flight.
pub open spec fn sampled(p: ProgramView, point: int, m: nat, state: u64, count: nat) -> Seq<
    Seq<bool>,
>
    decreases count,
{
    if count == 0 {
        Seq::empty()
    } else {
        seq![chosen(p, point, |pos: int, j: int| coin(state, pos))] + sampled(
            p,
            point,
            m,
            stepped_by(state, m),
            (count - 1) as nat,
        )
    }
}

/// Where the generator starts at a crash point.
pub open spec fn started(seed: u64, point: int) -> u64 {
    seed ^ (point as u64).wrapping_mul(0x9e37_79b9_7f4a_7c15)
}

/// The candidate persisted-sets for a crash after `point` ops: every subset
/// when few micro-ops are in flight; otherwise all, none, each lost alone, each
/// in-order prefix, each whole op lost, and random ones.
pub open spec fn candidates_of(p: ProgramView, point: int, search: Search) -> Seq<Seq<bool>> {
    let m = flight(p, point).len();
    if m <= search.exhaustive_limit {
        every(p, point)
    } else {
        seq![
            chosen(p, point, |pos: int, j: int| true),
            chosen(p, point, |pos: int, j: int| false),
        ] + singles(p, point, m as int) + whole_ops(
            p,
            point,
            ops_in_flight(p, point, m as int),
        ) + sampled(p, point, m, started(search.seed, point), search.samples as nat)
    }
}

/// Where the search is exhaustive, the subsets can be numbered with 64 bits.
pub open spec fn searchable_at(p: ProgramView, point: int, search: Search) -> bool {
    flight(p, point).len() <= search.exhaustive_limit ==> flight(p, point).len() < 64
}

/// Every crash point can be searched.
pub open spec fn searchable(p: ProgramView, search: Search) -> bool {
    forall|point: int| 0 <= point < p.op_end.len() ==> #[trigger] searchable_at(p, point, search)
}

/// Persisted for certain: told so, or durable before the crash.
pub open spec fn held(p: ProgramView, point: int, s: Seq<bool>, j: int) -> bool {
    s[j] || p.micro[j].durable_at < point
}

/// A metadata micro-op that is persisted, or stands before a persisted one.
pub open spec fn meta_held(p: ProgramView, point: int, s: Seq<bool>, j: int) -> bool {
    exists|k: int|
        j <= k < s.len() && is_meta(p.micro[k].m) && #[trigger] held(p, point, s, k)
}

/// Whether a micro-op persists only after every earlier write to `ino`: the
/// size of an extending write, and a rename that replaces a file.
pub open spec fn orders_writes(m: MicroView, ino: Ino) -> bool {
    match m {
        MicroView::SetLen { ino: f, keep_tail, .. } => f == ino && keep_tail,
        MicroView::Rename { ino: f, replaces, .. } => f == ino && replaces,
        _ => false,
    }
}

/// Whether a micro-op belongs to the smallest legal state that holds `s`.
pub open spec fn closed_at(p: ProgramView, point: int, s: Seq<bool>, j: int) -> bool {
    if p.profile != Profile::Ext4Ordered {
        held(p, point, s, j)
    } else {
        match p.micro[j].m {
            MicroView::Write { ino, .. } => held(p, point, s, j) || exists|k: int|
                j < k < s.len() && orders_writes(p.micro[k].m, ino) && #[trigger] meta_held(
                    p,
                    point,
                    s,
                    k,
                ),
            _ => meta_held(p, point, s, j),
        }
    }
}

/// The smallest legal state that holds `s`.
pub open spec fn closed(p: ProgramView, point: int, s: Seq<bool>) -> Seq<bool> {
    Seq::new(s.len(), |j: int| closed_at(p, point, s, j))
}

/// Whether a state may be on disk after a crash: it holds what is durable and,
/// with a journal, metadata is persisted in order, and a size extension or a
/// replacing rename only after the data.
pub open spec fn legal(p: ProgramView, point: int, s: Seq<bool>) -> bool {
    &&& s.len() == p.op_end[point]
    &&& forall|j: int| 0 <= j < s.len() && p.micro[j].durable_at < point ==> #[trigger] s[j]
    &&& p.profile == Profile::Ext4Ordered ==> {
        &&& forall|j: int, k: int|
            0 <= j < k < s.len() && is_meta(p.micro[j].m) && is_meta(p.micro[k].m)
                && #[trigger] s[k] ==> #[trigger] s[j]
        &&& forall|j: int, k: int|
            0 <= j < k < s.len() && (p.micro[j].m matches MicroView::Write { ino, .. }
                && orders_writes(p.micro[k].m, ino)) && #[trigger] s[k] ==> #[trigger] s[j]
    }
}

/// Whether the second state holds all that the first does.
pub open spec fn within(a: Seq<bool>, b: Seq<bool>) -> bool {
    &&& a.len() == b.len()
    &&& forall|j: int| 0 <= j < a.len() && #[trigger] a[j] ==> b[j]
}

/// The image after the persisted ones of the first `n` micro-ops.
pub open spec fn survived(p: ProgramView, s: Seq<bool>, n: int) -> FsView
    decreases n,
{
    if n <= 0 {
        p.base
    } else {
        let before = survived(p, s, n - 1);
        if s[n - 1] {
            applied(before, p.micro[n - 1].m)
        } else {
            before
        }
    }
}

/// The directory tree that a crash state leaves behind.
pub open spec fn tree_of(p: ProgramView, s: Seq<bool>) -> TreeView {
    listed(survived(p, s, s.len() as int))
}

pub proof fn lemma_flight_upto(p: ProgramView, point: int, n: int)
    requires
        0 <= n <= p.micro.len(),
        p.micro.len() <= usize::MAX,
    ensures
        flight_upto(p, point, n).len() <= n,
        forall|k: int|
            0 <= k < flight_upto(p, point, n).len() ==> {
                let j = #[trigger] flight_upto(p, point, n)[k];
                &&& j < n
                &&& p.micro[j as int].durable_at >= point
                &&& flight_upto(p, point, j as int).len() == k
            },
    decreases n,
{
    if n > 0 {
        lemma_flight_upto(p, point, n - 1);
    }
}

pub proof fn lemma_op_end(p: ProgramView, point: int)
    requires
        program_sound(p),
        0 <= point < p.op_end.len(),
    ensures
        p.op_end[point] <= p.micro.len() <= usize::MAX,
{
    assert(p.op_end[point] <= p.op_end[p.op_end.len() - 1]);
}

/// What is in flight among fewer micro-ops comes first.
pub proof fn lemma_flight_prefix(p: ProgramView, point: int, i: int, n: int)
    requires
        0 <= i <= n,
    ensures
        flight_upto(p, point, i).len() <= flight_upto(p, point, n).len(),
        forall|k: int|
            0 <= k < flight_upto(p, point, i).len() ==> #[trigger] flight_upto(p, point, i)[k]
                == flight_upto(p, point, n)[k],
    decreases n - i,
{
    if i < n {
        lemma_flight_prefix(p, point, i, n - 1);
    }
}

pub proof fn lemma_subsets(m: nat)
    requires
        m < 64,
    ensures
        subsets(m) == 1u64 << (m as u64),
    decreases m,
{
    if m == 0 {
        assert(1u64 << 0u64 == 1u64) by (bit_vector);
    } else {
        lemma_subsets((m - 1) as nat);
        let k = (m - 1) as u64;
        assert(k < 63 ==> 2 * (1u64 << k) == 1u64 << ((k + 1) as u64)) by (bit_vector);
    }
}

/// What a list of persisted-sets says.
pub open spec fn sets_view(v: Seq<Vec<bool>>) -> Seq<Seq<bool>> {
    Seq::new(v.len(), |i: int| v[i]@)
}

/// `n` times the same.
fn filled(n: usize, b: bool) -> (r: Vec<bool>)
    ensures
        r@ == Seq::new(n as nat, |i: int| b),
{
    let mut r: Vec<bool> = Vec::new();
    let mut i: usize = 0;
    while i < n
        invariant
            i <= n,
            r@.len() == i,
            forall|k: int| 0 <= k < i ==> #[trigger] r@[k] == b,
        decreases n - i,
    {
        r.push(b);
        i += 1;
    }
    assert(r@ =~= Seq::new(n as nat, |i: int| b));
    r
}

impl Program {
    /// Micro-ops (of the first `point` ops) that may or may not have persisted.
    pub fn in_flight(&self, point: usize) -> (r: Vec<usize>)
        requires
            program_sound(self@),
            point < self@.op_end.len(),
        ensures
            r@ == flight(self@, point as int),
    {
        proof {
            lemma_op_end(self@, point as int);
        }
        let n: usize = self.op_end[point];
        let mut r: Vec<usize> = Vec::new();
        let mut j: usize = 0;
        while j < n
            invariant
                j <= n <= self.micro@.len(),
                r@ == flight_upto(self@, point as int, j as int),
            decreases n - j,
        {
            assert(self@.micro[j as int] == self.micro@[j as int]@);
            if self.micro[j].durable_at >= point {
                r.push(j);
            }
            j += 1;
        }
        r
    }

    /// Whether every crash point can be searched.
    pub fn can_search(&self, search: &Search) -> (r: bool)
        requires
            program_sound(self@),
        ensures
            r == searchable(self@, *search),
    {
        let n: usize = self.op_end.len();
        let mut point: usize = 0;
        while point < n
            invariant
                point <= n,
                n == self@.op_end.len(),
                program_sound(self@),
                forall|k: int| 0 <= k < point ==> #[trigger] searchable_at(self@, k, *search),
            decreases n - point,
        {
            let m: usize = self.in_flight(point).len();
            if m <= search.exhaustive_limit && m >= 64 {
                assert(!searchable_at(self@, point as int, *search));
                return false;
            }
            assert(searchable_at(self@, point as int, *search));
            point += 1;
        }
        true
    }

    /// The persisted-set that holds what is durable, and of the rest what
    /// `keep` says, by position among the micro-ops in flight.
    fn pick(
        &self,
        point: usize,
        keep: &Vec<bool>,
        Ghost(f): Ghost<spec_fn(int, int) -> bool>,
    ) -> (r: Vec<bool>)
        requires
            program_sound(self@),
            point < self@.op_end.len(),
            keep@.len() == flight(self@, point as int).len(),
            forall|k: int|
                0 <= k < keep@.len() ==> #[trigger] keep@[k] == f(
                    k,
                    flight(self@, point as int)[k] as int,
                ),
        ensures
            r@ == chosen(self@, point as int, f),
    {
        let ghost p = self@;
        proof {
            lemma_op_end(p, point as int);
            lemma_flight_upto(p, point as int, p.op_end[point as int] as int);
        }
        let n: usize = self.op_end[point];
        let total: usize = keep.len();
        let mut r: Vec<bool> = Vec::new();
        let mut pos: usize = 0;
        let mut j: usize = 0;
        while j < n
            invariant
                j <= n <= self.micro@.len(),
                p == self@,
                point < p.op_end.len(),
                total == keep@.len(),
                n == p.op_end[point as int],
                r@.len() == j,
                pos == flight_upto(p, point as int, j as int).len(),
                keep@.len() == flight(p, point as int).len(),
                forall|k: int|
                    0 <= k < keep@.len() ==> #[trigger] keep@[k] == f(
                        k,
                        flight(p, point as int)[k] as int,
                    ),
                forall|k: int|
                    0 <= k < j ==> #[trigger] r@[k] == chosen(p, point as int, f)[k],
            decreases n - j,
        {
            let x = &self.micro[j];
            assert(x@ == p.micro[j as int]);
            if x.durable_at < point {
                r.push(true);
            } else {
                proof {
                    lemma_flight_prefix(p, point as int, j + 1, n as int);
                    assert(flight_upto(p, point as int, j + 1)[pos as int] == j);
                }
                r.push(keep[pos]);
                pos += 1;
            }
            j += 1;
        }
        assert(r@ =~= chosen(p, point as int, f));
        r
    }

    /// Candidate persisted-sets for a crash after `point` ops (not yet closed).
    pub fn candidates(&self, point: usize, search: &Search) -> (r: Vec<Vec<bool>>)
        requires
            program_sound(self@),
            point < self@.op_end.len(),
            searchable_at(self@, point as int, *search),
        ensures
            sets_view(r@) == candidates_of(self@, point as int, *search),
    {
        let flight = self.in_flight(point);
        if flight.len() <= search.exhaustive_limit {
            self.all_subsets(point, flight.len())
        } else {
            self.battery(point, &flight, search)
        }
    }

    fn all_subsets(&self, point: usize, m: usize) -> (r: Vec<Vec<bool>>)
        requires
            program_sound(self@),
            point < self@.op_end.len(),
            m == flight(self@, point as int).len(),
            m < 64,
        ensures
            sets_view(r@) == every(self@, point as int),
    {
        let ghost p = self@;
        proof {
            lemma_subsets(m as nat);
        }
        let n: u64 = 1u64 << (m as u64);
        let mut out: Vec<Vec<bool>> = Vec::new();
        let mut mask: u64 = 0;
        while mask < n
            invariant
                mask <= n,
                p == self@,
                program_sound(p),
                point < p.op_end.len(),
                m == flight(p, point as int).len(),
                m < 64,
                n == subsets(m as nat),
                out@.len() == mask,
                forall|k: int|
                    0 <= k < mask ==> (#[trigger] out@[k])@ == every(p, point as int)[k],
            decreases n - mask,
        {
            let mut keep: Vec<bool> = Vec::new();
            let mut pos: usize = 0;
            while pos < m
                invariant
                    pos <= m < 64,
                    keep@.len() == pos,
                    forall|k: int| 0 <= k < pos ==> #[trigger] keep@[k] == bit(mask, k),
                decreases m - pos,
            {
                keep.push((mask >> (pos as u64)) & 1u64 == 1u64);
                pos += 1;
            }
            let ghost f = |pos: int, j: int| bit(mask, pos);
            let set = self.pick(point, &keep, Ghost(f));
            assert(set@ == every(p, point as int)[mask as int]) by {
                let g = |pos: int, j: int| bit((mask as int) as u64, pos);
                assert(f =~= g);
            }
            out.push(set);
            mask += 1;
        }
        assert(sets_view(out@) =~= every(p, point as int));
        out
    }

    fn battery(&self, point: usize, flight_now: &Vec<usize>, search: &Search) -> (r: Vec<
        Vec<bool>,
    >)
        requires
            program_sound(self@),
            point < self@.op_end.len(),
            flight_now@ == flight(self@, point as int),
            flight_now@.len() > search.exhaustive_limit,
        ensures
            sets_view(r@) == candidates_of(self@, point as int, *search),
    {
        let ghost p = self@;
        let ghost pt = point as int;
        proof {
            lemma_op_end(p, pt);
            lemma_flight_upto(p, pt, p.op_end[pt] as int);
        }
        let m: usize = flight_now.len();
        let mut out: Vec<Vec<bool>> = Vec::new();
        let keep = filled(m, true);
        out.push(self.pick(point, &keep, Ghost(|pos: int, j: int| true)));
        let keep = filled(m, false);
        out.push(self.pick(point, &keep, Ghost(|pos: int, j: int| false)));
        let ghost first = seq![
            chosen(p, pt, |pos: int, j: int| true),
            chosen(p, pt, |pos: int, j: int| false),
        ];
        assert(sets_view(out@) =~= first);
        assert(first + singles(p, pt, 0) =~= first);
        let mut skip: usize = 0;
        while skip < m
            invariant
                skip <= m,
                m == flight(p, pt).len(),
                p == self@,
                pt == point,
                program_sound(p),
                point < p.op_end.len(),
                sets_view(out@) == first + singles(p, pt, skip as int),
            decreases m - skip,
        {
            let ghost before = sets_view(out@);
            let mut keep = filled(m, true);
            keep.set(skip, false);
            let ghost f = |pos: int, j: int| pos != (skip + 1) - 1;
            let one = self.pick(point, &keep, Ghost(f));
            let mut keep: Vec<bool> = Vec::new();
            let mut pos: usize = 0;
            while pos < m
                invariant
                    pos <= m,
                    keep@.len() == pos,
                    forall|k: int| 0 <= k < pos ==> #[trigger] keep@[k] == (k < skip),
                decreases m - pos,
            {
                keep.push(pos < skip);
                pos += 1;
            }
            let ghost g = |pos: int, j: int| pos < (skip + 1) - 1;
            let cut = self.pick(point, &keep, Ghost(g));
            out.push(one);
            out.push(cut);
            assert(sets_view(out@) =~= before.push(one@).push(cut@));
            assert(first + singles(p, pt, skip + 1) =~= (first + singles(p, pt, skip as int)).push(
                one@,
            ).push(cut@));
            skip += 1;
        }
        self.lose_ops(point, flight_now, &mut out);
        let ghost third = sets_view(out@);
        let mut rng: u64 = search.seed ^ (point as u64).wrapping_mul(0x9e37_79b9_7f4a_7c15);
        let mut left: usize = search.samples;
        let ghost whole = candidates_of(p, pt, *search);
        assert(whole == third + sampled(p, pt, m as nat, rng, left as nat));
        while left > 0
            invariant
                left <= search.samples,
                m == flight(p, pt).len(),
                p == self@,
                pt == point,
                program_sound(p),
                point < p.op_end.len(),
                whole == sets_view(out@) + sampled(p, pt, m as nat, rng, left as nat),
            decreases left,
        {
            let ghost state = rng;
            let ghost before = sets_view(out@);
            let mut keep: Vec<bool> = Vec::new();
            let mut pos: usize = 0;
            while pos < m
                invariant
                    pos <= m,
                    keep@.len() == pos,
                    rng == stepped_by(state, pos as nat),
                    forall|k: int| 0 <= k < pos ==> #[trigger] keep@[k] == coin(state, k),
                decreases m - pos,
            {
                let x: u64 = splitmix(&mut rng);
                keep.push(x & 1u64 == 1u64);
                pos += 1;
            }
            let ghost f = |pos: int, j: int| coin(state, pos);
            let set = self.pick(point, &keep, Ghost(f));
            out.push(set);
            left = left - 1;
            assert(sets_view(out@) =~= before.push(set@));
            assert(before + (seq![set@] + sampled(p, pt, m as nat, rng, left as nat)) =~= before.push(
                set@,
            ) + sampled(p, pt, m as nat, rng, left as nat));
        }
        assert(sets_view(out@) + sampled(p, pt, m as nat, rng, 0) =~= sets_view(out@));
        out
    }

    fn lose_ops(&self, point: usize, flight_now: &Vec<usize>, out: &mut Vec<Vec<bool>>)
        requires
            program_sound(self@),
            point < self@.op_end.len(),
            flight_now@ == flight(self@, point as int),
        ensures
            sets_view(final(out)@) == sets_view(old(out)@) + whole_ops(
                self@,
                point as int,
                ops_in_flight(self@, point as int, flight_now@.len() as int),
            ),
    {
        let ghost p = self@;
        let ghost pt = point as int;
        proof {
            lemma_op_end(p, pt);
            lemma_flight_upto(p, pt, p.op_end[pt] as int);
        }
        let m: usize = flight_now.len();
        let mut ops: Vec<usize> = Vec::new();
        let mut i: usize = 0;
        while i < m
            invariant
                i <= m,
                m == flight_now@.len(),
                flight_now@ == flight(p, pt),
                p == self@,
                forall|k: int| 0 <= k < m ==> (#[trigger] flight_now@[k]) < self.micro@.len(),
                ops@ == ops_in_flight(p, pt, i as int),
            decreases m - i,
        {
            let j: usize = flight_now[i];
            assert(self.micro@[j as int]@ == p.micro[j as int]);
            let op: usize = self.micro[j].op;
            let again = ops.len() > 0 && ops[ops.len() - 1] == op;
            if !again {
                ops.push(op);
            }
            i += 1;
        }
        let ghost old_out = sets_view(out@);
        let ghost lost = whole_ops(p, pt, ops@);
        let mut a: usize = 0;
        assert(old_out + lost.take(0) =~= old_out);
        while a < ops.len()
            invariant
                a <= ops@.len(),
                m == flight_now@.len(),
                flight_now@ == flight(p, pt),
                p == self@,
                pt == point,
                program_sound(p),
                point < p.op_end.len(),
                lost == whole_ops(p, pt, ops@),
                forall|k: int| 0 <= k < m ==> (#[trigger] flight_now@[k]) < self.micro@.len(),
                sets_view(out@) == old_out + lost.take(a as int),
            decreases ops@.len() - a,
        {
            let ghost before = sets_view(out@);
            let op: usize = ops[a];
            let mut keep: Vec<bool> = Vec::new();
            let mut pos: usize = 0;
            while pos < m
                invariant
                    pos <= m,
                    m == flight_now@.len(),
                    p == self@,
                    keep@.len() == pos,
                    forall|k: int| 0 <= k < m ==> (#[trigger] flight_now@[k]) < self.micro@.len(),
                    forall|k: int|
                        0 <= k < pos ==> #[trigger] keep@[k] == (p.micro[flight_now@[k] as int].op
                            != op),
                decreases m - pos,
            {
                let j: usize = flight_now[pos];
                assert(self.micro@[j as int]@ == p.micro[j as int]);
                keep.push(self.micro[j].op != op);
                pos += 1;
            }
            let ghost f = |pos: int, j: int| p.micro[j].op != ops@[a as int];
            let set = self.pick(point, &keep, Ghost(f));
            out.push(set);
            assert(sets_view(out@) =~= before.push(set@));
            assert(lost.take(a + 1) =~= lost.take(a as int).push(lost[a as int]));
            assert(old_out + lost.take(a + 1) =~= (old_out + lost.take(a as int)).push(
                lost[a as int],
            ));
            a += 1;
        }
        assert(lost.take(lost.len() as int) =~= lost);
    }

    /// Extend `persisted` (length `op_end[point]`) to the smallest legal state.
    pub fn close(&self, point: usize, persisted: &mut Vec<bool>)
        requires
            program_sound(self@),
            old(persisted)@.len() <= self@.micro.len(),
        ensures
            final(persisted)@ == closed(self@, point as int, old(persisted)@),
    {
        let ghost p = self@;
        let ghost s = persisted@;
        let n: usize = persisted.len();
        // One more than the index of the last persisted metadata micro-op.
        let mut last: usize = 0;
        let mut j: usize = 0;
        while j < n
            invariant
                j <= n,
                n == s.len(),
                n <= self.micro@.len(),
                p == self@,
                persisted@.len() == n,
                last <= j,
                last > 0 ==> is_meta(p.micro[last - 1].m) && held(p, point as int, s, last - 1),
                forall|k: int|
                    last <= k < j && is_meta(p.micro[k].m) ==> !#[trigger] held(
                        p,
                        point as int,
                        s,
                        k,
                    ),
                forall|k: int|
                    0 <= k < n ==> #[trigger] persisted@[k] == (if k < j {
                        held(p, point as int, s, k)
                    } else {
                        s[k]
                    }),
            decreases n - j,
        {
            let x = &self.micro[j];
            assert(x@ == p.micro[j as int]);
            if x.durable_at < point {
                persisted.set(j, true);
            }
            if persisted[j] && x.m.is_meta() {
                last = j + 1;
            }
            j += 1;
        }
        match self.profile {
            Profile::Ext4Ordered => {
                self.close_ordered(last, persisted, Ghost(point as int), Ghost(s));
            },
            Profile::Posix => {
                assert(persisted@ =~= closed(p, point as int, s));
            },
        }
    }

    fn close_ordered(
        &self,
        last: usize,
        persisted: &mut Vec<bool>,
        Ghost(point): Ghost<int>,
        Ghost(s): Ghost<Seq<bool>>,
    )
        requires
            program_sound(self@),
            self@.profile == Profile::Ext4Ordered,
            s.len() <= self@.micro.len(),
            old(persisted)@.len() == s.len(),
            last <= s.len(),
            last > 0 ==> is_meta(self@.micro[last - 1].m) && held(self@, point, s, last - 1),
            forall|k: int|
                last <= k < s.len() && is_meta(self@.micro[k].m) ==> !#[trigger] held(
                    self@,
                    point,
                    s,
                    k,
                ),
            forall|k: int|
                0 <= k < s.len() ==> #[trigger] old(persisted)@[k] == held(self@, point, s, k),
        ensures
            final(persisted)@ == closed(self@, point, s),
    {
        let ghost p = self@;
        let n: usize = persisted.len();
        assert forall|k: int| 0 <= k < n implies #[trigger] meta_held(p, point, s, k) == (k
            < last) by {
            if k < last {
                assert(held(p, point, s, last - 1));
            }
        }
        // For each inode, one more than the last persisted micro-op that orders
        // the writes to it.
        let inodes: usize = self.base.nodes.len();
        let mut until: Vec<usize> = Vec::new();
        let mut i: usize = 0;
        while i < inodes
            invariant
                i <= inodes,
                until@.len() == i,
                forall|f: int| 0 <= f < i ==> #[trigger] until@[f] == 0,
            decreases inodes - i,
        {
            until.push(0);
            i += 1;
        }
        // Journaled metadata commits in order: persisted metadata is a prefix.
        let mut j: usize = 0;
        while j < n
            invariant
                j <= n,
                n == s.len(),
                n <= self.micro@.len(),
                p == self@,
                program_sound(p),
                inodes == p.base.len(),
                last <= n,
                persisted@.len() == n,
                until@.len() == inodes,
                forall|k: int| 0 <= k < n ==> #[trigger] meta_held(p, point, s, k) == (k < last),
                forall|k: int|
                    0 <= k < n ==> #[trigger] persisted@[k] == (if k < j && is_meta(
                        p.micro[k].m,
                    ) {
                        k < last
                    } else {
                        held(p, point, s, k)
                    }),
                forall|k: int|
                    last <= k < n && is_meta(p.micro[k].m) ==> !#[trigger] held(p, point, s, k),
                forall|f: int|
                    0 <= f < inodes ==> #[trigger] until@[f] <= j && (until@[f] > 0 ==> until@[f]
                        <= last && orders_writes(p.micro[until@[f] - 1].m, f as usize)),
                forall|f: int, k: int|
                    0 <= f < inodes && #[trigger] until@[f] <= k < j && k < last
                        ==> !orders_writes(#[trigger] p.micro[k].m, f as usize),
            decreases n - j,
        {
            let x = &self.micro[j];
            assert(x@ == p.micro[j as int]);
            assert(micro_op_sound(p, j as int));
            if x.m.is_meta() {
                if j < last {
                    persisted.set(j, true);
                }
            }
            if j < last {
                match x.m {
                    Micro::SetLen { ino, keep_tail: true, .. } => {
                        until.set(ino, j + 1);
                    },
                    Micro::Rename { ino, replaces: true, .. } => {
                        until.set(ino, j + 1);
                    },
                    _ => {},
                }
            }
            j += 1;
        }
        // A size extension commits only after its data; a replacing rename
        // flushes the renamed file first.
        let ghost mid = persisted@;
        let mut j: usize = 0;
        while j < n
            invariant
                j <= n,
                n == s.len(),
                n <= self.micro@.len(),
                p == self@,
                p.profile == Profile::Ext4Ordered,
                program_sound(p),
                inodes == p.base.len(),
                last <= n,
                persisted@.len() == n,
                until@.len() == inodes,
                forall|k: int| 0 <= k < n ==> #[trigger] meta_held(p, point, s, k) == (k < last),
                forall|k: int|
                    0 <= k < n ==> #[trigger] persisted@[k] == (if is_meta(p.micro[k].m) {
                        k < last
                    } else if k < j {
                        closed_at(p, point, s, k)
                    } else {
                        held(p, point, s, k)
                    }),
                forall|f: int|
                    0 <= f < inodes ==> #[trigger] until@[f] <= n && (until@[f] > 0 ==> until@[f]
                        <= last && orders_writes(p.micro[until@[f] - 1].m, f as usize)),
                forall|f: int, k: int|
                    0 <= f < inodes && #[trigger] until@[f] <= k < n && k < last
                        ==> !orders_writes(#[trigger] p.micro[k].m, f as usize),
            decreases n - j,
        {
            let x = &self.micro[j];
            assert(x@ == p.micro[j as int]);
            assert(micro_op_sound(p, j as int));
            if let Micro::Write { ino, .. } = x.m {
                let u: usize = until[ino];
                if u > 0 && j < u - 1 {
                    persisted.set(j, true);
                    assert(meta_held(p, point, s, u - 1));
                    assert(closed_at(p, point, s, j as int));
                } else {
                    assert(closed_at(p, point, s, j as int) == held(p, point, s, j as int)) by {
                        assert forall|k: int|
                            j < k < n && orders_writes(p.micro[k].m, ino) implies !#[trigger]
                            meta_held(p, point, s, k) by {
                            if k < last {
                                assert(until@[ino as int] <= k);
                            }
                        }
                    }
                }
            }
            j += 1;
        }
        assert forall|k: int| 0 <= k < n implies #[trigger] persisted@[k] == closed_at(
            p,
            point,
            s,
            k,
        ) by {
            assert(meta_held(p, point, s, k) == (k < last));
        }
        assert(persisted@ =~= closed(p, point, s));
    }

    /// The directory tree a crash state leaves behind.
    pub fn materialize(&self, persisted: &Vec<bool>) -> (r: Tree)
        requires
            program_sound(self@),
            persisted@.len() <= self@.micro.len(),
        ensures
            r@ == tree_of(self@, persisted@),
    {
        let mut fs = self.base.clone();
        let n: usize = persisted.len();
        let mut j: usize = 0;
        while j < n
            invariant
                j <= n,
                n == persisted@.len(),
                n <= self.micro@.len(),
                program_sound(self@),
                fs@ == survived(self@, persisted@, j as int),
                fs_sound(fs@),
                fs@.len() == self@.base.len(),
            decreases n - j,
        {
            if persisted[j] {
                assert(self.micro@[j as int]@ == self@.micro[j as int]);
                assert(micro_op_sound(self@, j as int));
                fs.apply(&self.micro[j].m);
            }
            j += 1;
        }
        fs.to_tree()
    }
}

/// One number of the generator.
pub fn splitmix(state: &mut u64) -> (r: u64)
    ensures
        *final(state) == stepped(*old(state)),
        r == mixed(*final(state)),
{
    *state = state.wrapping_add(0x9e37_79b9_7f4a_7c15);
    let s: u64 = *state;
    let a: u64 = (s ^ (s >> 30)).wrapping_mul(0xbf58_476d_1ce4_e5b9);
    let b: u64 = (a ^ (a >> 27)).wrapping_mul(0x94d0_49bb_1331_11eb);
    b ^ (b >> 31)
}

} // verus!
