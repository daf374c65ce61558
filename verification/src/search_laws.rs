//! Which states are examined, and which a crash can leave behind, told by what
//! each micro-op is and by the barrier that makes it durable.

use crate::check_laws::{law_every_state_is_represented, lemma_state_in_all};
use crate::crash::{
    bit, candidates_of, chosen, closed, coin, flight, flight_upto, legal, lemma_flight_prefix,
    lemma_flight_upto, lemma_op_end, mixed, ops_in_flight, sampled, searchable_at, singles,
    started, stepped_by, tree_of, whole_ops, Search,
};
use crate::laws::lemma_mask_of;
use crate::model::Profile;
use crate::program::{program_sound, ProgramView};
use crate::states::{
    all_states, cut_short, distinct, keys_of, state_key, states_at, states_to_check, states_upto,
    StateView,
};
use vstd::prelude::*;

verus! {

/// Whether a barrier before a crash after `point` ops made a micro-op durable.
pub open spec fn is_safe(p: ProgramView, point: int, j: int) -> bool {
    p.micro[j].durable_at < point
}

/// A persisted-set that holds what is safe, and of the rest what `keep` says.
pub open spec fn keeping(p: ProgramView, point: int, keep: spec_fn(int) -> bool) -> Seq<bool> {
    Seq::new(p.op_end[point] as nat, |j: int| is_safe(p, point, j) || keep(j))
}

/// How many of the first `n` micro-ops are not safe.
pub open spec fn unsafe_before(p: ProgramView, point: int, n: int) -> nat
    decreases n,
{
    if n <= 0 {
        0
    } else {
        unsafe_before(p, point, n - 1) + if is_safe(p, point, n - 1) {
            0nat
        } else {
            1nat
        }
    }
}

proof fn lemma_unsafe_before(p: ProgramView, point: int, n: int)
    requires
        0 <= n,
    ensures
        flight_upto(p, point, n).len() == unsafe_before(p, point, n),
    decreases n,
{
    if n > 0 {
        lemma_unsafe_before(p, point, n - 1);
    }
}

/// Where few micro-ops are in flight, every set that holds what is safe is a
/// candidate.
proof fn lemma_all_are_candidates(
    p: ProgramView,
    point: int,
    search: Search,
    keep: spec_fn(int) -> bool,
)
    requires
        program_sound(p),
        0 <= point < p.op_end.len(),
        flight(p, point).len() <= search.exhaustive_limit,
        searchable_at(p, point, search),
    ensures
        candidates_of(p, point, search).contains(keeping(p, point, keep)),
{
    lemma_op_end(p, point);
    let n = p.op_end[point] as int;
    let s = keeping(p, point, keep);
    let f = flight(p, point);
    lemma_flight_upto(p, point, n);
    let mask = lemma_mask_of(|k: int| s[f[k] as int], f.len());
    let c = candidates_of(p, point, search)[mask as int];
    assert forall|j: int| 0 <= j < n implies #[trigger] c[j] == s[j] by {
        if p.micro[j].durable_at >= point {
            let k = flight_upto(p, point, j).len() as int;
            lemma_flight_prefix(p, point, j + 1, n);
            assert(flight_upto(p, point, j + 1)[k] == j);
            assert(f[k] == j);
            assert(bit(mask, k) == s[f[k] as int]);
        }
    }
    assert(c =~= s);
}

proof fn lemma_singles_at(p: ProgramView, point: int, m: int, k: int)
    requires
        0 <= k < m,
    ensures
        singles(p, point, m).len() == 2 * m,
        singles(p, point, m)[2 * k] == chosen(p, point, |pos: int, j: int| pos != k),
        singles(p, point, m)[2 * k + 1] == chosen(p, point, |pos: int, j: int| pos < k),
    decreases m,
{
    if k < m - 1 {
        lemma_singles_at(p, point, m - 1, k);
    } else {
        lemma_singles_len(p, point, m - 1);
        assert(singles(p, point, m)[2 * k] =~= chosen(p, point, |pos: int, j: int| pos != k));
        assert(singles(p, point, m)[2 * k + 1] =~= chosen(p, point, |pos: int, j: int| pos < k));
    }
}

proof fn lemma_singles_len(p: ProgramView, point: int, m: int)
    requires
        0 <= m,
    ensures
        singles(p, point, m).len() == 2 * m,
    decreases m,
{
    if m > 0 {
        lemma_singles_len(p, point, m - 1);
    }
}

/// Positions in flight tell micro-ops apart, in order.
proof fn lemma_positions(p: ProgramView, point: int, a: int, b: int)
    requires
        0 <= a < b,
        p.micro[a].durable_at >= point,
    ensures
        flight_upto(p, point, a).len() < flight_upto(p, point, b).len(),
    decreases b - a,
{
    if b == a + 1 {
    } else {
        lemma_positions(p, point, a, b - 1);
    }
}

proof fn lemma_ops_in_flight(p: ProgramView, point: int, m: int, k: int)
    requires
        0 <= k < m <= flight(p, point).len(),
    ensures
        ops_in_flight(p, point, m).contains(p.micro[flight(p, point)[k] as int].op),
    decreases m,
{
    let all = ops_in_flight(p, point, m);
    let op = p.micro[flight(p, point)[k] as int].op;
    if k < m - 1 {
        lemma_ops_in_flight(p, point, m - 1, k);
        let before = ops_in_flight(p, point, m - 1);
        let i = choose|i: int| 0 <= i < before.len() && before[i] == op;
        assert(all[i] == op);
    } else {
        assert(all[all.len() - 1] == op);
    }
}

proof fn lemma_sampled_len(p: ProgramView, point: int, m: nat, state: u64, count: nat)
    ensures
        sampled(p, point, m, state, count).len() == count,
    decreases count,
{
    if count > 0 {
        lemma_sampled_len(p, point, m, stepped_by(state, m), (count - 1) as nat);
    }
}

/// Whatever the search, and for each micro-op that may be lost, these states are
/// examined: that micro-op alone lost; what came before it persisted and nothing
/// from it on; and the whole op lost that it belongs to.
pub proof fn law_each_loss_is_examined(p: ProgramView, point: int, search: Search, lost: int)
    requires
        program_sound(p),
        0 <= point < p.op_end.len(),
        searchable_at(p, point, search),
        0 <= lost < p.op_end[point],
        !is_safe(p, point, lost),
    ensures
        candidates_of(p, point, search).contains(keeping(p, point, |j: int| j != lost)),
        candidates_of(p, point, search).contains(keeping(p, point, |j: int| j < lost)),
        candidates_of(p, point, search).contains(
            keeping(p, point, |j: int| p.micro[j].op != p.micro[lost].op),
        ),
{
    let one = keeping(p, point, |j: int| j != lost);
    let front = keeping(p, point, |j: int| j < lost);
    let whole = keeping(p, point, |j: int| p.micro[j].op != p.micro[lost].op);
    let m = flight(p, point).len();
    let all = candidates_of(p, point, search);
    let n = p.op_end[point] as int;
    if m <= search.exhaustive_limit {
        lemma_all_are_candidates(p, point, search, |j: int| j != lost);
        lemma_all_are_candidates(p, point, search, |j: int| j < lost);
        lemma_all_are_candidates(
            p,
            point,
            search,
            |j: int| p.micro[j].op != p.micro[lost].op,
        );
    } else {
        let k = flight_upto(p, point, lost).len() as int;
        lemma_flight_upto(p, point, n);
        lemma_flight_prefix(p, point, lost + 1, n);
        assert(flight_upto(p, point, lost + 1)[k] == lost);
        assert(flight(p, point)[k] == lost);
        let b = singles(p, point, m as int);
        let ops = ops_in_flight(p, point, m as int);
        let c = whole_ops(p, point, ops);
        lemma_singles_at(p, point, m as int, k);
        assert(all[2 + 2 * k] == b[2 * k]);
        assert(all[2 + 2 * k + 1] == b[2 * k + 1]);
        let x = b[2 * k];
        let y = b[2 * k + 1];
        assert forall|j: int| 0 <= j < n implies #[trigger] x[j] == one[j] by {
            if j < lost && p.micro[j].durable_at >= point {
                lemma_positions(p, point, j, lost);
            } else if j > lost {
                lemma_positions(p, point, lost, j);
            }
        }
        assert forall|j: int| 0 <= j < n implies #[trigger] y[j] == front[j] by {
            if j < lost && p.micro[j].durable_at >= point {
                lemma_positions(p, point, j, lost);
            } else if j > lost {
                lemma_positions(p, point, lost, j);
            }
        }
        assert(x =~= one);
        assert(y =~= front);
        lemma_ops_in_flight(p, point, m as int, k);
        let i = choose|i: int| 0 <= i < ops.len() && ops[i] == p.micro[lost].op;
        assert(c[i] =~= whole);
        assert(all[2 + b.len() + i] == c[i]);
    }
}

/// Two to the power of 64.
pub open spec fn word() -> int {
    0x1_0000_0000_0000_0000
}

/// The number that the generator draws in state `z`.
pub open spec fn drawn(z: u64) -> u64 {
    let a = ((z ^ (z >> 30)) * 0xbf58_476d_1ce4_e5b9 % word()) as u64;
    let b = ((a ^ (a >> 27)) * 0x94d0_49bb_1331_11eb % word()) as u64;
    b ^ (b >> 31)
}

/// Draw number `n` at a crash point, the first one being number 0: the states
/// of the generator lie a fixed step apart, and start from the seed and the
/// point.
pub open spec fn draw(seed: u64, point: int, n: int) -> u64 {
    let start = seed ^ ((point * 0x9e37_79b9_7f4a_7c15 % word()) as u64);
    drawn(((start + (n + 1) * 0x9e37_79b9_7f4a_7c15) % word()) as u64)
}

proof fn lemma_stepped_by(state: u64, n: nat)
    ensures
        stepped_by(state, n) == (state + n * 0x9e37_79b9_7f4a_7c15) % word(),
    decreases n,
{
    if n > 0 {
        lemma_stepped_by(state, (n - 1) as nat);
        let g: int = 0x9e37_79b9_7f4a_7c15;
        let before = state + (n - 1) * g;
        assert(n * g == (n - 1) * g + g) by (nonlinear_arith);
        assert((before % word() + g) % word() == (before + g) % word()) by {
            vstd::arithmetic::div_mod::lemma_add_mod_noop(before, g, word());
            vstd::arithmetic::div_mod::lemma_small_mod(g as nat, word() as nat);
        }
        let x = stepped_by(state, (n - 1) as nat);
        assert(x.wrapping_add(0x9e37_79b9_7f4a_7c15) == (x + g) % word());
    }
}

proof fn lemma_sampled_at(p: ProgramView, point: int, m: nat, state: u64, count: nat, i: int)
    requires
        0 <= i < count,
    ensures
        sampled(p, point, m, state, count).len() == count,
        sampled(p, point, m, state, count)[i] == chosen(
            p,
            point,
            |pos: int, j: int| coin(stepped_by(state, (i * m) as nat), pos),
        ),
    decreases count,
{
    lemma_sampled_len(p, point, m, state, count);
    let all = sampled(p, point, m, state, count);
    let next = stepped_by(state, m);
    let rest = sampled(p, point, m, next, (count - 1) as nat);
    if i == 0 {
        assert(0 * m == 0) by (nonlinear_arith);
        assert(stepped_by(state, 0) == state);
        assert(all[0] =~= chosen(
            p,
            point,
            |pos: int, j: int| coin(stepped_by(state, (i * m) as nat), pos),
        ));
    } else {
        lemma_sampled_at(p, point, m, next, (count - 1) as nat, i - 1);
        assert((i - 1) * m >= 0) by (nonlinear_arith)
            requires
                i >= 1,
        ;
        assert(i * m == m + (i - 1) * m) by (nonlinear_arith);
        lemma_steps_add(state, m, ((i - 1) * m) as nat);
        assert(all[i] == rest[i - 1]);
        assert(rest[i - 1] =~= chosen(
            p,
            point,
            |pos: int, j: int| coin(stepped_by(state, (i * m) as nat), pos),
        ));
    }
}

proof fn lemma_steps_add(state: u64, a: nat, b: nat)
    ensures
        stepped_by(stepped_by(state, a), b) == stepped_by(state, a + b),
    decreases b,
{
    if b > 0 {
        lemma_steps_add(state, a, (b - 1) as nat);
    }
}

/// Beyond the limit the last candidates are samples. With `m` micro-ops that may
/// be lost, sample `i` keeps the one that has `k` of them before it exactly when
/// draw `i * m + k` is odd.
pub proof fn law_samples_follow_the_generator(
    p: ProgramView,
    point: int,
    search: Search,
    i: int,
    j: int,
)
    requires
        program_sound(p),
        0 <= point < p.op_end.len(),
        unsafe_before(p, point, p.op_end[point] as int) > search.exhaustive_limit,
        0 <= i < search.samples,
        0 <= j < p.op_end[point],
        !is_safe(p, point, j),
    ensures
        ({
            let m = unsafe_before(p, point, p.op_end[point] as int);
            let k = unsafe_before(p, point, j);
            let all = candidates_of(p, point, search);
            &&& all.len() >= search.samples
            &&& all[all.len() - search.samples + i][j] <==> draw(search.seed, point, i * m + k) % 2
                == 1
        }),
{
    let n = p.op_end[point] as int;
    let m = unsafe_before(p, point, n);
    let k = unsafe_before(p, point, j) as int;
    lemma_unsafe_before(p, point, n);
    lemma_unsafe_before(p, point, j);
    lemma_op_end(p, point);
    let all = candidates_of(p, point, search);
    let start = started(search.seed, point);
    let d = sampled(p, point, m, start, search.samples as nat);
    lemma_sampled_at(p, point, m, start, search.samples as nat, i);
    assert(i * m >= 0) by (nonlinear_arith)
        requires
            i >= 0,
    ;
    let at = (i * m) as nat;
    let z = stepped_by(stepped_by(start, at), (k + 1) as nat);
    lemma_steps_add(start, at, (k + 1) as nat);
    lemma_stepped_by(start, at + (k + 1) as nat);
    assert(start == search.seed ^ ((point * 0x9e37_79b9_7f4a_7c15 % word()) as u64));
    let x = mixed(z);
    assert(x == drawn(z));
    assert(x & 1u64 == x % 2) by (bit_vector);
    assert(all[all.len() - search.samples + i] == d[i]);
}

/// What a crash can leave behind with a journal: what is safe; metadata in
/// order; no size extension without the writes to that file before it; and no
/// rename over a file without the writes to the renamed file before it. Nothing
/// else is asked.
pub proof fn law_journal_rules(p: ProgramView, point: int, s: Seq<bool>)
    requires
        p.profile == Profile::Ext4Ordered,
        s.len() == p.op_end[point],
    ensures
        legal(p, point, s) <==> {
            &&& forall|j: int| 0 <= j < s.len() && is_safe(p, point, j) ==> #[trigger] s[j]
            &&& forall|j: int, k: int|
                0 <= j < k < s.len() && #[trigger] s[k] && !(p.micro[k].m is Write)
                    && !(p.micro[j].m is Write) ==> #[trigger] s[j]
            &&& forall|j: int, k: int|
                0 <= j < k < s.len() && #[trigger] s[k] && p.micro[j].m is Write
                    && p.micro[k].m is SetLen && p.micro[k].m->SetLen_keep_tail
                    && p.micro[k].m->SetLen_ino == p.micro[j].m->Write_ino ==> #[trigger] s[j]
            &&& forall|j: int, k: int|
                0 <= j < k < s.len() && #[trigger] s[k] && p.micro[j].m is Write
                    && p.micro[k].m is Rename && p.micro[k].m->replaces
                    && p.micro[k].m->Rename_ino == p.micro[j].m->Write_ino ==> #[trigger] s[j]
        },
{
}

/// What a crash can leave behind on the weakest profile: anything that holds
/// what is safe.
pub proof fn law_weakest_rules(p: ProgramView, point: int, s: Seq<bool>)
    requires
        p.profile == Profile::Posix,
        s.len() == p.op_end[point],
    ensures
        legal(p, point, s) <==> forall|j: int|
            0 <= j < s.len() && is_safe(p, point, j) ==> #[trigger] s[j],
        (forall|j: int| 0 <= j < s.len() && is_safe(p, point, j) ==> #[trigger] s[j]) ==> closed(
            p,
            point,
            s,
        ) == s,
{
    if forall|j: int| 0 <= j < s.len() && is_safe(p, point, j) ==> #[trigger] s[j] {
        assert(closed(p, point, s) =~= s);
    }
}

/// A checker can tell two states apart exactly by what is on disk and by how
/// many marks were emitted before the crash.
pub proof fn law_states_are_told_apart(p: ProgramView, a: StateView, b: StateView)
    ensures
        state_key(p, a) == state_key(p, b) <==> tree_of(p, a.persisted) == tree_of(p, b.persisted)
            && p.marks_before[a.point as int] == p.marks_before[b.point as int],
{
}

/// Every state that is checked comes from a candidate of its crash point, with
/// what has to persist along with it.
pub proof fn law_checked_states_come_from_candidates(
    p: ProgramView,
    search: Search,
    limit: usize,
    k: int,
)
    requires
        p.op_end.len() <= usize::MAX,
        0 <= k < states_to_check(p, search, limit).len(),
    ensures
        ({
            let x = states_to_check(p, search, limit)[k];
            let point = x.point as int;
            &&& 0 <= point < p.op_end.len()
            &&& exists|i: int|
                0 <= i < candidates_of(p, point, search).len() && x.persisted == closed(
                    p,
                    point,
                    #[trigger] candidates_of(p, point, search)[i],
                )
        }),
{
    let all = all_states(p, search);
    lemma_distinct_are_some(p, all, k);
    let j = choose|j: int| 0 <= j < all.len() && #[trigger] all[j] == distinct(p, all)[k];
    lemma_states_upto(p, search, p.op_end.len() as int, j);
    let x = states_to_check(p, search, limit)[k];
    assert(x == all[j]);
    let point = x.point as int;
    let i = choose|i: int|
        0 <= i < candidates_of(p, point, search).len() && all[j].persisted == closed(
            p,
            point,
            #[trigger] candidates_of(p, point, search)[i],
        );
    assert(x.persisted == closed(p, point, candidates_of(p, point, search)[i]));
}

proof fn lemma_distinct_are_some(p: ProgramView, states: Seq<StateView>, k: int)
    requires
        0 <= k < distinct(p, states).len(),
    ensures
        exists|j: int| 0 <= j < states.len() && #[trigger] states[j] == distinct(p, states)[k],
    decreases states.len(),
{
    let front = states.drop_last();
    if k < distinct(p, front).len() {
        lemma_distinct_are_some(p, front, k);
        let j = choose|j: int| 0 <= j < front.len() && #[trigger] front[j] == distinct(p, front)[k];
        assert(states[j] == distinct(p, states)[k]);
    } else {
        assert(states[states.len() - 1] == distinct(p, states)[k]);
    }
}

proof fn lemma_states_upto(p: ProgramView, search: Search, n: int, j: int)
    requires
        0 <= n <= p.op_end.len() <= usize::MAX,
        0 <= j < states_upto(p, search, n).len(),
    ensures
        ({
            let x = states_upto(p, search, n)[j];
            let point = x.point as int;
            &&& 0 <= point < n
            &&& exists|i: int|
                0 <= i < candidates_of(p, point, search).len() && x.persisted == closed(
                    p,
                    point,
                    #[trigger] candidates_of(p, point, search)[i],
                )
        }),
    decreases n,
{
    let before = states_upto(p, search, n - 1);
    if j < before.len() {
        lemma_states_upto(p, search, n - 1, j);
    } else {
        let i = j - before.len();
        let c = candidates_of(p, n - 1, search);
        assert(states_upto(p, search, n)[j].persisted == closed(p, n - 1, c[i]));
    }
}

/// Where the limit did not cut the enumeration short, a state like each candidate
/// of each crash point is checked: one that a checker cannot tell from it.
pub proof fn law_every_candidate_is_checked(
    p: ProgramView,
    search: Search,
    limit: usize,
    point: usize,
    i: int,
)
    requires
        !cut_short(p, search, limit),
        point < p.op_end.len(),
        0 <= i < candidates_of(p, point as int, search).len(),
    ensures
        exists|k: int|
            0 <= k < states_to_check(p, search, limit).len() && {
                let x = #[trigger] states_to_check(p, search, limit)[k];
                &&& tree_of(p, x.persisted) == tree_of(
                    p,
                    closed(p, point as int, candidates_of(p, point as int, search)[i]),
                )
                &&& p.marks_before[x.point as int] == p.marks_before[point as int]
            },
{
    let j = lemma_state_in_all(p, search, point as int, i, p.op_end.len() as int);
    let all = all_states(p, search);
    law_every_state_is_represented(p, all, j);
    let states = states_to_check(p, search, limit);
    let keys = keys_of(p, states);
    let k = choose|k: int| 0 <= k < keys.len() && keys[k] == state_key(p, all[j]);
    assert(state_key(p, states[k]) == state_key(p, all[j]));
}

/// The states are checked in the order of their crash points.
pub proof fn law_states_are_checked_in_order(p: ProgramView, search: Search, limit: usize)
    requires
        p.op_end.len() <= usize::MAX,
    ensures
        forall|a: int, b: int|
            0 <= a < b < states_to_check(p, search, limit).len() ==> (#[trigger] states_to_check(
                p,
                search,
                limit,
            )[a]).point <= (#[trigger] states_to_check(p, search, limit)[b]).point,
{
    let n = p.op_end.len() as int;
    lemma_points_climb(p, search, n);
    let all = all_states(p, search);
    lemma_distinct_climbs(p, all);
    let d = distinct(p, all);
    assert forall|a: int, b: int|
        0 <= a < b < states_to_check(p, search, limit).len() implies (#[trigger] states_to_check(
        p,
        search,
        limit,
    )[a]).point <= (#[trigger] states_to_check(p, search, limit)[b]).point by {
        assert(d[a].point <= d[b].point);
    }
}

/// Never an earlier point further on.
spec fn points_climb(v: Seq<StateView>) -> bool {
    forall|a: int, b: int|
        0 <= a < b < v.len() ==> (#[trigger] v[a]).point <= (#[trigger] v[b]).point
}

proof fn lemma_points_climb(p: ProgramView, search: Search, n: int)
    requires
        0 <= n <= p.op_end.len() <= usize::MAX,
    ensures
        points_climb(states_upto(p, search, n)),
        forall|j: int|
            0 <= j < states_upto(p, search, n).len() ==> (#[trigger] states_upto(
                p,
                search,
                n,
            )[j]).point < n,
    decreases n,
{
    if n > 0 {
        lemma_points_climb(p, search, n - 1);
        let a = states_upto(p, search, n - 1);
        let b = states_at(p, search, n - 1);
        let all = states_upto(p, search, n);
        assert forall|i: int, j: int| 0 <= i < j < all.len() implies (#[trigger] all[i]).point <= (
        #[trigger] all[j]).point by {
            if i < a.len() {
                assert(all[i] == a[i]);
            }
            if j < a.len() {
                assert(all[j] == a[j]);
            }
        }
        assert forall|j: int| 0 <= j < all.len() implies (#[trigger] all[j]).point < n by {
            if j < a.len() {
                assert(all[j] == a[j]);
            }
        }
    }
}

proof fn lemma_distinct_climbs(p: ProgramView, states: Seq<StateView>)
    requires
        points_climb(states),
    ensures
        points_climb(distinct(p, states)),
    decreases states.len(),
{
    if states.len() > 0 {
        let front = states.drop_last();
        assert(points_climb(front)) by {
            assert forall|a: int, b: int| 0 <= a < b < front.len() implies (
            #[trigger] front[a]).point <= (#[trigger] front[b]).point by {
                assert(states[a].point <= states[b].point);
            }
        }
        lemma_distinct_climbs(p, front);
        let d = distinct(p, front);
        let e = distinct(p, states);
        assert forall|a: int, b: int| 0 <= a < b < e.len() implies (#[trigger] e[a]).point <= (
        #[trigger] e[b]).point by {
            assert(e[a] == d[a]);
            if b < d.len() {
                assert(e[b] == d[b]);
            } else {
                lemma_distinct_are_some(p, front, a);
                let j = choose|j: int| 0 <= j < front.len() && #[trigger] front[j] == d[a];
                assert(states[j].point <= states[states.len() - 1].point);
            }
        }
    }
}

/// A limit that cuts the enumeration short is used up, and a smaller limit keeps
/// the states that come first.
pub proof fn law_limits_keep_the_first_states(
    p: ProgramView,
    search: Search,
    small: usize,
    large: usize,
)
    requires
        small <= large,
    ensures
        cut_short(p, search, small) <==> distinct(p, all_states(p, search)).len() > small,
        cut_short(p, search, small) ==> states_to_check(p, search, small).len() == small,
        !cut_short(p, search, small) ==> states_to_check(p, search, small) == states_to_check(
            p,
            search,
            large,
        ),
        cut_short(p, search, small) ==> states_to_check(p, search, small) == states_to_check(
            p,
            search,
            large,
        ).take(small as int),
{
    let d = distinct(p, all_states(p, search));
    if d.len() > large {
        assert(d.take(large as int).take(small as int) =~= d.take(small as int));
    }
}

/// Of the states that the search comes across, one is left out exactly when an
/// earlier one that is kept is the same to a checker.
pub proof fn law_only_repetitions_are_left_out(p: ProgramView, states: Seq<StateView>, x: StateView)
    ensures
        ({
            let before = distinct(p, states);
            let after = distinct(p, states.push(x));
            let known = exists|k: int|
                0 <= k < before.len() && tree_of(p, (#[trigger] before[k]).persisted) == tree_of(
                    p,
                    x.persisted,
                ) && p.marks_before[before[k].point as int] == p.marks_before[x.point as int];
            &&& known ==> after == before
            &&& !known ==> after == before.push(x)
        }),
{
    let before = distinct(p, states);
    assert(states.push(x).drop_last() =~= states);
    let keys = keys_of(p, before);
    let key = state_key(p, x);
    if keys.contains(key) {
        let k = choose|k: int| 0 <= k < keys.len() && keys[k] == key;
        assert(state_key(p, before[k]) == key);
        assert(tree_of(p, before[k].persisted) == tree_of(p, x.persisted));
    }
    if exists|k: int|
        0 <= k < before.len() && tree_of(p, (#[trigger] before[k]).persisted) == tree_of(
            p,
            x.persisted,
        ) && p.marks_before[before[k].point as int] == p.marks_before[x.point as int] {
        let k = choose|k: int|
            0 <= k < before.len() && tree_of(p, (#[trigger] before[k]).persisted) == tree_of(
                p,
                x.persisted,
            ) && p.marks_before[before[k].point as int] == p.marks_before[x.point as int];
        assert(keys[k] == key);
    }
}

/// What is in flight at a crash point is what was issued by then and is not safe,
/// in the order in which it was issued.
pub proof fn law_in_flight_is_what_is_not_safe(p: ProgramView, point: int)
    requires
        program_sound(p),
        0 <= point < p.op_end.len(),
    ensures
        flight(p, point).len() == unsafe_before(p, point, p.op_end[point] as int),
        forall|a: int, b: int|
            0 <= a < b < flight(p, point).len() ==> (#[trigger] flight(p, point)[a]) < (
            #[trigger] flight(p, point)[b]),
        forall|j: int|
            0 <= j < p.op_end[point] ==> (flight(p, point).contains(j as usize)
                <==> !#[trigger] is_safe(p, point, j)),
        forall|a: int|
            0 <= a < flight(p, point).len() ==> (#[trigger] flight(p, point)[a]) < p.op_end[point],
{
    lemma_op_end(p, point);
    let n = p.op_end[point] as int;
    lemma_unsafe_before(p, point, n);
    lemma_flight_upto(p, point, n);
    let f = flight(p, point);
    assert forall|a: int, b: int| 0 <= a < b < f.len() implies (#[trigger] f[a]) < (
    #[trigger] f[b]) by {
        let x = f[a] as int;
        let y = f[b] as int;
        if y < x {
            lemma_positions(p, point, y, x);
        }
    }
    assert forall|j: int| 0 <= j < n implies (f.contains(j as usize) <==> !#[trigger] is_safe(
        p,
        point,
        j,
    )) by {
        if f.contains(j as usize) {
            let a = choose|a: int| 0 <= a < f.len() && f[a] == j as usize;
            assert(f[a] == j);
        }
        if !is_safe(p, point, j) {
            let k = flight_upto(p, point, j).len() as int;
            lemma_flight_prefix(p, point, j + 1, n);
            assert(flight_upto(p, point, j + 1)[k] == j);
            assert(f[k] == j);
        }
    }
}

/// The order in which the states beyond the limit are examined: everything
/// persisted; nothing but what is safe; for each micro-op that may be lost, in
/// order, that one lost and then what came before it persisted; and behind these
/// the whole ops, in order.
pub proof fn law_examined_states_come_in_order(
    p: ProgramView,
    point: int,
    search: Search,
    lost: int,
)
    requires
        program_sound(p),
        0 <= point < p.op_end.len(),
        unsafe_before(p, point, p.op_end[point] as int) > search.exhaustive_limit,
        0 <= lost < p.op_end[point],
        !is_safe(p, point, lost),
    ensures
        ({
            let all = candidates_of(p, point, search);
            let k = unsafe_before(p, point, lost) as int;
            let m = unsafe_before(p, point, p.op_end[point] as int) as int;
            &&& all[0] == keeping(p, point, |j: int| true)
            &&& all[1] == keeping(p, point, |j: int| false)
            &&& all[2 + 2 * k] == keeping(p, point, |j: int| j != lost)
            &&& all[3 + 2 * k] == keeping(p, point, |j: int| j < lost)
            &&& all[2 + 2 * m] == keeping(
                p,
                point,
                |j: int| p.micro[j].op != p.micro[flight(p, point)[0] as int].op,
            )
        }),
{
    let n = p.op_end[point] as int;
    let m = unsafe_before(p, point, n) as int;
    let k = unsafe_before(p, point, lost) as int;
    lemma_op_end(p, point);
    lemma_unsafe_before(p, point, n);
    lemma_unsafe_before(p, point, lost);
    lemma_flight_upto(p, point, n);
    lemma_flight_prefix(p, point, lost + 1, n);
    lemma_positions(p, point, lost, n);
    let all = candidates_of(p, point, search);
    let b = singles(p, point, m);
    let ops = ops_in_flight(p, point, m);
    let c = whole_ops(p, point, ops);
    lemma_singles_at(p, point, m, k);
    lemma_first_op(p, point, m);
    assert(all[2 + 2 * k] == b[2 * k]);
    assert(all[3 + 2 * k] == b[2 * k + 1]);
    assert(all[2 + 2 * m] == c[0]);
    let one = keeping(p, point, |j: int| j != lost);
    let front = keeping(p, point, |j: int| j < lost);
    let x = b[2 * k];
    let y = b[2 * k + 1];
    assert forall|j: int| 0 <= j < n implies #[trigger] x[j] == one[j] by {
        if j < lost && p.micro[j].durable_at >= point {
            lemma_positions(p, point, j, lost);
        } else if j > lost {
            lemma_positions(p, point, lost, j);
        }
    }
    assert forall|j: int| 0 <= j < n implies #[trigger] y[j] == front[j] by {
        if j < lost && p.micro[j].durable_at >= point {
            lemma_positions(p, point, j, lost);
        } else if j > lost {
            lemma_positions(p, point, lost, j);
        }
    }
    assert(x =~= one);
    assert(y =~= front);
    assert(all[0] =~= keeping(p, point, |j: int| true));
    assert(all[1] =~= keeping(p, point, |j: int| false));
    assert(c[0] =~= keeping(
        p,
        point,
        |j: int| p.micro[j].op != p.micro[flight(p, point)[0] as int].op,
    ));
}

proof fn lemma_first_op(p: ProgramView, point: int, m: int)
    requires
        0 < m <= flight(p, point).len(),
    ensures
        ops_in_flight(p, point, m).len() > 0,
        ops_in_flight(p, point, m)[0] == p.micro[flight(p, point)[0] as int].op,
    decreases m,
{
    if m > 1 {
        lemma_first_op(p, point, m - 1);
    } else {
        assert(ops_in_flight(p, point, 0).len() == 0);
    }
}

/// Within the limit the states are numbered by what they keep: candidate `i` keeps
/// the micro-op that has `k` before it that may be lost exactly when digit `k` of
/// `i`, in base two, is one.
pub proof fn law_small_searches_count_in_base_two(
    p: ProgramView,
    point: int,
    search: Search,
    i: int,
    j: int,
)
    requires
        program_sound(p),
        0 <= point < p.op_end.len(),
        unsafe_before(p, point, p.op_end[point] as int) <= search.exhaustive_limit,
        searchable_at(p, point, search),
        0 <= i < candidates_of(p, point, search).len(),
        0 <= j < p.op_end[point],
        !is_safe(p, point, j),
    ensures
        ({
            let k = unsafe_before(p, point, j) as u64;
            candidates_of(p, point, search)[i][j] <==> ((i as u64) >> k) & 1u64 == 1u64
        }),
{
    let n = p.op_end[point] as int;
    lemma_unsafe_before(p, point, n);
    lemma_unsafe_before(p, point, j);
    lemma_op_end(p, point);
}

} // verus!
