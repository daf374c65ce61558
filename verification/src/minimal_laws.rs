//! Why nothing more of a minimized failure could persist.

use crate::check::{
    lookup, minimized, tried, tried_micros, tried_ops, unshrunk, with_more, Call, Shrunk,
};
use crate::check_laws::{
    lemma_tried_micros_shrinks_well, lemma_tried_ops_shrinks_well, shrinks_well,
};
use crate::crash::{closed, legal, lemma_op_end, within};
use crate::explain::lost_of;
use crate::explain_laws::{law_lost_ops_lost_something, lost_part};
use crate::laws::law_closed_is_the_smallest_legal_state;
use crate::model::Profile;
use crate::program::{program_sound, ProgramView};
use crate::states::key_with;
use vstd::prelude::*;

verus! {

/// The checker accepted the smallest state that holds all that `s` says.
pub open spec fn accepted(p: ProgramView, calls: Seq<Call>, point: int, s: Seq<bool>) -> bool {
    lookup(calls, key_with(p, closed(p, point, s), p.marks_before[point])) == Some(
        None::<Seq<char>>,
    )
}

/// One attempt: what persisted persists, and what was added persists too, unless
/// the checker accepted the state with it.
proof fn lemma_tried(
    p: ProgramView,
    calls: Seq<Call>,
    point: int,
    start: Seq<bool>,
    s: Shrunk,
    more: spec_fn(int) -> bool,
)
    requires
        shrinks_well(p, calls, point, start, s),
    ensures
        ({
            let after = tried(p, calls, point, s, more);
            &&& within(s.persisted, after.persisted)
            &&& after.known ==> s.known
            &&& after.known ==> {
                ||| forall|j: int|
                    0 <= j < s.persisted.len() && more(j) ==> #[trigger] after.persisted[j]
                ||| accepted(
                    p,
                    calls,
                    point,
                    Seq::new(s.persisted.len(), |j: int| s.persisted[j] || more(j)),
                )
            }
        }),
{
    let wider = Seq::new(s.persisted.len(), |j: int| s.persisted[j] || more(j));
    law_closed_is_the_smallest_legal_state(p, point, wider);
    let trial = with_more(p, point, s.persisted, more);
    assert forall|j: int| 0 <= j < s.persisted.len() && (s.persisted[j] || more(j)) implies
        #[trigger] trial[j] by {
        assert(wider[j]);
    }
}

/// One attempt on a single micro-op.
proof fn lemma_micro_step(
    p: ProgramView,
    calls: Seq<Call>,
    point: int,
    start: Seq<bool>,
    s: Shrunk,
    n: int,
)
    requires
        shrinks_well(p, calls, point, start, s),
        0 < n <= start.len(),
        tried_micros(p, calls, point, s, n).known,
    ensures
        ({
            let u = tried_micros(p, calls, point, s, n - 1).persisted;
            ||| tried_micros(p, calls, point, s, n).persisted[n - 1]
            ||| accepted(p, calls, point, u.update(n - 1, true))
        }),
{
    lemma_tried_micros_shrinks_well(p, calls, point, start, s, n - 1);
    let before = tried_micros(p, calls, point, s, n - 1);
    let u = before.persisted;
    if !u[n - 1] {
        let more = |j: int| j == n - 1;
        lemma_tried(p, calls, point, start, before, more);
        assert(u.update(n - 1, true) =~= Seq::new(u.len(), |j: int| u[j] || more(j)));
        assert(more(n - 1));
    }
}

/// One attempt on a whole op.
proof fn lemma_op_step(
    p: ProgramView,
    calls: Seq<Call>,
    point: int,
    start: Seq<bool>,
    s: Shrunk,
    ops: Seq<usize>,
    n: int,
)
    requires
        shrinks_well(p, calls, point, start, s),
        0 < n <= ops.len(),
        tried_ops(p, calls, point, s, ops, n).known,
    ensures
        ({
            let u = tried_ops(p, calls, point, s, ops, n - 1).persisted;
            let after = tried_ops(p, calls, point, s, ops, n).persisted;
            let o = ops[n - 1];
            ||| forall|j: int| 0 <= j < u.len() && p.micro[j].op == o ==> #[trigger] after[j]
            ||| accepted(p, calls, point, Seq::new(u.len(), |j: int| u[j] || p.micro[j].op == o))
        }),
{
    lemma_tried_ops_shrinks_well(p, calls, point, start, s, ops, n - 1);
    let before = tried_ops(p, calls, point, s, ops, n - 1);
    let u = before.persisted;
    let o = ops[n - 1];
    let more = |j: int| p.micro[j].op == ops[n - 1];
    lemma_tried(p, calls, point, start, before, more);
    assert(Seq::new(u.len(), |j: int| u[j] || p.micro[j].op == o) =~= Seq::new(
        u.len(),
        |j: int| u[j] || more(j),
    ));
}

proof fn lemma_micros_grow(
    p: ProgramView,
    calls: Seq<Call>,
    point: int,
    start: Seq<bool>,
    s: Shrunk,
    a: int,
    n: int,
)
    requires
        shrinks_well(p, calls, point, start, s),
        0 <= a <= n,
    ensures
        within(
            tried_micros(p, calls, point, s, a).persisted,
            tried_micros(p, calls, point, s, n).persisted,
        ),
        tried_micros(p, calls, point, s, n).known ==> tried_micros(p, calls, point, s, a).known,
    decreases n - a,
{
    if a < n {
        lemma_micros_grow(p, calls, point, start, s, a, n - 1);
        lemma_tried_micros_shrinks_well(p, calls, point, start, s, n - 1);
        lemma_tried(
            p,
            calls,
            point,
            start,
            tried_micros(p, calls, point, s, n - 1),
            |j: int| j == n - 1,
        );
    }
}

proof fn lemma_ops_grow(
    p: ProgramView,
    calls: Seq<Call>,
    point: int,
    start: Seq<bool>,
    s: Shrunk,
    ops: Seq<usize>,
    a: int,
    n: int,
)
    requires
        shrinks_well(p, calls, point, start, s),
        0 <= a <= n,
    ensures
        within(
            tried_ops(p, calls, point, s, ops, a).persisted,
            tried_ops(p, calls, point, s, ops, n).persisted,
        ),
        tried_ops(p, calls, point, s, ops, n).known ==> tried_ops(
            p,
            calls,
            point,
            s,
            ops,
            a,
        ).known,
    decreases n - a,
{
    if a < n {
        lemma_ops_grow(p, calls, point, start, s, ops, a, n - 1);
        lemma_tried_ops_shrinks_well(p, calls, point, start, s, ops, n - 1);
        lemma_tried(
            p,
            calls,
            point,
            start,
            tried_ops(p, calls, point, s, ops, n - 1),
            |j: int| p.micro[j].op == ops[n - 1],
        );
    }
}

/// A micro-op that a minimized failure still loses is one that was needed: the
/// checker accepted a state on the way to the minimum once it persisted.
pub proof fn law_lost_micro_ops_were_needed(
    p: ProgramView,
    calls: Seq<Call>,
    point: int,
    start: Seq<bool>,
    j: int,
)
    requires
        legal(p, point, start),
        lookup(calls, key_with(p, start, p.marks_before[point])) matches Some(Some(_)),
        minimized(p, calls, point, start).known,
        0 <= j < start.len(),
        !minimized(p, calls, point, start).persisted[j],
    ensures
        exists|u: Seq<bool>|
            within(start, u) && within(u, minimized(p, calls, point, start).persisted) && legal(
                p,
                point,
                u,
            ) && #[trigger] accepted(p, calls, point, u.update(j, true)),
{
    let lost = lost_of(p, start);
    let n = lost.len() as int;
    let s = unshrunk(p, calls, point, start);
    let mid = tried_ops(p, calls, point, s, lost, n);
    let last = minimized(p, calls, point, start);
    lemma_tried_ops_shrinks_well(p, calls, point, start, s, lost, n);
    lemma_tried_micros_shrinks_well(p, calls, point, start, mid, j);
    lemma_micros_grow(p, calls, point, start, mid, j, start.len() as int);
    lemma_micros_grow(p, calls, point, start, mid, j + 1, start.len() as int);
    let before = tried_micros(p, calls, point, mid, j);
    let after = tried_micros(p, calls, point, mid, j + 1);
    let u = before.persisted;
    assert(!u[j] && !after.persisted[j]);
    lemma_micro_step(p, calls, point, start, mid, j + 1);
    assert(accepted(p, calls, point, u.update(j, true)));
}

/// Whole ops come first: an op that lost something persists in full in the
/// minimized failure, unless the checker accepted a state on the way to the
/// minimum once the op persisted in full.
pub proof fn law_lost_ops_were_needed(
    p: ProgramView,
    calls: Seq<Call>,
    point: int,
    start: Seq<bool>,
    o: usize,
)
    requires
        program_sound(p),
        0 <= point < p.op_end.len(),
        legal(p, point, start),
        lookup(calls, key_with(p, start, p.marks_before[point])) matches Some(Some(_)),
        minimized(p, calls, point, start).known,
        lost_part(p, start, o),
    ensures
        ({
            let last = minimized(p, calls, point, start).persisted;
            ||| forall|j: int| 0 <= j < start.len() && p.micro[j].op == o ==> #[trigger] last[j]
            ||| exists|u: Seq<bool>|
                within(start, u) && within(u, last) && #[trigger] legal(p, point, u) && accepted(
                    p,
                    calls,
                    point,
                    Seq::new(u.len(), |j: int| u[j] || p.micro[j].op == o),
                )
        }),
{
    let lost = lost_of(p, start);
    let n = lost.len() as int;
    let s = unshrunk(p, calls, point, start);
    lemma_op_end(p, point);
    law_lost_ops_lost_something(p, start);
    assert(lost.contains(o));
    let k = choose|k: int| 0 <= k < n && lost[k] == o;
    let before = tried_ops(p, calls, point, s, lost, k);
    let after = tried_ops(p, calls, point, s, lost, k + 1);
    let mid = tried_ops(p, calls, point, s, lost, n);
    let last = minimized(p, calls, point, start).persisted;
    lemma_tried_ops_shrinks_well(p, calls, point, start, s, lost, k);
    lemma_tried_ops_shrinks_well(p, calls, point, start, s, lost, n);
    lemma_ops_grow(p, calls, point, start, s, lost, k, n);
    lemma_ops_grow(p, calls, point, start, s, lost, k + 1, n);
    lemma_micros_grow(p, calls, point, start, mid, 0, start.len() as int);
    let u = before.persisted;
    lemma_op_step(p, calls, point, start, s, lost, k + 1);
    let wider = Seq::new(u.len(), |j: int| u[j] || p.micro[j].op == o);
    assert(within(start, u) && within(u, last)) by {
        assert forall|j: int| 0 <= j < u.len() && #[trigger] u[j] implies last[j] by {
            assert(mid.persisted[j]);
        }
    }
    assert(legal(p, point, u));
    if !accepted(p, calls, point, wider) {
        assert forall|j: int| 0 <= j < start.len() && p.micro[j].op == o implies
            #[trigger] last[j] by {
            assert(after.persisted[j]);
            assert(mid.persisted[j]);
        }
    }
}

/// With no journal, closing adds only what is durable; a state that holds that
/// already stays as it is.
proof fn lemma_posix_closed(p: ProgramView, point: int, s: Seq<bool>, t: Seq<bool>)
    requires
        p.profile == Profile::Posix,
        legal(p, point, s),
        within(s, t),
    ensures
        closed(p, point, t) == t,
        legal(p, point, t),
{
    assert forall|j: int| 0 <= j < t.len() && p.micro[j].durable_at < point implies
        #[trigger] t[j] by {
        assert(s[j]);
    }
    assert(closed(p, point, t) =~= t);
}

proof fn lemma_micros_exact(
    p: ProgramView,
    calls: Seq<Call>,
    point: int,
    start: Seq<bool>,
    s: Shrunk,
    n: int,
)
    requires
        p.profile == Profile::Posix,
        shrinks_well(p, calls, point, start, s),
        0 <= n <= start.len(),
    ensures
        forall|k: int|
            n <= k < start.len() ==> #[trigger] tried_micros(p, calls, point, s, n).persisted[k]
                == s.persisted[k],
    decreases n,
{
    if n > 0 {
        lemma_micros_exact(p, calls, point, start, s, n - 1);
        lemma_tried_micros_shrinks_well(p, calls, point, start, s, n - 1);
        let before = tried_micros(p, calls, point, s, n - 1);
        let more = |j: int| j == n - 1;
        let wider = Seq::new(before.persisted.len(), |j: int| before.persisted[j] || more(j));
        lemma_posix_closed(p, point, before.persisted, wider);
        let after = tried_micros(p, calls, point, s, n);
        assert forall|k: int| n <= k < start.len() implies #[trigger] after.persisted[k]
            == s.persisted[k] by {
            assert(before.persisted[k] == s.persisted[k]);
        }
    }
}

/// Single micro-ops are tried in the order in which they were issued. With no
/// journal there is thus one state, between the start and the minimum, such that
/// for each micro-op that stays lost the checker accepted this: up to it what the
/// minimum keeps, and from it on what that state keeps and the micro-op itself.
pub proof fn law_micro_ops_are_tried_in_order(
    p: ProgramView,
    calls: Seq<Call>,
    point: int,
    start: Seq<bool>,
) -> (mid: Seq<bool>)
    requires
        p.profile == Profile::Posix,
        legal(p, point, start),
        lookup(calls, key_with(p, start, p.marks_before[point])) matches Some(Some(_)),
        minimized(p, calls, point, start).known,
    ensures
        within(start, mid),
        within(mid, minimized(p, calls, point, start).persisted),
        forall|j: int|
            0 <= j < start.len() && !(#[trigger] minimized(p, calls, point, start).persisted[j])
                ==> accepted(
                p,
                calls,
                point,
                Seq::new(
                    start.len(),
                    |k: int|
                        if k < j {
                            minimized(p, calls, point, start).persisted[k]
                        } else {
                            mid[k] || k == j
                        },
                ),
            ),
{
    let lost = lost_of(p, start);
    let n = lost.len() as int;
    let s = unshrunk(p, calls, point, start);
    let mid = tried_ops(p, calls, point, s, lost, n);
    let last = minimized(p, calls, point, start);
    lemma_tried_ops_shrinks_well(p, calls, point, start, s, lost, n);
    lemma_micros_grow(p, calls, point, start, mid, 0, start.len() as int);
    assert forall|j: int| 0 <= j < start.len() && !(#[trigger] last.persisted[j]) implies accepted(
        p,
        calls,
        point,
        Seq::new(
            start.len(),
            |k: int|
                if k < j {
                    last.persisted[k]
                } else {
                    mid.persisted[k] || k == j
                },
        ),
    ) by {
        lemma_micros_grow(p, calls, point, start, mid, j, start.len() as int);
        lemma_micros_grow(p, calls, point, start, mid, j + 1, start.len() as int);
        lemma_micro_step(p, calls, point, start, mid, j + 1);
        lemma_micros_exact(p, calls, point, start, mid, j);
        lemma_tried_micros_shrinks_well(p, calls, point, start, mid, j);
        lemma_settled(p, calls, point, start, mid, j, start.len() as int);
        let u = tried_micros(p, calls, point, mid, j).persisted;
        assert(!tried_micros(p, calls, point, mid, j + 1).persisted[j]);
        assert(u.update(j, true) =~= Seq::new(
            start.len(),
            |k: int|
                if k < j {
                    last.persisted[k]
                } else {
                    mid.persisted[k] || k == j
                },
        ));
    }
    mid.persisted
}

/// What was decided of a micro-op stays decided.
proof fn lemma_settled(
    p: ProgramView,
    calls: Seq<Call>,
    point: int,
    start: Seq<bool>,
    s: Shrunk,
    a: int,
    n: int,
)
    requires
        p.profile == Profile::Posix,
        shrinks_well(p, calls, point, start, s),
        0 <= a <= n <= start.len(),
    ensures
        forall|k: int|
            0 <= k < a ==> #[trigger] tried_micros(p, calls, point, s, n).persisted[k]
                == tried_micros(p, calls, point, s, a).persisted[k],
    decreases n - a,
{
    if a < n {
        lemma_settled(p, calls, point, start, s, a, n - 1);
        lemma_tried_micros_shrinks_well(p, calls, point, start, s, n - 1);
        let before = tried_micros(p, calls, point, s, n - 1);
        let more = |j: int| j == n - 1;
        let wider = Seq::new(before.persisted.len(), |j: int| before.persisted[j] || more(j));
        lemma_posix_closed(p, point, before.persisted, wider);
        let after = tried_micros(p, calls, point, s, n);
        assert forall|k: int| 0 <= k < a implies #[trigger] after.persisted[k] == tried_micros(
            p,
            calls,
            point,
            s,
            a,
        ).persisted[k] by {
            assert(before.persisted[k] == tried_micros(p, calls, point, s, a).persisted[k]);
        }
    }
}

/// Trying an op changes what persisted of that op, and nothing else.
proof fn lemma_op_step_is_exact(
    p: ProgramView,
    calls: Seq<Call>,
    point: int,
    start: Seq<bool>,
    s: Shrunk,
    ops: Seq<usize>,
    n: int,
)
    requires
        p.profile == Profile::Posix,
        shrinks_well(p, calls, point, start, s),
        0 < n <= ops.len(),
    ensures
        forall|k: int|
            0 <= k < start.len() && p.micro[k].op != ops[n - 1] ==> #[trigger] tried_ops(
                p,
                calls,
                point,
                s,
                ops,
                n,
            ).persisted[k] == tried_ops(p, calls, point, s, ops, n - 1).persisted[k],
{
    lemma_tried_ops_shrinks_well(p, calls, point, start, s, ops, n - 1);
    let before = tried_ops(p, calls, point, s, ops, n - 1);
    let more = |j: int| p.micro[j].op == ops[n - 1];
    let wider = Seq::new(before.persisted.len(), |j: int| before.persisted[j] || more(j));
    lemma_posix_closed(p, point, before.persisted, wider);
}

/// What was not tried yet is as it was.
proof fn lemma_ops_exact(
    p: ProgramView,
    calls: Seq<Call>,
    point: int,
    start: Seq<bool>,
    s: Shrunk,
    ops: Seq<usize>,
    n: int,
    k: int,
)
    requires
        p.profile == Profile::Posix,
        shrinks_well(p, calls, point, start, s),
        0 <= n <= ops.len(),
        0 <= k < start.len(),
        forall|i: int| 0 <= i < n ==> #[trigger] ops[i] != p.micro[k].op,
    ensures
        tried_ops(p, calls, point, s, ops, n).persisted[k] == s.persisted[k],
    decreases n,
{
    if n > 0 {
        lemma_ops_exact(p, calls, point, start, s, ops, n - 1, k);
        lemma_op_step_is_exact(p, calls, point, start, s, ops, n);
        assert(ops[n - 1] != p.micro[k].op);
    }
}

/// What was decided of an op stays decided.
proof fn lemma_ops_settled(
    p: ProgramView,
    calls: Seq<Call>,
    point: int,
    start: Seq<bool>,
    s: Shrunk,
    ops: Seq<usize>,
    a: int,
    n: int,
    k: int,
)
    requires
        p.profile == Profile::Posix,
        shrinks_well(p, calls, point, start, s),
        0 <= a <= n <= ops.len(),
        0 <= k < start.len(),
        forall|i: int| a <= i < n ==> #[trigger] ops[i] != p.micro[k].op,
    ensures
        tried_ops(p, calls, point, s, ops, n).persisted[k] == tried_ops(
            p,
            calls,
            point,
            s,
            ops,
            a,
        ).persisted[k],
    decreases n - a,
{
    if a < n {
        lemma_ops_settled(p, calls, point, start, s, ops, a, n - 1, k);
        lemma_op_step_is_exact(p, calls, point, start, s, ops, n);
        assert(ops[n - 1] != p.micro[k].op);
    }
}

/// Whole ops are tried in the order in which they were issued. With no journal
/// there is thus one state, between the start and the minimum, such that each op
/// that lost something persists in it in full, or the checker accepted this: of
/// earlier ops what that state keeps, of later ones what the start keeps, and the
/// op itself in full.
pub proof fn law_whole_ops_are_tried_in_order(
    p: ProgramView,
    calls: Seq<Call>,
    point: int,
    start: Seq<bool>,
) -> (mid: Seq<bool>)
    requires
        program_sound(p),
        0 <= point < p.op_end.len(),
        p.profile == Profile::Posix,
        legal(p, point, start),
        lookup(calls, key_with(p, start, p.marks_before[point])) matches Some(Some(_)),
        minimized(p, calls, point, start).known,
    ensures
        within(start, mid),
        within(mid, minimized(p, calls, point, start).persisted),
        forall|o: usize| #[trigger]
            lost_part(p, start, o) ==> whole_in(p, mid, o) || accepted(
                p,
                calls,
                point,
                up_to_op(p, start, mid, o),
            ),
{
    let lost = lost_of(p, start);
    let n = lost.len() as int;
    let s = unshrunk(p, calls, point, start);
    let mid = tried_ops(p, calls, point, s, lost, n);
    lemma_op_end(p, point);
    law_lost_ops_lost_something(p, start);
    lemma_tried_ops_shrinks_well(p, calls, point, start, s, lost, n);
    lemma_micros_grow(p, calls, point, start, mid, 0, start.len() as int);
    assert forall|o: usize| #[trigger] lost_part(p, start, o) implies whole_in(p, mid.persisted, o)
        || accepted(p, calls, point, up_to_op(p, start, mid.persisted, o)) by {
        assert(lost.contains(o));
        let k = choose|k: int| 0 <= k < n && lost[k] == o;
        lemma_one_op(p, calls, point, start, k);
    }
    mid.persisted
}

/// All of an op persisted.
pub open spec fn whole_in(p: ProgramView, s: Seq<bool>, o: usize) -> bool {
    forall|j: int| 0 <= j < s.len() && p.micro[j].op == o ==> #[trigger] s[j]
}

/// Of the ops before `o` what `mid` keeps, of those after it what `start` keeps,
/// and `o` in full.
pub open spec fn up_to_op(p: ProgramView, start: Seq<bool>, mid: Seq<bool>, o: usize) -> Seq<bool> {
    Seq::new(
        start.len(),
        |j: int|
            if p.micro[j].op < o {
                mid[j]
            } else {
                start[j] || p.micro[j].op == o
            },
    )
}

proof fn lemma_one_op(p: ProgramView, calls: Seq<Call>, point: int, start: Seq<bool>, k: int)
    requires
        program_sound(p),
        0 <= point < p.op_end.len(),
        p.profile == Profile::Posix,
        legal(p, point, start),
        lookup(calls, key_with(p, start, p.marks_before[point])) matches Some(Some(_)),
        minimized(p, calls, point, start).known,
        0 <= k < lost_of(p, start).len(),
    ensures
        ({
            let lost = lost_of(p, start);
            let s = unshrunk(p, calls, point, start);
            let mid = tried_ops(p, calls, point, s, lost, lost.len() as int).persisted;
            let o = lost[k];
            whole_in(p, mid, o) || accepted(p, calls, point, up_to_op(p, start, mid, o))
        }),
{
    let lost = lost_of(p, start);
    let n = lost.len() as int;
    let s = unshrunk(p, calls, point, start);
    let whole = tried_ops(p, calls, point, s, lost, n);
    let mid = whole.persisted;
    let o = lost[k];
    lemma_op_end(p, point);
    law_lost_ops_lost_something(p, start);
    lemma_tried_ops_shrinks_well(p, calls, point, start, s, lost, k);
    lemma_tried_ops_shrinks_well(p, calls, point, start, s, lost, k + 1);
    lemma_tried_ops_shrinks_well(p, calls, point, start, s, lost, n);
    lemma_micros_grow(p, calls, point, start, whole, 0, start.len() as int);
    lemma_ops_grow(p, calls, point, start, s, lost, k + 1, n);
    lemma_op_step(p, calls, point, start, s, lost, k + 1);
    let u = tried_ops(p, calls, point, s, lost, k).persisted;
    let after = tried_ops(p, calls, point, s, lost, k + 1).persisted;
    let wider = Seq::new(u.len(), |j: int| u[j] || p.micro[j].op == o);
    if accepted(p, calls, point, wider) {
        let want = up_to_op(p, start, mid, o);
        assert forall|j: int| 0 <= j < want.len() implies #[trigger] wider[j] == want[j] by {
            let op = p.micro[j].op;
            if op < o {
                if lost.contains(op) {
                    assert forall|i: int| k <= i < n implies #[trigger] lost[i] != op by {
                        if i > k {
                            assert(lost[k] < lost[i]);
                        }
                    }
                    lemma_ops_settled(p, calls, point, start, s, lost, k, n, j);
                } else {
                    assert(start[j]) by {
                        if !start[j] {
                            assert(lost_part(p, start, op));
                        }
                    }
                    assert(u[j] && mid[j]);
                }
            } else if op > o {
                assert forall|i: int| 0 <= i < k implies #[trigger] lost[i] != op by {
                    assert(lost[i] < lost[k]);
                }
                lemma_ops_exact(p, calls, point, start, s, lost, k, j);
            }
        }
        assert(wider =~= want);
    } else {
        assert forall|j: int| 0 <= j < mid.len() && p.micro[j].op == o implies
            #[trigger] mid[j] by {
            assert(after[j]);
        }
    }
}

} // verus!
