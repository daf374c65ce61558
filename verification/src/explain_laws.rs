//! What a minimized failure says of its state: which ops were lost, which
//! persisted, what kind of bug it is, which files it is about and how to fix it.

use crate::check::{lookup, paths_upto, vulnerability, Call, Shrunk};
use crate::check_laws::{lemma_first_lost, lemma_lost_upto, lemma_ops_climb};
use crate::crash::tree_of;
use crate::explain::{
    acknowledged, explained, first_lost, is_torn, lost_of, lost_upto, renamed_in, survived_upto,
    Kind, VulnerabilityView,
};
use crate::names::{ascending, lemma_ordered_of};
use crate::paths::parent;
use crate::program::{program_sound, ProgramView};
use crate::states::Key;
use crate::text::{debug_quoted, decimal, trim};
use crate::trace::{described, op_path, shown, OpView};
use vstd::prelude::*;

verus! {

/// Op `o` lost a micro-op.
pub open spec fn lost_part(p: ProgramView, s: Seq<bool>, o: usize) -> bool {
    exists|j: int| 0 <= j < s.len() && !(#[trigger] s[j]) && p.micro[j].op == o
}

/// Op `o` persisted a micro-op, after the first that was lost, that nothing had
/// made durable; and no micro-op of it was lost.
pub open spec fn lived_on(p: ProgramView, point: int, s: Seq<bool>, o: usize) -> bool {
    &&& !lost_part(p, s, o)
    &&& exists|i: int, j: int|
        0 <= i < j < s.len() && !(#[trigger] s[i]) && (#[trigger] s[j]) && p.micro[j].op == o
            && p.micro[j].durable_at >= point
}

proof fn lemma_lost_climbs(p: ProgramView, s: Seq<bool>, n: int)
    requires
        program_sound(p),
        0 <= n <= s.len() <= p.micro.len(),
    ensures
        forall|a: int, b: int|
            0 <= a < b < lost_upto(p, s, n).len() ==> (#[trigger] lost_upto(p, s, n)[a]) < (
            #[trigger] lost_upto(p, s, n)[b]),
        forall|a: int|
            0 <= a < lost_upto(p, s, n).len() ==> n > 0 && (#[trigger] lost_upto(p, s, n)[a])
                <= p.micro[n - 1].op,
    decreases n,
{
    if n > 0 {
        lemma_lost_climbs(p, s, n - 1);
        if n > 1 {
            lemma_ops_climb(p, n - 2, n - 1);
        }
        let before = lost_upto(p, s, n - 1);
        let after = lost_upto(p, s, n);
        let op = p.micro[n - 1].op;
        assert forall|a: int| 0 <= a < before.len() implies (#[trigger] before[a]) <= op by {}
        assert forall|a: int, b: int| 0 <= a < b < after.len() implies (#[trigger] after[a]) < (
        #[trigger] after[b]) by {
            if b < before.len() {
                assert(after[a] == before[a] && after[b] == before[b]);
            } else {
                assert(after[a] == before[a]);
                let last = before[before.len() - 1];
                assert(a < before.len() - 1 ==> before[a] < last);
            }
        }
        assert forall|a: int| 0 <= a < after.len() implies (#[trigger] after[a]) <= op by {
            if a < before.len() {
                assert(after[a] == before[a]);
            }
        }
    }
}

/// The lost ops are those that lost a micro-op, each once and in order.
pub proof fn law_lost_ops_lost_something(p: ProgramView, s: Seq<bool>)
    requires
        program_sound(p),
        s.len() <= p.micro.len(),
    ensures
        forall|a: int, b: int|
            0 <= a < b < lost_of(p, s).len() ==> (#[trigger] lost_of(p, s)[a]) < (
            #[trigger] lost_of(p, s)[b]),
        forall|o: usize| #[trigger] lost_of(p, s).contains(o) <==> lost_part(p, s, o),
{
    lemma_lost_climbs(p, s, s.len() as int);
    lemma_lost_upto(p, s, s.len() as int);
}

proof fn lemma_survivors(
    p: ProgramView,
    point: int,
    s: Seq<bool>,
    lost: Seq<usize>,
    first: int,
    n: int,
)
    requires
        program_sound(p),
        0 <= first,
        n <= s.len() <= p.micro.len(),
    ensures
        ({
            let v = survived_upto(p, point, s, lost, first, n);
            &&& forall|a: int, b: int|
                0 <= a < b < v.len() ==> (#[trigger] v[a]) < (#[trigger] v[b])
            &&& forall|a: int|
                0 <= a < v.len() ==> n > first && (#[trigger] v[a]) <= p.micro[n - 1].op
            &&& forall|o: usize| #[trigger]
                v.contains(o) <==> !lost.contains(o) && exists|j: int|
                    first <= j < n && (#[trigger] s[j]) && p.micro[j].op == o
                        && p.micro[j].durable_at >= point
        }),
    decreases n - first,
{
    if n > first {
        lemma_survivors(p, point, s, lost, first, n - 1);
        if n - 1 > first {
            lemma_ops_climb(p, n - 2, n - 1);
        }
        let before = survived_upto(p, point, s, lost, first, n - 1);
        let v = survived_upto(p, point, s, lost, first, n);
        let x = p.micro[n - 1];
        assert forall|o: usize| #[trigger] v.contains(o) <==> !lost.contains(o) && exists|j: int|
            first <= j < n && (#[trigger] s[j]) && p.micro[j].op == o && p.micro[j].durable_at
                >= point by {
            if v.contains(o) {
                let a = choose|a: int| 0 <= a < v.len() && v[a] == o;
                if a < before.len() {
                    assert(before[a] == o);
                    assert(before.contains(o));
                    let j = choose|j: int|
                        first <= j < n - 1 && (#[trigger] s[j]) && p.micro[j].op == o
                            && p.micro[j].durable_at >= point;
                    assert(s[j]);
                } else {
                    assert(s[n - 1]);
                }
            }
            if !lost.contains(o) && exists|j: int|
                first <= j < n && (#[trigger] s[j]) && p.micro[j].op == o && p.micro[j].durable_at
                    >= point {
                let j = choose|j: int|
                    first <= j < n && (#[trigger] s[j]) && p.micro[j].op == o
                        && p.micro[j].durable_at >= point;
                if j < n - 1 {
                    assert(before.contains(o));
                    let a = choose|a: int| 0 <= a < before.len() && before[a] == o;
                    assert(v[a] == o);
                } else {
                    assert(v[v.len() - 1] == o);
                }
            }
        }
    }
}

/// What a vulnerability says of the ops: which one completed last before the
/// crash; which lost something, in order; and the first five that lived on, in
/// order, unless nothing was lost or the bug is one of durability. Each op is
/// described.
pub proof fn law_vulnerability_names_the_ops(
    p: ProgramView,
    ops: Seq<OpView>,
    point: usize,
    s: Seq<bool>,
    message: Seq<char>,
    durability: bool,
)
    requires
        program_sound(p),
        s.len() <= p.micro.len(),
    ensures
        ({
            let v = explained(p, ops, point, s, message, durability);
            &&& v.crash_point == point
            &&& v.message == message
            &&& v.occurrences == 1
            &&& v.in_recovery is None
            &&& point == 0 ==> v.crash_after is None
            &&& point > 0 ==> (v.crash_after matches Some(o) && o.index == point - 1 && o.op
                == described(ops[point - 1]))
            &&& forall|k: int|
                0 <= k < v.lost.len() ==> (#[trigger] v.lost[k]).op == described(
                    ops[v.lost[k].index as int],
                ) && lost_part(p, s, v.lost[k].index)
            &&& forall|a: int, b: int|
                0 <= a < b < v.lost.len() ==> (#[trigger] v.lost[a]).index < (
                #[trigger] v.lost[b]).index
            &&& forall|o: usize| #[trigger]
                lost_part(p, s, o) ==> exists|k: int|
                    0 <= k < v.lost.len() && (#[trigger] v.lost[k]).index == o
            &&& v.survived.len() <= 5
            &&& forall|k: int|
                0 <= k < v.survived.len() ==> (#[trigger] v.survived[k]).op == described(
                    ops[v.survived[k].index as int],
                ) && lived_on(p, point as int, s, v.survived[k].index)
            &&& forall|a: int, b: int|
                0 <= a < b < v.survived.len() ==> (#[trigger] v.survived[a]).index < (
                #[trigger] v.survived[b]).index
            &&& durability ==> v.survived.len() == 0
            &&& !durability ==> forall|o: usize| #[trigger]
                lived_on(p, point as int, s, o) ==> (exists|k: int|
                    0 <= k < v.survived.len() && (#[trigger] v.survived[k]).index == o) || (
                v.survived.len() == 5 && v.survived[4].index < o)
        }),
{
    let v = explained(p, ops, point, s, message, durability);
    let n = s.len() as int;
    let lost = lost_of(p, s);
    let first = first_lost(s, 0);
    let later = survived_upto(p, point as int, s, lost, first, n);
    law_lost_ops_lost_something(p, s);
    lemma_first_lost(s, 0);
    lemma_survivors(p, point as int, s, lost, first, n);
    assert forall|k: int| 0 <= k < v.lost.len() implies (#[trigger] v.lost[k]).op == described(
        ops[v.lost[k].index as int],
    ) && lost_part(p, s, v.lost[k].index) by {
        assert(lost.contains(lost[k]));
    }
    assert forall|a: int, b: int| 0 <= a < b < v.lost.len() implies (#[trigger] v.lost[a]).index
        < (#[trigger] v.lost[b]).index by {
        assert(lost[a] < lost[b]);
    }
    assert forall|o: usize| #[trigger] lost_part(p, s, o) implies exists|k: int|
        0 <= k < v.lost.len() && (#[trigger] v.lost[k]).index == o by {
        assert(lost.contains(o));
        let k = choose|k: int| 0 <= k < lost.len() && lost[k] == o;
        assert(v.lost[k].index == o);
    }
    assert forall|o: usize| later.contains(o) implies first < n by {
        let j = choose|j: int|
            first <= j < n && (#[trigger] s[j]) && p.micro[j].op == o && p.micro[j].durable_at
                >= point;
        assert(s[j]);
    }
    lemma_lived_on(p, point as int, s);
    assert forall|k: int| 0 <= k < v.survived.len() implies (#[trigger] v.survived[k]).op
        == described(ops[v.survived[k].index as int]) && lived_on(
        p,
        point as int,
        s,
        v.survived[k].index,
    ) by {
        assert(later.contains(later[k]));
    }
    assert forall|a: int, b: int| 0 <= a < b < v.survived.len() implies (
    #[trigger] v.survived[a]).index < (#[trigger] v.survived[b]).index by {
        assert(later[a] < later[b]);
    }
    if !durability {
        assert forall|o: usize| #[trigger] lived_on(p, point as int, s, o) implies (exists|k: int|
            0 <= k < v.survived.len() && (#[trigger] v.survived[k]).index == o) || (
        v.survived.len() == 5 && v.survived[4].index < o) by {
            assert(later.contains(o));
            let k = choose|k: int| 0 <= k < later.len() && later[k] == o;
            if k < 5 {
                assert(v.survived[k].index == o);
            } else {
                assert(later[4] < later[k]);
            }
        }
    }
}

/// A write of which one piece of data persisted while a part was lost.
pub open spec fn tore(p: ProgramView, ops: Seq<OpView>, s: Seq<bool>) -> bool {
    exists|j: int, k: int|
        0 <= j < s.len() && 0 <= k < s.len() && (#[trigger] s[j]) && !(#[trigger] s[k])
            && p.micro[j].op == p.micro[k].op && p.micro[j].m is Write
            && ops[p.micro[j].op as int] is Write
}

/// The kind of a bug, from its minimized state: the update is not atomic if
/// nothing was lost; something is unsynced if the state passes once nothing is
/// acknowledged; a write tore if it persisted in part; operations were reordered
/// if one lived on past what was lost; and otherwise something is unsynced.
pub proof fn law_kind_is_decided_by_the_state(
    p: ProgramView,
    ops: Seq<OpView>,
    point: usize,
    s: Seq<bool>,
    message: Seq<char>,
    durability: bool,
)
    requires
        program_sound(p),
        s.len() <= p.micro.len(),
    ensures
        ({
            let kind = explained(p, ops, point, s, message, durability).kind;
            let lost = exists|j: int| 0 <= j < s.len() && !(#[trigger] s[j]);
            let later = exists|o: usize| #[trigger] lived_on(p, point as int, s, o);
            &&& !lost ==> kind == Kind::NonAtomic
            &&& lost && durability ==> kind == Kind::Unsynced
            &&& lost && !durability && tore(p, ops, s) ==> kind == Kind::TornWrite
            &&& lost && !durability && !tore(p, ops, s) && later ==> kind == Kind::Reordering
            &&& lost && !durability && !tore(p, ops, s) && !later ==> kind == Kind::Unsynced
        }),
{
    let n = s.len() as int;
    let lost = lost_of(p, s);
    let first = first_lost(s, 0);
    let later = survived_upto(p, point as int, s, lost, first, n);
    law_lost_ops_lost_something(p, s);
    lemma_first_lost(s, 0);
    lemma_survivors(p, point as int, s, lost, first, n);
    if exists|j: int| 0 <= j < s.len() && !(#[trigger] s[j]) {
        let j = choose|j: int| 0 <= j < s.len() && !(#[trigger] s[j]);
        assert(first <= j);
    } else {
        assert(first == n) by {
            if first < n {
                assert(!s[first]);
            }
        }
    }
    if tore(p, ops, s) {
        let (j, k) = choose|j: int, k: int|
            0 <= j < s.len() && 0 <= k < s.len() && (#[trigger] s[j]) && !(#[trigger] s[k])
                && p.micro[j].op == p.micro[k].op && p.micro[j].m is Write
                && ops[p.micro[j].op as int] is Write;
        assert(lost_part(p, s, p.micro[j].op));
        assert(lost.contains(p.micro[j].op));
        assert(is_torn(p, ops, s, lost));
    }
    if is_torn(p, ops, s, lost) {
        let j = choose|j: int|
            0 <= j < s.len() && (#[trigger] s[j]) && p.micro[j].m is Write && lost.contains(
                p.micro[j].op,
            ) && ops[p.micro[j].op as int] is Write;
        assert(lost_part(p, s, p.micro[j].op));
        let k = choose|k: int|
            0 <= k < s.len() && !(#[trigger] s[k]) && p.micro[k].op == p.micro[j].op;
        assert(s[j] && !s[k]);
    }
    if first < n {
        assert(!s[first]);
        if later.len() > 0 {
            let o = later[0];
            assert(later.contains(o));
            let j = choose|j: int|
                first <= j < n && (#[trigger] s[j]) && p.micro[j].op == o && p.micro[j].durable_at
                    >= point;
            assert(!s[first] && s[j]);
            assert(lived_on(p, point as int, s, o));
        }
        if exists|o: usize| #[trigger] lived_on(p, point as int, s, o) {
            let o = choose|o: usize| #[trigger] lived_on(p, point as int, s, o);
            let (i, j) = choose|i: int, j: int|
                0 <= i < j < s.len() && !(#[trigger] s[i]) && (#[trigger] s[j]) && p.micro[j].op
                    == o && p.micro[j].durable_at >= point;
            assert(first <= i);
            assert(s[j]);
            assert(later.contains(o));
        }
    }
}

/// A bug is one of durability exactly when something was acknowledged before the
/// crash and the checker accepts the same content with nothing acknowledged. The
/// vulnerability that a minimized failure is, is explained so.
pub proof fn law_durability_is_what_marks_decide(
    p: ProgramView,
    ops: Seq<OpView>,
    calls: Seq<Call>,
    point: usize,
    s: Shrunk,
)
    ensures
        ({
            let key = Key { tree: tree_of(p, s.persisted), marks: 0 };
            let durability = p.marks_before[point as int] > 0 && lookup(calls, key) == Some(
                None::<Seq<char>>,
            );
            let v = vulnerability(p, ops, calls, point, s);
            v == (VulnerabilityView {
                files: v.files,
                ..explained(p, ops, point, s.persisted, s.message, durability)
            })
        }),
{
}

proof fn lemma_paths(ops: Seq<OpView>, v: Seq<usize>, n: int)
    requires
        0 <= n <= v.len(),
    ensures
        paths_upto(ops, v, n).finite(),
        forall|path: Seq<char>| #[trigger]
            paths_upto(ops, v, n).contains(path) <==> exists|k: int|
                0 <= k < n && op_path(ops[#[trigger] v[k] as int]) == Some(path),
    decreases n,
{
    if n > 0 {
        lemma_paths(ops, v, n - 1);
        let before = paths_upto(ops, v, n - 1);
        let after = paths_upto(ops, v, n);
        assert forall|path: Seq<char>| #[trigger] after.contains(path) <==> exists|k: int|
            0 <= k < n && op_path(ops[#[trigger] v[k] as int]) == Some(path) by {
            if after.contains(path) {
                if before.contains(path) {
                    let k = choose|k: int|
                        0 <= k < n - 1 && op_path(ops[#[trigger] v[k] as int]) == Some(path);
                    assert(op_path(ops[v[k] as int]) == Some(path));
                } else {
                    assert(op_path(ops[v[n - 1] as int]) == Some(path));
                }
            }
            if exists|k: int| 0 <= k < n && op_path(ops[#[trigger] v[k] as int]) == Some(path) {
                let k = choose|k: int|
                    0 <= k < n && op_path(ops[#[trigger] v[k] as int]) == Some(path);
                if k < n - 1 {
                    assert(before.contains(path));
                }
            }
        }
    }
}

/// An op changes, creates or removes what is at a path, or moves it away.
pub open spec fn is_about(op: OpView, path: Seq<char>) -> bool {
    ||| op == (OpView::Create { path })
    ||| op == (OpView::Mkdir { path })
    ||| op matches OpView::Write { path: q, .. } && q == path
    ||| op matches OpView::Truncate { path: q, .. } && q == path
    ||| op matches OpView::Rename { from, .. } && from == path
    ||| op == (OpView::Unlink { path })
    ||| op == (OpView::Rmdir { path })
    ||| op == (OpView::Fsync { path })
}

/// The files of a vulnerability are what its lost ops are about, each once and in
/// order.
pub proof fn law_files_are_those_of_the_lost_ops(
    p: ProgramView,
    ops: Seq<OpView>,
    calls: Seq<Call>,
    point: usize,
    s: Shrunk,
)
    requires
        program_sound(p),
        s.persisted.len() <= p.micro.len(),
    ensures
        ({
            let files = vulnerability(p, ops, calls, point, s).files;
            &&& ascending(files)
            &&& forall|path: Seq<char>| #[trigger]
                files.contains(path) <==> exists|o: usize| #[trigger]
                    lost_part(p, s.persisted, o) && is_about(ops[o as int], path)
        }),
{
    let lost = lost_of(p, s.persisted);
    let n = lost.len() as int;
    lemma_paths(ops, lost, n);
    law_lost_ops_lost_something(p, s.persisted);
    let names = paths_upto(ops, lost, n);
    lemma_ordered_of(names);
    let files = vulnerability(p, ops, calls, point, s).files;
    assert forall|path: Seq<char>| #[trigger] files.contains(path) <==> exists|o: usize| #[trigger]
        lost_part(p, s.persisted, o) && is_about(ops[o as int], path) by {
        assert(files.to_set().contains(path) == files.contains(path));
        if names.contains(path) {
            let k = choose|k: int|
                0 <= k < n && op_path(ops[#[trigger] lost[k] as int]) == Some(path);
            assert(lost.contains(lost[k]));
            assert(lost_part(p, s.persisted, lost[k]));
        }
        if exists|o: usize| #[trigger]
            lost_part(p, s.persisted, o) && is_about(ops[o as int], path) {
            let o = choose|o: usize| #[trigger]
                lost_part(p, s.persisted, o) && is_about(ops[o as int], path);
            assert(lost.contains(o));
            let k = choose|k: int| 0 <= k < n && lost[k] == o;
            assert(op_path(ops[lost[k] as int]) == Some(path));
        }
    }
}

/// The text `s` begins with `x`.
pub open spec fn begins(s: Seq<char>, x: Seq<char>) -> bool {
    x.len() <= s.len() && forall|i: int| 0 <= i < x.len() ==> #[trigger] s[i] == x[i]
}

/// The hint for a failure that lost nothing: the checker or the start is wrong,
/// or the op before the crash is not atomic.
pub proof fn law_hint_when_nothing_was_lost(
    p: ProgramView,
    ops: Seq<OpView>,
    point: usize,
    s: Seq<bool>,
    message: Seq<char>,
    durability: bool,
)
    requires
        forall|k: int| 0 <= k < s.len() ==> #[trigger] s[k],
    ensures
        point > 0 ==> begins(
            explained(p, ops, point, s, message, durability).hint,
            "the state right after "@ + "`"@ + described(ops[point - 1]) + "`"@,
        ),
        point == 0 ==> begins(
            explained(p, ops, point, s, message, durability).hint,
            "the checker rejects the initial state"@,
        ),
{
    lemma_first_lost(s, 0);
    if point > 0 {
        let rest =
            " is rejected even with every operation persisted, so this update is not atomic: build the new state in a temp file, fsync it, and rename it into place"@;
        assert(explained(p, ops, point, s, message, durability).hint =~= "the state right after "@
            + "`"@ + described(ops[point - 1]) + "`"@ + rest);
    } else {
        reveal_strlit("the checker rejects the initial state");
        reveal_strlit(
            "the checker rejects the initial state, before any operation ran: the checker (or the initial directory) is wrong",
        );
    }
}

/// The fix that a hint names, by the first micro-op `j` that was lost. For
/// something unsynced: an fsync of the file whose data or size was lost, or of
/// the directory whose entry was; after the op, and before what was acknowledged
/// last. For a torn write: the write. For a reordering: an fsync of the directory
/// of the lost entry, or of the file, before the rename of it that lived on if
/// one did.
#[verifier::spinoff_prover]
pub proof fn law_hints_name_the_fix(
    p: ProgramView,
    ops: Seq<OpView>,
    point: usize,
    s: Seq<bool>,
    message: Seq<char>,
    durability: bool,
    j: int,
)
    requires
        0 <= j < s.len(),
        !s[j],
        forall|k: int| 0 <= k < j ==> #[trigger] s[k],
    ensures
        ({
            let v = explained(p, ops, point, s, message, durability);
            let m = p.micro[j].m;
            let op = ops[p.micro[j].op as int];
            let path = match op_path(op) {
                Some(path) => path,
                None => ""@,
            };
            let data = m is Write || m is SetLen;
            let place = match op {
                OpView::Rename { to, .. } => parent(to),
                _ => parent(path),
            };
            let marks = p.marks_before[point as int];
            let sync_file = "fsync `"@ + shown(path) + "` after "@ + "`"@ + described(op) + "`"@;
            let sync_dir = "fsync the directory `"@ + shown(place) + "` after "@ + "`"@ + described(
                op,
            ) + "`"@;
            let fix = if data {
                sync_file
            } else {
                sync_dir
            };
            &&& v.kind == Kind::Unsynced && marks == 0 ==> v.hint == fix
            &&& v.kind == Kind::Unsynced && marks > 0 ==> v.hint == fix
                + " and before acknowledging ("@ + debug_quoted(trim(p.marks[marks - 1])) + ")"@
            &&& v.kind == Kind::TornWrite ==> begins(v.hint, "`"@ + described(op) + "`"@)
            &&& v.kind == Kind::Reordering && !data && (m is Rename <==> op is Rename) ==> begins(
                v.hint,
                sync_dir,
            )
        }),
{
    let v = explained(p, ops, point, s, message, durability);
    lemma_first_lost(s, 0);
    if first_lost(s, 0) < j {
        assert(s[first_lost(s, 0)]);
    }
    let m = p.micro[j].m;
    let op = ops[p.micro[j].op as int];
    let path = match op_path(op) {
        Some(path) => path,
        None => ""@,
    };
    let place = match op {
        OpView::Rename { to, .. } => parent(to),
        _ => parent(path),
    };
    let marks = p.marks_before[point as int];
    let sync_file = "fsync `"@ + shown(path) + "` after "@ + "`"@ + described(op) + "`"@;
    let sync_dir = "fsync the directory `"@ + shown(place) + "` after "@ + "`"@ + described(op)
        + "`"@;
    let ack = acknowledged(p, point as int);
    reveal_strlit("");
    if v.kind == Kind::Unsynced {
        if m is Write || m is SetLen {
            assert(v.hint =~= sync_file + ack);
        } else {
            assert(v.hint =~= sync_dir + ack);
        }
        if marks > 0 {
            assert(v.hint =~= (if m is Write || m is SetLen {
                sync_file
            } else {
                sync_dir
            }) + " and before acknowledging ("@ + debug_quoted(trim(p.marks[marks - 1])) + ")"@);
        } else {
            assert(v.hint =~= (if m is Write || m is SetLen {
                sync_file
            } else {
                sync_dir
            }));
        }
    } else if v.kind == Kind::Reordering && m is Rename && op is Rename {
        assert(v.hint =~= sync_dir + "; until then the rename can be undone"@);
    } else if v.kind == Kind::Reordering && (m is Link || m is Unlink) && !(op is Rename) {
        assert(v.hint =~= sync_dir + " to make the entry durable"@);
    }
}

/// The hint for data that was lost while a later op lived on: sync the file
/// before the rename of it that did, if there was one, and in any case before
/// what depends on it.
#[verifier::spinoff_prover]
pub proof fn law_hints_for_reordered_data(
    p: ProgramView,
    ops: Seq<OpView>,
    point: usize,
    s: Seq<bool>,
    message: Seq<char>,
    j: int,
    path: Seq<char>,
)
    requires
        program_sound(p),
        s.len() <= p.micro.len(),
        0 <= j < s.len(),
        !s[j],
        forall|k: int| 0 <= k < j ==> #[trigger] s[k],
        p.micro[j].m is Write || p.micro[j].m is SetLen,
        op_path(ops[p.micro[j].op as int]) == Some(path),
        explained(p, ops, point, s, message, false).kind == Kind::Reordering,
    ensures
        ({
            let hint = explained(p, ops, point, s, message, false).hint;
            let moved = |o: usize|
                lived_on(p, point as int, s, o) && (ops[o as int] matches OpView::Rename {
                    from,
                    ..
                } && shown(from) == shown(path));
            &&& (exists|o: usize| #[trigger] moved(o)) ==> exists|o: usize| #[trigger]
                moved(o) && begins(
                    hint,
                    "fsync `"@ + shown(path) + "` before "@ + "`"@ + described(ops[o as int])
                        + "`"@,
                )
            &&& !(exists|o: usize| #[trigger] moved(o)) ==> begins(
                hint,
                "`"@ + described(ops[p.micro[j].op as int]) + "`"@
                    + " can reach disk after later writes; fsync `"@ + shown(path) + "`"@,
            )
        }),
{
    let n = s.len() as int;
    let lost = lost_of(p, s);
    let first = first_lost(s, 0);
    let later = survived_upto(p, point as int, s, lost, first, n);
    lemma_first_lost(s, 0);
    if first < j {
        assert(s[first]);
    }
    law_lost_ops_lost_something(p, s);
    lemma_survivors(p, point as int, s, lost, first, n);
    lemma_lived_on(p, point as int, s);
    let hint = explained(p, ops, point, s, message, false).hint;
    let op = ops[p.micro[j].op as int];
    let moved = |o: usize|
        lived_on(p, point as int, s, o) && (ops[o as int] matches OpView::Rename { from, .. }
            && shown(from) == shown(path));
    lemma_renamed_in(ops, later, shown(path), 0);
    match renamed_in(ops, later, shown(path), 0) {
        Some(i) => {
            assert(later.contains(i));
            assert(moved(i));
            assert(hint =~= "fsync `"@ + shown(path) + "` before "@ + "`"@ + described(
                ops[i as int],
            ) + "`"@ + (" (op #"@ + decimal(i as nat)
                + "); the rename reached disk before the data it points to"@));
        },
        None => {
            assert forall|o: usize| !#[trigger] moved(o) by {
                if moved(o) {
                    assert(later.contains(o));
                    let a = choose|a: int| 0 <= a < later.len() && later[a] == o;
                    assert(later[a] == o);
                }
            }
            reveal_strlit("` before anything that depends on it");
            reveal_strlit("`");
            let front = "`"@ + described(op) + "`"@
                + " can reach disk after later writes; fsync `"@ + shown(path);
            assert(hint =~= front + "` before anything that depends on it"@);
            assert(hint[front.len() as int] == '`');
            let want = front + "`"@;
            assert forall|i: int| 0 <= i < want.len() implies #[trigger] hint[i] == want[i] by {}
        },
    }
}

/// The survivors that were counted are the ops that lived on.
proof fn lemma_lived_on(p: ProgramView, point: int, s: Seq<bool>)
    requires
        program_sound(p),
        s.len() <= p.micro.len(),
    ensures
        forall|o: usize| #[trigger]
            lived_on(p, point, s, o) == survived_upto(
                p,
                point,
                s,
                lost_of(p, s),
                first_lost(s, 0),
                s.len() as int,
            ).contains(o),
{
    let n = s.len() as int;
    let lost = lost_of(p, s);
    let first = first_lost(s, 0);
    let later = survived_upto(p, point, s, lost, first, n);
    law_lost_ops_lost_something(p, s);
    lemma_first_lost(s, 0);
    lemma_survivors(p, point, s, lost, first, n);
    assert forall|o: usize| #[trigger] lived_on(p, point, s, o) == later.contains(o) by {
        if later.contains(o) {
            let j = choose|j: int|
                first <= j < n && (#[trigger] s[j]) && p.micro[j].op == o && p.micro[j].durable_at
                    >= point;
            assert(!s[first] && s[j]);
        }
        if lived_on(p, point, s, o) {
            let (i, j) = choose|i: int, j: int|
                0 <= i < j < s.len() && !(#[trigger] s[i]) && (#[trigger] s[j]) && p.micro[j].op
                    == o && p.micro[j].durable_at >= point;
            assert(first <= i);
            assert(s[j]);
        }
    }
}

proof fn lemma_renamed_in(ops: Seq<OpView>, survivors: Seq<usize>, path: Seq<char>, k: int)
    requires
        0 <= k,
    ensures
        match renamed_in(ops, survivors, path, k) {
            Some(i) => survivors.contains(i) && (ops[i as int] matches OpView::Rename { from, .. }
                && shown(from) == path),
            None => forall|a: int|
                k <= a < survivors.len() ==> !(ops[#[trigger] survivors[a] as int] matches
                    OpView::Rename { from, .. } && shown(from) == path),
        },
    decreases survivors.len() - k,
{
    if k < survivors.len() {
        lemma_renamed_in(ops, survivors, path, k + 1);
    }
}

/// A description names what an op does and the path that it does it to; the root
/// is shown as a dot.
pub proof fn law_descriptions_name_op_and_path(op: OpView)
    ensures
        op matches OpView::Create { path } ==> described(op) == "create "@ + shown(path),
        op matches OpView::Mkdir { path } ==> described(op) == "mkdir "@ + shown(path),
        op matches OpView::Write { path, offset, data } ==> described(op) == "write "@ + shown(path)
            + " ["@ + decimal(offset as nat) + ".."@ + decimal((offset + data.len()) as nat)
            + ")"@,
        op matches OpView::Truncate { path, len } ==> described(op) == "truncate "@ + shown(path)
            + " to "@ + decimal(len as nat),
        op matches OpView::Rename { from, to } ==> described(op) == "rename "@ + shown(from)
            + " -> "@ + shown(to),
        op matches OpView::Unlink { path } ==> described(op) == "unlink "@ + shown(path),
        op matches OpView::Rmdir { path } ==> described(op) == "rmdir "@ + shown(path),
        op matches OpView::Fsync { path } ==> described(op) == "fsync "@ + shown(path),
        op is Sync ==> described(op) == "sync"@,
        op matches OpView::Mark { text } ==> begins(described(op), "mark "@),
        forall|path: Seq<char>|
            path.len() > 0 ==> #[trigger] shown(path) == path,
        shown(Seq::<char>::empty()) == "."@,
{
}

} // verus!
