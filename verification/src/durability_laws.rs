//! What each barrier makes durable, told by the inodes that a micro-op changes
//! and by the ops of the trace.

use crate::content_laws::{has_entries_of, law_created_is_found, lemma_walk_in_more};
use crate::error::ErrorView;
use crate::laws::{barrier_at, law_compiled_sound, law_durable_from_first_barrier, snapshot_fits};
use crate::model::{applied, found, fs_sound, micro_sound, FsView, Ino, MicroView, Profile};
use crate::paths::{components, parent};
use crate::program::{
    applied_all, block_of, chunks, compilable, compiled, compiled_upto, covers, effect,
    lemma_applied_all_sound, lemma_effect_sound, with_node, NEVER, Barrier, ProgramView,
};
use crate::trace::{op_fits, OpView, TraceView};
use vstd::prelude::*;

verus! {

/// An `fsync` of an inode covers its data and its size, the entries made and
/// removed in it, and the renames into it; a rename out of it is not covered,
/// nor is what another inode holds. With a journal it covers all metadata as
/// well, but no data of another file. A `sync` covers everything, and nothing
/// else covers anything.
pub proof fn law_what_a_barrier_covers(
    profile: Profile,
    f: Ino,
    ino: Ino,
    other: Ino,
    name: Seq<char>,
    to_name: Seq<char>,
    offset: u64,
    data: Seq<u8>,
    len: u64,
    flag: bool,
    m: MicroView,
)
    requires
        other != f,
    ensures
        covers(profile, Barrier::Fsync(f), MicroView::Write { ino: f, offset, data }),
        !covers(profile, Barrier::Fsync(f), MicroView::Write { ino: other, offset, data }),
        covers(profile, Barrier::Fsync(f), MicroView::SetLen { ino: f, len, keep_tail: flag }),
        covers(profile, Barrier::Fsync(f), MicroView::SetLen { ino: other, len, keep_tail: flag })
            == (profile == Profile::Ext4Ordered),
        covers(profile, Barrier::Fsync(f), MicroView::Link { parent: f, name, ino }),
        covers(profile, Barrier::Fsync(f), MicroView::Link { parent: other, name, ino }) == (profile
            == Profile::Ext4Ordered),
        covers(profile, Barrier::Fsync(f), MicroView::Unlink { parent: f, name }),
        covers(profile, Barrier::Fsync(f), MicroView::Unlink { parent: other, name }) == (profile
            == Profile::Ext4Ordered),
        covers(
            profile,
            Barrier::Fsync(f),
            MicroView::Rename { from: other, from_name: name, to: f, to_name, ino, replaces: flag },
        ),
        covers(
            profile,
            Barrier::Fsync(f),
            MicroView::Rename { from: f, from_name: name, to: other, to_name, ino, replaces: flag },
        ) == (profile == Profile::Ext4Ordered),
        covers(profile, Barrier::Sync, m),
        !covers(profile, Barrier::Nothing, m),
{
}

/// The image that the workload saw after the first `n` ops.
pub open spec fn image_after(t: TraceView, profile: Profile, block: u64, n: int) -> FsView {
    compiled_upto(t, profile, block, n)->Ok_0.volatile
}

/// What the first ops compile to stays when more follow, but for durability.
pub proof fn lemma_compiled_prefix(t: TraceView, profile: Profile, block: u64, a: int, n: int)
    requires
        0 <= a <= n,
        compiled_upto(t, profile, block, n) is Ok,
        compiled_upto(t, profile, block, n)->Ok_0.micro.len() <= usize::MAX,
    ensures
        compiled_upto(t, profile, block, a) is Ok,
        ({
            let x = compiled_upto(t, profile, block, a)->Ok_0;
            let c = compiled_upto(t, profile, block, n)->Ok_0;
            &&& x.micro.len() <= c.micro.len()
            &&& x.op_end.len() == a + 1
            &&& c.op_end.len() == n + 1
            &&& x.marks_before.len() == a + 1
            &&& c.marks_before.len() == n + 1
            &&& c.marks_before[a] == x.marks_before[a]
            &&& x.op_end[a] == x.micro.len()
            &&& c.op_end[a] == x.micro.len()
            &&& c.op_end[n] == c.micro.len()
            &&& forall|j: int|
                0 <= j < x.micro.len() ==> (#[trigger] c.micro[j]).m == x.micro[j].m
                    && c.micro[j].op == x.micro[j].op
        }),
    decreases n,
{
    if n > 0 {
        if a < n {
            lemma_compiled_prefix(t, profile, block, a, n - 1);
        } else {
            lemma_compiled_prefix(t, profile, block, n - 1, n - 1);
        }
    }
}

/// An `fsync` makes durable, at the latest, every earlier change to the data or
/// the size of its inode, every earlier entry made in it or removed from it, and
/// every earlier rename into it; with a journal, all earlier metadata.
pub proof fn law_fsync_makes_durable(
    t: TraceView,
    profile: Profile,
    block: u64,
    p: ProgramView,
    path: Seq<char>,
    i: int,
    j: int,
)
    requires
        t.ops.len() < NEVER,
        compiled(t, profile, block) == Ok::<ProgramView, ErrorView>(p),
        0 <= i < t.ops.len(),
        t.ops[i] == (OpView::Fsync { path }),
        0 <= j < p.micro.len(),
        p.micro[j].op < i,
        p.micro.len() <= usize::MAX,
    ensures
        found(image_after(t, profile, block, i), path) is Some,
        ({
            let f = found(image_after(t, profile, block, i), path)->0;
            let x = p.micro[j];
            &&& x.m matches MicroView::Write { ino, .. } ==> ino == f ==> x.durable_at <= i
            &&& x.m matches MicroView::SetLen { ino, .. } ==> ino == f ==> x.durable_at <= i
            &&& x.m matches MicroView::Link { parent, .. } ==> parent == f ==> x.durable_at <= i
            &&& x.m matches MicroView::Unlink { parent, .. } ==> parent == f ==> x.durable_at <= i
            &&& x.m matches MicroView::Rename { to, .. } ==> to == f ==> x.durable_at <= i
            &&& profile == Profile::Ext4Ordered && !(x.m is Write) ==> x.durable_at <= i
        }),
{
    let n = t.ops.len() as int;
    lemma_compiled_prefix(t, profile, block, i + 1, n);
    lemma_compiled_prefix(t, profile, block, i, n);
    law_durable_from_first_barrier(t, profile, block, n, j);
    let f = found(image_after(t, profile, block, i), path)->0;
    assert(barrier_at(t, profile, block, i) == Barrier::Fsync(f));
}

/// What is durable was made so by a later op: a `sync`, or an `fsync` of the
/// inode whose data, size or entries changed; with a journal, by any `fsync` if
/// it is metadata.
pub proof fn law_durable_needs_a_barrier(
    t: TraceView,
    profile: Profile,
    block: u64,
    p: ProgramView,
    j: int,
)
    requires
        t.ops.len() < NEVER,
        compiled(t, profile, block) == Ok::<ProgramView, ErrorView>(p),
        0 <= j < p.micro.len(),
        p.micro.len() <= usize::MAX,
    ensures
        p.micro[j].op < t.ops.len(),
        p.micro[j].durable_at != NEVER ==> {
            let x = p.micro[j];
            let at = x.durable_at as int;
            &&& x.op < at < t.ops.len()
            &&& t.ops[at] is Sync || t.ops[at] is Fsync
            &&& t.ops[at] matches OpView::Fsync { path } ==> {
                let f = found(image_after(t, profile, block, at), path);
                ||| profile == Profile::Ext4Ordered && !(x.m is Write)
                ||| x.m matches MicroView::Write { ino, .. } && f == Some(ino)
                ||| x.m matches MicroView::SetLen { ino, .. } && f == Some(ino)
                ||| x.m matches MicroView::Link { parent, .. } && f == Some(parent)
                ||| x.m matches MicroView::Unlink { parent, .. } && f == Some(parent)
                ||| x.m matches MicroView::Rename { to, .. } && f == Some(to)
            }
        },
{
    let n = t.ops.len() as int;
    law_durable_from_first_barrier(t, profile, block, n, j);
    let x = p.micro[j];
    if x.durable_at != NEVER {
        lemma_compiled_prefix(t, profile, block, x.durable_at + 1, n);
    }
}

/// The micro-ops of op `a` that the next barrier, an `fsync` at op `b`, covers.
#[verifier::spinoff_prover]
proof fn lemma_next_fsync(
    t: TraceView,
    profile: Profile,
    block: u64,
    p: ProgramView,
    a: int,
    b: int,
)
    requires
        t.ops.len() < NEVER,
        compiled(t, profile, block) == Ok::<ProgramView, ErrorView>(p),
        p.micro.len() <= usize::MAX,
        0 <= a < b < t.ops.len(),
        forall|k: int| a < k < b ==> !(#[trigger] t.ops[k] is Fsync) && !(t.ops[k] is Sync),
        t.ops[b] is Fsync,
    ensures
        effect(image_after(t, profile, block, a), t.ops[a], block_of(block)) is Ok,
        found(image_after(t, profile, block, b), t.ops[b]->Fsync_path) is Some,
        ({
            let f = found(image_after(t, profile, block, b), t.ops[b]->Fsync_path)->0;
            let e = effect(image_after(t, profile, block, a), t.ops[a], block_of(block))->Ok_0;
            let first = p.op_end[a] as int;
            let past = p.op_end[a + 1] as int;
            &&& past == first + e.micros.len()
            &&& forall|j: int|
                first <= j < past ==> {
                    &&& (#[trigger] p.micro[j]).m == e.micros[j - first]
                    &&& covers(profile, Barrier::Fsync(f), p.micro[j].m) ==> p.micro[j].durable_at
                        == b
                }
        }),
{
    let n = t.ops.len() as int;
    lemma_compiled_prefix(t, profile, block, a, n);
    lemma_compiled_prefix(t, profile, block, a + 1, n);
    lemma_compiled_prefix(t, profile, block, a, a + 1);
    lemma_compiled_prefix(t, profile, block, b, n);
    lemma_compiled_prefix(t, profile, block, b + 1, n);
    let before = image_after(t, profile, block, a);
    let e = effect(before, t.ops[a], block_of(block))->Ok_0;
    let f = found(image_after(t, profile, block, b), t.ops[b]->Fsync_path)->0;
    assert(barrier_at(t, profile, block, b) == Barrier::Fsync(f));
    let first = p.op_end[a] as int;
    let past = p.op_end[a + 1] as int;
    assert(past == first + e.micros.len());
    assert forall|j: int| first <= j < past implies {
        &&& (#[trigger] p.micro[j]).m == e.micros[j - first]
        &&& covers(profile, Barrier::Fsync(f), p.micro[j].m) ==> p.micro[j].durable_at == b
    } by {
        law_durable_from_first_barrier(t, profile, block, n, j);
        let x = compiled_upto(t, profile, block, a + 1)->Ok_0;
        assert(x.micro[j].m == e.micros[j - first]);
        assert(x.micro[j].op == a);
        let at = p.micro[j].durable_at as int;
        if at < b {
            assert(barrier_at(t, profile, block, at) == Barrier::Nothing);
        }
    }
}

/// A change that an `fsync` covers is durable from that `fsync` on, if no other
/// barrier came between: an entry made or removed, from the `fsync` of its
/// directory; a rename, from that of its target directory; what was written and
/// a length that was set, from that of the file.
pub proof fn law_next_fsync_is_the_barrier(
    t: TraceView,
    profile: Profile,
    block: u64,
    p: ProgramView,
    a: int,
    b: int,
)
    requires
        t.ops.len() < NEVER,
        compiled(t, profile, block) == Ok::<ProgramView, ErrorView>(p),
        p.micro.len() <= usize::MAX,
        0 <= a < b < t.ops.len(),
        forall|k: int| a < k < b ==> !(#[trigger] t.ops[k] is Fsync) && !(t.ops[k] is Sync),
        t.ops[b] is Fsync,
    ensures
        ({
            let before = image_after(t, profile, block, a);
            let at_sync = image_after(t, profile, block, b);
            let synced = t.ops[b]->Fsync_path;
            let first = p.op_end[a] as int;
            let past = p.op_end[a + 1] as int;
            let kept = |path: Seq<char>| found(at_sync, path) == found(before, path);
            &&& t.ops[a] matches OpView::Unlink { path } ==> synced == parent(path) && kept(
                synced,
            ) ==> past == first + 1 && p.micro[first].durable_at == b
            &&& t.ops[a] matches OpView::Rmdir { path } ==> synced == parent(path) && kept(
                synced,
            ) ==> past == first + 1 && p.micro[first].durable_at == b
            &&& t.ops[a] matches OpView::Create { path } ==> synced == parent(path) && kept(synced)
                && found(before, path) is None ==> past == first + 1 && p.micro[first].durable_at
                == b
            &&& t.ops[a] matches OpView::Mkdir { path } ==> synced == parent(path) && kept(synced)
                && found(before, path) is None ==> past == first + 1 && p.micro[first].durable_at
                == b
            &&& t.ops[a] matches OpView::Rename { from, to } ==> synced == parent(to) && kept(
                synced,
            ) && from != to && found(before, from) != found(before, to) ==> past == first + 1
                && p.micro[first].durable_at == b
            &&& t.ops[a] matches OpView::Truncate { path, .. } ==> synced == path && kept(
                synced,
            ) ==> past == first + 1 && p.micro[first].durable_at == b
            &&& t.ops[a] matches OpView::Write { path, data, .. } ==> synced == path && kept(
                synced,
            ) ==> (data.len() > 0 ==> past > first) && forall|j: int|
                first <= j < past ==> (#[trigger] p.micro[j]).durable_at == b
        }),
{
    lemma_next_fsync(t, profile, block, p, a, b);
    let before = image_after(t, profile, block, a);
    let first = p.op_end[a] as int;
    let past = p.op_end[a + 1] as int;
    let e = effect(before, t.ops[a], block_of(block))->Ok_0;
    match t.ops[a] {
        OpView::Write { path, offset, data } => {
            let ino = found(before, path)->0;
            lemma_chunks_on_one_file(ino, offset as int, data, block_of(block));
        },
        _ => {},
    }
}

proof fn lemma_chunks_on_one_file(ino: Ino, at: int, data: Seq<u8>, block: int)
    requires
        block > 0,
    ensures
        data.len() > 0 ==> chunks(ino, at, data, block).len() > 0,
        forall|k: int|
            0 <= k < chunks(ino, at, data, block).len() ==> (#[trigger] chunks(
                ino,
                at,
                data,
                block,
            )[k] matches MicroView::Write { ino: f, .. } && f == ino),
    decreases data.len(),
{
    if data.len() > 0 {
        let room = block - at % block;
        let n = if room < data.len() {
            room
        } else {
            data.len() as int
        };
        assert(room > 0) by (nonlinear_arith)
            requires
                block > 0,
                room == block - at % block,
        ;
        lemma_chunks_on_one_file(ino, at + n, data.skip(n), block);
        let rest = chunks(ino, at + n, data.skip(n), block);
        let all = chunks(ino, at, data, block);
        assert forall|k: int| 0 <= k < all.len() implies (#[trigger] all[k] matches
            MicroView::Write { ino: f, .. } && f == ino) by {
            if k > 0 {
                assert(all[k] == rest[k - 1]);
            }
        }
    }
}

/// Removals, writes and new lengths make no path lead anywhere new.
proof fn lemma_nothing_is_added(fs: FsView, micros: Seq<MicroView>)
    requires
        fs_sound(fs),
        forall|k: int| 0 <= k < micros.len() ==> micro_sound(#[trigger] micros[k], fs.len()),
        forall|k: int|
            0 <= k < micros.len() ==> (#[trigger] micros[k] is Unlink || micros[k] is Write
                || micros[k] is SetLen),
    ensures
        fs_sound(applied_all(fs, micros)),
        has_entries_of(fs, applied_all(fs, micros)),
    decreases micros.len(),
{
    lemma_applied_all_sound(fs, micros);
    if micros.len() > 0 {
        let front = micros.drop_last();
        assert forall|k: int| 0 <= k < front.len() implies micro_sound(
            #[trigger] front[k],
            fs.len(),
        ) && (front[k] is Unlink || front[k] is Write || front[k] is SetLen) by {
            assert(front[k] == micros[k]);
        }
        lemma_nothing_is_added(fs, front);
        lemma_applied_all_sound(fs, front);
        let x = applied_all(fs, front);
        let m = micros[micros.len() - 1];
        assert(micro_sound(m, fs.len()));
        let y = applied(x, m);
        assert(has_entries_of(x, y));
        assert forall|i: int, k: Seq<char>|
            0 <= i < y.len() && y[i] is Dir && #[trigger] y[i]->Dir_0.contains_key(
                k,
            ) implies fs[i] is Dir && fs[i]->Dir_0.contains_key(k) && fs[i]->Dir_0[k]
            == y[i]->Dir_0[k] by {
            assert(x[i]->Dir_0.contains_key(k));
        }
    }
}

/// An `fsync` right behind a change makes it durable, with nothing more asked: one
/// of the directory behind a removal or a creation in it, and one of the file
/// behind a write to it or a truncation.
pub proof fn law_fsync_right_behind(
    t: TraceView,
    profile: Profile,
    block: u64,
    p: ProgramView,
    a: int,
)
    requires
        compilable(t),
        snapshot_fits(t.initial),
        t.ops.len() + 1 <= NEVER,
        compiled(t, profile, block) == Ok::<ProgramView, ErrorView>(p),
        p.micro.len() <= usize::MAX,
        p.base.len() < usize::MAX,
        0 <= a,
        a + 1 < t.ops.len(),
        t.ops[a + 1] is Fsync,
    ensures
        ({
            let synced = t.ops[a + 1]->Fsync_path;
            let first = p.op_end[a] as int;
            let past = p.op_end[a + 1] as int;
            &&& t.ops[a] matches OpView::Unlink { path } ==> synced == parent(path) ==> past
                == first + 1 && p.micro[first].durable_at == a + 1
            &&& t.ops[a] matches OpView::Rmdir { path } ==> synced == parent(path) ==> past == first
                + 1 && p.micro[first].durable_at == a + 1
            &&& t.ops[a] matches OpView::Create { path } ==> synced == parent(path) && past > first
                ==> past == first + 1 && p.micro[first].durable_at == a + 1
            &&& t.ops[a] matches OpView::Mkdir { path } ==> synced == parent(path) && past > first
                ==> past == first + 1 && p.micro[first].durable_at == a + 1
            &&& t.ops[a] matches OpView::Truncate { path, .. } ==> synced == path ==> past == first
                + 1 && p.micro[first].durable_at == a + 1
            &&& t.ops[a] matches OpView::Write { path, .. } ==> synced == path ==> forall|j: int|
                first <= j < past ==> (#[trigger] p.micro[j]).durable_at == a + 1
        }),
{
    let n = t.ops.len() as int;
    let b = a + 1;
    law_next_fsync_is_the_barrier(t, profile, block, p, a, b);
    lemma_next_fsync(t, profile, block, p, a, b);
    lemma_image_sound(t, profile, block, a, n);
    let v = image_after(t, profile, block, a);
    let op = t.ops[a];
    let e = effect(v, op, block_of(block))->Ok_0;
    let after = image_after(t, profile, block, b);
    let synced = t.ops[b]->Fsync_path;
    assert(compiled_upto(t, profile, block, b) is Ok) by {
        lemma_compiled_prefix(t, profile, block, b, n);
    }
    assert(after == applied_all(with_node(v, e.node), e.micros));
    assert(op_fits(t.ops[a]));
    lemma_effect_sound(v, op, block_of(block));
    match op {
        OpView::Create { path } => {
            if e.micros.len() > 0 {
                law_created_is_found(v, path, parent(path), block_of(block));
            }
        },
        OpView::Mkdir { path } => {
            if e.micros.len() > 0 {
                law_created_is_found(v, path, parent(path), block_of(block));
            }
        },
        OpView::Write { path, offset, data } => {
            lemma_chunks_on_one_file(found(v, path)->0, offset as int, data, block_of(block));
            let parts = chunks(found(v, path)->0, offset as int, data, block_of(block));
            assert forall|k: int| 0 <= k < e.micros.len() implies (#[trigger] e.micros[k] is Unlink
                || e.micros[k] is Write || e.micros[k] is SetLen) by {
                if k < parts.len() {
                    assert(e.micros[k] == parts[k]);
                }
            }
            lemma_nothing_is_added(v, e.micros);
            lemma_walk_in_more(v, after, components(synced));
        },
        OpView::Truncate { .. } | OpView::Unlink { .. } | OpView::Rmdir { .. } => {
            lemma_nothing_is_added(v, e.micros);
            lemma_walk_in_more(v, after, components(synced));
        },
        _ => {},
    }
}

/// The images on the way of a trace that compiles are sound.
proof fn lemma_image_sound(t: TraceView, profile: Profile, block: u64, a: int, n: int)
    requires
        compilable(t),
        snapshot_fits(t.initial),
        0 <= a <= n <= t.ops.len(),
        t.ops.len() + 1 <= NEVER,
        compiled_upto(t, profile, block, n) is Ok,
        compiled_upto(t, profile, block, n)->Ok_0.micro.len() <= usize::MAX,
        compiled_upto(t, profile, block, n)->Ok_0.base.len() < usize::MAX,
    ensures
        compiled_upto(t, profile, block, a) is Ok,
        fs_sound(image_after(t, profile, block, a)),
        image_after(t, profile, block, a).len() < usize::MAX,
    decreases n - a,
{
    if a < n {
        let b = compiled_upto(t, profile, block, n - 1)->Ok_0;
        let c = compiled_upto(t, profile, block, n)->Ok_0;
        assert(b.base.len() <= c.base.len() && b.micro.len() <= c.micro.len());
        lemma_image_sound(t, profile, block, a, n - 1);
    } else {
        lemma_compiled_prefix(t, profile, block, a, n);
        law_compiled_sound(t, profile, block, n);
    }
}

} // verus!
