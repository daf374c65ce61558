//! What holds of compiled traces and of crash states as a whole.

use crate::crash::{
    bit, candidates_of, chosen, closed, flight, flight_upto, held, legal, lemma_flight_prefix,
    lemma_flight_upto, lemma_op_end, lemma_subsets, meta_held, ops_in_flight, orders_writes,
    sampled, searchable_at, singles, started, stepped_by, subsets, survived, whole_ops, within,
    Search,
};
use crate::model::{
    applied, found, fs_sound, image, is_meta, leads_to, lemma_applied_sound, lemma_pushed_sound,
    lemma_walk_to_in_range, loadable, loaded, micro_sound, node_of, unlinked, visible, FsView, Ino,
    MicroView, NodeView, Profile,
};
use crate::names::{lemma_ordered_of, ordered};
use crate::paths::{components, file_name, parent};
use crate::program::{
    advanced, applied_all, barrier, block_of, chunks, compilable, compiled_upto, covers, effect,
    issued, lemma_advanced_sound, lemma_applied_all_sound, micro_op_sound, program_sound, so_far,
    NEVER, Barrier, MicroOpView, Partial, ProgramView,
};
use crate::trace::{op_fits, EntryView, OpView, TraceView, TreeView};
use vstd::prelude::*;

verus! {

/// The files of a snapshot can be held in memory.
pub open spec fn tree_fits(t: TreeView) -> bool {
    forall|k: Seq<char>| #[trigger]
        t.contains_key(k) ==> match t[k] {
            EntryView::File(data) => data.len() <= usize::MAX,
            EntryView::Dir => true,
        }
}

/// A partly compiled trace that memory can hold.
pub open spec fn partial_fits(c: Partial) -> bool {
    &&& c.base.len() <= usize::MAX
    &&& c.micro.len() <= usize::MAX
    &&& c.op_end.len() <= usize::MAX
}

/// The changes of a list of micro-ops.
pub open spec fn changes(micro: Seq<MicroOpView>) -> Seq<MicroView> {
    Seq::new(micro.len(), |j: int| micro[j].m)
}

pub proof fn lemma_loaded_sound(keys: Seq<Seq<char>>, t: TreeView, n: int)
    requires
        0 <= n <= keys.len(),
        tree_fits(t),
        forall|i: int| 0 <= i < keys.len() ==> t.contains_key(#[trigger] keys[i]),
        loaded(keys, t, n) is Some,
        n < usize::MAX,
    ensures
        fs_sound(loaded(keys, t, n)->0),
        loaded(keys, t, n)->0.len() == n + 1,
        loaded(keys, t, n)->0[0] is Dir,
    decreases n,
{
    if n > 0 {
        lemma_loaded_sound(keys, t, n - 1);
        let fs = loaded(keys, t, n - 1)->0;
        let key = keys[n - 1];
        lemma_walk_to_in_range(fs, components(parent(key)));
        assert(t.contains_key(key));
        lemma_pushed_sound(fs, node_of(t[key]));
        lemma_applied_sound(
            fs.push(node_of(t[key])),
            MicroView::Link {
                parent: found(fs, parent(key))->0,
                name: file_name(key),
                ino: fs.len() as usize,
            },
        );
    }
}

/// A snapshot that memory can hold.
pub open spec fn snapshot_fits(t: TreeView) -> bool {
    &&& t.dom().finite()
    &&& t.dom().len() < usize::MAX
    &&& tree_fits(t)
}

/// The image of a snapshot is sound: every name leads to an inode that exists.
pub proof fn law_image_sound(t: TreeView)
    requires
        loadable(t),
        snapshot_fits(t),
    ensures
        fs_sound(image(t)->0),
        image(t)->0[0] is Dir,
        image(t)->0.len() == t.dom().len() + 1,
{
    let keys = ordered(t.dom());
    lemma_ordered_of(t.dom());
    assert forall|i: int| 0 <= i < keys.len() implies t.contains_key(#[trigger] keys[i]) by {
        assert(keys.to_set().contains(keys[i]));
    }
    lemma_loaded_sound(keys, t, keys.len() as int);
}

/// What every compiled trace keeps: its image is sound, each micro-op lies
/// within the op it came from and speaks of inodes that exist, and it is durable
/// from an op after its own, or never.
pub proof fn law_compiled_sound(t: TraceView, profile: Profile, block: u64, n: int)
    requires
        compilable(t),
        snapshot_fits(t.initial),
        0 <= n <= t.ops.len(),
        n + 1 <= NEVER,
        compiled_upto(t, profile, block, n) is Ok,
        partial_fits(compiled_upto(t, profile, block, n)->Ok_0),
    ensures
        ({
            let c = compiled_upto(t, profile, block, n)->Ok_0;
            &&& program_sound(so_far(c, profile))
            &&& fs_sound(c.volatile)
            &&& c.volatile.len() == c.base.len()
            &&& c.op_end.len() == n + 1
            &&& c.marks.len() <= n
        }),
    decreases n,
{
    if n == 0 {
        law_image_sound(t.initial);
    } else {
        let b = compiled_upto(t, profile, block, n - 1)->Ok_0;
        let op = t.ops[n - 1];
        let e = effect(b.volatile, op, block_of(block))->Ok_0;
        let c = advanced(b, (n - 1) as usize, op, profile, e);
        assert(b.base.len() <= c.base.len());
        assert(b.micro.len() <= c.micro.len());
        law_compiled_sound(t, profile, block, n - 1);
        assert(op_fits(t.ops[n - 1]));
        lemma_advanced_sound(b, (n - 1) as usize, op, profile, block_of(block));
    }
}

/// A new inode that nothing names is left alone by micro-ops.
proof fn lemma_applied_beside(fs: FsView, node: NodeView, m: MicroView)
    requires
        fs_sound(fs),
        micro_sound(m, fs.len()),
    ensures
        applied(fs.push(node), m) == applied(fs, m).push(node),
{
    let a = applied(fs.push(node), m);
    let b = applied(fs, m).push(node);
    lemma_applied_sound(fs, m);
    match m {
        MicroView::Rename { from, from_name, to, to_name, ino, .. } => {
            let mid = if leads_to(fs, from, from_name, ino) {
                unlinked(fs, from, from_name)
            } else {
                fs
            };
            let mid_more = if leads_to(fs.push(node), from, from_name, ino) {
                unlinked(fs.push(node), from, from_name)
            } else {
                fs.push(node)
            };
            assert(mid_more =~= mid.push(node));
            assert(a =~= b);
        },
        _ => {
            assert(a =~= b);
        },
    }
}

pub proof fn lemma_applied_all_beside(fs: FsView, node: NodeView, micros: Seq<MicroView>)
    requires
        fs_sound(fs),
        forall|k: int| 0 <= k < micros.len() ==> micro_sound(#[trigger] micros[k], fs.len()),
    ensures
        applied_all(fs.push(node), micros) == applied_all(fs, micros).push(node),
    decreases micros.len(),
{
    if micros.len() > 0 {
        let before = micros.drop_last();
        assert forall|k: int| 0 <= k < before.len() implies micro_sound(
            #[trigger] before[k],
            fs.len(),
        ) by {
            assert(before[k] == micros[k]);
        }
        lemma_applied_all_beside(fs, node, before);
        lemma_applied_all_sound(fs, before);
        lemma_applied_beside(applied_all(fs, before), node, micros.last());
    }
}

pub proof fn lemma_applied_all_adds(fs: FsView, a: Seq<MicroView>, b: Seq<MicroView>)
    ensures
        applied_all(fs, a + b) == applied_all(applied_all(fs, a), b),
    decreases b.len(),
{
    if b.len() == 0 {
        assert(a + b =~= a);
    } else {
        lemma_applied_all_adds(fs, a, b.drop_last());
        assert((a + b).drop_last() =~= a + b.drop_last());
    }
}

/// Replaying every micro-op of a compiled trace on its starting image, in
/// order, gives the image that the workload itself saw at the end: compiling
/// loses nothing.
pub proof fn law_full_persistence_is_replay(t: TraceView, profile: Profile, block: u64, n: int)
    requires
        compilable(t),
        snapshot_fits(t.initial),
        0 <= n <= t.ops.len(),
        n + 1 <= NEVER,
        compiled_upto(t, profile, block, n) is Ok,
        partial_fits(compiled_upto(t, profile, block, n)->Ok_0),
    ensures
        ({
            let c = compiled_upto(t, profile, block, n)->Ok_0;
            applied_all(c.base, changes(c.micro)) == c.volatile
        }),
    decreases n,
{
    let c = compiled_upto(t, profile, block, n)->Ok_0;
    if n == 0 {
        assert(changes(c.micro) =~= Seq::<MicroView>::empty());
    } else {
        let b = compiled_upto(t, profile, block, n - 1)->Ok_0;
        let op = t.ops[n - 1];
        let e = effect(b.volatile, op, block_of(block))->Ok_0;
        assert(b.base.len() <= c.base.len());
        assert(b.micro.len() <= c.micro.len());
        law_compiled_sound(t, profile, block, n - 1);
        law_full_persistence_is_replay(t, profile, block, n - 1);
        let old = changes(b.micro);
        assert forall|k: int| 0 <= k < old.len() implies micro_sound(
            #[trigger] old[k],
            b.base.len(),
        ) by {
            assert(micro_op_sound(so_far(b, profile), k));
        }
        assert(changes(c.micro) =~= old + e.micros);
        lemma_applied_all_adds(c.base, old, e.micros);
        match e.node {
            Some(node) => {
                lemma_applied_all_beside(b.base, node, old);
            },
            None => {},
        }
    }
}

/// The barrier that op `i` of a trace is.
pub open spec fn barrier_at(t: TraceView, profile: Profile, block: u64, i: int) -> Barrier {
    barrier(compiled_upto(t, profile, block, i)->Ok_0.volatile, t.ops[i])
}

/// A micro-op is durable from the first barrier after its own op that
/// covers it; and never, if none does.
pub proof fn law_durable_from_first_barrier(
    t: TraceView,
    profile: Profile,
    block: u64,
    n: int,
    j: int,
)
    requires
        0 <= n <= t.ops.len() < NEVER,
        compiled_upto(t, profile, block, n) is Ok,
        0 <= j < compiled_upto(t, profile, block, n)->Ok_0.micro.len(),
    ensures
        ({
            let x = compiled_upto(t, profile, block, n)->Ok_0.micro[j];
            &&& x.op < n
            &&& forall|i: int|
                x.op <= i < n && i < x.durable_at ==> !covers(
                    profile,
                    #[trigger] barrier_at(t, profile, block, i),
                    x.m,
                )
            &&& x.durable_at != NEVER ==> x.op < x.durable_at < n && covers(
                profile,
                barrier_at(t, profile, block, x.durable_at as int),
                x.m,
            )
        }),
    decreases n,
{
    if n > 0 {
        let b = compiled_upto(t, profile, block, n - 1)->Ok_0;
        if j < b.micro.len() {
            law_durable_from_first_barrier(t, profile, block, n - 1, j);
        }
    }
}

/// A `sync` makes everything before it durable.
pub proof fn law_sync_covers_everything(
    t: TraceView,
    profile: Profile,
    block: u64,
    i: int,
    j: int,
)
    requires
        0 <= i < t.ops.len() < NEVER,
        t.ops[i] == OpView::Sync,
        compiled_upto(t, profile, block, t.ops.len() as int) is Ok,
        0 <= j < compiled_upto(t, profile, block, t.ops.len() as int)->Ok_0.micro.len(),
        compiled_upto(t, profile, block, t.ops.len() as int)->Ok_0.micro[j].op <= i,
    ensures
        compiled_upto(t, profile, block, t.ops.len() as int)->Ok_0.micro[j].durable_at <= i,
{
    law_durable_from_first_barrier(t, profile, block, t.ops.len() as int, j);
    assert(barrier_at(t, profile, block, i) == Barrier::Sync);
}

/// The profile changes nothing but durability, and with a journal nothing is
/// durable later than the weakest behavior makes it.
pub proof fn law_journal_is_never_weaker(t: TraceView, block: u64, n: int)
    requires
        0 <= n <= t.ops.len() < NEVER,
    ensures
        ({
            let a = compiled_upto(t, Profile::Posix, block, n);
            let b = compiled_upto(t, Profile::Ext4Ordered, block, n);
            match (a, b) {
                (Ok(a), Ok(b)) => {
                    &&& a.base == b.base
                    &&& a.volatile == b.volatile
                    &&& a.op_end == b.op_end
                    &&& a.marks_before == b.marks_before
                    &&& a.marks == b.marks
                    &&& a.micro.len() == b.micro.len()
                    &&& forall|j: int|
                        0 <= j < a.micro.len() ==> {
                            &&& (#[trigger] a.micro[j]).m == b.micro[j].m
                            &&& a.micro[j].op == b.micro[j].op
                            &&& b.micro[j].durable_at <= a.micro[j].durable_at
                        }
                },
                (Err(x), Err(y)) => x == y,
                _ => false,
            }
        }),
    decreases n,
{
    if n > 0 {
        law_journal_is_never_weaker(t, block, n - 1);
        let a = compiled_upto(t, Profile::Posix, block, n - 1);
        let b = compiled_upto(t, Profile::Ext4Ordered, block, n - 1);
        if a is Ok {
            let (a, b) = (a->Ok_0, b->Ok_0);
            match effect(a.volatile, t.ops[n - 1], block_of(block)) {
                Ok(e) => {
                    let x = a.micro + issued(e.micros, (n - 1) as usize);
                    let y = b.micro + issued(e.micros, (n - 1) as usize);
                    assert forall|j: int| 0 <= j < x.len() implies {
                        &&& (#[trigger] x[j]).m == y[j].m
                        &&& x[j].op == y[j].op
                        &&& y[j].durable_at <= x[j].durable_at
                        &&& y[j].durable_at == NEVER || y[j].durable_at < n
                    } by {
                        if j < a.micro.len() {
                            assert(a.micro[j].m == b.micro[j].m);
                            law_durable_from_first_barrier(
                                t,
                                Profile::Ext4Ordered,
                                block,
                                n - 1,
                                j,
                            );
                        }
                    }
                },
                Err(_) => {},
            }
        }
    }
}

/// On the weakest profile, `fsync` on a new file does not make its directory
/// entry durable, and a rename is durable only once its target directory is
/// synced.
pub proof fn law_fsync_leaves_the_entry(
    file: Ino,
    dir: Ino,
    name: Seq<char>,
    from: Ino,
    from_name: Seq<char>,
    replaces: bool,
)
    requires
        file != dir,
    ensures
        !covers(
            Profile::Posix,
            Barrier::Fsync(file),
            MicroView::Link { parent: dir, name, ino: file },
        ),
        covers(
            Profile::Posix,
            Barrier::Fsync(dir),
            MicroView::Link { parent: dir, name, ino: file },
        ),
        !covers(
            Profile::Posix,
            Barrier::Fsync(file),
            MicroView::Rename { from, from_name, to: dir, to_name: name, ino: file, replaces },
        ),
        covers(
            Profile::Posix,
            Barrier::Fsync(dir),
            MicroView::Rename { from, from_name, to: dir, to_name: name, ino: file, replaces },
        ),
{
}

/// A rename is at most one micro-op, so no crash can split it.
pub proof fn law_rename_is_one_micro_op(v: FsView, from: Seq<char>, to: Seq<char>, block: int)
    requires
        effect(v, OpView::Rename { from, to }, block) is Ok,
    ensures
        effect(v, OpView::Rename { from, to }, block)->Ok_0.micros.len() <= 1,
{
}

/// The bytes of a list of writes, one after the other.
pub open spec fn bytes_written(micros: Seq<MicroView>) -> Seq<u8>
    decreases micros.len(),
{
    if micros.len() == 0 {
        Seq::empty()
    } else {
        (match micros[0] {
            MicroView::Write { data, .. } => data,
            _ => Seq::empty(),
        }) + bytes_written(micros.skip(1))
    }
}

/// A write is cut at every block boundary and nowhere else: no piece crosses
/// one, each piece but the last ends at one, the pieces lie one after the
/// other, and together they are the bytes that were written.
pub proof fn law_write_is_cut_at_blocks(ino: Ino, at: int, data: Seq<u8>, block: int)
    requires
        block > 0,
        at >= 0,
        at + data.len() <= u64::MAX,
    ensures
        ({
            let c = chunks(ino, at, data, block);
            &&& bytes_written(c) == data
            &&& c.len() > 0 ==> (c[0] matches MicroView::Write { offset, .. } && offset == at)
            &&& forall|k: int|
                0 <= k < c.len() ==> (#[trigger] c[k] matches MicroView::Write {
                    ino: f,
                    offset,
                    data: d,
                } && {
                    &&& f == ino
                    &&& d.len() > 0
                    &&& (offset as int) % block + d.len() <= block
                    &&& k + 1 < c.len() ==> {
                        &&& (offset as int) % block + d.len() == block
                        &&& c[k + 1] matches MicroView::Write { offset: next, .. } && next
                            == offset + d.len()
                    }
                })
        }),
    decreases data.len(),
{
    if data.len() > 0 {
        let room = block - at % block;
        let n = if room < data.len() {
            room
        } else {
            data.len() as int
        };
        let rest = data.skip(n);
        law_write_is_cut_at_blocks(ino, at + n, rest, block);
        let c = chunks(ino, at, data, block);
        let r = chunks(ino, at + n, rest, block);
        assert(c.skip(1) =~= r);
        assert(data.take(n) + rest =~= data);
        assert forall|k: int| 0 <= k < c.len() implies (#[trigger] c[k] matches MicroView::Write {
            ino: f,
            offset,
            data: d,
        } && {
            &&& f == ino
            &&& d.len() > 0
            &&& (offset as int) % block + d.len() <= block
            &&& k + 1 < c.len() ==> {
                &&& (offset as int) % block + d.len() == block
                &&& c[k + 1] matches MicroView::Write { offset: next, .. } && next == offset
                    + d.len()
            }
        }) by {
            if k > 0 {
                assert(c[k] == r[k - 1]);
                if k + 1 < c.len() {
                    assert(c[k + 1] == r[k]);
                }
            } else if c.len() > 1 {
                assert(c[1] == r[0]);
            }
        }
    } else {
        assert(data =~= Seq::<u8>::empty());
    }
}

/// Closing gives the smallest legal state that holds what it was given: it
/// only ever adds micro-ops, the result is legal, and every legal state that
/// holds the same holds all of the result.
pub proof fn law_closed_is_the_smallest_legal_state(p: ProgramView, point: int, s: Seq<bool>)
    requires
        s.len() == p.op_end[point],
    ensures
        within(s, closed(p, point, s)),
        legal(p, point, closed(p, point, s)),
        forall|l: Seq<bool>| #[trigger]
            legal(p, point, l) && within(s, l) ==> within(closed(p, point, s), l),
{
    let c = closed(p, point, s);
    let ext4 = p.profile == Profile::Ext4Ordered;
    assert forall|j: int| 0 <= j < s.len() && held(p, point, s, j) implies #[trigger] c[j] by {
        if is_meta(p.micro[j].m) {
            assert(meta_held(p, point, s, j));
        }
    }
    assert(forall|j: int| 0 <= j < s.len() && s[j] ==> held(p, point, s, j));
    if ext4 {
        assert forall|j: int, k: int|
            0 <= j < k < c.len() && is_meta(p.micro[j].m) && is_meta(p.micro[k].m)
                && #[trigger] c[k] implies #[trigger] c[j] by {
            assert(meta_held(p, point, s, k));
            let i = choose|i: int|
                k <= i < s.len() && is_meta(p.micro[i].m) && #[trigger] held(p, point, s, i);
            assert(held(p, point, s, i));
            assert(meta_held(p, point, s, j));
        }
        assert forall|j: int, k: int|
            0 <= j < k < c.len() && (p.micro[j].m matches MicroView::Write { ino, .. }
                && orders_writes(p.micro[k].m, ino)) && #[trigger] c[k] implies #[trigger] c[j] by {
            assert(meta_held(p, point, s, k));
        }
    }
    assert forall|l: Seq<bool>| #[trigger] legal(p, point, l) && within(s, l) implies within(
        c,
        l,
    ) by {
        assert forall|j: int| 0 <= j < s.len() && #[trigger] held(p, point, s, j) implies l[j] by {
            if !s[j] {
                assert(p.micro[j].durable_at < point);
            }
        }
        assert forall|j: int|
            0 <= j < s.len() && is_meta(p.micro[j].m) && ext4 && #[trigger] meta_held(
                p,
                point,
                s,
                j,
            ) implies l[j] by {
            let i = choose|i: int|
                j <= i < s.len() && is_meta(p.micro[i].m) && #[trigger] held(p, point, s, i);
            assert(held(p, point, s, i));
            assert(l[i]);
        }
        assert forall|j: int| 0 <= j < c.len() && #[trigger] c[j] implies l[j] by {
            if ext4 && !held(p, point, s, j) {
                match p.micro[j].m {
                    MicroView::Write { ino, .. } => {
                        let k = choose|k: int|
                            j < k < s.len() && orders_writes(p.micro[k].m, ino)
                                && #[trigger] meta_held(p, point, s, k);
                        assert(meta_held(p, point, s, k));
                        assert(l[k]);
                    },
                    _ => {
                        assert(meta_held(p, point, s, j));
                    },
                }
            }
        }
    }
}

/// Closing what is legal already changes nothing, and so closing twice is
/// closing once.
pub proof fn law_closing_is_idempotent(p: ProgramView, point: int, s: Seq<bool>)
    requires
        s.len() == p.op_end[point],
    ensures
        legal(p, point, s) ==> closed(p, point, s) == s,
        closed(p, point, closed(p, point, s)) == closed(p, point, s),
{
    law_closed_is_the_smallest_legal_state(p, point, s);
    let c = closed(p, point, s);
    law_closed_is_the_smallest_legal_state(p, point, c);
    if legal(p, point, s) {
        assert(within(c, s));
        assert(c =~= s);
    }
    assert(within(closed(p, point, c), c));
    assert(closed(p, point, c) =~= c);
}

/// Closing more gives more.
pub proof fn law_closing_is_monotone(p: ProgramView, point: int, a: Seq<bool>, b: Seq<bool>)
    requires
        a.len() == p.op_end[point],
        within(a, b),
    ensures
        within(closed(p, point, a), closed(p, point, b)),
{
    law_closed_is_the_smallest_legal_state(p, point, a);
    law_closed_is_the_smallest_legal_state(p, point, b);
    let l = closed(p, point, b);
    assert(legal(p, point, l) && within(a, l));
}

/// On the weakest profile any subset of what is not durable may be lost.
pub proof fn law_posix_loses_any_subset(p: ProgramView, point: int, s: Seq<bool>)
    requires
        p.profile == Profile::Posix,
        s.len() == p.op_end[point],
        forall|j: int| 0 <= j < s.len() && p.micro[j].durable_at < point ==> #[trigger] s[j],
    ensures
        legal(p, point, s),
        closed(p, point, s) == s,
{
    law_closing_is_idempotent(p, point, s);
}

/// Every state that a crash can leave with a journal, a crash can leave on the
/// weakest profile: what survives the weakest profile survives the other.
pub proof fn law_journal_states_are_posix_states(
    t: TraceView,
    block: u64,
    point: int,
    s: Seq<bool>,
)
    requires
        t.ops.len() < NEVER,
        compiled_upto(t, Profile::Posix, block, t.ops.len() as int) is Ok,
        ({
            let b = so_far(
                compiled_upto(t, Profile::Ext4Ordered, block, t.ops.len() as int)->Ok_0,
                Profile::Ext4Ordered,
            );
            &&& 0 <= point < b.op_end.len()
            &&& b.op_end[point] <= b.micro.len()
            &&& legal(b, point, s)
        }),
    ensures
        legal(
            so_far(
                compiled_upto(t, Profile::Posix, block, t.ops.len() as int)->Ok_0,
                Profile::Posix,
            ),
            point,
            s,
        ),
{
    law_journal_is_never_weaker(t, block, t.ops.len() as int);
    let a = so_far(
        compiled_upto(t, Profile::Posix, block, t.ops.len() as int)->Ok_0,
        Profile::Posix,
    );
    let b = so_far(
        compiled_upto(t, Profile::Ext4Ordered, block, t.ops.len() as int)->Ok_0,
        Profile::Ext4Ordered,
    );
    assert forall|j: int|
        0 <= j < s.len() && a.micro[j].durable_at < point implies #[trigger] s[j] by {
        assert(a.micro[j].m == b.micro[j].m);
        assert(b.micro[j].durable_at < point);
    }
}

/// A subset of the first `m` positions, as a number.
pub proof fn lemma_mask_of(keep: spec_fn(int) -> bool, m: nat) -> (mask: u64)
    requires
        m < 64,
    ensures
        mask < subsets(m),
        forall|k: int| 0 <= k < m ==> #[trigger] bit(mask, k) == keep(k),
    decreases m,
{
    if m == 0 {
        0u64
    } else {
        let k = (m - 1) as u64;
        let low = lemma_mask_of(keep, (m - 1) as nat);
        lemma_subsets((m - 1) as nat);
        lemma_subsets(m);
        assert(k < 63 ==> 2 * (1u64 << k) == 1u64 << ((k + 1) as u64)) by (bit_vector);
        if keep(k as int) {
            let mask = low | (1u64 << k);
            assert(mask < (1u64 << ((k + 1) as u64))) by (bit_vector)
                requires
                    k < 63,
                    low < (1u64 << k),
                    mask == low | (1u64 << k),
            ;
            assert forall|i: int| 0 <= i < m implies #[trigger] bit(mask, i) == keep(i) by {
                let q = i as u64;
                if i < k {
                    assert(bit(low, i) == keep(i));
                    assert((mask >> q) & 1u64 == (low >> q) & 1u64) by (bit_vector)
                        requires
                            q < k,
                            k < 63,
                            mask == low | (1u64 << k),
                    ;
                } else {
                    assert((mask >> q) & 1u64 == 1u64) by (bit_vector)
                        requires
                            q == k,
                            k < 63,
                            mask == low | (1u64 << k),
                    ;
                }
            }
            mask
        } else {
            assert forall|i: int| 0 <= i < m implies #[trigger] bit(low, i) == keep(i) by {
                let q = i as u64;
                if i < k {
                    assert(bit(low, i) == keep(i));
                } else {
                    assert((low >> q) & 1u64 == 0u64) by (bit_vector)
                        requires
                            q == k,
                            k < 63,
                            low < (1u64 << k),
                    ;
                }
            }
            low
        }
    }
}

/// A list of candidates holds what is durable, in each of them.
pub open spec fn all_hold_durable(p: ProgramView, point: int, sets: Seq<Seq<bool>>) -> bool {
    forall|i: int|
        0 <= i < sets.len() ==> holds_durable(p, point, #[trigger] sets[i])
}

/// A candidate speaks of the micro-ops before the crash and holds what is
/// durable.
pub open spec fn holds_durable(p: ProgramView, point: int, s: Seq<bool>) -> bool {
    &&& s.len() == p.op_end[point]
    &&& forall|j: int| 0 <= j < s.len() && p.micro[j].durable_at < point ==> #[trigger] s[j]
}

proof fn lemma_singles_hold_durable(p: ProgramView, point: int, m: int)
    ensures
        all_hold_durable(p, point, singles(p, point, m)),
    decreases m,
{
    if m > 0 {
        lemma_singles_hold_durable(p, point, m - 1);
        let before = singles(p, point, m - 1);
        let all = singles(p, point, m);
        assert forall|i: int| 0 <= i < all.len() implies holds_durable(
            p,
            point,
            #[trigger] all[i],
        ) by {
            if i < before.len() {
                assert(all[i] == before[i]);
            }
        }
    }
}

proof fn lemma_sampled_hold_durable(
    p: ProgramView,
    point: int,
    m: nat,
    state: u64,
    count: nat,
)
    ensures
        all_hold_durable(p, point, sampled(p, point, m, state, count)),
    decreases count,
{
    if count > 0 {
        let rest = sampled(
            p,
            point,
            m,
            stepped_by(state, m),
            (count - 1) as nat,
        );
        lemma_sampled_hold_durable(
            p,
            point,
            m,
            stepped_by(state, m),
            (count - 1) as nat,
        );
        let all = sampled(p, point, m, state, count);
        assert forall|i: int| 0 <= i < all.len() implies holds_durable(
            p,
            point,
            #[trigger] all[i],
        ) by {
            if i > 0 {
                assert(all[i] == rest[i - 1]);
            }
        }
    }
}

/// No candidate loses what a barrier before the crash made durable.
pub proof fn law_candidates_hold_what_is_durable(p: ProgramView, point: int, search: Search)
    ensures
        all_hold_durable(p, point, candidates_of(p, point, search)),
{
    let m = flight(p, point).len();
    let all = candidates_of(p, point, search);
    if m > search.exhaustive_limit {
        let a = seq![
            chosen(p, point, |pos: int, j: int| true),
            chosen(p, point, |pos: int, j: int| false),
        ];
        let b = singles(p, point, m as int);
        let c = whole_ops(p, point, ops_in_flight(p, point, m as int));
        let d = sampled(p, point, m, started(search.seed, point), search.samples as nat);
        lemma_singles_hold_durable(p, point, m as int);
        lemma_sampled_hold_durable(
            p,
            point,
            m,
            started(search.seed, point),
            search.samples as nat,
        );
        assert(all == a + b + c + d);
        assert forall|i: int| 0 <= i < all.len() implies holds_durable(
            p,
            point,
            #[trigger] all[i],
        ) by {
            if i < 2 {
            } else if i < 2 + b.len() {
                assert(all[i] == b[i - 2]);
            } else if i < 2 + b.len() + c.len() {
                assert(all[i] == c[i - 2 - b.len()]);
            } else {
                assert(all[i] == d[i - 2 - b.len() - c.len()]);
            }
        }
    }
}

/// Every state that is examined is one that a crash can leave behind.
pub proof fn law_examined_states_are_legal(p: ProgramView, point: int, search: Search, i: int)
    requires
        0 <= i < candidates_of(p, point, search).len(),
    ensures
        legal(p, point, closed(p, point, candidates_of(p, point, search)[i])),
{
    law_candidates_hold_what_is_durable(p, point, search);
    let s = candidates_of(p, point, search)[i];
    assert(holds_durable(p, point, s));
    law_closed_is_the_smallest_legal_state(p, point, s);
}

/// Where few micro-ops are in flight, every state that a crash can leave behind
/// is examined.
pub proof fn law_small_searches_are_exhaustive(
    p: ProgramView,
    point: int,
    search: Search,
    s: Seq<bool>,
)
    requires
        program_sound(p),
        0 <= point < p.op_end.len(),
        flight(p, point).len() <= search.exhaustive_limit,
        searchable_at(p, point, search),
        legal(p, point, s),
    ensures
        exists|i: int|
            0 <= i < candidates_of(p, point, search).len() && s == closed(
                p,
                point,
                #[trigger] candidates_of(p, point, search)[i],
            ),
{
    lemma_op_end(p, point);
    let n = p.op_end[point] as int;
    let f = flight(p, point);
    lemma_flight_upto(p, point, n);
    let mask = lemma_mask_of(|k: int| s[f[k] as int], f.len());
    let c = candidates_of(p, point, search)[mask as int];
    assert forall|j: int| 0 <= j < n implies #[trigger] c[j] == s[j] by {
        if p.micro[j].durable_at >= point {
            let k = flight_upto(p, point, j).len() as int;
            lemma_flight_prefix(p, point, j + 1, n);
            assert(flight_upto(p, point, j + 1)[k] == j);
            assert(f[k] == j);
            assert(bit(mask, k) == s[f[k] as int]);
        }
    }
    assert(c =~= s);
    law_closing_is_idempotent(p, point, s);
}

/// Whatever the search, the state in which everything persisted and the one in
/// which only what is durable did are examined.
pub proof fn law_all_and_none_are_examined(p: ProgramView, point: int, search: Search)
    requires
        program_sound(p),
        0 <= point < p.op_end.len(),
        searchable_at(p, point, search),
    ensures
        candidates_of(p, point, search).contains(
            Seq::new(p.op_end[point] as nat, |j: int| true),
        ),
        candidates_of(p, point, search).contains(
            Seq::new(p.op_end[point] as nat, |j: int| p.micro[j].durable_at < point),
        ),
{
    let all = Seq::new(p.op_end[point] as nat, |j: int| true);
    let none = Seq::new(p.op_end[point] as nat, |j: int| p.micro[j].durable_at < point);
    let found = candidates_of(p, point, search);
    lemma_op_end(p, point);
    let n = p.op_end[point] as int;
    let f = flight(p, point);
    lemma_flight_upto(p, point, n);
    if f.len() <= search.exhaustive_limit {
        let x = lemma_mask_of(|k: int| true, f.len());
        let y = lemma_mask_of(|k: int| false, f.len());
        assert forall|j: int| 0 <= j < n && p.micro[j].durable_at >= point implies bit(
            x,
            (#[trigger] flight_upto(p, point, j)).len() as int,
        ) && !bit(y, flight_upto(p, point, j).len() as int) by {
            lemma_flight_prefix(p, point, j + 1, n);
        }
        assert(found[x as int] =~= all);
        assert(found[y as int] =~= none);
    } else {
        assert(found[0] =~= all);
        assert(found[1] =~= none);
    }
}

/// A change to what a file holds; the other micro-ops change a directory.
pub open spec fn on_a_file(m: MicroView) -> bool {
    m is Write || m is SetLen
}

/// Micro-ops speak of inodes, not of paths: a change to a file's content and a
/// change to a directory can be applied in either order, so what is written
/// before a rename lands in the renamed file.
pub proof fn law_content_and_names_are_apart(fs: FsView, change: MicroView, naming: MicroView)
    requires
        fs_sound(fs),
        micro_sound(change, fs.len()),
        micro_sound(naming, fs.len()),
        on_a_file(change),
        !on_a_file(naming),
    ensures
        applied(applied(fs, change), naming) == applied(applied(fs, naming), change),
{
    let a = applied(applied(fs, change), naming);
    let b = applied(applied(fs, naming), change);
    assert(a =~= b);
}

/// A file shows its data cut to its length, and zeros where its length outlived
/// its data.
pub proof fn law_length_without_data_reads_zeros(buf: Seq<u8>, len: u64, i: int)
    requires
        0 <= i < len,
    ensures
        visible(buf, len).len() == len,
        i < buf.len() ==> visible(buf, len)[i] == buf[i],
        i >= buf.len() ==> visible(buf, len)[i] == 0u8,
{
}

/// Whatever survives a crash is a sound image: every name leads to an inode that
/// exists.
pub proof fn law_crash_images_are_sound(p: ProgramView, s: Seq<bool>, n: int)
    requires
        program_sound(p),
        0 <= n <= s.len() <= p.micro.len(),
    ensures
        fs_sound(survived(p, s, n)),
        survived(p, s, n).len() == p.base.len(),
    decreases n,
{
    if n > 0 {
        law_crash_images_are_sound(p, s, n - 1);
        assert(micro_op_sound(p, n - 1));
        lemma_applied_sound(survived(p, s, n - 1), p.micro[n - 1].m);
    }
}

} // verus!
