//! Compiles a [`Trace`] into micro-ops. Each micro-op records the barrier (an
//! `fsync` or a `sync`) that made it durable, if any. Which subsets of the
//! non-durable micro-ops may survive a crash is decided by the [`Profile`].

use crate::error::{Error, ErrorView};
use crate::laws::snapshot_fits;
use crate::model::{
    applied, found, fs_sound, image, is_meta, lemma_applied_sound, lemma_parent_found,
    lemma_pushed_sound, lemma_walk_to_in_range, loadable, micro_sound, node_sound, Fs, FsView, Ino,
    Micro, MicroView, Node, NodeView, Profile,
};
use crate::names::NameMap;
use crate::paths::{components, file_name, parent, split};
use crate::snapshot_laws::{lemma_starts_and_ends_well, starts_and_ends_well};
use crate::text::{cat, chars_of, copy_of, has_prefix, same, starts_with, texts};
use crate::trace::{described, op_fits, part_of, Op, OpView, Trace, TraceView};
use vstd::prelude::*;

verus! {

/// Stands for no barrier.
pub const NEVER: usize = usize::MAX;

/// A micro-op of a compiled trace.
#[derive(Debug, PartialEq, Eq)]
pub struct MicroOp {
    pub m: Micro,
    /// Index of the trace op that produced it.
    pub op: usize,
    /// Index of the trace op (a barrier) after which it is durable, or NEVER.
    pub durable_at: usize,
}

/// A micro-op of a compiled trace, over mathematical values.
pub struct MicroOpView {
    pub m: MicroView,
    pub op: usize,
    pub durable_at: usize,
}

impl View for MicroOp {
    type V = MicroOpView;

    open spec fn view(&self) -> MicroOpView {
        MicroOpView { m: self.m@, op: self.op, durable_at: self.durable_at }
    }
}

/// What a list of micro-ops says.
pub open spec fn micro_ops_view(v: Seq<MicroOp>) -> Seq<MicroOpView> {
    Seq::new(v.len(), |i: int| v[i]@)
}

/// What a list of changes says.
pub open spec fn micros_view(v: Seq<Micro>) -> Seq<MicroView> {
    Seq::new(v.len(), |i: int| v[i]@)
}

/// What an operation does: the inode it creates, if any, and its micro-ops.
pub struct Effect {
    pub node: Option<NodeView>,
    pub micros: Seq<MicroView>,
}

/// An operation that changes nothing.
pub open spec fn no_effect() -> Effect {
    Effect { node: None, micros: Seq::empty() }
}

/// A write at `at`, cut at every block boundary.
pub open spec fn chunks(ino: Ino, at: int, data: Seq<u8>, block: int) -> Seq<MicroView>
    decreases data.len(),
{
    if data.len() == 0 || block <= 0 {
        Seq::empty()
    } else {
        let room = block - at % block;
        let n = if room < data.len() {
            room
        } else {
            data.len() as int
        };
        seq![MicroView::Write { ino, offset: at as u64, data: data.take(n) }] + chunks(
            ino,
            at + n,
            data.skip(n),
            block,
        )
    }
}

/// The directory at a path, if there is one.
pub open spec fn dir_at(v: FsView, path: Seq<char>) -> Option<Ino> {
    match found(v, path) {
        Some(p) => if v[p as int] is Dir {
            Some(p)
        } else {
            None
        },
        None => None,
    }
}

/// Creates `node` at `path`, unless something is there.
pub open spec fn creation(v: FsView, path: Seq<char>, node: NodeView) -> Result<
    Effect,
    Seq<char>,
> {
    if found(v, path) is Some {
        Ok(no_effect())
    } else {
        match dir_at(v, parent(path)) {
            Some(dir) => Ok(
                Effect {
                    node: Some(node),
                    micros: seq![
                        MicroView::Link {
                            parent: dir,
                            name: file_name(path),
                            ino: v.len() as usize,
                        },
                    ],
                },
            ),
            None => Err("parent directory does not exist"@),
        }
    }
}

/// What an operation does to the image before it, or why it cannot apply.
pub open spec fn effect(v: FsView, op: OpView, block: int) -> Result<Effect, Seq<char>> {
    match op {
        OpView::Create { path } => creation(
            v,
            path,
            NodeView::File { buf: Seq::empty(), len: 0 },
        ),
        OpView::Mkdir { path } => creation(v, path, NodeView::Dir(Map::empty())),
        OpView::Write { path, offset, data } => match found(v, path) {
            None => Err("no such file"@),
            Some(ino) => match v[ino as int] {
                NodeView::Dir(_) => Err("is a directory"@),
                NodeView::File { len, .. } => {
                    let end = offset + data.len();
                    let grown = if end > len {
                        seq![MicroView::SetLen { ino, len: end as u64, keep_tail: true }]
                    } else {
                        Seq::empty()
                    };
                    Ok(
                        Effect {
                            node: None,
                            micros: chunks(ino, offset as int, data, block) + grown,
                        },
                    )
                },
            },
        },
        OpView::Truncate { path, len } => match found(v, path) {
            None => Err("no such file"@),
            Some(ino) => if v[ino as int] is Dir {
                Err("is a directory"@)
            } else {
                Ok(
                    Effect {
                        node: None,
                        micros: seq![MicroView::SetLen { ino, len, keep_tail: false }],
                    },
                )
            },
        },
        OpView::Rename { from, to } => match found(v, from) {
            None => Err("no such file"@),
            Some(ino) => if from == to || found(v, to) == Some(ino) {
                // Renaming a file onto itself does nothing.
                Ok(no_effect())
            } else if starts_with(to, from + "/"@) {
                Err("cannot move a directory into itself"@)
            } else {
                match dir_at(v, parent(to)) {
                    None => Err("target directory does not exist"@),
                    Some(dir) => Ok(
                        Effect {
                            node: None,
                            micros: seq![
                                MicroView::Rename {
                                    from: found(v, parent(from))->0,
                                    from_name: file_name(from),
                                    to: dir,
                                    to_name: file_name(to),
                                    ino,
                                    replaces: found(v, to) is Some,
                                },
                            ],
                        },
                    ),
                }
            },
        },
        OpView::Unlink { path } => removal(v, path),
        OpView::Rmdir { path } => removal(v, path),
        OpView::Fsync { path } => match found(v, path) {
            None => Err("no such file"@),
            Some(_) => Ok(no_effect()),
        },
        OpView::Sync => Ok(no_effect()),
        OpView::Mark { .. } => Ok(no_effect()),
    }
}

/// Removes the directory entry at `path`.
pub open spec fn removal(v: FsView, path: Seq<char>) -> Result<Effect, Seq<char>> {
    match found(v, path) {
        None => Err("no such file"@),
        Some(_) => Ok(
            Effect {
                node: None,
                micros: seq![
                    MicroView::Unlink {
                        parent: found(v, parent(path))->0,
                        name: file_name(path),
                    },
                ],
            },
        ),
    }
}

/// What makes earlier micro-ops durable.
pub enum Barrier {
    Nothing,
    Fsync(Ino),
    Sync,
}

/// The barrier that an operation is.
pub open spec fn barrier(v: FsView, op: OpView) -> Barrier {
    match op {
        OpView::Fsync { path } => Barrier::Fsync(found(v, path)->0),
        OpView::Sync => Barrier::Sync,
        _ => Barrier::Nothing,
    }
}

/// Whether a barrier makes an earlier micro-op durable.
pub open spec fn covers(profile: Profile, b: Barrier, m: MicroView) -> bool {
    match b {
        Barrier::Nothing => false,
        Barrier::Sync => true,
        Barrier::Fsync(f) => {
            // One journal: committing it for any fsync commits all prior metadata.
            ||| profile == Profile::Ext4Ordered && is_meta(m)
            ||| match m {
                MicroView::Write { ino, .. } => ino == f,
                MicroView::SetLen { ino, .. } => ino == f,
                MicroView::Link { parent, .. } => parent == f,
                MicroView::Unlink { parent, .. } => parent == f,
                // A rename is durable only once the target directory is synced.
                MicroView::Rename { to, .. } => to == f,
            }
        },
    }
}

/// The micro-ops after a barrier at op `i`.
pub open spec fn flushed(micro: Seq<MicroOpView>, profile: Profile, b: Barrier, i: usize) -> Seq<
    MicroOpView,
> {
    Seq::new(
        micro.len(),
        |j: int|
            if micro[j].durable_at == NEVER && covers(profile, b, micro[j].m) {
                MicroOpView { m: micro[j].m, op: micro[j].op, durable_at: i }
            } else {
                micro[j]
            },
    )
}

/// The image after a list of micro-ops.
pub open spec fn applied_all(fs: FsView, micros: Seq<MicroView>) -> FsView
    decreases micros.len(),
{
    if micros.len() == 0 {
        fs
    } else {
        applied(applied_all(fs, micros.drop_last()), micros.last())
    }
}

/// A trace compiled up to some op.
pub struct Partial {
    /// The initial image plus an empty node for every inode created so far.
    pub base: FsView,
    /// The image as the workload sees it: every op applied.
    pub volatile: FsView,
    pub micro: Seq<MicroOpView>,
    pub op_end: Seq<usize>,
    pub marks_before: Seq<usize>,
    pub marks: Seq<Seq<char>>,
}

/// The new micro-ops of op `i`.
pub open spec fn issued(micros: Seq<MicroView>, i: usize) -> Seq<MicroOpView> {
    Seq::new(micros.len(), |j: int| MicroOpView { m: micros[j], op: i, durable_at: NEVER })
}

/// An image with one more inode, if there is one to add.
pub open spec fn with_node(fs: FsView, node: Option<NodeView>) -> FsView {
    match node {
        Some(n) => fs.push(n),
        None => fs,
    }
}

/// One more op, whose effect is `e`.
pub open spec fn advanced(c: Partial, i: usize, op: OpView, profile: Profile, e: Effect) -> Partial {
    let micro = flushed(c.micro + issued(e.micros, i), profile, barrier(c.volatile, op), i);
    let marks = match op {
        OpView::Mark { text } => c.marks.push(text),
        _ => c.marks,
    };
    Partial {
        base: with_node(c.base, e.node),
        volatile: applied_all(with_node(c.volatile, e.node), e.micros),
        micro,
        op_end: c.op_end.push(micro.len() as usize),
        marks_before: c.marks_before.push(marks.len() as usize),
        marks,
    }
}

/// A block size of zero counts as one.
pub open spec fn block_of(block: u64) -> int {
    if block == 0 {
        1
    } else {
        block as int
    }
}

/// The first `n` ops of a trace compiled, or the first op that cannot apply
/// with the reason.
pub open spec fn compiled_upto(
    t: TraceView,
    profile: Profile,
    block: u64,
    n: int,
) -> Result<Partial, ErrorView>
    decreases n,
{
    if n <= 0 {
        Ok(
            Partial {
                base: image(t.initial)->0,
                volatile: image(t.initial)->0,
                micro: Seq::empty(),
                op_end: seq![0usize],
                marks_before: seq![0usize],
                marks: Seq::empty(),
            },
        )
    } else {
        match compiled_upto(t, profile, block, n - 1) {
            Err(e) => Err(e),
            Ok(c) => match effect(c.volatile, t.ops[n - 1], block_of(block)) {
                Err(msg) => Err(
                    ErrorView::Model {
                        op: (n - 1) as usize,
                        msg: described(t.ops[n - 1]) + ": "@ + msg,
                    },
                ),
                Ok(e) => Ok(advanced(c, (n - 1) as usize, t.ops[n - 1], profile, e)),
            },
        }
    }
}

/// A trace compiled, or the first op that cannot apply with the reason.
pub open spec fn compiled(t: TraceView, profile: Profile, block: u64) -> Result<
    ProgramView,
    ErrorView,
> {
    match compiled_upto(t, profile, block, t.ops.len() as int) {
        Err(e) => Err(e),
        Ok(c) => Ok(so_far(c, profile)),
    }
}

/// What a partly compiled trace has of a compiled one.
pub open spec fn so_far(c: Partial, profile: Profile) -> ProgramView {
    ProgramView {
        base: c.base,
        micro: c.micro,
        op_end: c.op_end,
        profile,
        marks_before: c.marks_before,
        marks: c.marks,
    }
}

/// A trace that can be compiled: its snapshot is a directory tree, and the
/// bytes that its ops name can be held in memory.
pub open spec fn compilable(t: TraceView) -> bool {
    &&& loadable(t.initial)
    &&& forall|i: int| 0 <= i < t.ops.len() ==> op_fits(#[trigger] t.ops[i])
}

/// A compiled trace, ready for crash-state enumeration.
#[derive(Debug, PartialEq, Eq)]
pub struct Program {
    /// The initial image plus an empty node for every inode the trace creates.
    pub base: Fs,
    pub micro: Vec<MicroOp>,
    /// `op_end[k]` = number of micro-ops produced by the first `k` trace ops.
    pub op_end: Vec<usize>,
    pub profile: Profile,
    /// `marks_before[k]` = number of marks among the first `k` trace ops.
    pub marks_before: Vec<usize>,
    pub marks: Vec<String>,
}

/// A compiled trace, over mathematical values.
pub struct ProgramView {
    pub base: FsView,
    pub micro: Seq<MicroOpView>,
    pub op_end: Seq<usize>,
    pub profile: Profile,
    pub marks_before: Seq<usize>,
    pub marks: Seq<Seq<char>>,
}

impl View for Program {
    type V = ProgramView;

    open spec fn view(&self) -> ProgramView {
        ProgramView {
            base: self.base@,
            micro: micro_ops_view(self.micro@),
            op_end: self.op_end@,
            profile: self.profile,
            marks_before: self.marks_before@,
            marks: texts(self.marks@),
        }
    }
}

/// How many ops a compiled trace has.
pub open spec fn ops_of(p: ProgramView) -> int {
    p.op_end.len() - 1
}

/// Never smaller further on.
pub open spec fn climbs(s: Seq<usize>) -> bool {
    forall|i: int, j: int| 0 <= i <= j < s.len() ==> #[trigger] s[i] <= #[trigger] s[j]
}

/// A micro-op belongs to the op that its index lies in, and is durable from an
/// op after its own, or never.
pub open spec fn micro_op_sound(p: ProgramView, j: int) -> bool {
    let x = p.micro[j];
    &&& micro_sound(x.m, p.base.len())
    &&& x.op < ops_of(p)
    &&& p.op_end[x.op as int] <= j < p.op_end[x.op + 1]
    &&& x.durable_at == NEVER || x.op < x.durable_at < ops_of(p)
}

/// What holds of every compiled trace.
pub open spec fn program_sound(p: ProgramView) -> bool {
    &&& fs_sound(p.base)
    &&& p.base[0] is Dir
    &&& p.op_end.len() > 0
    &&& p.op_end[0] == 0
    &&& climbs(p.op_end)
    &&& p.op_end.last() == p.micro.len()
    &&& p.marks_before.len() == p.op_end.len()
    &&& p.marks_before[0] == 0
    &&& climbs(p.marks_before)
    &&& p.marks_before.last() == p.marks.len()
    &&& p.op_end.len() <= NEVER
    &&& forall|j: int| 0 <= j < p.micro.len() ==> #[trigger] micro_op_sound(p, j)
}

proof fn lemma_chunks(ino: Ino, at: int, data: Seq<u8>, block: int)
    requires
        at >= 0,
        at + data.len() <= u64::MAX,
    ensures
        forall|k: int|
            0 <= k < chunks(ino, at, data, block).len() ==> (#[trigger] chunks(
                ino,
                at,
                data,
                block,
            )[k] matches MicroView::Write { ino: f, offset, data: d } && f == ino && at <= offset
                && offset + d.len() <= at + data.len()),
    decreases data.len(),
{
    if data.len() > 0 && block > 0 {
        let room = block - at % block;
        let n = if room < data.len() {
            room
        } else {
            data.len() as int
        };
        lemma_chunks(ino, at + n, data.skip(n), block);
        let rest = chunks(ino, at + n, data.skip(n), block);
        let all = chunks(ino, at, data, block);
        assert forall|k: int| 0 <= k < all.len() implies (#[trigger] all[k] matches
            MicroView::Write { ino: f, offset, data: d } && f == ino && at <= offset && offset
            + d.len() <= at + data.len()) by {
            if k > 0 {
                assert(all[k] == rest[k - 1]);
            }
        }
    }
}

/// What an operation does speaks of inodes that exist once its own is added.
pub proof fn lemma_effect_sound(v: FsView, op: OpView, block: int)
    requires
        fs_sound(v),
        v.len() <= usize::MAX,
        op_fits(op),
        effect(v, op, block) is Ok,
    ensures
        ({
            let e = effect(v, op, block)->Ok_0;
            &&& e.node matches Some(n) ==> node_sound(n, v.len())
            &&& forall|k: int|
                0 <= k < e.micros.len() ==> micro_sound(
                    #[trigger] e.micros[k],
                    with_node(v, e.node).len(),
                )
        }),
{
    let e = effect(v, op, block)->Ok_0;
    match op {
        OpView::Create { path } => {
            lemma_walk_to_in_range(v, components(parent(path)));
        },
        OpView::Mkdir { path } => {
            lemma_walk_to_in_range(v, components(parent(path)));
        },
        OpView::Write { path, offset, data } => {
            lemma_walk_to_in_range(v, components(path));
            let ino = found(v, path)->0;
            lemma_chunks(ino, offset as int, data, block);
            let c = chunks(ino, offset as int, data, block);
            assert forall|k: int| 0 <= k < e.micros.len() implies micro_sound(
                #[trigger] e.micros[k],
                v.len(),
            ) by {
                if k < c.len() {
                    assert(e.micros[k] == c[k]);
                }
            }
        },
        OpView::Truncate { path, len } => {
            lemma_walk_to_in_range(v, components(path));
        },
        OpView::Rename { from, to } => {
            lemma_walk_to_in_range(v, components(from));
            lemma_parent_found(v, from);
            lemma_walk_to_in_range(v, components(parent(from)));
            lemma_walk_to_in_range(v, components(parent(to)));
        },
        OpView::Unlink { path } => {
            lemma_parent_found(v, path);
            lemma_walk_to_in_range(v, components(parent(path)));
        },
        OpView::Rmdir { path } => {
            lemma_parent_found(v, path);
            lemma_walk_to_in_range(v, components(parent(path)));
        },
        _ => {},
    }
}

/// Sound micro-ops keep an image sound, and add no inode.
pub proof fn lemma_applied_all_sound(fs: FsView, micros: Seq<MicroView>)
    requires
        fs_sound(fs),
        forall|k: int| 0 <= k < micros.len() ==> micro_sound(#[trigger] micros[k], fs.len()),
    ensures
        fs_sound(applied_all(fs, micros)),
        applied_all(fs, micros).len() == fs.len(),
    decreases micros.len(),
{
    if micros.len() > 0 {
        let before = micros.drop_last();
        assert forall|k: int| 0 <= k < before.len() implies micro_sound(
            #[trigger] before[k],
            fs.len(),
        ) by {
            assert(before[k] == micros[k]);
        }
        lemma_applied_all_sound(fs, before);
        lemma_applied_sound(applied_all(fs, before), micros.last());
    }
}

/// One more op keeps a compiled trace sound.
pub proof fn lemma_advanced_sound(c: Partial, i: usize, op: OpView, profile: Profile, block: int)
    requires
        program_sound(so_far(c, profile)),
        fs_sound(c.volatile),
        c.volatile.len() == c.base.len(),
        c.op_end.len() == i + 1,
        i + 2 <= NEVER,
        c.volatile.len() <= usize::MAX,
        op_fits(op),
        effect(c.volatile, op, block) is Ok,
        ({
            let d = advanced(c, i, op, profile, effect(c.volatile, op, block)->Ok_0);
            d.micro.len() <= usize::MAX && d.marks.len() <= usize::MAX
        }),
    ensures
        ({
            let d = advanced(c, i, op, profile, effect(c.volatile, op, block)->Ok_0);
            &&& program_sound(so_far(d, profile))
            &&& fs_sound(d.volatile)
            &&& d.volatile.len() == d.base.len()
        }),
{
    let e = effect(c.volatile, op, block)->Ok_0;
    let d = advanced(c, i, op, profile, e);
    let p = so_far(c, profile);
    let q = so_far(d, profile);
    lemma_effect_sound(c.volatile, op, block);
    match e.node {
        Some(n) => {
            lemma_pushed_sound(c.volatile, n);
            lemma_pushed_sound(c.base, n);
        },
        None => {},
    }
    lemma_applied_all_sound(with_node(c.volatile, e.node), e.micros);
    assert(q.base[0] == p.base[0]);
    assert(climbs(q.op_end)) by {
        assert forall|a: int, b: int| 0 <= a <= b < q.op_end.len() implies #[trigger] q.op_end[a]
            <= #[trigger] q.op_end[b] by {
            if b == q.op_end.len() - 1 && a < b {
                assert(p.op_end[a] <= p.op_end[p.op_end.len() - 1]);
            } else if a < b {
                assert(p.op_end[a] <= p.op_end[b]);
            }
        }
    }
    assert(climbs(q.marks_before)) by {
        assert forall|a: int, b: int| 0 <= a <= b < q.marks_before.len() implies #[trigger]
            q.marks_before[a] <= #[trigger] q.marks_before[b] by {
            if b == q.marks_before.len() - 1 && a < b {
                assert(p.marks_before[a] <= p.marks_before[p.marks_before.len() - 1]);
            } else if a < b {
                assert(p.marks_before[a] <= p.marks_before[b]);
            }
        }
    }
    assert forall|j: int| 0 <= j < q.micro.len() implies #[trigger] micro_op_sound(q, j) by {
        if j < p.micro.len() {
            assert(micro_op_sound(p, j));
            let x = p.micro[j];
            assert(q.micro[j].op == x.op && q.micro[j].m == x.m);
            assert(q.op_end[x.op as int] == p.op_end[x.op as int]);
            assert(q.op_end[x.op + 1] == p.op_end[x.op + 1]);
        } else {
            let k = j - p.micro.len();
            assert(q.micro[j].m == e.micros[k]);
            assert(q.op_end[i as int] == p.op_end[i as int]);
        }
    }
}

/// A write at `offset`, cut at every block boundary.
fn cut(ino: Ino, offset: u64, data: &Vec<u8>, block: u64) -> (r: Vec<Micro>)
    requires
        block > 0,
        offset + data@.len() <= u64::MAX,
    ensures
        micros_view(r@) == chunks(ino, offset as int, data@, block as int),
{
    let mut out: Vec<Micro> = Vec::new();
    let total: usize = data.len();
    let end: u64 = offset + total as u64;
    let mut at: u64 = offset;
    assert(data@.skip(0) =~= data@);
    assert(micros_view(out@) + chunks(ino, offset as int, data@, block as int) =~= chunks(
        ino,
        offset as int,
        data@,
        block as int,
    ));
    while at < end
        invariant
            block > 0,
            offset <= at <= end,
            end == offset + total,
            total == data@.len(),
            end <= u64::MAX,
            micros_view(out@) + chunks(
                ino,
                at as int,
                data@.skip(at - offset),
                block as int,
            ) == chunks(ino, offset as int, data@, block as int),
        decreases end - at,
    {
        let room: u64 = block - at % block;
        let n: u64 = if room < end - at {
            room
        } else {
            end - at
        };
        let from: usize = (at - offset) as usize;
        let to: usize = from + n as usize;
        let chunk = part_of(data, from, to);
        let ghost before = micros_view(out@);
        let ghost rest = data@.skip(at - offset);
        let m = Micro::Write { ino, offset: at, data: chunk };
        proof {
            assert(chunk@ =~= rest.take(n as int));
            assert(rest.skip(n as int) =~= data@.skip(at + n - offset));
        }
        out.push(m);
        assert(micros_view(out@) =~= before.push(m@));
        assert(before + (seq![m@] + chunks(
            ino,
            at + n,
            rest.skip(n as int),
            block as int,
        )) =~= before.push(m@) + chunks(ino, at + n, rest.skip(n as int), block as int));
        at = at + n;
    }
    assert(micros_view(out@) + chunks(
        ino,
        at as int,
        data@.skip(at - offset),
        block as int,
    ) =~= micros_view(out@));
    out
}

/// The directory at a path, if there is one.
fn find_dir(v: &Fs, path: &[char]) -> (r: Option<Ino>)
    requires
        fs_sound(v@),
    ensures
        r == dir_at(v@, path@),
{
    match v.lookup_chars(path) {
        Some(p) => if v.is_dir(p) {
            Some(p)
        } else {
            None
        },
        None => None,
    }
}

/// What an operation does to the image before it, or why it cannot apply.
pub open spec fn effect_view(r: Result<(Option<Node>, Vec<Micro>), String>) -> Result<
    Effect,
    Seq<char>,
> {
    match r {
        Ok((node, micros)) => Ok(
            Effect {
                node: match node {
                    Some(n) => Some(n@),
                    None => None,
                },
                micros: micros_view(micros@),
            },
        ),
        Err(msg) => Err(msg@),
    }
}

fn nothing() -> (r: Result<(Option<Node>, Vec<Micro>), String>)
    ensures
        effect_view(r) == Ok::<Effect, Seq<char>>(no_effect()),
{
    let micros: Vec<Micro> = Vec::new();
    assert(micros_view(micros@) =~= Seq::<MicroView>::empty());
    Ok((None, micros))
}

fn single(node: Option<Node>, m: Micro) -> (r: Result<(Option<Node>, Vec<Micro>), String>)
    ensures
        r is Ok,
        r->Ok_0.0 == node,
        micros_view(r->Ok_0.1@) == seq![m@],
{
    let mut micros: Vec<Micro> = Vec::new();
    micros.push(m);
    assert(micros_view(micros@) =~= seq![m@]);
    Ok((node, micros))
}

fn create(v: &Fs, path: &[char], node: Node) -> (r: Result<(Option<Node>, Vec<Micro>), String>)
    requires
        fs_sound(v@),
    ensures
        effect_view(r) == creation(v@, path@, node@),
{
    if v.lookup_chars(path).is_some() {
        return nothing();
    }
    let (dir, name) = split(path);
    match find_dir(v, dir) {
        Some(dir) => {
            let ino: Ino = v.nodes.len();
            single(Some(node), Micro::Link { parent: dir, name: copy_of(name), ino })
        },
        None => Err("parent directory does not exist".to_owned()),
    }
}

fn remove(v: &Fs, path: &[char]) -> (r: Result<(Option<Node>, Vec<Micro>), String>)
    requires
        fs_sound(v@),
    ensures
        effect_view(r) == removal(v@, path@),
{
    if v.lookup_chars(path).is_none() {
        return Err("no such file".to_owned());
    }
    proof {
        lemma_parent_found(v@, path@);
    }
    let (dir, name) = split(path);
    match v.lookup_chars(dir) {
        Some(dir) => single(None, Micro::Unlink { parent: dir, name: copy_of(name) }),
        None => Err("no such file".to_owned()),
    }
}

fn rename(v: &Fs, from: &[char], to: &[char]) -> (r: Result<(Option<Node>, Vec<Micro>), String>)
    requires
        fs_sound(v@),
    ensures
        effect_view(r) == effect(v@, OpView::Rename { from: from@, to: to@ }, 1),
{
    let ino: Ino = match v.lookup_chars(from) {
        Some(i) => i,
        None => {
            return Err("no such file".to_owned());
        },
    };
    let target = v.lookup_chars(to);
    let onto_itself = match target {
        Some(i) => i == ino,
        None => false,
    };
    if same(from, to) || onto_itself {
        return nothing();
    }
    let mut inside: Vec<char> = copy_of(from);
    inside.push('/');
    proof {
        reveal_strlit("/");
        assert(inside@ =~= from@ + "/"@);
        lemma_parent_found(v@, from@);
    }
    if has_prefix(to, inside.as_slice()) {
        return Err("cannot move a directory into itself".to_owned());
    }
    let (from_dir, from_name) = split(from);
    let (to_dir, to_name) = split(to);
    match (v.lookup_chars(from_dir), find_dir(v, to_dir)) {
        (Some(from_dir), Some(to_dir)) => single(
            None,
            Micro::Rename {
                from: from_dir,
                from_name: copy_of(from_name),
                to: to_dir,
                to_name: copy_of(to_name),
                ino,
                replaces: target.is_some(),
            },
        ),
        _ => Err("target directory does not exist".to_owned()),
    }
}

/// What an operation does to the image before it, or why it cannot apply.
fn effect_of(v: &Fs, op: &Op, block: u64) -> (r: Result<(Option<Node>, Vec<Micro>), String>)
    requires
        fs_sound(v@),
        block > 0,
        op_fits(op@),
    ensures
        effect_view(r) == effect(v@, op@, block as int),
{
    match op {
        Op::Create { path } => {
            let c = chars_of(path.as_str());
            let buf: Vec<u8> = Vec::new();
            assert(buf@ =~= Seq::<u8>::empty());
            create(v, c.as_slice(), Node::File { buf, len: 0 })
        },
        Op::Mkdir { path } => {
            let c = chars_of(path.as_str());
            create(v, c.as_slice(), Node::Dir(NameMap::new()))
        },
        Op::Write { path, offset, data } => {
            let ino: Ino = match v.lookup(path.as_str()) {
                Some(i) => i,
                None => {
                    return Err("no such file".to_owned());
                },
            };
            let len: u64 = match v.file_len(ino) {
                Some(n) => n,
                None => {
                    return Err("is a directory".to_owned());
                },
            };
            let end: u64 = *offset + data.len() as u64;
            let mut micros = cut(ino, *offset, data, block);
            let ghost before = micros_view(micros@);
            if end > len {
                let m = Micro::SetLen { ino, len: end, keep_tail: true };
                micros.push(m);
                assert(micros_view(micros@) =~= before + seq![m@]);
            } else {
                assert(micros_view(micros@) =~= before + Seq::<MicroView>::empty());
            }
            Ok((None, micros))
        },
        Op::Truncate { path, len } => match v.lookup(path.as_str()) {
            Some(ino) => if v.is_dir(ino) {
                Err("is a directory".to_owned())
            } else {
                single(None, Micro::SetLen { ino, len: *len, keep_tail: false })
            },
            None => Err("no such file".to_owned()),
        },
        Op::Rename { from, to } => {
            let f = chars_of(from.as_str());
            let t = chars_of(to.as_str());
            rename(v, f.as_slice(), t.as_slice())
        },
        Op::Unlink { path } => {
            let c = chars_of(path.as_str());
            remove(v, c.as_slice())
        },
        Op::Rmdir { path } => {
            let c = chars_of(path.as_str());
            remove(v, c.as_slice())
        },
        Op::Fsync { path } => if v.lookup(path.as_str()).is_some() {
            nothing()
        } else {
            Err("no such file".to_owned())
        },
        Op::Sync => nothing(),
        Op::Mark { .. } => nothing(),
    }
}

/// Whether the barrier `op` makes an earlier micro-op durable; `file` is the
/// inode that it names.
fn is_covered(profile: Profile, op: &Op, file: Ino, m: &Micro) -> (r: bool)
    ensures
        r == covers(
            profile,
            match op@ {
                OpView::Fsync { .. } => Barrier::Fsync(file),
                OpView::Sync => Barrier::Sync,
                _ => Barrier::Nothing,
            },
            m@,
        ),
{
    match op {
        Op::Sync => true,
        Op::Fsync { .. } => if profile == Profile::Ext4Ordered && m.is_meta() {
            true
        } else {
            match m {
                Micro::Write { ino, .. } => *ino == file,
                Micro::SetLen { ino, .. } => *ino == file,
                Micro::Link { parent, .. } => *parent == file,
                Micro::Unlink { parent, .. } => *parent == file,
                Micro::Rename { to, .. } => *to == file,
            }
        },
        _ => false,
    }
}

/// Records what op `i` makes durable.
fn flush(micro: &mut Vec<MicroOp>, profile: Profile, v: &Fs, op: &Op, i: usize)
    requires
        fs_sound(v@),
        op@ matches OpView::Fsync { path } ==> found(v@, path) is Some,
    ensures
        micro_ops_view(final(micro)@) == flushed(
            micro_ops_view(old(micro)@),
            profile,
            barrier(v@, op@),
            i,
        ),
{
    let ghost before = micro_ops_view(micro@);
    let file: Ino = match op {
        Op::Fsync { path } => match v.lookup(path.as_str()) {
            Some(f) => f,
            None => 0,
        },
        _ => 0,
    };
    let n: usize = micro.len();
    let ghost b = barrier(v@, op@);
    let mut j: usize = 0;
    while j < n
        invariant
            j <= n,
            n == before.len(),
            micro@.len() == n,
            b == match op@ {
                OpView::Fsync { .. } => Barrier::Fsync(file),
                OpView::Sync => Barrier::Sync,
                _ => Barrier::Nothing,
            },
            forall|k: int|
                0 <= k < n ==> (#[trigger] micro@[k])@ == (if k < j {
                    flushed(before, profile, b, i)[k]
                } else {
                    before[k]
                }),
        decreases n - j,
    {
        let x = &micro[j];
        assert(micro@[j as int]@ == before[j as int]);
        if x.durable_at == NEVER && is_covered(profile, op, file, &x.m) {
            let y: &mut MicroOp = &mut micro[j];
            y.durable_at = i;
        }
        j += 1;
    }
    assert(micro_ops_view(micro@) =~= flushed(before, profile, b, i));
}

/// Performs the micro-ops of op `i` on `v` and adds them to `micro`.
fn perform(v: &mut Fs, micro: &mut Vec<MicroOp>, micros: Vec<Micro>, i: usize)
    requires
        fs_sound(old(v)@),
        forall|k: int|
            0 <= k < micros@.len() ==> micro_sound(#[trigger] micros@[k]@, old(v)@.len()),
    ensures
        final(v)@ == applied_all(old(v)@, micros_view(micros@)),
        fs_sound(final(v)@),
        micro_ops_view(final(micro)@) == micro_ops_view(old(micro)@) + issued(
            micros_view(micros@),
            i,
        ),
{
    let ghost v0 = v@;
    let ghost micro0 = micro_ops_view(micro@);
    let ghost all = micros_view(micros@);
    assert(micro0 + issued(all.take(0), i) =~= micro0);
    for m in it: micros
        invariant
            it.seq() == micros@,
            all == micros_view(micros@),
            fs_sound(v@),
            v@.len() == v0.len(),
            forall|k: int| 0 <= k < micros@.len() ==> micro_sound(
                #[trigger] micros@[k]@,
                v0.len(),
            ),
            v@ == applied_all(v0, all.take(it.index() as int)),
            micro_ops_view(micro@) == micro0 + issued(all.take(it.index() as int), i),
    {
        let ghost k = it.index() as int;
        let ghost before = micro_ops_view(micro@);
        assert(m == micros@[k]);
        v.apply(&m);
        let x = MicroOp { m, op: i, durable_at: NEVER };
        micro.push(x);
        assert(all.take(k + 1).drop_last() =~= all.take(k));
        assert(micro_ops_view(micro@) =~= before.push(x@));
        assert(issued(all.take(k + 1), i) =~= issued(all.take(k), i).push(x@));
        assert(micro0 + issued(all.take(k + 1), i) =~= (micro0 + issued(all.take(k), i)).push(x@));
    }
    assert(all.take(all.len() as int) =~= all);
}

/// Compiles a trace.
pub fn compile(trace: &Trace, profile: Profile, block: u64) -> (r: Result<Program, Error>)
    requires
        compilable(trace@),
    ensures
        match r {
            Ok(p) => compiled(trace@, profile, block) == Ok::<ProgramView, ErrorView>(p@)
                && program_sound(p@) && ops_of(p@) == trace@.ops.len() && starts_and_ends_well(
                trace@,
                profile,
                block,
                p@,
            ),
            Err(e) => compiled(trace@, profile, block) == Err::<ProgramView, ErrorView>(e@),
        },
{
    let size: u64 = if block == 0 {
        1
    } else {
        block
    };
    let mut base = Fs::from_tree(&trace.initial);
    let mut v = base.clone();
    let mut micro: Vec<MicroOp> = Vec::new();
    let mut op_end: Vec<usize> = Vec::new();
    op_end.push(0);
    let mut marks_before: Vec<usize> = Vec::new();
    marks_before.push(0);
    let mut marks: Vec<String> = Vec::new();
    let ghost t = trace@;
    let n: usize = trace.ops.len();
    let mut i: usize = 0;
    assert(micro_ops_view(micro@) =~= Seq::<MicroOpView>::empty());
    assert(texts(marks@) =~= Seq::<Seq<char>>::empty());
    assert(op_end@ =~= seq![0usize]);
    assert(marks_before@ =~= seq![0usize]);
    let ghost mut c = compiled_upto(t, profile, block, 0)->Ok_0;
    while i < n
        invariant
            i <= n,
            n == t.ops.len(),
            n == trace.ops@.len(),
            t == trace@,
            compilable(t),
            size == block_of(block),
            size > 0,
            compiled_upto(t, profile, block, i as int) == Ok::<Partial, ErrorView>(c),
            c == (Partial {
                base: base@,
                volatile: v@,
                micro: micro_ops_view(micro@),
                op_end: op_end@,
                marks_before: marks_before@,
                marks: texts(marks@),
            }),
            program_sound(so_far(c, profile)),
            fs_sound(v@),
            v@.len() == base@.len(),
            op_end@.len() == i + 1,
            snapshot_fits(t.initial),
        decreases n - i,
    {
        let op = &trace.ops[i];
        let inodes: usize = v.nodes.len();
        assert(v@.len() == inodes);
        assert(op@ == t.ops[i as int]);
        assert(op_fits(t.ops[i as int]));
        let (node, micros) = match effect_of(&v, op, size) {
            Ok(x) => x,
            Err(msg) => {
                let s = cat(op.describe(), ": ");
                let e = Error::Model { op: i, msg: cat(s, msg.as_str()) };
                proof {
                    lemma_error_stays(t, profile, block, i + 1, n as int);
                }
                return Err(e);
            },
        };
        let ghost e = effect(c.volatile, t.ops[i as int], size as int)->Ok_0;
        proof {
            lemma_effect_sound(c.volatile, t.ops[i as int], size as int);
        }
        if let Some(node) = node {
            proof {
                lemma_pushed_sound(v@, node@);
            }
            base.nodes.push(node.dup());
            v.nodes.push(node);
            assert(base@ =~= c.base.push(node@));
            assert(v@ =~= c.volatile.push(node@));
        }
        assert(v@ == with_node(c.volatile, e.node));
        proof {
            assert forall|k: int| 0 <= k < micros@.len() implies micro_sound(
                #[trigger] micros@[k]@,
                v@.len(),
            ) by {
                assert(micros@[k]@ == e.micros[k]);
            }
        }
        perform(&mut v, &mut micro, micros, i);
        assert(e.micros.len() == 0 ==> v@ == with_node(c.volatile, e.node));
        flush(&mut micro, profile, &v, op, i);
        if let Op::Mark { text } = op {
            let ghost before = texts(marks@);
            marks.push(text.clone());
            assert(texts(marks@) =~= before.push(text@));
        }
        op_end.push(micro.len());
        marks_before.push(marks.len());
        proof {
            let d = advanced(c, i, t.ops[i as int], profile, e);
            assert(op_end.len() == i + 2);
            assert(d.micro.len() == micro@.len());
            assert(d.marks.len() == marks@.len());
            lemma_advanced_sound(c, i, t.ops[i as int], profile, size as int);
            c = d;
        }
        i += 1;
    }
    proof {
        assert(base.nodes.len() == c.base.len());
        assert(micro.len() == c.micro.len());
        assert(op_end.len() == c.op_end.len());
        lemma_starts_and_ends_well(t, profile, block);
    }
    Ok(Program { base, micro, op_end, profile, marks_before, marks })
}

/// A trace that fails at some op fails there as a whole.
proof fn lemma_error_stays(t: TraceView, profile: Profile, block: u64, i: int, n: int)
    requires
        0 <= i <= n,
        compiled_upto(t, profile, block, i) is Err,
    ensures
        compiled_upto(t, profile, block, n) == compiled_upto(t, profile, block, i),
    decreases n - i,
{
    if i < n {
        lemma_error_stays(t, profile, block, i, n - 1);
    }
}

} // verus!
