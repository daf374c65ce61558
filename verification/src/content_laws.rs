//! What each micro-op and each op does to the files and directories of an image.

use crate::laws::lemma_applied_all_adds;
use crate::model::{
    applied, found, fs_sound, lemma_applied_sound, lemma_walk_to_in_range, micro_sound, visible,
    walk_to, FsView, Ino, MicroView, NodeView,
};
use crate::paths::{components, file_name, lemma_components_parent, parent};
use crate::program::{applied_all, chunks, creation, effect, with_node, Effect};
use crate::text::starts_with;
use crate::trace::OpView;
use vstd::prelude::*;

verus! {

/// A file shows as many bytes as its length says: those that it has, and zeros
/// after them.
pub proof fn law_a_file_shows_its_length(buf: Seq<u8>, len: u64, i: int)
    requires
        0 <= i < len,
    ensures
        visible(buf, len).len() == len,
        i < buf.len() ==> visible(buf, len)[i] == buf[i],
        i >= buf.len() ==> visible(buf, len)[i] == 0,
{
}

/// A new length is the length from then on. What was shown below both lengths is
/// shown still, and nothing else changes.
pub proof fn law_set_len_keeps_what_stays(fs: FsView, ino: Ino, new: u64, keep_tail: bool)
    requires
        ino < fs.len(),
        fs[ino as int] is File,
    ensures
        ({
            let after = applied(fs, MicroView::SetLen { ino, len: new, keep_tail });
            let len = fs[ino as int]->len;
            let shown = visible(fs[ino as int]->buf, len);
            &&& after.len() == fs.len()
            &&& forall|f: int| 0 <= f < fs.len() && f != ino ==> #[trigger] after[f] == fs[f]
            &&& after[ino as int] matches NodeView::File { buf, len: now } && {
                &&& now == new
                &&& visible(buf, now).len() == new
                &&& forall|i: int|
                    0 <= i < new && i < len ==> #[trigger] visible(buf, now)[i] == shown[i]
            }
        }),
{
}

/// A byte of a file that is not there: past the bytes that the file has, or zero.
spec fn blank(fs: FsView, ino: Ino, i: int) -> bool {
    fs[ino as int] matches NodeView::File { buf, .. } && (i < buf.len() ==> buf[i] == 0)
}

proof fn lemma_blank_stays(fs: FsView, ino: Ino, i: int, later: Seq<MicroView>)
    requires
        fs_sound(fs),
        ino < fs.len(),
        0 <= i,
        blank(fs, ino, i),
        forall|k: int| 0 <= k < later.len() ==> micro_sound(#[trigger] later[k], fs.len()),
        forall|k: int|
            0 <= k < later.len() ==> (#[trigger] later[k] matches MicroView::Write {
                ino: f,
                offset,
                data,
            } ==> f != ino || i < offset || offset + data.len() <= i),
    ensures
        applied_all(fs, later).len() == fs.len(),
        fs_sound(applied_all(fs, later)),
        blank(applied_all(fs, later), ino, i),
    decreases later.len(),
{
    if later.len() > 0 {
        let before = later.drop_last();
        assert forall|k: int| 0 <= k < before.len() implies micro_sound(
            #[trigger] before[k],
            fs.len(),
        ) by {
            assert(before[k] == later[k]);
        }
        assert forall|k: int| 0 <= k < before.len() implies (#[trigger] before[k] matches
            MicroView::Write { ino: f, offset, data } ==> f != ino || i < offset || offset
            + data.len() <= i) by {
            assert(before[k] == later[k]);
        }
        lemma_blank_stays(fs, ino, i, before);
        let x = applied_all(fs, before);
        let m = later.last();
        assert(micro_sound(later[later.len() - 1], fs.len()));
        lemma_applied_sound(x, m);
    }
}

/// What shrinking a file or truncating it cuts off is gone: a byte at or past
/// the cut that shows later, whatever happens in between, reads zero unless a
/// write put it there.
pub proof fn law_cut_bytes_read_zero(
    fs: FsView,
    ino: Ino,
    new: u64,
    keep_tail: bool,
    later: Seq<MicroView>,
    i: int,
)
    requires
        fs_sound(fs),
        ino < fs.len(),
        fs[ino as int] is File,
        new <= usize::MAX,
        new < fs[ino as int]->len || !keep_tail,
        i >= new || i >= fs[ino as int]->len,
        forall|k: int| 0 <= k < later.len() ==> micro_sound(#[trigger] later[k], fs.len()),
        forall|k: int|
            0 <= k < later.len() ==> (#[trigger] later[k] matches MicroView::Write {
                ino: f,
                offset,
                data,
            } ==> f != ino || i < offset || offset + data.len() <= i),
    ensures
        ({
            let after = applied_all(
                applied(fs, MicroView::SetLen { ino, len: new, keep_tail }),
                later,
            );
            after[ino as int] matches NodeView::File { buf, len } && (i < len ==> visible(
                buf,
                len,
            )[i] == 0)
        }),
{
    let m = MicroView::SetLen { ino, len: new, keep_tail };
    lemma_applied_sound(fs, m);
    lemma_blank_stays(applied(fs, m), ino, i, later);
}

/// Cutting a file to nothing and growing it again shows zeros only.
pub proof fn law_regrown_file_is_blank(fs: FsView, ino: Ino, k: u64, first: bool, second: bool)
    requires
        fs_sound(fs),
        ino < fs.len(),
        fs[ino as int] is File,
        fs[ino as int]->len > 0 || !first,
        k <= usize::MAX,
    ensures
        ({
            let cut = applied(fs, MicroView::SetLen { ino, len: 0, keep_tail: first });
            let after = applied(cut, MicroView::SetLen { ino, len: k, keep_tail: second });
            after[ino as int] matches NodeView::File { buf, len } && visible(buf, len) == Seq::new(
                k as nat,
                |i: int| 0u8,
            )
        }),
{
    let cut = applied(fs, MicroView::SetLen { ino, len: 0, keep_tail: first });
    let m = MicroView::SetLen { ino, len: k, keep_tail: second };
    let after = applied(cut, m);
    let buf = after[ino as int]->buf;
    assert(visible(buf, k) =~= Seq::new(k as nat, |i: int| 0u8));
}

/// A size that persists after the data shows the data: growing a file that was
/// not cut keeps the bytes written past its end.
pub proof fn law_size_after_data_shows_it(fs: FsView, ino: Ino, new: u64, i: int)
    requires
        ino < fs.len(),
        fs[ino as int] is File,
        new >= fs[ino as int]->len,
        0 <= i < new,
    ensures
        ({
            let buf = fs[ino as int]->buf;
            let after = applied(fs, MicroView::SetLen { ino, len: new, keep_tail: true });
            after[ino as int] matches NodeView::File { buf: now, len } && visible(now, len)[i] == (
            if i < buf.len() {
                buf[i]
            } else {
                0
            })
        }),
{
}

/// A write puts its bytes where it says, and changes no other byte, no length
/// and no other inode. A byte that shows then is the one written, or the one
/// that showed before.
pub proof fn law_write_puts_its_bytes(fs: FsView, ino: Ino, offset: u64, data: Seq<u8>)
    requires
        ino < fs.len(),
        fs[ino as int] is File,
    ensures
        ({
            let after = applied(fs, MicroView::Write { ino, offset, data });
            let len = fs[ino as int]->len;
            let shown = visible(fs[ino as int]->buf, len);
            &&& after.len() == fs.len()
            &&& forall|f: int| 0 <= f < fs.len() && f != ino ==> #[trigger] after[f] == fs[f]
            &&& after[ino as int] matches NodeView::File { buf, len: now } && {
                &&& now == len
                &&& buf.len() >= offset + data.len()
                &&& forall|i: int|
                    offset <= i < offset + data.len() ==> #[trigger] buf[i] == data[i - offset]
                &&& forall|i: int|
                    0 <= i < len && (i < offset || offset + data.len() <= i)
                        ==> #[trigger] visible(buf, now)[i] == shown[i]
            }
        }),
{
}

/// A link makes its name lead to the inode, in that directory and nowhere else.
pub proof fn law_link_adds_one_entry(fs: FsView, dir: Ino, name: Seq<char>, ino: Ino)
    requires
        dir < fs.len(),
        fs[dir as int] is Dir,
    ensures
        ({
            let after = applied(fs, MicroView::Link { parent: dir, name, ino });
            let d = fs[dir as int]->Dir_0;
            &&& after.len() == fs.len()
            &&& forall|f: int| 0 <= f < fs.len() && f != dir ==> #[trigger] after[f] == fs[f]
            &&& after[dir as int] matches NodeView::Dir(now) && {
                &&& now.contains_key(name) && now[name] == ino
                &&& forall|k: Seq<char>|
                    k != name ==> (#[trigger] now.contains_key(k) <==> d.contains_key(k))
                &&& forall|k: Seq<char>|
                    k != name && d.contains_key(k) ==> #[trigger] now[k] == d[k]
            }
        }),
{
}

/// An unlink removes its name from that directory, and nothing else: the inode
/// keeps what it holds.
pub proof fn law_unlink_removes_one_entry(fs: FsView, dir: Ino, name: Seq<char>)
    requires
        dir < fs.len(),
        fs[dir as int] is Dir,
    ensures
        ({
            let after = applied(fs, MicroView::Unlink { parent: dir, name });
            let d = fs[dir as int]->Dir_0;
            &&& after.len() == fs.len()
            &&& forall|f: int| 0 <= f < fs.len() && f != dir ==> #[trigger] after[f] == fs[f]
            &&& after[dir as int] matches NodeView::Dir(now) && {
                &&& !now.contains_key(name)
                &&& forall|k: Seq<char>|
                    k != name ==> (#[trigger] now.contains_key(k) <==> d.contains_key(k))
                &&& forall|k: Seq<char>|
                    k != name && d.contains_key(k) ==> #[trigger] now[k] == d[k]
            }
        }),
{
}

/// A rename makes the new name lead to the inode and takes the old name away if
/// it led there. An old name that leads elsewhere by now stays, and so does
/// everything else.
pub proof fn law_rename_moves_one_entry(
    fs: FsView,
    from: Ino,
    from_name: Seq<char>,
    to: Ino,
    to_name: Seq<char>,
    ino: Ino,
    replaces: bool,
)
    requires
        from < fs.len(),
        to < fs.len(),
        fs[from as int] is Dir,
        fs[to as int] is Dir,
    ensures
        ({
            let after = applied(
                fs,
                MicroView::Rename { from, from_name, to, to_name, ino, replaces },
            );
            let moved = |dir: Ino, k: Seq<char>|
                dir == from && k == from_name && fs[from as int]->Dir_0.contains_key(k)
                    && fs[from as int]->Dir_0[k] == ino;
            &&& after.len() == fs.len()
            &&& forall|f: int|
                0 <= f < fs.len() && f != from && f != to ==> #[trigger] after[f] == fs[f]
            &&& after[from as int] is Dir
            &&& after[to as int] matches NodeView::Dir(now) && now.contains_key(to_name)
                && now[to_name] == ino
            &&& forall|dir: Ino, k: Seq<char>|
                (dir == from || dir == to) && !(dir == to && k == to_name) ==> {
                    &&& (#[trigger] after[dir as int]->Dir_0.contains_key(k)) <==> (
                    fs[dir as int]->Dir_0.contains_key(k) && !moved(dir, k))
                    &&& after[dir as int]->Dir_0.contains_key(k) ==> after[dir as int]->Dir_0[k]
                        == fs[dir as int]->Dir_0[k]
                }
        }),
{
}

/// Every entry that one image has, another has too.
pub open spec fn has_entries_of(more: FsView, fs: FsView) -> bool {
    &&& more.len() >= fs.len()
    &&& forall|i: int, k: Seq<char>|
        0 <= i < fs.len() && fs[i] is Dir && #[trigger] fs[i]->Dir_0.contains_key(k)
            ==> more[i] is Dir && more[i]->Dir_0.contains_key(k) && more[i]->Dir_0[k]
            == fs[i]->Dir_0[k]
}

pub proof fn lemma_walk_in_more(more: FsView, fs: FsView, names: Seq<Seq<char>>)
    requires
        fs_sound(fs),
        has_entries_of(more, fs),
        walk_to(fs, names) is Some,
    ensures
        walk_to(more, names) == walk_to(fs, names),
    decreases names.len(),
{
    if names.len() > 0 {
        lemma_walk_in_more(more, fs, names.drop_last());
        lemma_walk_to_in_range(fs, names.drop_last());
        let dir = walk_to(fs, names.drop_last())->0;
        assert(fs[dir as int]->Dir_0.contains_key(names.last()));
    }
}

/// Creating what is not there makes the path lead to a new empty file, or a new
/// empty directory; every path that led somewhere leads there still. Creating
/// what is there changes nothing.
pub proof fn law_created_is_found(v: FsView, path: Seq<char>, other: Seq<char>, block: int)
    requires
        fs_sound(v),
        v.len() < usize::MAX,
        found(v, parent(path)) matches Some(dir) && v[dir as int] is Dir,
    ensures
        effect(v, OpView::Create { path }, block) is Ok,
        effect(v, OpView::Mkdir { path }, block) is Ok,
        ({
            let e = effect(v, OpView::Create { path }, block)->Ok_0;
            let after = applied_all(with_node(v, e.node), e.micros);
            &&& found(v, path) is Some ==> after == v
            &&& found(v, path) is None ==> found(after, path) == Some(v.len() as usize)
                && after[v.len() as int] == (NodeView::File { buf: Seq::empty(), len: 0 })
            &&& found(v, other) is Some ==> found(after, other) == found(v, other)
        }),
        ({
            let e = effect(v, OpView::Mkdir { path }, block)->Ok_0;
            let after = applied_all(with_node(v, e.node), e.micros);
            &&& found(v, path) is Some ==> after == v
            &&& found(v, path) is None ==> found(after, path) == Some(v.len() as usize)
                && after[v.len() as int] == NodeView::Dir(Map::empty())
            &&& found(v, other) is Some ==> found(after, other) == found(v, other)
        }),
{
    lemma_created(v, path, other, NodeView::File { buf: Seq::empty(), len: 0 });
    lemma_created(v, path, other, NodeView::Dir(Map::empty()));
}

proof fn lemma_created(v: FsView, path: Seq<char>, other: Seq<char>, node: NodeView)
    requires
        fs_sound(v),
        v.len() < usize::MAX,
        found(v, parent(path)) matches Some(dir) && v[dir as int] is Dir,
        node == (NodeView::File { buf: Seq::empty(), len: 0 }) || node == NodeView::Dir(
            Map::empty(),
        ),
    ensures
        ({
            let e = creation(v, path, node)->Ok_0;
            let after = applied_all(with_node(v, e.node), e.micros);
            &&& found(v, path) is Some ==> after == v
            &&& found(v, path) is None ==> found(after, path) == Some(v.len() as usize)
                && after[v.len() as int] == node
            &&& found(v, other) is Some ==> found(after, other) == found(v, other)
        }),
{
    let dir = found(v, parent(path))->0;
    lemma_walk_to_in_range(v, components(parent(path)));
    lemma_components_parent(path);
    if found(v, path) is None {
        let name = file_name(path);
        let m = MicroView::Link { parent: dir, name, ino: v.len() as usize };
        assert(components(path) == components(parent(path)).push(name));
        assert(components(path).drop_last() =~= components(parent(path)));
        assert(components(path).last() == name);
        assert(!v[dir as int]->Dir_0.contains_key(name));
        let more = v.push(node);
        lemma_one(more, m);
        let after = applied(more, m);
        assert(has_entries_of(after, v));
        lemma_walk_in_more(after, v, components(parent(path)));
        if found(v, other) is Some {
            lemma_walk_in_more(after, v, components(other));
        }
    }
}

/// Applying a list of one.
pub proof fn lemma_one(fs: FsView, m: MicroView)
    ensures
        applied_all(fs, seq![m]) == applied(fs, m),
{
    assert(seq![m].drop_last() =~= Seq::<MicroView>::empty());
    reveal_with_fuel(applied_all, 2);
}

/// Writing in chunks is writing at once.
proof fn lemma_chunks_write(fs: FsView, ino: Ino, at: int, data: Seq<u8>, block: int)
    requires
        ino < fs.len(),
        fs[ino as int] is File,
        0 <= at,
        at + data.len() <= u64::MAX,
        data.len() > 0,
        block > 0,
    ensures
        applied_all(fs, chunks(ino, at, data, block)) == applied(
            fs,
            MicroView::Write { ino, offset: at as u64, data },
        ),
    decreases data.len(),
{
    let room = block - at % block;
    assert(room > 0) by (nonlinear_arith)
        requires
            block > 0,
            room == block - at % block,
    ;
    let n = if room < data.len() {
        room
    } else {
        data.len() as int
    };
    let m = MicroView::Write { ino, offset: at as u64, data: data.take(n) };
    let rest = chunks(ino, at + n, data.skip(n), block);
    let mid = applied(fs, m);
    let whole = applied(fs, MicroView::Write { ino, offset: at as u64, data });
    lemma_applied_all_adds(fs, seq![m], rest);
    lemma_one(fs, m);
    if n == data.len() {
        assert(data.take(n) =~= data);
        assert(rest =~= Seq::<MicroView>::empty());
    } else {
        lemma_chunks_write(mid, ino, at + n, data.skip(n), block);
        let after = applied(
            mid,
            MicroView::Write { ino, offset: (at + n) as u64, data: data.skip(n) },
        );
        assert(after[ino as int]->buf =~= whole[ino as int]->buf);
        assert(after =~= whole);
    }
}

/// What is written is read back: after a write the file shows its bytes where
/// the write put them, what it showed before elsewhere, and zeros in between.
/// It grows to the end of the write and never shrinks, and no other inode
/// changes.
pub proof fn law_written_is_read(v: FsView, path: Seq<char>, offset: u64, data: Seq<u8>, block: int)
    requires
        fs_sound(v),
        found(v, path) matches Some(f) && v[f as int] is File,
        v[found(v, path)->0 as int]->buf.len() <= v[found(v, path)->0 as int]->len,
        offset + data.len() <= u64::MAX,
        block > 0,
    ensures
        effect(v, OpView::Write { path, offset, data }, block) is Ok,
        ({
            let e = effect(v, OpView::Write { path, offset, data }, block)->Ok_0;
            let f = found(v, path)->0 as int;
            let after = applied_all(v, e.micros);
            let was = visible(v[f]->buf, v[f]->len);
            let end = offset + data.len();
            &&& e.node is None
            &&& after.len() == v.len()
            &&& forall|g: int| 0 <= g < v.len() && g != f ==> #[trigger] after[g] == v[g]
            &&& after[f] matches NodeView::File { buf, len } && {
                &&& len == (if end > was.len() {
                    end
                } else {
                    was.len() as int
                })
                &&& forall|i: int|
                    0 <= i < len ==> #[trigger] visible(buf, len)[i] == (if offset <= i < end {
                        data[i - offset]
                    } else if i < was.len() {
                        was[i]
                    } else {
                        0
                    })
            }
        }),
{
    lemma_walk_to_in_range(v, components(path));
    let e = effect(v, OpView::Write { path, offset, data }, block)->Ok_0;
    let ino = found(v, path)->0;
    let parts = chunks(ino, offset as int, data, block);
    let mid = applied_all(v, parts);
    if data.len() > 0 {
        lemma_chunks_write(v, ino, offset as int, data, block);
    } else {
        assert(parts =~= Seq::<MicroView>::empty());
    }
    let end = offset + data.len();
    if end > v[ino as int]->len {
        let m = MicroView::SetLen { ino, len: end as u64, keep_tail: true };
        lemma_applied_all_adds(v, parts, seq![m]);
        lemma_one(mid, m);
        assert(e.micros =~= parts + seq![m]);
    } else {
        assert(e.micros =~= parts);
    }
}

/// Removing a file or a directory leaves nothing at its path; what else can be
/// found was there before, and every inode keeps its bytes.
pub proof fn law_removed_is_not_found(v: FsView, path: Seq<char>, other: Seq<char>, block: int)
    requires
        fs_sound(v),
        found(v, path) is Some,
        file_name(path).len() > 0,
    ensures
        effect(v, OpView::Unlink { path }, block) is Ok,
        effect(v, OpView::Rmdir { path }, block) == effect(v, OpView::Unlink { path }, block),
        ({
            let e = effect(v, OpView::Unlink { path }, block)->Ok_0;
            let after = applied_all(v, e.micros);
            &&& e.node is None
            &&& after.len() == v.len()
            &&& found(after, path) is None
            &&& found(after, other) is Some ==> found(after, other) == found(v, other)
            &&& forall|f: int| 0 <= f < v.len() && v[f] is File ==> #[trigger] after[f] == v[f]
        }),
{
    lemma_components_parent(path);
    let name = file_name(path);
    assert(components(path).drop_last() =~= components(parent(path)));
    assert(components(path).last() == name);
    lemma_walk_to_in_range(v, components(parent(path)));
    let dir = found(v, parent(path))->0;
    let m = MicroView::Unlink { parent: dir, name };
    lemma_one(v, m);
    let after = applied(v, m);
    lemma_applied_sound(v, m);
    assert(has_entries_of(v, after));
    if found(after, path) is Some {
        lemma_walk_in_more(v, after, components(parent(path)));
    }
    if found(after, other) is Some {
        lemma_walk_in_more(v, after, components(other));
    }
}

/// A rename that does something is one change: the name in the new directory
/// leads to what the old path led to, which keeps its content; the old name goes.
pub proof fn law_renamed_is_moved(v: FsView, from: Seq<char>, to: Seq<char>, block: int)
    requires
        fs_sound(v),
        effect(v, OpView::Rename { from, to }, block) is Ok,
        from != to,
        found(v, from) != found(v, to),
        file_name(from).len() > 0,
        file_name(to).len() > 0,
    ensures
        ({
            let e = effect(v, OpView::Rename { from, to }, block)->Ok_0;
            let after = applied_all(v, e.micros);
            let old_dir = found(v, parent(from));
            let new_dir = found(v, parent(to));
            &&& e.node is None
            &&& e.micros.len() == 1
            &&& e.micros[0] is Rename
            &&& e.micros[0]->replaces == found(v, to) is Some
            &&& old_dir is Some && new_dir is Some && found(v, from) is Some
            &&& after.len() == v.len()
            &&& after[new_dir->0 as int] matches NodeView::Dir(d) && d.contains_key(file_name(to))
                && d[file_name(to)] == found(v, from)->0
            &&& after[old_dir->0 as int] matches NodeView::Dir(d) && (d.contains_key(
                file_name(from),
            ) ==> old_dir == new_dir && file_name(from) == file_name(to))
            &&& forall|f: int|
                0 <= f < v.len() && f != old_dir->0 && f != new_dir->0 ==> #[trigger] after[f]
                    == v[f]
        }),
{
    lemma_components_parent(from);
    lemma_components_parent(to);
    assert(components(from).drop_last() =~= components(parent(from)));
    assert(components(from).last() == file_name(from));
    assert(components(to).drop_last() =~= components(parent(to)));
    lemma_walk_to_in_range(v, components(parent(from)));
    lemma_walk_to_in_range(v, components(parent(to)));
    let e = effect(v, OpView::Rename { from, to }, block)->Ok_0;
    let m = e.micros[0];
    assert(e.micros =~= seq![m]);
    lemma_one(v, m);
}

/// A rename onto itself, or onto another name of the same file, does nothing.
pub proof fn law_rename_onto_itself_does_nothing(
    v: FsView,
    from: Seq<char>,
    to: Seq<char>,
    block: int,
)
    requires
        found(v, from) is Some,
        from == to || found(v, from) == found(v, to),
    ensures
        effect(v, OpView::Rename { from, to }, block) == Ok::<Effect, Seq<char>>(
            Effect { node: None, micros: Seq::empty() },
        ),
{
}

/// A truncate sets the length of its file, and is a truncate: it exposes zeros.
/// Barriers and marks change no file and no directory.
pub proof fn law_other_ops(v: FsView, path: Seq<char>, len: u64, text: Seq<char>, block: int)
    requires
        found(v, path) is Some,
    ensures
        v[found(v, path)->0 as int] is File ==> effect(v, OpView::Truncate { path, len }, block)
            == Ok::<Effect, Seq<char>>(
            Effect {
                node: None,
                micros: seq![
                    MicroView::SetLen { ino: found(v, path)->0, len, keep_tail: false },
                ],
            },
        ),
        effect(v, OpView::Fsync { path }, block) == Ok::<Effect, Seq<char>>(
            Effect { node: None, micros: Seq::empty() },
        ),
        effect(v, OpView::Sync, block) == Ok::<Effect, Seq<char>>(
            Effect { node: None, micros: Seq::empty() },
        ),
        effect(v, OpView::Mark { text }, block) == Ok::<Effect, Seq<char>>(
            Effect { node: None, micros: Seq::empty() },
        ),
{
}

/// The only ops that cannot apply, and why: an op on a path that leads nowhere;
/// a write to a directory or a truncate of one; a creation or a rename whose
/// target directory is missing or is a file; and a move of a directory into
/// itself.
pub proof fn law_when_ops_cannot_apply(v: FsView, op: OpView, block: int)
    ensures
        ({
            let r = effect(v, op, block);
            let at = |path: Seq<char>| found(v, path);
            let in_dir = |path: Seq<char>|
                at(parent(path)) matches Some(d) && v[d as int] is Dir;
            &&& op matches OpView::Create { path } ==> {
                &&& r is Err <==> at(path) is None && !in_dir(path)
                &&& r matches Err(why) ==> why == "parent directory does not exist"@
            }
            &&& op matches OpView::Mkdir { path } ==> {
                &&& r is Err <==> at(path) is None && !in_dir(path)
                &&& r matches Err(why) ==> why == "parent directory does not exist"@
            }
            &&& op matches OpView::Write { path, .. } ==> {
                &&& r is Err <==> !(at(path) matches Some(f) && v[f as int] is File)
                &&& at(path) is None ==> r->Err_0 == "no such file"@
                &&& at(path) is Some && r is Err ==> r->Err_0 == "is a directory"@
            }
            &&& op matches OpView::Truncate { path, .. } ==> {
                &&& r is Err <==> !(at(path) matches Some(f) && v[f as int] is File)
                &&& at(path) is None ==> r->Err_0 == "no such file"@
                &&& at(path) is Some && r is Err ==> r->Err_0 == "is a directory"@
            }
            &&& op matches OpView::Unlink { path } ==> {
                &&& r is Err <==> at(path) is None
                &&& r is Err ==> r->Err_0 == "no such file"@
            }
            &&& op matches OpView::Rmdir { path } ==> {
                &&& r is Err <==> at(path) is None
                &&& r is Err ==> r->Err_0 == "no such file"@
            }
            &&& op matches OpView::Fsync { path } ==> {
                &&& r is Err <==> at(path) is None
                &&& r is Err ==> r->Err_0 == "no such file"@
            }
            &&& op matches OpView::Rename { from, to } ==> {
                let same = from == to || at(from) == at(to);
                let inside = to.len() > from.len() && to.take(from.len() as int) == from
                    && to[from.len() as int] == '/';
                &&& at(from) is None ==> r is Err && r->Err_0 == "no such file"@
                &&& at(from) is Some && same ==> r is Ok
                &&& at(from) is Some && !same && inside ==> r is Err && r->Err_0
                    == "cannot move a directory into itself"@
                &&& at(from) is Some && !same && !inside ==> (r is Err <==> !in_dir(to))
                &&& at(from) is Some && !same && !inside && r is Err ==> r->Err_0
                    == "target directory does not exist"@
            }
            &&& op is Sync || op is Mark ==> r is Ok
        }),
{
    match op {
        OpView::Rename { from, to } => {
            let slash = from + "/"@;
            reveal_strlit("/");
            if starts_with(to, slash) {
                assert(to[from.len() as int] == slash[from.len() as int]);
                assert(to.take(from.len() as int) =~= from);
            }
            if to.len() > from.len() && to.take(from.len() as int) == from && to[from.len() as int]
                == '/' {
                assert forall|i: int| 0 <= i < slash.len() implies to[i] == slash[i] by {
                    if i < from.len() {
                        assert(to.take(from.len() as int)[i] == to[i]);
                    }
                }
                assert(to.take(slash.len() as int) =~= slash);
            }
        },
        _ => {},
    }
}

} // verus!
