//! The tree that is shown of an image, told by what its paths lead to.

use crate::model::{
    found, fs_sound, lemma_child_in_range, lemma_unseen_mark, lemma_unseen_mono,
    lemma_walk_to_in_range, list_dir, list_entries, listed, unseen, visible, walk_to, FsView, Ino,
    Listing, NodeView,
};
use crate::names::{lemma_ordered_of, ordered};
use crate::path_laws::law_joined_paths_come_apart;
use crate::paths::{components, joined_path, lemma_components_empty};
use crate::trace::{EntryView, TreeView};
use vstd::prelude::*;

verus! {

/// Every directory holds finitely many names, none of them empty and none with a
/// slash.
pub open spec fn plain_names(fs: FsView) -> bool {
    forall|i: int| 0 <= i < fs.len() ==> plain_names_in(#[trigger] fs[i])
}

pub open spec fn plain_names_in(node: NodeView) -> bool {
    node matches NodeView::Dir(d) ==> d.dom().finite() && forall|k: Seq<char>| #[trigger]
        d.contains_key(k) ==> k.len() > 0 && !k.contains('/')
}

/// An entry shows what its path leads to.
pub open spec fn shows_right(fs: FsView, path: Seq<char>, e: EntryView) -> bool {
    found(fs, path) matches Some(i) && match fs[i as int] {
        NodeView::Dir(_) => e is Dir,
        NodeView::File { buf, len } => e == EntryView::File(visible(buf, len)),
    }
}

spec fn all_right(fs: FsView, t: TreeView) -> bool {
    forall|k: Seq<char>| #[trigger] t.contains_key(k) ==> shows_right(fs, k, t[k])
}

/// All names of a directory are listed, at some path that leads to it, and all
/// directories among them were visited.
spec fn is_whole(fs: FsView, l: Listing, i: int) -> bool {
    fs[i] matches NodeView::Dir(d) ==> exists|q: Seq<char>| #[trigger]
        found(fs, q) == Some(i as usize) && forall|k: Seq<char>| #[trigger]
            d.contains_key(k) ==> l.tree.contains_key(joined_path(q, k)) && (
            fs[d[k] as int] is Dir ==> l.seen[d[k] as int])
}

/// What was listed and visited stays so.
spec fn grows(a: Listing, b: Listing) -> bool {
    &&& a.seen.len() == b.seen.len()
    &&& forall|i: int| 0 <= i < a.seen.len() && a.seen[i] ==> b.seen[i]
    &&& forall|k: Seq<char>| #[trigger] a.tree.contains_key(k) ==> b.tree.contains_key(k)
}

proof fn lemma_whole_stays(fs: FsView, a: Listing, b: Listing, i: int)
    requires
        fs_sound(fs),
        fs.len() <= usize::MAX,
        grows(a, b),
        a.seen.len() == fs.len(),
        0 <= i < fs.len(),
        is_whole(fs, a, i),
    ensures
        is_whole(fs, b, i),
{
    if fs[i] is Dir {
        let d = fs[i]->Dir_0;
        let q = choose|q: Seq<char>| #[trigger]
            found(fs, q) == Some(i as usize) && forall|k: Seq<char>| #[trigger]
                d.contains_key(k) ==> a.tree.contains_key(joined_path(q, k)) && (
                fs[d[k] as int] is Dir ==> a.seen[d[k] as int]);
        assert(found(fs, q) == Some(i as usize));
        assert forall|k: Seq<char>| #[trigger] d.contains_key(k) implies b.tree.contains_key(
            joined_path(q, k),
        ) && (fs[d[k] as int] is Dir ==> b.seen[d[k] as int]) by {
            lemma_child_in_range(fs, i as usize, d, k);
        }
    }
}

/// What listing a directory does.
proof fn lemma_list_dir(fs: FsView, ino: Ino, prefix: Seq<char>, l: Listing, fuel: nat)
    requires
        fs_sound(fs),
        fs.len() <= usize::MAX,
        plain_names(fs),
        ino < fs.len(),
        fs[ino as int] is Dir,
        found(fs, prefix) == Some(ino),
        l.seen.len() == fs.len(),
        all_right(fs, l.tree),
        fuel >= unseen(l.seen),
    ensures
        ({
            let r = list_dir(fs, ino, prefix, l, fuel);
            &&& grows(l, r)
            &&& all_right(fs, r.tree)
            &&& r.seen[ino as int]
            &&& forall|i: int|
                0 <= i < fs.len() && r.seen[i] && !l.seen[i] ==> #[trigger] is_whole(fs, r, i)
        }),
    decreases fuel, 0nat,
{
    let i0 = ino as int;
    if l.seen[i0] {
    } else {
        lemma_unseen_mark(l.seen, i0);
        assert(fuel > 0);
        let marked = Listing { tree: l.tree, seen: l.seen.update(i0, true) };
        let d = fs[i0]->Dir_0;
        let names = ordered(d.dom());
        assert(plain_names_in(fs[i0]));
        lemma_ordered_of(d.dom());
        assert forall|k: int| 0 <= k < names.len() implies d.contains_key(#[trigger] names[k]) by {
            assert(names.to_set().contains(names[k]));
        }
        lemma_list_entries(fs, ino, d, names, prefix, marked, (fuel - 1) as nat);
        let r = list_dir(fs, ino, prefix, l, fuel);
        assert(is_whole(fs, r, i0)) by {
            assert forall|k: Seq<char>| #[trigger] d.contains_key(k) implies r.tree.contains_key(
                joined_path(prefix, k),
            ) && (fs[d[k] as int] is Dir ==> r.seen[d[k] as int]) by {
                assert(names.to_set().contains(k));
                let a = choose|a: int| 0 <= a < names.len() && names[a] == k;
                assert(names[a] == k);
            }
            assert(found(fs, prefix) == Some(i0 as usize));
        }
        assert(grows(l, r)) by {
            assert forall|i: int| 0 <= i < l.seen.len() && l.seen[i] implies r.seen[i] by {
                assert(marked.seen[i]);
            }
            assert forall|k: Seq<char>| #[trigger] l.tree.contains_key(k) implies
                r.tree.contains_key(k) by {
                assert(marked.tree.contains_key(k));
            }
        }
        assert(marked.seen[i0]);
        assert forall|i: int| 0 <= i < fs.len() && r.seen[i] && !l.seen[i] implies
            #[trigger] is_whole(fs, r, i) by {
            if i != i0 {
                assert(!marked.seen[i]);
            }
        }
    }
}

proof fn lemma_list_entries(
    fs: FsView,
    ino: Ino,
    d: Map<Seq<char>, Ino>,
    names: Seq<Seq<char>>,
    prefix: Seq<char>,
    l: Listing,
    fuel: nat,
)
    requires
        fs_sound(fs),
        fs.len() <= usize::MAX,
        plain_names(fs),
        ino < fs.len(),
        fs[ino as int] == NodeView::Dir(d),
        found(fs, prefix) == Some(ino),
        forall|k: int| 0 <= k < names.len() ==> d.contains_key(#[trigger] names[k]),
        l.seen.len() == fs.len(),
        all_right(fs, l.tree),
        fuel >= unseen(l.seen),
    ensures
        ({
            let r = list_entries(fs, d, names, prefix, l, fuel);
            &&& grows(l, r)
            &&& all_right(fs, r.tree)
            &&& forall|k: int|
                0 <= k < names.len() ==> r.tree.contains_key(
                    joined_path(prefix, #[trigger] names[k]),
                ) && (fs[d[names[k]] as int] is Dir ==> r.seen[d[names[k]] as int])
            &&& forall|i: int|
                0 <= i < fs.len() && r.seen[i] && !l.seen[i] ==> #[trigger] is_whole(fs, r, i)
        }),
    decreases fuel, names.len() + 1,
{
    if names.len() > 0 {
        let front = names.drop_last();
        let name = names.last();
        assert forall|k: int| 0 <= k < front.len() implies d.contains_key(#[trigger] front[k]) by {
            assert(front[k] == names[k]);
        }
        lemma_list_entries(fs, ino, d, front, prefix, l, fuel);
        let m = list_entries(fs, d, front, prefix, l, fuel);
        assert(names[names.len() - 1] == name);
        lemma_child_in_range(fs, ino, d, name);
        let child = d[name];
        let path = joined_path(prefix, name);
        assert(plain_names_in(fs[ino as int]));
        law_joined_paths_come_apart(prefix, name);
        assert(components(path).drop_last() =~= components(prefix));
        assert(found(fs, path) == Some(child));
        lemma_unseen_mono(l.seen, m.seen);
        let r = list_entries(fs, d, names, prefix, l, fuel);
        match fs[child as int] {
            NodeView::Dir(_) => {
                let more = Listing { tree: m.tree.insert(path, EntryView::Dir), seen: m.seen };
                assert(all_right(fs, more.tree));
                assert(grows(m, more));
                assert(more.tree.contains_key(path));
                lemma_list_dir(fs, child, path, more, fuel);
                assert(r.tree.contains_key(path));
            },
            NodeView::File { buf, len } => {
                assert(all_right(fs, r.tree));
                assert(r.tree.contains_key(path));
            },
        }
        assert(grows(m, r));
        assert forall|k: int| 0 <= k < names.len() implies r.tree.contains_key(
            joined_path(prefix, #[trigger] names[k]),
        ) && (fs[d[names[k]] as int] is Dir ==> r.seen[d[names[k]] as int]) by {
            if k < front.len() {
                assert(front[k] == names[k]);
                lemma_child_in_range(fs, ino, d, front[k]);
                assert(m.tree.contains_key(joined_path(prefix, front[k])));
            } else {
                assert(names[k] == name);
            }
        }
        assert forall|i: int| 0 <= i < fs.len() && r.seen[i] && !l.seen[i] implies
            #[trigger] is_whole(fs, r, i) by {
            if m.seen[i] {
                assert(is_whole(fs, m, i));
                lemma_whole_stays(fs, m, r, i);
            }
        }
    }
}

/// What is shown is there: each path of the tree leads to something, a directory
/// where the tree shows one, and where it shows a file, one that has that content.
pub proof fn law_what_is_shown_is_there(fs: FsView, path: Seq<char>)
    requires
        fs_sound(fs),
        fs.len() <= usize::MAX,
        plain_names(fs),
        fs[0] is Dir,
        listed(fs).contains_key(path),
    ensures
        found(fs, path) is Some,
        ({
            let i = found(fs, path)->0 as int;
            &&& listed(fs)[path] is Dir <==> fs[i] is Dir
            &&& listed(fs)[path] matches EntryView::File(data) ==> data == visible(
                fs[i]->buf,
                fs[i]->len,
            )
        }),
{
    lemma_listed(fs);
}

proof fn lemma_listed(fs: FsView)
    requires
        fs_sound(fs),
        fs.len() <= usize::MAX,
        plain_names(fs),
        fs[0] is Dir,
    ensures
        ({
            let l = Listing { tree: TreeView::empty(), seen: Seq::new(fs.len(), |i: int| false) };
            let r = list_dir(fs, 0, Seq::empty(), l, fs.len());
            &&& r.tree == listed(fs)
            &&& r.seen.len() == fs.len()
            &&& all_right(fs, r.tree)
            &&& r.seen[0]
            &&& forall|i: int| 0 <= i < fs.len() && r.seen[i] ==> #[trigger] is_whole(fs, r, i)
        }),
{
    let seen = Seq::new(fs.len(), |i: int| false);
    let l = Listing { tree: TreeView::empty(), seen };
    let root = Seq::<char>::empty();
    lemma_components_empty(root);
    lemma_unseen_mono(seen, seen);
    lemma_list_dir(fs, 0, root, l, fs.len());
}

/// What is there is shown: whatever a path leads to, some path of the tree leads
/// to it. A directory that several paths lead to is shown in full at one of them.
pub proof fn law_what_is_there_is_shown(fs: FsView, path: Seq<char>)
    requires
        fs_sound(fs),
        fs.len() <= usize::MAX,
        plain_names(fs),
        fs[0] is Dir,
        found(fs, path) is Some,
        components(path).len() > 0,
    ensures
        exists|k: Seq<char>| #[trigger]
            listed(fs).contains_key(k) && found(fs, k) == found(fs, path),
{
    lemma_listed(fs);
    let l = Listing { tree: TreeView::empty(), seen: Seq::new(fs.len(), |i: int| false) };
    let r = list_dir(fs, 0, Seq::empty(), l, fs.len());
    let names = components(path);
    let dir = walk_to(fs, names.drop_last())->0;
    lemma_reached(fs, r, names.drop_last());
    lemma_walk_to_in_range(fs, names.drop_last());
    assert(is_whole(fs, r, dir as int));
    let d = fs[dir as int]->Dir_0;
    let q = choose|q: Seq<char>| #[trigger]
        found(fs, q) == Some(dir as int as usize) && forall|k: Seq<char>| #[trigger]
            d.contains_key(k) ==> r.tree.contains_key(joined_path(q, k)) && (
            fs[d[k] as int] is Dir ==> r.seen[d[k] as int]);
    let name = names.last();
    assert(d.contains_key(name));
    assert(plain_names_in(fs[dir as int]));
    let k = joined_path(q, name);
    law_joined_paths_come_apart(q, name);
    assert(components(k).drop_last() =~= components(q));
    assert(listed(fs).contains_key(k));
}

/// Every directory that names lead to was visited.
proof fn lemma_reached(fs: FsView, r: Listing, names: Seq<Seq<char>>)
    requires
        fs_sound(fs),
        fs.len() <= usize::MAX,
        r.seen.len() == fs.len(),
        r.seen[0],
        fs[0] is Dir,
        forall|i: int| 0 <= i < fs.len() && r.seen[i] ==> #[trigger] is_whole(fs, r, i),
        walk_to(fs, names) matches Some(i) && fs[i as int] is Dir,
    ensures
        r.seen[walk_to(fs, names)->0 as int],
    decreases names.len(),
{
    if names.len() > 0 {
        let front = names.drop_last();
        lemma_reached(fs, r, front);
        lemma_walk_to_in_range(fs, front);
        let dir = walk_to(fs, front)->0;
        assert(is_whole(fs, r, dir as int));
        assert(fs[dir as int]->Dir_0.contains_key(names.last()));
    }
}

} // verus!
