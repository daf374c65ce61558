//! What goes into an image of a file system comes out again.

use crate::crash::{survived, tree_of};
use crate::laws::{
    changes, law_compiled_sound, law_full_persistence_is_replay, law_image_sound,
    lemma_loaded_sound, partial_fits, snapshot_fits, tree_fits,
};
use crate::model::{
    applied, found, fs_sound, image, leads_to, lemma_applied_sound, lemma_child_in_range,
    lemma_pushed_sound, lemma_unseen_mark, lemma_unseen_mono, lemma_walk_to_in_range, linked,
    list_dir, list_entries, listed, loadable, loaded, micro_sound, node_of, unlinked, unseen,
    visible, walk_to, FsView, Ino, Listing, MicroView, NodeView, Profile,
};
use crate::names::{
    ascending, lemma_ordered_of, lemma_precedes_asymmetric, lemma_precedes_irreflexive,
    lemma_prefix_precedes, ordered,
};
use crate::paths::{
    components, file_name, joined_path, last_slash, lemma_components_empty,
    lemma_components_parent, lemma_last_slash, parent,
};
use crate::program::{
    applied_all, block_of, compilable, compiled_upto, effect, lemma_applied_all_sound,
    lemma_effect_sound, micro_op_sound, so_far, with_node, NEVER, ProgramView,
};
use crate::text::starts_with;
use crate::trace::{op_fits, EntryView, TraceView, TreeView};
use vstd::prelude::*;

verus! {

/// A snapshot as a directory gives it: every path is a name, or a name inside a
/// directory of the snapshot.
pub open spec fn canonical(t: TreeView) -> bool {
    forall|k: Seq<char>| #[trigger] t.contains_key(k) ==> canonical_at(t, k)
}

pub open spec fn canonical_at(t: TreeView, k: Seq<char>) -> bool {
    &&& k.len() > 0
    &&& k[0] != '/'
    &&& file_name(k).len() > 0
    &&& parent(k).len() == 0 || (t.contains_key(parent(k)) && t[parent(k)] is Dir)
}

/// The paths of a snapshot, in order.
spec fn lists_keys(t: TreeView, keys: Seq<Seq<char>>) -> bool {
    &&& canonical(t)
    &&& tree_fits(t)
    &&& ascending(keys)
    &&& keys.len() < usize::MAX
    &&& forall|k: Seq<char>| #[trigger] t.contains_key(k) == keys.contains(k)
}

proof fn lemma_key_at(t: TreeView, keys: Seq<Seq<char>>, i: int)
    requires
        lists_keys(t, keys),
        0 <= i < keys.len(),
    ensures
        t.contains_key(keys[i]),
        canonical_at(t, keys[i]),
{
    assert(keys.contains(keys[i]));
    assert(t.contains_key(keys[i]));
}

proof fn lemma_keys_differ(keys: Seq<Seq<char>>, i: int, j: int)
    requires
        ascending(keys),
        0 <= i < keys.len(),
        0 <= j < keys.len(),
        keys[i] == keys[j],
    ensures
        i == j,
{
    if i < j {
        lemma_precedes_asymmetric(keys[i], keys[j]);
    } else if j < i {
        lemma_precedes_asymmetric(keys[j], keys[i]);
    }
}

/// Where a path of a snapshot is cut.
proof fn lemma_key_parts(t: TreeView, k: Seq<char>)
    requires
        canonical_at(t, k),
    ensures
        last_slash(k) == (if parent(k).len() == 0 { -1 } else { parent(k).len() as int }),
        k == joined_path(parent(k), file_name(k)),
        parent(k).len() < k.len(),
        parent(k).len() > 0 ==> k[parent(k).len() as int] == '/',
        k.take(parent(k).len() as int) == parent(k),
        forall|i: int| last_slash(k) < i < k.len() ==> k[i] != '/',
{
    lemma_last_slash(k);
    let s = last_slash(k);
    if s >= 0 {
        assert(s != 0);
        assert(k =~= parent(k) + seq!['/'] + file_name(k));
    } else {
        assert(k =~= file_name(k));
    }
    assert(k.take(parent(k).len() as int) =~= parent(k));
}

/// A directory comes before what is in it.
proof fn lemma_parent_before(t: TreeView, keys: Seq<Seq<char>>, i: int) -> (m: int)
    requires
        lists_keys(t, keys),
        0 <= i < keys.len(),
        parent(keys[i]).len() > 0,
    ensures
        0 <= m < i,
        keys[m] == parent(keys[i]),
        t[keys[m]] is Dir,
{
    let k = keys[i];
    lemma_key_at(t, keys, i);
    lemma_key_parts(t, k);
    let m = choose|m: int| 0 <= m < keys.len() && keys[m] == parent(k);
    assert(keys.contains(parent(k)));
    lemma_prefix_precedes(parent(k), k);
    if m > i {
        lemma_precedes_asymmetric(keys[i], keys[m]);
    } else if m == i {
        lemma_precedes_irreflexive(k);
    }
    m
}

/// A node is the directory at `p`: it holds the first `n` keys that are in it.
spec fn holds_children(node: NodeView, keys: Seq<Seq<char>>, n: int, p: Seq<char>) -> bool {
    &&& node is Dir
    &&& (node->Dir_0).dom().finite()
    &&& forall|name: Seq<char>| #[trigger]
        (node->Dir_0).contains_key(name) ==> exists|j: int|
            0 <= j < n && parent(#[trigger] keys[j]) == p && file_name(keys[j]) == name
    &&& forall|j: int|
        0 <= j < n && parent(#[trigger] keys[j]) == p ==> (node->Dir_0).contains_key(
            file_name(keys[j]),
        ) && (node->Dir_0)[file_name(keys[j])] == j + 1
}

/// A node is what stands at a key.
spec fn node_is(node: NodeView, t: TreeView, keys: Seq<Seq<char>>, n: int, i: int) -> bool {
    match t[keys[i]] {
        EntryView::File(data) => node == NodeView::File { buf: data, len: data.len() as u64 },
        EntryView::Dir => holds_children(node, keys, n, keys[i]),
    }
}

/// An image holds the first `n` keys of a snapshot, and maybe inodes behind that
/// nothing names.
spec fn represents(fs: FsView, t: TreeView, keys: Seq<Seq<char>>, n: int) -> bool {
    &&& fs.len() > n
    &&& holds_children(fs[0], keys, n, Seq::empty())
    &&& forall|i: int| 0 <= i < n ==> node_is(#[trigger] fs[i + 1], t, keys, n, i)
}

proof fn lemma_node_is(fs: FsView, t: TreeView, keys: Seq<Seq<char>>, n: int, i: int)
    requires
        represents(fs, t, keys, n),
        0 <= i < n,
    ensures
        node_is(fs[i + 1], t, keys, n, i),
{
    let _ = fs[i + 1];
}

proof fn lemma_found(fs: FsView, t: TreeView, keys: Seq<Seq<char>>, n: int, i: int)
    requires
        lists_keys(t, keys),
        0 <= i < n <= keys.len(),
        represents(fs, t, keys, n),
    ensures
        found(fs, keys[i]) == Some((i + 1) as usize),
    decreases i,
{
    let k = keys[i];
    lemma_key_at(t, keys, i);
    lemma_key_parts(t, k);
    lemma_components_parent(k);
    let up = components(parent(k));
    let c = components(k);
    assert(c == up.push(file_name(k)));
    assert(c.drop_last() =~= up);
    assert(c.last() == file_name(k));
    if parent(k).len() == 0 {
        lemma_components_empty(parent(k));
        assert(parent(k) =~= Seq::<char>::empty());
        assert(walk_to(fs, up) == Some(0usize));
    } else {
        let m = lemma_parent_before(t, keys, i);
        lemma_found(fs, t, keys, n, m);
        lemma_node_is(fs, t, keys, n, m);
        assert(walk_to(fs, up) == Some((m + 1) as usize));
    }
}

/// The directory that a key is in, in an image that holds the keys before it.
proof fn lemma_parent_ino(fs: FsView, t: TreeView, keys: Seq<Seq<char>>, n: int) -> (q: usize)
    requires
        lists_keys(t, keys),
        0 <= n < keys.len(),
        represents(fs, t, keys, n),
    ensures
        q <= n,
        found(fs, parent(keys[n])) == Some(q),
        q == 0 ==> parent(keys[n]).len() == 0,
        q > 0 ==> keys[q - 1] == parent(keys[n]) && t[keys[q - 1]] is Dir,
        holds_children(fs[q as int], keys, n, parent(keys[n])),
{
    let k = keys[n];
    if parent(k).len() == 0 {
        lemma_components_empty(parent(k));
        assert(parent(k) =~= Seq::<char>::empty());
        0usize
    } else {
        let m = lemma_parent_before(t, keys, n);
        lemma_found(fs, t, keys, n, m);
        lemma_node_is(fs, t, keys, n, m);
        (m + 1) as usize
    }
}

proof fn lemma_more_children(
    node: NodeView,
    t: TreeView,
    keys: Seq<Seq<char>>,
    n: int,
    p: Seq<char>,
)
    requires
        0 <= n < keys.len(),
        holds_children(node, keys, n, p),
        parent(keys[n]) != p,
    ensures
        holds_children(node, keys, n + 1, p),
{
    assert forall|name: Seq<char>| #[trigger] (node->Dir_0).contains_key(name) implies exists|
        j: int,
    | 0 <= j < n + 1 && parent(#[trigger] keys[j]) == p && file_name(keys[j]) == name by {
        let j = choose|j: int|
            0 <= j < n && parent(#[trigger] keys[j]) == p && file_name(keys[j]) == name;
        assert(parent(keys[j]) == p);
    }
}

proof fn lemma_one_more_child(
    node: NodeView,
    t: TreeView,
    keys: Seq<Seq<char>>,
    n: int,
    p: Seq<char>,
)
    requires
        lists_keys(t, keys),
        0 <= n < keys.len(),
        holds_children(node, keys, n, p),
        parent(keys[n]) == p,
    ensures
        holds_children(
            NodeView::Dir((node->Dir_0).insert(file_name(keys[n]), (n + 1) as usize)),
            keys,
            n + 1,
            p,
        ),
{
    let d = (node->Dir_0).insert(file_name(keys[n]), (n + 1) as usize);
    assert forall|name: Seq<char>| #[trigger] d.contains_key(name) implies exists|j: int|
        0 <= j < n + 1 && parent(#[trigger] keys[j]) == p && file_name(keys[j]) == name by {
        if name == file_name(keys[n]) {
            assert(parent(keys[n]) == p);
        } else {
            assert((node->Dir_0).contains_key(name));
            let j = choose|j: int|
                0 <= j < n && parent(#[trigger] keys[j]) == p && file_name(keys[j]) == name;
            assert(parent(keys[j]) == p);
        }
    }
    assert forall|j: int| 0 <= j < n + 1 && parent(#[trigger] keys[j]) == p implies d.contains_key(
        file_name(keys[j]),
    ) && d[file_name(keys[j])] == j + 1 by {
        if j < n && file_name(keys[j]) == file_name(keys[n]) {
            lemma_key_at(t, keys, j);
            lemma_key_at(t, keys, n);
            lemma_key_parts(t, keys[j]);
            lemma_key_parts(t, keys[n]);
            lemma_keys_differ(keys, j, n);
        }
    }
}

/// The image of the first keys of a snapshot holds them.
proof fn lemma_loaded_represents(t: TreeView, keys: Seq<Seq<char>>, n: int)
    requires
        lists_keys(t, keys),
        0 <= n <= keys.len(),
    ensures
        loaded(keys, t, n) is Some,
        represents(loaded(keys, t, n)->0, t, keys, n),
        loaded(keys, t, n)->0.len() == n + 1,
    decreases n,
{
    if n == 0 {
        assert(holds_children(
            NodeView::Dir(Map::<Seq<char>, Ino>::empty()),
            keys,
            0,
            Seq::empty(),
        ));
    } else {
        lemma_loaded_represents(t, keys, n - 1);
        let fs = loaded(keys, t, n - 1)->0;
        let k = keys[n - 1];
        lemma_key_at(t, keys, n - 1);
        lemma_key_parts(t, k);
        let q = lemma_parent_ino(fs, t, keys, n - 1);
        let wide = fs.push(node_of(t[k]));
        let d = fs[q as int]->Dir_0;
        let after = linked(wide, q, file_name(k), fs.len() as usize);
        assert(wide[q as int] == fs[q as int]);
        assert(after == wide.update(
            q as int,
            NodeView::Dir(d.insert(file_name(k), n as usize)),
        ));
        lemma_one_more_child(fs[q as int], t, keys, n - 1, parent(k));
        assert(holds_children(after[q as int], keys, n, parent(k)));
        if q != 0 {
            assert(parent(k).len() > 0) by {
                lemma_key_at(t, keys, q - 1);
            }
            lemma_more_children(fs[0], t, keys, n - 1, Seq::empty());
        } else {
            assert(parent(k) =~= Seq::<char>::empty());
        }
        assert forall|i: int| 0 <= i < n implies node_is(
            #[trigger] after[i + 1],
            t,
            keys,
            n,
            i,
        ) by {
            if i == n - 1 {
                assert(after[i + 1] == node_of(t[k]));
                if t[k] is Dir {
                    lemma_no_child_before(t, keys, n - 1);
                }
            } else {
                lemma_node_is(fs, t, keys, n - 1, i);
                if i + 1 != q {
                    assert(after[i + 1] == fs[i + 1]);
                    if t[keys[i]] is Dir {
                        if keys[i] == parent(k) {
                            if q == 0 {
                                lemma_key_at(t, keys, i);
                            } else {
                                lemma_keys_differ(keys, i, q - 1);
                            }
                        }
                        lemma_more_children(fs[i + 1], t, keys, n - 1, keys[i]);
                    }
                }
            }
        }
    }
}

/// Nothing that comes before a key is in it.
proof fn lemma_no_child_before(t: TreeView, keys: Seq<Seq<char>>, n: int)
    requires
        lists_keys(t, keys),
        0 <= n < keys.len(),
    ensures
        forall|j: int| 0 <= j <= n ==> parent(#[trigger] keys[j]) != keys[n],
{
    assert forall|j: int| 0 <= j <= n implies parent(#[trigger] keys[j]) != keys[n] by {
        if parent(keys[j]) == keys[n] {
            lemma_key_at(t, keys, n);
            let m = lemma_parent_before(t, keys, j);
            lemma_keys_differ(keys, m, n);
        }
    }
}

/// At `c` or below it.
spec fn below(k: Seq<char>, c: Seq<char>) -> bool {
    k == c || strictly_below(k, c)
}

/// Below `p`, where the empty path is the root.
spec fn strictly_below(k: Seq<char>, p: Seq<char>) -> bool {
    p.len() == 0 || starts_with(k, p + seq!['/'])
}

proof fn lemma_prefix_chars(k: Seq<char>, p: Seq<char>)
    requires
        p.len() > 0,
        starts_with(k, p + seq!['/']),
    ensures
        k.len() > p.len(),
        k[p.len() as int] == '/',
        k.take(p.len() as int) == p,
        forall|i: int| 0 <= i < p.len() ==> k[i] == p[i],
{
    let q = p + seq!['/'];
    assert(k.take(q.len() as int) == q);
    assert forall|i: int| 0 <= i < q.len() implies k[i] == q[i] by {
        assert(k.take(q.len() as int)[i] == k[i]);
    }
    assert(k[p.len() as int] == q[p.len() as int]);
    assert forall|i: int| 0 <= i < p.len() implies k[i] == p[i] by {
        assert(k[i] == q[i]);
    }
    assert(k.take(p.len() as int) =~= p);
}

proof fn lemma_prefix_from_chars(k: Seq<char>, p: Seq<char>)
    requires
        k.len() > p.len(),
        k[p.len() as int] == '/',
        forall|i: int| 0 <= i < p.len() ==> k[i] == p[i],
    ensures
        starts_with(k, p + seq!['/']),
{
    let q = p + seq!['/'];
    assert(k.take(q.len() as int) =~= q);
}

/// A key strictly below `p` is in `p`, or its directory is strictly below `p`.
proof fn lemma_up_one(t: TreeView, k: Seq<char>, p: Seq<char>)
    requires
        canonical_at(t, k),
        strictly_below(k, p),
    ensures
        parent(k) == p || (parent(k).len() > 0 && strictly_below(parent(k), p)),
{
    lemma_key_parts(t, k);
    let q = parent(k);
    if p.len() > 0 {
        lemma_prefix_chars(k, p);
        if q.len() == 0 {
            assert(k[p.len() as int] != '/');
        }
        assert(p.len() <= q.len()) by {
            if p.len() > q.len() {
                assert(k[p.len() as int] != '/');
            }
        }
        assert forall|i: int| 0 <= i < q.len() implies k[i] == q[i] by {
            assert(k.take(q.len() as int)[i] == k[i]);
        }
        if p.len() == q.len() {
            assert(p =~= q);
        } else {
            lemma_prefix_from_chars(q, p);
        }
    } else if q.len() == 0 {
        assert(p =~= q);
    }
}

/// What is in a directory at or below `c` is strictly below `c`.
proof fn lemma_down_one(t: TreeView, k: Seq<char>, c: Seq<char>)
    requires
        canonical_at(t, k),
        c.len() > 0,
        parent(k).len() > 0,
        below(parent(k), c),
    ensures
        starts_with(k, c + seq!['/']),
{
    lemma_key_parts(t, k);
    let q = parent(k);
    assert forall|i: int| 0 <= i < q.len() implies k[i] == q[i] by {
        assert(k.take(q.len() as int)[i] == k[i]);
    }
    if q != c {
        lemma_prefix_chars(q, c);
    }
    lemma_prefix_from_chars(k, c);
}

/// What is strictly below a path of the snapshot is so because that path is a
/// directory.
proof fn lemma_only_dirs_hold(t: TreeView, k: Seq<char>, c: Seq<char>)
    requires
        canonical(t),
        t.contains_key(k),
        c.len() > 0,
        strictly_below(k, c),
    ensures
        t.contains_key(c),
        t[c] is Dir,
    decreases k.len(),
{
    assert(canonical_at(t, k));
    lemma_key_parts(t, k);
    lemma_up_one(t, k, c);
    if parent(k) != c {
        lemma_only_dirs_hold(t, parent(k), c);
    }
}

/// A key strictly below `p` is at or below something that is in `p`.
proof fn lemma_child_above(t: TreeView, k: Seq<char>, p: Seq<char>) -> (c: Seq<char>)
    requires
        canonical(t),
        t.contains_key(k),
        strictly_below(k, p),
    ensures
        t.contains_key(c),
        parent(c) == p,
        below(k, c),
    decreases k.len(),
{
    assert(canonical_at(t, k));
    lemma_key_parts(t, k);
    lemma_up_one(t, k, p);
    if parent(k) == p {
        k
    } else {
        let c = lemma_child_above(t, parent(k), p);
        assert(canonical_at(t, c));
        lemma_down_one(t, k, c);
        c
    }
}

/// A key is at or below at most one thing that is in `p`.
proof fn lemma_one_child_above(
    t: TreeView,
    k: Seq<char>,
    p: Seq<char>,
    a: Seq<char>,
    b: Seq<char>,
)
    requires
        canonical(t),
        t.contains_key(a),
        t.contains_key(b),
        parent(a) == p,
        parent(b) == p,
        below(k, a),
        below(k, b),
    ensures
        a == b,
{
    assert(canonical_at(t, a));
    assert(canonical_at(t, b));
    lemma_key_parts(t, a);
    lemma_key_parts(t, b);
    if k != a {
        lemma_prefix_chars(k, a);
    }
    if k != b {
        lemma_prefix_chars(k, b);
    }
    if a.len() < b.len() {
        assert(k != a);
        assert(k[a.len() as int] == b[a.len() as int]);
        assert(b[a.len() as int] != '/');
    } else if b.len() < a.len() {
        assert(k != b);
        assert(k[b.len() as int] == a[b.len() as int]);
        assert(a[b.len() as int] != '/');
    } else {
        assert(a =~= k.take(a.len() as int));
        assert(b =~= k.take(b.len() as int));
    }
}

/// `r` is `l` with the keys that are `inside` added, and with their directories,
/// and the inode `own`, marked.
spec fn adds(
    t: TreeView,
    keys: Seq<Seq<char>>,
    l: Listing,
    r: Listing,
    inside: spec_fn(Seq<char>) -> bool,
    own: int,
) -> bool {
    &&& r.seen.len() == l.seen.len()
    &&& forall|k: Seq<char>| #[trigger]
        r.tree.contains_key(k) <==> l.tree.contains_key(k) || (t.contains_key(k) && inside(k))
    &&& forall|k: Seq<char>| #[trigger]
        r.tree.contains_key(k) ==> r.tree[k] == (if t.contains_key(k) && inside(k) {
            t[k]
        } else {
            l.tree[k]
        })
    &&& forall|i: int|
        0 <= i < l.seen.len() ==> (#[trigger] r.seen[i] <==> l.seen[i] || i == own || (1 <= i
            <= keys.len() && t[keys[i - 1]] is Dir && inside(keys[i - 1])))
}

/// `ino` is the directory at `p`.
spec fn dir_ino(t: TreeView, keys: Seq<Seq<char>>, p: Seq<char>, ino: int) -> bool {
    ||| p.len() == 0 && ino == 0
    ||| 1 <= ino <= keys.len() && keys[ino - 1] == p && t[p] is Dir
}

/// No directory strictly below `p` was listed yet.
spec fn fresh_below(t: TreeView, keys: Seq<Seq<char>>, l: Listing, p: Seq<char>) -> bool {
    forall|j: int|
        0 <= j < keys.len() && t[#[trigger] keys[j]] is Dir && strictly_below(keys[j], p)
            ==> !l.seen[j + 1]
}

proof fn lemma_list_dir(
    fs: FsView,
    t: TreeView,
    keys: Seq<Seq<char>>,
    p: Seq<char>,
    ino: usize,
    l: Listing,
    fuel: nat,
)
    requires
        lists_keys(t, keys),
        represents(fs, t, keys, keys.len() as int),
        dir_ino(t, keys, p, ino as int),
        l.seen.len() == fs.len(),
        !l.seen[ino as int],
        fresh_below(t, keys, l, p),
        fuel + ino >= fs.len(),
    ensures
        adds(
            t,
            keys,
            l,
            list_dir(fs, ino, p, l, fuel),
            |k: Seq<char>| strictly_below(k, p),
            ino as int,
        ),
    decreases fuel, 0nat,
{
    let n = keys.len() as int;
    if ino > 0 {
        lemma_node_is(fs, t, keys, n, ino - 1);
    } else {
        assert(p =~= Seq::<char>::empty());
    }
    let node = fs[ino as int];
    assert(holds_children(node, keys, n, p));
    let d = node->Dir_0;
    let names = ordered(d.dom());
    lemma_ordered_of(d.dom());
    let marked = Listing { tree: l.tree, seen: l.seen.update(ino as int, true) };
    assert(fuel > 0);
    assert forall|j: int| 0 <= j < keys.len() && t[#[trigger] keys[j]] is Dir && strictly_below(
        keys[j],
        p,
    ) implies !marked.seen[j + 1] by {
        if j + 1 == ino {
            lemma_key_at(t, keys, j);
            lemma_prefix_chars(keys[j], p);
        }
    }
    assert(names.take(names.len() as int) =~= names);
    lemma_list_entries(
        fs,
        t,
        keys,
        p,
        ino,
        d,
        names,
        names.len() as int,
        marked,
        (fuel - 1) as nat,
    );
    let r = list_dir(fs, ino, p, l, fuel);
    let inside = |k: Seq<char>| strictly_below(k, p);
    let among = |k: Seq<char>| below_some(k, p, names, names.len() as int);
    assert forall|k: Seq<char>| #[trigger] t.contains_key(k) implies among(k) == inside(k) by {
        lemma_below_some(t, keys, p, ino, d, names, k);
    }
    assert forall|i: int| 0 <= i < l.seen.len() implies (#[trigger] r.seen[i] <==> l.seen[i] || i
        == ino || (1 <= i <= keys.len() && t[keys[i - 1]] is Dir && inside(keys[i - 1]))) by {
        if 1 <= i <= keys.len() {
            lemma_key_at(t, keys, i - 1);
            assert(among(keys[i - 1]) == inside(keys[i - 1]));
        }
    }
    assert forall|k: Seq<char>| #[trigger] r.tree.contains_key(k) <==> l.tree.contains_key(k) || (
    t.contains_key(k) && inside(k)) by {
        if t.contains_key(k) {
            assert(among(k) == inside(k));
        }
    }
    assert forall|k: Seq<char>| #[trigger] r.tree.contains_key(k) implies r.tree[k] == (
    if t.contains_key(k) && inside(k) {
        t[k]
    } else {
        l.tree[k]
    }) by {
        if t.contains_key(k) {
            assert(among(k) == inside(k));
        }
    }
}

/// At or below one of the first `m` names in `p`.
spec fn below_some(k: Seq<char>, p: Seq<char>, names: Seq<Seq<char>>, m: int) -> bool {
    exists|i: int| 0 <= i < m && below(k, joined_path(p, #[trigger] names[i]))
}

/// The names of a directory are its children.
proof fn lemma_name_is_child(
    fs: FsView,
    t: TreeView,
    keys: Seq<Seq<char>>,
    p: Seq<char>,
    d: Map<Seq<char>, Ino>,
    names: Seq<Seq<char>>,
    i: int,
) -> (j: int)
    requires
        lists_keys(t, keys),
        holds_children(NodeView::Dir(d), keys, keys.len() as int, p),
        names.to_set() == d.dom(),
        0 <= i < names.len(),
    ensures
        0 <= j < keys.len(),
        parent(keys[j]) == p,
        file_name(keys[j]) == names[i],
        keys[j] == joined_path(p, names[i]),
        d[names[i]] == j + 1,
{
    assert(names.to_set().contains(names[i]));
    assert(d.contains_key(names[i]));
    let j = choose|j: int|
        0 <= j < keys.len() && parent(#[trigger] keys[j]) == p && file_name(keys[j]) == names[i];
    lemma_key_at(t, keys, j);
    lemma_key_parts(t, keys[j]);
    j
}

proof fn lemma_below_some(
    t: TreeView,
    keys: Seq<Seq<char>>,
    p: Seq<char>,
    ino: usize,
    d: Map<Seq<char>, Ino>,
    names: Seq<Seq<char>>,
    k: Seq<char>,
)
    requires
        lists_keys(t, keys),
        dir_ino(t, keys, p, ino as int),
        holds_children(NodeView::Dir(d), keys, keys.len() as int, p),
        names.to_set() == d.dom(),
        t.contains_key(k),
    ensures
        below_some(k, p, names, names.len() as int) == strictly_below(k, p),
{
    if strictly_below(k, p) {
        let c = lemma_child_above(t, k, p);
        let j = choose|j: int| 0 <= j < keys.len() && keys[j] == c;
        assert(keys.contains(c));
        assert(parent(keys[j]) == p);
        assert(d.contains_key(file_name(c)));
        assert(names.to_set().contains(file_name(c)));
        let i = choose|i: int| 0 <= i < names.len() && names[i] == file_name(c);
        assert(names.contains(file_name(c)));
        lemma_key_at(t, keys, j);
        lemma_key_parts(t, c);
        assert(below(k, joined_path(p, names[i])));
    }
    if below_some(k, p, names, names.len() as int) && p.len() > 0 {
        let i = choose|i: int|
            0 <= i < names.len() && below(k, joined_path(p, #[trigger] names[i]));
        let c = joined_path(p, names[i]);
        assert(c == p + seq!['/'] + names[i]);
        if k != c {
            assert(c.len() > 0);
            lemma_prefix_chars(k, c);
        }
        assert(k.len() > p.len());
        assert(c[p.len() as int] == '/');
        assert forall|x: int| 0 <= x < p.len() implies k[x] == p[x] by {
            assert(c[x] == p[x]);
        }
        lemma_prefix_from_chars(k, p);
    }
}

proof fn lemma_list_entries(
    fs: FsView,
    t: TreeView,
    keys: Seq<Seq<char>>,
    p: Seq<char>,
    ino: usize,
    d: Map<Seq<char>, Ino>,
    names: Seq<Seq<char>>,
    m: int,
    l: Listing,
    fuel: nat,
)
    requires
        lists_keys(t, keys),
        represents(fs, t, keys, keys.len() as int),
        dir_ino(t, keys, p, ino as int),
        holds_children(NodeView::Dir(d), keys, keys.len() as int, p),
        ascending(names),
        names.to_set() == d.dom(),
        0 <= m <= names.len(),
        l.seen.len() == fs.len(),
        fresh_below(t, keys, l, p),
        fuel + ino + 1 >= fs.len(),
    ensures
        adds(
            t,
            keys,
            l,
            list_entries(fs, d, names.take(m), p, l, fuel),
            |k: Seq<char>| below_some(k, p, names, m),
            -1,
        ),
    decreases fuel, m + 1,
{
    let n = keys.len() as int;
    let inside = |k: Seq<char>| below_some(k, p, names, m);
    if m == 0 {
        assert(names.take(0) =~= Seq::<Seq<char>>::empty());
    } else {
        lemma_list_entries(fs, t, keys, p, ino, d, names, m - 1, l, fuel);
        let before = |k: Seq<char>| below_some(k, p, names, m - 1);
        let r = list_entries(fs, d, names.take(m - 1), p, l, fuel);
        assert(names.take(m).drop_last() =~= names.take(m - 1));
        assert(names.take(m).last() == names[m - 1]);
        let j = lemma_name_is_child(fs, t, keys, p, d, names, m - 1);
        let c = keys[j];
        lemma_key_at(t, keys, j);
        lemma_key_parts(t, c);
        lemma_node_is(fs, t, keys, n, j);
        // What is at or below this name is not at or below an earlier one.
        assert forall|k: Seq<char>| below(k, c) implies !#[trigger] before(k) by {
            if before(k) {
                let i = choose|i: int|
                    0 <= i < m - 1 && below(k, joined_path(p, #[trigger] names[i]));
                let h = lemma_name_is_child(fs, t, keys, p, d, names, i);
                lemma_key_at(t, keys, h);
                lemma_one_child_above(t, k, p, c, keys[h]);
                lemma_precedes_asymmetric(names[i], names[m - 1]);
            }
        }
        assert forall|k: Seq<char>| #[trigger] inside(k) == (before(k) || below(k, c)) by {
            if inside(k) && !below(k, c) {
                let i = choose|i: int| 0 <= i < m && below(k, joined_path(p, #[trigger] names[i]));
                assert(0 <= i < m - 1 && below(k, joined_path(p, names[i])));
            }
            if before(k) {
                let i = choose|i: int|
                    0 <= i < m - 1 && below(k, joined_path(p, #[trigger] names[i]));
                assert(0 <= i < m && below(k, joined_path(p, names[i])));
            }
            if below(k, c) {
                assert(below(k, joined_path(p, names[m - 1])));
            }
        }
        let all = list_entries(fs, d, names.take(m), p, l, fuel);
        match t[c] {
            EntryView::File(data) => {
                assert(tree_fits(t));
                assert(visible(data, data.len() as u64) =~= data);
                let want = Listing { tree: r.tree.insert(c, EntryView::File(data)), seen: r.seen };
                assert(all == want);
                assert forall|k: Seq<char>| t.contains_key(k) && #[trigger] below(k, c) implies k
                    == c by {
                    if k != c {
                        lemma_only_dirs_hold(t, k, c);
                    }
                }
                assert forall|i: int| 0 <= i < l.seen.len() implies (#[trigger] all.seen[i]
                    <==> l.seen[i] || i == -1 || (1 <= i <= keys.len() && t[keys[i - 1]] is Dir
                    && inside(keys[i - 1]))) by {
                    assert(r.seen[i] == all.seen[i]);
                    if 1 <= i <= keys.len() {
                        lemma_key_at(t, keys, i - 1);
                        assert(inside(keys[i - 1]) == (before(keys[i - 1]) || below(keys[i - 1], c)));
                    }
                }
                assert forall|k: Seq<char>| #[trigger] all.tree.contains_key(k)
                    <==> l.tree.contains_key(k) || (t.contains_key(k) && inside(k)) by {
                    assert(inside(k) == (before(k) || below(k, c)));
                    assert(r.tree.contains_key(k) || k == c <==> all.tree.contains_key(k));
                }
                assert forall|k: Seq<char>| #[trigger] all.tree.contains_key(k) implies all.tree[k]
                    == (if t.contains_key(k) && inside(k) {
                    t[k]
                } else {
                    l.tree[k]
                }) by {
                    assert(inside(k) == (before(k) || below(k, c)));
                    if k != c {
                        assert(r.tree.contains_key(k));
                    }
                }
            },
            EntryView::Dir => {
                let l2 = Listing { tree: r.tree.insert(c, EntryView::Dir), seen: r.seen };
                let ino2 = d[names[m - 1]];
                assert(ino2 == j + 1);
                assert(all == list_dir(fs, ino2, c, l2, fuel));
                assert(ino2 >= ino + 1) by {
                    if ino > 0 {
                        let q = lemma_parent_before(t, keys, j);
                        lemma_keys_differ(keys, q, ino - 1);
                    }
                }
                assert(strictly_below(c, p)) by {
                    if p.len() > 0 {
                        lemma_prefix_from_chars(c, p);
                    }
                }
                assert(!l.seen[j + 1]);
                assert(below(c, c));
                assert(!before(c));
                assert(!r.seen[j + 1]);
                assert forall|x: int|
                    0 <= x < keys.len() && t[#[trigger] keys[x]] is Dir && strictly_below(
                        keys[x],
                        c,
                    ) implies !l2.seen[x + 1] by {
                    lemma_prefix_chars(keys[x], c);
                    if p.len() > 0 {
                        lemma_prefix_chars(c, p);
                        lemma_prefix_from_chars(keys[x], p);
                    }
                    assert(strictly_below(keys[x], p));
                    assert(!l.seen[x + 1]);
                    assert(below(keys[x], c));
                    assert(!before(keys[x]));
                    assert(!r.seen[x + 1]);
                }
                lemma_list_dir(fs, t, keys, c, ino2, l2, fuel);
                let deeper = |k: Seq<char>| strictly_below(k, c);
                assert(adds(t, keys, l2, all, deeper, j + 1));
                assert forall|i: int| 0 <= i < l.seen.len() implies (#[trigger] all.seen[i]
                    <==> l.seen[i] || i == -1 || (1 <= i <= keys.len() && t[keys[i - 1]] is Dir
                    && inside(keys[i - 1]))) by {
                    assert(r.seen[i] == l2.seen[i]);
                    if 1 <= i <= keys.len() {
                        lemma_key_at(t, keys, i - 1);
                        let k = keys[i - 1];
                        assert(inside(k) == (before(k) || below(k, c)));
                        assert(below(k, c) == (k == c || deeper(k)));
                        if k == c {
                            lemma_keys_differ(keys, i - 1, j);
                        }
                    }
                }
                assert forall|k: Seq<char>| #[trigger] all.tree.contains_key(k)
                    <==> l.tree.contains_key(k) || (t.contains_key(k) && inside(k)) by {
                    assert(inside(k) == (before(k) || below(k, c)));
                    assert(below(k, c) == (k == c || deeper(k)));
                    assert(l2.tree.contains_key(k) <==> r.tree.contains_key(k) || k == c);
                }
                assert forall|k: Seq<char>| #[trigger] all.tree.contains_key(k) implies all.tree[k]
                    == (if t.contains_key(k) && inside(k) {
                    t[k]
                } else {
                    l.tree[k]
                }) by {
                    assert(inside(k) == (before(k) || below(k, c)));
                    assert(below(k, c) == (k == c || deeper(k)));
                    if !deeper(k) && k != c {
                        assert(l2.tree.contains_key(k));
                        assert(r.tree.contains_key(k));
                    }
                    if k == c {
                        if deeper(c) {
                            lemma_prefix_chars(c, c);
                        }
                        assert(l2.tree.contains_key(c));
                    }
                }
            },
        }
    }
}

/// An image that holds a snapshot shows it.
proof fn lemma_represented_is_listed(fs: FsView, t: TreeView, keys: Seq<Seq<char>>)
    requires
        lists_keys(t, keys),
        represents(fs, t, keys, keys.len() as int),
    ensures
        listed(fs) == t,
{
    let l = Listing { tree: TreeView::empty(), seen: Seq::new(fs.len(), |i: int| false) };
    lemma_list_dir(fs, t, keys, Seq::empty(), 0, l, fs.len());
    let r = list_dir(fs, 0, Seq::empty(), l, fs.len());
    let inside = |k: Seq<char>| strictly_below(k, Seq::empty());
    assert forall|k: Seq<char>| r.tree.contains_key(k) == t.contains_key(k) by {
        assert(inside(k));
    }
    assert forall|k: Seq<char>| r.tree.contains_key(k) implies r.tree[k] == t[k] by {
        assert(inside(k));
    }
    assert(r.tree =~= t);
}

proof fn lemma_ordered_lists_keys(t: TreeView)
    requires
        canonical(t),
        snapshot_fits(t),
    ensures
        lists_keys(t, ordered(t.dom())),
{
    let keys = ordered(t.dom());
    lemma_ordered_of(t.dom());
    assert forall|k: Seq<char>| #[trigger] t.contains_key(k) == keys.contains(k) by {
        assert(keys.to_set().contains(k) == keys.contains(k));
    }
}

/// Every file holds as many bytes as its length says.
pub open spec fn full_files(fs: FsView) -> bool {
    forall|i: int| 0 <= i < fs.len() ==> ((#[trigger] fs[i]) matches NodeView::File { buf, len }
        ==> buf.len() == len)
}

proof fn lemma_loaded_full(keys: Seq<Seq<char>>, t: TreeView, n: int)
    requires
        0 <= n <= keys.len(),
        tree_fits(t),
        forall|i: int| 0 <= i < keys.len() ==> t.contains_key(#[trigger] keys[i]),
        loaded(keys, t, n) is Some,
        n < usize::MAX,
    ensures
        full_files(loaded(keys, t, n)->0),
    decreases n,
{
    if n > 0 {
        lemma_loaded_full(keys, t, n - 1);
        lemma_loaded_sound(keys, t, n - 1);
        let before = loaded(keys, t, n - 1)->0;
        lemma_walk_to_in_range(before, components(parent(keys[n - 1])));
        let after = loaded(keys, t, n)->0;
        assert(t.contains_key(keys[n - 1]));
        assert forall|i: int| 0 <= i < after.len() implies ((
        #[trigger] after[i]) matches NodeView::File { buf, len } ==> buf.len() == len) by {
            let dir = found(before, parent(keys[n - 1]))->0 as int;
            if i != dir && i < before.len() {
                assert(after[i] == before[i]);
            } else if i != dir {
                assert(after[i] == node_of(t[keys[n - 1]]));
            }
        }
    }
}

/// A snapshot has an image, and the image shows the snapshot: one inode for the
/// root, which is a directory, and one for each entry, each file with as many
/// bytes as its length says.
pub proof fn law_snapshot_reads_back(t: TreeView)
    requires
        canonical(t),
        snapshot_fits(t),
    ensures
        loadable(t),
        listed(image(t)->0) == t,
        image(t)->0.len() == t.dom().len() + 1,
        image(t)->0[0] is Dir,
        full_files(image(t)->0),
{
    let keys = ordered(t.dom());
    lemma_ordered_lists_keys(t);
    lemma_loaded_represents(t, keys, keys.len() as int);
    lemma_represented_is_listed(image(t)->0, t, keys);
    law_image_sound(t);
    assert forall|i: int| 0 <= i < keys.len() implies t.contains_key(#[trigger] keys[i]) by {
        assert(keys.contains(keys[i]));
    }
    lemma_loaded_full(keys, t, keys.len() as int);
}

proof fn lemma_base_represents(t: TraceView, profile: Profile, block: u64, n: int)
    requires
        canonical(t.initial),
        snapshot_fits(t.initial),
        0 <= n,
        compiled_upto(t, profile, block, n) is Ok,
    ensures
        represents(
            compiled_upto(t, profile, block, n)->Ok_0.base,
            t.initial,
            ordered(t.initial.dom()),
            ordered(t.initial.dom()).len() as int,
        ),
    decreases n,
{
    let keys = ordered(t.initial.dom());
    lemma_ordered_lists_keys(t.initial);
    if n == 0 {
        lemma_loaded_represents(t.initial, keys, keys.len() as int);
    } else {
        lemma_base_represents(t, profile, block, n - 1);
        let b = compiled_upto(t, profile, block, n - 1)->Ok_0;
        let c = compiled_upto(t, profile, block, n)->Ok_0;
        let e = effect(b.volatile, t.ops[n - 1], block_of(block))->Ok_0;
        assert(c.base == with_node(b.base, e.node));
        assert(c.base[0] == b.base[0]);
        assert forall|i: int| 0 <= i < keys.len() implies node_is(
            #[trigger] c.base[i + 1],
            t.initial,
            keys,
            keys.len() as int,
            i,
        ) by {
            assert(c.base[i + 1] == b.base[i + 1]);
            lemma_node_is(b.base, t.initial, keys, keys.len() as int, i);
        }
    }
}

proof fn lemma_nothing_survived(p: ProgramView, s: Seq<bool>, n: int)
    requires
        0 <= n <= s.len(),
        forall|j: int| 0 <= j < s.len() ==> !#[trigger] s[j],
    ensures
        survived(p, s, n) == p.base,
    decreases n,
{
    if n > 0 {
        lemma_nothing_survived(p, s, n - 1);
    }
}

/// A crash that loses everything leaves the directory as it was: in particular a
/// crash before the first op does.
pub proof fn law_losing_everything_leaves_the_snapshot(
    t: TraceView,
    profile: Profile,
    block: u64,
    s: Seq<bool>,
)
    requires
        canonical(t.initial),
        snapshot_fits(t.initial),
        compiled_upto(t, profile, block, t.ops.len() as int) is Ok,
        all_lost(s),
    ensures
        tree_of(
            so_far(compiled_upto(t, profile, block, t.ops.len() as int)->Ok_0, profile),
            s,
        ) == t.initial,
{
    let n = t.ops.len() as int;
    let p = so_far(compiled_upto(t, profile, block, n)->Ok_0, profile);
    lemma_base_represents(t, profile, block, n);
    lemma_ordered_lists_keys(t.initial);
    lemma_nothing_survived(p, s, s.len() as int);
    lemma_represented_is_listed(p.base, t.initial, ordered(t.initial.dom()));
}

/// Everything persisted.
pub open spec fn all_kept(n: nat) -> Seq<bool> {
    Seq::new(n, |j: int| true)
}

/// Nothing persisted.
pub open spec fn all_lost(s: Seq<bool>) -> bool {
    forall|j: int| 0 <= j < s.len() ==> !#[trigger] s[j]
}

/// A crash after `k` ops that loses nothing leaves what the workload saw.
pub open spec fn ends_well_at(
    t: TraceView,
    profile: Profile,
    block: u64,
    p: ProgramView,
    k: int,
) -> bool {
    &&& compiled_upto(t, profile, block, k) is Ok
    &&& tree_of(p, all_kept(p.op_end[k] as nat)) == listed(
        compiled_upto(t, profile, block, k)->Ok_0.volatile,
    )
}

/// What a compiled trace leaves on disk: the snapshot, where everything is lost;
/// and what the workload saw after `k` ops, where a crash after these loses
/// nothing.
pub open spec fn starts_and_ends_well(
    t: TraceView,
    profile: Profile,
    block: u64,
    p: ProgramView,
) -> bool {
    &&& canonical(t.initial) ==> forall|s: Seq<bool>|
        all_lost(s) ==> #[trigger] tree_of(p, s) == t.initial
    &&& forall|k: int| 0 <= k <= t.ops.len() ==> #[trigger] ends_well_at(t, profile, block, p, k)
}

/// A compiled trace starts and ends well.
pub proof fn lemma_starts_and_ends_well(t: TraceView, profile: Profile, block: u64)
    requires
        compilable(t),
        snapshot_fits(t.initial),
        t.ops.len() + 1 <= NEVER,
        compiled_upto(t, profile, block, t.ops.len() as int) is Ok,
        partial_fits(compiled_upto(t, profile, block, t.ops.len() as int)->Ok_0),
    ensures
        starts_and_ends_well(
            t,
            profile,
            block,
            so_far(compiled_upto(t, profile, block, t.ops.len() as int)->Ok_0, profile),
        ),
{
    let p = so_far(compiled_upto(t, profile, block, t.ops.len() as int)->Ok_0, profile);
    if canonical(t.initial) {
        assert forall|s: Seq<bool>| all_lost(s) implies #[trigger] tree_of(p, s) == t.initial by {
            law_losing_everything_leaves_the_snapshot(t, profile, block, s);
        }
    }
    assert forall|k: int| 0 <= k <= t.ops.len() implies #[trigger] ends_well_at(
        t,
        profile,
        block,
        p,
        k,
    ) by {
        law_losing_nothing_leaves_what_the_workload_saw(t, profile, block, k);
    }
}

/// Every directory holds finitely many names.
spec fn finite_dirs(fs: FsView) -> bool {
    forall|i: int|
        0 <= i < fs.len() && (#[trigger] fs[i]) is Dir ==> (fs[i]->Dir_0).dom().finite()
}

proof fn lemma_linked_finite(fs: FsView, dir: Ino, name: Seq<char>, ino: Ino)
    requires
        finite_dirs(fs),
        dir < fs.len(),
    ensures
        finite_dirs(linked(fs, dir, name, ino)),
{
    let after = linked(fs, dir, name, ino);
    assert forall|i: int| 0 <= i < after.len() && (#[trigger] after[i]) is Dir implies (
    after[i]->Dir_0).dom().finite() by {
        let _ = fs[i];
        if i == dir && fs[i] is Dir {
            assert((after[i]->Dir_0).dom() =~= (fs[i]->Dir_0).dom().insert(name));
        }
    }
}

proof fn lemma_unlinked_finite(fs: FsView, dir: Ino, name: Seq<char>)
    requires
        finite_dirs(fs),
        dir < fs.len(),
    ensures
        finite_dirs(unlinked(fs, dir, name)),
{
    let after = unlinked(fs, dir, name);
    assert forall|i: int| 0 <= i < after.len() && (#[trigger] after[i]) is Dir implies (
    after[i]->Dir_0).dom().finite() by {
        let _ = fs[i];
        if i == dir && fs[i] is Dir {
            assert((after[i]->Dir_0).dom() =~= (fs[i]->Dir_0).dom().remove(name));
        }
    }
}

proof fn lemma_applied_finite(fs: FsView, m: MicroView)
    requires
        finite_dirs(fs),
        micro_sound(m, fs.len()),
    ensures
        finite_dirs(applied(fs, m)),
{
    match m {
        MicroView::Link { parent, name, ino } => {
            lemma_linked_finite(fs, parent, name, ino);
        },
        MicroView::Unlink { parent, name } => {
            lemma_unlinked_finite(fs, parent, name);
        },
        MicroView::Rename { from, from_name, to, to_name, ino, .. } => {
            lemma_unlinked_finite(fs, from, from_name);
            let mid = if leads_to(fs, from, from_name, ino) {
                unlinked(fs, from, from_name)
            } else {
                fs
            };
            lemma_linked_finite(mid, to, to_name, ino);
        },
        _ => {
            let after = applied(fs, m);
            assert forall|i: int| 0 <= i < after.len() && (#[trigger] after[i]) is Dir implies (
            after[i]->Dir_0).dom().finite() by {
                let _ = fs[i];
            }
        },
    }
}

proof fn lemma_applied_all_finite(fs: FsView, micros: Seq<MicroView>)
    requires
        fs_sound(fs),
        finite_dirs(fs),
        forall|k: int| 0 <= k < micros.len() ==> micro_sound(#[trigger] micros[k], fs.len()),
    ensures
        finite_dirs(applied_all(fs, micros)),
    decreases micros.len(),
{
    if micros.len() > 0 {
        let before = micros.drop_last();
        assert forall|k: int| 0 <= k < before.len() implies micro_sound(
            #[trigger] before[k],
            fs.len(),
        ) by {
            assert(before[k] == micros[k]);
        }
        lemma_applied_all_finite(fs, before);
        lemma_applied_all_sound(fs, before);
        lemma_applied_finite(applied_all(fs, before), micros.last());
    }
}

proof fn lemma_loaded_finite(keys: Seq<Seq<char>>, t: TreeView, n: int)
    requires
        0 <= n <= keys.len(),
        tree_fits(t),
        forall|i: int| 0 <= i < keys.len() ==> t.contains_key(#[trigger] keys[i]),
        loaded(keys, t, n) is Some,
        n < usize::MAX,
    ensures
        finite_dirs(loaded(keys, t, n)->0),
    decreases n,
{
    if n > 0 {
        lemma_loaded_finite(keys, t, n - 1);
        lemma_loaded_sound(keys, t, n - 1);
        let fs = loaded(keys, t, n - 1)->0;
        let key = keys[n - 1];
        lemma_walk_to_in_range(fs, components(parent(key)));
        let wide = fs.push(node_of(t[key]));
        assert forall|i: int| 0 <= i < wide.len() && (#[trigger] wide[i]) is Dir implies (
        wide[i]->Dir_0).dom().finite() by {
            if i < fs.len() {
                assert(wide[i] == fs[i]);
            }
        }
        lemma_linked_finite(
            wide,
            found(fs, parent(key))->0,
            file_name(key),
            fs.len() as usize,
        );
    }
}

#[verifier::spinoff_prover]
#[verifier::rlimit(40)]
proof fn lemma_volatile_finite(t: TraceView, profile: Profile, block: u64, n: int)
    requires
        compilable(t),
        snapshot_fits(t.initial),
        0 <= n <= t.ops.len(),
        n + 1 <= NEVER,
        compiled_upto(t, profile, block, n) is Ok,
        partial_fits(compiled_upto(t, profile, block, n)->Ok_0),
    ensures
        finite_dirs(compiled_upto(t, profile, block, n)->Ok_0.volatile),
    decreases n,
{
    if n == 0 {
        let keys = ordered(t.initial.dom());
        lemma_ordered_of(t.initial.dom());
        assert forall|i: int| 0 <= i < keys.len() implies t.initial.contains_key(
            #[trigger] keys[i],
        ) by {
            assert(keys.to_set().contains(keys[i]));
        }
        lemma_loaded_finite(keys, t.initial, keys.len() as int);
    } else {
        let b = compiled_upto(t, profile, block, n - 1)->Ok_0;
        let c = compiled_upto(t, profile, block, n)->Ok_0;
        let op = t.ops[n - 1];
        let e = effect(b.volatile, op, block_of(block))->Ok_0;
        assert(b.base.len() <= c.base.len());
        assert(b.micro.len() <= c.micro.len());
        law_compiled_sound(t, profile, block, n - 1);
        lemma_volatile_finite(t, profile, block, n - 1);
        assert(op_fits(t.ops[n - 1]));
        lemma_effect_sound(b.volatile, op, block_of(block));
        let wide = with_node(b.volatile, e.node);
        match e.node {
            Some(node) => {
                lemma_pushed_sound(b.volatile, node);
            },
            None => {},
        }
        assert forall|i: int| 0 <= i < wide.len() && (#[trigger] wide[i]) is Dir implies (
        wide[i]->Dir_0).dom().finite() by {
            if i < b.volatile.len() {
                assert(wide[i] == b.volatile[i]);
            }
        }
        lemma_applied_all_finite(wide, e.micros);
    }
}

/// `b` is the listing `a` of a wider image, in which nothing more was listed.
spec fn widens(a: Listing, b: Listing, tail: Seq<bool>) -> bool {
    b.tree == a.tree && b.seen == a.seen + tail
}

/// Inodes that nothing names do not show.
proof fn lemma_wider_dir(
    fs: FsView,
    wide: FsView,
    ino: Ino,
    p: Seq<char>,
    a: Listing,
    b: Listing,
    tail: Seq<bool>,
    fuel: nat,
    more: nat,
)
    requires
        fs_sound(fs),
        finite_dirs(fs),
        fs.len() <= wide.len(),
        forall|i: int| 0 <= i < fs.len() ==> fs[i] == #[trigger] wide[i],
        ino < fs.len(),
        a.seen.len() == fs.len(),
        widens(a, b, tail),
        unseen(a.seen) <= fuel,
        unseen(a.seen) <= more,
    ensures
        widens(
            list_dir(fs, ino, p, a, fuel),
            list_dir(wide, ino, p, b, more),
            tail,
        ),
        list_dir(fs, ino, p, a, fuel).seen.len() == fs.len(),
        forall|i: int|
            0 <= i < fs.len() && a.seen[i] ==> #[trigger] list_dir(fs, ino, p, a, fuel).seen[i],
    decreases fuel, 0nat,
{
    assert(b.seen[ino as int] == a.seen[ino as int]);
    if !a.seen[ino as int] {
        lemma_unseen_mark(a.seen, ino as int);
        let a1 = Listing { tree: a.tree, seen: a.seen.update(ino as int, true) };
        let b1 = Listing { tree: b.tree, seen: b.seen.update(ino as int, true) };
        assert(b1.seen =~= a1.seen + tail);
        assert(wide[ino as int] == fs[ino as int]);
        match fs[ino as int] {
            NodeView::Dir(d) => {
                let names = ordered(d.dom());
                lemma_ordered_of(d.dom());
                lemma_wider_entries(
                    fs,
                    wide,
                    ino,
                    d,
                    names,
                    p,
                    a1,
                    b1,
                    tail,
                    (fuel - 1) as nat,
                    (more - 1) as nat,
                );
                let r = list_entries(fs, d, names, p, a1, (fuel - 1) as nat);
                assert forall|i: int| 0 <= i < fs.len() && a.seen[i] implies #[trigger] r.seen[i] by {
                    assert(a1.seen[i]);
                }
            },
            NodeView::File { .. } => {},
        }
    }
}

proof fn lemma_wider_entries(
    fs: FsView,
    wide: FsView,
    ino: Ino,
    d: Map<Seq<char>, Ino>,
    names: Seq<Seq<char>>,
    p: Seq<char>,
    a: Listing,
    b: Listing,
    tail: Seq<bool>,
    fuel: nat,
    more: nat,
)
    requires
        fs_sound(fs),
        finite_dirs(fs),
        fs.len() <= wide.len(),
        forall|i: int| 0 <= i < fs.len() ==> fs[i] == #[trigger] wide[i],
        ino < fs.len(),
        fs[ino as int] == NodeView::Dir(d),
        forall|i: int| 0 <= i < names.len() ==> d.contains_key(#[trigger] names[i]),
        a.seen.len() == fs.len(),
        widens(a, b, tail),
        unseen(a.seen) <= fuel,
        unseen(a.seen) <= more,
    ensures
        widens(
            list_entries(fs, d, names, p, a, fuel),
            list_entries(wide, d, names, p, b, more),
            tail,
        ),
        list_entries(fs, d, names, p, a, fuel).seen.len() == fs.len(),
        forall|i: int|
            0 <= i < fs.len() && a.seen[i] ==> #[trigger] list_entries(
                fs,
                d,
                names,
                p,
                a,
                fuel,
            ).seen[i],
    decreases fuel, names.len() + 1,
{
    if names.len() > 0 {
        let front = names.drop_last();
        assert forall|i: int| 0 <= i < front.len() implies d.contains_key(#[trigger] front[i]) by {
            assert(front[i] == names[i]);
        }
        lemma_wider_entries(fs, wide, ino, d, front, p, a, b, tail, fuel, more);
        let a1 = list_entries(fs, d, front, p, a, fuel);
        let b1 = list_entries(wide, d, front, p, b, more);
        let name = names.last();
        assert(d.contains_key(names[names.len() - 1]));
        lemma_child_in_range(fs, ino, d, name);
        let child = d[name];
        let path = joined_path(p, name);
        assert(wide[child as int] == fs[child as int]);
        lemma_unseen_mono(a.seen, a1.seen);
        if fs[child as int] is Dir {
            let a2 = Listing { tree: a1.tree.insert(path, EntryView::Dir), seen: a1.seen };
            let b2 = Listing { tree: b1.tree.insert(path, EntryView::Dir), seen: b1.seen };
            lemma_wider_dir(fs, wide, child, path, a2, b2, tail, fuel, more);
            let r = list_dir(fs, child, path, a2, fuel);
            assert(r == list_entries(fs, d, names, p, a, fuel));
            assert forall|i: int| 0 <= i < fs.len() && a.seen[i] implies #[trigger] r.seen[i] by {
                assert(a1.seen[i]);
                assert(a2.seen[i]);
            }
        }
    }
}

/// An image with more inodes, that nothing names, shows the same tree.
proof fn lemma_wider_shows_the_same(fs: FsView, wide: FsView)
    requires
        fs_sound(fs),
        finite_dirs(fs),
        fs.len() <= wide.len(),
        forall|i: int| 0 <= i < fs.len() ==> fs[i] == #[trigger] wide[i],
    ensures
        listed(wide) == listed(fs),
{
    let a = Listing { tree: TreeView::empty(), seen: Seq::new(fs.len(), |i: int| false) };
    let b = Listing { tree: TreeView::empty(), seen: Seq::new(wide.len(), |i: int| false) };
    let tail = Seq::new((wide.len() - fs.len()) as nat, |i: int| false);
    assert(b.seen =~= a.seen + tail);
    lemma_unseen_mono(a.seen, a.seen);
    lemma_wider_dir(fs, wide, 0, Seq::empty(), a, b, tail, fs.len(), wide.len());
}

/// What is compiled of the first ops stays at the front of what is compiled of
/// more.
proof fn lemma_compiled_front(t: TraceView, profile: Profile, block: u64, k: int, n: int)
    requires
        0 <= k <= n,
        compiled_upto(t, profile, block, n) is Ok,
    ensures
        compiled_upto(t, profile, block, k) is Ok,
        ({
            let b = compiled_upto(t, profile, block, k)->Ok_0;
            let c = compiled_upto(t, profile, block, n)->Ok_0;
            &&& b.base.len() <= c.base.len()
            &&& forall|i: int| 0 <= i < b.base.len() ==> b.base[i] == #[trigger] c.base[i]
            &&& b.micro.len() <= c.micro.len()
            &&& forall|j: int|
                0 <= j < b.micro.len() ==> b.micro[j].m == (#[trigger] c.micro[j]).m
            &&& b.op_end.len() <= c.op_end.len()
            &&& forall|j: int|
                0 <= j < b.op_end.len() ==> b.op_end[j] == #[trigger] c.op_end[j]
        }),
    decreases n - k,
{
    if k < n {
        lemma_compiled_front(t, profile, block, k, n - 1);
        let b = compiled_upto(t, profile, block, k)->Ok_0;
        let mid = compiled_upto(t, profile, block, n - 1)->Ok_0;
        let c = compiled_upto(t, profile, block, n)->Ok_0;
        assert forall|i: int| 0 <= i < b.base.len() implies b.base[i] == #[trigger] c.base[i] by {
            assert(mid.base[i] == c.base[i]);
        }
        assert forall|j: int| 0 <= j < b.micro.len() implies b.micro[j].m == (
        #[trigger] c.micro[j]).m by {
            assert(mid.micro[j].m == c.micro[j].m);
        }
        assert forall|j: int| 0 <= j < b.op_end.len() implies b.op_end[j]
            == #[trigger] c.op_end[j] by {
            assert(mid.op_end[j] == c.op_end[j]);
        }
    }
}

/// Micro-ops leave inodes alone that they do not speak of.
proof fn lemma_applied_all_wider(fs: FsView, wide: FsView, micros: Seq<MicroView>)
    requires
        fs_sound(fs),
        fs.len() <= wide.len(),
        forall|i: int| 0 <= i < fs.len() ==> fs[i] == #[trigger] wide[i],
        forall|k: int| 0 <= k < micros.len() ==> micro_sound(#[trigger] micros[k], fs.len()),
    ensures
        applied_all(fs, micros).len() == fs.len(),
        applied_all(wide, micros).len() == wide.len(),
        forall|i: int|
            0 <= i < fs.len() ==> applied_all(fs, micros)[i] == #[trigger] applied_all(
                wide,
                micros,
            )[i],
    decreases micros.len(),
{
    if micros.len() > 0 {
        let before = micros.drop_last();
        assert forall|k: int| 0 <= k < before.len() implies micro_sound(
            #[trigger] before[k],
            fs.len(),
        ) by {
            assert(before[k] == micros[k]);
        }
        lemma_applied_all_wider(fs, wide, before);
        lemma_applied_all_sound(fs, before);
        let a = applied_all(fs, before);
        let b = applied_all(wide, before);
        let m = micros.last();
        assert(micro_sound(micros[micros.len() - 1], fs.len()));
        lemma_applied_sound(a, m);
        lemma_applied_wider(a, b, m);
    }
}

proof fn lemma_applied_wider(fs: FsView, wide: FsView, m: MicroView)
    requires
        fs.len() <= wide.len(),
        forall|i: int| 0 <= i < fs.len() ==> fs[i] == #[trigger] wide[i],
        micro_sound(m, fs.len()),
    ensures
        applied(fs, m).len() == fs.len(),
        applied(wide, m).len() == wide.len(),
        forall|i: int| 0 <= i < fs.len() ==> applied(fs, m)[i] == #[trigger] applied(wide, m)[i],
{
    match m {
        MicroView::Rename { from, from_name, to, to_name, ino, .. } => {
            assert(fs[from as int] == wide[from as int]);
            assert(fs[to as int] == wide[to as int]);
            let a = if leads_to(fs, from, from_name, ino) {
                unlinked(fs, from, from_name)
            } else {
                fs
            };
            let b = if leads_to(wide, from, from_name, ino) {
                unlinked(wide, from, from_name)
            } else {
                wide
            };
            assert(forall|i: int| 0 <= i < fs.len() ==> a[i] == #[trigger] b[i]);
            assert(a[to as int] == b[to as int]);
        },
        MicroView::Link { parent, .. } => {
            assert(fs[parent as int] == wide[parent as int]);
        },
        MicroView::Unlink { parent, .. } => {
            assert(fs[parent as int] == wide[parent as int]);
        },
        MicroView::Write { ino, .. } => {
            assert(fs[ino as int] == wide[ino as int]);
        },
        MicroView::SetLen { ino, .. } => {
            assert(fs[ino as int] == wide[ino as int]);
        },
    }
}

proof fn lemma_all_survived(p: ProgramView, s: Seq<bool>, n: int)
    requires
        0 <= n <= s.len(),
        s.len() <= p.micro.len(),
        forall|j: int| 0 <= j < s.len() ==> #[trigger] s[j],
    ensures
        survived(p, s, n) == applied_all(p.base, changes(p.micro).take(n)),
    decreases n,
{
    let all = changes(p.micro);
    if n > 0 {
        lemma_all_survived(p, s, n - 1);
        assert(all.take(n).drop_last() =~= all.take(n - 1));
    } else {
        assert(all.take(0) =~= Seq::<MicroView>::empty());
    }
}

/// A crash at any point that loses nothing leaves what the workload itself saw
/// after the ops before the crash.
pub proof fn law_losing_nothing_leaves_what_the_workload_saw(
    t: TraceView,
    profile: Profile,
    block: u64,
    k: int,
)
    requires
        compilable(t),
        snapshot_fits(t.initial),
        0 <= k <= t.ops.len(),
        t.ops.len() + 1 <= NEVER,
        compiled_upto(t, profile, block, t.ops.len() as int) is Ok,
        partial_fits(compiled_upto(t, profile, block, t.ops.len() as int)->Ok_0),
    ensures
        compiled_upto(t, profile, block, k) is Ok,
        ({
            let p = so_far(
                compiled_upto(t, profile, block, t.ops.len() as int)->Ok_0,
                profile,
            );
            tree_of(p, all_kept(p.op_end[k] as nat)) == listed(
                compiled_upto(t, profile, block, k)->Ok_0.volatile,
            )
        }),
{
    let n = t.ops.len() as int;
    lemma_compiled_front(t, profile, block, k, n);
    let b = compiled_upto(t, profile, block, k)->Ok_0;
    let c = compiled_upto(t, profile, block, n)->Ok_0;
    let p = so_far(c, profile);
    law_compiled_sound(t, profile, block, k);
    law_full_persistence_is_replay(t, profile, block, k);
    lemma_volatile_finite(t, profile, block, k);
    assert(p.op_end[k] == b.op_end[k]);
    assert(b.op_end[k] == b.op_end.last());
    let s = all_kept(p.op_end[k] as nat);
    lemma_all_survived(p, s, s.len() as int);
    let ms = changes(b.micro);
    assert(changes(c.micro).take(s.len() as int) =~= ms);
    assert forall|j: int| 0 <= j < ms.len() implies micro_sound(
        #[trigger] ms[j],
        b.base.len(),
    ) by {
        assert(micro_op_sound(so_far(b, profile), j));
    }
    lemma_applied_all_wider(b.base, c.base, ms);
    lemma_wider_shows_the_same(b.volatile, applied_all(c.base, ms));
}

} // verus!
