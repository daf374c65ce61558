//! What parents, names, components, normalized paths and paths below the root are.

use crate::model::{found, FsView, NodeView};
use crate::paths::{
    components, file_name, joined_path, last_slash, lemma_components_parent, lemma_last_slash,
    lemma_last_slash_is, parent,
};
use crate::strace::{
    cwd_of, normalized, relative, resolved, resolved_path, slashed, without_slashes, StateView,
};
use crate::strace_laws::{
    is_plain, lemma_joined_begins_plain, lemma_pieces_have_no_slash, lemma_resolved_is_plain,
    lemma_split_at_last,
};
use crate::syscall::fd_of;
use crate::text::{ends_with, lemma_index_from, replaced, split_on, starts_with};
use crate::text_laws::law_replacing_characters;
use vstd::prelude::*;

verus! {

/// A path is cut at its last slash: the name holds none, and the parent, a slash
/// and the name are the path. A path without a slash is its own name, and its
/// parent is the root.
pub proof fn law_paths_are_parent_and_name(p: Seq<char>)
    ensures
        !file_name(p).contains('/'),
        p.contains('/') ==> p == parent(p) + seq!['/'] + file_name(p),
        !p.contains('/') ==> parent(p).len() == 0 && file_name(p) == p,
{
    lemma_last_slash(p);
    let k = last_slash(p);
    if k >= 0 {
        assert(p.contains(p[k]));
        assert(p =~= parent(p) + seq!['/'] + file_name(p));
    } else {
        assert(file_name(p) =~= p);
        if p.contains('/') {
            let i = choose|i: int| 0 <= i < p.len() && p[i] == '/';
            assert(p[i] != '/');
        }
    }
    assert forall|i: int| 0 <= i < file_name(p).len() implies file_name(p)[i] != '/' by {
        assert(file_name(p)[i] == p[k + 1 + i]);
    }
}

/// A name in a directory: its path has the directory as its parent and the name
/// as its name, and its components are those of the directory and the name.
pub proof fn law_joined_paths_come_apart(dir: Seq<char>, name: Seq<char>)
    requires
        !name.contains('/'),
        name.len() > 0,
    ensures
        parent(joined_path(dir, name)) == dir,
        file_name(joined_path(dir, name)) == name,
        components(joined_path(dir, name)) == components(dir).push(name),
        components(Seq::<char>::empty()) == Seq::<Seq<char>>::empty(),
{
    let p = joined_path(dir, name);
    let k = if dir.len() == 0 {
        -1
    } else {
        dir.len() as int
    };
    assert forall|j: int| k < j < p.len() implies p[j] != '/' by {
        assert(p[j] == name[j - k - 1]);
        assert(name.contains(name[j - k - 1]));
    }
    lemma_last_slash_is(p, k);
    assert(parent(p) =~= dir);
    assert(file_name(p) =~= name);
    lemma_components_parent(p);
    lemma_last_slash(Seq::<char>::empty());
}

/// A slash at the end, or two in a row, name nothing more.
pub proof fn law_extra_slashes_name_nothing(p: Seq<char>)
    ensures
        components(p.push('/')) == components(p),
        components(seq!['/'] + p) == components(p),
    decreases p.len(),
{
    let q = p.push('/');
    lemma_last_slash_is(q, p.len() as int);
    lemma_components_parent(q);
    assert(parent(q) =~= p);
    assert(file_name(q).len() == 0);
    let r = seq!['/'] + p;
    lemma_last_slash(p);
    let k = last_slash(p);
    assert forall|j: int| k + 1 < j < r.len() implies r[j] != '/' by {
        assert(r[j] == p[j - 1]);
    }
    if k >= 0 {
        lemma_last_slash_is(r, k + 1);
        assert(parent(r) =~= seq!['/'] + parent(p));
        assert(file_name(r) =~= file_name(p));
        law_extra_slashes_name_nothing(parent(p));
        lemma_components_parent(r);
        lemma_components_parent(p);
    } else {
        lemma_last_slash_is(r, 0);
        assert(parent(r) =~= Seq::<char>::empty());
        assert(file_name(r) =~= p);
        assert(file_name(p) =~= p);
        assert(parent(p) =~= Seq::<char>::empty());
        lemma_components_parent(r);
        lemma_components_parent(p);
    }
}

/// What is left of an absolute path.
spec fn parts(p: Seq<char>) -> Seq<Seq<char>> {
    resolved(split_on(p, '/'), split_on(p, '/').len() as int)
}

proof fn lemma_resolved_front(a: Seq<Seq<char>>, b: Seq<Seq<char>>, n: int)
    requires
        0 <= n <= a.len(),
    ensures
        resolved(a + b, n) == resolved(a, n),
    decreases n,
{
    if n > 0 {
        lemma_resolved_front(a, b, n - 1);
    }
}

proof fn lemma_one_more(p: Seq<char>, name: Seq<char>)
    requires
        !name.contains('/'),
    ensures
        parts(p + seq!['/'] + name) == (if name.len() == 0 || name == "."@ {
            parts(p)
        } else if name == ".."@ {
            if parts(p).len() == 0 {
                parts(p)
            } else {
                parts(p).drop_last()
            }
        } else {
            parts(p).push(name)
        }),
{
    lemma_split_at_last(p, name);
    let a = split_on(p, '/');
    lemma_resolved_front(a, seq![name], a.len() as int);
    assert((a + seq![name])[a.len() as int] == name);
}

/// A path with one more plain name.
pub open spec fn in_dir(dir: Seq<char>, name: Seq<char>) -> Seq<char> {
    if dir == "/"@ {
        dir + name
    } else {
        dir + "/"@ + name
    }
}

/// How names behind an absolute path are resolved: a plain name leads into the
/// directory; a dot, or nothing, stays; and two dots lead back out, and stay at
/// the top.
pub proof fn law_names_are_resolved_one_by_one(p: Seq<char>, name: Seq<char>)
    requires
        p.len() > 0,
        p[0] == '/',
        is_plain(name),
    ensures
        normalized(p + "/"@ + name) == in_dir(normalized(p), name),
        normalized(p + "/"@) == normalized(p),
        normalized(p + "/."@) == normalized(p),
        normalized(p + "/"@ + name + "/.."@) == normalized(p),
        normalized("/"@) == "/"@,
        normalized("/.."@) == "/"@,
{
    reveal_strlit("/");
    reveal_strlit("");
    reveal_strlit(".");
    reveal_strlit("..");
    reveal_strlit("/.");
    reveal_strlit("/..");
    assert("/"@ =~= seq!['/']);
    let v = parts(p);
    let empty = Seq::<char>::empty();
    assert(p + "/"@ + name =~= p + seq!['/'] + name);
    assert(p + "/"@ =~= p + seq!['/'] + empty);
    assert("."@ =~= seq!['.']);
    assert(p + "/."@ =~= p + seq!['/'] + "."@);
    let q = p + seq!['/'] + name;
    assert(p + "/"@ + name + "/.."@ =~= q + seq!['/'] + ".."@);
    assert(!empty.contains('/'));
    assert(!"."@.contains('/'));
    assert(".."@ =~= seq!['.', '.']);
    assert(!".."@.contains('/'));
    lemma_one_more(p, name);
    lemma_one_more(p, empty);
    lemma_one_more(p, "."@);
    lemma_one_more(q, ".."@);
    assert(parts(q) == v.push(name));
    assert(v.push(name).drop_last() =~= v);
    // The top.
    lemma_index_from(empty, '/', 0);
    assert(split_on(empty, '/') =~= seq![empty]);
    reveal_with_fuel(resolved, 2);
    assert(parts(empty) =~= Seq::<Seq<char>>::empty());
    lemma_one_more(empty, empty);
    lemma_one_more(empty, ".."@);
    assert(empty + seq!['/'] + empty =~= "/"@);
    assert(empty + seq!['/'] + ".."@ =~= "/.."@);
    assert(normalized("/"@) =~= "/"@);
    assert(normalized("/.."@) =~= "/"@);
    // One more name.
    if v.len() == 0 {
        assert(normalized(p) =~= "/"@);
        assert(v.push(name) =~= seq![name]);
        assert(normalized(q) =~= "/"@ + name);
    } else {
        lemma_pieces_have_no_slash(p);
        lemma_resolved_is_plain(split_on(p, '/'), split_on(p, '/').len() as int);
        lemma_joined_begins_plain(v);
        assert(normalized(p).len() > 1);
        assert(v.push(name).drop_last() =~= v);
        assert(v.push(name).last() == name);
        assert(normalized(q) =~= normalized(p) + "/"@ + name);
    }
}

/// A path is below the root if it is the root, or goes on behind it with a slash.
/// What the kernel calls deleted is nowhere.
pub proof fn law_relative_paths_lie_below_the_root(st: StateView, abs: Seq<char>, rel: Seq<char>)
    requires
        st.root.len() > 0,
        st.root == "/"@ || st.root.last() != '/',
    ensures
        ends_with(abs, " (deleted)"@) ==> relative(st, abs) is None,
        !ends_with(abs, " (deleted)"@) && normalized(abs) == st.root ==> relative(st, abs) == Some(
            Seq::<char>::empty(),
        ),
        !ends_with(abs, " (deleted)"@) && normalized(abs) != st.root ==> (relative(st, abs) == Some(
            rel,
        ) <==> normalized(abs) == in_dir(st.root, rel)),
{
    reveal_strlit("/");
    assert("/"@ =~= seq!['/']);
    let n = normalized(abs);
    let prefix = without_slashes(st.root) + "/"@;
    if st.root == "/"@ {
        assert(st.root.drop_last() =~= Seq::<char>::empty());
        reveal_with_fuel(without_slashes, 2);
        assert(without_slashes(st.root) =~= Seq::<char>::empty());
        assert(prefix =~= "/"@);
    } else {
        assert(without_slashes(st.root) == st.root);
    }
    assert(in_dir(st.root, rel) =~= prefix + rel);
    if starts_with(n, prefix) {
        assert(n =~= prefix + n.skip(prefix.len() as int));
    }
    if n == prefix + rel {
        assert(n.take(prefix.len() as int) =~= prefix);
        assert(n.skip(prefix.len() as int) =~= rel);
    }
}

/// Where a path of a call begins: at the top if it is absolute; otherwise in the
/// directory that its fd argument names, if that shows one, or else in the working
/// directory of the process.
pub proof fn law_where_paths_begin(
    st: StateView,
    pid: u32,
    dirfd: Seq<char>,
    dir: Seq<char>,
    path: Seq<char>,
)
    ensures
        path.len() > 0 && path[0] == '/' ==> resolved_path(st, pid, None, path) == normalized(path)
            && resolved_path(st, pid, Some(dirfd), path) == normalized(path),
        path.len() > 0 && path[0] != '/' ==> {
            &&& resolved_path(st, pid, None, path) == normalized(cwd_of(st, pid) + "/"@ + path)
            &&& fd_of(dirfd).1 == Some(dir) ==> resolved_path(st, pid, Some(dirfd), path)
                == normalized(dir + "/"@ + path)
            &&& fd_of(dirfd).1 is None ==> resolved_path(st, pid, Some(dirfd), path) == normalized(
                cwd_of(st, pid) + "/"@ + path,
            )
        },
        st.cwd.contains_key(pid as i64) ==> cwd_of(st, pid) == st.cwd[pid as i64],
        !st.cwd.contains_key(pid as i64) ==> cwd_of(st, pid) == st.launch_cwd,
{
}

/// Backslashes count as slashes, and a path of plain names stays as it is.
pub proof fn law_slashes_both_ways(p: Seq<char>)
    ensures
        !p.contains('\\') ==> slashed(p) == normalized(p),
        slashed(p) == slashed(
            Seq::new(
                p.len(),
                |i: int|
                    if p[i] == '\\' {
                        '/'
                    } else {
                        p[i]
                    },
            ),
        ),
{
    reveal_strlit("\\");
    reveal_strlit("/");
    assert("\\"@ =~= seq!['\\']);
    assert("/"@ =~= seq!['/']);
    let q = Seq::new(
        p.len(),
        |i: int|
            if p[i] == '\\' {
                '/'
            } else {
                p[i]
            },
    );
    law_replacing_characters(p, '\\', '/');
    law_replacing_characters(q, '\\', '/');
    assert(replaced(p, "\\"@, "/"@) =~= q);
    assert(replaced(q, "\\"@, "/"@) =~= q);
    if !p.contains('\\') {
        assert forall|i: int| 0 <= i < p.len() implies p[i] != '\\' by {
            assert(p.contains(p[i]));
        }
        assert(q =~= p);
    }
}

/// A path leads where its names lead, one after the other: the empty path to the
/// root, and a name in a directory to what the directory has under it. Nothing
/// lies in a file, nor below a path that leads nowhere.
pub proof fn law_paths_lead_step_by_step(fs: FsView, dir: Seq<char>, name: Seq<char>)
    requires
        name.len() > 0,
        !name.contains('/'),
    ensures
        found(fs, Seq::<char>::empty()) == Some(0usize),
        found(fs, dir) is None ==> found(fs, joined_path(dir, name)) is None,
        found(fs, dir) matches Some(i) ==> match fs[i as int] {
            NodeView::File { .. } => found(fs, joined_path(dir, name)) is None,
            NodeView::Dir(d) => {
                &&& d.contains_key(name) ==> found(fs, joined_path(dir, name)) == Some(d[name])
                &&& !d.contains_key(name) ==> found(fs, joined_path(dir, name)) is None
            },
        },
{
    law_joined_paths_come_apart(dir, name);
    assert(components(joined_path(dir, name)).drop_last() =~= components(dir));
}

} // verus!
