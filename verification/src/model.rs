//! An inode-level model of a file system, and the *micro-ops* that change it:
//! the units a file system may persist independently of each other (a
//! directory-entry change, one block of a write, a size change).

use crate::laws::snapshot_fits;
use crate::names::{lemma_ascending_len, ordered, NameMap};
use crate::paths::{
    components, file_name, join, joined_path, lemma_components_empty, lemma_components_parent,
    lemma_components_segment, parent, split,
};
use crate::snapshot_laws::{canonical, full_files, law_snapshot_reads_back};
use crate::text::{cat, chars_of, copy_of, index_from, index_of, is_lit, lemma_index_from, part};
use crate::trace::{copy_bytes, Entry, EntryView, Tree, TreeView};
use vstd::prelude::*;

verus! {

/// The number of an inode. Inode 0 is the root directory.
pub type Ino = usize;

/// How weak the file system's persistence guarantees are assumed to be.
#[derive(Debug, Clone, Copy, PartialEq, Eq, Structural)]
pub enum Profile {
    /// The weakest behavior POSIX permits, and what portable code must survive:
    /// any non-durable micro-op may be lost independently of any other, writes
    /// tear at block boundaries, a file's size can persist without its data,
    /// and `fsync` on a file does not make its directory entry durable.
    Posix,
    /// Linux ext4 with the default `data=ordered` journaling: metadata changes
    /// persist in program order, a size extension never persists before its
    /// data, `fsync` of anything commits all earlier metadata, and a rename that
    /// replaces a file first flushes the renamed file's data (`auto_da_alloc`).
    Ext4Ordered,
}

impl Default for Profile {
    fn default() -> (r: Profile)
        ensures
            r == Profile::Posix,
    {
        Profile::Posix
    }
}

/// The profile that a name stands for, if any.
pub open spec fn profile_named(s: Seq<char>) -> Option<Profile> {
    if s == "posix"@ {
        Some(Profile::Posix)
    } else if s == "ext4"@ || s == "ext4-ordered"@ {
        Some(Profile::Ext4Ordered)
    } else {
        None
    }
}

impl Profile {
    /// Reads the name of a profile.
    pub fn parse(s: &str) -> (r: Result<Profile, String>)
        ensures
            match r {
                Ok(p) => profile_named(s@) == Some(p),
                Err(e) => profile_named(s@) is None && e@ == "unknown profile `"@ + s@
                    + "` (expected `posix` or `ext4`)"@,
            },
    {
        let c = chars_of(s);
        if is_lit(c.as_slice(), "posix") {
            Ok(Profile::Posix)
        } else if is_lit(c.as_slice(), "ext4") || is_lit(
            c.as_slice(),
            "ext4-ordered",
        ) {
            Ok(Profile::Ext4Ordered)
        } else {
            let e = cat("unknown profile `".to_owned(), s);
            Err(cat(e, "` (expected `posix` or `ext4`)"))
        }
    }
}

impl std::str::FromStr for Profile {
    type Err = String;

    fn from_str(s: &str) -> (r: Result<Profile, String>)
        ensures
            match r {
                Ok(p) => profile_named(s@) == Some(p),
                Err(e) => profile_named(s@) is None && e@ == "unknown profile `"@ + s@
                    + "` (expected `posix` or `ext4`)"@,
            },
    {
        Profile::parse(s)
    }
}

/// The smallest change that a file system may persist on its own.
#[derive(Debug, PartialEq, Eq)]
pub enum Micro {
    Link { parent: Ino, name: Vec<char>, ino: Ino },
    Unlink { parent: Ino, name: Vec<char> },
    Rename {
        from: Ino,
        from_name: Vec<char>,
        to: Ino,
        to_name: Vec<char>,
        ino: Ino,
        replaces: bool,
    },
    Write { ino: Ino, offset: u64, data: Vec<u8> },
    /// `keep_tail`: a size extension caused by a write (bytes already written
    /// past the old end become visible) as opposed to a truncate (zero-fill).
    SetLen { ino: Ino, len: u64, keep_tail: bool },
}

/// A micro-op, over mathematical values.
pub enum MicroView {
    Link { parent: Ino, name: Seq<char>, ino: Ino },
    Unlink { parent: Ino, name: Seq<char> },
    Rename {
        from: Ino,
        from_name: Seq<char>,
        to: Ino,
        to_name: Seq<char>,
        ino: Ino,
        replaces: bool,
    },
    Write { ino: Ino, offset: u64, data: Seq<u8> },
    SetLen { ino: Ino, len: u64, keep_tail: bool },
}

impl View for Micro {
    type V = MicroView;

    open spec fn view(&self) -> MicroView {
        match *self {
            Micro::Link { parent, name, ino } => MicroView::Link { parent, name: name@, ino },
            Micro::Unlink { parent, name } => MicroView::Unlink { parent, name: name@ },
            Micro::Rename { from, from_name, to, to_name, ino, replaces } => MicroView::Rename {
                from,
                from_name: from_name@,
                to,
                to_name: to_name@,
                ino,
                replaces,
            },
            Micro::Write { ino, offset, data } => MicroView::Write { ino, offset, data: data@ },
            Micro::SetLen { ino, len, keep_tail } => MicroView::SetLen { ino, len, keep_tail },
        }
    }
}

/// Everything but file data is metadata.
pub open spec fn is_meta(m: MicroView) -> bool {
    !(m is Write)
}

impl Micro {
    /// Whether the micro-op changes metadata: anything but file data.
    pub fn is_meta(&self) -> (r: bool)
        ensures
            r == is_meta(self@),
    {
        match self {
            Micro::Write { .. } => false,
            _ => true,
        }
    }
}

/// A directory or a file.
#[derive(Debug, PartialEq, Eq)]
pub enum Node {
    Dir(NameMap<usize>),
    /// `buf` may run past `len`: bytes written whose size update did not persist.
    File { buf: Vec<u8>, len: u64 },
}

/// A directory or a file, over mathematical values.
pub enum NodeView {
    Dir(Map<Seq<char>, Ino>),
    File { buf: Seq<u8>, len: u64 },
}

impl View for Node {
    type V = NodeView;

    open spec fn view(&self) -> NodeView {
        match *self {
            Node::Dir(d) => NodeView::Dir(d@),
            Node::File { buf, len } => NodeView::File { buf: buf@, len },
        }
    }
}

impl Node {
    /// A node with the same content.
    pub fn dup(&self) -> (r: Node)
        ensures
            r@ == self@,
    {
        match self {
            Node::Dir(d) => Node::Dir(d.dup()),
            Node::File { buf, len } => Node::File { buf: copy_bytes(buf), len: *len },
        }
    }
}

/// A file system image: the inodes by number.
pub type FsView = Seq<NodeView>;

/// Every entry of a directory names one of the first `n` inodes, and the length
/// of a file can be held in memory.
pub open spec fn node_sound(node: NodeView, n: nat) -> bool {
    match node {
        NodeView::Dir(d) => forall|k: Seq<char>| #[trigger]
            d.contains_key(k) ==> d[k] < n,
        NodeView::File { len, .. } => len <= usize::MAX,
    }
}

/// Every directory entry names an inode that exists, and every file length
/// can be held in memory.
pub open spec fn fs_sound(fs: FsView) -> bool {
    &&& fs.len() > 0
    &&& forall|i: int| 0 <= i < fs.len() ==> node_sound(#[trigger] fs[i], fs.len())
}

/// A micro-op that speaks of the first `n` inodes only, and whose bytes can be
/// held in memory.
pub open spec fn micro_sound(m: MicroView, n: nat) -> bool {
    match m {
        MicroView::Link { parent, ino, .. } => parent < n && ino < n,
        MicroView::Unlink { parent, .. } => parent < n,
        MicroView::Rename { from, to, ino, .. } => from < n && to < n && ino < n,
        MicroView::Write { ino, offset, data } => ino < n && offset + data.len() <= usize::MAX,
        MicroView::SetLen { ino, len, .. } => ino < n && len <= usize::MAX,
    }
}

/// `fs` with `name` leading to `ino` in the directory `dir` (no change if
/// `dir` is a file).
pub open spec fn linked(fs: FsView, dir: Ino, name: Seq<char>, ino: Ino) -> FsView {
    match fs[dir as int] {
        NodeView::Dir(d) => fs.update(dir as int, NodeView::Dir(d.insert(name, ino))),
        NodeView::File { .. } => fs,
    }
}

/// `fs` without `name` in the directory `dir`.
pub open spec fn unlinked(fs: FsView, dir: Ino, name: Seq<char>) -> FsView {
    match fs[dir as int] {
        NodeView::Dir(d) => fs.update(dir as int, NodeView::Dir(d.remove(name))),
        NodeView::File { .. } => fs,
    }
}

/// Whether `name` leads to `ino` in the directory `dir`.
pub open spec fn leads_to(fs: FsView, dir: Ino, name: Seq<char>, ino: Ino) -> bool {
    match fs[dir as int] {
        NodeView::Dir(d) => d.contains_key(name) && d[name] == ino,
        NodeView::File { .. } => false,
    }
}

/// `buf` with `data` at `offset`, zero-filled up to there.
pub open spec fn overwritten(buf: Seq<u8>, offset: int, data: Seq<u8>) -> Seq<u8> {
    Seq::new(
        if buf.len() < offset + data.len() {
            (offset + data.len()) as nat
        } else {
            buf.len()
        },
        |i: int|
            if offset <= i < offset + data.len() {
                data[i - offset]
            } else if i < buf.len() {
                buf[i]
            } else {
                0u8
            },
    )
}

/// The buffer of a file after its length is set. Shrinking discards data; a
/// truncate that extends exposes zeros.
pub open spec fn resized(buf: Seq<u8>, len: u64, new: u64, keep_tail: bool) -> Seq<u8> {
    let cut = if new < len {
        new
    } else {
        len
    };
    if (new < len || !keep_tail) && cut < buf.len() {
        buf.take(cut as int)
    } else {
        buf
    }
}

/// The image after a micro-op.
pub open spec fn applied(fs: FsView, m: MicroView) -> FsView {
    match m {
        MicroView::Link { parent, name, ino } => linked(fs, parent, name, ino),
        MicroView::Unlink { parent, name } => unlinked(fs, parent, name),
        MicroView::Rename { from, from_name, to, to_name, ino, .. } => linked(
            if leads_to(fs, from, from_name, ino) {
                unlinked(fs, from, from_name)
            } else {
                fs
            },
            to,
            to_name,
            ino,
        ),
        MicroView::Write { ino, offset, data } => match fs[ino as int] {
            NodeView::File { buf, len } => fs.update(
                ino as int,
                NodeView::File { buf: overwritten(buf, offset as int, data), len },
            ),
            NodeView::Dir(_) => fs,
        },
        MicroView::SetLen { ino, len: new, keep_tail } => match fs[ino as int] {
            NodeView::File { buf, len } => fs.update(
                ino as int,
                NodeView::File { buf: resized(buf, len, new, keep_tail), len: new },
            ),
            NodeView::Dir(_) => fs,
        },
    }
}

/// The inode that a chain of names leads to from the root, if any.
pub open spec fn walk_to(fs: FsView, names: Seq<Seq<char>>) -> Option<Ino>
    decreases names.len(),
{
    if names.len() == 0 {
        Some(0)
    } else {
        match walk_to(fs, names.drop_last()) {
            Some(dir) => match fs[dir as int] {
                NodeView::Dir(d) => if d.contains_key(names.last()) {
                    Some(d[names.last()])
                } else {
                    None
                },
                NodeView::File { .. } => None,
            },
            None => None,
        }
    }
}

/// The inode at a path, if any.
pub open spec fn found(fs: FsView, path: Seq<char>) -> Option<Ino> {
    walk_to(fs, components(path))
}

pub proof fn lemma_walk_to_in_range(fs: FsView, names: Seq<Seq<char>>)
    requires
        fs_sound(fs),
    ensures
        walk_to(fs, names) matches Some(i) ==> i < fs.len(),
    decreases names.len(),
{
    if names.len() > 0 {
        lemma_walk_to_in_range(fs, names.drop_last());
    }
}

/// A name of a directory leads to an inode that exists.
pub proof fn lemma_child_in_range(fs: FsView, dir: Ino, d: Map<Seq<char>, Ino>, name: Seq<char>)
    requires
        fs_sound(fs),
        dir < fs.len(),
        fs[dir as int] == NodeView::Dir(d),
        d.contains_key(name),
    ensures
        d[name] < fs.len(),
{
    assert(node_sound(fs[dir as int], fs.len()));
    assert(node_sound(NodeView::Dir(d), fs.len()));
    assert(forall|k: Seq<char>| #[trigger] d.contains_key(k) ==> d[k] < fs.len());
    assert(d.contains_key(name));
}

/// A sound image stays sound when a file or an empty directory is added to it.
pub proof fn lemma_pushed_sound(fs: FsView, node: NodeView)
    requires
        fs_sound(fs),
        node_sound(node, fs.len()),
    ensures
        fs_sound(fs.push(node)),
{
    let after = fs.push(node);
    assert forall|i: int| 0 <= i < after.len() implies node_sound(
        #[trigger] after[i],
        after.len(),
    ) by {
        if i < fs.len() {
            assert(node_sound(fs[i], fs.len()));
        }
    }
}

/// Where a path leads anywhere, its parent does too.
pub proof fn lemma_parent_found(fs: FsView, path: Seq<char>)
    requires
        found(fs, path) is Some,
    ensures
        found(fs, parent(path)) is Some,
{
    lemma_components_parent(path);
    let c = components(parent(path));
    if file_name(path).len() > 0 {
        assert(c.push(file_name(path)).drop_last() =~= c);
    }
}

/// A sound image stays sound under sound micro-ops, and keeps its inodes.
pub proof fn lemma_applied_sound(fs: FsView, m: MicroView)
    requires
        fs_sound(fs),
        micro_sound(m, fs.len()),
    ensures
        fs_sound(applied(fs, m)),
        applied(fs, m).len() == fs.len(),
{
    let after = applied(fs, m);
    assert forall|i: int| 0 <= i < after.len() implies node_sound(
        #[trigger] after[i],
        after.len(),
    ) by {
        assert(node_sound(fs[i], fs.len()));
    }
}

/// What a file shows: its buffer cut, or zero-extended, to its length.
pub open spec fn visible(buf: Seq<u8>, len: u64) -> Seq<u8> {
    Seq::new(
        len as nat,
        |i: int|
            if i < buf.len() {
                buf[i]
            } else {
                0u8
            },
    )
}

/// The node of a snapshot entry.
pub open spec fn node_of(e: EntryView) -> NodeView {
    match e {
        EntryView::Dir => NodeView::Dir(Map::empty()),
        EntryView::File(data) => NodeView::File { buf: data, len: data.len() as u64 },
    }
}

/// The image of the first `n` entries of a snapshot, in the order of their
/// paths; none if an entry stands before its directory, or inside a file.
pub open spec fn loaded(keys: Seq<Seq<char>>, t: TreeView, n: int) -> Option<FsView>
    decreases n,
{
    if n <= 0 {
        Some(seq![NodeView::Dir(Map::empty())])
    } else {
        match loaded(keys, t, n - 1) {
            None => None,
            Some(fs) => match found(fs, parent(keys[n - 1])) {
                Some(dir) if fs[dir as int] is Dir => Some(
                    linked(
                        fs.push(node_of(t[keys[n - 1]])),
                        dir,
                        file_name(keys[n - 1]),
                        fs.len() as usize,
                    ),
                ),
                _ => None,
            },
        }
    }
}

/// The image of a snapshot.
pub open spec fn image(t: TreeView) -> Option<FsView> {
    let keys = ordered(t.dom());
    loaded(keys, t, keys.len() as int)
}

/// Every entry of the snapshot stands in a directory that the snapshot holds
/// before it.
pub open spec fn loadable(t: TreeView) -> bool {
    image(t) is Some
}

/// A tree under construction, and the directories already listed.
pub struct Listing {
    pub tree: TreeView,
    pub seen: Seq<bool>,
}

/// Lists the directory `ino` at `prefix`. A directory that was listed before
/// is not listed again: a crash state can make one reachable twice. `fuel`
/// bounds how deep directories nest.
pub open spec fn list_dir(
    fs: FsView,
    ino: Ino,
    prefix: Seq<char>,
    l: Listing,
    fuel: nat,
) -> Listing
    decreases fuel, 0nat,
{
    if l.seen[ino as int] || fuel == 0 {
        l
    } else {
        let marked = Listing { tree: l.tree, seen: l.seen.update(ino as int, true) };
        match fs[ino as int] {
            NodeView::Dir(d) => list_entries(
                fs,
                d,
                ordered(d.dom()),
                prefix,
                marked,
                (fuel - 1) as nat,
            ),
            NodeView::File { .. } => marked,
        }
    }
}

/// Lists the entries `names` of a directory, in order.
pub open spec fn list_entries(
    fs: FsView,
    d: Map<Seq<char>, Ino>,
    names: Seq<Seq<char>>,
    prefix: Seq<char>,
    l: Listing,
    fuel: nat,
) -> Listing
    decreases fuel, names.len() + 1,
{
    if names.len() == 0 {
        l
    } else {
        let l = list_entries(fs, d, names.drop_last(), prefix, l, fuel);
        let child = d[names.last()];
        let path = joined_path(prefix, names.last());
        match fs[child as int] {
            NodeView::Dir(_) => list_dir(
                fs,
                child,
                path,
                Listing { tree: l.tree.insert(path, EntryView::Dir), seen: l.seen },
                fuel,
            ),
            NodeView::File { buf, len } => Listing {
                tree: l.tree.insert(path, EntryView::File(visible(buf, len))),
                seen: l.seen,
            },
        }
    }
}

/// The visible tree reachable from the root.
pub open spec fn listed(fs: FsView) -> TreeView {
    list_dir(
        fs,
        0,
        Seq::empty(),
        Listing { tree: TreeView::empty(), seen: Seq::new(fs.len(), |i: int| false) },
        fs.len(),
    ).tree
}

/// How many inodes are not marked.
pub open spec fn unseen(seen: Seq<bool>) -> nat
    decreases seen.len(),
{
    if seen.len() == 0 {
        0
    } else {
        unseen(seen.drop_last()) + if seen.last() {
            0nat
        } else {
            1nat
        }
    }
}

pub proof fn lemma_unseen_mark(seen: Seq<bool>, i: int)
    requires
        0 <= i < seen.len(),
        !seen[i],
    ensures
        unseen(seen.update(i, true)) + 1 == unseen(seen),
    decreases seen.len(),
{
    let after = seen.update(i, true);
    if i == seen.len() - 1 {
        assert(after.drop_last() =~= seen.drop_last());
    } else {
        assert(after.drop_last() =~= seen.drop_last().update(i, true));
        lemma_unseen_mark(seen.drop_last(), i);
    }
}

pub proof fn lemma_unseen_mono(a: Seq<bool>, b: Seq<bool>)
    requires
        a.len() == b.len(),
        forall|i: int| 0 <= i < a.len() && a[i] ==> b[i],
    ensures
        unseen(b) <= unseen(a) <= a.len(),
    decreases a.len(),
{
    if a.len() > 0 {
        lemma_unseen_mono(a.drop_last(), b.drop_last());
    }
}

/// An inode-level file system image. Inode 0 is the root directory.
#[derive(Debug, PartialEq, Eq)]
pub struct Fs {
    pub nodes: Vec<Node>,
}

impl View for Fs {
    type V = FsView;

    open spec fn view(&self) -> FsView {
        Seq::new(self.nodes@.len(), |i: int| self.nodes@[i]@)
    }
}

impl Clone for Fs {
    fn clone(&self) -> (r: Fs)
        ensures
            r@ == self@,
    {
        let mut nodes: Vec<Node> = Vec::new();
        let mut i: usize = 0;
        while i < self.nodes.len()
            invariant
                i <= self.nodes.len(),
                nodes@.len() == i,
                forall|j: int| 0 <= j < i ==> (#[trigger] nodes@[j])@ == self.nodes@[j]@,
            decreases self.nodes.len() - i,
        {
            nodes.push(self.nodes[i].dup());
            i += 1;
        }
        let r = Fs { nodes };
        assert(r@ =~= self@);
        r
    }
}

impl Fs {
    /// The image of a snapshot.
    pub fn from_tree(tree: &Tree) -> (r: Fs)
        requires
            loadable(tree@),
        ensures
            image(tree@) == Some(r@),
            fs_sound(r@),
            r@[0] is Dir,
            snapshot_fits(tree@),
            r@.len() == tree@.dom().len() + 1,
            canonical(tree@) ==> listed(r@) == tree@ && full_files(r@),
    {
        match Fs::try_from_tree(tree) {
            Some(fs) => fs,
            None => Fs { nodes: Vec::new() },
        }
    }

    /// The image of a snapshot, if every entry of it stands in a directory.
    pub fn try_from_tree(tree: &Tree) -> (r: Option<Fs>)
        ensures
            match r {
                Some(fs) => {
                    &&& image(tree@) == Some(fs@)
                    &&& fs_sound(fs@)
                    &&& fs@[0] is Dir
                    &&& snapshot_fits(tree@)
                    &&& fs@.len() == tree@.dom().len() + 1
                    &&& canonical(tree@) ==> listed(fs@) == tree@ && full_files(fs@)
                },
                None => image(tree@) is None,
            },
    {
        let mut nodes: Vec<Node> = Vec::new();
        nodes.push(Node::Dir(NameMap::new()));
        let mut fs = Fs { nodes };
        assert(fs@ =~= seq![NodeView::Dir(Map::empty())]);
        let n = tree.entries.len();
        let ghost keys = tree.entries.names();
        assert(tree.entries@.dom() =~= tree@.dom());
        assert(keys == ordered(tree@.dom()));
        let mut i: usize = 0;
        while i < n
            invariant
                i <= n,
                n == keys.len(),
                keys == tree.entries.names(),
                keys == ordered(tree@.dom()),
                loaded(keys, tree@, i as int) == Some(fs@),
                fs_sound(fs@),
                fs@[0] is Dir,
                fs@.len() == i + 1,
            decreases n - i,
        {
            let key = tree.entries.key_at(i);
            let entry = tree.entries.val_at(i);
            let (dir_path, name) = split(key.as_slice());
            let dir: Ino = match fs.lookup_chars(dir_path) {
                Some(d) => d,
                None => {
                    proof {
                        lemma_not_loaded(keys, tree@, i + 1, n as int);
                    }
                    return None;
                },
            };
            if !fs.is_dir(dir) {
                proof {
                    lemma_not_loaded(keys, tree@, i + 1, n as int);
                }
                return None;
            }
            let node = match entry {
                Entry::Dir => Node::Dir(NameMap::new()),
                Entry::File(data) => Node::File { buf: copy_bytes(data), len: data.len() as u64 },
            };
            let ghost before = fs@;
            let ino = fs.nodes.len();
            fs.nodes.push(node);
            assert(tree@[key@] == entry@);
            assert(fs@ =~= before.push(node_of(tree@[key@])));
            let ghost pushed = fs@;
            proof {
                lemma_pushed_sound(before, node_of(tree@[key@]));
                lemma_applied_sound(
                    pushed,
                    MicroView::Link { parent: dir, name: name@, ino: ino },
                );
            }
            fs.link(dir, copy_of(name), ino);
            i += 1;
        }
        proof {
            assert(fs.nodes.len() == n + 1);
            assert(keys.to_set() == tree@.dom());
            lemma_ascending_len(keys);
            vstd::seq_lib::seq_to_set_is_finite(keys);
            assert forall|k: Seq<char>| #[trigger] tree@.contains_key(k) implies match tree@[k] {
                EntryView::File(data) => data.len() <= usize::MAX,
                EntryView::Dir => true,
            } by {
                match tree.entries@[k] {
                    Entry::File(data) => {
                        assert(data.len() == data@.len());
                    },
                    Entry::Dir => {},
                }
            }
            if canonical(tree@) {
                law_snapshot_reads_back(tree@);
            }
        }
        Some(fs)
    }

    /// The inode at a path, if any.
    pub fn lookup(&self, path: &str) -> (r: Option<Ino>)
        requires
            fs_sound(self@),
        ensures
            r == found(self@, path@),
            r matches Some(i) ==> i < self@.len(),
    {
        let c = chars_of(path);
        self.lookup_chars(c.as_slice())
    }

    /// The inode at a path, if any.
    pub fn lookup_chars(&self, path: &[char]) -> (r: Option<Ino>)
        requires
            fs_sound(self@),
        ensures
            r == found(self@, path@),
            r matches Some(i) ==> i < self@.len(),
    {
        let mut ino: Ino = 0;
        let mut start: usize = 0;
        assert(path@.take(0) =~= Seq::<char>::empty());
        proof {
            lemma_components_empty(path@.take(0));
        }
        loop
            invariant
                start <= path@.len(),
                fs_sound(self@),
                ino < self@.len(),
                start > 0 ==> path@[start - 1] == '/',
                walk_to(
                    self@,
                    components(path@.take(if start > 0 { start - 1 } else { 0 })),
                ) == Some(ino),
            decreases path@.len() + 1 - start,
        {
            let end = index_of(path, '/', start);
            let ghost c0 = components(path@.take(if start > 0 { start - 1 } else { 0 }));
            proof {
                lemma_components_segment(path@, start as int, end as int);
                assert(c0.push(path@.subrange(start as int, end as int)).drop_last() =~= c0);
            }
            if start < end {
                let name = part(path, start, end);
                match &self.nodes[ino] {
                    Node::Dir(d) => {
                        assert(self@[ino as int] == NodeView::Dir(d@));
                        match d.at(name) {
                            Some(i) => {
                                ino = *i;
                            },
                            None => {
                                proof {
                                    lemma_none_stays(self@, path@, end as int);
                                }
                                return None;
                            },
                        }
                    },
                    Node::File { .. } => {
                        assert(self@[ino as int] is File);
                        proof {
                            lemma_none_stays(self@, path@, end as int);
                        }
                        return None;
                    },
                }
            }
            if end == path.len() {
                assert(path@.take(end as int) =~= path@);
                return Some(ino);
            }
            start = end + 1;
        }
    }

    /// A file's length; none for a directory.
    pub fn file_len(&self, ino: Ino) -> (r: Option<u64>)
        requires
            ino < self@.len(),
        ensures
            match self@[ino as int] {
                NodeView::File { len, .. } => r == Some(len),
                NodeView::Dir(_) => r is None,
            },
    {
        match &self.nodes[ino] {
            Node::File { len, .. } => {
                assert(self@[ino as int] is File);
                Some(*len)
            },
            Node::Dir(_) => {
                assert(self@[ino as int] is Dir);
                None
            },
        }
    }

    /// Whether an inode is a directory.
    pub fn is_dir(&self, ino: Ino) -> (r: bool)
        requires
            ino < self@.len(),
        ensures
            r == (self@[ino as int] is Dir),
    {
        match &self.nodes[ino] {
            Node::File { .. } => false,
            Node::Dir(_) => true,
        }
    }

    fn link(&mut self, dir: Ino, name: Vec<char>, ino: Ino)
        requires
            dir < old(self)@.len(),
        ensures
            final(self)@ == linked(old(self)@, dir, name@, ino),
    {
        let ghost before = self@;
        match &mut self.nodes[dir] {
            Node::Dir(d) => {
                d.put(name, ino);
            },
            Node::File { .. } => {},
        }
        assert(self@ =~= linked(before, dir, name@, ino));
    }

    fn unlink(&mut self, dir: Ino, name: &[char])
        requires
            dir < old(self)@.len(),
        ensures
            final(self)@ == unlinked(old(self)@, dir, name@),
    {
        let ghost before = self@;
        match &mut self.nodes[dir] {
            Node::Dir(d) => {
                d.remove(name);
            },
            Node::File { .. } => {},
        }
        assert(self@ =~= unlinked(before, dir, name@));
    }

    fn leads(&self, dir: Ino, name: &[char], ino: Ino) -> (r: bool)
        requires
            dir < self@.len(),
        ensures
            r == leads_to(self@, dir, name@, ino),
    {
        match &self.nodes[dir] {
            Node::Dir(d) => {
                assert(self@[dir as int] == NodeView::Dir(d@));
                match d.at(name) {
                    Some(i) => *i == ino,
                    None => false,
                }
            },
            Node::File { .. } => {
                assert(self@[dir as int] is File);
                false
            },
        }
    }

    /// Performs one micro-op.
    pub fn apply(&mut self, m: &Micro)
        requires
            fs_sound(old(self)@),
            micro_sound(m@, old(self)@.len()),
        ensures
            final(self)@ == applied(old(self)@, m@),
            fs_sound(final(self)@),
            final(self)@.len() == old(self)@.len(),
    {
        let ghost before = self@;
        proof {
            lemma_applied_sound(self@, m@);
        }
        match m {
            Micro::Link { parent, name, ino } => {
                self.link(*parent, copy_of(name.as_slice()), *ino);
            },
            Micro::Unlink { parent, name } => {
                self.unlink(*parent, name.as_slice());
            },
            Micro::Rename { from, from_name, to, to_name, ino, .. } => {
                if self.leads(*from, from_name.as_slice(), *ino) {
                    self.unlink(*from, from_name.as_slice());
                }
                self.link(*to, copy_of(to_name.as_slice()), *ino);
            },
            Micro::Write { ino, offset, data } => {
                match &mut self.nodes[*ino] {
                    Node::File { buf, .. } => {
                        write_at(buf, *offset as usize, data.as_slice());
                    },
                    Node::Dir(_) => {},
                }
                assert(self@ =~= applied(before, m@));
            },
            Micro::SetLen { ino, len: new, keep_tail } => {
                match &mut self.nodes[*ino] {
                    Node::File { buf, len } => {
                        if *new < *len || !*keep_tail {
                            let cut: u64 = if *new < *len {
                                *new
                            } else {
                                *len
                            };
                            if cut < buf.len() as u64 {
                                buf.truncate(cut as usize);
                            }
                        }
                        *len = *new;
                    },
                    Node::Dir(_) => {},
                }
                assert(self@ =~= applied(before, m@));
            },
        }
    }

    /// The visible tree reachable from the root.
    pub fn to_tree(&self) -> (r: Tree)
        requires
            fs_sound(self@),
        ensures
            r@ == listed(self@),
    {
        let mut tree = Tree::new();
        let n = self.nodes.len();
        let mut seen: Vec<bool> = Vec::new();
        let mut i: usize = 0;
        while i < n
            invariant
                i <= n,
                seen@ == Seq::new(i as nat, |j: int| false),
            decreases n - i,
        {
            seen.push(false);
            assert(seen@ =~= Seq::new((i + 1) as nat, |j: int| false));
            i += 1;
        }
        proof {
            lemma_unseen_mono(seen@, seen@);
        }
        assert(seen@ =~= Seq::new(self@.len(), |j: int| false));
        let root: Vec<char> = Vec::new();
        assert(root@ =~= Seq::<char>::empty());
        self.walk(0, root.as_slice(), &mut tree, &mut seen, Ghost(self@.len()));
        tree
    }

    fn walk(
        &self,
        ino: Ino,
        prefix: &[char],
        tree: &mut Tree,
        seen: &mut Vec<bool>,
        Ghost(fuel): Ghost<nat>,
    )
        requires
            fs_sound(self@),
            ino < self@.len(),
            old(seen)@.len() == self@.len(),
            unseen(old(seen)@) <= fuel,
        ensures
            (Listing { tree: final(tree)@, seen: final(seen)@ }) == list_dir(
                self@,
                ino,
                prefix@,
                (Listing { tree: old(tree)@, seen: old(seen)@ }),
                fuel,
            ),
            final(seen)@.len() == old(seen)@.len(),
            forall|i: int|
                0 <= i < old(seen)@.len() && old(seen)@[i] ==> #[trigger] final(seen)@[i],
        decreases fuel,
    {
        if seen[ino] {
            return;
        }
        let ghost l0 = Listing { tree: tree@, seen: seen@ };
        proof {
            lemma_unseen_mark(seen@, ino as int);
        }
        seen.set(ino, true);
        let ghost marked = Listing { tree: tree@, seen: seen@ };
        match &self.nodes[ino] {
            Node::File { .. } => {
                assert(self@[ino as int] is File);
            },
            Node::Dir(d) => {
                assert(self@[ino as int] == NodeView::Dir(d@));
                let n = d.len();
                let ghost names = d.names();
                let mut i: usize = 0;
                while i < n
                    invariant
                        i <= n,
                        n == names.len(),
                        names == d.names(),
                        names == ordered(d@.dom()),
                        fs_sound(self@),
                        ino < self@.len(),
                        self@[ino as int] == NodeView::Dir(d@),
                        fuel > 0,
                        seen@.len() == self@.len(),
                        marked.seen.len() == self@.len(),
                        unseen(marked.seen) <= fuel - 1,
                        forall|j: int|
                            0 <= j < marked.seen.len() && marked.seen[j] ==> #[trigger] seen@[j],
                        (Listing { tree: tree@, seen: seen@ }) == list_entries(
                            self@,
                            d@,
                            names.take(i as int),
                            prefix@,
                            marked,
                            (fuel - 1) as nat,
                        ),
                    decreases n - i,
                {
                    let name = d.key_at(i);
                    let child: Ino = *d.val_at(i);
                    let path = join(prefix, name.as_slice());
                    proof {
                        assert(names.take(i + 1).drop_last() =~= names.take(i as int));
                        assert(names.take(i + 1).last() == names[i as int]);
                        lemma_child_in_range(self@, ino, d@, name@);
                        lemma_unseen_mono(marked.seen, seen@);
                    }
                    match &self.nodes[child] {
                        Node::Dir(_) => {
                            assert(self@[child as int] is Dir);
                            tree.put(copy_of(path.as_slice()), Entry::Dir);
                            self.walk(
                                child,
                                path.as_slice(),
                                tree,
                                seen,
                                Ghost((fuel - 1) as nat),
                            );
                        },
                        Node::File { buf, len } => {
                            assert(self@[child as int] == NodeView::File { buf: buf@, len: *len });
                            let data = shown_bytes(buf, *len);
                            tree.put(path, Entry::File(data));
                        },
                    }
                    i += 1;
                }
                assert(names.take(i as int) =~= names);
            },
        }
    }
}

/// A snapshot that fails at some entry fails as a whole.
proof fn lemma_not_loaded(keys: Seq<Seq<char>>, t: TreeView, i: int, n: int)
    requires
        0 <= i <= n,
        loaded(keys, t, i) is None,
    ensures
        loaded(keys, t, n) is None,
    decreases n - i,
{
    if i < n {
        lemma_not_loaded(keys, t, i, n - 1);
    }
}

/// Where the names up to an index lead nowhere, the whole path does not either.
proof fn lemma_none_stays(fs: FsView, path: Seq<char>, end: int)
    requires
        0 <= end <= path.len(),
        end < path.len() ==> path[end] == '/',
        walk_to(fs, components(path.take(end))) is None,
    ensures
        found(fs, path) is None,
    decreases path.len() - end,
{
    if end < path.len() {
        let next = index_from(path, '/', end + 1);
        lemma_index_from(path, '/', end + 1);
        lemma_components_segment(path, end + 1, next);
        let c = components(path.take(end));
        assert(c.push(path.subrange(end + 1, next)).drop_last() =~= c);
        lemma_none_stays(fs, path, next);
    } else {
        assert(path.take(end) =~= path);
    }
}

/// Puts `data` into `buf` at `offset`, zero-filling up to there.
fn write_at(buf: &mut Vec<u8>, offset: usize, data: &[u8])
    requires
        offset + data@.len() <= usize::MAX,
    ensures
        final(buf)@ == overwritten(old(buf)@, offset as int, data@),
{
    let end: usize = offset + data.len();
    let ghost before = buf@;
    if buf.len() < end {
        buf.resize(end, 0u8);
    }
    let ghost grown = buf@;
    let mut i: usize = 0;
    while i < data.len()
        invariant
            i <= data.len(),
            end == offset + data@.len(),
            end <= grown.len(),
            buf@.len() == grown.len(),
            forall|j: int|
                0 <= j < grown.len() ==> #[trigger] buf@[j] == (if offset <= j < offset + i {
                    data@[j - offset]
                } else {
                    grown[j]
                }),
        decreases data.len() - i,
    {
        buf.set(offset + i, data[i]);
        i += 1;
    }
    assert(buf@ =~= overwritten(before, offset as int, data@));
}

/// What a file shows.
fn shown_bytes(buf: &Vec<u8>, len: u64) -> (r: Vec<u8>)
    requires
        len <= usize::MAX,
    ensures
        r@ == visible(buf@, len),
{
    let mut r = copy_bytes(buf);
    r.resize(len as usize, 0u8);
    assert(r@ =~= visible(buf@, len));
    r
}

} // verus!
