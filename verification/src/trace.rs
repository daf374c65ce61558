//! The trace format: an initial directory snapshot plus the ordered list of
//! file-system operations a workload performed on it.
//!
//! Paths are relative to the traced root, `/`-separated; the empty path is the
//! root itself. On disk a trace is a *bundle* directory: `initial/` (the
//! snapshot) and `trace.jsonl` (one [`Op`] per line).

use crate::names::{lemma_to_set_push, ordered, NameMap};
use crate::paths::{join, joined_path};
use crate::text::{
    cat, chars_of, copy_of, debug_quoted, decimal, decimal_of, quoted, same, same_str, text_of,
    trim_end, trimmed_end,
};
use vstd::prelude::*;

verus! {

/// One file-system operation, as the workload issued it.
#[derive(Debug, PartialEq, Eq)]
pub enum Op {
    /// Create a new, empty regular file.
    Create { path: String },
    /// Create a directory.
    Mkdir { path: String },
    /// Write `data` at `offset` (appends are writes at the old end of file).
    Write { path: String, offset: u64, data: Vec<u8> },
    /// Set a file's length (`truncate`/`ftruncate`/`set_len`).
    Truncate { path: String, len: u64 },
    /// Atomically rename `from` to `to`, replacing `to` if it exists.
    Rename { from: String, to: String },
    /// Remove a file's directory entry.
    Unlink { path: String },
    /// Remove an empty directory.
    Rmdir { path: String },
    /// `fsync`/`fdatasync` a file or a directory.
    Fsync { path: String },
    /// `sync()`: flush everything.
    Sync,
    /// Not a disk operation: something the workload told the outside world
    /// (by default, its stdout). Checkers see the marks emitted before the
    /// crash, which is how they know what was acknowledged as durable.
    Mark { text: String },
}

/// An operation, over mathematical values.
pub enum OpView {
    Create { path: Seq<char> },
    Mkdir { path: Seq<char> },
    Write { path: Seq<char>, offset: u64, data: Seq<u8> },
    Truncate { path: Seq<char>, len: u64 },
    Rename { from: Seq<char>, to: Seq<char> },
    Unlink { path: Seq<char> },
    Rmdir { path: Seq<char> },
    Fsync { path: Seq<char> },
    Sync,
    Mark { text: Seq<char> },
}

impl View for Op {
    type V = OpView;

    open spec fn view(&self) -> OpView {
        match *self {
            Op::Create { path } => OpView::Create { path: path@ },
            Op::Mkdir { path } => OpView::Mkdir { path: path@ },
            Op::Write { path, offset, data } => OpView::Write { path: path@, offset, data: data@ },
            Op::Truncate { path, len } => OpView::Truncate { path: path@, len },
            Op::Rename { from, to } => OpView::Rename { from: from@, to: to@ },
            Op::Unlink { path } => OpView::Unlink { path: path@ },
            Op::Rmdir { path } => OpView::Rmdir { path: path@ },
            Op::Fsync { path } => OpView::Fsync { path: path@ },
            Op::Sync => OpView::Sync,
            Op::Mark { text } => OpView::Mark { text: text@ },
        }
    }
}

/// What a list of operations says.
pub open spec fn ops_view(ops: Seq<Op>) -> Seq<OpView> {
    Seq::new(ops.len(), |i: int| ops[i]@)
}

/// The path an operation is about, if any (the source path for renames).
pub open spec fn op_path(op: OpView) -> Option<Seq<char>> {
    match op {
        OpView::Create { path } => Some(path),
        OpView::Mkdir { path } => Some(path),
        OpView::Write { path, .. } => Some(path),
        OpView::Truncate { path, .. } => Some(path),
        OpView::Rename { from, .. } => Some(from),
        OpView::Unlink { path } => Some(path),
        OpView::Rmdir { path } => Some(path),
        OpView::Fsync { path } => Some(path),
        OpView::Sync => None,
        OpView::Mark { .. } => None,
    }
}

/// A path as it is shown: a dot for the root.
pub open spec fn shown(path: Seq<char>) -> Seq<char> {
    if path.len() == 0 {
        "."@
    } else {
        path
    }
}

/// A write ends at an offset that fits 64 bits.
pub open spec fn op_ends(op: OpView) -> bool {
    op matches OpView::Write { offset, data, .. } ==> offset + data.len() <= u64::MAX
}

/// The bytes that an operation names can be held in memory.
pub open spec fn op_fits(op: OpView) -> bool {
    &&& op matches OpView::Write { offset, data, .. } ==> offset + data.len() <= usize::MAX
    &&& op matches OpView::Truncate { len, .. } ==> len <= usize::MAX
}

/// The readable description of an operation.
pub open spec fn described(op: OpView) -> Seq<char> {
    match op {
        OpView::Create { path } => "create "@ + shown(path),
        OpView::Mkdir { path } => "mkdir "@ + shown(path),
        OpView::Write { path, offset, data } => "write "@ + shown(path) + " ["@ + decimal(
            offset as nat,
        ) + ".."@ + decimal((offset + data.len()) as nat) + ")"@,
        OpView::Truncate { path, len } => "truncate "@ + shown(path) + " to "@ + decimal(
            len as nat,
        ),
        OpView::Rename { from, to } => "rename "@ + shown(from) + " -> "@ + shown(to),
        OpView::Unlink { path } => "unlink "@ + shown(path),
        OpView::Rmdir { path } => "rmdir "@ + shown(path),
        OpView::Fsync { path } => "fsync "@ + shown(path),
        OpView::Sync => "sync"@,
        OpView::Mark { text } => "mark "@ + debug_quoted(trim_end(text)),
    }
}

/// The readable description of a mark whose text is quoted already.
pub fn describe_mark(quoted: &str) -> (r: String)
    ensures
        r@ == "mark "@ + quoted@,
{
    cat("mark ".to_owned(), quoted)
}

/// A path as it is shown.
pub fn show(path: &str) -> (r: &str)
    ensures
        r@ == shown(path@),
{
    if path.is_empty() {
        "."
    } else {
        path
    }
}

pub(crate) fn copy_bytes(v: &Vec<u8>) -> (r: Vec<u8>)
    ensures
        r@ == v@,
{
    let r = v.clone();
    assert(r@ =~= v@);
    r
}

/// The bytes from one index up to another.
pub(crate) fn part_of(v: &Vec<u8>, from: usize, to: usize) -> (r: Vec<u8>)
    requires
        from <= to <= v@.len(),
    ensures
        r@ == v@.subrange(from as int, to as int),
{
    let mut r: Vec<u8> = Vec::new();
    let mut i: usize = from;
    while i < to
        invariant
            from <= i <= to <= v@.len(),
            r@ == v@.subrange(from as int, i as int),
        decreases to - i,
    {
        r.push(v[i]);
        assert(v@.subrange(from as int, i + 1) =~= v@.subrange(from as int, i as int).push(
            v@[i as int],
        ));
        i += 1;
    }
    r
}

impl Clone for Op {
    fn clone(&self) -> (r: Op)
        ensures
            r@ == self@,
    {
        match self {
            Op::Create { path } => Op::Create { path: path.clone() },
            Op::Mkdir { path } => Op::Mkdir { path: path.clone() },
            Op::Write { path, offset, data } => Op::Write {
                path: path.clone(),
                offset: *offset,
                data: copy_bytes(data),
            },
            Op::Truncate { path, len } => Op::Truncate { path: path.clone(), len: *len },
            Op::Rename { from, to } => Op::Rename { from: from.clone(), to: to.clone() },
            Op::Unlink { path } => Op::Unlink { path: path.clone() },
            Op::Rmdir { path } => Op::Rmdir { path: path.clone() },
            Op::Fsync { path } => Op::Fsync { path: path.clone() },
            Op::Sync => Op::Sync,
            Op::Mark { text } => Op::Mark { text: text.clone() },
        }
    }
}

impl Op {
    /// The path this op is about, if any (the source path for renames).
    pub fn path(&self) -> (r: Option<&str>)
        ensures
            match r {
                Some(s) => op_path(self@) == Some(s@),
                None => op_path(self@) is None,
            },
    {
        match self {
            Op::Create { path } => Some(path.as_str()),
            Op::Mkdir { path } => Some(path.as_str()),
            Op::Write { path, .. } => Some(path.as_str()),
            Op::Truncate { path, .. } => Some(path.as_str()),
            Op::Rename { from, .. } => Some(from.as_str()),
            Op::Unlink { path } => Some(path.as_str()),
            Op::Rmdir { path } => Some(path.as_str()),
            Op::Fsync { path } => Some(path.as_str()),
            Op::Sync => None,
            Op::Mark { .. } => None,
        }
    }

    /// The readable description of the operation.
    pub fn describe(&self) -> (r: String)
        requires
            op_ends(self@),
        ensures
            r@ == described(self@),
    {
        match self {
            Op::Create { path } => cat("create ".to_owned(), show(path.as_str())),
            Op::Mkdir { path } => cat("mkdir ".to_owned(), show(path.as_str())),
            Op::Write { path, offset, data } => {
                let end: u64 = *offset + data.len() as u64;
                let s = cat("write ".to_owned(), show(path.as_str()));
                let s = cat(s, " [");
                let s = cat(s, decimal_of(*offset).as_str());
                let s = cat(s, "..");
                let s = cat(s, decimal_of(end).as_str());
                cat(s, ")")
            },
            Op::Truncate { path, len } => {
                let s = cat("truncate ".to_owned(), show(path.as_str()));
                let s = cat(s, " to ");
                cat(s, decimal_of(*len).as_str())
            },
            Op::Rename { from, to } => {
                let s = cat("rename ".to_owned(), show(from.as_str()));
                let s = cat(s, " -> ");
                cat(s, show(to.as_str()))
            },
            Op::Unlink { path } => cat("unlink ".to_owned(), show(path.as_str())),
            Op::Rmdir { path } => cat("rmdir ".to_owned(), show(path.as_str())),
            Op::Fsync { path } => cat("fsync ".to_owned(), show(path.as_str())),
            Op::Sync => "sync".to_owned(),
            Op::Mark { text } => {
                let c = chars_of(text.as_str());
                let t = text_of(trimmed_end(c.as_slice()));
                describe_mark(quoted(t.as_str()).as_str())
            },
        }
    }
}

/// What stands at a path.
#[derive(Debug, PartialEq, Eq)]
pub enum Entry {
    Dir,
    File(Vec<u8>),
}

/// What stands at a path, over mathematical values.
pub enum EntryView {
    Dir,
    File(Seq<u8>),
}

impl View for Entry {
    type V = EntryView;

    open spec fn view(&self) -> EntryView {
        match *self {
            Entry::Dir => EntryView::Dir,
            Entry::File(data) => EntryView::File(data@),
        }
    }
}

impl Clone for Entry {
    fn clone(&self) -> (r: Entry)
        ensures
            r@ == self@,
    {
        match self {
            Entry::Dir => Entry::Dir,
            Entry::File(data) => Entry::File(copy_bytes(data)),
        }
    }
}

/// The content of a directory: what stands at each path below it.
pub type TreeView = Map<Seq<char>, EntryView>;

/// A directory tree held in memory: relative path -> entry.
#[derive(Debug, PartialEq, Eq)]
pub struct Tree {
    pub entries: NameMap<Entry>,
}

impl View for Tree {
    type V = TreeView;

    open spec fn view(&self) -> TreeView {
        self.entries@.map_values(|e: Entry| e@)
    }
}

impl Tree {
    /// The empty tree.
    pub fn new() -> (r: Tree)
        ensures
            r@ == TreeView::empty(),
    {
        let r = Tree { entries: NameMap::new() };
        assert(r@ =~= TreeView::empty());
        r
    }

    /// Puts an entry at a path, in place of what stood there.
    pub fn put(&mut self, path: Vec<char>, e: Entry)
        ensures
            final(self)@ == old(self)@.insert(path@, e@),
    {
        let ghost before = self@;
        self.entries.put(path, e);
        assert(self@ =~= before.insert(path@, e@));
    }

    /// Whether two trees hold the same entries.
    pub fn same(&self, other: &Tree) -> (r: bool)
        ensures
            r == (self@ == other@),
    {
        let n = self.entries.len();
        let m = other.entries.len();
        if n != m {
            proof {
                if self@ == other@ {
                    assert(self.entries@.dom() =~= self@.dom());
                    assert(other.entries@.dom() =~= other@.dom());
                }
            }
            return false;
        }
        let mut i: usize = 0;
        while i < n
            invariant
                i <= n,
                n == self.entries.names().len(),
                n == other.entries.names().len(),
                self.entries.names() == ordered(self.entries@.dom()),
                other.entries.names() == ordered(other.entries@.dom()),
                forall|k: Seq<char>|
                    self.entries@.contains_key(k) == self.entries.names().contains(k),
                forall|k: Seq<char>|
                    other.entries@.contains_key(k) == other.entries.names().contains(k),
                forall|j: int|
                    0 <= j < i ==> #[trigger] self.entries.names()[j]
                        == other.entries.names()[j],
                forall|j: int|
                    0 <= j < i ==> (#[trigger] self.entries@[self.entries.names()[j]])@
                        == other.entries@[self.entries.names()[j]]@,
            decreases n - i,
        {
            let a = self.entries.key_at(i);
            let b = other.entries.key_at(i);
            let x = self.entries.val_at(i);
            let y = other.entries.val_at(i);
            let same_key = same(a.as_slice(), b.as_slice());
            if !same_key {
                proof {
                    if self@ == other@ {
                        assert(self.entries@.dom() =~= self@.dom());
                        assert(other.entries@.dom() =~= other@.dom());
                        assert(false);
                    }
                }
                return false;
            }
            let same_entry = match (x, y) {
                (Entry::Dir, Entry::Dir) => true,
                (Entry::File(p), Entry::File(q)) => same_bytes(p.as_slice(), q.as_slice()),
                _ => false,
            };
            if !same_entry {
                proof {
                    assert(self@[a@] == x@);
                    assert(other@[a@] == y@);
                }
                return false;
            }
            i += 1;
        }
        proof {
            assert(self.entries.names() =~= other.entries.names());
            assert forall|k: Seq<char>| self@.contains_key(k) implies self@[k] == other@[k] by {
                let j = choose|j: int|
                    0 <= j < self.entries.names().len() && self.entries.names()[j] == k;
                assert(self.entries@[self.entries.names()[j]]@
                    == other.entries@[self.entries.names()[j]]@);
            }
            assert(self@ =~= other@);
        }
        true
    }
}

/// Whether two byte sequences are the same.
pub fn same_bytes(a: &[u8], b: &[u8]) -> (r: bool)
    ensures
        r == (a@ == b@),
{
    if a.len() != b.len() {
        return false;
    }
    let mut i: usize = 0;
    while i < a.len()
        invariant
            i <= a.len(),
            a.len() == b.len(),
            forall|j: int| 0 <= j < i ==> a@[j] == b@[j],
        decreases a.len() - i,
    {
        if a[i] != b[i] {
            assert(a@[i as int] != b@[i as int]);
            return false;
        }
        i += 1;
    }
    assert(a@ =~= b@);
    true
}

impl Default for Tree {
    fn default() -> (r: Tree)
        ensures
            r@ == TreeView::empty(),
    {
        Tree::new()
    }
}

impl Clone for Tree {
    fn clone(&self) -> (r: Tree)
        ensures
            r@ == self@,
    {
        let mut r = Tree::new();
        let n = self.entries.len();
        let mut i: usize = 0;
        let ghost names = self.entries.names();
        while i < n
            invariant
                i <= n,
                names == self.entries.names(),
                n == names.len(),
                r@.dom() =~= names.take(i as int).to_set(),
                forall|k: Seq<char>| #[trigger] r@.contains_key(k) ==> r@[k] == self@[k],
            decreases n - i,
        {
            let e = self.entries.val_at(i).clone();
            r.put(copy_of(self.entries.key_at(i).as_slice()), e);
            proof {
                assert(names.take(i + 1) =~= names.take(i as int).push(names[i as int]));
                lemma_to_set_push(names.take(i as int), names[i as int]);
            }
            i += 1;
        }
        assert(names.take(i as int) =~= names);
        assert(r@ =~= self@);
        r
    }
}

/// A recorded workload: where it started and what it did.
#[derive(Debug, PartialEq, Eq)]
pub struct Trace {
    pub initial: Tree,
    pub ops: Vec<Op>,
}

/// A recorded workload, over mathematical values.
pub struct TraceView {
    pub initial: TreeView,
    pub ops: Seq<OpView>,
}

impl View for Trace {
    type V = TraceView;

    open spec fn view(&self) -> TraceView {
        TraceView { initial: self.initial@, ops: ops_view(self.ops@) }
    }
}

impl Default for Trace {
    fn default() -> (r: Trace)
        ensures
            r@.initial == TreeView::empty(),
            r@.ops == Seq::<OpView>::empty(),
    {
        let r = Trace { initial: Tree::new(), ops: Vec::new() };
        assert(r@.ops =~= Seq::<OpView>::empty());
        r
    }
}

pub(crate) fn clone_ops(ops: &Vec<Op>) -> (r: Vec<Op>)
    ensures
        ops_view(r@) == ops_view(ops@),
{
    let mut r: Vec<Op> = Vec::new();
    let mut i: usize = 0;
    while i < ops.len()
        invariant
            i <= ops.len(),
            ops_view(r@) == ops_view(ops@).take(i as int),
        decreases ops.len() - i,
    {
        let ghost before = ops_view(r@);
        r.push(ops[i].clone());
        assert(ops_view(r@) =~= before.push(ops@[i as int]@));
        assert(ops_view(ops@).take(i + 1) =~= ops_view(ops@).take(i as int).push(
            ops@[i as int]@,
        ));
        i += 1;
    }
    assert(ops_view(ops@).take(i as int) =~= ops_view(ops@));
    r
}

impl Clone for Trace {
    fn clone(&self) -> (r: Trace)
        ensures
            r@ == self@,
    {
        Trace { initial: self.initial.clone(), ops: clone_ops(&self.ops) }
    }
}

/// What was found in a directory: a name below `prefix`.
#[derive(Debug, PartialEq, Eq)]
pub struct Found {
    pub prefix: String,
    pub name: String,
    pub what: What,
}

/// What a name stands for.
#[derive(Debug, PartialEq, Eq)]
pub enum What {
    Dir,
    File(Vec<u8>),
    /// A symbolic link, a socket and the like.
    Other,
}

/// The tree of the first `n` things found: regular files and directories; the
/// rest is skipped.
pub open spec fn tree_upto(found: Seq<Found>, n: int) -> TreeView
    decreases n,
{
    if n <= 0 {
        TreeView::empty()
    } else {
        let before = tree_upto(found, n - 1);
        let x = found[n - 1];
        let path = joined_path(x.prefix@, x.name@);
        match x.what {
            What::Dir => before.insert(path, EntryView::Dir),
            What::File(data) => before.insert(path, EntryView::File(data@)),
            What::Other => before,
        }
    }
}

impl Found {
    /// The path of what was found.
    pub fn path(&self) -> (r: String)
        ensures
            r@ == joined_path(self.prefix@, self.name@),
    {
        let prefix = chars_of(self.prefix.as_str());
        let name = chars_of(self.name.as_str());
        text_of(join(prefix.as_slice(), name.as_slice()).as_slice())
    }
}

impl Tree {
    /// The snapshot of a directory in which this was found (regular files and
    /// directories; symlinks are skipped).
    pub fn load(found: &Vec<Found>) -> (r: Tree)
        ensures
            r@ == tree_upto(found@, found@.len() as int),
    {
        let mut tree = Tree::new();
        let mut i: usize = 0;
        while i < found.len()
            invariant
                i <= found@.len(),
                tree@ == tree_upto(found@, i as int),
            decreases found@.len() - i,
        {
            let x = &found[i];
            let path = chars_of(x.path().as_str());
            match &x.what {
                What::Dir => {
                    tree.put(path, Entry::Dir);
                },
                What::File(data) => {
                    tree.put(path, Entry::File(copy_bytes(data)));
                },
                What::Other => {},
            }
            i += 1;
        }
        tree
    }
}

fn same_op(a: &Op, b: &Op) -> (r: bool)
    ensures
        r == (a@ == b@),
{
    match (a, b) {
        (Op::Create { path: p }, Op::Create { path: q }) => same_str(p.as_str(), q.as_str()),
        (Op::Mkdir { path: p }, Op::Mkdir { path: q }) => same_str(p.as_str(), q.as_str()),
        (
            Op::Write { path: p, offset: i, data: d },
            Op::Write { path: q, offset: j, data: e },
        ) => same_str(p.as_str(), q.as_str()) && *i == *j && same_bytes(
            d.as_slice(),
            e.as_slice(),
        ),
        (Op::Truncate { path: p, len: i }, Op::Truncate { path: q, len: j }) => same_str(
            p.as_str(),
            q.as_str(),
        ) && *i == *j,
        (Op::Rename { from: p, to: s }, Op::Rename { from: q, to: t }) => same_str(
            p.as_str(),
            q.as_str(),
        ) && same_str(s.as_str(), t.as_str()),
        (Op::Unlink { path: p }, Op::Unlink { path: q }) => same_str(p.as_str(), q.as_str()),
        (Op::Rmdir { path: p }, Op::Rmdir { path: q }) => same_str(p.as_str(), q.as_str()),
        (Op::Fsync { path: p }, Op::Fsync { path: q }) => same_str(p.as_str(), q.as_str()),
        (Op::Sync, Op::Sync) => true,
        (Op::Mark { text: p }, Op::Mark { text: q }) => same_str(p.as_str(), q.as_str()),
        _ => false,
    }
}

impl Trace {
    /// Whether two traces start alike and do the same.
    pub fn same(&self, other: &Trace) -> (r: bool)
        ensures
            r == (self@ == other@),
    {
        if self.ops.len() != other.ops.len() {
            assert(self@.ops.len() != other@.ops.len());
            return false;
        }
        let mut i: usize = 0;
        while i < self.ops.len()
            invariant
                i <= self.ops@.len(),
                self.ops@.len() == other.ops@.len(),
                forall|k: int| 0 <= k < i ==> (#[trigger] self.ops@[k])@ == other.ops@[k]@,
            decreases self.ops@.len() - i,
        {
            if !same_op(&self.ops[i], &other.ops[i]) {
                assert(self@.ops[i as int] != other@.ops[i as int]);
                return false;
            }
            i += 1;
        }
        assert(self@.ops =~= other@.ops);
        self.initial.same(&other.initial)
    }
}

} // verus!
