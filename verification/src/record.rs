//! In-process recording: what a [`Recorder`] logs for the file operations that
//! are performed through it. Works on every OS and needs no tracer, which makes
//! it the natural harness for Rust storage code.

use crate::text::{cat, chars_of, join_all, joined, text_of, views};
use crate::trace::{copy_bytes, ops_view, Op, OpView, Trace, TraceView, Tree};
use vstd::prelude::*;

verus! {

/// One component of a path.
#[derive(Debug, PartialEq, Eq)]
pub enum Part {
    /// A name.
    Normal(String),
    /// `.`
    CurDir,
    /// A root, a prefix or `..`.
    Other,
}

/// One component of a path, over mathematical values.
pub enum PartView {
    Normal(Seq<char>),
    CurDir,
    Other,
}

impl View for Part {
    type V = PartView;

    open spec fn view(&self) -> PartView {
        match *self {
            Part::Normal(s) => PartView::Normal(s@),
            Part::CurDir => PartView::CurDir,
            Part::Other => PartView::Other,
        }
    }
}

/// What a list of components says.
pub open spec fn parts_view(v: Seq<Part>) -> Seq<PartView> {
    Seq::new(v.len(), |i: int| v[i]@)
}

/// A path that stays below the root.
pub open spec fn stays_below(parts: Seq<PartView>) -> bool {
    forall|i: int| 0 <= i < parts.len() ==> !((#[trigger] parts[i]) is Other)
}

/// The names among the first `n` components.
pub open spec fn names_upto(parts: Seq<PartView>, n: int) -> Seq<Seq<char>>
    decreases n,
{
    if n <= 0 {
        Seq::empty()
    } else {
        let before = names_upto(parts, n - 1);
        match parts[n - 1] {
            PartView::Normal(s) => before.push(s),
            _ => before,
        }
    }
}

/// The path below the root, `/`-separated; or, where it does not stay below the
/// root, what to say of it. `shown` is the path as it was given.
pub fn rel(parts: &Vec<Part>, shown: &str) -> (r: Result<String, String>)
    ensures
        match r {
            Ok(path) => stays_below(parts_view(parts@)) && path@ == joined(
                names_upto(parts_view(parts@), parts@.len() as int),
                "/"@,
            ),
            Err(e) => !stays_below(parts_view(parts@)) && e@ == shown@
                + ": paths must be relative to the recorder root"@,
        },
{
    let ghost all = parts_view(parts@);
    let mut names: Vec<Vec<char>> = Vec::new();
    let mut i: usize = 0;
    assert(views(names@) =~= Seq::<Seq<char>>::empty());
    while i < parts.len()
        invariant
            i <= parts@.len(),
            all == parts_view(parts@),
            views(names@) == names_upto(all, i as int),
            forall|k: int| 0 <= k < i ==> !((#[trigger] all[k]) is Other),
        decreases parts@.len() - i,
    {
        assert(all[i as int] == parts@[i as int]@);
        match &parts[i] {
            Part::Normal(s) => {
                let ghost before = views(names@);
                let c = chars_of(s.as_str());
                names.push(c);
                assert(views(names@) =~= before.push(s@));
            },
            Part::CurDir => {},
            Part::Other => {
                assert(all[i as int] is Other);
                return Err(
                    cat(shown.to_owned(), ": paths must be relative to the recorder root"),
                );
            },
        }
        i += 1;
    }
    let sep = chars_of("/");
    Ok(text_of(join_all(names.as_slice(), sep.as_slice()).as_slice()))
}

/// Records file operations under a root directory.
///
/// The operations themselves are performed by the caller; paths are relative to
/// the root, as [`rel`] gives them.
#[derive(Debug, PartialEq, Eq)]
pub struct Recorder {
    initial: Tree,
    ops: Vec<Op>,
}

impl View for Recorder {
    type V = TraceView;

    closed spec fn view(&self) -> TraceView {
        TraceView { initial: self.initial@, ops: ops_view(self.ops@) }
    }
}

/// A recording with one more op.
pub open spec fn logged(t: TraceView, op: OpView) -> TraceView {
    TraceView { initial: t.initial, ops: t.ops.push(op) }
}

/// A file opened through a [`Recorder`]. Writes, syncs and resizes are logged.
///
/// The recorded path is the one it was opened under; renaming a file and then
/// writing through an old handle is not tracked.
#[derive(Debug, PartialEq, Eq)]
pub struct RecFile {
    path: String,
    pos: u64,
    len: u64,
    append: bool,
}

/// A recorded file, over mathematical values.
pub struct RecFileView {
    pub path: Seq<char>,
    pub pos: u64,
    pub len: u64,
    pub append: bool,
}

impl View for RecFile {
    type V = RecFileView;

    closed spec fn view(&self) -> RecFileView {
        RecFileView { path: self.path@, pos: self.pos, len: self.len, append: self.append }
    }
}

/// Where the next write goes: to the end of a file that is appended to.
pub open spec fn next_offset(f: RecFileView) -> u64 {
    if f.append {
        f.len
    } else {
        f.pos
    }
}

impl Recorder {
    /// Starts recording on a directory with this content.
    pub fn new(initial: Tree) -> (r: Recorder)
        ensures
            r@.initial == initial@,
            r@.ops == Seq::<OpView>::empty(),
    {
        let r = Recorder { initial, ops: Vec::new() };
        assert(r@.ops =~= Seq::<OpView>::empty());
        r
    }

    /// Logs an op.
    pub fn log(&mut self, op: Op)
        ensures
            final(self)@ == logged(old(self)@, op@),
    {
        let ghost before = self@;
        self.ops.push(op);
        assert(self@.ops =~= before.ops.push(op@));
    }

    /// A file was created or truncated, and opened for writing. `existing` is the
    /// length it had, if it existed.
    pub fn create(&mut self, path: &str, existing: Option<u64>) -> (r: RecFile)
        ensures
            r@ == (RecFileView { path: path@, pos: 0, len: 0, append: false }),
            final(self)@ == match existing {
                Some(n) => if n > 0 {
                    logged(old(self)@, OpView::Truncate { path: path@, len: 0 })
                } else {
                    old(self)@
                },
                None => logged(old(self)@, OpView::Create { path: path@ }),
            },
    {
        match existing {
            Some(n) => {
                if n > 0 {
                    self.log(Op::Truncate { path: path.to_owned(), len: 0 });
                }
            },
            None => {
                self.log(Op::Create { path: path.to_owned() });
            },
        }
        RecFile { path: path.to_owned(), pos: 0, len: 0, append: false }
    }

    /// An existing file of this length opened for reading and writing, positioned
    /// at the start.
    pub fn open(&self, path: &str, len: u64) -> (r: RecFile)
        ensures
            r@ == (RecFileView { path: path@, pos: 0, len, append: false }),
    {
        RecFile { path: path.to_owned(), pos: 0, len, append: false }
    }

    /// A file was opened for appending, and created if it did not exist.
    pub fn append(&mut self, path: &str, exists_already: bool) -> (r: RecFile)
        ensures
            r@ == (RecFileView { path: path@, pos: 0, len: 0, append: true }),
            final(self)@ == if exists_already {
                old(self)@
            } else {
                logged(old(self)@, OpView::Create { path: path@ })
            },
    {
        if !exists_already {
            self.log(Op::Create { path: path.to_owned() });
        }
        RecFile { path: path.to_owned(), pos: 0, len: 0, append: true }
    }

    /// A file or directory was renamed.
    pub fn rename(&mut self, from: &str, to: &str)
        ensures
            final(self)@ == logged(old(self)@, OpView::Rename { from: from@, to: to@ }),
    {
        self.log(Op::Rename { from: from.to_owned(), to: to.to_owned() });
    }

    /// A file was removed.
    pub fn remove_file(&mut self, path: &str)
        ensures
            final(self)@ == logged(old(self)@, OpView::Unlink { path: path@ }),
    {
        self.log(Op::Unlink { path: path.to_owned() });
    }

    /// A directory was created.
    pub fn create_dir(&mut self, path: &str)
        ensures
            final(self)@ == logged(old(self)@, OpView::Mkdir { path: path@ }),
    {
        self.log(Op::Mkdir { path: path.to_owned() });
    }

    /// A directory was removed.
    pub fn remove_dir(&mut self, path: &str)
        ensures
            final(self)@ == logged(old(self)@, OpView::Rmdir { path: path@ }),
    {
        self.log(Op::Rmdir { path: path.to_owned() });
    }

    /// A directory (`""` is the root) was synced, making its entries durable.
    pub fn sync_dir(&mut self, path: &str)
        ensures
            final(self)@ == logged(old(self)@, OpView::Fsync { path: path@ }),
    {
        self.log(Op::Fsync { path: path.to_owned() });
    }

    /// Records that the workload acknowledged something (e.g. "committed 42").
    pub fn mark(&mut self, text: &str)
        ensures
            final(self)@ == logged(old(self)@, OpView::Mark { text: text@ }),
    {
        self.log(Op::Mark { text: text.to_owned() });
    }

    /// Stops recording.
    pub fn finish(self) -> (r: Trace)
        ensures
            r@ == self@,
    {
        let Recorder { initial, ops } = self;
        Trace { initial, ops }
    }
}

impl RecFile {
    /// The file has this length, and the position is at its end.
    pub fn opened_at_end(&mut self, len: u64)
        ensures
            final(self)@ == (RecFileView { pos: len, len, ..old(self)@ }),
    {
        self.pos = len;
        self.len = len;
    }

    /// The file was synced.
    pub fn sync_all(&self, rec: &mut Recorder)
        ensures
            final(rec)@ == logged(old(rec)@, OpView::Fsync { path: self@.path }),
    {
        rec.log(Op::Fsync { path: self.path.clone() });
    }

    /// Treated like `sync_all`: the model does not distinguish `fdatasync`.
    pub fn sync_data(&self, rec: &mut Recorder)
        ensures
            final(rec)@ == logged(old(rec)@, OpView::Fsync { path: self@.path }),
    {
        rec.log(Op::Fsync { path: self.path.clone() });
    }

    /// The file was cut or extended.
    pub fn set_len(&mut self, rec: &mut Recorder, len: u64)
        ensures
            final(self)@ == (RecFileView { len, ..old(self)@ }),
            final(rec)@ == logged(old(rec)@, OpView::Truncate { path: old(self)@.path, len }),
    {
        self.len = len;
        rec.log(Op::Truncate { path: self.path.clone(), len });
    }

    /// Where the next write goes.
    pub fn offset(&self) -> (r: u64)
        ensures
            r == next_offset(self@),
    {
        if self.append {
            self.len
        } else {
            self.pos
        }
    }

    /// These bytes were written.
    pub fn write(&mut self, rec: &mut Recorder, data: &Vec<u8>)
        requires
            next_offset(old(self)@) + data@.len() <= u64::MAX,
        ensures
            ({
                let offset = next_offset(old(self)@);
                let end = (offset + data@.len()) as u64;
                &&& final(self)@ == (RecFileView {
                    pos: end,
                    len: if old(self)@.len < end {
                        end
                    } else {
                        old(self)@.len
                    },
                    ..old(self)@
                })
                &&& final(rec)@ == logged(
                    old(rec)@,
                    OpView::Write { path: old(self)@.path, offset, data: data@ },
                )
            }),
    {
        let offset: u64 = self.offset();
        rec.log(Op::Write { path: self.path.clone(), offset, data: copy_bytes(data) });
        self.pos = offset + data.len() as u64;
        if self.len < self.pos {
            self.len = self.pos;
        }
    }

    /// The position was moved.
    pub fn seek(&mut self, pos: u64)
        ensures
            final(self)@ == (RecFileView { pos, ..old(self)@ }),
    {
        self.pos = pos;
    }
}

} // verus!
