//! Reconstructs a workload from an `strace -f -y -xx` log.
//!
//! `-y` annotates every fd with its current path (so renames and `openat`
//! dirfds resolve for free), `-xx` hex-escapes all strings (so data is exact),
//! and open file descriptions are tracked here to turn `write()` into
//! `write(offset)`, honoring `lseek`, `O_APPEND`, `dup` and `fork` sharing.
//!
//! Writes to fd 1 outside the root become [`Op::Mark`]s: what the program
//! printed is what it acknowledged.

use crate::error::{Error, ErrorView};
use crate::names::NameMap;
use crate::numbers::NumberMap;
use crate::syscall::{
    call_in, fd_arg, fd_of, lossy, lossy_text, pid_and_rest, read_call, split_pid, strings,
    strings_from, strings_view, Call, CallView,
};
use crate::text::{
    cat, chars_of, contains, copy_of, decimal, decimal_of, ends_with, find, find_from, has,
    has_prefix, has_suffix, is_lit, join_all, joined, lines, lines_of, number_in, parse_number,
    part, push_all, replace, replaced, same, same_str, split, split_on, starts_with, text_of,
    texts, trim_end, trimmed_end, views,
};
use crate::trace::{ops_view, Entry, Op, OpView, Trace, Tree, TreeView};
use vstd::prelude::*;

verus! {

/// Largest single write that can be captured; larger ones are reported as errors.
pub const MAX_WRITE: usize = 16_777_216;

/// A recorded run of a program.
#[derive(Debug, PartialEq, Eq)]
pub struct Recording {
    pub trace: Trace,
    /// Operations that could not be modeled.
    pub warnings: Vec<String>,
    /// Whether the traced command exited successfully.
    pub success: bool,
}

/// The components of a path once `.`, `..` and repeated slashes are resolved.
pub open spec fn resolved(pieces: Seq<Seq<char>>, n: int) -> Seq<Seq<char>>
    decreases n,
{
    if n <= 0 {
        Seq::empty()
    } else {
        let before = resolved(pieces, n - 1);
        let piece = pieces[n - 1];
        if piece.len() == 0 || piece == "."@ {
            before
        } else if piece == ".."@ {
            if before.len() == 0 {
                before
            } else {
                before.drop_last()
            }
        } else {
            before.push(piece)
        }
    }
}

/// A path with `.`, `..` and repeated slashes resolved.
pub open spec fn normalized(p: Seq<char>) -> Seq<char> {
    let pieces = split_on(p, '/');
    (if p.len() > 0 && p[0] == '/' {
        "/"@
    } else {
        ""@
    }) + joined(resolved(pieces, pieces.len() as int), "/"@)
}

/// Lexically resolves `.`, `..` and repeated slashes in an absolute path.
pub fn normalize(p: &[char]) -> (r: Vec<char>)
    ensures
        r@ == normalized(p@),
{
    let pieces = split(p, '/');
    let ghost all = split_on(p@, '/');
    let mut parts: Vec<Vec<char>> = Vec::new();
    let mut i: usize = 0;
    assert(views(parts@) =~= Seq::<Seq<char>>::empty());
    while i < pieces.len()
        invariant
            i <= pieces@.len(),
            all == views(pieces@),
            views(parts@) == resolved(all, i as int),
        decreases pieces@.len() - i,
    {
        let piece = &pieces[i];
        let ghost before = views(parts@);
        assert(all[i as int] == piece@);
        if piece.len() == 0 || is_lit(piece.as_slice(), ".") {
        } else if is_lit(piece.as_slice(), "..") {
            if parts.len() > 0 {
                parts.pop();
                assert(views(parts@) =~= before.drop_last());
            }
        } else {
            let copy = copy_of(piece.as_slice());
            parts.push(copy);
            assert(views(parts@) =~= before.push(piece@));
        }
        i += 1;
    }
    let mut r: Vec<char> = Vec::new();
    proof {
        reveal_strlit("/");
        reveal_strlit("");
    }
    if p.len() > 0 && p[0] == '/' {
        r.push('/');
        assert(r@ =~= "/"@);
    } else {
        assert(r@ =~= ""@);
    }
    let sep = chars_of("/");
    let path = join_all(parts.as_slice(), sep.as_slice());
    push_all(&mut r, path.as_slice());
    r
}

/// A path with forward slashes, normalized.
pub open spec fn slashed(p: Seq<char>) -> Seq<char> {
    normalized(replaced(p, "\\"@, "/"@))
}

/// A path with forward slashes, normalized.
pub fn slash(p: &str) -> (r: Vec<char>)
    ensures
        r@ == slashed(p@),
{
    let c = chars_of(p);
    let back = chars_of("\\");
    let forth = chars_of("/");
    proof {
        reveal_strlit("\\");
    }
    let s = replace(c.as_slice(), back.as_slice(), forth.as_slice());
    normalize(s.as_slice())
}

/// An open file description: the position that `dup` and `fork` share.
#[derive(Debug, Clone, Copy, PartialEq, Eq)]
pub struct Ofd {
    pub offset: u64,
    pub append: bool,
}

/// What is known of the traced processes and of the directory they work on.
pub struct StateView {
    pub root: Seq<char>,
    pub launch_cwd: Seq<char>,
    pub ops: Seq<OpView>,
    pub warnings: Seq<Seq<char>>,
    /// Open file descriptions.
    pub ofds: Seq<Ofd>,
    /// Tables from fds to open file descriptions.
    pub tables: Seq<Map<i64, usize>>,
    /// Which table a process uses (threads share one).
    pub table_of: Map<i64, usize>,
    pub cwd: Map<i64, Seq<char>>,
    /// The files under the root right now, by relative path.
    pub sizes: Map<Seq<char>, u64>,
    /// The directories under the root right now, by relative path.
    pub dirs: Set<Seq<char>>,
}

/// Every process uses a table that exists, and every fd an open file
/// description that exists.
pub open spec fn state_sound(st: StateView) -> bool {
    &&& forall|k: i64| #[trigger] st.table_of.contains_key(k) ==> st.table_of[k] < st.tables.len()
    &&& forall|t: int, fd: i64|
        0 <= t < st.tables.len() && #[trigger] st.tables[t].contains_key(fd) ==> st.tables[t][fd]
            < st.ofds.len()
}

/// One more op.
pub open spec fn with_op(st: StateView, op: OpView) -> StateView {
    StateView { ops: st.ops.push(op), ..st }
}

/// One more warning, if it is new.
pub open spec fn with_warning(st: StateView, msg: Seq<char>) -> StateView {
    if st.warnings.contains(msg) {
        st
    } else {
        StateView { warnings: st.warnings.push(msg), ..st }
    }
}

/// The state in which a process has a table.
pub open spec fn with_table(st: StateView, pid: u32) -> StateView {
    if st.table_of.contains_key(pid as i64) {
        st
    } else {
        StateView {
            tables: st.tables.push(Map::empty()),
            table_of: st.table_of.insert(pid as i64, st.tables.len() as usize),
            ..st
        }
    }
}

/// The table of a process that has one.
pub open spec fn table_index(st: StateView, pid: u32) -> int {
    st.table_of[pid as i64] as int
}

/// A file's size as far as it is known.
pub open spec fn size_at(st: StateView, rel: Seq<char>) -> u64 {
    if st.sizes.contains_key(rel) {
        st.sizes[rel]
    } else {
        0
    }
}

/// A process's fd leads to an open file description.
pub open spec fn with_fd(st: StateView, t: int, fd: i64, o: usize) -> StateView {
    StateView { tables: st.tables.update(t, st.tables[t].insert(fd, o)), ..st }
}

/// The state in which a process's fd has an open file description. One that was
/// never seen opened (inherited) is taken to sit at end of file.
pub open spec fn with_ofd(st: StateView, pid: u32, fd: i64, rel: Seq<char>) -> StateView {
    let s = with_table(st, pid);
    let t = table_index(s, pid);
    if s.tables[t].contains_key(fd) {
        s
    } else {
        with_fd(
            StateView {
                ofds: s.ofds.push(Ofd { offset: size_at(s, rel), append: false }),
                ..s
            },
            t,
            fd,
            s.ofds.len() as usize,
        )
    }
}

/// The open file description of a process's fd.
pub open spec fn ofd_index(st: StateView, pid: u32, fd: i64) -> int {
    st.tables[table_index(st, pid)][fd] as int
}

/// An open file description moved to an offset.
pub open spec fn with_offset(st: StateView, o: int, offset: u64) -> StateView {
    StateView { ofds: st.ofds.update(o, Ofd { offset, append: st.ofds[o].append }), ..st }
}

/// A process's working directory.
pub open spec fn cwd_of(st: StateView, pid: u32) -> Seq<char> {
    if st.cwd.contains_key(pid as i64) {
        st.cwd[pid as i64]
    } else {
        st.launch_cwd
    }
}

/// The absolute path for `path` relative to a dirfd argument (or the cwd).
pub open spec fn resolved_path(
    st: StateView,
    pid: u32,
    dirfd: Option<Seq<char>>,
    path: Seq<char>,
) -> Seq<char> {
    if path.len() > 0 && path[0] == '/' {
        normalized(path)
    } else {
        let base = match dirfd {
            Some(d) => match fd_of(d).1 {
                Some(p) => p,
                None => cwd_of(st, pid),
            },
            None => cwd_of(st, pid),
        };
        normalized(base + "/"@ + path)
    }
}

/// Without the slashes at the end.
pub open spec fn without_slashes(s: Seq<char>) -> Seq<char>
    decreases s.len(),
{
    if s.len() > 0 && s.last() == '/' {
        without_slashes(s.drop_last())
    } else {
        s
    }
}

/// The path relative to the root, if inside it.
pub open spec fn relative(st: StateView, abs: Seq<char>) -> Option<Seq<char>> {
    let n = normalized(abs);
    let prefix = without_slashes(st.root) + "/"@;
    if ends_with(abs, " (deleted)"@) {
        None
    } else if n == st.root {
        Some(Seq::empty())
    } else if starts_with(n, prefix) {
        Some(n.skip(prefix.len() as int))
    } else {
        None
    }
}

/// The path of an fd argument relative to the root, if inside it.
pub open spec fn fd_relative(st: StateView, arg: Seq<char>) -> Option<Seq<char>> {
    match fd_of(arg).1 {
        Some(p) => relative(st, p),
        None => None,
    }
}

/// The first quoted string of an argument, as text.
pub open spec fn first_string(arg: Seq<char>) -> Seq<char> {
    let all = strings_from(arg, 0);
    if all.len() == 0 {
        Seq::empty()
    } else {
        lossy_text(all[0].0)
    }
}

/// The absolute path of a path argument.
pub open spec fn path_of_arg(
    st: StateView,
    pid: u32,
    dirfd: Option<Seq<char>>,
    arg: Seq<char>,
) -> Seq<char> {
    resolved_path(st, pid, dirfd, first_string(arg))
}

/// Something is at a relative path.
pub open spec fn is_there(st: StateView, rel: Seq<char>) -> bool {
    st.sizes.contains_key(rel) || st.dirs.contains(rel)
}

/// At a path or below it.
pub open spec fn under(p: Seq<char>, top: Seq<char>) -> bool {
    p == top || starts_with(p, top + "/"@)
}

/// A path at or below `top`, as it would be at or below `new`.
pub open spec fn rebased(p: Seq<char>, top: Seq<char>, new: Seq<char>) -> Seq<char> {
    new + p.skip(top.len() as int)
}

/// What stands at each path once what is at or below `from` was moved to `to`,
/// replacing it.
pub open spec fn moved<V>(m: Map<Seq<char>, V>, from: Seq<char>, to: Seq<char>) -> Map<
    Seq<char>,
    V,
> {
    let left = m.remove(to);
    Map::new(
        |k: Seq<char>|
            (under(k, to) && left.contains_key(rebased(k, to, from))) || (left.contains_key(k)
                && !under(k, from)),
        |k: Seq<char>|
            if under(k, to) && left.contains_key(rebased(k, to, from)) {
                left[rebased(k, to, from)]
            } else {
                left[k]
            },
    )
}

/// The directories once what is at or below `from` was moved to `to`.
pub open spec fn moved_dirs(d: Set<Seq<char>>, from: Seq<char>, to: Seq<char>) -> Set<Seq<char>> {
    let left = d.remove(to);
    Set::new(
        |k: Seq<char>|
            (under(k, to) && left.contains(rebased(k, to, from))) || (left.contains(k)
                && !under(k, from)),
    )
}

/// The state after what is at `from` was moved to `to`, replacing it.
pub open spec fn with_move(st: StateView, from: Seq<char>, to: Seq<char>) -> StateView {
    StateView {
        sizes: moved(st.sizes, from, to),
        dirs: moved_dirs(st.dirs, from, to),
        ..st
    }
}

/// What stands at each path but for those at or below `top`.
pub open spec fn pruned<V>(m: Map<Seq<char>, V>, top: Seq<char>) -> Map<Seq<char>, V> {
    Map::new(|k: Seq<char>| m.contains_key(k) && !under(k, top), |k: Seq<char>| m[k])
}

/// The state after what is at a path was removed, with all below it.
pub open spec fn with_removal(st: StateView, rel: Seq<char>) -> StateView {
    with_op(
        StateView {
            sizes: pruned(st.sizes, rel),
            dirs: Set::new(|k: Seq<char>| st.dirs.contains(k) && !under(k, rel)),
            ..st
        },
        if st.dirs.contains(rel) {
            OpView::Rmdir { path: rel }
        } else {
            OpView::Unlink { path: rel }
        },
    )
}

/// An argument speaks of something inside the root.
pub open spec fn touches_root(st: StateView, pid: u32, arg: Seq<char>) -> bool {
    fd_relative(st, arg) is Some || (arg.len() > 0 && arg[0] == '"' && relative(
        st,
        path_of_arg(st, pid, None, arg),
    ) is Some)
}

/// What a system call is to the directory under test.
#[derive(Debug, Clone, Copy, PartialEq, Eq)]
pub enum Sys {
    Open,
    OpenAt,
    Creat,
    Write,
    WriteAt,
    WriteAtOr,
    Read,
    Seek,
    Close,
    Dup,
    Fcntl,
    FTruncate,
    Truncate,
    Fsync,
    Sync,
    NoBarrier,
    Rename,
    RenameAt,
    Unlink,
    UnlinkAt,
    Mkdir,
    MkdirAt,
    Unmodeled,
    Mmap,
    Chdir,
    Fchdir,
    Fork,
    Other,
}

/// The system call of a name.
pub open spec fn sys_named(name: Seq<char>) -> Sys {
    if name == "open"@ {
        Sys::Open
    } else if name == "openat"@ || name == "openat2"@ {
        Sys::OpenAt
    } else if name == "creat"@ {
        Sys::Creat
    } else if name == "write"@ || name == "writev"@ {
        Sys::Write
    } else if name == "pwrite64"@ || name == "pwritev"@ {
        Sys::WriteAt
    } else if name == "pwritev2"@ {
        Sys::WriteAtOr
    } else if name == "read"@ || name == "readv"@ {
        Sys::Read
    } else if name == "lseek"@ {
        Sys::Seek
    } else if name == "close"@ {
        Sys::Close
    } else if name == "dup"@ || name == "dup2"@ || name == "dup3"@ {
        Sys::Dup
    } else if name == "fcntl"@ || name == "fcntl64"@ {
        Sys::Fcntl
    } else if name == "ftruncate"@ {
        Sys::FTruncate
    } else if name == "truncate"@ {
        Sys::Truncate
    } else if name == "fsync"@ || name == "fdatasync"@ {
        Sys::Fsync
    } else if name == "sync"@ || name == "syncfs"@ {
        Sys::Sync
    } else if name == "sync_file_range"@ || name == "msync"@ {
        Sys::NoBarrier
    } else if name == "rename"@ {
        Sys::Rename
    } else if name == "renameat"@ || name == "renameat2"@ {
        Sys::RenameAt
    } else if name == "unlink"@ || name == "rmdir"@ {
        Sys::Unlink
    } else if name == "unlinkat"@ {
        Sys::UnlinkAt
    } else if name == "mkdir"@ {
        Sys::Mkdir
    } else if name == "mkdirat"@ {
        Sys::MkdirAt
    } else if name == "link"@ || name == "linkat"@ || name == "symlink"@ || name == "symlinkat"@
        || name == "fallocate"@ || name == "copy_file_range"@ || name == "sendfile"@ || name
        == "sendfile64"@ || name == "splice"@ {
        Sys::Unmodeled
    } else if name == "mmap"@ || name == "mmap2"@ {
        Sys::Mmap
    } else if name == "chdir"@ {
        Sys::Chdir
    } else if name == "fchdir"@ {
        Sys::Fchdir
    } else if name == "clone"@ || name == "clone3"@ || name == "fork"@ || name == "vfork"@ {
        Sys::Fork
    } else {
        Sys::Other
    }
}

fn sys_of(name: &str) -> (r: Sys)
    ensures
        r == sys_named(name@),
{
    let n = chars_of(name);
    let n = n.as_slice();
    if is_lit(n, "open") {
        Sys::Open
    } else if is_lit(n, "openat") || is_lit(n, "openat2") {
        Sys::OpenAt
    } else if is_lit(n, "creat") {
        Sys::Creat
    } else if is_lit(n, "write") || is_lit(n, "writev") {
        Sys::Write
    } else if is_lit(n, "pwrite64") || is_lit(n, "pwritev") {
        Sys::WriteAt
    } else if is_lit(n, "pwritev2") {
        Sys::WriteAtOr
    } else if is_lit(n, "read") || is_lit(n, "readv") {
        Sys::Read
    } else if is_lit(n, "lseek") {
        Sys::Seek
    } else if is_lit(n, "close") {
        Sys::Close
    } else if is_lit(n, "dup") || is_lit(n, "dup2") || is_lit(n, "dup3") {
        Sys::Dup
    } else if is_lit(n, "fcntl") || is_lit(n, "fcntl64") {
        Sys::Fcntl
    } else if is_lit(n, "ftruncate") {
        Sys::FTruncate
    } else if is_lit(n, "truncate") {
        Sys::Truncate
    } else if is_lit(n, "fsync") || is_lit(n, "fdatasync") {
        Sys::Fsync
    } else if is_lit(n, "sync") || is_lit(n, "syncfs") {
        Sys::Sync
    } else if is_lit(n, "sync_file_range") || is_lit(n, "msync") {
        Sys::NoBarrier
    } else if is_lit(n, "rename") {
        Sys::Rename
    } else if is_lit(n, "renameat") || is_lit(n, "renameat2") {
        Sys::RenameAt
    } else if is_lit(n, "unlink") || is_lit(n, "rmdir") {
        Sys::Unlink
    } else if is_lit(n, "unlinkat") {
        Sys::UnlinkAt
    } else if is_lit(n, "mkdir") {
        Sys::Mkdir
    } else if is_lit(n, "mkdirat") {
        Sys::MkdirAt
    } else if is_lit(n, "link") || is_lit(n, "linkat") || is_lit(n, "symlink") || is_lit(
        n,
        "symlinkat",
    ) || is_lit(n, "fallocate") || is_lit(n, "copy_file_range") || is_lit(n, "sendfile")
        || is_lit(n, "sendfile64") || is_lit(n, "splice") {
        Sys::Unmodeled
    } else if is_lit(n, "mmap") || is_lit(n, "mmap2") {
        Sys::Mmap
    } else if is_lit(n, "chdir") {
        Sys::Chdir
    } else if is_lit(n, "fchdir") {
        Sys::Fchdir
    } else if is_lit(n, "clone") || is_lit(n, "clone3") || is_lit(n, "fork") || is_lit(n, "vfork") {
        Sys::Fork
    } else {
        Sys::Other
    }
}

/// An argument of a call; nothing where there is none.
pub open spec fn arg_of(c: CallView, i: int) -> Seq<char> {
    if i < c.args.len() {
        c.args[i]
    } else {
        ""@
    }
}

/// A file opened: created or truncated as the flags say, and at its start.
pub open spec fn after_open(
    st: StateView,
    pid: u32,
    fd: i64,
    abs: Seq<char>,
    flags: Seq<char>,
) -> StateView {
    match relative(st, abs) {
        None => st,
        Some(rel) => if contains(flags, "O_TMPFILE"@) {
            with_warning(st, "O_TMPFILE in "@ + rel + " is not modeled"@)
        } else {
            let s = if contains(flags, "O_CREAT"@) && !is_there(st, rel) {
                with_op(
                    StateView { sizes: st.sizes.insert(rel, 0), ..st },
                    OpView::Create { path: rel },
                )
            } else if contains(flags, "O_TRUNC"@) && size_at(st, rel) > 0 {
                with_op(
                    StateView { sizes: st.sizes.insert(rel, 0), ..st },
                    OpView::Truncate { path: rel, len: 0 },
                )
            } else {
                st
            };
            let s = with_table(s, pid);
            with_fd(
                StateView {
                    ofds: s.ofds.push(Ofd { offset: 0, append: contains(flags, "O_APPEND"@) }),
                    ..s
                },
                table_index(s, pid),
                fd,
                s.ofds.len() as usize,
            )
        },
    }
}

/// The bytes of quoted strings, one after the other.
pub open spec fn all_bytes(v: Seq<(Seq<u8>, bool)>, n: int) -> Seq<u8>
    decreases n,
{
    if n <= 0 {
        Seq::empty()
    } else {
        all_bytes(v, n - 1) + v[n - 1].0
    }
}

/// One of the strings was cut off.
pub open spec fn any_cut(v: Seq<(Seq<u8>, bool)>) -> bool {
    exists|i: int| 0 <= i < v.len() && (#[trigger] v[i]).1
}

/// Where a write without an offset of its own goes, and the state after.
pub open spec fn after_advance(
    st: StateView,
    pid: u32,
    fd: i64,
    rel: Seq<char>,
    n: usize,
) -> (u64, StateView) {
    let s = with_ofd(st, pid, fd, rel);
    let o = ofd_index(s, pid, fd);
    let at = if s.ofds[o].append {
        size_at(s, rel)
    } else {
        s.ofds[o].offset
    };
    (at, with_offset(s, o, at.wrapping_add(n as u64)))
}

/// Bytes written to a file at an offset.
pub open spec fn after_write_at(
    st: StateView,
    rel: Seq<char>,
    offset: u64,
    data: Seq<u8>,
    n: usize,
) -> StateView {
    let end = offset.wrapping_add(n as u64);
    let size = size_at(st, rel);
    let s = StateView {
        sizes: st.sizes.insert(
            rel,
            if size < end {
                end
            } else {
                size
            },
        ),
        ..st
    };
    if n > 0 {
        with_op(s, OpView::Write { path: rel, offset, data })
    } else {
        s
    }
}

/// A write, or why it cannot be used.
pub open spec fn after_write(st: StateView, pid: u32, sys: Sys, c: CallView, ret: i64) -> Result<
    StateView,
    Seq<char>,
> {
    let (fd, fd_path) = fd_of(arg_of(c, 0));
    let pieces = strings_from(arg_of(c, 1), 0);
    let all = all_bytes(pieces, pieces.len() as int);
    let n = ret as usize;
    if any_cut(pieces) {
        Err("a write was truncated by strace (limit "@ + decimal(MAX_WRITE as nat) + " bytes)"@)
    } else if all.len() < n {
        Err(
            c.name + ": captured "@ + decimal(all.len()) + " of "@ + decimal(n as nat)
                + " bytes"@,
        )
    } else {
        let data = all.take(n as int);
        let rel = match fd_path {
            Some(p) => relative(st, p),
            None => None,
        };
        match rel {
            None => Ok(
                if fd == Some(1i64) {
                    with_op(st, OpView::Mark { text: lossy_text(data) })
                } else {
                    st
                },
            ),
            Some(rel) => {
                let off = arg_of(c, 3);
                if sys == Sys::WriteAt || (sys == Sys::WriteAtOr && off != "-1"@) {
                    match number_in(off, 10, false, 0, u64::MAX as int) {
                        Some(at) => Ok(after_write_at(st, rel, at as u64, data, n)),
                        None => Err("bad offset `"@ + off + "`"@),
                    }
                } else {
                    let (at, s) = after_advance(
                        st,
                        pid,
                        match fd {
                            Some(fd) => fd,
                            None => -1i64,
                        },
                        rel,
                        n,
                    );
                    Ok(after_write_at(s, rel, at, data, n))
                }
            },
        }
    }
}

/// An fd inside the root moved: by a read as far as it went, by a seek to where
/// it went.
pub open spec fn after_move_of_fd(
    st: StateView,
    pid: u32,
    arg: Seq<char>,
    ret: i64,
    seek: bool,
) -> StateView {
    match fd_of(arg) {
        (Some(fd), Some(p)) => match relative(st, p) {
            Some(rel) => {
                let s = with_ofd(st, pid, fd, rel);
                let o = ofd_index(s, pid, fd);
                with_offset(
                    s,
                    o,
                    if seek {
                        ret as u64
                    } else {
                        s.ofds[o].offset.wrapping_add(ret as u64)
                    },
                )
            },
            None => st,
        },
        _ => st,
    }
}

/// An fd closed.
pub open spec fn after_close(st: StateView, pid: u32, arg: Seq<char>) -> StateView {
    match fd_of(arg).0 {
        Some(fd) => {
            let s = with_table(st, pid);
            let t = table_index(s, pid);
            StateView { tables: s.tables.update(t, s.tables[t].remove(fd)), ..s }
        },
        None => st,
    }
}

/// An fd duplicated.
pub open spec fn after_dup(st: StateView, pid: u32, arg: Seq<char>, new: i64) -> StateView {
    match fd_of(arg).0 {
        Some(fd) => {
            let s = with_table(st, pid);
            let t = table_index(s, pid);
            if s.tables[t].contains_key(fd) {
                with_fd(s, t, new, s.tables[t][fd])
            } else {
                s
            }
        },
        None => st,
    }
}

/// A file cut or extended, or why the call cannot be used.
pub open spec fn after_truncate(st: StateView, rel: Option<Seq<char>>, len: Seq<char>) -> Result<
    StateView,
    Seq<char>,
> {
    match rel {
        None => Ok(st),
        Some(rel) => match number_in(len, 10, false, 0, u64::MAX as int) {
            Some(n) => Ok(
                with_op(
                    StateView { sizes: st.sizes.insert(rel, n as u64), ..st },
                    OpView::Truncate { path: rel, len: n as u64 },
                ),
            ),
            None => Err("bad length `"@ + len + "`"@),
        },
    }
}

/// Something renamed. What is renamed onto itself stays as it is.
pub open spec fn after_rename(
    st: StateView,
    from: Seq<char>,
    to: Seq<char>,
    flags: Seq<char>,
) -> StateView {
    if contains(flags, "RENAME_EXCHANGE"@) {
        with_warning(st, "renameat2(RENAME_EXCHANGE) is not modeled"@)
    } else {
        match (relative(st, from), relative(st, to)) {
            (Some(f), Some(t)) => with_op(
                if f == t {
                    st
                } else {
                    with_move(st, f, t)
                },
                OpView::Rename { from: f, to: t },
            ),
            (Some(f), None) => with_removal(st, f),
            (None, Some(t)) => with_warning(
                st,
                t + " was moved in from outside the root; its content is not modeled"@,
            ),
            (None, None) => st,
        }
    }
}

/// Something removed.
pub open spec fn after_unlink(st: StateView, abs: Seq<char>) -> StateView {
    match relative(st, abs) {
        Some(rel) => with_removal(st, rel),
        None => st,
    }
}

/// A directory made.
pub open spec fn after_mkdir(st: StateView, abs: Seq<char>) -> StateView {
    match relative(st, abs) {
        Some(rel) => with_op(
            StateView { dirs: st.dirs.insert(rel), ..st },
            OpView::Mkdir { path: rel },
        ),
        None => st,
    }
}

/// A process or thread started. A thread shares the table; a process gets a
/// copy of it, beside what it has opened already.
pub open spec fn after_fork(st: StateView, pid: u32, child: u32, shared: bool) -> StateView {
    if child == 0 {
        st
    } else {
        let s = with_table(st, pid);
        let parent = table_index(s, pid);
        let s = if s.cwd.contains_key(child as i64) {
            s
        } else {
            StateView { cwd: s.cwd.insert(child as i64, cwd_of(s, pid)), ..s }
        };
        if shared && !s.table_of.contains_key(child as i64) {
            StateView { table_of: s.table_of.insert(child as i64, parent as usize), ..s }
        } else {
            let copy = s.tables[parent];
            let s = with_table(s, child);
            let t = table_index(s, child);
            StateView { tables: s.tables.update(t, copy.union_prefer_right(s.tables[t])), ..s }
        }
    }
}

/// One of the arguments speaks of something inside the root.
pub open spec fn any_touches_root(st: StateView, pid: u32, c: CallView) -> bool {
    exists|i: int| 0 <= i < c.args.len() && touches_root(st, pid, #[trigger] c.args[i])
}

/// One of the arguments holds a word.
pub open spec fn any_holds(c: CallView, word: Seq<char>) -> bool {
    exists|i: int| 0 <= i < c.args.len() && contains(#[trigger] c.args[i], word)
}

/// The path that an open call opened.
pub open spec fn opened_path(
    st: StateView,
    pid: u32,
    c: CallView,
    dirfd: Option<Seq<char>>,
    path: Seq<char>,
) -> Seq<char> {
    match c.ret_path {
        Some(p) => normalized(p),
        None => path_of_arg(st, pid, dirfd, path),
    }
}

/// The state after a call that succeeded, or why the call cannot be used.
pub open spec fn after_success(st: StateView, pid: u32, c: CallView, ret: i64) -> Result<
    StateView,
    Seq<char>,
> {
    let sys = sys_named(c.name);
    match sys {
        Sys::Open => Ok(
            after_open(
                st,
                pid,
                ret,
                opened_path(st, pid, c, None, arg_of(c, 0)),
                arg_of(c, 1),
            ),
        ),
        Sys::OpenAt => Ok(
            after_open(
                st,
                pid,
                ret,
                opened_path(st, pid, c, Some(arg_of(c, 0)), arg_of(c, 1)),
                arg_of(c, 2),
            ),
        ),
        Sys::Creat => Ok(
            after_open(
                st,
                pid,
                ret,
                opened_path(st, pid, c, None, arg_of(c, 0)),
                "O_CREAT|O_WRONLY|O_TRUNC"@,
            ),
        ),
        Sys::Write => after_write(st, pid, sys, c, ret),
        Sys::WriteAt => after_write(st, pid, sys, c, ret),
        Sys::WriteAtOr => after_write(st, pid, sys, c, ret),
        Sys::Read => Ok(after_move_of_fd(st, pid, arg_of(c, 0), ret, false)),
        Sys::Seek => Ok(after_move_of_fd(st, pid, arg_of(c, 0), ret, true)),
        Sys::Close => Ok(after_close(st, pid, arg_of(c, 0))),
        Sys::Dup => Ok(after_dup(st, pid, arg_of(c, 0), ret)),
        Sys::Fcntl => Ok(
            if starts_with(arg_of(c, 1), "F_DUPFD"@) {
                after_dup(st, pid, arg_of(c, 0), ret)
            } else {
                st
            },
        ),
        Sys::FTruncate => after_truncate(st, fd_relative(st, arg_of(c, 0)), arg_of(c, 1)),
        Sys::Truncate => after_truncate(
            st,
            relative(st, path_of_arg(st, pid, None, arg_of(c, 0))),
            arg_of(c, 1),
        ),
        Sys::Fsync => Ok(
            match fd_relative(st, arg_of(c, 0)) {
                Some(rel) => with_op(st, OpView::Fsync { path: rel }),
                None => st,
            },
        ),
        Sys::Sync => Ok(with_op(st, OpView::Sync)),
        Sys::NoBarrier => Ok(
            with_warning(st, c.name + " is not a durability barrier and was ignored"@),
        ),
        Sys::Rename => Ok(
            after_rename(
                st,
                path_of_arg(st, pid, None, arg_of(c, 0)),
                path_of_arg(st, pid, None, arg_of(c, 1)),
                arg_of(c, 4),
            ),
        ),
        Sys::RenameAt => Ok(
            after_rename(
                st,
                path_of_arg(st, pid, Some(arg_of(c, 0)), arg_of(c, 1)),
                path_of_arg(st, pid, Some(arg_of(c, 2)), arg_of(c, 3)),
                arg_of(c, 4),
            ),
        ),
        Sys::Unlink => Ok(after_unlink(st, path_of_arg(st, pid, None, arg_of(c, 0)))),
        Sys::UnlinkAt => Ok(
            after_unlink(st, path_of_arg(st, pid, Some(arg_of(c, 0)), arg_of(c, 1))),
        ),
        Sys::Mkdir => Ok(after_mkdir(st, path_of_arg(st, pid, None, arg_of(c, 0)))),
        Sys::MkdirAt => Ok(
            after_mkdir(st, path_of_arg(st, pid, Some(arg_of(c, 0)), arg_of(c, 1))),
        ),
        Sys::Unmodeled => Ok(
            if any_touches_root(st, pid, c) {
                with_warning(st, c.name + " under the root is not modeled"@)
            } else {
                st
            },
        ),
        Sys::Mmap => Ok(
            if contains(arg_of(c, 2), "PROT_WRITE"@) && contains(arg_of(c, 3), "MAP_SHARED"@)
                && fd_relative(st, arg_of(c, 4)) is Some {
                with_warning(
                    st,
                    "writes through a shared writable mmap are invisible to unsynced"@,
                )
            } else {
                st
            },
        ),
        Sys::Chdir => Ok(
            StateView {
                cwd: st.cwd.insert(pid as i64, path_of_arg(st, pid, None, arg_of(c, 0))),
                ..st
            },
        ),
        Sys::Fchdir => Ok(
            match fd_of(arg_of(c, 0)).1 {
                Some(p) => StateView { cwd: st.cwd.insert(pid as i64, normalized(p)), ..st },
                None => st,
            },
        ),
        Sys::Fork => Ok(after_fork(st, pid, ret as u32, any_holds(c, "CLONE_FILES"@))),
        Sys::Other => Ok(st),
    }
}

/// The state after a call, or why the call cannot be used. Failed calls change
/// nothing.
pub open spec fn after_call(st: StateView, pid: u32, c: CallView) -> Result<
    StateView,
    Seq<char>,
> {
    match c.ret {
        None => Ok(st),
        Some(ret) => if ret < 0 {
            Ok(st)
        } else {
            after_success(st, pid, c, ret)
        },
    }
}

/// What is known of the traced processes and of the directory they work on.
pub struct State {
    root: Vec<char>,
    launch_cwd: Vec<char>,
    ops: Vec<Op>,
    warnings: Vec<String>,
    ofds: Vec<Ofd>,
    tables: Vec<NumberMap<usize>>,
    table_of: NumberMap<usize>,
    cwd: NumberMap<Vec<char>>,
    sizes: NameMap<u64>,
    dirs: NameMap<usize>,
}

spec fn tables_view(v: Seq<NumberMap<usize>>) -> Seq<Map<i64, usize>> {
    Seq::new(v.len(), |i: int| v[i]@)
}

spec fn paths_view(m: Map<i64, Vec<char>>) -> Map<i64, Seq<char>> {
    m.map_values(|v: Vec<char>| v@)
}

impl View for State {
    type V = StateView;

    closed spec fn view(&self) -> StateView {
        StateView {
            root: self.root@,
            launch_cwd: self.launch_cwd@,
            ops: ops_view(self.ops@),
            warnings: texts(self.warnings@),
            ofds: self.ofds@,
            tables: tables_view(self.tables@),
            table_of: self.table_of@,
            cwd: paths_view(self.cwd@),
            sizes: self.sizes@,
            dirs: self.dirs@.dom(),
        }
    }
}

/// The sizes of the files of a tree.
pub open spec fn sizes_of(t: TreeView) -> Map<Seq<char>, u64> {
    Map::new(
        |k: Seq<char>| t.contains_key(k) && t[k] is File,
        |k: Seq<char>| (t[k]->0).len() as u64,
    )
}

/// The directories of a tree, with the root.
pub open spec fn dirs_of(t: TreeView) -> Set<Seq<char>> {
    Set::new(|k: Seq<char>| k.len() == 0 || (t.contains_key(k) && t[k] is Dir))
}

/// What is known when tracing begins.
pub open spec fn started(root: Seq<char>, cwd: Seq<char>, t: TreeView) -> StateView {
    StateView {
        root: slashed(root),
        launch_cwd: slashed(cwd),
        ops: Seq::empty(),
        warnings: Seq::empty(),
        ofds: Seq::empty(),
        tables: Seq::empty(),
        table_of: Map::empty(),
        cwd: Map::empty(),
        sizes: sizes_of(t),
        dirs: dirs_of(t),
    }
}

proof fn lemma_still_sound(before: StateView, after: StateView)
    requires
        state_sound(before),
        after.tables == before.tables,
        after.table_of == before.table_of,
        after.ofds.len() >= before.ofds.len(),
    ensures
        state_sound(after),
{
    assert forall|t: int, fd: i64|
        0 <= t < after.tables.len() && #[trigger] after.tables[t].contains_key(fd) implies
        after.tables[t][fd] < after.ofds.len() by {
        assert(before.tables[t].contains_key(fd));
    }
    assert forall|k: i64| #[trigger] after.table_of.contains_key(k) implies after.table_of[k]
        < after.tables.len() by {
        assert(before.table_of.contains_key(k));
    }
}

impl State {
    /// What is known when tracing begins.
    pub fn new(root: &str, cwd: &str, initial: &Tree) -> (r: State)
        ensures
            r@ == started(root@, cwd@, initial@),
            state_sound(r@),
    {
        let ghost t = initial@;
        let mut sizes: NameMap<u64> = NameMap::new();
        let mut dirs: NameMap<usize> = NameMap::new();
        dirs.put(Vec::new(), 0);
        let n: usize = initial.entries.len();
        let ghost names = initial.entries.names();
        let mut i: usize = 0;
        assert(dirs@.dom() =~= set![Seq::<char>::empty()]);
        while i < n
            invariant
                i <= n,
                n == names.len(),
                names == initial.entries.names(),
                t == initial@,
                forall|k: Seq<char>| #[trigger]
                    sizes@.contains_key(k) <==> names.take(i as int).contains(k) && t[k] is File,
                forall|k: Seq<char>| #[trigger]
                    sizes@.contains_key(k) ==> sizes@[k] == (t[k]->0).len() as u64,
                forall|k: Seq<char>| #[trigger]
                    dirs@.contains_key(k) <==> k == Seq::<char>::empty() || (names.take(
                        i as int,
                    ).contains(k) && t[k] is Dir),
            decreases n - i,
        {
            let name = initial.entries.key_at(i);
            let entry = initial.entries.val_at(i);
            assert(t[name@] == entry@);
            proof {
                lemma_take_contains(names, i as int);
            }
            match entry {
                Entry::Dir => {
                    dirs.put(copy_of(name.as_slice()), 0);
                },
                Entry::File(data) => {
                    sizes.put(copy_of(name.as_slice()), data.len() as u64);
                },
            }
            i += 1;
        }
        let r = State {
            root: slash(root),
            launch_cwd: slash(cwd),
            ops: Vec::new(),
            warnings: Vec::new(),
            ofds: Vec::new(),
            tables: Vec::new(),
            table_of: NumberMap::new(),
            cwd: NumberMap::new(),
            sizes,
            dirs,
        };
        proof {
            assert(names.take(n as int) =~= names);
            assert(r@.ops =~= Seq::<OpView>::empty());
            assert(r@.warnings =~= Seq::<Seq<char>>::empty());
            assert(r@.tables =~= Seq::<Map<i64, usize>>::empty());
            assert(r@.cwd =~= Map::<i64, Seq<char>>::empty());
            assert forall|k: Seq<char>| t.contains_key(k) == names.contains(k) by {
                assert(initial.entries@.contains_key(k) == names.contains(k));
            }
            assert(r@.sizes =~= sizes_of(t));
            assert forall|k: Seq<char>| r@.dirs.contains(k) == dirs_of(t).contains(k) by {
                assert(r@.dirs.contains(k) == dirs@.contains_key(k));
                if k.len() == 0 {
                    assert(k =~= Seq::<char>::empty());
                }
            }
            assert(r@.dirs =~= dirs_of(t));
            assert(r@.ofds =~= Seq::<Ofd>::empty());
        }
        r
    }

    fn table(&mut self, pid: u32) -> (r: usize)
        requires
            state_sound(old(self)@),
        ensures
            final(self)@ == with_table(old(self)@, pid),
            state_sound(final(self)@),
            final(self)@.table_of.contains_key(pid as i64),
            r == table_index(final(self)@, pid),
            r < final(self)@.tables.len(),
    {
        let ghost before = self@;
        if let Some(t) = self.table_of.get(pid as i64) {
            return *t;
        }
        let n: usize = self.tables.len();
        let fresh: NumberMap<usize> = NumberMap::new();
        self.tables.push(fresh);
        self.table_of.put(pid as i64, n);
        proof {
            let after = self@;
            assert(after.tables =~= before.tables.push(Map::empty()));
            assert(after == with_table(before, pid));
            assert forall|t: int, fd: i64|
                0 <= t < after.tables.len() && #[trigger] after.tables[t].contains_key(
                    fd,
                ) implies after.tables[t][fd] < after.ofds.len() by {
                if t < before.tables.len() {
                    assert(after.tables[t] == before.tables[t]);
                }
            }
        }
        n
    }

    fn set_fd(&mut self, t: usize, fd: i64, o: usize)
        requires
            state_sound(old(self)@),
            t < old(self)@.tables.len(),
            o < old(self)@.ofds.len(),
        ensures
            final(self)@ == with_fd(old(self)@, t as int, fd, o),
            state_sound(final(self)@),
    {
        let ghost before = self@;
        let table: &mut NumberMap<usize> = &mut self.tables[t];
        table.put(fd, o);
        proof {
            let after = self@;
            assert(after.tables =~= before.tables.update(
                t as int,
                before.tables[t as int].insert(fd, o),
            ));
            assert forall|u: int, f: i64|
                0 <= u < after.tables.len() && #[trigger] after.tables[u].contains_key(
                    f,
                ) implies after.tables[u][f] < after.ofds.len() by {
                assert(u == t || after.tables[u] == before.tables[u]);
                if !(u == t && f == fd) {
                    assert(before.tables[u].contains_key(f));
                }
            }
            assert(after.table_of == before.table_of);
            assert forall|k: i64| #[trigger] after.table_of.contains_key(k) implies after.table_of[k]
                < after.tables.len() by {
                assert(before.table_of.contains_key(k));
            }
        }
    }

    fn add_ofd(&mut self, o: Ofd) -> (r: usize)
        requires
            state_sound(old(self)@),
        ensures
            final(self)@ == (StateView { ofds: old(self)@.ofds.push(o), ..old(self)@ }),
            state_sound(final(self)@),
            r == old(self)@.ofds.len(),
    {
        let ghost before = self@;
        let n: usize = self.ofds.len();
        self.ofds.push(o);
        proof {
            let after = self@;
            lemma_still_sound(before, after);
        }
        n
    }

    fn size(&self, rel: &[char]) -> (r: u64)
        ensures
            r == size_at(self@, rel@),
    {
        match self.sizes.at(rel) {
            Some(n) => *n,
            None => 0,
        }
    }

    fn ofd(&mut self, pid: u32, fd: i64, rel: &[char]) -> (r: usize)
        requires
            state_sound(old(self)@),
        ensures
            final(self)@ == with_ofd(old(self)@, pid, fd, rel@),
            state_sound(final(self)@),
            r == ofd_index(final(self)@, pid, fd),
            r < final(self)@.ofds.len(),
    {
        let t: usize = self.table(pid);
        let ghost mid = self@;
        assert(mid.tables[t as int] == self.tables@[t as int]@);
        if let Some(o) = self.tables[t].get(fd) {
            assert(mid.tables[t as int].contains_key(fd));
            return *o;
        }
        let offset: u64 = self.size(rel);
        let o: usize = self.add_ofd(Ofd { offset, append: false });
        self.set_fd(t, fd, o);
        o
    }

    fn set_offset(&mut self, o: usize, offset: u64)
        requires
            state_sound(old(self)@),
            o < old(self)@.ofds.len(),
        ensures
            final(self)@ == with_offset(old(self)@, o as int, offset),
            state_sound(final(self)@),
    {
        let ghost before = self@;
        let append = self.ofds[o].append;
        self.ofds.set(o, Ofd { offset, append });
        proof {
            let after = self@;
            assert(after.ofds =~= before.ofds.update(
                o as int,
                Ofd { offset, append: before.ofds[o as int].append },
            ));
            lemma_still_sound(before, after);
        }
    }

    fn cwd_for(&self, pid: u32) -> (r: Vec<char>)
        ensures
            r@ == cwd_of(self@, pid),
    {
        match self.cwd.get(pid as i64) {
            Some(c) => copy_of(c.as_slice()),
            None => copy_of(self.launch_cwd.as_slice()),
        }
    }

    /// Absolute path for `path` relative to a dirfd argument (or the cwd).
    fn resolve(&self, pid: u32, dirfd: Option<&str>, path: &[char]) -> (r: Vec<char>)
        ensures
            r@ == resolved_path(
                self@,
                pid,
                match dirfd {
                    Some(d) => Some(d@),
                    None => None,
                },
                path@,
            ),
    {
        if path.len() > 0 && path[0] == '/' {
            return normalize(path);
        }
        let mut base: Vec<char> = match dirfd {
            Some(d) => match fd_arg(d) {
                (_, Some(p)) => chars_of(p.as_str()),
                _ => self.cwd_for(pid),
            },
            None => self.cwd_for(pid),
        };
        let ghost b = base@;
        base.push('/');
        push_all(&mut base, path);
        proof {
            reveal_strlit("/");
            assert(base@ =~= b + "/"@ + path@);
        }
        normalize(base.as_slice())
    }

    /// Path relative to the root, if inside it.
    fn rel(&self, abs: &[char]) -> (r: Option<Vec<char>>)
        ensures
            match r {
                Some(p) => relative(self@, abs@) == Some(p@),
                None => relative(self@, abs@) is None,
            },
    {
        let deleted = chars_of(" (deleted)");
        if has_suffix(abs, deleted.as_slice()) {
            return None;
        }
        let n = normalize(abs);
        if same(n.as_slice(), self.root.as_slice()) {
            let empty: Vec<char> = Vec::new();
            assert(empty@ =~= Seq::<char>::empty());
            return Some(empty);
        }
        let mut len: usize = self.root.len();
        assert(self.root@.take(len as int) =~= self.root@);
        while len > 0 && self.root[len - 1] == '/'
            invariant
                len <= self.root@.len(),
                without_slashes(self.root@.take(len as int)) == without_slashes(self.root@),
            decreases len,
        {
            assert(self.root@.take(len as int).drop_last() =~= self.root@.take(len - 1));
            len = len - 1;
        }
        let bare = part(self.root.as_slice(), 0, len);
        assert(bare@ =~= self.root@.take(len as int));
        let mut prefix = copy_of(bare);
        prefix.push('/');
        proof {
            reveal_strlit("/");
            assert(prefix@ =~= without_slashes(self.root@) + "/"@);
        }
        if has_prefix(n.as_slice(), prefix.as_slice()) {
            let rest = part(n.as_slice(), prefix.len(), n.len());
            assert(rest@ =~= n@.skip(prefix@.len() as int));
            Some(copy_of(rest))
        } else {
            None
        }
    }

    fn fd_rel(&self, arg: &str) -> (r: Option<Vec<char>>)
        ensures
            match r {
                Some(p) => fd_relative(self@, arg@) == Some(p@),
                None => fd_relative(self@, arg@) is None,
            },
    {
        match fd_arg(arg).1 {
            Some(p) => {
                let c = chars_of(p.as_str());
                self.rel(c.as_slice())
            },
            None => None,
        }
    }

    fn is_present(&self, rel: &[char]) -> (r: bool)
        ensures
            r == is_there(self@, rel@),
    {
        self.sizes.at(rel).is_some() || self.dirs.at(rel).is_some()
    }

    fn path_arg(&self, pid: u32, dirfd: Option<&str>, arg: &str) -> (r: Vec<char>)
        ensures
            r@ == path_of_arg(
                self@,
                pid,
                match dirfd {
                    Some(d) => Some(d@),
                    None => None,
                },
                arg@,
            ),
    {
        let all = strings(arg);
        let p: Vec<char> = if all.len() > 0 {
            assert(strings_view(all@)[0] == (all@[0].0@, all@[0].1));
            chars_of(lossy(&all[0].0).as_str())
        } else {
            Vec::new()
        };
        assert(p@ =~= first_string(arg@));
        self.resolve(pid, dirfd, p.as_slice())
    }

    fn arg_touches_root(&self, pid: u32, arg: &str) -> (r: bool)
        ensures
            r == touches_root(self@, pid, arg@),
    {
        if self.fd_rel(arg).is_some() {
            return true;
        }
        let c = chars_of(arg);
        if c.len() > 0 && c[0] == '"' {
            let abs = self.path_arg(pid, None, arg);
            self.rel(abs.as_slice()).is_some()
        } else {
            false
        }
    }
}

/// Moving a path from below one directory to below another, and back.
pub proof fn lemma_rebased(k: Seq<char>, a: Seq<char>, b: Seq<char>)
    requires
        under(k, a),
    ensures
        under(rebased(k, a, b), b),
        rebased(rebased(k, a, b), b, a) == k,
{
    let x = rebased(k, a, b);
    reveal_strlit("/");
    if k == a {
        assert(k.skip(a.len() as int) =~= Seq::<char>::empty());
        assert(x =~= b);
        assert(rebased(x, b, a) =~= a);
    } else {
        let pre = a + "/"@;
        assert(k.take(pre.len() as int) == pre);
        assert forall|i: int| 0 <= i < pre.len() implies k[i] == pre[i] by {
            assert(k.take(pre.len() as int)[i] == k[i]);
        }
        assert(x.take((b + "/"@).len() as int) =~= b + "/"@);
        assert(x.skip(b.len() as int) =~= k.skip(a.len() as int));
        assert(rebased(x, b, a) =~= k);
    }
}

fn is_under(p: &[char], top: &[char]) -> (r: bool)
    ensures
        r == under(p@, top@),
{
    if same(p, top) {
        return true;
    }
    let mut prefix = copy_of(top);
    prefix.push('/');
    proof {
        reveal_strlit("/");
        assert(prefix@ =~= top@ + "/"@);
    }
    has_prefix(p, prefix.as_slice())
}

fn rebase(p: &[char], top: &[char], new: &[char]) -> (r: Vec<char>)
    requires
        under(p@, top@),
    ensures
        r@ == rebased(p@, top@, new@),
{
    let mut r = copy_of(new);
    let rest = part(p, top.len(), p.len());
    assert(rest@ =~= p@.skip(top@.len() as int));
    push_all(&mut r, rest);
    r
}

proof fn lemma_take_contains(names: Seq<Seq<char>>, i: int)
    requires
        0 <= i < names.len(),
    ensures
        forall|x: Seq<char>| #[trigger]
            names.take(i + 1).contains(x) == (names.take(i).contains(x) || x == names[i]),
{
    let a = names.take(i);
    let b = names.take(i + 1);
    assert forall|x: Seq<char>| #[trigger] b.contains(x) == (a.contains(x) || x == names[i]) by {
        if a.contains(x) {
            let j = choose|j: int| 0 <= j < a.len() && a[j] == x;
            assert(b[j] == x);
        }
        assert(b[i] == names[i]);
        if b.contains(x) {
            let j = choose|j: int| 0 <= j < b.len() && b[j] == x;
            if j < i {
                assert(a[j] == x);
            }
        }
    }
}

/// What stands at each path but for those at or below `top`.
fn prune<V: Copy>(m: &NameMap<V>, top: &[char]) -> (r: NameMap<V>)
    ensures
        r@ == pruned(m@, top@),
{
    let mut r: NameMap<V> = NameMap::new();
    let n: usize = m.len();
    let ghost names = m.names();
    let mut i: usize = 0;
    while i < n
        invariant
            i <= n,
            n == names.len(),
            names == m.names(),
            forall|x: Seq<char>| #[trigger]
                r@.contains_key(x) <==> names.take(i as int).contains(x) && !under(x, top@),
            forall|x: Seq<char>| #[trigger] r@.contains_key(x) ==> r@[x] == m@[x],
        decreases n - i,
    {
        let name = m.key_at(i);
        proof {
            lemma_take_contains(names, i as int);
        }
        if !is_under(name.as_slice(), top) {
            r.put(copy_of(name.as_slice()), *m.val_at(i));
        }
        i += 1;
    }
    assert(names.take(n as int) =~= names);
    assert(r@ =~= pruned(m@, top@));
    r
}

/// What stands at each path once what is at or below `from` was moved to `to`.
fn relocate<V: Copy>(m: &NameMap<V>, from: &[char], to: &[char]) -> (r: NameMap<V>)
    ensures
        r@ == moved(m@, from@, to@),
{
    let mut r: NameMap<V> = NameMap::new();
    let n: usize = m.len();
    let ghost names = m.names();
    let ghost left = m@.remove(to@);
    let mut i: usize = 0;
    while i < n
        invariant
            i <= n,
            n == names.len(),
            names == m.names(),
            forall|x: Seq<char>| #[trigger]
                r@.contains_key(x) <==> names.take(i as int).contains(x) && x != to@ && !under(
                    x,
                    from@,
                ),
            forall|x: Seq<char>| #[trigger] r@.contains_key(x) ==> r@[x] == m@[x],
        decreases n - i,
    {
        let name = m.key_at(i);
        proof {
            lemma_take_contains(names, i as int);
        }
        if !is_under(name.as_slice(), from) && !same(name.as_slice(), to) {
            r.put(copy_of(name.as_slice()), *m.val_at(i));
        }
        i += 1;
    }
    assert(names.take(n as int) =~= names);
    let ghost stay = r@;
    let mut i: usize = 0;
    assert(names.take(0) =~= Seq::<Seq<char>>::empty());
    while i < n
        invariant
            i <= n,
            n == names.len(),
            names == m.names(),
            forall|x: Seq<char>| #[trigger]
                r@.contains_key(x) <==> stay.contains_key(x) || (under(x, to@) && names.take(
                    i as int,
                ).contains(rebased(x, to@, from@)) && rebased(x, to@, from@) != to@),
            forall|x: Seq<char>| #[trigger]
                r@.contains_key(x) ==> r@[x] == (if under(x, to@) && names.take(
                    i as int,
                ).contains(rebased(x, to@, from@)) && rebased(x, to@, from@) != to@ {
                    m@[rebased(x, to@, from@)]
                } else {
                    stay[x]
                }),
        decreases n - i,
    {
        let name = m.key_at(i);
        let ghost before = r@;
        proof {
            lemma_take_contains(names, i as int);
        }
        if is_under(name.as_slice(), from) && !same(name.as_slice(), to) {
            let new = rebase(name.as_slice(), from, to);
            proof {
                lemma_rebased(name@, from@, to@);
            }
            r.put(new, *m.val_at(i));
            proof {
                assert forall|x: Seq<char>| x != new@ && under(x, to@) implies rebased(
                    x,
                    to@,
                    from@,
                ) != name@ by {
                    lemma_rebased(x, to@, from@);
                }
            }
        } else {
            proof {
                assert forall|x: Seq<char>| under(x, to@) && rebased(x, to@, from@)
                    == name@ implies name@ == to@ by {
                    lemma_rebased(x, to@, from@);
                }
            }
        }
        i += 1;
    }
    assert(names.take(n as int) =~= names);
    assert(r@ =~= moved(m@, from@, to@));
    r
}

impl State {
    fn move_tree(&mut self, from: &[char], to: &[char])
        requires
            state_sound(old(self)@),
        ensures
            final(self)@ == with_move(old(self)@, from@, to@),
            state_sound(final(self)@),
    {
        let ghost before = self@;
        let sizes = relocate(&self.sizes, from, to);
        let dirs = relocate(&self.dirs, from, to);
        proof {
            assert(dirs@.dom() =~= moved_dirs(self.dirs@.dom(), from@, to@));
        }
        self.sizes = sizes;
        self.dirs = dirs;
        proof {
            lemma_still_sound(before, self@);
        }
    }

    fn remove(&mut self, rel: &[char])
        requires
            state_sound(old(self)@),
        ensures
            final(self)@ == with_removal(old(self)@, rel@),
            state_sound(final(self)@),
    {
        let ghost before = self@;
        let is_dir = self.dirs.at(rel).is_some();
        let sizes = prune(&self.sizes, rel);
        let dirs = prune(&self.dirs, rel);
        proof {
            assert(dirs@.dom() =~= Set::new(
                |k: Seq<char>| before.dirs.contains(k) && !under(k, rel@),
            ));
        }
        self.sizes = sizes;
        self.dirs = dirs;
        proof {
            lemma_still_sound(before, self@);
        }
        let path = text_of(rel);
        if is_dir {
            self.push_op(Op::Rmdir { path });
        } else {
            self.push_op(Op::Unlink { path });
        }
    }
}

/// An argument of a call; nothing where there is none.
fn arg(c: &Call, i: usize) -> (r: &str)
    ensures
        r@ == arg_of(c@, i as int),
{
    if i < c.args.len() {
        c.args[i].as_str()
    } else {
        ""
    }
}

fn arg_has(s: &str, word: &str) -> (r: bool)
    ensures
        r == contains(s@, word@),
{
    let c = chars_of(s);
    has(c.as_slice(), word)
}

/// A number that fits 64 bits.
fn unsigned(s: &str) -> (r: Option<u64>)
    ensures
        match r {
            Some(n) => number_in(s@, 10, false, 0, u64::MAX as int) == Some(n as int),
            None => number_in(s@, 10, false, 0, u64::MAX as int) is None,
        },
{
    let c = chars_of(s);
    match parse_number(c.as_slice(), 10, false, 0, 0xffff_ffff_ffff_ffff) {
        Some(v) => Some(v as u64),
        None => None,
    }
}

impl State {
    fn set_size(&mut self, rel: &[char], n: u64)
        requires
            state_sound(old(self)@),
        ensures
            final(self)@ == (StateView { sizes: old(self)@.sizes.insert(rel@, n), ..old(self)@ }),
            state_sound(final(self)@),
    {
        let ghost before = self@;
        self.sizes.put(copy_of(rel), n);
        proof {
            lemma_still_sound(before, self@);
        }
    }

    fn push_op(&mut self, op: Op)
        requires
            state_sound(old(self)@),
        ensures
            final(self)@ == with_op(old(self)@, op@),
            state_sound(final(self)@),
    {
        let ghost before = self@;
        self.ops.push(op);
        proof {
            assert(self@.ops =~= before.ops.push(op@));
            lemma_still_sound(before, self@);
        }
    }

    fn warn(&mut self, msg: String)
        requires
            state_sound(old(self)@),
        ensures
            final(self)@ == with_warning(old(self)@, msg@),
            state_sound(final(self)@),
    {
        let ghost before = self@;
        let mut i: usize = 0;
        while i < self.warnings.len()
            invariant
                i <= self.warnings@.len(),
                self@ == before,
                before == old(self)@,
                state_sound(before),
                forall|k: int| 0 <= k < i ==> (#[trigger] before.warnings[k]) != msg@,
            decreases self.warnings@.len() - i,
        {
            assert(before.warnings[i as int] == self.warnings@[i as int]@);
            if same_str(self.warnings[i].as_str(), msg.as_str()) {
                assert(before.warnings.contains(msg@));
                return;
            }
            i += 1;
        }
        self.warnings.push(msg);
        proof {
            assert(self@.warnings =~= before.warnings.push(msg@));
            assert(!before.warnings.contains(msg@));
            lemma_still_sound(before, self@);
        }
    }

    fn set_cwd(&mut self, pid: u32, path: Vec<char>)
        requires
            state_sound(old(self)@),
        ensures
            final(self)@ == (StateView {
                cwd: old(self)@.cwd.insert(pid as i64, path@),
                ..old(self)@
            }),
            state_sound(final(self)@),
    {
        let ghost before = self@;
        self.cwd.put(pid as i64, path);
        proof {
            assert(self@.cwd =~= before.cwd.insert(pid as i64, path@));
            lemma_still_sound(before, self@);
        }
    }

    fn on_open(&mut self, pid: u32, fd: i64, abs: &[char], flags: &str)
        requires
            state_sound(old(self)@),
        ensures
            final(self)@ == after_open(old(self)@, pid, fd, abs@, flags@),
            state_sound(final(self)@),
    {
        let rel = match self.rel(abs) {
            Some(r) => r,
            None => {
                return;
            },
        };
        if arg_has(flags, "O_TMPFILE") {
            let s = cat("O_TMPFILE in ".to_owned(), text_of(rel.as_slice()).as_str());
            self.warn(cat(s, " is not modeled"));
            return;
        }
        if arg_has(flags, "O_CREAT") && !self.is_present(rel.as_slice()) {
            self.set_size(rel.as_slice(), 0);
            self.push_op(Op::Create { path: text_of(rel.as_slice()) });
        } else if arg_has(flags, "O_TRUNC") && self.size(rel.as_slice()) > 0 {
            self.set_size(rel.as_slice(), 0);
            self.push_op(Op::Truncate { path: text_of(rel.as_slice()), len: 0 });
        }
        let t: usize = self.table(pid);
        let o: usize = self.add_ofd(Ofd { offset: 0, append: arg_has(flags, "O_APPEND") });
        self.set_fd(t, fd, o);
    }

    /// The path that an open call opened.
    fn opened(&self, pid: u32, c: &Call, dirfd: Option<&str>, path: &str) -> (r: Vec<char>)
        ensures
            r@ == opened_path(
                self@,
                pid,
                c@,
                match dirfd {
                    Some(d) => Some(d@),
                    None => None,
                },
                path@,
            ),
    {
        match &c.ret_path {
            Some(p) => {
                let q = chars_of(p.as_str());
                normalize(q.as_slice())
            },
            None => self.path_arg(pid, dirfd, path),
        }
    }

    fn advance(&mut self, pid: u32, fd: i64, rel: &[char], n: usize) -> (r: u64)
        requires
            state_sound(old(self)@),
        ensures
            after_advance(old(self)@, pid, fd, rel@, n) == (r, final(self)@),
            state_sound(final(self)@),
    {
        let o: usize = self.ofd(pid, fd, rel);
        let at: u64 = if self.ofds[o].append {
            self.size(rel)
        } else {
            self.ofds[o].offset
        };
        self.set_offset(o, at.wrapping_add(n as u64));
        at
    }

    fn write_at(&mut self, rel: &[char], offset: u64, data: Vec<u8>, n: usize)
        requires
            state_sound(old(self)@),
        ensures
            final(self)@ == after_write_at(old(self)@, rel@, offset, data@, n),
            state_sound(final(self)@),
    {
        let end: u64 = offset.wrapping_add(n as u64);
        let size: u64 = self.size(rel);
        let larger: u64 = if size < end {
            end
        } else {
            size
        };
        self.set_size(rel, larger);
        if n > 0 {
            self.push_op(Op::Write { path: text_of(rel), offset, data });
        }
    }

    fn on_write(&mut self, pid: u32, sys: Sys, c: &Call, ret: i64) -> (r: Result<(), String>)
        requires
            state_sound(old(self)@),
        ensures
            match r {
                Ok(_) => after_write(old(self)@, pid, sys, c@, ret) == Ok::<StateView, Seq<char>>(
                    final(self)@,
                ),
                Err(e) => after_write(old(self)@, pid, sys, c@, ret) == Err::<
                    StateView,
                    Seq<char>,
                >(e@) && final(self)@ == old(self)@,
            },
            state_sound(final(self)@),
    {
        let (fd, fd_path) = fd_arg(arg(c, 0));
        let pieces = strings(arg(c, 1));
        let ghost all = strings_view(pieces@);
        let mut data: Vec<u8> = Vec::new();
        let mut i: usize = 0;
        while i < pieces.len()
            invariant
                i <= pieces@.len(),
                all == strings_view(pieces@),
                forall|k: int| 0 <= k < i ==> !(#[trigger] all[k]).1,
                data@ == all_bytes(all, i as int),
                all == strings_from(arg_of(c@, 1), 0),
                self@ == old(self)@,
                state_sound(self@),
            decreases pieces@.len() - i,
        {
            assert(all[i as int] == (pieces@[i as int].0@, pieces@[i as int].1));
            if pieces[i].1 {
                let s = cat(
                    "a write was truncated by strace (limit ".to_owned(),
                    decimal_of(MAX_WRITE as u64).as_str(),
                );
                assert(any_cut(all));
                return Err(cat(s, " bytes)"));
            }
            let ghost before = data@;
            add_bytes(&mut data, &pieces[i].0);
            i += 1;
        }
        assert(!any_cut(all));
        let n: usize = ret as usize;
        if data.len() < n {
            let s = cat(c.name.clone(), ": captured ");
            let s = cat(s, decimal_of(data.len() as u64).as_str());
            let s = cat(s, " of ");
            let s = cat(s, decimal_of(n as u64).as_str());
            return Err(cat(s, " bytes"));
        }
        let ghost whole = data@;
        data.truncate(n);
        assert(data@ =~= whole.take(n as int));
        let rel = match fd_path {
            Some(p) => {
                let q = chars_of(p.as_str());
                self.rel(q.as_slice())
            },
            None => None,
        };
        let rel = match rel {
            Some(r) => r,
            None => {
                if let Some(1) = fd {
                    self.push_op(Op::Mark { text: lossy(&data) });
                }
                return Ok(());
            },
        };
        let own_offset = match sys {
            Sys::WriteAt => true,
            Sys::WriteAtOr => !same_str(arg(c, 3), "-1"),
            _ => false,
        };
        if own_offset {
            match unsigned(arg(c, 3)) {
                Some(at) => {
                    self.write_at(rel.as_slice(), at, data, n);
                },
                None => {
                    let s = cat("bad offset `".to_owned(), arg(c, 3));
                    return Err(cat(s, "`"));
                },
            }
        } else {
            let fd: i64 = match fd {
                Some(fd) => fd,
                None => -1,
            };
            let at: u64 = self.advance(pid, fd, rel.as_slice(), n);
            self.write_at(rel.as_slice(), at, data, n);
        }
        Ok(())
    }

    fn on_move_of_fd(&mut self, pid: u32, arg: &str, ret: i64, seek: bool)
        requires
            state_sound(old(self)@),
        ensures
            final(self)@ == after_move_of_fd(old(self)@, pid, arg@, ret, seek),
            state_sound(final(self)@),
    {
        if let (Some(fd), Some(p)) = fd_arg(arg) {
            let q = chars_of(p.as_str());
            if let Some(rel) = self.rel(q.as_slice()) {
                let o: usize = self.ofd(pid, fd, rel.as_slice());
                let offset: u64 = if seek {
                    ret as u64
                } else {
                    self.ofds[o].offset.wrapping_add(ret as u64)
                };
                self.set_offset(o, offset);
            }
        }
    }

    fn on_close(&mut self, pid: u32, arg: &str)
        requires
            state_sound(old(self)@),
        ensures
            final(self)@ == after_close(old(self)@, pid, arg@),
            state_sound(final(self)@),
    {
        if let (Some(fd), _) = fd_arg(arg) {
            let t: usize = self.table(pid);
            let ghost before = self@;
            let table: &mut NumberMap<usize> = &mut self.tables[t];
            table.remove(fd);
            proof {
                let after = self@;
                assert(after.tables =~= before.tables.update(
                    t as int,
                    before.tables[t as int].remove(fd),
                ));
                lemma_tables_sound(before, after);
            }
        }
    }

    fn on_dup(&mut self, pid: u32, arg: &str, new: i64)
        requires
            state_sound(old(self)@),
        ensures
            final(self)@ == after_dup(old(self)@, pid, arg@, new),
            state_sound(final(self)@),
    {
        if let (Some(fd), _) = fd_arg(arg) {
            let t: usize = self.table(pid);
            let ghost before = self@;
            assert(before.tables[t as int] == self.tables@[t as int]@);
            let found: Option<usize> = match self.tables[t].get(fd) {
                Some(o) => Some(*o),
                None => None,
            };
            if let Some(o) = found {
                assert(before.tables[t as int].contains_key(fd));
                self.set_fd(t, new, o);
            }
        }
    }

    fn on_truncate(&mut self, rel: Option<Vec<char>>, len: &str) -> (r: Result<(), String>)
        requires
            state_sound(old(self)@),
        ensures
            ({
                let want = after_truncate(
                    old(self)@,
                    match rel {
                        Some(p) => Some(p@),
                        None => None,
                    },
                    len@,
                );
                match r {
                    Ok(_) => want == Ok::<StateView, Seq<char>>(final(self)@),
                    Err(e) => want == Err::<StateView, Seq<char>>(e@) && final(self)@ == old(
                        self,
                    )@,
                }
            }),
            state_sound(final(self)@),
    {
        if let Some(rel) = rel {
            match unsigned(len) {
                Some(n) => {
                    self.set_size(rel.as_slice(), n);
                    self.push_op(Op::Truncate { path: text_of(rel.as_slice()), len: n });
                },
                None => {
                    let s = cat("bad length `".to_owned(), len);
                    return Err(cat(s, "`"));
                },
            }
        }
        Ok(())
    }

    fn on_rename(&mut self, from: &[char], to: &[char], flags: &str)
        requires
            state_sound(old(self)@),
        ensures
            final(self)@ == after_rename(old(self)@, from@, to@, flags@),
            state_sound(final(self)@),
    {
        if arg_has(flags, "RENAME_EXCHANGE") {
            self.warn("renameat2(RENAME_EXCHANGE) is not modeled".to_owned());
            return;
        }
        match (self.rel(from), self.rel(to)) {
            (Some(f), Some(t)) => {
                if !same(f.as_slice(), t.as_slice()) {
                    self.move_tree(f.as_slice(), t.as_slice());
                }
                self.push_op(
                    Op::Rename { from: text_of(f.as_slice()), to: text_of(t.as_slice()) },
                );
            },
            (Some(f), None) => {
                self.remove(f.as_slice());
            },
            (None, Some(t)) => {
                self.warn(
                    cat(
                        text_of(t.as_slice()),
                        " was moved in from outside the root; its content is not modeled",
                    ),
                );
            },
            (None, None) => {},
        }
    }

    fn on_unlink(&mut self, abs: &[char])
        requires
            state_sound(old(self)@),
        ensures
            final(self)@ == after_unlink(old(self)@, abs@),
            state_sound(final(self)@),
    {
        if let Some(rel) = self.rel(abs) {
            self.remove(rel.as_slice());
        }
    }

    fn on_mkdir(&mut self, abs: &[char])
        requires
            state_sound(old(self)@),
        ensures
            final(self)@ == after_mkdir(old(self)@, abs@),
            state_sound(final(self)@),
    {
        if let Some(rel) = self.rel(abs) {
            let ghost before = self@;
            let path = text_of(rel.as_slice());
            self.dirs.put(rel, 0);
            proof {
                assert(self@.dirs =~= before.dirs.insert(rel@));
                lemma_still_sound(before, self@);
            }
            self.push_op(Op::Mkdir { path });
        }
    }

    fn on_fork(&mut self, pid: u32, child: u32, shared: bool)
        requires
            state_sound(old(self)@),
        ensures
            final(self)@ == after_fork(old(self)@, pid, child, shared),
            state_sound(final(self)@),
    {
        if child == 0 {
            return;
        }
        let parent: usize = self.table(pid);
        if self.cwd.get(child as i64).is_none() {
            let dir = self.cwd_for(pid);
            self.set_cwd(child, dir);
        }
        let ghost mid = self@;
        if shared && self.table_of.get(child as i64).is_none() {
            self.table_of.put(child as i64, parent);
            proof {
                let after = self@;
                assert forall|k: i64| #[trigger] after.table_of.contains_key(k) implies
                    after.table_of[k] < after.tables.len() by {
                    if k != child as i64 {
                        assert(mid.table_of.contains_key(k));
                    }
                }
                assert forall|t: int, fd: i64|
                    0 <= t < after.tables.len() && #[trigger] after.tables[t].contains_key(
                        fd,
                    ) implies after.tables[t][fd] < after.ofds.len() by {
                    assert(mid.tables[t].contains_key(fd));
                }
            }
        } else {
            let copy = self.tables[parent].dup();
            assert(copy@ == mid.tables[parent as int]);
            let t: usize = self.table(child);
            let ghost before = self@;
            assert(before.tables[parent as int] == mid.tables[parent as int]);
            let table: &mut NumberMap<usize> = &mut self.tables[t];
            table.fill_from(&copy);
            proof {
                let after = self@;
                let filled = copy@.union_prefer_right(before.tables[t as int]);
                assert(after.tables =~= before.tables.update(t as int, filled));
                assert forall|k: i64| #[trigger] after.table_of.contains_key(k) implies
                    after.table_of[k] < after.tables.len() by {
                    assert(before.table_of.contains_key(k));
                }
                assert forall|u: int, fd: i64|
                    0 <= u < after.tables.len() && #[trigger] after.tables[u].contains_key(
                        fd,
                    ) implies after.tables[u][fd] < after.ofds.len() by {
                    if u == t {
                        if before.tables[t as int].contains_key(fd) {
                        } else {
                            assert(before.tables[parent as int].contains_key(fd));
                        }
                    } else {
                        assert(before.tables[u].contains_key(fd));
                    }
                }
            }
        }
    }

    fn any_arg_touches_root(&self, pid: u32, c: &Call) -> (r: bool)
        ensures
            r == any_touches_root(self@, pid, c@),
    {
        let mut i: usize = 0;
        while i < c.args.len()
            invariant
                i <= c.args@.len(),
                forall|k: int| 0 <= k < i ==> !touches_root(self@, pid, #[trigger] c@.args[k]),
            decreases c.args@.len() - i,
        {
            assert(c@.args[i as int] == c.args@[i as int]@);
            if self.arg_touches_root(pid, c.args[i].as_str()) {
                return true;
            }
            i += 1;
        }
        false
    }
}

fn any_arg_has(c: &Call, word: &str) -> (r: bool)
    ensures
        r == any_holds(c@, word@),
{
    let mut i: usize = 0;
    while i < c.args.len()
        invariant
            i <= c.args@.len(),
            forall|k: int| 0 <= k < i ==> !contains(#[trigger] c@.args[k], word@),
        decreases c.args@.len() - i,
    {
        assert(c@.args[i as int] == c.args@[i as int]@);
        if arg_has(c.args[i].as_str(), word) {
            return true;
        }
        i += 1;
    }
    false
}

fn add_bytes(a: &mut Vec<u8>, b: &Vec<u8>)
    ensures
        final(a)@ == old(a)@ + b@,
{
    let ghost before = a@;
    let mut i: usize = 0;
    assert(before + b@.take(0) =~= before);
    while i < b.len()
        invariant
            i <= b@.len(),
            a@ == before + b@.take(i as int),
        decreases b@.len() - i,
    {
        a.push(b[i]);
        assert(before + b@.take(i + 1) =~= (before + b@.take(i as int)).push(b@[i as int]));
        i += 1;
    }
    assert(b@.take(b@.len() as int) =~= b@);
}

/// Tables that lost an fd stay sound.
proof fn lemma_tables_sound(before: StateView, after: StateView)
    requires
        state_sound(before),
        after.table_of == before.table_of,
        after.ofds == before.ofds,
        after.tables.len() == before.tables.len(),
        forall|t: int, fd: i64|
            0 <= t < after.tables.len() && #[trigger] after.tables[t].contains_key(fd) ==> (
            before.tables[t].contains_key(fd) && before.tables[t][fd] == after.tables[t][fd]),
    ensures
        state_sound(after),
{
    assert forall|k: i64| #[trigger] after.table_of.contains_key(k) implies after.table_of[k]
        < after.tables.len() by {
        assert(before.table_of.contains_key(k));
    }
}

impl State {
    fn on_success(&mut self, pid: u32, c: &Call, ret: i64) -> (r: Result<(), String>)
        requires
            state_sound(old(self)@),
        ensures
            match r {
                Ok(_) => after_success(old(self)@, pid, c@, ret) == Ok::<StateView, Seq<char>>(
                    final(self)@,
                ),
                Err(e) => after_success(old(self)@, pid, c@, ret) == Err::<StateView, Seq<char>>(
                    e@,
                ) && final(self)@ == old(self)@,
            },
            state_sound(final(self)@),
    {
        let sys = sys_of(c.name.as_str());
        match sys {
            Sys::Open => {
                let abs = self.opened(pid, c, None, arg(c, 0));
                self.on_open(pid, ret, abs.as_slice(), arg(c, 1));
            },
            Sys::OpenAt => {
                let abs = self.opened(pid, c, Some(arg(c, 0)), arg(c, 1));
                self.on_open(pid, ret, abs.as_slice(), arg(c, 2));
            },
            Sys::Creat => {
                let abs = self.opened(pid, c, None, arg(c, 0));
                self.on_open(pid, ret, abs.as_slice(), "O_CREAT|O_WRONLY|O_TRUNC");
            },
            Sys::Write => {
                return self.on_write(pid, sys, c, ret);
            },
            Sys::WriteAt => {
                return self.on_write(pid, sys, c, ret);
            },
            Sys::WriteAtOr => {
                return self.on_write(pid, sys, c, ret);
            },
            Sys::Read => {
                self.on_move_of_fd(pid, arg(c, 0), ret, false);
            },
            Sys::Seek => {
                self.on_move_of_fd(pid, arg(c, 0), ret, true);
            },
            Sys::Close => {
                self.on_close(pid, arg(c, 0));
            },
            Sys::Dup => {
                self.on_dup(pid, arg(c, 0), ret);
            },
            Sys::Fcntl => {
                let a = chars_of(arg(c, 1));
                let w = chars_of("F_DUPFD");
                if has_prefix(a.as_slice(), w.as_slice()) {
                    self.on_dup(pid, arg(c, 0), ret);
                }
            },
            Sys::FTruncate => {
                let rel = self.fd_rel(arg(c, 0));
                return self.on_truncate(rel, arg(c, 1));
            },
            Sys::Truncate => {
                let abs = self.path_arg(pid, None, arg(c, 0));
                let rel = self.rel(abs.as_slice());
                return self.on_truncate(rel, arg(c, 1));
            },
            Sys::Fsync => {
                if let Some(rel) = self.fd_rel(arg(c, 0)) {
                    self.push_op(Op::Fsync { path: text_of(rel.as_slice()) });
                }
            },
            Sys::Sync => {
                self.push_op(Op::Sync);
            },
            Sys::NoBarrier => {
                self.warn(
                    cat(c.name.clone(), " is not a durability barrier and was ignored"),
                );
            },
            Sys::Rename => {
                let from = self.path_arg(pid, None, arg(c, 0));
                let to = self.path_arg(pid, None, arg(c, 1));
                self.on_rename(from.as_slice(), to.as_slice(), arg(c, 4));
            },
            Sys::RenameAt => {
                let from = self.path_arg(pid, Some(arg(c, 0)), arg(c, 1));
                let to = self.path_arg(pid, Some(arg(c, 2)), arg(c, 3));
                self.on_rename(from.as_slice(), to.as_slice(), arg(c, 4));
            },
            Sys::Unlink => {
                let abs = self.path_arg(pid, None, arg(c, 0));
                self.on_unlink(abs.as_slice());
            },
            Sys::UnlinkAt => {
                let abs = self.path_arg(pid, Some(arg(c, 0)), arg(c, 1));
                self.on_unlink(abs.as_slice());
            },
            Sys::Mkdir => {
                let abs = self.path_arg(pid, None, arg(c, 0));
                self.on_mkdir(abs.as_slice());
            },
            Sys::MkdirAt => {
                let abs = self.path_arg(pid, Some(arg(c, 0)), arg(c, 1));
                self.on_mkdir(abs.as_slice());
            },
            Sys::Unmodeled => {
                if self.any_arg_touches_root(pid, c) {
                    self.warn(cat(c.name.clone(), " under the root is not modeled"));
                }
            },
            Sys::Mmap => {
                if arg_has(arg(c, 2), "PROT_WRITE") && arg_has(arg(c, 3), "MAP_SHARED")
                    && self.fd_rel(arg(c, 4)).is_some() {
                    self.warn(
                        "writes through a shared writable mmap are invisible to unsynced".to_owned(),
                    );
                }
            },
            Sys::Chdir => {
                let abs = self.path_arg(pid, None, arg(c, 0));
                self.set_cwd(pid, abs);
            },
            Sys::Fchdir => {
                if let (_, Some(p)) = fd_arg(arg(c, 0)) {
                    let q = chars_of(p.as_str());
                    self.set_cwd(pid, normalize(q.as_slice()));
                }
            },
            Sys::Fork => {
                self.on_fork(pid, ret as u32, any_arg_has(c, "CLONE_FILES"));
            },
            Sys::Other => {},
        }
        Ok(())
    }

    /// Takes a call into account. Failed calls change nothing, and neither do calls
    /// that cannot be used.
    pub fn apply(&mut self, pid: u32, c: &Call) -> (r: Result<(), String>)
        requires
            state_sound(old(self)@),
        ensures
            match r {
                Ok(_) => after_call(old(self)@, pid, c@) == Ok::<StateView, Seq<char>>(
                    final(self)@,
                ),
                Err(e) => after_call(old(self)@, pid, c@) == Err::<StateView, Seq<char>>(e@)
                    && final(self)@ == old(self)@,
            },
            state_sound(final(self)@),
    {
        match c.ret {
            None => Ok(()),
            Some(ret) => if ret < 0 {
                Ok(())
            } else {
                self.on_success(pid, c, ret)
            },
        }
    }

    /// The ops and the warnings so far.
    pub fn finish(self) -> (r: (Vec<Op>, Vec<String>))
        ensures
            ops_view(r.0@) == self@.ops,
            texts(r.1@) == self@.warnings,
    {
        let State { ops, warnings, .. } = self;
        (ops, warnings)
    }
}

/// What is known, and the calls whose end was not logged yet, by process.
pub struct Reading {
    pub st: StateView,
    pub pending: Map<i64, Seq<char>>,
}

/// What is known after a log line, or why its call cannot be used. A call that
/// was interrupted in the log is put together again.
pub open spec fn after_line(rd: Reading, line: Seq<char>) -> Result<Reading, Seq<char>> {
    match pid_and_rest(line) {
        None => Ok(rd),
        Some((pid, rest)) => if ends_with(rest, "<unfinished ...>"@) {
            Ok(
                Reading {
                    st: rd.st,
                    pending: rd.pending.insert(
                        pid as i64,
                        trim_end(rest.take(rest.len() - "<unfinished ...>"@.len())),
                    ),
                },
            )
        } else if starts_with(rest, "<... "@) {
            if !rd.pending.contains_key(pid as i64) {
                Ok(rd)
            } else {
                let left = Reading { st: rd.st, pending: rd.pending.remove(pid as i64) };
                let tail = rest.skip("<... "@.len() as int);
                let i = find_from(tail, "resumed>"@, 0);
                if i < 0 {
                    Ok(left)
                } else {
                    after_call_text(
                        left,
                        pid,
                        rd.pending[pid as i64] + tail.skip(i + "resumed>"@.len()),
                    )
                }
            }
        } else {
            after_call_text(rd, pid, rest)
        },
    }
}

/// What is known after the text of a call.
pub open spec fn after_call_text(rd: Reading, pid: u32, text: Seq<char>) -> Result<
    Reading,
    Seq<char>,
> {
    match call_in(text) {
        None => Ok(rd),
        Some(c) => match after_call(rd.st, pid, c) {
            Ok(st) => Ok(Reading { st, pending: rd.pending }),
            Err(e) => Err(e),
        },
    }
}

/// What is known after the first `n` lines, or what is wrong with the first line
/// that cannot be used.
pub open spec fn after_lines(rd: Reading, log: Seq<Seq<char>>, n: int) -> Result<
    Reading,
    ErrorView,
>
    decreases n,
{
    if n <= 0 {
        Ok(rd)
    } else {
        match after_lines(rd, log, n - 1) {
            Err(e) => Err(e),
            Ok(r) => match after_line(r, log[n - 1]) {
                Ok(r) => Ok(r),
                Err(e) => Err(
                    ErrorView::Strace(
                        "strace log line "@ + decimal(n as nat) + ": "@ + e + "\n  "@ + log[n - 1],
                    ),
                ),
            },
        }
    }
}

/// What is known after a log.
pub open spec fn after_log(log: Seq<char>, root: Seq<char>, cwd: Seq<char>, t: TreeView) -> Result<
    Reading,
    ErrorView,
> {
    let l = lines(log);
    after_lines(
        Reading { st: started(root, cwd, t), pending: Map::empty() },
        l,
        l.len() as int,
    )
}

/// A log that fails at some line fails there as a whole.
proof fn lemma_log_error_stays(rd: Reading, log: Seq<Seq<char>>, i: int, n: int)
    requires
        0 <= i <= n,
        after_lines(rd, log, i) is Err,
    ensures
        after_lines(rd, log, n) == after_lines(rd, log, i),
    decreases n - i,
{
    if i < n {
        lemma_log_error_stays(rd, log, i, n - 1);
    }
}

spec fn reading(st: State, pending: NumberMap<Vec<char>>) -> Reading {
    Reading { st: st@, pending: paths_view(pending@) }
}

fn read_text(st: &mut State, pid: u32, text: &[char], Ghost(pending): Ghost<Map<i64, Seq<char>>>) -> (r:
    Result<(), String>)
    requires
        state_sound(old(st)@),
    ensures
        ({
            let want = after_call_text((Reading { st: old(st)@, pending }), pid, text@);
            match r {
                Ok(_) => want == Ok::<Reading, Seq<char>>(Reading { st: final(st)@, pending }),
                Err(e) => want == Err::<Reading, Seq<char>>(e@),
            }
        }),
        state_sound(final(st)@),
{
    match read_call(text) {
        Some(c) => st.apply(pid, &c),
        None => Ok(()),
    }
}

fn read_line(st: &mut State, pending: &mut NumberMap<Vec<char>>, line: &[char]) -> (r: Result<
    (),
    String,
>)
    requires
        state_sound(old(st)@),
    ensures
        ({
            let want = after_line(reading(*old(st), *old(pending)), line@);
            match r {
                Ok(_) => want == Ok::<Reading, Seq<char>>(reading(*final(st), *final(pending))),
                Err(e) => want == Err::<Reading, Seq<char>>(e@),
            }
        }),
        state_sound(final(st)@),
{
    let (pid, rest) = match split_pid(line) {
        Some(x) => x,
        None => {
            return Ok(());
        },
    };
    let ghost p0 = paths_view(pending@);
    let unfinished = chars_of("<unfinished ...>");
    let resumed = chars_of("<... ");
    if has_suffix(rest.as_slice(), unfinished.as_slice()) {
        let head = part(rest.as_slice(), 0, rest.len() - unfinished.len());
        assert(head@ =~= rest@.take(rest@.len() - unfinished@.len()));
        let head = copy_of(trimmed_end(head));
        pending.put(pid as i64, head);
        assert(paths_view(pending@) =~= p0.insert(pid as i64, head@));
        return Ok(());
    }
    if has_prefix(rest.as_slice(), resumed.as_slice()) {
        let head: Vec<char> = match pending.get(pid as i64) {
            Some(h) => copy_of(h.as_slice()),
            None => {
                assert(!p0.contains_key(pid as i64));
                return Ok(());
            },
        };
        assert(p0.contains_key(pid as i64) && p0[pid as i64] == head@);
        pending.remove(pid as i64);
        assert(paths_view(pending@) =~= p0.remove(pid as i64));
        let tail = part(rest.as_slice(), resumed.len(), rest.len());
        assert(tail@ =~= rest@.skip(resumed@.len() as int));
        let word = chars_of("resumed>");
        match find(tail, word.as_slice(), 0) {
            Some(i) => {
                let end = part(tail, i + word.len(), tail.len());
                assert(end@ =~= tail@.skip(i + word@.len()));
                let mut text = head;
                push_all(&mut text, end);
                return read_text(st, pid, text.as_slice(), Ghost(paths_view(pending@)));
            },
            None => {
                return Ok(());
            },
        }
    }
    read_text(st, pid, rest.as_slice(), Ghost(paths_view(pending@)))
}

/// Parses an `strace -f -y -xx` log into ops on paths relative to `root`.
/// `root` and `cwd` must be absolute and canonical; `initial` is the state of
/// `root` when tracing began.
pub fn parse(log: &str, root: &str, cwd: &str, initial: &Tree) -> (r: Result<
    (Vec<Op>, Vec<String>),
    Error,
>)
    ensures
        match r {
            Ok(x) => after_log(log@, root@, cwd@, initial@) matches Ok(rd) && ops_view(x.0@)
                == rd.st.ops && texts(x.1@) == rd.st.warnings,
            Err(e) => after_log(log@, root@, cwd@, initial@) == Err::<Reading, ErrorView>(e@),
        },
{
    let c = chars_of(log);
    let all = lines_of(c.as_slice());
    let ghost l = lines(log@);
    let mut st = State::new(root, cwd, initial);
    let mut pending: NumberMap<Vec<char>> = NumberMap::new();
    let ghost rd0 = Reading { st: started(root@, cwd@, initial@), pending: Map::empty() };
    assert(paths_view(pending@) =~= Map::<i64, Seq<char>>::empty());
    let n: usize = all.len();
    let mut i: usize = 0;
    while i < n
        invariant
            i <= n,
            n == all@.len(),
            l == views(all@),
            l == lines(log@),
            rd0 == (Reading { st: started(root@, cwd@, initial@), pending: Map::empty() }),
            state_sound(st@),
            after_lines(rd0, l, i as int) == Ok::<Reading, ErrorView>(reading(st, pending)),
        decreases n - i,
    {
        assert(l[i as int] == all@[i as int]@);
        if let Err(e) = read_line(&mut st, &mut pending, all[i].as_slice()) {
            let s = cat("strace log line ".to_owned(), decimal_of((i + 1) as u64).as_str());
            let s = cat(s, ": ");
            let s = cat(s, e.as_str());
            let s = cat(s, "\n  ");
            let s = cat(s, text_of(all[i].as_slice()).as_str());
            proof {
                lemma_log_error_stays(rd0, l, i + 1, n as int);
            }
            return Err(Error::Strace(s));
        }
        i += 1;
    }
    Ok(st.finish())
}

/// Parses an `strace -f -y -xx` log as it was written, byte by byte. Bytes that
/// are no text are replaced first.
pub fn parse_bytes(log: &Vec<u8>, root: &str, cwd: &str, initial: &Tree) -> (r: Result<
    (Vec<Op>, Vec<String>),
    Error,
>)
    ensures
        match r {
            Ok(x) => after_log(lossy_text(log@), root@, cwd@, initial@) matches Ok(rd) && ops_view(
                x.0@,
            ) == rd.st.ops && texts(x.1@) == rd.st.warnings,
            Err(e) => after_log(lossy_text(log@), root@, cwd@, initial@) == Err::<
                Reading,
                ErrorView,
            >(e@),
        },
{
    parse(lossy(log).as_str(), root, cwd, initial)
}

/// The options with which a program is traced.
pub open spec fn options_for_tracing() -> Seq<Seq<char>> {
    seq![
        "-f"@,
        "-qq"@,
        "-y"@,
        "-xx"@,
        "-s"@,
        decimal(MAX_WRITE as nat),
        "-e"@,
        "trace=%file,%desc,%process,%memory,sync"@,
    ]
}

/// The options with which `strace` is to trace a command, if there is one.
pub fn tracer_options(cmd: &[String]) -> (r: Result<Vec<String>, Error>)
    ensures
        match r {
            Ok(v) => cmd@.len() > 0 && texts(v@) == options_for_tracing(),
            Err(e) => cmd@.len() == 0 && e@ == ErrorView::Strace("no workload command given"@),
        },
{
    if cmd.len() == 0 {
        return Err(Error::Strace("no workload command given".to_owned()));
    }
    let mut v: Vec<String> = Vec::new();
    v.push("-f".to_owned());
    v.push("-qq".to_owned());
    v.push("-y".to_owned());
    v.push("-xx".to_owned());
    v.push("-s".to_owned());
    v.push(decimal_of(MAX_WRITE as u64));
    v.push("-e".to_owned());
    v.push("trace=%file,%desc,%process,%memory,sync".to_owned());
    assert(texts(v@) =~= options_for_tracing());
    Ok(v)
}

/// `strace` could not be run.
pub fn not_run(why: &str) -> (r: Error)
    ensures
        r@ == ErrorView::Strace(
            "cannot run strace ("@ + why@ + "); install it (e.g. apt install strace)"@,
        ),
{
    let s = cat("cannot run strace (".to_owned(), why);
    Error::Strace(cat(s, "); install it (e.g. apt install strace)"))
}

/// `strace` ran and left no log.
pub fn no_log(why: &str) -> (r: Error)
    ensures
        r@ == ErrorView::Strace("strace produced no log: "@ + why@),
{
    Error::Strace(cat("strace produced no log: ".to_owned(), why))
}

} // verus!
