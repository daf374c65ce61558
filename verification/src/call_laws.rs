//! What each system call does to the recording, by the name of the call.

use crate::error::ErrorView;
use crate::strace::{
    after_call, after_line, after_lines, after_rename, all_bytes, any_cut, any_touches_root,
    arg_of, cwd_of, fd_relative, normalized, opened_path, path_of_arg, rebased, relative, slashed,
    started, state_sound, sys_named, touches_root, under, with_removal, with_table, with_warning,
    Ofd, Reading, StateView, Sys,
};
use crate::syscall::{fd_of, lossy_text, strings_from, CallView};
use crate::text::{contains, decimal, number_in, starts_with};
use crate::trace::{OpView, TreeView};
use vstd::prelude::*;

verus! {

/// What tells the names of the calls apart: how long they are, and some letters.
proof fn lemma_spelling()
    ensures
        "open"@.len() == 4,
        "open"@[0] == 'o',
        "open"@[3] == 'n',
        "openat"@.len() == 6,
        "openat"@[0] == 'o',
        "openat"@[1] == 'p',
        "openat2"@.len() == 7,
        "openat2"@[0] == 'o',
        "creat"@.len() == 5,
        "creat"@[0] == 'c',
        "creat"@[3] == 'a',
        "write"@.len() == 5,
        "write"@[0] == 'w',
        "write"@[3] == 't',
        "writev"@.len() == 6,
        "writev"@[0] == 'w',
        "writev"@[1] == 'r',
        "pwrite64"@.len() == 8,
        "pwrite64"@[0] == 'p',
        "pwrite64"@[6] == '6',
        "pwritev"@.len() == 7,
        "pwritev"@[0] == 'p',
        "pwritev2"@.len() == 8,
        "pwritev2"@[0] == 'p',
        "pwritev2"@[6] == 'v',
        "read"@.len() == 4,
        "read"@[0] == 'r',
        "read"@[3] == 'd',
        "readv"@.len() == 5,
        "readv"@[0] == 'r',
        "readv"@[3] == 'd',
        "lseek"@.len() == 5,
        "lseek"@[0] == 'l',
        "lseek"@[3] == 'e',
        "close"@.len() == 5,
        "close"@[0] == 'c',
        "close"@[3] == 's',
        "dup"@.len() == 3,
        "dup2"@.len() == 4,
        "dup2"@[0] == 'd',
        "dup2"@[3] == '2',
        "dup3"@.len() == 4,
        "dup3"@[0] == 'd',
        "dup3"@[3] == '3',
        "fcntl"@.len() == 5,
        "fcntl"@[0] == 'f',
        "fcntl"@[3] == 't',
        "fcntl64"@.len() == 7,
        "fcntl64"@[0] == 'f',
        "ftruncate"@.len() == 9,
        "ftruncate"@[1] == 't',
        "truncate"@.len() == 8,
        "truncate"@[0] == 't',
        "truncate"@[6] == 't',
        "fsync"@.len() == 5,
        "fsync"@[0] == 'f',
        "fsync"@[3] == 'n',
        "fdatasync"@.len() == 9,
        "fdatasync"@[1] == 'd',
        "sync"@.len() == 4,
        "sync"@[0] == 's',
        "sync"@[3] == 'c',
        "syncfs"@.len() == 6,
        "syncfs"@[0] == 's',
        "syncfs"@[1] == 'y',
        "sync_file_range"@.len() == 15,
        "sync_file_range"@[0] == 's',
        "msync"@.len() == 5,
        "msync"@[0] == 'm',
        "msync"@[3] == 'n',
        "rename"@.len() == 6,
        "rename"@[0] == 'r',
        "rename"@[1] == 'e',
        "renameat"@.len() == 8,
        "renameat"@[0] == 'r',
        "renameat"@[6] == 'a',
        "renameat2"@.len() == 9,
        "renameat2"@[1] == 'e',
        "unlink"@.len() == 6,
        "unlink"@[0] == 'u',
        "unlink"@[1] == 'n',
        "rmdir"@.len() == 5,
        "rmdir"@[0] == 'r',
        "rmdir"@[3] == 'i',
        "unlinkat"@.len() == 8,
        "unlinkat"@[0] == 'u',
        "unlinkat"@[6] == 'a',
        "mkdir"@.len() == 5,
        "mkdir"@[0] == 'm',
        "mkdir"@[3] == 'i',
        "mkdirat"@.len() == 7,
        "mkdirat"@[0] == 'm',
        "link"@.len() == 4,
        "link"@[0] == 'l',
        "link"@[3] == 'k',
        "linkat"@.len() == 6,
        "linkat"@[0] == 'l',
        "linkat"@[1] == 'i',
        "symlink"@.len() == 7,
        "symlink"@[0] == 's',
        "symlinkat"@.len() == 9,
        "symlinkat"@[1] == 'y',
        "fallocate"@.len() == 9,
        "fallocate"@[1] == 'a',
        "copy_file_range"@.len() == 15,
        "copy_file_range"@[0] == 'c',
        "sendfile"@.len() == 8,
        "sendfile"@[0] == 's',
        "sendfile"@[6] == 'l',
        "sendfile64"@.len() == 10,
        "splice"@.len() == 6,
        "splice"@[0] == 's',
        "splice"@[1] == 'p',
        "mmap"@.len() == 4,
        "mmap"@[0] == 'm',
        "mmap"@[3] == 'p',
        "mmap2"@.len() == 5,
        "mmap2"@[0] == 'm',
        "mmap2"@[3] == 'p',
        "chdir"@.len() == 5,
        "chdir"@[0] == 'c',
        "chdir"@[3] == 'i',
        "fchdir"@.len() == 6,
        "fchdir"@[0] == 'f',
        "fchdir"@[1] == 'c',
        "clone"@.len() == 5,
        "clone"@[0] == 'c',
        "clone"@[3] == 'n',
        "clone3"@.len() == 6,
        "clone3"@[0] == 'c',
        "clone3"@[1] == 'l',
        "fork"@.len() == 4,
        "fork"@[0] == 'f',
        "fork"@[3] == 'k',
        "vfork"@.len() == 5,
        "vfork"@[0] == 'v',
        "vfork"@[3] == 'r',
{
    reveal_strlit("open");
    reveal_strlit("openat");
    reveal_strlit("openat2");
    reveal_strlit("creat");
    reveal_strlit("write");
    reveal_strlit("writev");
    reveal_strlit("pwrite64");
    reveal_strlit("pwritev");
    reveal_strlit("pwritev2");
    reveal_strlit("read");
    reveal_strlit("readv");
    reveal_strlit("lseek");
    reveal_strlit("close");
    reveal_strlit("dup");
    reveal_strlit("dup2");
    reveal_strlit("dup3");
    reveal_strlit("fcntl");
    reveal_strlit("fcntl64");
    reveal_strlit("ftruncate");
    reveal_strlit("truncate");
    reveal_strlit("fsync");
    reveal_strlit("fdatasync");
    reveal_strlit("sync");
    reveal_strlit("syncfs");
    reveal_strlit("sync_file_range");
    reveal_strlit("msync");
    reveal_strlit("rename");
    reveal_strlit("renameat");
    reveal_strlit("renameat2");
    reveal_strlit("unlink");
    reveal_strlit("rmdir");
    reveal_strlit("unlinkat");
    reveal_strlit("mkdir");
    reveal_strlit("mkdirat");
    reveal_strlit("link");
    reveal_strlit("linkat");
    reveal_strlit("symlink");
    reveal_strlit("symlinkat");
    reveal_strlit("fallocate");
    reveal_strlit("copy_file_range");
    reveal_strlit("sendfile");
    reveal_strlit("sendfile64");
    reveal_strlit("splice");
    reveal_strlit("mmap");
    reveal_strlit("mmap2");
    reveal_strlit("chdir");
    reveal_strlit("fchdir");
    reveal_strlit("clone");
    reveal_strlit("clone3");
    reveal_strlit("fork");
    reveal_strlit("vfork");
}

/// Which call each name is.
pub proof fn lemma_names()
    ensures
        sys_named("open"@) == Sys::Open,
        sys_named("openat"@) == Sys::OpenAt,
        sys_named("openat2"@) == Sys::OpenAt,
        sys_named("creat"@) == Sys::Creat,
        sys_named("write"@) == Sys::Write,
        sys_named("writev"@) == Sys::Write,
        sys_named("pwrite64"@) == Sys::WriteAt,
        sys_named("pwritev"@) == Sys::WriteAt,
        sys_named("pwritev2"@) == Sys::WriteAtOr,
        sys_named("read"@) == Sys::Read,
        sys_named("readv"@) == Sys::Read,
        sys_named("lseek"@) == Sys::Seek,
        sys_named("close"@) == Sys::Close,
        sys_named("dup"@) == Sys::Dup,
        sys_named("dup2"@) == Sys::Dup,
        sys_named("dup3"@) == Sys::Dup,
        sys_named("fcntl"@) == Sys::Fcntl,
        sys_named("fcntl64"@) == Sys::Fcntl,
        sys_named("ftruncate"@) == Sys::FTruncate,
        sys_named("truncate"@) == Sys::Truncate,
        sys_named("fsync"@) == Sys::Fsync,
        sys_named("fdatasync"@) == Sys::Fsync,
        sys_named("sync"@) == Sys::Sync,
        sys_named("syncfs"@) == Sys::Sync,
        sys_named("sync_file_range"@) == Sys::NoBarrier,
        sys_named("msync"@) == Sys::NoBarrier,
        sys_named("rename"@) == Sys::Rename,
        sys_named("renameat"@) == Sys::RenameAt,
        sys_named("renameat2"@) == Sys::RenameAt,
        sys_named("unlink"@) == Sys::Unlink,
        sys_named("rmdir"@) == Sys::Unlink,
        sys_named("unlinkat"@) == Sys::UnlinkAt,
        sys_named("mkdir"@) == Sys::Mkdir,
        sys_named("mkdirat"@) == Sys::MkdirAt,
        sys_named("link"@) == Sys::Unmodeled,
        sys_named("linkat"@) == Sys::Unmodeled,
        sys_named("symlink"@) == Sys::Unmodeled,
        sys_named("symlinkat"@) == Sys::Unmodeled,
        sys_named("fallocate"@) == Sys::Unmodeled,
        sys_named("copy_file_range"@) == Sys::Unmodeled,
        sys_named("sendfile"@) == Sys::Unmodeled,
        sys_named("sendfile64"@) == Sys::Unmodeled,
        sys_named("splice"@) == Sys::Unmodeled,
        sys_named("mmap"@) == Sys::Mmap,
        sys_named("mmap2"@) == Sys::Mmap,
        sys_named("chdir"@) == Sys::Chdir,
        sys_named("fchdir"@) == Sys::Fchdir,
        sys_named("clone"@) == Sys::Fork,
        sys_named("clone3"@) == Sys::Fork,
        sys_named("fork"@) == Sys::Fork,
        sys_named("vfork"@) == Sys::Fork,
{
    lemma_spelling();
}

/// A call opened a path below the root with some flags. `open` and `creat` take
/// the path first, `openat` after a directory; the path that the log adds to the
/// result counts before both.
pub open spec fn opens(
    st: StateView,
    pid: u32,
    c: CallView,
    rel: Seq<char>,
    flags: Seq<char>,
) -> bool {
    ||| c.name == "open"@ && flags == arg_of(c, 1) && relative(
        st,
        opened_path(st, pid, c, None, arg_of(c, 0)),
    ) == Some(rel)
    ||| (c.name == "openat"@ || c.name == "openat2"@) && flags == arg_of(c, 2) && relative(
        st,
        opened_path(st, pid, c, Some(arg_of(c, 0)), arg_of(c, 1)),
    ) == Some(rel)
    ||| c.name == "creat"@ && flags == "O_CREAT|O_WRONLY|O_TRUNC"@ && relative(
        st,
        opened_path(st, pid, c, None, arg_of(c, 0)),
    ) == Some(rel)
}

/// The open file description that an fd of a process leads to.
pub open spec fn leads(st: StateView, pid: u32, fd: i64, o: int) -> bool {
    &&& st.table_of.contains_key(pid as i64)
    &&& st.tables[st.table_of[pid as i64] as int].contains_key(fd)
    &&& st.tables[st.table_of[pid as i64] as int][fd] == o
}

/// Only the open files and the fds differ.
pub open spec fn same_but_fds(a: StateView, b: StateView) -> bool {
    &&& a.root == b.root
    &&& a.launch_cwd == b.launch_cwd
    &&& a.ops == b.ops
    &&& a.warnings == b.warnings
    &&& a.cwd == b.cwd
    &&& a.sizes == b.sizes
    &&& a.dirs == b.dirs
}

/// Opening a file that holds something, to truncate it, records exactly one op,
/// the truncation, and the file is known to be empty.
pub proof fn law_open_truncates(
    st: StateView,
    pid: u32,
    c: CallView,
    ret: i64,
    rel: Seq<char>,
    flags: Seq<char>,
)
    requires
        c.ret == Some(ret),
        ret >= 0,
        opens(st, pid, c, rel, flags),
        !contains(flags, "O_TMPFILE"@),
        contains(flags, "O_TRUNC"@),
        st.sizes.contains_key(rel),
        st.sizes[rel] > 0,
    ensures
        after_call(st, pid, c) is Ok,
        after_call(st, pid, c)->Ok_0.ops == st.ops.push(OpView::Truncate { path: rel, len: 0 }),
        after_call(st, pid, c)->Ok_0.sizes == st.sizes.insert(rel, 0),
        after_call(st, pid, c)->Ok_0.dirs == st.dirs,
        after_call(st, pid, c)->Ok_0.warnings == st.warnings,
{
    lemma_names();
}

/// Opening a file that is not there, to create it, records exactly one op, the
/// creation, and the file is known to be there and empty.
pub proof fn law_open_creates(
    st: StateView,
    pid: u32,
    c: CallView,
    ret: i64,
    rel: Seq<char>,
    flags: Seq<char>,
)
    requires
        c.ret == Some(ret),
        ret >= 0,
        opens(st, pid, c, rel, flags),
        !contains(flags, "O_TMPFILE"@),
        contains(flags, "O_CREAT"@),
        !st.sizes.contains_key(rel),
        !st.dirs.contains(rel),
    ensures
        after_call(st, pid, c) is Ok,
        after_call(st, pid, c)->Ok_0.ops == st.ops.push(OpView::Create { path: rel }),
        after_call(st, pid, c)->Ok_0.sizes == st.sizes.insert(rel, 0),
        after_call(st, pid, c)->Ok_0.dirs == st.dirs,
        after_call(st, pid, c)->Ok_0.warnings == st.warnings,
{
    lemma_names();
}

/// Opening a file that is there and is not truncated, or is empty, records
/// nothing.
pub proof fn law_open_records_nothing_else(
    st: StateView,
    pid: u32,
    c: CallView,
    ret: i64,
    rel: Seq<char>,
    flags: Seq<char>,
)
    requires
        c.ret == Some(ret),
        ret >= 0,
        opens(st, pid, c, rel, flags),
        !contains(flags, "O_TMPFILE"@),
        st.sizes.contains_key(rel) || st.dirs.contains(rel) || !contains(flags, "O_CREAT"@),
        !contains(flags, "O_TRUNC"@) || !st.sizes.contains_key(rel) || st.sizes[rel] == 0,
    ensures
        after_call(st, pid, c) is Ok,
        same_but_fds(after_call(st, pid, c)->Ok_0, st),
{
    lemma_names();
}

/// However a file below the root is opened, the new fd starts at the beginning
/// of the file, and writes at its end exactly if it was opened to append. No
/// other position changes, and no other fd.
pub proof fn law_open_starts_at_the_beginning(
    st: StateView,
    pid: u32,
    c: CallView,
    ret: i64,
    rel: Seq<char>,
    flags: Seq<char>,
    other_pid: u32,
    other_fd: i64,
    o: int,
)
    requires
        state_sound(st),
        st.tables.len() < usize::MAX,
        st.ofds.len() < usize::MAX,
        c.ret == Some(ret),
        ret >= 0,
        opens(st, pid, c, rel, flags),
        !contains(flags, "O_TMPFILE"@),
    ensures
        after_call(st, pid, c) is Ok,
        ({
            let after = after_call(st, pid, c)->Ok_0;
            &&& after.ofds == st.ofds.push(Ofd { offset: 0, append: contains(flags, "O_APPEND"@) })
            &&& leads(after, pid, ret, st.ofds.len() as int)
            &&& leads(st, other_pid, other_fd, o) && other_fd != ret ==> leads(
                after,
                other_pid,
                other_fd,
                o,
            )
        }),
{
    lemma_names();
}

/// An unnamed temporary file is warned of, and nothing is recorded.
pub proof fn law_unnamed_files_are_warned_of(
    st: StateView,
    pid: u32,
    c: CallView,
    ret: i64,
    rel: Seq<char>,
    flags: Seq<char>,
)
    requires
        c.ret == Some(ret),
        ret >= 0,
        opens(st, pid, c, rel, flags),
        contains(flags, "O_TMPFILE"@),
    ensures
        after_call(st, pid, c) is Ok,
        only_warns(st, after_call(st, pid, c)->Ok_0, "O_TMPFILE in "@ + rel + " is not modeled"@),
{
    lemma_names();
    lemma_warns(st, "O_TMPFILE in "@ + rel + " is not modeled"@);
}

/// Nothing changed but that a warning stands among the warnings, once.
pub open spec fn only_warns(st: StateView, after: StateView, msg: Seq<char>) -> bool {
    &&& after == StateView { warnings: after.warnings, ..st }
    &&& after.warnings.contains(msg)
    &&& st.warnings.contains(msg) ==> after.warnings == st.warnings
    &&& !st.warnings.contains(msg) ==> after.warnings == st.warnings.push(msg)
}

proof fn lemma_warns(st: StateView, msg: Seq<char>)
    ensures
        only_warns(st, with_warning(st, msg), msg),
{
    let after = with_warning(st, msg);
    if !st.warnings.contains(msg) {
        assert(after.warnings[st.warnings.len() as int] == msg);
    }
}

/// What is opened outside the root changes nothing.
pub proof fn law_outside_the_root_nothing_is_opened(
    st: StateView,
    pid: u32,
    c: CallView,
    ret: i64,
)
    requires
        c.ret == Some(ret),
        ret >= 0,
        (c.name == "open"@ || c.name == "creat"@) && relative(
            st,
            opened_path(st, pid, c, None, arg_of(c, 0)),
        ) is None || (c.name == "openat"@ || c.name == "openat2"@) && relative(
            st,
            opened_path(st, pid, c, Some(arg_of(c, 0)), arg_of(c, 1)),
        ) is None,
    ensures
        after_call(st, pid, c) == Ok::<StateView, Seq<char>>(st),
{
    lemma_names();
}

/// The pieces of a write, taken together.
pub proof fn law_pieces_are_written_in_order(
    a: Seq<(Seq<u8>, bool)>,
    b: Seq<(Seq<u8>, bool)>,
    x: (Seq<u8>, bool),
)
    ensures
        all_bytes(seq![x], 1) == x.0,
        all_bytes(a + b, (a + b).len() as int) == all_bytes(a, a.len() as int) + all_bytes(
            b,
            b.len() as int,
        ),
        any_cut(a + b) <==> any_cut(a) || any_cut(b),
        any_cut(seq![x]) <==> x.1,
{
    reveal_with_fuel(all_bytes, 2);
    assert(all_bytes(seq![x], 1) =~= x.0);
    lemma_pieces(a, b, b.len() as int);
    let all = a + b;
    if any_cut(a) {
        let i = choose|i: int| 0 <= i < a.len() && (#[trigger] a[i]).1;
        assert(all[i].1);
    }
    if any_cut(b) {
        let i = choose|i: int| 0 <= i < b.len() && (#[trigger] b[i]).1;
        assert(all[a.len() + i].1);
    }
    if any_cut(all) {
        let i = choose|i: int| 0 <= i < all.len() && (#[trigger] all[i]).1;
        if i < a.len() {
            assert(a[i].1);
        } else {
            assert(b[i - a.len()].1);
        }
    }
    if x.1 {
        assert(seq![x][0].1);
    }
}

proof fn lemma_pieces(a: Seq<(Seq<u8>, bool)>, b: Seq<(Seq<u8>, bool)>, n: int)
    requires
        0 <= n <= b.len(),
    ensures
        all_bytes(a + b, a.len() + n) == all_bytes(a, a.len() as int) + all_bytes(b, n),
    decreases n,
{
    if n > 0 {
        lemma_pieces(a, b, n - 1);
        assert(all_bytes(a + b, a.len() + n) =~= all_bytes(a, a.len() as int) + all_bytes(b, n));
    } else {
        lemma_front(a, b, a.len() as int);
        assert(all_bytes(a, a.len() as int) + all_bytes(b, 0) =~= all_bytes(a, a.len() as int));
    }
}

proof fn lemma_front(a: Seq<(Seq<u8>, bool)>, b: Seq<(Seq<u8>, bool)>, n: int)
    requires
        0 <= n <= a.len(),
    ensures
        all_bytes(a + b, n) == all_bytes(a, n),
    decreases n,
{
    if n > 0 {
        lemma_front(a, b, n - 1);
    }
}

/// The bytes that a write wrote: the first `n` that were captured, with none of
/// the pieces cut off.
pub open spec fn wrote(c: CallView, n: int, data: Seq<u8>) -> bool {
    let pieces = strings_from(arg_of(c, 1), 0);
    let all = all_bytes(pieces, pieces.len() as int);
    &&& forall|i: int| 0 <= i < pieces.len() ==> !(#[trigger] pieces[i]).1
    &&& n <= all.len()
    &&& data == all.take(n)
}

/// The recording after bytes were written to a file at an offset: one op, if any
/// byte was written, and a size that covers what was written.
pub open spec fn records_write(
    st: StateView,
    after: StateView,
    rel: Seq<char>,
    at: int,
    data: Seq<u8>,
) -> bool {
    let size = if st.sizes.contains_key(rel) {
        st.sizes[rel] as int
    } else {
        0
    };
    &&& data.len() > 0 ==> after.ops == st.ops.push(
        OpView::Write { path: rel, offset: at as u64, data },
    )
    &&& data.len() == 0 ==> after.ops == st.ops
    &&& after.sizes.contains_key(rel)
    &&& after.sizes[rel] == (if size < at + data.len() {
        at + data.len()
    } else {
        size
    })
    &&& after.sizes == st.sizes.insert(rel, after.sizes[rel])
    &&& after.root == st.root
    &&& after.launch_cwd == st.launch_cwd
    &&& after.dirs == st.dirs
    &&& after.cwd == st.cwd
    &&& after.warnings == st.warnings
}

/// A write through an fd that is known goes to its position, or to the end of
/// the file if it appends; the position is then behind the last byte written,
/// and no other position changes.
pub proof fn law_write_goes_to_the_position(
    st: StateView,
    pid: u32,
    c: CallView,
    ret: i64,
    fd: i64,
    path: Seq<char>,
    rel: Seq<char>,
    o: int,
    data: Seq<u8>,
)
    requires
        state_sound(st),
        c.ret == Some(ret),
        0 <= ret <= usize::MAX,
        c.name == "write"@ || c.name == "writev"@ || (c.name == "pwritev2"@ && arg_of(c, 3)
            == "-1"@),
        fd_of(arg_of(c, 0)) == (Some(fd), Some(path)),
        relative(st, path) == Some(rel),
        leads(st, pid, fd, o),
        wrote(c, ret as int, data),
        st.ofds[o].offset + ret <= u64::MAX,
        st.sizes.contains_key(rel) ==> st.sizes[rel] + ret <= u64::MAX,
    ensures
        after_call(st, pid, c) is Ok,
        ({
            let after = after_call(st, pid, c)->Ok_0;
            let at = if !st.ofds[o].append {
                st.ofds[o].offset as int
            } else if st.sizes.contains_key(rel) {
                st.sizes[rel] as int
            } else {
                0
            };
            &&& records_write(st, after, rel, at, data)
            &&& after.ofds == st.ofds.update(
                o,
                Ofd { offset: (at + ret) as u64, append: st.ofds[o].append },
            )
            &&& after.tables == st.tables
            &&& after.table_of == st.table_of
        }),
{
    lemma_names();
    lemma_not_cut(c);
    reveal_strlit("-1");
}

proof fn lemma_not_cut(c: CallView)
    ensures
        any_cut(strings_from(arg_of(c, 1), 0)) <==> !(forall|i: int|
            0 <= i < strings_from(arg_of(c, 1), 0).len() ==> !(#[trigger] strings_from(
                arg_of(c, 1),
                0,
            )[i]).1),
{
}

/// A write through an fd that was never seen opened goes to the end of the file.
pub proof fn law_inherited_fds_are_at_the_end(
    st: StateView,
    pid: u32,
    c: CallView,
    ret: i64,
    fd: i64,
    path: Seq<char>,
    rel: Seq<char>,
    data: Seq<u8>,
)
    requires
        state_sound(st),
        st.tables.len() < usize::MAX,
        st.ofds.len() < usize::MAX,
        c.ret == Some(ret),
        0 <= ret <= usize::MAX,
        c.name == "write"@ || c.name == "writev"@,
        fd_of(arg_of(c, 0)) == (Some(fd), Some(path)),
        relative(st, path) == Some(rel),
        forall|o: int| !leads(st, pid, fd, o),
        wrote(c, ret as int, data),
        st.sizes.contains_key(rel) ==> st.sizes[rel] + ret <= u64::MAX,
    ensures
        after_call(st, pid, c) is Ok,
        ({
            let after = after_call(st, pid, c)->Ok_0;
            let at = if st.sizes.contains_key(rel) {
                st.sizes[rel] as int
            } else {
                0
            };
            &&& records_write(st, after, rel, at, data)
            &&& after.ofds == st.ofds.push(Ofd { offset: (at + ret) as u64, append: false })
            &&& leads(after, pid, fd, st.ofds.len() as int)
        }),
{
    lemma_names();
    lemma_not_cut(c);
    let s = with_table(st, pid);
    let t = s.table_of[pid as i64] as int;
    if s.tables[t].contains_key(fd) {
        assert(leads(st, pid, fd, st.tables[t][fd] as int));
    }
    let after = after_call(st, pid, c)->Ok_0;
    let at = if st.sizes.contains_key(rel) {
        st.sizes[rel] as int
    } else {
        0
    };
    assert(after.ofds =~= st.ofds.push(Ofd { offset: (at + ret) as u64, append: false }));
}

/// A write with an offset of its own goes there, and moves no position.
pub proof fn law_write_at_goes_to_its_offset(
    st: StateView,
    pid: u32,
    c: CallView,
    ret: i64,
    path: Seq<char>,
    rel: Seq<char>,
    at: int,
    data: Seq<u8>,
)
    requires
        c.ret == Some(ret),
        0 <= ret <= usize::MAX,
        c.name == "pwrite64"@ || c.name == "pwritev"@ || (c.name == "pwritev2"@ && arg_of(c, 3)
            != "-1"@),
        fd_of(arg_of(c, 0)).1 == Some(path),
        relative(st, path) == Some(rel),
        number_in(arg_of(c, 3), 10, false, 0, u64::MAX as int) == Some(at),
        0 <= at,
        at + ret <= u64::MAX,
        wrote(c, ret as int, data),
    ensures
        after_call(st, pid, c) is Ok,
        records_write(st, after_call(st, pid, c)->Ok_0, rel, at, data),
        after_call(st, pid, c)->Ok_0.ofds == st.ofds,
        after_call(st, pid, c)->Ok_0.tables == st.tables,
        after_call(st, pid, c)->Ok_0.table_of == st.table_of,
{
    lemma_names();
    lemma_not_cut(c);
}

/// What is written outside the root is a mark if it went to standard output, and
/// otherwise nothing.
pub proof fn law_standard_output_is_a_mark(
    st: StateView,
    pid: u32,
    c: CallView,
    ret: i64,
    data: Seq<u8>,
)
    requires
        c.ret == Some(ret),
        0 <= ret <= usize::MAX,
        c.name == "write"@ || c.name == "writev"@ || c.name == "pwrite64"@ || c.name == "pwritev"@
            || c.name == "pwritev2"@,
        fd_of(arg_of(c, 0)).1 matches Some(path) ==> relative(st, path) is None,
        wrote(c, ret as int, data),
    ensures
        fd_of(arg_of(c, 0)).0 == Some(1i64) ==> after_call(st, pid, c) == Ok::<
            StateView,
            Seq<char>,
        >(StateView { ops: st.ops.push(OpView::Mark { text: lossy_text(data) }), ..st }),
        fd_of(arg_of(c, 0)).0 != Some(1i64) ==> after_call(st, pid, c) == Ok::<
            StateView,
            Seq<char>,
        >(st),
{
    lemma_names();
    lemma_not_cut(c);
}

/// A write of which not every byte was captured is refused.
pub proof fn law_writes_are_captured_whole(st: StateView, pid: u32, c: CallView, ret: i64)
    requires
        c.ret == Some(ret),
        0 <= ret <= usize::MAX,
        c.name == "write"@ || c.name == "writev"@ || c.name == "pwrite64"@ || c.name == "pwritev"@
            || c.name == "pwritev2"@,
        forall|data: Seq<u8>| !wrote(c, ret as int, data),
    ensures
        after_call(st, pid, c) is Err,
{
    lemma_names();
    lemma_not_cut(c);
    let pieces = strings_from(arg_of(c, 1), 0);
    let all = all_bytes(pieces, pieces.len() as int);
    if !any_cut(pieces) && all.len() >= ret {
        assert(wrote(c, ret as int, all.take(ret as int)));
    }
}

/// A read moves the position of its fd as far as it went, and a seek to where it
/// went. Neither changes anything else.
pub proof fn law_reads_and_seeks_move_the_position(
    st: StateView,
    pid: u32,
    c: CallView,
    ret: i64,
    fd: i64,
    path: Seq<char>,
    rel: Seq<char>,
    o: int,
)
    requires
        state_sound(st),
        c.ret == Some(ret),
        ret >= 0,
        c.name == "read"@ || c.name == "readv"@ || c.name == "lseek"@,
        fd_of(arg_of(c, 0)) == (Some(fd), Some(path)),
        relative(st, path) == Some(rel),
        leads(st, pid, fd, o),
        st.ofds[o].offset + ret <= u64::MAX,
    ensures
        after_call(st, pid, c) is Ok,
        ({
            let after = after_call(st, pid, c)->Ok_0;
            &&& after == StateView { ofds: after.ofds, ..st }
            &&& after.ofds == st.ofds.update(
                o,
                Ofd {
                    offset: if c.name == "lseek"@ {
                        ret as u64
                    } else {
                        (st.ofds[o].offset + ret) as u64
                    },
                    append: st.ofds[o].append,
                },
            )
        }),
{
    lemma_names();
    reveal_strlit("read");
    reveal_strlit("readv");
    reveal_strlit("lseek");
}

/// Closing an fd makes it lead nowhere. The other fds of the process lead where
/// they did, and so do those of processes with another table.
pub proof fn law_closed_fds_lead_nowhere(
    st: StateView,
    pid: u32,
    c: CallView,
    ret: i64,
    fd: i64,
    other_pid: u32,
    other_fd: i64,
    o: int,
)
    requires
        state_sound(st),
        st.tables.len() < usize::MAX,
        c.ret == Some(ret),
        ret >= 0,
        c.name == "close"@,
        fd_of(arg_of(c, 0)).0 == Some(fd),
    ensures
        after_call(st, pid, c) is Ok,
        same_but_fds(after_call(st, pid, c)->Ok_0, st),
        after_call(st, pid, c)->Ok_0.ofds == st.ofds,
        forall|o: int| !leads(after_call(st, pid, c)->Ok_0, pid, fd, o),
        leads(st, other_pid, other_fd, o) && other_fd != fd ==> leads(
            after_call(st, pid, c)->Ok_0,
            other_pid,
            other_fd,
            o,
        ),
{
    lemma_names();
}

/// A duplicate leads where the fd leads that it was made from, and so shares its
/// position; `fcntl` duplicates if it is asked to, and does nothing otherwise.
pub proof fn law_duplicates_lead_to_the_same(
    st: StateView,
    pid: u32,
    c: CallView,
    ret: i64,
    fd: i64,
    other_pid: u32,
    other_fd: i64,
    o: int,
    other_o: int,
)
    requires
        state_sound(st),
        c.ret == Some(ret),
        ret >= 0,
        c.name == "dup"@ || c.name == "dup2"@ || c.name == "dup3"@ || c.name == "fcntl"@ || c.name
            == "fcntl64"@,
        fd_of(arg_of(c, 0)).0 == Some(fd),
        leads(st, pid, fd, o),
    ensures
        after_call(st, pid, c) is Ok,
        ({
            let after = after_call(st, pid, c)->Ok_0;
            let dups = c.name == "dup"@ || c.name == "dup2"@ || c.name == "dup3"@
                || starts_with(arg_of(c, 1), "F_DUPFD"@);
            &&& same_but_fds(after, st)
            &&& after.ofds == st.ofds
            &&& dups ==> leads(after, pid, ret, o)
            &&& leads(st, other_pid, other_fd, other_o) && other_fd != ret ==> leads(
                after,
                other_pid,
                other_fd,
                other_o,
            )
            &&& !dups ==> after == st
        }),
{
    lemma_names();
}

/// Setting the length of a file, by its path or by an fd, records a truncation to
/// that length, and the file is known to be that long. A length that is no
/// number is refused, and nothing happens outside the root.
pub proof fn law_truncations_are_recorded(st: StateView, pid: u32, c: CallView, ret: i64)
    requires
        c.ret == Some(ret),
        ret >= 0,
        c.name == "truncate"@ || c.name == "ftruncate"@,
    ensures
        ({
            let r = after_call(st, pid, c);
            let rel = if c.name == "ftruncate"@ {
                fd_relative(st, arg_of(c, 0))
            } else {
                relative(st, path_of_arg(st, pid, None, arg_of(c, 0)))
            };
            let len = number_in(arg_of(c, 1), 10, false, 0, u64::MAX as int);
            &&& rel is None ==> r == Ok::<StateView, Seq<char>>(st)
            &&& rel is Some && len is None ==> r is Err
            &&& rel is Some && len is Some ==> r == Ok::<StateView, Seq<char>>(
                StateView {
                    ops: st.ops.push(OpView::Truncate { path: rel->0, len: len->0 as u64 }),
                    sizes: st.sizes.insert(rel->0, len->0 as u64),
                    ..st
                },
            )
        }),
{
    lemma_names();
    reveal_strlit("truncate");
    reveal_strlit("ftruncate");
}

/// An `fsync` or `fdatasync` of an fd below the root records an fsync of its path
/// and nothing else; `sync` and `syncfs` record a sync.
pub proof fn law_barriers_are_recorded(st: StateView, pid: u32, c: CallView, ret: i64)
    requires
        c.ret == Some(ret),
        ret >= 0,
    ensures
        c.name == "fsync"@ || c.name == "fdatasync"@ ==> after_call(st, pid, c) == Ok::<
            StateView,
            Seq<char>,
        >(
            match fd_relative(st, arg_of(c, 0)) {
                Some(rel) => StateView { ops: st.ops.push(OpView::Fsync { path: rel }), ..st },
                None => st,
            },
        ),
        c.name == "sync"@ || c.name == "syncfs"@ ==> after_call(st, pid, c) == Ok::<
            StateView,
            Seq<char>,
        >(StateView { ops: st.ops.push(OpView::Sync), ..st }),
{
    lemma_names();
}

/// Calls that look like barriers and are none are warned of and record nothing.
pub proof fn law_no_barrier_is_warned_of(st: StateView, pid: u32, c: CallView, ret: i64)
    requires
        c.ret == Some(ret),
        ret >= 0,
        c.name == "sync_file_range"@ || c.name == "msync"@,
    ensures
        after_call(st, pid, c) is Ok,
        only_warns(
            st,
            after_call(st, pid, c)->Ok_0,
            c.name + " is not a durability barrier and was ignored"@,
        ),
{
    lemma_names();
    lemma_warns(st, c.name + " is not a durability barrier and was ignored"@);
}

/// Something at a path or below it.
pub open spec fn at_or_below(k: Seq<char>, top: Seq<char>) -> bool {
    k == top || (k.len() > top.len() && k.take(top.len() as int) == top && k[top.len() as int]
        == '/')
}

/// A path lies below another if it goes on with a slash.
pub proof fn law_below_means_behind_a_slash(k: Seq<char>, top: Seq<char>)
    ensures
        under(k, top) <==> at_or_below(k, top),
{
    reveal_strlit("/");
    let front = top + "/"@;
    if starts_with(k, front) {
        assert(k[top.len() as int] == front[top.len() as int]);
        assert(k.take(top.len() as int) =~= top);
    }
    if k.len() > top.len() && k.take(top.len() as int) == top && k[top.len() as int] == '/' {
        assert forall|i: int| 0 <= i < front.len() implies k[i] == front[i] by {
            if i < top.len() {
                assert(k.take(top.len() as int)[i] == k[i]);
            }
        }
        assert(k.take(front.len() as int) =~= front);
    }
}

/// Nothing is known at a path or below it any more, and everything else is.
pub open spec fn forgets(st: StateView, after: StateView, rel: Seq<char>) -> bool {
    &&& forall|k: Seq<char>| #[trigger]
        after.sizes.contains_key(k) <==> st.sizes.contains_key(k) && !at_or_below(
            k,
            rel,
        )
    &&& forall|k: Seq<char>|
        after.sizes.contains_key(k) ==> #[trigger] after.sizes[k] == st.sizes[k]
    &&& forall|k: Seq<char>| #[trigger]
        after.dirs.contains(k) <==> st.dirs.contains(k) && !at_or_below(
            k,
            rel,
        )
    &&& after.warnings == st.warnings
    &&& after.ofds == st.ofds
    &&& after.tables == st.tables
    &&& after.table_of == st.table_of
    &&& after.cwd == st.cwd
}

/// Forgetting what is at a path and below it.
proof fn lemma_forgets(st: StateView, rel: Seq<char>)
    ensures
        forgets(st, with_removal(st, rel), rel),
{
    let after = with_removal(st, rel);
    assert forall|k: Seq<char>| #[trigger] after.sizes.contains_key(k) <==> st.sizes.contains_key(k)
        && !at_or_below(k, rel) by {
        law_below_means_behind_a_slash(k, rel);
    }
    assert forall|k: Seq<char>| #[trigger] after.dirs.contains(k) <==> st.dirs.contains(k)
        && !at_or_below(k, rel) by {
        law_below_means_behind_a_slash(k, rel);
    }
}

/// Removing a directory that is known records its removal as a directory, and
/// removing anything else as a file. Nothing at the path or below it is known any
/// more, and everything else is.
pub proof fn law_removals_are_recorded(
    st: StateView,
    pid: u32,
    c: CallView,
    ret: i64,
    rel: Seq<char>,
)
    requires
        c.ret == Some(ret),
        ret >= 0,
        (c.name == "unlink"@ || c.name == "rmdir"@) && relative(
            st,
            path_of_arg(st, pid, None, arg_of(c, 0)),
        ) == Some(rel) || c.name == "unlinkat"@ && relative(
            st,
            path_of_arg(st, pid, Some(arg_of(c, 0)), arg_of(c, 1)),
        ) == Some(rel),
    ensures
        after_call(st, pid, c) is Ok,
        ({
            let after = after_call(st, pid, c)->Ok_0;
            after.ops == st.ops.push(
                if st.dirs.contains(rel) {
                    OpView::Rmdir { path: rel }
                } else {
                    OpView::Unlink { path: rel }
                },
            )
        }),
        forgets(st, after_call(st, pid, c)->Ok_0, rel),
{
    lemma_names();
    lemma_forgets(st, rel);
}

/// Making a directory records it, and it is known to be there.
pub proof fn law_directories_are_recorded(
    st: StateView,
    pid: u32,
    c: CallView,
    ret: i64,
    rel: Option<Seq<char>>,
)
    requires
        c.ret == Some(ret),
        ret >= 0,
        c.name == "mkdir"@ && rel == relative(st, path_of_arg(st, pid, None, arg_of(c, 0)))
            || c.name == "mkdirat"@ && rel == relative(
            st,
            path_of_arg(st, pid, Some(arg_of(c, 0)), arg_of(c, 1)),
        ),
    ensures
        after_call(st, pid, c) == Ok::<StateView, Seq<char>>(
            match rel {
                Some(rel) => StateView {
                    ops: st.ops.push(OpView::Mkdir { path: rel }),
                    dirs: st.dirs.insert(rel),
                    ..st
                },
                None => st,
            },
        ),
{
    lemma_names();
}

/// A call renamed one path to another, both absolute, with some flags.
pub open spec fn renames(
    st: StateView,
    pid: u32,
    c: CallView,
    from: Seq<char>,
    to: Seq<char>,
) -> bool {
    ||| c.name == "rename"@ && c.args.len() == 2 && from == path_of_arg(
        st,
        pid,
        None,
        arg_of(c, 0),
    ) && to == path_of_arg(st, pid, None, arg_of(c, 1))
    ||| (c.name == "renameat"@ || c.name == "renameat2"@) && !contains(
        arg_of(c, 4),
        "RENAME_EXCHANGE"@,
    ) && from == path_of_arg(st, pid, Some(arg_of(c, 0)), arg_of(c, 1)) && to == path_of_arg(
        st,
        pid,
        Some(arg_of(c, 2)),
        arg_of(c, 3),
    )
}

proof fn lemma_renames(
    st: StateView,
    pid: u32,
    c: CallView,
    ret: i64,
    from: Seq<char>,
    to: Seq<char>,
)
    requires
        c.ret == Some(ret),
        ret >= 0,
        renames(st, pid, c, from, to),
    ensures
        exists|flags: Seq<char>|
            !contains(flags, "RENAME_EXCHANGE"@) && after_call(st, pid, c) == Ok::<
                StateView,
                Seq<char>,
            >(#[trigger] after_rename(st, from, to, flags)),
{
    lemma_names();
    let flags = arg_of(c, 4);
    if c.name == "rename"@ {
        assert(flags == ""@);
        reveal_strlit("");
        reveal_strlit("RENAME_EXCHANGE");
        lemma_nothing_contains(flags, "RENAME_EXCHANGE"@);
    }
    assert(after_call(st, pid, c) == Ok::<StateView, Seq<char>>(after_rename(st, from, to, flags)));
}

proof fn lemma_nothing_contains(s: Seq<char>, word: Seq<char>)
    requires
        s.len() < word.len(),
    ensures
        !contains(s, word),
{
}

/// A rename within the root records one op, the rename. What stood at the old
/// path and below it stands at the new path and below it, in place of what stood
/// there; nothing stands at the old path any more; and everything else stays.
pub proof fn law_renames_are_recorded(
    st: StateView,
    pid: u32,
    c: CallView,
    ret: i64,
    from: Seq<char>,
    to: Seq<char>,
    f: Seq<char>,
    t: Seq<char>,
    rest: Seq<char>,
    k: Seq<char>,
)
    requires
        c.ret == Some(ret),
        ret >= 0,
        renames(st, pid, c, from, to),
        relative(st, from) == Some(f),
        relative(st, to) == Some(t),
        !at_or_below(t, f),
        !at_or_below(f, t),
        rest.len() > 0 ==> rest[0] == '/',
    ensures
        after_call(st, pid, c) is Ok,
        ({
            let after = after_call(st, pid, c)->Ok_0;
            &&& after.ops == st.ops.push(OpView::Rename { from: f, to: t })
            &&& after.warnings == st.warnings
            &&& st.sizes.contains_key(f + rest) ==> after.sizes.contains_key(t + rest)
                && after.sizes[t + rest] == st.sizes[f + rest]
            &&& after.sizes.contains_key(t) ==> st.sizes.contains_key(f)
            &&& after.sizes.contains_key(t + rest) && rest.len() > 0 ==> st.sizes.contains_key(
                f + rest,
            ) || st.sizes.contains_key(t + rest)
            &&& !after.sizes.contains_key(f + rest)
            &&& !at_or_below(k, f) && !at_or_below(k, t) ==> (after.sizes.contains_key(k)
                <==> st.sizes.contains_key(k)) && (st.sizes.contains_key(k) ==> after.sizes[k]
                == st.sizes[k])
            &&& st.dirs.contains(f + rest) ==> after.dirs.contains(t + rest)
            &&& after.dirs.contains(t) ==> st.dirs.contains(f)
            &&& after.dirs.contains(t + rest) && rest.len() > 0 ==> st.dirs.contains(f + rest)
                || st.dirs.contains(t + rest)
            &&& !after.dirs.contains(f + rest)
            &&& !at_or_below(k, f) && !at_or_below(k, t) ==> (after.dirs.contains(k)
                <==> st.dirs.contains(k))
        }),
{
    lemma_renames(st, pid, c, ret, from, to);
    law_below_means_behind_a_slash(k, f);
    law_below_means_behind_a_slash(k, t);
    law_below_means_behind_a_slash(t, f);
    law_below_means_behind_a_slash(f, t);
    let a = f + rest;
    let b = t + rest;
    law_below_means_behind_a_slash(a, f);
    law_below_means_behind_a_slash(b, t);
    law_below_means_behind_a_slash(a, t);
    law_below_means_behind_a_slash(b, f);
    assert(at_or_below(a, f)) by {
        if rest.len() > 0 {
            assert(a.take(f.len() as int) =~= f);
        } else {
            assert(a =~= f);
        }
    }
    assert(at_or_below(b, t)) by {
        if rest.len() > 0 {
            assert(b.take(t.len() as int) =~= t);
        } else {
            assert(b =~= t);
        }
    }
    assert(!at_or_below(a, t)) by {
        if at_or_below(a, t) {
            lemma_apart(f, t, a);
        }
    }
    assert(!at_or_below(b, f)) by {
        if at_or_below(b, f) {
            lemma_apart(f, t, b);
        }
    }
    assert(rebased(b, t, f) =~= a);
    assert(rebased(t, t, f) =~= f);
    assert(a != t);
    if rest.len() == 0 {
        assert(a =~= f && b =~= t);
    } else {
        assert(b != t);
    }
}

/// Of two paths that one lies at or below, one lies at or below the other.
proof fn lemma_apart(f: Seq<char>, t: Seq<char>, x: Seq<char>)
    requires
        at_or_below(x, f),
        at_or_below(x, t),
    ensures
        at_or_below(f, t) || at_or_below(t, f),
{
    if f.len() <= t.len() {
        assert(t.take(f.len() as int) =~= f) by {
            assert forall|i: int| 0 <= i < f.len() implies t[i] == f[i] by {
                assert(x.take(f.len() as int)[i] == x[i]);
                assert(x.take(t.len() as int)[i] == x[i]);
                if x == t {
                    assert(x.take(f.len() as int)[i] == f[i]);
                }
            }
        }
        if f.len() == t.len() {
            assert(f =~= t);
        } else {
            assert(x[f.len() as int] == '/');
            assert(x == t || x.take(t.len() as int)[f.len() as int] == t[f.len() as int]);
        }
    } else {
        assert(f.take(t.len() as int) =~= t) by {
            assert forall|i: int| 0 <= i < t.len() implies f[i] == t[i] by {
                assert(x.take(f.len() as int)[i] == x[i]);
                assert(x.take(t.len() as int)[i] == x[i]);
            }
        }
        assert(x[t.len() as int] == '/');
        assert(x == f || x.take(f.len() as int)[t.len() as int] == f[t.len() as int]);
    }
}

/// A rename onto itself is recorded and changes nothing else; what leaves the
/// root is removed from it; and what comes in from outside is warned of.
pub proof fn law_renames_at_the_edge(
    st: StateView,
    pid: u32,
    c: CallView,
    ret: i64,
    from: Seq<char>,
    to: Seq<char>,
)
    requires
        c.ret == Some(ret),
        ret >= 0,
        renames(st, pid, c, from, to),
    ensures
        after_call(st, pid, c) is Ok,
        ({
            let after = after_call(st, pid, c)->Ok_0;
            let f = relative(st, from);
            let t = relative(st, to);
            &&& f is Some && f == t ==> after == StateView {
                ops: st.ops.push(OpView::Rename { from: f->0, to: f->0 }),
                ..st
            }
            &&& f is Some && t is None ==> {
                &&& forgets(st, after, f->0)
                &&& after.ops == st.ops.push(
                    if st.dirs.contains(f->0) {
                        OpView::Rmdir { path: f->0 }
                    } else {
                        OpView::Unlink { path: f->0 }
                    },
                )
            }
            &&& f is None && t is Some ==> only_warns(
                st,
                after,
                t->0 + " was moved in from outside the root; its content is not modeled"@,
            )
            &&& f is None && t is None ==> after == st
        }),
{
    lemma_renames(st, pid, c, ret, from, to);
    let f = relative(st, from);
    let t = relative(st, to);
    if f is Some {
        lemma_forgets(st, f->0);
    }
    if t is Some {
        lemma_warns(
            st,
            t->0 + " was moved in from outside the root; its content is not modeled"@,
        );
    }
}

/// Exchanging two paths is warned of, and nothing is recorded.
pub proof fn law_exchanges_are_warned_of(st: StateView, pid: u32, c: CallView, ret: i64)
    requires
        c.ret == Some(ret),
        ret >= 0,
        c.name == "renameat2"@,
        contains(arg_of(c, 4), "RENAME_EXCHANGE"@),
    ensures
        after_call(st, pid, c) is Ok,
        only_warns(
            st,
            after_call(st, pid, c)->Ok_0,
            "renameat2(RENAME_EXCHANGE) is not modeled"@,
        ),
{
    lemma_names();
    lemma_warns(st, "renameat2(RENAME_EXCHANGE) is not modeled"@);
}

/// Links, symbolic links, preallocation and copies between fds are warned of when
/// an argument lies below the root, and change nothing otherwise.
pub proof fn law_unmodeled_names_are_warned_of(st: StateView, pid: u32, c: CallView, ret: i64)
    requires
        c.ret == Some(ret),
        ret >= 0,
        c.name == "link"@ || c.name == "linkat"@ || c.name == "symlink"@ || c.name == "symlinkat"@
            || c.name == "fallocate"@ || c.name == "copy_file_range"@ || c.name == "sendfile"@
            || c.name == "sendfile64"@ || c.name == "splice"@,
    ensures
        after_call(st, pid, c) is Ok,
        ({
            let after = after_call(st, pid, c)->Ok_0;
            let inside = |i: int|
                0 <= i < c.args.len() && (fd_relative(st, c.args[i]) is Some || (
                c.args[i].len() > 0 && c.args[i][0] == '"' && relative(
                    st,
                    path_of_arg(st, pid, None, c.args[i]),
                ) is Some));
            &&& (exists|i: int| #[trigger] inside(i)) ==> only_warns(
                st,
                after,
                c.name + " under the root is not modeled"@,
            )
            &&& !(exists|i: int| #[trigger] inside(i)) ==> after == st
        }),
{
    lemma_names();
    lemma_warns(st, c.name + " under the root is not modeled"@);
    let inside = |i: int|
        0 <= i < c.args.len() && (fd_relative(st, c.args[i]) is Some || (c.args[i].len() > 0
            && c.args[i][0] == '"' && relative(
            st,
            path_of_arg(st, pid, None, c.args[i]),
        ) is Some));
    if any_touches_root(st, pid, c) {
        let i = choose|i: int| 0 <= i < c.args.len() && touches_root(st, pid, #[trigger] c.args[i]);
        assert(inside(i));
    }
    if exists|i: int| #[trigger] inside(i) {
        let i = choose|i: int| #[trigger] inside(i);
        assert(touches_root(st, pid, c.args[i]));
    }
}

/// A shared writable mapping of a file below the root is warned of; any other
/// mapping changes nothing.
pub proof fn law_shared_mappings_are_warned_of(st: StateView, pid: u32, c: CallView, ret: i64)
    requires
        c.ret == Some(ret),
        ret >= 0,
        c.name == "mmap"@ || c.name == "mmap2"@,
    ensures
        after_call(st, pid, c) is Ok,
        ({
            let after = after_call(st, pid, c)->Ok_0;
            let shared = contains(arg_of(c, 2), "PROT_WRITE"@) && contains(
                arg_of(c, 3),
                "MAP_SHARED"@,
            ) && fd_relative(st, arg_of(c, 4)) is Some;
            &&& shared ==> only_warns(
                st,
                after,
                "writes through a shared writable mmap are invisible to unsynced"@,
            )
            &&& !shared ==> after == st
        }),
{
    lemma_names();
    lemma_warns(st, "writes through a shared writable mmap are invisible to unsynced"@);
}

/// Changing the working directory, by path or by fd, changes where the relative
/// paths of that process begin, and nothing else.
pub proof fn law_working_directories_are_followed(
    st: StateView,
    pid: u32,
    c: CallView,
    ret: i64,
    other: u32,
)
    requires
        c.ret == Some(ret),
        ret >= 0,
        c.name == "chdir"@ || (c.name == "fchdir"@ && fd_of(arg_of(c, 0)).1 is Some),
    ensures
        after_call(st, pid, c) is Ok,
        ({
            let after = after_call(st, pid, c)->Ok_0;
            let dir = if c.name == "chdir"@ {
                path_of_arg(st, pid, None, arg_of(c, 0))
            } else {
                normalized(fd_of(arg_of(c, 0)).1->0)
            };
            &&& after == StateView { cwd: after.cwd, ..st }
            &&& cwd_of(after, pid) == dir
            &&& other != pid ==> cwd_of(after, other) == cwd_of(st, other)
        }),
{
    lemma_names();
    reveal_strlit("chdir");
    reveal_strlit("fchdir");
}

/// A new process has the working directory of the one that started it, and fds
/// that lead to the same open files; a thread that shares its files shares the
/// table. The positions stay, and nothing is recorded.
pub proof fn law_children_begin_like_their_parents(
    st: StateView,
    pid: u32,
    c: CallView,
    ret: i64,
    fd: i64,
    o: int,
)
    requires
        state_sound(st),
        st.tables.len() + 1 < usize::MAX,
        c.ret == Some(ret),
        0 < ret <= u32::MAX,
        c.name == "clone"@ || c.name == "clone3"@ || c.name == "fork"@ || c.name == "vfork"@,
        !st.table_of.contains_key(ret),
        !st.cwd.contains_key(ret),
        ret != pid,
        leads(st, pid, fd, o),
    ensures
        after_call(st, pid, c) is Ok,
        ({
            let after = after_call(st, pid, c)->Ok_0;
            let child = ret as u32;
            &&& after == StateView {
                tables: after.tables,
                table_of: after.table_of,
                cwd: after.cwd,
                ..st
            }
            &&& cwd_of(after, child) == cwd_of(st, pid)
            &&& leads(after, child, fd, o)
            &&& leads(after, pid, fd, o)
            &&& (exists|i: int|
                0 <= i < c.args.len() && contains(#[trigger] c.args[i], "CLONE_FILES"@))
                <==> after.table_of[child as i64] == st.table_of[pid as i64]
        }),
{
    lemma_names();
}

/// What is known when tracing begins: the files of the snapshot with their sizes,
/// its directories and the root; no fd, and nothing recorded.
pub proof fn law_what_is_known_at_the_start(
    root: Seq<char>,
    cwd: Seq<char>,
    t: TreeView,
    k: Seq<char>,
    pid: u32,
    fd: i64,
    o: int,
)
    ensures
        started(root, cwd, t).ops.len() == 0,
        started(root, cwd, t).warnings.len() == 0,
        started(root, cwd, t).root == slashed(root),
        cwd_of(started(root, cwd, t), pid) == slashed(cwd),
        !leads(started(root, cwd, t), pid, fd, o),
        started(root, cwd, t).sizes.contains_key(k) <==> t.contains_key(k) && t[k] is File,
        t.contains_key(k) && t[k] is File ==> started(root, cwd, t).sizes[k]
            == t[k]->File_0.len() as u64,
        started(root, cwd, t).dirs.contains(k) <==> k.len() == 0 || (t.contains_key(k)
            && t[k] is Dir),
{
}

/// A log is read line by line, and what is wrong with the first line that cannot
/// be used is told with its number and its text.
pub proof fn law_the_first_bad_line_is_named(rd: Reading, log: Seq<Seq<char>>, n: int) -> (i: int)
    requires
        0 <= n <= log.len(),
        after_lines(rd, log, n) is Err,
    ensures
        0 <= i < n,
        after_lines(rd, log, i) is Ok,
        after_line(after_lines(rd, log, i)->Ok_0, log[i]) is Err,
        after_lines(rd, log, n)->Err_0 == ErrorView::Strace(
            "strace log line "@ + decimal((i + 1) as nat) + ": "@ + after_line(
                after_lines(rd, log, i)->Ok_0,
                log[i],
            )->Err_0 + "\n  "@ + log[i],
        ),
    decreases n,
{
    if after_lines(rd, log, n - 1) is Err {
        law_the_first_bad_line_is_named(rd, log, n - 1)
    } else {
        n - 1
    }
}

/// A process that was seen before its start was logged keeps the fds that it
/// opened since; the others are those of the process that started it.
pub proof fn law_children_keep_what_they_opened(
    st: StateView,
    pid: u32,
    c: CallView,
    ret: i64,
    fd: i64,
    own: int,
    inherited: int,
)
    requires
        state_sound(st),
        st.tables.len() + 1 < usize::MAX,
        c.ret == Some(ret),
        0 < ret <= u32::MAX,
        c.name == "clone"@ || c.name == "clone3"@ || c.name == "fork"@ || c.name == "vfork"@,
        st.table_of.contains_key(ret),
        ret != pid,
        leads(st, pid, fd, inherited),
        st.table_of[ret] != st.table_of[pid as i64],
    ensures
        after_call(st, pid, c) is Ok,
        ({
            let after = after_call(st, pid, c)->Ok_0;
            &&& after.ofds == st.ofds && after.ops == st.ops
            &&& leads(st, ret as u32, fd, own) ==> leads(after, ret as u32, fd, own)
            &&& (forall|o: int| !#[trigger] leads(st, ret as u32, fd, o)) ==> leads(
                after,
                ret as u32,
                fd,
                inherited,
            )
            &&& leads(after, pid, fd, inherited)
        }),
{
    lemma_names();
    let t = st.table_of[ret] as int;
    if st.tables[t].contains_key(fd) {
        assert(leads(st, ret as u32, fd, st.tables[t][fd] as int));
    }
}

/// A call that starts a process says nothing in the process that it started.
pub proof fn law_new_processes_say_nothing(st: StateView, pid: u32, c: CallView)
    requires
        c.ret == Some(0i64),
        c.name == "clone"@ || c.name == "clone3"@ || c.name == "fork"@ || c.name == "vfork"@,
    ensures
        after_call(st, pid, c) == Ok::<StateView, Seq<char>>(st),
{
    lemma_names();
}

/// Outside the root nothing is truncated, synced, removed, read or made, and no
/// position is kept.
pub proof fn law_outside_the_root_nothing_happens(st: StateView, pid: u32, c: CallView, ret: i64)
    requires
        c.ret == Some(ret),
        ret >= 0,
        (c.name == "read"@ || c.name == "readv"@ || c.name == "lseek"@ || c.name == "fsync"@
            || c.name == "fdatasync"@ || c.name == "ftruncate"@) && fd_relative(
            st,
            arg_of(c, 0),
        ) is None || (c.name == "truncate"@ || c.name == "unlink"@ || c.name == "rmdir"@ || c.name
            == "mkdir"@) && relative(st, path_of_arg(st, pid, None, arg_of(c, 0))) is None || (
        c.name == "unlinkat"@ || c.name == "mkdirat"@) && relative(
            st,
            path_of_arg(st, pid, Some(arg_of(c, 0)), arg_of(c, 1)),
        ) is None,
    ensures
        after_call(st, pid, c) == Ok::<StateView, Seq<char>>(st),
{
    lemma_names();
}

} // verus!
