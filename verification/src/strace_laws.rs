//! What holds of every log that is read.

use crate::error::ErrorView;
use crate::hex::{hex_digit, lemma_byte_back};
use crate::strace::{
    after_advance, after_call, after_call_text, after_close, after_dup, after_fork, after_line,
    after_lines, after_log, after_move_of_fd, after_open, after_rename, after_success,
    after_unlink, after_write, after_write_at, any_holds, any_touches_root, arg_of, normalized,
    ofd_index, opened_path, path_of_arg, resolved, started, state_sound, sys_named, table_index,
    with_table, Reading, StateView, Sys,
};
use crate::syscall::{
    args_from, call_in, closing, fd_of, hex_pair, is_alphanumeric, is_name, lemma_closing,
    pid_and_rest, strings_from, unescaped, CallView,
};
use crate::text::{
    ends_with, find_from, index_from, is_white, joined, lemma_index_from, lines, split_on,
    starts_with, trim, trim_end, trim_start,
};
use crate::trace::{OpView, TreeView};
use vstd::prelude::*;
use vstd::utf8::{encode_utf8, is_ascii_chars};

verus! {

/// A call that failed changes nothing.
pub proof fn law_failed_calls_change_nothing(st: StateView, pid: u32, c: CallView)
    requires
        c.ret is None || c.ret->0 < 0,
    ensures
        after_call(st, pid, c) == Ok::<StateView, Seq<char>>(st),
{
}

/// `later` has the ops and the warnings of `st` at its front.
pub open spec fn goes_on(later: StateView, st: StateView) -> bool {
    &&& later.root == st.root
    &&& st.ops.len() <= later.ops.len() <= st.ops.len() + 1
    &&& later.ops.take(st.ops.len() as int) == st.ops
    &&& st.warnings.len() <= later.warnings.len() <= st.warnings.len() + 1
    &&& later.warnings.take(st.warnings.len() as int) == st.warnings
}

/// Nothing was recorded, or one op, and nothing warned of, or one thing.
spec fn adds_little(later: StateView, st: StateView) -> bool {
    &&& later.root == st.root
    &&& later.ops == st.ops || exists|op: OpView| later.ops == #[trigger] st.ops.push(op)
    &&& later.warnings == st.warnings || exists|w: Seq<char>|
        later.warnings == #[trigger] st.warnings.push(w)
}

proof fn lemma_goes_on(later: StateView, st: StateView)
    requires
        adds_little(later, st),
    ensures
        goes_on(later, st),
{
    assert(later.ops.take(st.ops.len() as int) =~= st.ops);
    assert(later.warnings.take(st.warnings.len() as int) =~= st.warnings);
}

proof fn lemma_write_adds_little(st: StateView, pid: u32, sys: Sys, c: CallView, ret: i64)
    requires
        after_write(st, pid, sys, c, ret) is Ok,
    ensures
        adds_little(after_write(st, pid, sys, c, ret)->Ok_0, st),
{
}

proof fn lemma_open_adds_little(
    st: StateView,
    pid: u32,
    fd: i64,
    abs: Seq<char>,
    flags: Seq<char>,
)
    ensures
        adds_little(after_open(st, pid, fd, abs, flags), st),
{
}

proof fn lemma_fork_adds_little(st: StateView, pid: u32, child: u32, shared: bool)
    ensures
        adds_little(after_fork(st, pid, child, shared), st),
{
}

proof fn lemma_rename_adds_little(
    st: StateView,
    from: Seq<char>,
    to: Seq<char>,
    flags: Seq<char>,
)
    ensures
        adds_little(after_rename(st, from, to, flags), st),
{
}

proof fn lemma_unlink_adds_little(st: StateView, abs: Seq<char>)
    ensures
        adds_little(after_unlink(st, abs), st),
{
}

proof fn lemma_fds_add_little(st: StateView, pid: u32, arg: Seq<char>, n: i64, seek: bool)
    ensures
        adds_little(after_move_of_fd(st, pid, arg, n, seek), st),
        adds_little(after_close(st, pid, arg), st),
        adds_little(after_dup(st, pid, arg, n), st),
{
}

proof fn lemma_success_adds_little(st: StateView, pid: u32, c: CallView, ret: i64)
    requires
        after_success(st, pid, c, ret) is Ok,
    ensures
        adds_little(after_success(st, pid, c, ret)->Ok_0, st),
{
    let sys = sys_named(c.name);
    match sys {
        Sys::Open => {
            lemma_open_adds_little(
                st,
                pid,
                ret,
                opened_path(st, pid, c, None, arg_of(c, 0)),
                arg_of(c, 1),
            );
        },
        Sys::OpenAt => {
            lemma_open_adds_little(
                st,
                pid,
                ret,
                opened_path(st, pid, c, Some(arg_of(c, 0)), arg_of(c, 1)),
                arg_of(c, 2),
            );
        },
        Sys::Creat => {
            lemma_open_adds_little(
                st,
                pid,
                ret,
                opened_path(st, pid, c, None, arg_of(c, 0)),
                "O_CREAT|O_WRONLY|O_TRUNC"@,
            );
        },
        Sys::Write | Sys::WriteAt | Sys::WriteAtOr => {
            lemma_write_adds_little(st, pid, sys, c, ret);
        },
        Sys::Read | Sys::Seek | Sys::Close | Sys::Dup | Sys::Fcntl => {
            lemma_fds_add_little(st, pid, arg_of(c, 0), ret, sys == Sys::Seek);
        },
        Sys::Rename => {
            lemma_rename_adds_little(
                st,
                path_of_arg(st, pid, None, arg_of(c, 0)),
                path_of_arg(st, pid, None, arg_of(c, 1)),
                arg_of(c, 4),
            );
        },
        Sys::RenameAt => {
            lemma_rename_adds_little(
                st,
                path_of_arg(st, pid, Some(arg_of(c, 0)), arg_of(c, 1)),
                path_of_arg(st, pid, Some(arg_of(c, 2)), arg_of(c, 3)),
                arg_of(c, 4),
            );
        },
        Sys::Unlink => {
            lemma_unlink_adds_little(st, path_of_arg(st, pid, None, arg_of(c, 0)));
        },
        Sys::UnlinkAt => {
            lemma_unlink_adds_little(
                st,
                path_of_arg(st, pid, Some(arg_of(c, 0)), arg_of(c, 1)),
            );
        },
        Sys::Fork => {
            lemma_fork_adds_little(st, pid, ret as u32, any_holds(c, "CLONE_FILES"@));
        },
        _ => {},
    }
}

/// What was recorded stays as it was recorded: a call adds at most one op and at
/// most one warning.
pub proof fn law_recording_only_grows(st: StateView, pid: u32, c: CallView)
    requires
        after_call(st, pid, c) is Ok,
    ensures
        goes_on(after_call(st, pid, c)->Ok_0, st),
{
    match c.ret {
        Some(ret) if ret >= 0 => {
            lemma_success_adds_little(st, pid, c, ret);
            lemma_goes_on(after_call(st, pid, c)->Ok_0, st);
        },
        _ => {
            lemma_goes_on(st, st);
        },
    }
}

/// A call that is not modeled is warned of when it speaks of something inside
/// the root, and otherwise changes nothing; it is never recorded.
pub proof fn law_unmodeled_calls_are_warned_of(st: StateView, pid: u32, c: CallView)
    requires
        sys_named(c.name) == Sys::Unmodeled,
        c.ret is Some && c.ret->0 >= 0,
    ensures
        after_call(st, pid, c) is Ok,
        after_call(st, pid, c)->Ok_0.ops == st.ops,
        any_touches_root(st, pid, c) ==> after_call(st, pid, c)->Ok_0.warnings.contains(
            c.name + " under the root is not modeled"@,
        ),
        !any_touches_root(st, pid, c) ==> after_call(st, pid, c)->Ok_0 == st,
{
    let msg = c.name + " under the root is not modeled"@;
    if any_touches_root(st, pid, c) && !st.warnings.contains(msg) {
        let later = after_call(st, pid, c)->Ok_0;
        assert(later.warnings[st.warnings.len() as int] == msg);
    }
}

/// A duplicated fd shares the position of the one it was made from.
pub proof fn law_duplicates_share_the_position(st: StateView, pid: u32, arg: Seq<char>, new: i64)
    requires
        state_sound(st),
        st.table_of.contains_key(pid as i64),
        fd_of(arg).0 is Some,
        st.tables[table_index(st, pid)].contains_key(fd_of(arg).0->0),
    ensures
        ofd_index(after_dup(st, pid, arg, new), pid, new) == ofd_index(st, pid, fd_of(arg).0->0),
        after_dup(st, pid, arg, new).ofds == st.ofds,
{
}

/// A new process shares the positions of the fds that it inherits, and a new
/// thread shares the whole table.
pub proof fn law_children_share_positions(
    st: StateView,
    pid: u32,
    child: u32,
    shared: bool,
    fd: i64,
)
    requires
        state_sound(st),
        st.table_of.contains_key(pid as i64),
        !st.table_of.contains_key(child as i64),
        child != 0,
        st.tables.len() < usize::MAX,
        st.tables[table_index(st, pid)].contains_key(fd),
    ensures
        ofd_index(after_fork(st, pid, child, shared), child, fd) == ofd_index(st, pid, fd),
        after_fork(st, pid, child, shared).ofds == st.ofds,
        shared ==> table_index(after_fork(st, pid, child, shared), child) == table_index(st, pid),
        !shared ==> table_index(after_fork(st, pid, child, shared), child) != table_index(st, pid),
{
}

/// Two writes through the same fd follow one another: the second begins where
/// the first ended.
pub proof fn law_writes_follow_one_another(
    st: StateView,
    pid: u32,
    fd: i64,
    rel: Seq<char>,
    data: Seq<u8>,
    n: usize,
    m: usize,
)
    requires
        state_sound(st),
        st.tables.len() < usize::MAX,
        st.ofds.len() < usize::MAX,
        after_advance(st, pid, fd, rel, n).0 + n <= u64::MAX,
    ensures
        ({
            let (at, moved) = after_advance(st, pid, fd, rel, n);
            let written = after_write_at(moved, rel, at, data, n);
            after_advance(written, pid, fd, rel, m).0 == at + n
        }),
{
    let (at, moved) = after_advance(st, pid, fd, rel, n);
    let written = after_write_at(moved, rel, at, data, n);
    let t = table_index(moved, pid);
    assert(with_table(st, pid).table_of.contains_key(pid as i64));
    assert(moved.table_of.contains_key(pid as i64));
    assert(moved.tables[t].contains_key(fd));
    assert(written.tables == moved.tables);
}

/// A component that stands for itself.
pub open spec fn is_plain(s: Seq<char>) -> bool {
    s.len() > 0 && s != "."@ && s != ".."@ && !s.contains('/')
}

/// Components that stand for themselves.
pub open spec fn all_plain(v: Seq<Seq<char>>) -> bool {
    forall|i: int| 0 <= i < v.len() ==> is_plain(#[trigger] v[i])
}

pub proof fn lemma_pieces_have_no_slash(s: Seq<char>)
    ensures
        forall|i: int|
            0 <= i < split_on(s, '/').len() ==> !(#[trigger] split_on(s, '/')[i]).contains('/'),
    decreases s.len(),
{
    lemma_index_from(s, '/', 0);
    let at = index_from(s, '/', 0);
    let all = split_on(s, '/');
    if at < s.len() {
        lemma_pieces_have_no_slash(s.skip(at + 1));
        let rest = split_on(s.skip(at + 1), '/');
        assert forall|i: int| 0 <= i < all.len() implies !(#[trigger] all[i]).contains('/') by {
            if i == 0 {
                assert(all[0] == s.take(at));
            } else {
                assert(all[i] == rest[i - 1]);
            }
        }
    } else {
        assert(all[0] == s);
    }
}

/// What is left of a path holds no empty component, no `.` and no `..`.
pub proof fn lemma_resolved_is_plain(pieces: Seq<Seq<char>>, n: int)
    requires
        0 <= n <= pieces.len(),
        forall|i: int| 0 <= i < pieces.len() ==> !(#[trigger] pieces[i]).contains('/'),
    ensures
        all_plain(resolved(pieces, n)),
    decreases n,
{
    if n > 0 {
        lemma_resolved_is_plain(pieces, n - 1);
        let before = resolved(pieces, n - 1);
        let after = resolved(pieces, n);
        assert(!pieces[n - 1].contains('/'));
        assert forall|i: int| 0 <= i < after.len() implies is_plain(#[trigger] after[i]) by {
            if i < before.len() {
                assert(after[i] == before[i]);
            }
        }
    }
}

pub proof fn lemma_split_at_last(a: Seq<char>, b: Seq<char>)
    requires
        !b.contains('/'),
    ensures
        split_on(a + seq!['/'] + b, '/') == split_on(a, '/') + seq![b],
    decreases a.len(),
{
    let s = a + seq!['/'] + b;
    lemma_index_from(s, '/', 0);
    lemma_index_from(a, '/', 0);
    lemma_index_from(b, '/', 0);
    let at = index_from(s, '/', 0);
    let in_a = index_from(a, '/', 0);
    assert(s[a.len() as int] == '/');
    if in_a < a.len() {
        assert(s[in_a] == '/');
        assert forall|j: int| 0 <= j < in_a implies s[j] != '/' by {
            assert(s[j] == a[j]);
        }
        assert(at == in_a);
        lemma_split_at_last(a.skip(at + 1), b);
        assert(s.skip(at + 1) =~= a.skip(at + 1) + seq!['/'] + b);
        assert(s.take(at) =~= a.take(at));
        assert(split_on(s, '/') =~= split_on(a, '/') + seq![b]);
    } else {
        assert forall|j: int| 0 <= j < a.len() implies s[j] != '/' by {
            assert(s[j] == a[j]);
        }
        assert(at == a.len());
        assert(s.take(at) =~= a);
        assert(s.skip(at + 1) =~= b);
        let in_b = index_from(b, '/', 0);
        if in_b < b.len() {
            assert(b.contains(b[in_b]));
        }
        assert(split_on(b, '/') =~= seq![b]);
        assert(split_on(s, '/') =~= split_on(a, '/') + seq![b]);
    }
}

proof fn lemma_split_joined(v: Seq<Seq<char>>)
    requires
        all_plain(v),
        v.len() > 0,
    ensures
        split_on(joined(v, "/"@), '/') == v,
    decreases v.len(),
{
    reveal_strlit("/");
    assert("/"@ =~= seq!['/']);
    assert(is_plain(v.last()));
    if v.len() == 1 {
        assert(is_plain(v[0]));
        lemma_index_from(v[0], '/', 0);
        let at = index_from(v[0], '/', 0);
        if at < v[0].len() {
            assert(v[0].contains(v[0][at]));
        }
        assert(split_on(joined(v, "/"@), '/') =~= v);
    } else {
        let front = v.drop_last();
        assert forall|i: int| 0 <= i < front.len() implies is_plain(#[trigger] front[i]) by {
            assert(front[i] == v[i]);
        }
        lemma_split_joined(front);
        lemma_split_at_last(joined(front, "/"@), v.last());
        assert(front + seq![v.last()] =~= v);
    }
}

proof fn lemma_plain_is_resolved(v: Seq<Seq<char>>, lead: Seq<Seq<char>>, n: int)
    requires
        all_plain(v),
        forall|i: int| 0 <= i < lead.len() ==> (#[trigger] lead[i]).len() == 0,
        0 <= n <= lead.len() + v.len(),
    ensures
        n <= lead.len() ==> resolved(lead + v, n) == Seq::<Seq<char>>::empty(),
        n >= lead.len() ==> resolved(lead + v, n) == v.take(n - lead.len()),
    decreases n,
{
    if n > 0 {
        lemma_plain_is_resolved(v, lead, n - 1);
        if n > lead.len() {
            let k = n - 1 - lead.len();
            assert((lead + v)[n - 1] == v[k]);
            assert(is_plain(v[k]));
            assert(v.take(k + 1) =~= v.take(k).push(v[k]));
        } else {
            assert((lead + v)[n - 1] == lead[n - 1]);
            assert(v.take(0) =~= Seq::<Seq<char>>::empty());
        }
    } else {
        assert(v.take(0) =~= Seq::<Seq<char>>::empty());
    }
}

pub proof fn lemma_joined_begins_plain(v: Seq<Seq<char>>)
    requires
        all_plain(v),
        v.len() > 0,
    ensures
        joined(v, "/"@).len() > 0,
        joined(v, "/"@)[0] != '/',
    decreases v.len(),
{
    if v.len() == 1 {
        assert(is_plain(v[0]));
        assert(v[0].contains(v[0][0]));
    } else {
        let front = v.drop_last();
        assert forall|i: int| 0 <= i < front.len() implies is_plain(#[trigger] front[i]) by {
            assert(front[i] == v[i]);
        }
        lemma_joined_begins_plain(front);
    }
}

/// A normalized path names its components plainly, and stays as it is when it is
/// normalized again.
pub proof fn law_normalizing_is_idempotent(p: Seq<char>)
    ensures
        all_plain(resolved(split_on(p, '/'), split_on(p, '/').len() as int)),
        normalized(normalized(p)) == normalized(p),
{
    reveal_strlit("/");
    reveal_strlit("");
    let pieces = split_on(p, '/');
    let v = resolved(pieces, pieces.len() as int);
    lemma_pieces_have_no_slash(p);
    lemma_resolved_is_plain(pieces, pieces.len() as int);
    let q = normalized(p);
    let path = joined(v, "/"@);
    let again = split_on(q, '/');
    let empty = Seq::<char>::empty();
    assert("/"@ =~= seq!['/']);
    assert(""@ =~= empty);
    lemma_index_from(empty, '/', 0);
    assert(split_on(empty, '/') =~= seq![empty]);
    if v.len() > 0 {
        lemma_split_joined(v);
        lemma_joined_begins_plain(v);
    }
    let rest = split_on(path, '/');
    if p.len() > 0 && p[0] == '/' {
        assert(q =~= seq!['/'] + path);
        lemma_index_from(q, '/', 0);
        assert(q[0] == '/');
        assert(index_from(q, '/', 0) == 0);
        assert(q.take(0) =~= empty);
        assert(q.skip(1) =~= path);
        assert(again =~= seq![empty] + rest);
        if v.len() > 0 {
            lemma_plain_is_resolved(v, seq![empty], again.len() as int);
            assert(v.take(v.len() as int) =~= v);
        } else {
            assert(again =~= seq![empty, empty] + v);
            lemma_plain_is_resolved(v, seq![empty, empty], again.len() as int);
            assert(v.take(0) =~= v);
        }
    } else {
        assert(q =~= path);
        if v.len() > 0 {
            assert(again =~= Seq::<Seq<char>>::empty() + v);
            lemma_plain_is_resolved(v, Seq::empty(), again.len() as int);
            assert(v.take(v.len() as int) =~= v);
        } else {
            assert(again =~= seq![empty] + v);
            lemma_plain_is_resolved(v, seq![empty], again.len() as int);
            assert(v.take(0) =~= v);
        }
    }
}

/// A log is read piece by piece.
proof fn lemma_lines_appended(rd: Reading, a: Seq<Seq<char>>, b: Seq<Seq<char>>, k: int)
    requires
        0 <= k <= b.len(),
    ensures
        ({
            let whole = after_lines(rd, a + b, a.len() + k);
            let first = after_lines(rd, a, a.len() as int);
            &&& whole is Ok <==> first is Ok && after_lines(first->Ok_0, b, k) is Ok
            &&& whole is Ok ==> whole->Ok_0 == after_lines(first->Ok_0, b, k)->Ok_0
        }),
    decreases k,
{
    if k == 0 {
        lemma_lines_prefix(rd, a, b, a.len() as int);
    } else {
        lemma_lines_appended(rd, a, b, k - 1);
        assert((a + b)[a.len() + k - 1] == b[k - 1]);
    }
}

proof fn lemma_lines_prefix(rd: Reading, a: Seq<Seq<char>>, b: Seq<Seq<char>>, n: int)
    requires
        0 <= n <= a.len(),
    ensures
        after_lines(rd, a + b, n) == after_lines(rd, a, n),
    decreases n,
{
    if n > 0 {
        lemma_lines_prefix(rd, a, b, n - 1);
        assert((a + b)[n - 1] == a[n - 1]);
    }
}

/// The same, but for a call of a process whose end is not logged yet.
spec fn waiting(rd: Reading, pid: u32, head: Seq<char>) -> Reading {
    Reading { st: rd.st, pending: rd.pending.insert(pid as i64, head) }
}

/// A line that is not about a process.
pub open spec fn is_of_another(line: Seq<char>, pid: u32) -> bool {
    pid_and_rest(line) matches Some((other, _)) ==> other != pid
}

/// What other processes do has nothing to do with a call that waits for its end.
proof fn lemma_line_of_another(rd: Reading, line: Seq<char>, pid: u32, head: Seq<char>)
    requires
        is_of_another(line, pid),
        !rd.pending.contains_key(pid as i64),
        after_line(rd, line) is Ok,
    ensures
        after_line(waiting(rd, pid, head), line) == Ok::<Reading, Seq<char>>(
            waiting(after_line(rd, line)->Ok_0, pid, head),
        ),
        !after_line(rd, line)->Ok_0.pending.contains_key(pid as i64),
{
    match pid_and_rest(line) {
        None => {},
        Some((other, rest)) => {
            let k = pid as i64;
            let o = other as i64;
            let w = waiting(rd, pid, head);
            let x = trim_end(rest.take(rest.len() - "<unfinished ...>"@.len()));
            assert(w.pending.insert(o, x) =~= rd.pending.insert(o, x).insert(k, head));
            assert(w.pending.remove(o) =~= rd.pending.remove(o).insert(k, head));
            assert(w.pending.contains_key(o) == rd.pending.contains_key(o));
        },
    }
}

proof fn lemma_lines_of_others(
    rd: Reading,
    log: Seq<Seq<char>>,
    pid: u32,
    head: Seq<char>,
    n: int,
)
    requires
        0 <= n <= log.len(),
        forall|i: int| 0 <= i < log.len() ==> is_of_another(#[trigger] log[i], pid),
        !rd.pending.contains_key(pid as i64),
        after_lines(rd, log, n) is Ok,
    ensures
        after_lines(waiting(rd, pid, head), log, n) == Ok::<Reading, ErrorView>(
            waiting(after_lines(rd, log, n)->Ok_0, pid, head),
        ),
        !after_lines(rd, log, n)->Ok_0.pending.contains_key(pid as i64),
    decreases n,
{
    if n > 0 {
        lemma_lines_of_others(rd, log, pid, head, n - 1);
        assert(is_of_another(log[n - 1], pid));
        lemma_line_of_another(after_lines(rd, log, n - 1)->Ok_0, log[n - 1], pid, head);
    }
}

/// Nothing but white space.
pub open spec fn is_gap(s: Seq<char>) -> bool {
    forall|i: int| 0 <= i < s.len() ==> is_white(#[trigger] s[i])
}

/// Whether a comma between two arguments stands at the end of a text, of which
/// the arguments are read from index `i` on. Commas count as in `args_from`.
pub open spec fn comma_ends(s: Seq<char>, i: int, depth: nat) -> bool
    decreases s.len() - i + 1,
{
    if i < 0 || i >= s.len() {
        false
    } else {
        proof {
            lemma_closing(s, i + 1, '"');
            lemma_closing(s, i + 1, '>');
        }
        let c = s[i];
        if c == '"' {
            comma_ends(s, closing(s, i + 1, '"') + 1, depth)
        } else if c == '<' && i > 0 && is_alphanumeric(s[i - 1]) {
            comma_ends(s, closing(s, i + 1, '>') + 1, depth)
        } else if c == '(' || c == '[' || c == '{' {
            comma_ends(s, i + 1, depth + 1)
        } else if c == ')' && depth == 0 {
            false
        } else if c == ')' || c == ']' || c == '}' {
            comma_ends(
                s,
                i + 1,
                if depth == 0 {
                    0
                } else {
                    (depth - 1) as nat
                },
            )
        } else if c == ',' && depth == 0 {
            i + 1 == s.len() || comma_ends(s, i + 1, depth)
        } else {
            comma_ends(s, i + 1, depth)
        }
    }
}

/// A text that begins a call and ends where an argument starts.
pub open spec fn ends_at_argument(s: Seq<char>) -> bool {
    let open = index_from(s, '(', 0);
    open < s.len() && (open + 1 == s.len() || comma_ends(s, open + 1, 0))
}

/// A text that begins a call and ends behind its arguments, in front of the
/// equals sign or right behind it.
pub open spec fn ends_before_result(s: Seq<char>) -> bool {
    let open = index_from(s, '(', 0);
    open < s.len() && match args_from(s, open + 1, open + 1, 0, Seq::empty()) {
        Some((end, _)) => end + 1 == s.len() || trim_start(s.skip(end + 1)) == seq!['='],
        None => false,
    }
}

/// A text that begins a call and ends where white space makes no difference.
pub open spec fn ends_between_parts(s: Seq<char>) -> bool {
    ends_at_argument(s) || ends_before_result(s)
}

proof fn lemma_closing_stays(s: Seq<char>, x: Seq<char>, i: int, close: char)
    requires
        0 <= i <= s.len(),
        closing(s, i, close) < s.len(),
    ensures
        closing(s + x, i, close) == closing(s, i, close),
    decreases s.len() - i,
{
    if i < s.len() {
        assert((s + x)[i] == s[i]);
        if s[i] != close {
            if s[i] == '\\' {
                if i + 2 > s.len() {
                    assert(closing(s, i + 2, close) == s.len());
                }
                lemma_closing_stays(s, x, i + 2, close);
            } else {
                lemma_closing_stays(s, x, i + 1, close);
            }
        }
    }
}

/// What is read up to the last comma does not depend on what follows.
proof fn lemma_read_to_comma(
    s: Seq<char>,
    x: Seq<char>,
    y: Seq<char>,
    i: int,
    start: int,
    depth: nat,
    args: Seq<Seq<char>>,
) -> (read: Seq<Seq<char>>)
    requires
        comma_ends(s, i, depth),
        0 <= start <= i,
    ensures
        args_from(s + x, i, start, depth, args) == args_from(
            s + x,
            s.len() as int,
            s.len() as int,
            0,
            read,
        ),
        args_from(s + y, i, start, depth, args) == args_from(
            s + y,
            s.len() as int,
            s.len() as int,
            0,
            read,
        ),
        s.len() > 0 && s.last() == ',',
    decreases s.len() - i + 1,
{
    let c = s[i];
    assert((s + x)[i] == c && (s + y)[i] == c);
    if i > 0 {
        assert((s + x)[i - 1] == s[i - 1] && (s + y)[i - 1] == s[i - 1]);
    }
    lemma_closing(s, i + 1, '"');
    lemma_closing(s, i + 1, '>');
    if c == '"' {
        let end = closing(s, i + 1, '"');
        assert(comma_ends(s, end + 1, depth));
        lemma_closing_stays(s, x, i + 1, '"');
        lemma_closing_stays(s, y, i + 1, '"');
        lemma_read_to_comma(s, x, y, end + 1, start, depth, args)
    } else if c == '<' && i > 0 && is_alphanumeric(s[i - 1]) {
        let end = closing(s, i + 1, '>');
        assert(comma_ends(s, end + 1, depth));
        lemma_closing_stays(s, x, i + 1, '>');
        lemma_closing_stays(s, y, i + 1, '>');
        lemma_read_to_comma(s, x, y, end + 1, start, depth, args)
    } else if c == '(' || c == '[' || c == '{' {
        lemma_read_to_comma(s, x, y, i + 1, start, depth + 1, args)
    } else if c == ')' || c == ']' || c == '}' {
        let less = if depth == 0 {
            0
        } else {
            (depth - 1) as nat
        };
        lemma_read_to_comma(s, x, y, i + 1, start, less, args)
    } else if c == ',' && depth == 0 {
        let arg = s.subrange(start, i);
        assert((s + x).subrange(start, i) =~= arg);
        assert((s + y).subrange(start, i) =~= arg);
        let more = args.push(trim(arg));
        if i + 1 == s.len() {
            more
        } else {
            lemma_read_to_comma(s, x, y, i + 1, i + 1, depth, more)
        }
    } else {
        lemma_read_to_comma(s, x, y, i + 1, start, depth, args)
    }
}

proof fn lemma_trim_start_gap(gap: Seq<char>, s: Seq<char>)
    requires
        is_gap(gap),
    ensures
        trim_start(gap + s) == trim_start(s),
    decreases gap.len(),
{
    if gap.len() > 0 {
        let rest = gap.skip(1);
        assert forall|i: int| 0 <= i < rest.len() implies is_white(#[trigger] rest[i]) by {
            assert(rest[i] == gap[i + 1]);
        }
        lemma_trim_start_gap(rest, s);
        assert(is_white(gap[0]));
        assert((gap + s).skip(1) =~= rest + s);
    } else {
        assert(gap + s =~= s);
    }
}

proof fn lemma_trim_end_gap(s: Seq<char>, gap: Seq<char>)
    requires
        is_gap(gap),
    ensures
        trim_end(s + gap) == trim_end(s),
    decreases gap.len(),
{
    if gap.len() > 0 {
        let rest = gap.drop_last();
        assert forall|i: int| 0 <= i < rest.len() implies is_white(#[trigger] rest[i]) by {
            assert(rest[i] == gap[i]);
        }
        lemma_trim_end_gap(s, rest);
        assert(is_white(gap[gap.len() - 1]));
        assert((s + gap).drop_last() =~= s + rest);
    } else {
        assert(s + gap =~= s);
    }
}

/// White space at the start of an argument is passed over.
proof fn lemma_gap_passed(
    s: Seq<char>,
    gap: Seq<char>,
    x: Seq<char>,
    i: int,
    args: Seq<Seq<char>>,
)
    requires
        is_gap(gap),
        0 <= i <= gap.len(),
    ensures
        args_from(s + gap + x, s.len() + i, s.len() as int, 0, args) == args_from(
            s + gap + x,
            (s.len() + gap.len()) as int,
            s.len() as int,
            0,
            args,
        ),
    decreases gap.len() - i,
{
    if i < gap.len() {
        lemma_gap_passed(s, gap, x, i + 1, args);
        assert((s + gap + x)[s.len() + i] == gap[i]);
        assert(is_white(gap[i]));
    }
}

proof fn lemma_closing_shifted(
    s: Seq<char>,
    gap: Seq<char>,
    x: Seq<char>,
    k: int,
    close: char,
)
    requires
        0 <= k,
    ensures
        closing(s + gap + x, s.len() + gap.len() + k, close) == closing(
            s + x,
            s.len() + k,
            close,
        ) + gap.len(),
    decreases x.len() - k + 1,
{
    if k < x.len() {
        assert((s + gap + x)[s.len() + gap.len() + k] == x[k]);
        assert((s + x)[s.len() + k] == x[k]);
        if x[k] != close {
            lemma_closing_shifted(
                s,
                gap,
                x,
                if x[k] == '\\' {
                    k + 2
                } else {
                    k + 1
                },
                close,
            );
        }
    }
}

/// The same end, so much further on.
spec fn shifted(r: Option<(int, Seq<Seq<char>>)>, by: nat) -> Option<(int, Seq<Seq<char>>)> {
    match r {
        Some((end, args)) => Some((end + by, args)),
        None => None,
    }
}

/// White space between two arguments makes no difference to what is read behind
/// it. `start` is where the current argument starts behind the gap, or less than
/// zero if the gap stands at its start.
#[verifier::spinoff_prover]
#[verifier::rlimit(40)]
proof fn lemma_read_behind_gap(
    s: Seq<char>,
    gap: Seq<char>,
    x: Seq<char>,
    k: int,
    start: int,
    depth: nat,
    args: Seq<Seq<char>>,
)
    requires
        is_gap(gap),
        gap.len() > 0,
        s.len() > 0 && !is_alphanumeric(s.last()),
        0 <= k,
        start <= k,
    ensures
        ({
            let h = s.len() as int;
            let g = gap.len() as int;
            let near = args_from(
                s + x,
                h + k,
                if start < 0 {
                    h
                } else {
                    h + start
                },
                depth,
                args,
            );
            let far = args_from(
                s + gap + x,
                h + g + k,
                if start < 0 {
                    h
                } else {
                    h + g + start
                },
                depth,
                args,
            );
            &&& far == shifted(near, gap.len())
            &&& near matches Some((end, _)) ==> h <= end < (s + x).len()
        }),
    decreases x.len() - k + 1,
{
    let h = s.len() as int;
    let g = gap.len() as int;
    let p = s + gap + x;
    let q = s + x;
    if k < x.len() {
        let c = x[k];
        assert(p[h + g + k] == c);
        assert(q[h + k] == c);
        if k > 0 {
            assert(p[h + g + k - 1] == x[k - 1]);
            assert(q[h + k - 1] == x[k - 1]);
        } else {
            assert(q[h - 1] == s.last());
            assert(p[h + g - 1] == gap[g - 1]);
            assert(is_white(gap[g - 1]));
        }
        let far = p.subrange(
            if start < 0 {
                h
            } else {
                h + g + start
            },
            h + g + k,
        );
        let near = q.subrange(
            if start < 0 {
                h
            } else {
                h + start
            },
            h + k,
        );
        assert(trim(far) == trim(near)) by {
            if start < 0 {
                assert(near =~= x.take(k));
                assert(far =~= gap + near);
                lemma_trim_start_gap(gap, near);
            } else {
                assert(near =~= x.subrange(start, k));
                assert(far =~= near);
            }
        }
        lemma_closing_shifted(s, gap, x, k + 1, '"');
        lemma_closing_shifted(s, gap, x, k + 1, '>');
        lemma_closing(q, h + k + 1, '"');
        lemma_closing(q, h + k + 1, '>');
        if c == '"' {
            let end = closing(q, h + k + 1, '"') - h;
            lemma_read_behind_gap(s, gap, x, end + 1, start, depth, args);
        } else if c == '<' && k > 0 && is_alphanumeric(x[k - 1]) {
            let end = closing(q, h + k + 1, '>') - h;
            lemma_read_behind_gap(s, gap, x, end + 1, start, depth, args);
        } else if c == '(' || c == '[' || c == '{' {
            lemma_read_behind_gap(s, gap, x, k + 1, start, depth + 1, args);
        } else if c == ')' && depth == 0 {
        } else if c == ')' || c == ']' || c == '}' {
            let less = if depth == 0 {
                0
            } else {
                (depth - 1) as nat
            };
            lemma_read_behind_gap(s, gap, x, k + 1, start, less, args);
        } else if c == ',' && depth == 0 {
            lemma_read_behind_gap(s, gap, x, k + 1, k + 1, depth, args.push(trim(near)));
        } else {
            lemma_read_behind_gap(s, gap, x, k + 1, start, depth, args);
        }
    }
}

proof fn lemma_index_stays(s: Seq<char>, x: Seq<char>, c: char, i: int)
    requires
        0 <= i,
        index_from(s, c, i) < s.len(),
    ensures
        index_from(s + x, c, i) == index_from(s, c, i),
    decreases s.len() - i,
{
    if i < s.len() {
        assert((s + x)[i] == s[i]);
        if s[i] != c {
            lemma_index_stays(s, x, c, i + 1);
        }
    }
}

/// Where the arguments end does not depend on what follows.
proof fn lemma_arguments_stay(
    s: Seq<char>,
    x: Seq<char>,
    i: int,
    start: int,
    depth: nat,
    args: Seq<Seq<char>>,
)
    requires
        0 <= start <= i,
        args_from(s, i, start, depth, args) is Some,
    ensures
        args_from(s + x, i, start, depth, args) == args_from(s, i, start, depth, args),
        i <= (args_from(s, i, start, depth, args)->0).0 < s.len(),
    decreases s.len() - i + 1,
{
    let c = s[i];
    assert((s + x)[i] == c);
    if i > 0 {
        assert((s + x)[i - 1] == s[i - 1]);
    }
    assert((s + x).subrange(start, i) =~= s.subrange(start, i));
    lemma_closing(s, i + 1, '"');
    lemma_closing(s, i + 1, '>');
    if c == '"' {
        let end = closing(s, i + 1, '"');
        assert(args_from(s, end + 1, start, depth, args) is Some);
        lemma_closing_stays(s, x, i + 1, '"');
        lemma_arguments_stay(s, x, end + 1, start, depth, args);
    } else if c == '<' && i > 0 && is_alphanumeric(s[i - 1]) {
        let end = closing(s, i + 1, '>');
        assert(args_from(s, end + 1, start, depth, args) is Some);
        lemma_closing_stays(s, x, i + 1, '>');
        lemma_arguments_stay(s, x, end + 1, start, depth, args);
    } else if c == '(' || c == '[' || c == '{' {
        lemma_arguments_stay(s, x, i + 1, start, depth + 1, args);
    } else if c == ')' && depth == 0 {
    } else if c == ')' || c == ']' || c == '}' {
        let less = if depth == 0 {
            0
        } else {
            (depth - 1) as nat
        };
        lemma_arguments_stay(s, x, i + 1, start, less, args);
    } else if c == ',' && depth == 0 {
        let more = args.push(trim(s.subrange(start, i)));
        lemma_arguments_stay(s, x, i + 1, i + 1, depth, more);
    } else {
        lemma_arguments_stay(s, x, i + 1, start, depth, args);
    }
}

proof fn lemma_trim_start_stays(s: Seq<char>, x: Seq<char>)
    requires
        trim_start(s).len() > 0,
    ensures
        trim_start(s + x) == trim_start(s) + x,
    decreases s.len(),
{
    if s.len() > 0 && is_white(s[0]) {
        lemma_trim_start_stays(s.skip(1), x);
        assert((s + x).skip(1) =~= s.skip(1) + x);
    }
}

proof fn lemma_gap_at_argument(head: Seq<char>, gap: Seq<char>, tail: Seq<char>)
    requires
        is_gap(gap),
        gap.len() > 0,
        ends_at_argument(head),
    ensures
        call_in(head + gap + tail) == call_in(head + tail),
{
    let p = head + gap + tail;
    let q = head + tail;
    let open = index_from(head, '(', 0);
    let empty = Seq::<Seq<char>>::empty();
    lemma_index_from(head, '(', 0);
    lemma_index_stays(head, gap + tail, '(', 0);
    lemma_index_stays(head, tail, '(', 0);
    assert(head + (gap + tail) =~= p);
    assert(p.take(open) =~= q.take(open));
    let read = if open + 1 == head.len() {
        empty
    } else {
        lemma_read_to_comma(head, gap + tail, tail, open + 1, open + 1, 0, empty)
    };
    lemma_gap_passed(head, gap, tail, 0, read);
    lemma_read_behind_gap(head, gap, tail, 0, -1, 0, read);
    match args_from(q, open + 1, open + 1, 0, empty) {
        Some((end, _)) => {
            assert(p.skip(end + gap.len() + 1) =~= q.skip(end + 1));
        },
        None => {},
    }
}

proof fn lemma_gap_before_result(head: Seq<char>, gap: Seq<char>, tail: Seq<char>)
    requires
        is_gap(gap),
        ends_before_result(head),
    ensures
        call_in(head + gap + tail) == call_in(head + tail),
{
    let p = head + gap + tail;
    let q = head + tail;
    let open = index_from(head, '(', 0);
    let empty = Seq::<Seq<char>>::empty();
    lemma_index_from(head, '(', 0);
    lemma_index_stays(head, gap + tail, '(', 0);
    lemma_index_stays(head, tail, '(', 0);
    assert(head + (gap + tail) =~= p);
    assert(p.take(open) =~= q.take(open));
    let end = (args_from(head, open + 1, open + 1, 0, empty)->0).0;
    lemma_arguments_stay(head, gap + tail, open + 1, open + 1, 0, empty);
    lemma_arguments_stay(head, tail, open + 1, open + 1, 0, empty);
    let rest = head.skip(end + 1);
    assert(p.skip(end + 1) =~= rest + (gap + tail));
    assert(q.skip(end + 1) =~= rest + tail);
    lemma_trim_start_gap(gap, tail);
    if end + 1 == head.len() {
        assert(rest + (gap + tail) =~= gap + tail);
        assert(rest + tail =~= tail);
    } else {
        lemma_trim_start_stays(rest, gap + tail);
        lemma_trim_start_stays(rest, tail);
        assert((seq!['='] + (gap + tail)).skip(1) =~= gap + tail);
        assert((seq!['='] + tail).skip(1) =~= tail);
    }
}

/// White space makes no difference to a call where an argument starts, nor on
/// either side of the equals sign.
pub proof fn law_gaps_between_parts_do_not_matter(
    head: Seq<char>,
    gap: Seq<char>,
    tail: Seq<char>,
)
    requires
        is_gap(gap),
        gap.len() > 0 ==> ends_between_parts(head),
    ensures
        call_in(head + gap + tail) == call_in(head + tail),
{
    if gap.len() == 0 {
        assert(head + gap + tail =~= head + tail);
    } else if ends_at_argument(head) {
        lemma_gap_at_argument(head, gap, tail);
    } else {
        lemma_gap_before_result(head, gap, tail);
    }
}

/// `whole` logs a call of a process, and `begun` and `resumed` log the same call
/// in two pieces. White space at the cut may be lost, between two arguments or
/// next to the equals sign.
pub open spec fn is_split(
    whole: Seq<char>,
    begun: Seq<char>,
    resumed: Seq<char>,
    pid: u32,
    name: Seq<char>,
    head: Seq<char>,
    cut: Seq<char>,
    gap: Seq<char>,
    tail: Seq<char>,
) -> bool {
    &&& pid_and_rest(whole) == Some((pid, head + cut + tail))
    &&& pid_and_rest(begun) == Some((pid, head + gap + "<unfinished ...>"@))
    &&& pid_and_rest(resumed) == Some((pid, "<... "@ + name + " resumed>"@ + tail))
    &&& is_name(name)
    &&& is_gap(cut)
    &&& is_gap(gap)
    &&& cut.len() > 0 ==> ends_between_parts(head)
    &&& trim_end(head) == head
    &&& call_in(head + cut + tail) is Some
    &&& !ends_with(head + cut + tail, "<unfinished ...>"@)
}

/// Where the end of a call begins on the line that resumes it.
proof fn lemma_resumed_at(name: Seq<char>, tail: Seq<char>, i: int)
    requires
        is_name(name),
        0 <= i <= name.len() + 1,
    ensures
        find_from(name + " resumed>"@ + tail, "resumed>"@, i) == name.len() + 1,
    decreases name.len() + 1 - i,
{
    reveal_strlit(" resumed>");
    reveal_strlit("resumed>");
    let s = name + " resumed>"@ + tail;
    let pat = "resumed>"@;
    let here = s.subrange(i, i + pat.len());
    if i <= name.len() {
        if here == pat {
            let at = i + 7;
            assert(here[7] == s[at]);
            if at < name.len() {
                assert(s[at] == name[at]);
                assert(is_alphanumeric(name[at]) || name[at] == '_');
            } else {
                assert(s[at] == " resumed>"@[at - name.len()]);
            }
            assert(false);
        }
        lemma_resumed_at(name, tail, i + 1);
    } else {
        assert(here =~= pat);
    }
}

/// The line that resumes a call is not taken for one that begins it.
proof fn lemma_resumed_is_finished(front: Seq<char>, name: Seq<char>, tail: Seq<char>)
    requires
        !ends_with(front + tail, "<unfinished ...>"@),
    ensures
        !ends_with("<... "@ + name + " resumed>"@ + tail, "<unfinished ...>"@),
{
    let u = "<unfinished ...>"@;
    let text = front + tail;
    let start = "<... "@ + name + " resumed>"@;
    let last = start + tail;
    if ends_with(last, u) {
        let from = last.len() - u.len();
        assert forall|k: int| 0 <= k < u.len() implies last[from + k] == u[k] by {
            assert(last.skip(from)[k] == u[k]);
        }
        if tail.len() >= u.len() {
            let f = text.len() - u.len();
            assert forall|k: int| 0 <= k < u.len() implies text[f + k] == u[k] by {
                assert(text[f + k] == tail[tail.len() - u.len() + k]);
                assert(last[from + k] == tail[tail.len() - u.len() + k]);
            }
            assert(text.skip(f) =~= u);
        } else {
            reveal_strlit("<unfinished ...>");
            reveal_strlit(" resumed>");
            let k = u.len() - 1 - tail.len();
            assert(start.last() == '>');
            assert(last[from + k] == start.last());
            assert(u[k] == '>');
            assert(k == 15);
            assert(last[from + 14] == u[14]);
            assert(last[from + 14] == " resumed>"@[7]);
        }
    }
}

proof fn lemma_begun(rd: Reading, line: Seq<char>, pid: u32, head: Seq<char>, gap: Seq<char>)
    requires
        pid_and_rest(line) == Some((pid, head + gap + "<unfinished ...>"@)),
        is_gap(gap),
        trim_end(head) == head,
    ensures
        after_line(rd, line) == Ok::<Reading, Seq<char>>(waiting(rd, pid, head)),
{
    let u = "<unfinished ...>"@;
    let rest = head + gap + u;
    assert(rest.skip(rest.len() - u.len()) =~= u);
    assert(ends_with(rest, u));
    assert(rest.take(rest.len() - u.len()) =~= head + gap);
    lemma_trim_end_gap(head, gap);
}

proof fn lemma_calls_begin_with_names(text: Seq<char>)
    requires
        call_in(text) is Some,
    ensures
        !starts_with(text, "<... "@),
{
    reveal_strlit("<... ");
    let open = index_from(text, '(', 0);
    lemma_index_from(text, '(', 0);
    let name = text.take(open);
    assert(is_name(name));
    assert(name[0] == text[0]);
    assert(is_alphanumeric(name[0]) || name[0] == '_');
    if starts_with(text, "<... "@) {
        assert(text.take(5)[0] == text[0]);
        assert("<... "@[0] == '<');
    }
}

proof fn lemma_resumed(
    rd: Reading,
    line: Seq<char>,
    pid: u32,
    name: Seq<char>,
    head: Seq<char>,
    cut: Seq<char>,
    tail: Seq<char>,
)
    requires
        pid_and_rest(line) == Some((pid, "<... "@ + name + " resumed>"@ + tail)),
        is_name(name),
        !ends_with(head + cut + tail, "<unfinished ...>"@),
        !rd.pending.contains_key(pid as i64),
    ensures
        after_line(waiting(rd, pid, head), line) == after_call_text(rd, pid, head + tail),
{
    let rest = "<... "@ + name + " resumed>"@ + tail;
    lemma_resumed_is_finished(head + cut, name, tail);
    assert(rest.take("<... "@.len() as int) =~= "<... "@);
    assert(starts_with(rest, "<... "@));
    let end = rest.skip("<... "@.len() as int);
    assert(end =~= name + " resumed>"@ + tail);
    lemma_resumed_at(name, tail, 0);
    assert(" resumed>"@.len() == 1 + "resumed>"@.len()) by {
        reveal_strlit(" resumed>");
        reveal_strlit("resumed>");
    }
    assert(end.skip((name.len() + 1 + "resumed>"@.len()) as int) =~= tail);
    assert(waiting(rd, pid, head).pending.remove(pid as i64) =~= rd.pending);
}

proof fn lemma_split_lines(
    rd: Reading,
    whole: Seq<char>,
    begun: Seq<char>,
    resumed: Seq<char>,
    pid: u32,
    name: Seq<char>,
    head: Seq<char>,
    cut: Seq<char>,
    gap: Seq<char>,
    tail: Seq<char>,
)
    requires
        is_split(whole, begun, resumed, pid, name, head, cut, gap, tail),
        !rd.pending.contains_key(pid as i64),
    ensures
        after_line(rd, begun) == Ok::<Reading, Seq<char>>(waiting(rd, pid, head)),
        after_line(rd, whole) == after_call_text(rd, pid, head + tail),
        after_line(waiting(rd, pid, head), resumed) == after_call_text(rd, pid, head + tail),
{
    law_gaps_between_parts_do_not_matter(head, cut, tail);
    lemma_begun(rd, begun, pid, head, gap);
    lemma_calls_begin_with_names(head + cut + tail);
    lemma_resumed(rd, resumed, pid, name, head, cut, tail);
}

/// A call that was interrupted in the log takes effect once, at the line that
/// resumes it, as if it had been logged there as a whole; whatever other
/// processes did meanwhile. No other call of the process may wait for its end.
pub proof fn law_interrupted_calls_take_effect_once(
    a: Seq<char>,
    b: Seq<char>,
    root: Seq<char>,
    cwd: Seq<char>,
    t: TreeView,
    before: Seq<Seq<char>>,
    between: Seq<Seq<char>>,
    after: Seq<Seq<char>>,
    whole: Seq<char>,
    begun: Seq<char>,
    resumed: Seq<char>,
    pid: u32,
    name: Seq<char>,
    head: Seq<char>,
    cut: Seq<char>,
    gap: Seq<char>,
    tail: Seq<char>,
)
    requires
        is_split(whole, begun, resumed, pid, name, head, cut, gap, tail),
        lines(a) == before + (between + (seq![whole] + after)),
        lines(b) == before + (seq![begun] + (between + (seq![resumed] + after))),
        forall|i: int| 0 <= i < between.len() ==> is_of_another(#[trigger] between[i], pid),
        after_log(a, root, cwd, t) is Ok,
        ({
            let rd = Reading { st: started(root, cwd, t), pending: Map::empty() };
            let there = after_lines(rd, before, before.len() as int);
            !there->Ok_0.pending.contains_key(pid as i64)
        }),
    ensures
        after_log(b, root, cwd, t) == after_log(a, root, cwd, t),
{
    let rd = Reading { st: started(root, cwd, t), pending: Map::empty() };
    let one = seq![whole];
    let beg = seq![begun];
    let res = seq![resumed];
    let nb = between.len() as int;
    let na = after.len() as int;
    lemma_lines_appended(rd, before, between + (one + after), nb + (1 + na));
    let r0 = after_lines(rd, before, before.len() as int)->Ok_0;
    lemma_lines_appended(r0, between, one + after, 1 + na);
    let r1 = after_lines(r0, between, nb)->Ok_0;
    lemma_lines_appended(r1, one, after, na);
    reveal_with_fuel(after_lines, 2);
    let r2 = after_lines(r1, one, 1)->Ok_0;
    lemma_split_lines(r0, whole, begun, resumed, pid, name, head, cut, gap, tail);
    lemma_lines_of_others(r0, between, pid, head, nb);
    lemma_split_lines(r1, whole, begun, resumed, pid, name, head, cut, gap, tail);
    let w0 = waiting(r0, pid, head);
    let w1 = waiting(r1, pid, head);
    assert(after_lines(r0, beg, 1) == Ok::<Reading, ErrorView>(w0));
    assert(after_lines(w0, between, nb) == Ok::<Reading, ErrorView>(w1));
    assert(after_lines(w1, res, 1) == Ok::<Reading, ErrorView>(r2));
    lemma_lines_appended(w1, res, after, na);
    lemma_lines_appended(w0, between, res + after, 1 + na);
    lemma_lines_appended(r0, beg, between + (res + after), nb + (1 + na));
    lemma_lines_appended(
        rd,
        before,
        beg + (between + (res + after)),
        1 + (nb + (1 + na)),
    );
}

/// Bytes as `strace -xx` prints them: `\xNN` each.
pub open spec fn escaped(data: Seq<u8>) -> Seq<char>
    decreases data.len(),
{
    if data.len() == 0 {
        Seq::empty()
    } else {
        seq![
            '\\',
            'x',
            hex_digit(data[0] as int / 16),
            hex_digit(data[0] as int % 16),
        ] + escaped(data.skip(1))
    }
}

proof fn lemma_escaped(data: Seq<u8>)
    ensures
        escaped(data).len() == 4 * data.len(),
        is_ascii_chars(escaped(data)),
        forall|i: int|
            0 <= i < escaped(data).len() ==> (#[trigger] escaped(data)[i]) != '"' && (escaped(
                data,
            )[i] == '\\' ==> i + 1 < escaped(data).len() && escaped(data)[i + 1] == 'x'),
    decreases data.len(),
{
    if data.len() > 0 {
        let rest = escaped(data.skip(1));
        let all = escaped(data);
        lemma_escaped(data.skip(1));
        assert forall|i: int| 0 <= i < all.len() implies (0 <= #[trigger] all[i] as int && (
        all[i] as int) < 128) by {
            if i >= 4 {
                assert(all[i] == rest[i - 4]);
            }
        }
        assert forall|i: int| 0 <= i < all.len() implies (#[trigger] all[i]) != '"' && (all[i]
            == '\\' ==> i + 1 < all.len() && all[i + 1] == 'x') by {
            if i >= 4 {
                assert(all[i] == rest[i - 4]);
                if all[i] == '\\' {
                    assert(all[i + 1] == rest[i - 3]);
                }
            }
        }
    }
}

proof fn lemma_unescaped(data: Seq<u8>, b: Seq<u8>)
    requires
        b.len() == 4 * data.len(),
        forall|i: int| 0 <= i < b.len() ==> #[trigger] b[i] == escaped(data)[i] as u8,
    ensures
        unescaped(b) == data,
    decreases data.len(),
{
    if data.len() == 0 {
        assert(unescaped(b) =~= data);
    } else {
        let v = data[0];
        let all = escaped(data);
        let more = escaped(data.skip(1));
        assert(b[0] == all[0] as u8 && b[1] == all[1] as u8);
        assert(b[2] == all[2] as u8 && b[3] == all[3] as u8);
        let rest = b.skip(2);
        lemma_byte_back(v);
        assert(hex_pair(rest) == v);
        let tail = rest.skip(2);
        lemma_escaped(data.skip(1));
        assert forall|i: int| 0 <= i < tail.len() implies #[trigger] tail[i] == more[i] as u8 by {
            assert(tail[i] == b[i + 4]);
            assert(all[i + 4] == more[i]);
        }
        lemma_unescaped(data.skip(1), tail);
        assert(seq![v] + data.skip(1) =~= data);
    }
}

proof fn lemma_closing_quote(data: Seq<u8>, s: Seq<char>, i: int)
    requires
        s == "\""@ + escaped(data) + "\""@,
        1 <= i <= s.len() - 1,
    ensures
        closing(s, i, '"') == s.len() - 1,
    decreases s.len() - i,
{
    reveal_strlit("\"");
    lemma_escaped(data);
    let e = escaped(data);
    if i < s.len() - 1 {
        assert(s[i] == e[i - 1]);
        if s[i] == '\\' {
            assert(i + 2 <= s.len() - 1);
            lemma_closing_quote(data, s, i + 2);
        } else {
            lemma_closing_quote(data, s, i + 1);
        }
    }
}

/// Data is exact: reading what `strace -xx` prints for bytes gives the bytes, on
/// their own and as a quoted string, which is not taken for one that was cut.
pub proof fn law_escaped_data_is_exact(data: Seq<u8>)
    ensures
        unescaped(encode_utf8(escaped(data))) == data,
        strings_from("\""@ + escaped(data) + "\""@, 0) == seq![(data, false)],
{
    let e = escaped(data);
    lemma_escaped(data);
    vstd::utf8::is_ascii_chars_encode_utf8(e);
    lemma_unescaped(data, encode_utf8(e));
    reveal_strlit("\"");
    reveal_strlit("\"...");
    let s = "\""@ + e + "\""@;
    lemma_closing_quote(data, s, 1);
    let end = s.len() - 1;
    assert(s[0] == '"');
    assert(s.subrange(1, end) =~= e);
    assert(s.skip(end).len() == 1);
    assert(strings_from(s, end + 1) =~= Seq::<(Seq<u8>, bool)>::empty());
    assert(strings_from(s, 0) =~= seq![(data, false)]);
}

} // verus!
