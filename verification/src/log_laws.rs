//! What is read from the lines of a log: processes, calls, their arguments and
//! their results.

use crate::strace::{
    after_call, after_line, arg_of, fd_relative, normalized, opened_path, path_of_arg, relative,
    resolved_path, Reading, StateView,
};
use crate::strace_laws::{escaped, law_escaped_data_is_exact};
use crate::syscall::{
    args_from, before_annotation, call_in, closing, digits_from, escape, fd_of, is_alphanumeric,
    is_digit, is_name, lossy_text, number_end, octal, pid_and_rest, result_end, result_in,
    result_number, strings_from, unescaped, word_end, CallView,
};
use crate::text::{
    decimal, ends_with, index_from, is_white, joined, lemma_index_from, number_in, starts_with,
    trim, trim_start,
};
use crate::text_laws::{law_decimals_read_back, lemma_decimal, lemma_joined_front, stands_at};
use vstd::prelude::*;

verus! {

/// Reading arguments goes over `a` wherever it stands, inside brackets if it is
/// `deep`: nothing in it ends an argument or changes how deep the reading is.
#[verifier::opaque]
pub open spec fn passes(a: Seq<char>, deep: bool) -> bool {
    forall|s: Seq<char>, i: int, start: int, depth: nat, args: Seq<Seq<char>>|
        stands_at(s, a, i) && (deep ==> depth > 0) ==> #[trigger] args_from(
            s,
            i,
            start,
            depth,
            args,
        ) == args_from(s, i + a.len(), start, depth, args)
}

/// Going over something that is passed.
proof fn lemma_pass(
    a: Seq<char>,
    deep: bool,
    s: Seq<char>,
    i: int,
    start: int,
    depth: nat,
    args: Seq<Seq<char>>,
)
    requires
        passes(a, deep),
        stands_at(s, a, i),
        deep ==> depth > 0,
    ensures
        args_from(s, i, start, depth, args) == args_from(s, i + a.len(), start, depth, args),
{
    reveal(passes);
}

/// A character that means nothing to the reading of arguments.
pub open spec fn is_ordinary(c: char) -> bool {
    c != '"' && c != '<' && c != '(' && c != ')' && c != '[' && c != ']' && c != '{' && c != '}'
        && c != ','
}

/// Ordinary characters are part of the argument that they stand in.
pub proof fn law_ordinary_text_is_passed(a: Seq<char>, deep: bool)
    requires
        forall|i: int| 0 <= i < a.len() ==> is_ordinary(#[trigger] a[i]),
    ensures
        passes(a, deep),
{
    reveal(passes);
    assert forall|s: Seq<char>, i: int, start: int, depth: nat, args: Seq<Seq<char>>|
        stands_at(s, a, i) && (deep ==> depth > 0) implies #[trigger] args_from(
        s,
        i,
        start,
        depth,
        args,
    ) == args_from(s, i + a.len(), start, depth, args) by {
        lemma_ordinary(s, a, i, 0, start, depth, args);
    }
}

proof fn lemma_ordinary(
    s: Seq<char>,
    a: Seq<char>,
    i: int,
    k: int,
    start: int,
    depth: nat,
    args: Seq<Seq<char>>,
)
    requires
        stands_at(s, a, i),
        forall|j: int| 0 <= j < a.len() ==> is_ordinary(#[trigger] a[j]),
        0 <= k <= a.len(),
    ensures
        args_from(s, i + k, start, depth, args) == args_from(s, i + a.len(), start, depth, args),
    decreases a.len() - k,
{
    if k < a.len() {
        assert(s[i + k] == a[k]);
        assert(is_ordinary(a[k]));
        lemma_ordinary(s, a, i, k + 1, start, depth, args);
    }
}

/// Bytes between quotes, as they are logged.
pub open spec fn quoted(data: Seq<u8>) -> Seq<char> {
    seq!['"'] + escaped(data) + seq!['"']
}

proof fn lemma_no_marks(data: Seq<u8>)
    ensures
        forall|i: int|
            0 <= i < escaped(data).len() ==> (#[trigger] escaped(data)[i]) != '"' && escaped(
                data,
            )[i] != '>' && escaped(data)[i] != '<' && !is_white(escaped(data)[i]) && (escaped(
                data,
            )[i] == '\\' ==> i + 1 < escaped(data).len()),
    decreases data.len(),
{
    if data.len() > 0 {
        lemma_no_marks(data.skip(1));
        let rest = escaped(data.skip(1));
        let all = escaped(data);
        assert forall|i: int| 0 <= i < all.len() implies (#[trigger] all[i]) != '"' && all[i] != '>'
            && all[i] != '<' && !is_white(all[i]) && (all[i] == '\\' ==> i + 1 < all.len()) by {
            if i >= 4 {
                assert(all[i] == rest[i - 4]);
            }
        }
    }
}

/// What was opened closes behind the escaped bytes.
proof fn lemma_closes(s: Seq<char>, data: Seq<u8>, i: int, k: int, close: char)
    requires
        close == '"' || close == '>',
        0 <= i,
        stands_at(s, escaped(data), i),
        0 <= k <= escaped(data).len(),
        i + escaped(data).len() < s.len(),
        s[i + escaped(data).len()] == close,
    ensures
        closing(s, i + k, close) == i + escaped(data).len(),
    decreases escaped(data).len() - k,
{
    let e = escaped(data);
    lemma_no_marks(data);
    if k < e.len() {
        assert(s[i + k] == e[k]);
        if e[k] == '\\' {
            lemma_closes(s, data, i, k + 2, close);
        } else {
            lemma_closes(s, data, i, k + 1, close);
        }
    }
}

/// A quoted string is part of the argument that it stands in, whatever it holds.
pub proof fn law_quoted_text_is_passed(data: Seq<u8>, deep: bool)
    ensures
        passes(quoted(data), deep),
{
    let a = quoted(data);
    let e = escaped(data);
    reveal(passes);
    assert forall|s: Seq<char>, i: int, start: int, depth: nat, args: Seq<Seq<char>>|
        stands_at(s, a, i) && (deep ==> depth > 0) implies #[trigger] args_from(
        s,
        i,
        start,
        depth,
        args,
    ) == args_from(s, i + a.len(), start, depth, args) by {
        assert(s[i + 0] == a[0]);
        assert forall|k: int| 0 <= k < e.len() implies #[trigger] s[i + 1 + k] == e[k] by {
            assert(s[i + (k + 1)] == a[k + 1]);
        }
        assert(s[i + (e.len() + 1)] == a[e.len() as int + 1]);
        lemma_closes(s, data, i + 1, 0, '"');
    }
}

/// An fd with the path that the log adds to it, or anything that ends in a letter
/// or a figure, is part of the argument that it stands in, path and all.
pub proof fn law_annotations_are_passed(word: Seq<char>, data: Seq<u8>, deep: bool)
    requires
        word.len() > 0,
        is_alphanumeric(word.last()),
        passes(word, deep),
    ensures
        passes(word + seq!['<'] + escaped(data) + seq!['>'], deep),
{
    let a = word + seq!['<'] + escaped(data) + seq!['>'];
    let e = escaped(data);
    let n = word.len() as int;
    reveal(passes);
    assert forall|s: Seq<char>, i: int, start: int, depth: nat, args: Seq<Seq<char>>|
        stands_at(s, a, i) && (deep ==> depth > 0) implies #[trigger] args_from(
        s,
        i,
        start,
        depth,
        args,
    ) == args_from(s, i + a.len(), start, depth, args) by {
        assert forall|k: int| 0 <= k < word.len() implies #[trigger] s[i + k] == word[k] by {
            assert(s[i + k] == a[k]);
        }
        assert(stands_at(s, word, i));
        assert(args_from(s, i, start, depth, args) == args_from(s, i + n, start, depth, args));
        assert(s[i + n] == a[n]);
        assert(s[i + (n - 1)] == word[n - 1]);
        assert forall|k: int| 0 <= k < e.len() implies #[trigger] s[i + n + 1 + k] == e[k] by {
            assert(s[i + (n + 1 + k)] == a[n + 1 + k]);
        }
        assert(s[i + (n + 1 + e.len())] == a[n + 1 + e.len()]);
        lemma_closes(s, data, i + n + 1, 0, '>');
    }
}

/// What is passed piece by piece is passed.
pub proof fn law_pieces_are_passed(a: Seq<char>, b: Seq<char>, deep: bool)
    requires
        passes(a, deep),
        passes(b, deep),
    ensures
        passes(a + b, deep),
{
    let c = a + b;
    let n = a.len() as int;
    reveal(passes);
    assert forall|s: Seq<char>, i: int, start: int, depth: nat, args: Seq<Seq<char>>|
        stands_at(s, c, i) && (deep ==> depth > 0) implies #[trigger] args_from(
        s,
        i,
        start,
        depth,
        args,
    ) == args_from(s, i + c.len(), start, depth, args) by {
        assert forall|k: int| 0 <= k < a.len() implies #[trigger] s[i + k] == a[k] by {
            assert(s[i + k] == c[k]);
        }
        assert(stands_at(s, a, i));
        assert forall|k: int| 0 <= k < b.len() implies #[trigger] s[i + n + k] == b[k] by {
            assert(s[i + (n + k)] == c[n + k]);
        }
        assert(stands_at(s, b, i + n));
        assert(args_from(s, i, start, depth, args) == args_from(s, i + n, start, depth, args));
        assert(args_from(s, i + n, start, depth, args) == args_from(
            s,
            i + n + b.len(),
            start,
            depth,
            args,
        ));
    }
}

/// Inside brackets a comma ends no argument.
pub proof fn law_commas_in_brackets_are_passed()
    ensures
        passes(seq![','], true),
{
    let a = seq![','];
    reveal(passes);
    assert forall|s: Seq<char>, i: int, start: int, depth: nat, args: Seq<Seq<char>>|
        stands_at(s, a, i) && depth > 0 implies #[trigger] args_from(s, i, start, depth, args)
        == args_from(s, i + a.len(), start, depth, args) by {
        assert(s[i + 0] == a[0]);
    }
}

/// What stands in brackets is part of the argument that the brackets stand in.
pub proof fn law_brackets_are_passed(open: char, inner: Seq<char>, close: char, deep: bool)
    requires
        open == '(' || open == '[' || open == '{',
        close == ')' || close == ']' || close == '}',
        passes(inner, true),
    ensures
        passes(seq![open] + inner + seq![close], deep),
{
    let a = seq![open] + inner + seq![close];
    let n = inner.len() as int;
    reveal(passes);
    assert forall|s: Seq<char>, i: int, start: int, depth: nat, args: Seq<Seq<char>>|
        stands_at(s, a, i) && (deep ==> depth > 0) implies #[trigger] args_from(
        s,
        i,
        start,
        depth,
        args,
    ) == args_from(s, i + a.len(), start, depth, args) by {
        assert(s[i + 0] == a[0]);
        assert forall|k: int| 0 <= k < inner.len() implies #[trigger] s[i + 1 + k] == inner[k] by {
            assert(s[i + (k + 1)] == a[k + 1]);
        }
        assert(stands_at(s, inner, i + 1));
        assert(s[i + (n + 1)] == a[n + 1]);
        assert(args_from(s, i, start, depth, args) == args_from(
            s,
            i + 1,
            start,
            depth + 1,
            args,
        ));
        assert(args_from(s, i + 1, start, depth + 1, args) == args_from(
            s,
            i + 1 + n,
            start,
            depth + 1,
            args,
        ));
    }
}

/// Something that can stand as an argument.
pub open spec fn is_argument(a: Seq<char>) -> bool {
    a.len() > 0 && !is_white(a[0]) && !is_white(a.last()) && passes(a, false)
}

proof fn lemma_trim_padded(s: Seq<char>, a: Seq<char>)
    requires
        s == a || s == seq![' '] + a,
        a.len() > 0,
        !is_white(a[0]),
        !is_white(a.last()),
    ensures
        trim(s) == a,
{
    assert(trim_start(a) == a);
    if s != a {
        assert(s.skip(1) =~= a);
        assert(is_white(s[0]));
        assert(trim_start(s) == trim_start(s.skip(1)));
    }
}

/// What was read up to the end of an argument is the argument.
proof fn lemma_before(s: Seq<char>, a: Seq<char>, start: int, i: int)
    requires
        stands_at(s, a, i),
        a.len() > 0,
        !is_white(a[0]),
        !is_white(a.last()),
        start == i || (start == i - 1 && start >= 0 && s[start] == ' '),
    ensures
        trim(s.subrange(start, i + a.len())) == a,
{
    let x = s.subrange(start, i + a.len());
    if start == i {
        assert forall|k: int| 0 <= k < a.len() implies x[k] == a[k] by {
            assert(s[i + k] == a[k]);
        }
        assert(x =~= a);
    } else {
        let y = seq![' '] + a;
        assert forall|k: int| 0 <= k < y.len() implies x[k] == y[k] by {
            if k > 0 {
                assert(s[i + (k - 1)] == a[k - 1]);
            }
        }
        assert(x =~= y);
    }
    lemma_trim_padded(x, a);
}

/// Reading an argument and the comma and the blank behind it.
#[verifier::spinoff_prover]
proof fn lemma_to_next(s: Seq<char>, a: Seq<char>, i: int, start: int, done: Seq<Seq<char>>)
    requires
        is_argument(a),
        stands_at(s, a, i),
        start == i || (start == i - 1 && start >= 0 && s[start] == ' '),
        i + a.len() + 1 < s.len(),
        s[i + a.len()] == ',',
        s[i + a.len() + 1] == ' ',
    ensures
        args_from(s, i, start, 0, done) == args_from(
            s,
            i + a.len() + 2,
            i + a.len() + 1,
            0,
            done.push(a),
        ),
{
    let n = i + a.len();
    lemma_pass(a, false, s, i, start, 0, done);
    lemma_before(s, a, start, i);
    assert(args_from(s, n, start, 0, done) == args_from(s, n + 1, n + 1, 0, done.push(a)));
    assert(args_from(s, n + 1, n + 1, 0, done.push(a)) == args_from(
        s,
        n + 2,
        n + 1,
        0,
        done.push(a),
    ));
}

/// Reading the last argument and the bracket behind it.
#[verifier::spinoff_prover]
proof fn lemma_to_end(s: Seq<char>, a: Seq<char>, i: int, start: int, done: Seq<Seq<char>>)
    requires
        is_argument(a),
        stands_at(s, a, i),
        start == i || (start == i - 1 && start >= 0 && s[start] == ' '),
        i + a.len() < s.len(),
        s[i + a.len()] == ')',
    ensures
        args_from(s, i, start, 0, done) == Some((i + a.len(), done.push(a))),
{
    lemma_pass(a, false, s, i, start, 0, done);
    lemma_before(s, a, start, i);
}

#[verifier::spinoff_prover]
proof fn lemma_args(
    s: Seq<char>,
    i: int,
    start: int,
    done: Seq<Seq<char>>,
    args: Seq<Seq<char>>,
)
    requires
        args.len() > 0,
        forall|k: int| 0 <= k < args.len() ==> is_argument(#[trigger] args[k]),
        start == i || (start == i - 1 && start >= 0 && s[start] == ' '),
        stands_at(s, joined(args, seq![',', ' ']) + seq![')'], i),
    ensures
        args_from(s, i, start, 0, done) == Some(
            (i + joined(args, seq![',', ' ']).len(), done + args),
        ),
    decreases args.len(),
{
    let sep = seq![',', ' '];
    let list = joined(args, sep);
    let all = list + seq![')'];
    let a = args[0];
    let n = a.len() as int;
    assert(is_argument(a));
    if args.len() == 1 {
        assert(list == a);
        assert forall|k: int| 0 <= k < a.len() implies #[trigger] s[i + k] == a[k] by {
            assert(s[i + k] == all[k]);
        }
        assert(stands_at(s, a, i));
        assert(s[i + n] == all[n]);
        lemma_to_end(s, a, i, start, done);
        assert(done.push(a) =~= done + args);
    } else {
        let rest = args.skip(1);
        assert(args =~= seq![a] + rest);
        lemma_joined_front(a, rest, sep);
        let tail = joined(rest, sep);
        assert(list == a + sep + tail);
        assert forall|k: int| 0 <= k < a.len() implies #[trigger] s[i + k] == a[k] by {
            assert(s[i + k] == all[k]);
        }
        assert(s[i + n] == all[n]);
        assert(s[i + (n + 1)] == all[n + 1]);
        lemma_to_next(s, a, i, start, done);
        let more = tail + seq![')'];
        assert forall|k: int| 0 <= k < more.len() implies #[trigger] s[i + n + 2 + k]
            == more[k] by {
            assert(s[i + (n + 2 + k)] == all[n + 2 + k]);
        }
        assert forall|k: int| 0 <= k < rest.len() implies is_argument(#[trigger] rest[k]) by {
            assert(rest[k] == args[k + 1]);
        }
        lemma_args(s, i + n + 2, i + n + 1, done.push(a), rest);
        assert(done.push(a) + rest =~= done + args);
    }
}

/// A call as it is logged, up to its result.
pub open spec fn logged(name: Seq<char>, args: Seq<Seq<char>>, result: Seq<char>) -> Seq<char> {
    name + seq!['('] + joined(args, seq![',', ' ']) + seq![')'] + seq![' ', '=', ' '] + result
}

proof fn lemma_logged(name: Seq<char>, args: Seq<Seq<char>>, result: Seq<char>)
    requires
        is_name(name),
        forall|k: int| 0 <= k < args.len() ==> is_argument(#[trigger] args[k]),
    ensures
        call_in(logged(name, args, result)) == (match result_in(seq![' '] + result) {
            None => None,
            Some(r) => Some(
                CallView {
                    name,
                    args,
                    ret: result_number(before_annotation(r).0),
                    ret_path: match before_annotation(r).1 {
                        Some(b) => Some(lossy_text(b)),
                        None => None,
                    },
                },
            ),
        }),
{
    let list = joined(args, seq![',', ' ']);
    let s = logged(name, args, result);
    let open = name.len() as int;
    assert(s[open] == '(');
    lemma_index_from(s, '(', 0);
    assert(index_from(s, '(', 0) == open) by {
        let at = index_from(s, '(', 0);
        if at < open {
            assert(s[at] == name[at]);
            assert(is_alphanumeric(name[at]) || name[at] == '_');
        }
    }
    assert(s.take(open) =~= name);
    let all = list + seq![')'];
    assert forall|k: int| 0 <= k < all.len() implies #[trigger] s[open + 1 + k] == all[k] by {}
    let end = open + 1 + list.len();
    if args.len() > 0 {
        lemma_args(s, open + 1, open + 1, Seq::empty(), args);
        assert(Seq::<Seq<char>>::empty() + args =~= args);
    } else {
        assert(list =~= Seq::<char>::empty());
        assert(s[open + 1] == ')');
        assert(s.subrange(open + 1, open + 1) =~= Seq::<char>::empty());
        assert(args =~= Seq::<Seq<char>>::empty());
        assert(args_from(s, open + 1, open + 1, 0, Seq::empty()) == Some(
            (open + 1, Seq::<Seq<char>>::empty()),
        ));
    }
    assert(args_from(s, open + 1, open + 1, 0, Seq::empty()) == Some((end as int, args)));
    let tail = s.skip(end + 1);
    assert(tail =~= seq![' ', '=', ' '] + result);
    assert(tail.skip(1) =~= seq!['=', ' '] + result);
    assert(trim_start(tail.skip(1)) == tail.skip(1));
    assert(trim_start(tail) == tail.skip(1));
    assert(tail.skip(1).skip(1) =~= seq![' '] + result);
}

proof fn lemma_number_end(s: Seq<char>, n: int, i: int)
    requires
        0 <= i <= n <= s.len(),
        forall|k: int| 0 <= k < n ==> !is_white(#[trigger] s[k]) && s[k] != '<',
        n < s.len() ==> s[n] == '<' || is_white(s[n]),
    ensures
        number_end(s, i) == n,
    decreases n - i,
{
    if i < n {
        lemma_number_end(s, n, i + 1);
    }
}

proof fn lemma_no_annotation(s: Seq<char>)
    requires
        forall|k: int| 0 <= k < s.len() ==> #[trigger] s[k] != '<',
    ensures
        before_annotation(s) == (s, None::<Seq<u8>>),
{
    lemma_index_from(s, '<', 0);
}

/// A call that is logged is read: its name, its arguments one by one, and its
/// result, a number that may be followed by a blank and an explanation.
pub proof fn law_logged_calls_are_read(
    name: Seq<char>,
    args: Seq<Seq<char>>,
    n: int,
    why: Seq<char>,
)
    requires
        is_name(name),
        forall|k: int| 0 <= k < args.len() ==> is_argument(#[trigger] args[k]),
        -i64::MAX <= n <= i64::MAX,
        why.len() > 0 ==> why[0] == ' ',
    ensures
        ({
            let num = if n < 0 {
                seq!['-'] + decimal((-n) as nat)
            } else {
                decimal(n as nat)
            };
            call_in(logged(name, args, num + why)) == Some(
                CallView { name, args, ret: Some(n as i64), ret_path: None },
            )
        }),
{
    let m: nat = if n < 0 {
        (-n) as nat
    } else {
        n as nat
    };
    law_decimals_read_back(m, true, i64::MIN as int, i64::MAX as int);
    let num = if n < 0 {
        seq!['-'] + decimal(m)
    } else {
        decimal(m)
    };
    assert forall|k: int| 0 <= k < num.len() implies !is_white(#[trigger] num[k]) && num[k]
        != '<' by {
        if n < 0 && k > 0 {
            assert(num[k] == decimal(m)[k - 1]);
        } else if n >= 0 {
            assert('0' <= decimal(m)[k] <= '9');
        }
    }
    lemma_logged(name, args, num + why);
    let t = num + why;
    lemma_result(t, num, why);
    lemma_no_annotation(num);
    reveal_strlit("0x");
    if starts_with(num, "0x"@) {
        assert(num.take(2)[1] == 'x');
        assert(num[1] == 'x');
        if n < 0 {
            assert(num[0] == '-');
            assert(num.take(2)[0] == '0');
        } else {
            assert('0' <= decimal(m)[1] <= '9');
        }
    }
}

proof fn lemma_result(t: Seq<char>, num: Seq<char>, why: Seq<char>)
    requires
        t == num + why,
        num.len() > 0,
        forall|k: int| 0 <= k < num.len() ==> !is_white(#[trigger] num[k]) && num[k] != '<',
        why.len() > 0 ==> why[0] == ' ',
    ensures
        result_in(seq![' '] + t) == Some(num),
{
    let s = seq![' '] + t;
    assert(s.skip(1) =~= t);
    assert(t[0] == num[0]);
    assert(trim_start(t) == t);
    assert(trim_start(s) == t);
    assert forall|k: int| 0 <= k < num.len() implies !is_white(#[trigger] t[k]) && t[k] != '<' by {
        assert(t[k] == num[k]);
    }
    if why.len() > 0 {
        assert(t[num.len() as int] == why[0]);
    }
    lemma_number_end(t, num.len() as int, 0);
    assert(t.take(num.len() as int) =~= num);
}

/// An fd that is returned is read together with the path that the log adds.
pub proof fn law_returned_paths_are_read(
    name: Seq<char>,
    args: Seq<Seq<char>>,
    n: nat,
    path: Seq<u8>,
)
    requires
        is_name(name),
        forall|k: int| 0 <= k < args.len() ==> is_argument(#[trigger] args[k]),
        n <= i64::MAX,
    ensures
        call_in(logged(name, args, decimal(n) + seq!['<'] + escaped(path) + seq!['>'])) == Some(
            CallView { name, args, ret: Some(n as i64), ret_path: Some(lossy_text(path)) },
        ),
{
    let num = decimal(n);
    let e = escaped(path);
    let t = num + seq!['<'] + e + seq!['>'];
    law_decimals_read_back(n, true, i64::MIN as int, i64::MAX as int);
    lemma_logged(name, args, t);
    lemma_annotated(n, path);
    let s = seq![' '] + t;
    assert(s.skip(1) =~= t);
    assert(t[0] == num[0]);
    assert('0' <= num[0] <= '9');
    assert(trim_start(t) == t);
    assert(trim_start(s) == t);
    assert forall|k: int| 0 <= k < num.len() implies !is_white(#[trigger] t[k]) && t[k] != '<' by {
        assert(t[k] == num[k]);
        assert('0' <= num[k] <= '9');
    }
    let d = num.len() as int;
    assert(t[d] == '<');
    lemma_number_end(t, d, 0);
    assert forall|k: int| 0 <= k < e.len() implies #[trigger] t[d + 1 + k] == e[k] by {}
    assert(t[d + 1 + e.len()] == '>');
    lemma_closes(t, path, d + 1, 0, '>');
    let close = d + 1 + e.len();
    assert(word_end(t, close as int) == t.len()) by {
        assert(!is_white('>'));
        assert(word_end(t, close + 1) == t.len());
    }
    assert(result_end(t) == t.len());
    assert(t.take(t.len() as int) =~= t);
    reveal_strlit("0x");
    if starts_with(num, "0x"@) {
        assert(num.take(2)[1] == 'x');
        assert('0' <= num[1] <= '9');
    }
}

/// A number with an annotation comes apart into both.
proof fn lemma_annotated(n: nat, path: Seq<u8>)
    ensures
        before_annotation(decimal(n) + seq!['<'] + escaped(path) + seq!['>']) == (
            decimal(n),
            Some(path),
        ),
{
    let num = decimal(n);
    let e = escaped(path);
    let t = num + seq!['<'] + e + seq!['>'];
    lemma_decimal(n);
    lemma_index_from(t, '<', 0);
    assert(t[num.len() as int] == '<');
    let at = index_from(t, '<', 0);
    if at < num.len() {
        assert(t[at] == num[at]);
        assert('0' <= num[at] <= '9');
    }
    assert(at == num.len());
    assert(t.take(at) =~= num);
    let p = t.skip(at + 1);
    assert(p =~= e + seq!['>']);
    reveal_strlit(">");
    assert(">"@ =~= seq!['>']);
    assert(p.skip(p.len() - 1) =~= ">"@);
    assert(p.drop_last() =~= e);
    law_escaped_data_is_exact(path);
}

/// An fd argument is read: the number, and the path that the log adds to it if
/// there is one.
pub proof fn law_fd_arguments_are_read(n: nat, path: Seq<u8>)
    requires
        n <= i64::MAX,
    ensures
        fd_of(decimal(n)) == (Some(n as i64), None::<Seq<char>>),
        fd_of(decimal(n) + seq!['<'] + escaped(path) + seq!['>']) == (
            Some(n as i64),
            Some(lossy_text(path)),
        ),
{
    law_decimals_read_back(n, true, i64::MIN as int, i64::MAX as int);
    lemma_annotated(n, path);
    let num = decimal(n);
    assert forall|k: int| 0 <= k < num.len() implies #[trigger] num[k] != '<' by {
        assert('0' <= num[k] <= '9');
    }
    lemma_no_annotation(num);
}

proof fn lemma_digits(line: Seq<char>, n: int, i: int)
    requires
        0 <= i <= n <= line.len(),
        forall|k: int| 0 <= k < n ==> is_digit(#[trigger] line[k]),
        n < line.len() ==> !is_digit(line[n]),
    ensures
        digits_from(line, i) == n - i,
    decreases n - i,
{
    if i < n {
        lemma_digits(line, n, i + 1);
    }
}

/// A line begins with the number of its process. The rest is a call, or the
/// beginning or the end of one, unless it tells of an exit or a signal; and a
/// line without a number tells of nothing.
pub proof fn law_lines_begin_with_the_process(pid: u32, rest: Seq<char>)
    requires
        rest.len() > 0,
        !is_white(rest[0]),
    ensures
        pid_and_rest(decimal(pid as nat) + seq![' '] + rest) == (if starts_with(rest, "+++"@)
            || starts_with(rest, "---"@) {
            None
        } else {
            Some((pid, rest))
        }),
        !is_digit(rest[0]) ==> pid_and_rest(rest) is None,
{
    let num = decimal(pid as nat);
    let line = num + seq![' '] + rest;
    law_decimals_read_back(pid as nat, false, 0, u32::MAX as int);
    let n = num.len() as int;
    assert forall|k: int| 0 <= k < n implies is_digit(#[trigger] line[k]) by {
        assert(line[k] == num[k]);
    }
    assert(line[n] == ' ');
    lemma_digits(line, n, 0);
    assert(line.take(n) =~= num);
    assert(line.skip(n) =~= seq![' '] + rest);
    assert(line.skip(n).skip(1) =~= rest);
    assert(trim_start(rest) == rest);
    assert(trim_start(line.skip(n)) == rest);
    if !is_digit(rest[0]) {
        assert(rest.take(0).len() == 0);
    }
}

/// How escaped bytes are read: a backslash and one of these letters stand for one
/// byte, three octal digits for their number, and any other character behind a
/// backslash for itself; without a backslash, each byte for itself.
pub proof fn law_escapes_stand_for_bytes(rest: Seq<u8>, c: u8, a: u8, b: u8)
    requires
        c != 92,
        48 <= a <= 51,
        48 <= b <= 55,
    ensures
        unescaped(seq![c] + rest) == seq![c] + unescaped(rest),
        unescaped(seq![92u8, 110u8] + rest) == seq![10u8] + unescaped(rest),
        unescaped(seq![92u8, 116u8] + rest) == seq![9u8] + unescaped(rest),
        unescaped(seq![92u8, 114u8] + rest) == seq![13u8] + unescaped(rest),
        unescaped(seq![92u8, 118u8] + rest) == seq![11u8] + unescaped(rest),
        unescaped(seq![92u8, 102u8] + rest) == seq![12u8] + unescaped(rest),
        unescaped(seq![92u8, 97u8] + rest) == seq![7u8] + unescaped(rest),
        unescaped(seq![92u8, 98u8] + rest) == seq![8u8] + unescaped(rest),
        unescaped(seq![92u8, 92u8] + rest) == seq![92u8] + unescaped(rest),
        unescaped(seq![92u8, 34u8] + rest) == seq![34u8] + unescaped(rest),
        unescaped(seq![92u8, a, b, b] + rest) == seq![
            ((a - 48) * 64 + (b - 48) * 8 + (b - 48)) as u8,
        ] + unescaped(rest),
{
    let one = seq![c] + rest;
    assert(one.skip(1) =~= rest);
    lemma_escape(rest, 110);
    lemma_escape(rest, 116);
    lemma_escape(rest, 114);
    lemma_escape(rest, 118);
    lemma_escape(rest, 102);
    lemma_escape(rest, 97);
    lemma_escape(rest, 98);
    lemma_escape(rest, 92);
    lemma_escape(rest, 34);
    let oct = seq![92u8, a, b, b] + rest;
    let tail = oct.skip(2);
    assert(tail =~= seq![b, b] + rest);
    assert(tail.skip(1) =~= seq![b] + rest);
    assert(tail.skip(1).skip(1) =~= rest);
    reveal_with_fuel(octal, 3);
    assert(tail.skip(2) =~= rest);
}

proof fn lemma_escape(rest: Seq<u8>, c: u8)
    requires
        c != 120,
        !(48 <= c <= 55),
    ensures
        unescaped(seq![92u8, c] + rest) == seq![escape(c)] + unescaped(rest),
{
    let s = seq![92u8, c] + rest;
    assert(s.skip(2) =~= rest);
}

/// The strings of an argument are read in order: text without quotes is passed
/// over, and a quoted string is read with what follows it. One with three dots
/// behind it was cut.
pub proof fn law_strings_are_read_in_order(head: Seq<char>, data: Seq<u8>, rest: Seq<char>)
    requires
        !head.contains('"'),
    ensures
        ({
            let s = head + quoted(data) + rest;
            let cut = rest.len() >= 3 && rest[0] == '.' && rest[1] == '.' && rest[2] == '.';
            strings_from(s, 0) == seq![(data, cut)] + strings_from(
                s,
                (head.len() + quoted(data).len()) as int,
            )
        }),
        strings_from(head, 0) == Seq::<(Seq<u8>, bool)>::empty(),
{
    let e = escaped(data);
    let q = quoted(data);
    let s = head + q + rest;
    let n = head.len() as int;
    lemma_skip_to_quote(s, head, 0);
    lemma_skip_to_quote(head, head, 0);
    assert(s[n] == q[0]);
    assert forall|k: int| 0 <= k < e.len() implies #[trigger] s[n + 1 + k] == e[k] by {
        assert(s[n + 1 + k] == q[1 + k]);
    }
    assert(s[n + 1 + e.len()] == q[1 + e.len() as int]);
    lemma_closes(s, data, n + 1, 0, '"');
    let end = n + 1 + e.len();
    assert(s.subrange(n + 1, end as int) =~= e);
    law_escaped_data_is_exact(data);
    reveal_strlit("\"...");
    let tail = s.skip(end as int);
    assert(tail =~= seq!['"'] + rest);
    let dots = "\"..."@;
    let cut = rest.len() >= 3 && rest[0] == '.' && rest[1] == '.' && rest[2] == '.';
    if cut {
        assert(tail.take(4) =~= dots);
    }
    if starts_with(tail, dots) {
        assert(tail.take(4)[1] == '.' && tail.take(4)[2] == '.' && tail.take(4)[3] == '.');
    }
}

proof fn lemma_skip_to_quote(s: Seq<char>, head: Seq<char>, i: int)
    requires
        0 <= i <= head.len() <= s.len(),
        !head.contains('"'),
        forall|k: int| 0 <= k < head.len() ==> #[trigger] s[k] == head[k],
    ensures
        strings_from(s, i) == strings_from(s, head.len() as int),
    decreases head.len() - i,
{
    if i < head.len() {
        assert(s[i] == head[i]);
        assert(head.contains(head[i]));
        lemma_skip_to_quote(s, head, i + 1);
    }
}

/// A result that begins with `0x` is hexadecimal, and any other decimal; what does
/// not fit, or is no number, is no result.
pub proof fn law_results_are_numbers(s: Seq<char>)
    ensures
        result_number(seq!['0', 'x'] + s) == (match number_in(
            s,
            16,
            true,
            i64::MIN as int,
            i64::MAX as int,
        ) {
            Some(v) => Some(v as i64),
            None => None::<i64>,
        }),
        s.len() < 2 || s[1] != 'x' ==> result_number(s) == (match number_in(
            s,
            10,
            true,
            i64::MIN as int,
            i64::MAX as int,
        ) {
            Some(v) => Some(v as i64),
            None => None::<i64>,
        }),
{
    reveal_strlit("0x");
    let x = seq!['0', 'x'] + s;
    assert(x.take(2) =~= "0x"@);
    assert(x.skip(2) =~= s);
    if starts_with(s, "0x"@) {
        assert(s.take(2)[1] == 'x');
    }
}

/// Where a path argument leads: the bytes between the quotes, as text, resolved
/// against the directory of the fd argument or the working directory.
pub proof fn law_path_arguments_are_resolved(
    st: StateView,
    pid: u32,
    dirfd: Option<Seq<char>>,
    path: Seq<u8>,
)
    ensures
        path_of_arg(st, pid, dirfd, quoted(path)) == resolved_path(
            st,
            pid,
            dirfd,
            lossy_text(path),
        ),
{
    let empty = Seq::<char>::empty();
    law_strings_are_read_in_order(empty, path, empty);
    assert(empty + quoted(path) + empty =~= quoted(path));
}

/// Where an open call leads: to the path that the log adds to the new fd, if it
/// does, and otherwise to the path argument.
pub proof fn law_opened_paths_are_resolved(
    st: StateView,
    pid: u32,
    c: CallView,
    dirfd: Option<Seq<char>>,
    path: Seq<u8>,
)
    ensures
        c.ret_path matches Some(p) ==> opened_path(st, pid, c, dirfd, quoted(path))
            == normalized(p),
        c.ret_path is None ==> opened_path(st, pid, c, dirfd, quoted(path)) == resolved_path(
            st,
            pid,
            dirfd,
            lossy_text(path),
        ),
{
    law_path_arguments_are_resolved(st, pid, dirfd, path);
}

/// Where an fd argument leads: below the root if the path that the log adds lies
/// there, and nowhere if the log adds none.
pub proof fn law_fd_arguments_lead_below_the_root(st: StateView, n: nat, path: Seq<u8>)
    requires
        n <= i64::MAX,
    ensures
        fd_relative(st, decimal(n) + seq!['<'] + escaped(path) + seq!['>']) == relative(
            st,
            lossy_text(path),
        ),
        fd_relative(st, decimal(n)) is None,
{
    law_fd_arguments_are_read(n, path);
}

/// The arguments of a call by their number; one that is not there is empty.
pub proof fn law_arguments_by_number(c: CallView, i: int)
    requires
        0 <= i,
    ensures
        i < c.args.len() ==> arg_of(c, i) == c.args[i],
        i >= c.args.len() ==> arg_of(c, i).len() == 0,
{
    reveal_strlit("");
}

/// A line that logs a call, with the number of its process, does what the call
/// does; nothing that is still pending changes.
pub proof fn law_a_line_does_what_its_call_does(
    rd: Reading,
    pid: u32,
    name: Seq<char>,
    args: Seq<Seq<char>>,
    n: nat,
)
    requires
        is_name(name),
        forall|k: int| 0 <= k < args.len() ==> is_argument(#[trigger] args[k]),
        n <= i64::MAX,
    ensures
        ({
            let c = CallView { name, args, ret: Some(n as i64), ret_path: None };
            let line = decimal(pid as nat) + seq![' '] + logged(name, args, decimal(n));
            after_line(rd, line) == (match after_call(rd.st, pid, c) {
                Ok(st) => Ok(Reading { st, pending: rd.pending }),
                Err(e) => Err(e),
            })
        }),
{
    let num = decimal(n);
    let empty = Seq::<char>::empty();
    assert(num + empty =~= num);
    law_logged_calls_are_read(name, args, n as int, empty);
    let text = logged(name, args, num);
    assert(text[0] == name[0]);
    assert(is_alphanumeric(name[0]) || name[0] == '_');
    law_lines_begin_with_the_process(pid, text);
    reveal_strlit("+++");
    reveal_strlit("---");
    reveal_strlit("<... ");
    reveal_strlit("<unfinished ...>");
    if starts_with(text, "+++"@) {
        assert(text.take(3)[0] == '+');
    }
    if starts_with(text, "---"@) {
        assert(text.take(3)[0] == '-');
    }
    if starts_with(text, "<... "@) {
        assert(text.take(5)[0] == '<');
    }
    lemma_decimal(n);
    let last = text.len() - 1;
    assert(text[last] == num[num.len() - 1]);
    assert('0' <= num[num.len() - 1] <= '9');
    let end = "<unfinished ...>"@;
    if ends_with(text, end) {
        assert(text.skip(text.len() - end.len())[end.len() - 1] == end[end.len() - 1]);
    }
}

/// A line that logs no call changes nothing.
pub proof fn law_other_lines_change_nothing(rd: Reading, line: Seq<char>)
    ensures
        pid_and_rest(line) is None ==> after_line(rd, line) == Ok::<Reading, Seq<char>>(rd),
        pid_and_rest(line) matches Some((pid, text)) ==> (call_in(text) is None && !ends_with(
            text,
            "<unfinished ...>"@,
        ) && !starts_with(text, "<... "@) ==> after_line(rd, line) == Ok::<Reading, Seq<char>>(rd)),
{
}

/// Octal digits behind a backslash are read as long as there are any, three at
/// most; the next byte that is none is read on its own.
pub proof fn law_octal_escapes_end_early(rest: Seq<u8>, a: u8, b: u8)
    requires
        48 <= a <= 55,
        48 <= b <= 55,
        rest.len() == 0 || !(48 <= rest[0] <= 55),
    ensures
        unescaped(seq![92u8, a] + rest) == seq![(a - 48) as u8] + unescaped(rest),
        unescaped(seq![92u8, a, b] + rest) == seq![((a - 48) * 8 + (b - 48)) as u8] + unescaped(
            rest,
        ),
{
    reveal_with_fuel(octal, 3);
    let one = seq![92u8, a] + rest;
    assert(one.skip(2) =~= rest);
    assert(rest.skip(0) =~= rest);
    let two = seq![92u8, a, b] + rest;
    let tail = two.skip(2);
    assert(tail =~= seq![b] + rest);
    assert(tail.skip(1) =~= rest);
}

} // verus!
