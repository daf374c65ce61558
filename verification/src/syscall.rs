//! One line of an `strace -f -y -xx` log: a system call with its arguments and
//! its result.

use crate::text::{
    chars_of, copy_of, ends_with, has_prefix, has_suffix, index_from, index_of, is_white,
    number_in, parse_number, part, starts_with, text_of, texts, trim, trim_start, trimmed,
    trimmed_start, white,
};
use vstd::prelude::*;
use vstd::string::*;
use vstd::utf8::{decode_utf8, encode_utf8, valid_utf8};

verus! {

/// What `String::from_utf8_lossy` makes of bytes.
pub uninterp spec fn lossy_text(b: Seq<u8>) -> Seq<char>;

/// `String::from_utf8_lossy`: the text depends on the bytes alone, and bytes
/// that are valid UTF-8 are decoded. What stands for bytes that are not is left
/// unsaid.
#[verifier::external_body]
pub(crate) fn lossy(b: &Vec<u8>) -> (r: String)
    ensures
        r@ == lossy_text(b@),
        valid_utf8(b@) ==> r@ == decode_utf8(b@),
{
    String::from_utf8_lossy(b).into_owned()
}

/// A system call, as it was logged.
#[derive(Debug, PartialEq, Eq)]
pub struct Call {
    pub name: String,
    pub args: Vec<String>,
    pub ret: Option<i64>,
    /// The `-y` annotation on the return value (the path of a returned fd).
    pub ret_path: Option<String>,
}

/// A system call, over mathematical values.
pub struct CallView {
    pub name: Seq<char>,
    pub args: Seq<Seq<char>>,
    pub ret: Option<i64>,
    pub ret_path: Option<Seq<char>>,
}

impl View for Call {
    type V = CallView;

    open spec fn view(&self) -> CallView {
        CallView {
            name: self.name@,
            args: texts(self.args@),
            ret: self.ret,
            ret_path: match self.ret_path {
                Some(p) => Some(p@),
                None => None,
            },
        }
    }
}

/// An ASCII digit.
pub open spec fn is_digit(c: char) -> bool {
    '0' <= c <= '9'
}

/// An ASCII letter or digit.
pub open spec fn is_alphanumeric(c: char) -> bool {
    is_digit(c) || 'a' <= c <= 'z' || 'A' <= c <= 'Z'
}

fn digit(c: char) -> (r: bool)
    ensures
        r == is_digit(c),
{
    '0' <= c && c <= '9'
}

fn alphanumeric(c: char) -> (r: bool)
    ensures
        r == is_alphanumeric(c),
{
    digit(c) || ('a' <= c && c <= 'z') || ('A' <= c && c <= 'Z')
}

/// How many digits stand from index `i` on.
pub open spec fn digits_from(s: Seq<char>, i: int) -> int
    decreases s.len() - i,
{
    if i >= s.len() || !is_digit(s[i]) {
        0
    } else {
        1 + digits_from(s, i + 1)
    }
}

/// The process and the rest of a log line; none where no call is logged.
pub open spec fn pid_and_rest(line: Seq<char>) -> Option<(u32, Seq<char>)> {
    let n = digits_from(line, 0);
    let rest = trim_start(line.skip(n));
    match number_in(line.take(n), 10, false, 0, u32::MAX as int) {
        Some(pid) => if starts_with(rest, "+++"@) || starts_with(rest, "---"@) {
            None
        } else {
            Some((pid as u32, rest))
        },
        None => None,
    }
}

/// Splits a log line into the process and the rest.
pub fn split_pid(line: &[char]) -> (r: Option<(u32, Vec<char>)>)
    ensures
        match r {
            Some(x) => pid_and_rest(line@) == Some((x.0, x.1@)),
            None => pid_and_rest(line@) is None,
        },
{
    let mut n: usize = 0;
    while n < line.len() && digit(line[n])
        invariant
            n <= line@.len(),
            digits_from(line@, 0) == n + digits_from(line@, n as int),
        decreases line@.len() - n,
    {
        n += 1;
    }
    assert(digits_from(line@, 0) == n);
    let head = part(line, 0, n);
    let tail = part(line, n, line.len());
    assert(head@ =~= line@.take(n as int));
    assert(tail@ =~= line@.skip(n as int));
    match parse_number(head, 10, false, 0, 0xffff_ffff) {
        Some(pid) => {
            let rest = trimmed_start(tail);
            let plus = chars_of("+++");
            let minus = chars_of("---");
            if has_prefix(rest, plus.as_slice()) || has_prefix(rest, minus.as_slice()) {
                None
            } else {
                Some((pid as u32, copy_of(rest)))
            }
        },
        None => None,
    }
}

/// The index of the closing delimiter from index `i` on, honoring backslash
/// escapes; the length if there is none.
pub open spec fn closing(s: Seq<char>, i: int, close: char) -> int
    decreases s.len() - i + 1,
{
    if i >= s.len() {
        s.len() as int
    } else if s[i] == close {
        i
    } else if s[i] == '\\' {
        closing(s, i + 2, close)
    } else {
        closing(s, i + 1, close)
    }
}

pub proof fn lemma_closing(s: Seq<char>, i: int, close: char)
    requires
        0 <= i <= s.len(),
    ensures
        i <= closing(s, i, close) <= s.len(),
    decreases s.len() - i,
{
    if i < s.len() && s[i] != close {
        if s[i] == '\\' {
            if i + 2 <= s.len() {
                lemma_closing(s, i + 2, close);
            } else {
                assert(closing(s, i + 2, close) == s.len());
            }
        } else {
            lemma_closing(s, i + 1, close);
        }
    }
}

/// The index of the closing delimiter, honoring backslash escapes.
pub fn skip_delimited(s: &[char], at: usize, close: char) -> (r: usize)
    requires
        at < s@.len(),
    ensures
        r == closing(s@, at + 1, close),
        at < r <= s@.len(),
{
    let n: usize = s.len();
    let mut i: usize = at + 1;
    while i < n && s[i] != close
        invariant
            at < i <= n,
            n == s@.len(),
            closing(s@, at + 1, close) == closing(s@, i as int, close),
        decreases n - i,
    {
        if s[i] == '\\' {
            if i + 1 == n {
                assert(closing(s@, i + 2, close) == n);
                return n;
            }
            i += 2;
        } else {
            i += 1;
        }
    }
    i
}

/// The arguments of a call, from index `i` on: where the list ends, and the
/// arguments. Commas count only outside quotes, brackets and `<path>`
/// annotations; `start` is where the current argument starts.
pub open spec fn args_from(
    s: Seq<char>,
    i: int,
    start: int,
    depth: nat,
    args: Seq<Seq<char>>,
) -> Option<(int, Seq<Seq<char>>)>
    decreases s.len() - i + 1,
{
    if i < 0 || i >= s.len() {
        None
    } else {
        proof {
            lemma_closing(s, i + 1, '"');
            lemma_closing(s, i + 1, '>');
        }
        let c = s[i];
        if c == '"' {
            args_from(s, closing(s, i + 1, '"') + 1, start, depth, args)
        } else if c == '<' && i > 0 && is_alphanumeric(s[i - 1]) {
            args_from(s, closing(s, i + 1, '>') + 1, start, depth, args)
        } else if c == '(' || c == '[' || c == '{' {
            args_from(s, i + 1, start, depth + 1, args)
        } else if c == ')' && depth == 0 {
            let arg = trim(s.subrange(start, i));
            Some(
                (
                    i,
                    if arg.len() == 0 {
                        args
                    } else {
                        args.push(arg)
                    },
                ),
            )
        } else if c == ')' || c == ']' || c == '}' {
            args_from(
                s,
                i + 1,
                start,
                if depth == 0 {
                    0
                } else {
                    (depth - 1) as nat
                },
                args,
            )
        } else if c == ',' && depth == 0 {
            args_from(s, i + 1, i + 1, depth, args.push(trim(s.subrange(start, i))))
        } else {
            args_from(s, i + 1, start, depth, args)
        }
    }
}

/// Where a word ends, from index `i` on: at white space.
pub open spec fn word_end(s: Seq<char>, i: int) -> int
    decreases s.len() - i,
{
    if i >= s.len() || is_white(s[i]) {
        i
    } else {
        word_end(s, i + 1)
    }
}

/// Where a result's number ends, from index `i` on: at an annotation or at white
/// space.
pub open spec fn number_end(s: Seq<char>, i: int) -> int
    decreases s.len() - i,
{
    if i >= s.len() || s[i] == '<' || is_white(s[i]) {
        i
    } else {
        number_end(s, i + 1)
    }
}

/// Where a result ends: at the first white space outside its annotation. One
/// that is not closed ends at white space as well.
pub open spec fn result_end(s: Seq<char>) -> int {
    let i = number_end(s, 0);
    if i < s.len() && s[i] == '<' {
        let close = closing(s, i + 1, '>');
        word_end(
            s,
            if close < s.len() {
                close
            } else {
                i
            },
        )
    } else {
        i
    }
}

/// The result of a call, if there is any.
pub open spec fn result_in(s: Seq<char>) -> Option<Seq<char>> {
    let t = trim_start(s);
    if t.len() == 0 {
        None
    } else {
        Some(t.take(result_end(t)))
    }
}

/// Without the `>` at the end, if it is there.
pub open spec fn without_end(p: Seq<char>) -> Seq<char> {
    if ends_with(p, ">"@) {
        p.drop_last()
    } else {
        p
    }
}

/// The bytes of an annotation.
pub open spec fn annotation(p: Seq<char>) -> Seq<u8> {
    unescaped(encode_utf8(without_end(p)))
}

/// A number and the annotation behind it.
pub open spec fn before_annotation(s: Seq<char>) -> (Seq<char>, Option<Seq<u8>>) {
    let i = index_from(s, '<', 0);
    if i < s.len() {
        (s.take(i), Some(annotation(s.skip(i + 1))))
    } else {
        (s, None)
    }
}

/// The result of a call, as it was logged.
pub open spec fn result_number(num: Seq<char>) -> Option<i64> {
    let v = if starts_with(num, "0x"@) {
        number_in(num.skip(2), 16, true, i64::MIN as int, i64::MAX as int)
    } else {
        number_in(num, 10, true, i64::MIN as int, i64::MAX as int)
    };
    match v {
        Some(v) => Some(v as i64),
        None => None,
    }
}

/// What may stand in the name of a call.
pub open spec fn is_name(s: Seq<char>) -> bool {
    s.len() > 0 && forall|i: int|
        0 <= i < s.len() ==> is_alphanumeric(#[trigger] s[i]) || s[i] == '_'
}

/// The call in a log line: `name(arg, arg, ...) = ret`.
pub open spec fn call_in(line: Seq<char>) -> Option<CallView> {
    let open = index_from(line, '(', 0);
    if open >= line.len() || !is_name(line.take(open)) {
        None
    } else {
        match args_from(line, open + 1, open + 1, 0, Seq::empty()) {
            None => None,
            Some((end, args)) => {
                let tail = trim_start(line.skip(end + 1));
                if tail.len() == 0 || tail[0] != '=' {
                    None
                } else {
                    match result_in(tail.skip(1)) {
                        None => None,
                        Some(result) => {
                            let (num, path) = before_annotation(result);
                            Some(
                                CallView {
                                    name: line.take(open),
                                    args,
                                    ret: result_number(num),
                                    ret_path: match path {
                                        Some(b) => Some(lossy_text(b)),
                                        None => None,
                                    },
                                },
                            )
                        },
                    }
                }
            },
        }
    }
}

/// An octal digit.
pub open spec fn is_octal(b: u8) -> bool {
    48 <= b <= 55
}

/// The number that up to `n` more octal digits spell behind `v`, and how many
/// there are.
pub open spec fn octal(b: Seq<u8>, v: int, n: nat) -> (int, int)
    decreases n,
{
    if n == 0 || b.len() == 0 || !is_octal(b[0]) {
        (v, 0)
    } else {
        let (w, k) = octal(b.skip(1), v * 8 + (b[0] - 48), (n - 1) as nat);
        (w, k + 1)
    }
}

/// The byte that two hexadecimal digits spell; `x` if they spell none.
pub open spec fn hex_pair(b: Seq<u8>) -> u8 {
    if b.len() < 2 {
        120
    } else {
        match number_in(seq![b[0] as char, b[1] as char], 16, false, 0, 255) {
            Some(v) => v as u8,
            None => 120,
        }
    }
}

/// The byte that a one-letter escape stands for.
pub open spec fn escape(c: u8) -> u8 {
    if c == 110 {
        10
    } else if c == 116 {
        9
    } else if c == 114 {
        13
    } else if c == 118 {
        11
    } else if c == 102 {
        12
    } else if c == 97 {
        7
    } else if c == 98 {
        8
    } else {
        c
    }
}

/// The bytes that a string with C-style escapes stands for.
pub open spec fn unescaped(b: Seq<u8>) -> Seq<u8>
    decreases b.len(),
{
    if b.len() == 0 {
        Seq::empty()
    } else if b[0] != 92 || b.len() == 1 {
        seq![b[0]] + unescaped(b.skip(1))
    } else {
        let rest = b.skip(2);
        if b[1] == 120 {
            seq![hex_pair(rest)] + unescaped(
                if rest.len() < 2 {
                    Seq::empty()
                } else {
                    rest.skip(2)
                },
            )
        } else if is_octal(b[1]) {
            let (v, k) = octal(rest, b[1] - 48, 2);
            proof {
                lemma_octal(rest, b[1] - 48, 2);
            }
            seq![(v % 256) as u8] + unescaped(rest.skip(k))
        } else {
            seq![escape(b[1])] + unescaped(rest)
        }
    }
}

pub proof fn lemma_octal(b: Seq<u8>, v: int, n: nat)
    ensures
        0 <= octal(b, v, n).1 <= n,
        octal(b, v, n).1 <= b.len(),
    decreases n,
{
    if n > 0 && b.len() > 0 && is_octal(b[0]) {
        lemma_octal(b.skip(1), v * 8 + (b[0] - 48), (n - 1) as nat);
    }
}

/// Decodes C-style escapes as strace prints them.
pub fn unescape(s: &str) -> (r: Vec<u8>)
    ensures
        r@ == unescaped(encode_utf8(s@)),
{
    let b = s.as_bytes();
    let ghost all = b@;
    let n: usize = b.len();
    let mut out: Vec<u8> = Vec::new();
    let mut i: usize = 0;
    assert(b@.skip(0) =~= b@);
    assert(out@ + unescaped(all) =~= unescaped(all));
    while i < n
        invariant
            i <= n,
            n == b@.len(),
            all == b@,
            out@ + unescaped(all.skip(i as int)) == unescaped(all),
        decreases n - i,
    {
        let ghost here = all.skip(i as int);
        let ghost before = out@;
        if b[i] != 92 || i + 1 == n {
            out.push(b[i]);
            i += 1;
            proof {
                assert(here.skip(1) =~= all.skip(i as int));
                assert(before + (seq![here[0]] + unescaped(here.skip(1))) =~= out@ + unescaped(
                    here.skip(1),
                ));
            }
            continue;
        }
        let c: u8 = b[i + 1];
        let at: usize = i + 2;
        let ghost rest = all.skip(at as int);
        assert(here.skip(2) =~= rest);
        let ghost tail: Seq<u8>;
        if c == 120 {
            if n - at >= 2 {
                let mut pair: Vec<char> = Vec::new();
                pair.push(b[at] as char);
                pair.push(b[at + 1] as char);
                assert(pair@ =~= seq![rest[0] as char, rest[1] as char]);
                match parse_number(pair.as_slice(), 16, false, 0, 255) {
                    Some(v) => {
                        out.push(v as u8);
                    },
                    None => {
                        out.push(120);
                    },
                }
                i = at + 2;
                proof {
                    tail = rest.skip(2);
                }
            } else {
                out.push(120);
                i = n;
                proof {
                    tail = Seq::empty();
                }
            }
            assert(out@ =~= before.push(hex_pair(rest)));
        } else if 48 <= c && c <= 55 {
            let mut v: u32 = (c - 48) as u32;
            let ghost v0 = v as int;
            assert(rest.skip(0) =~= rest);
            let mut k: usize = 0;
            while k < 2 && k < n - at && 48 <= b[at + k] && b[at + k] <= 55
                invariant
                    k <= 2,
                    k <= n - at,
                    at <= n,
                    n == b@.len(),
                    all == b@,
                    rest == all.skip(at as int),
                    v <= 511,
                    k == 0 ==> v <= 7,
                    k == 1 ==> v <= 63,
                    octal(rest, v0, 2).0 == octal(rest.skip(k as int), v as int, (2 - k) as nat).0,
                    octal(rest, v0, 2).1 == k + octal(
                        rest.skip(k as int),
                        v as int,
                        (2 - k) as nat,
                    ).1,
                decreases 2 - k,
            {
                assert(rest.skip(k as int).skip(1) =~= rest.skip(k + 1));
                v = v * 8 + (b[at + k] - 48) as u32;
                k += 1;
            }
            out.push((v % 256) as u8);
            i = at + k;
            proof {
                tail = rest.skip(k as int);
                assert(octal(rest, v0, 2) == (v as int, k as int));
            }
        } else {
            let e: u8 = match c {
                110 => 10,
                116 => 9,
                114 => 13,
                118 => 11,
                102 => 12,
                97 => 7,
                98 => 8,
                _ => c,
            };
            out.push(e);
            i = at;
            proof {
                tail = rest;
            }
        }
        proof {
            assert(all.skip(i as int) =~= tail);
            assert(unescaped(here) == seq![out@.last()] + unescaped(tail));
            assert(before + (seq![out@.last()] + unescaped(tail)) =~= out@ + unescaped(tail));
        }
    }
    assert(all.skip(i as int) =~= Seq::<u8>::empty());
    assert(out@ + Seq::<u8>::empty() =~= out@);
    out
}

/// The end of an argument list and the arguments.
fn scan_args(s: &[char], from: usize) -> (r: Option<(usize, Vec<String>)>)
    requires
        from <= s@.len(),
        from > 0,
    ensures
        match r {
            Some(x) => args_from(s@, from as int, from as int, 0, Seq::empty()) == Some(
                (x.0 as int, texts(x.1@)),
            ) && x.0 < s@.len(),
            None => args_from(s@, from as int, from as int, 0, Seq::empty()) is None,
        },
{
    let n: usize = s.len();
    let mut args: Vec<String> = Vec::new();
    let mut i: usize = from;
    let mut start: usize = from;
    let mut depth: usize = 0;
    assert(texts(args@) =~= Seq::<Seq<char>>::empty());
    while i < n
        invariant
            0 < start <= i,
            start <= n,
            n == s@.len(),
            depth <= i,
            args_from(s@, i as int, start as int, depth as nat, texts(args@)) == args_from(
                s@,
                from as int,
                from as int,
                0,
                Seq::empty(),
            ),
        decreases n - i,
    {
        let c: char = s[i];
        if c == '"' {
            let end: usize = skip_delimited(s, i, '"');
            if end == n {
                assert(args_from(s@, n + 1, start as int, depth as nat, texts(args@)) is None);
                return None;
            }
            i = end + 1;
        } else if c == '<' && alphanumeric(s[i - 1]) {
            let end: usize = skip_delimited(s, i, '>');
            if end == n {
                assert(args_from(s@, n + 1, start as int, depth as nat, texts(args@)) is None);
                return None;
            }
            i = end + 1;
        } else if c == '(' || c == '[' || c == '{' {
            depth += 1;
            i += 1;
        } else if c == ')' && depth == 0 {
            let arg = trimmed(part(s, start, i));
            if arg.len() > 0 {
                let ghost before = texts(args@);
                let t = text_of(arg);
                args.push(t);
                assert(texts(args@) =~= before.push(t@));
            }
            return Some((i, args));
        } else if c == ')' || c == ']' || c == '}' {
            if depth > 0 {
                depth = depth - 1;
            }
            i += 1;
        } else if c == ',' && depth == 0 {
            let ghost before = texts(args@);
            let t = text_of(trimmed(part(s, start, i)));
            args.push(t);
            assert(texts(args@) =~= before.push(t@));
            i += 1;
            start = i;
        } else {
            i += 1;
        }
    }
    None
}

fn find_word_end(s: &[char], from: usize) -> (r: usize)
    requires
        from <= s@.len(),
    ensures
        r == word_end(s@, from as int),
        from <= r <= s@.len(),
{
    let mut i: usize = from;
    while i < s.len() && !white(s[i])
        invariant
            from <= i <= s@.len(),
            word_end(s@, from as int) == word_end(s@, i as int),
        decreases s@.len() - i,
    {
        i += 1;
    }
    i
}

/// The result of a call, if there is any.
fn read_result_text(s: &[char]) -> (r: Option<Vec<char>>)
    ensures
        match r {
            Some(x) => result_in(s@) == Some(x@),
            None => result_in(s@) is None,
        },
{
    let t = trimmed_start(s);
    if t.len() == 0 {
        return None;
    }
    let mut i: usize = 0;
    while i < t.len() && t[i] != '<' && !white(t[i])
        invariant
            i <= t@.len(),
            number_end(t@, 0) == number_end(t@, i as int),
        decreases t@.len() - i,
    {
        i += 1;
    }
    let end: usize = if i < t.len() && t[i] == '<' {
        let close: usize = skip_delimited(t, i, '>');
        if close < t.len() {
            find_word_end(t, close)
        } else {
            find_word_end(t, i)
        }
    } else {
        i
    };
    let result = part(t, 0, end);
    assert(result@ =~= t@.take(end as int));
    Some(copy_of(result))
}

fn read_annotation(p: &[char]) -> (r: Vec<u8>)
    ensures
        r@ == annotation(p@),
{
    let gt = chars_of(">");
    proof {
        reveal_strlit(">");
    }
    let body = if has_suffix(p, gt.as_slice()) {
        let b = part(p, 0, p.len() - 1);
        assert(b@ =~= p@.drop_last());
        b
    } else {
        p
    };
    unescape(text_of(body).as_str())
}

/// Splits off the annotation behind a number.
fn split_annotation(s: &[char]) -> (r: (Vec<char>, Option<Vec<u8>>))
    ensures
        before_annotation(s@) == (
            r.0@,
            match r.1 {
                Some(b) => Some(b@),
                None => None,
            },
        ),
{
    let i: usize = index_of(s, '<', 0);
    if i < s.len() {
        let head = part(s, 0, i);
        let tail = part(s, i + 1, s.len());
        assert(head@ =~= s@.take(i as int));
        assert(tail@ =~= s@.skip(i + 1));
        (copy_of(head), Some(read_annotation(tail)))
    } else {
        (copy_of(s), None)
    }
}

/// A number that fits 64 bits.
fn signed(s: &[char], radix: i128) -> (r: Option<i64>)
    requires
        radix == 10 || radix == 16,
    ensures
        r == match number_in(s@, radix as int, true, i64::MIN as int, i64::MAX as int) {
            Some(v) => Some(v as i64),
            None => None,
        },
{
    match parse_number(s, radix, true, -0x8000_0000_0000_0000, 0x7fff_ffff_ffff_ffff) {
        Some(v) => Some(v as i64),
        None => None,
    }
}

fn read_result(num: &[char]) -> (r: Option<i64>)
    ensures
        r == result_number(num@),
{
    let hex = chars_of("0x");
    proof {
        reveal_strlit("0x");
    }
    if has_prefix(num, hex.as_slice()) {
        let digits = part(num, 2, num.len());
        assert(digits@ =~= num@.skip(2));
        signed(digits, 16)
    } else {
        signed(num, 10)
    }
}

fn check_name(s: &[char]) -> (r: bool)
    ensures
        r == is_name(s@),
{
    let mut i: usize = 0;
    while i < s.len()
        invariant
            i <= s@.len(),
            forall|k: int| 0 <= k < i ==> is_alphanumeric(#[trigger] s@[k]) || s@[k] == '_',
        decreases s@.len() - i,
    {
        if !alphanumeric(s[i]) && s[i] != '_' {
            assert(!(is_alphanumeric(s@[i as int]) || s@[i as int] == '_'));
            return false;
        }
        i += 1;
    }
    s.len() > 0
}

/// Splits `name(arg, arg, ...) = ret` respecting quotes, brackets and `<path>`
/// annotations.
pub fn parse_call(line: &str) -> (r: Option<Call>)
    ensures
        match r {
            Some(c) => call_in(line@) == Some(c@),
            None => call_in(line@) is None,
        },
{
    let c = chars_of(line);
    read_call(c.as_slice())
}

/// The call in a log line.
pub fn read_call(line: &[char]) -> (r: Option<Call>)
    ensures
        match r {
            Some(c) => call_in(line@) == Some(c@),
            None => call_in(line@) is None,
        },
{
    let open: usize = index_of(line, '(', 0);
    if open >= line.len() {
        return None;
    }
    let name = part(line, 0, open);
    assert(name@ =~= line@.take(open as int));
    if !check_name(name) {
        return None;
    }
    let (end, args) = match scan_args(line, open + 1) {
        Some(x) => x,
        None => {
            return None;
        },
    };
    let after = part(line, end + 1, line.len());
    assert(after@ =~= line@.skip(end + 1));
    let tail = trimmed_start(after);
    if tail.len() == 0 || tail[0] != '=' {
        return None;
    }
    let rest = part(tail, 1, tail.len());
    assert(rest@ =~= tail@.skip(1));
    let result = match read_result_text(rest) {
        Some(x) => x,
        None => {
            return None;
        },
    };
    let (num, path) = split_annotation(result.as_slice());
    let ret = read_result(num.as_slice());
    let ret_path = match path {
        Some(b) => Some(lossy(&b)),
        None => None,
    };
    Some(Call { name: text_of(name), args, ret, ret_path })
}

/// Every quoted string from index `i` on, in order, with its truncation flag.
pub open spec fn strings_from(s: Seq<char>, i: int) -> Seq<(Seq<u8>, bool)>
    decreases s.len() - i + 1,
{
    if i < 0 || i >= s.len() {
        Seq::empty()
    } else if s[i] == '"' {
        proof {
            lemma_closing(s, i + 1, '"');
        }
        let end = closing(s, i + 1, '"');
        seq![
            (
                unescaped(encode_utf8(s.subrange(i + 1, end))),
                starts_with(s.skip(end), "\"..."@),
            ),
        ] + strings_from(s, end + 1)
    } else {
        strings_from(s, i + 1)
    }
}

/// What a list of quoted strings says.
pub open spec fn strings_view(v: Seq<(Vec<u8>, bool)>) -> Seq<(Seq<u8>, bool)> {
    Seq::new(v.len(), |i: int| (v[i].0@, v[i].1))
}

/// Every quoted string in an argument, in order, with its truncation flag.
pub fn strings(arg: &str) -> (r: Vec<(Vec<u8>, bool)>)
    ensures
        strings_view(r@) == strings_from(arg@, 0),
{
    let c = chars_of(arg);
    let s = c.as_slice();
    let n: usize = s.len();
    let dots = chars_of("\"...");
    let mut out: Vec<(Vec<u8>, bool)> = Vec::new();
    let mut i: usize = 0;
    assert(strings_view(out@) + strings_from(s@, 0) =~= strings_from(s@, 0));
    while i < n
        invariant
            i <= n,
            n == s@.len(),
            s@ == arg@,
            dots@ == "\"..."@,
            strings_view(out@) + strings_from(s@, i as int) == strings_from(s@, 0),
        decreases n - i,
    {
        if s[i] == '"' {
            let end: usize = skip_delimited(s, i, '"');
            let body = text_of(part(s, i + 1, end));
            let tail = part(s, end, n);
            assert(tail@ =~= s@.skip(end as int));
            let truncated = has_prefix(tail, dots.as_slice());
            let ghost before = strings_view(out@);
            let x = (unescape(body.as_str()), truncated);
            out.push(x);
            proof {
                let rest = strings_from(s@, end + 1);
                assert(strings_view(out@) =~= before.push((x.0@, x.1)));
                assert(before + (seq![(x.0@, x.1)] + rest) =~= strings_view(out@) + rest);
            }
            if end == n {
                assert(strings_from(s@, n + 1) =~= Seq::<(Seq<u8>, bool)>::empty());
                assert(strings_view(out@) + strings_from(s@, n + 1) =~= strings_view(out@));
                return out;
            }
            i = end + 1;
        } else {
            i += 1;
        }
    }
    assert(strings_view(out@) + strings_from(s@, i as int) =~= strings_view(out@));
    out
}

/// The fd and the path in an argument: `3</a/b>` gives both, `AT_FDCWD</x>` only
/// the path.
pub open spec fn fd_of(arg: Seq<char>) -> (Option<i64>, Option<Seq<char>>) {
    let (num, path) = before_annotation(arg);
    (
        match number_in(num, 10, true, i64::MIN as int, i64::MAX as int) {
            Some(v) => Some(v as i64),
            None => None,
        },
        match path {
            Some(b) => Some(lossy_text(b)),
            None => None,
        },
    )
}

/// `3</a/b>` -> (Some(3), Some("/a/b")); `AT_FDCWD</x>` -> (None, Some("/x")).
pub fn fd_arg(arg: &str) -> (r: (Option<i64>, Option<String>))
    ensures
        fd_of(arg@) == (
            r.0,
            match r.1 {
                Some(p) => Some(p@),
                None => None,
            },
        ),
{
    let c = chars_of(arg);
    let (num, path) = split_annotation(c.as_slice());
    let fd = signed(num.as_slice(), 10);
    let path = match path {
        Some(b) => Some(lossy(&b)),
        None => None,
    };
    (fd, path)
}

} // verus!
