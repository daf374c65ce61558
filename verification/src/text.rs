//! Text, character by character: the small vocabulary of searching, splitting,
//! trimming and number parsing that the rest of the library is specified in.
//!
//! Specifications speak of `Seq<char>`; executable code works on `&[char]`.

use vstd::prelude::*;
use vstd::slice::slice_subrange;
use vstd::string::*;

verus! {

/// `String::push` appends the given character to the end of the string.
pub assume_specification[ String::push ](s: &mut String, c: char)
    ensures
        final(s)@ == old(s)@.push(c),
;

/// What `{:?}` prints for a string: the string in double quotes, escaped.
pub uninterp spec fn debug_quoted(s: Seq<char>) -> Seq<char>;

/// `format!("{:?}", s)` on a string slice: the text depends on the string
/// alone. How each character is escaped is left unsaid.
#[verifier::external_body]
pub(crate) fn quoted(s: &str) -> (r: String)
    ensures
        r@ == debug_quoted(s@),
{
    format!("{:?}", s)
}

/// What a list of strings says.
pub open spec fn texts(v: Seq<String>) -> Seq<Seq<char>> {
    Seq::new(v.len(), |i: int| v[i]@)
}

/// What a list of character vectors says.
pub open spec fn views(v: Seq<Vec<char>>) -> Seq<Seq<char>> {
    Seq::new(v.len(), |i: int| v[i]@)
}

/// The characters of a string, in order.
pub fn chars_of(s: &str) -> (r: Vec<char>)
    ensures
        r@ == s@,
{
    let mut r: Vec<char> = Vec::new();
    for c in it: s.chars()
        invariant
            r@ == s@.take(it.index() as int),
            it.seq() == s@,
    {
        r.push(c);
    }
    r
}

/// The string with the given characters.
pub fn text_of(v: &[char]) -> (r: String)
    ensures
        r@ == v@,
{
    let mut r = String::new();
    let mut i: usize = 0;
    while i < v.len()
        invariant
            i <= v.len(),
            r@ == v@.take(i as int),
        decreases v.len() - i,
    {
        r.push(v[i]);
        i += 1;
    }
    r
}

/// A vector with the given characters.
pub fn copy_of(v: &[char]) -> (r: Vec<char>)
    ensures
        r@ == v@,
{
    let mut r: Vec<char> = Vec::new();
    let mut i: usize = 0;
    while i < v.len()
        invariant
            i <= v.len(),
            r@ == v@.take(i as int),
        decreases v.len() - i,
    {
        r.push(v[i]);
        i += 1;
    }
    r
}

/// Whether two character sequences are the same.
pub fn same(a: &[char], b: &[char]) -> (r: bool)
    ensures
        r == (a@ == b@),
{
    if a.len() != b.len() {
        return false;
    }
    let mut i: usize = 0;
    while i < a.len()
        invariant
            i <= a.len(),
            a.len() == b.len(),
            a@.take(i as int) == b@.take(i as int),
        decreases a.len() - i,
    {
        if a[i] != b[i] {
            assert(a@[i as int] != b@[i as int]);
            return false;
        }
        assert(a@.take(i + 1) =~= a@.take(i as int).push(a@[i as int]));
        assert(b@.take(i + 1) =~= b@.take(i as int).push(b@[i as int]));
        i += 1;
    }
    assert(a@.take(i as int) =~= a@);
    assert(b@.take(i as int) =~= b@);
    true
}

/// Whether a character sequence spells `lit`.
pub fn is_lit(a: &[char], lit: &str) -> (r: bool)
    ensures
        r == (a@ == lit@),
{
    let l = chars_of(lit);
    same(a, l.as_slice())
}

/// Whether two strings are the same.
pub fn same_str(a: &str, b: &str) -> (r: bool)
    ensures
        r == (a@ == b@),
{
    let x = chars_of(a);
    is_lit(x.as_slice(), b)
}

/// `a` followed by `b`.
pub fn cat(a: String, b: &str) -> (r: String)
    ensures
        r@ == a@ + b@,
{
    a.concat(b)
}

/// Appends the characters of `b` to `a`.
pub fn push_all(a: &mut Vec<char>, b: &[char])
    ensures
        final(a)@ == old(a)@ + b@,
{
    let ghost start = a@;
    let mut i: usize = 0;
    while i < b.len()
        invariant
            i <= b.len(),
            a@ == start + b@.take(i as int),
        decreases b.len() - i,
    {
        a.push(b[i]);
        assert(b@.take(i + 1) =~= b@.take(i as int).push(b@[i as int]));
        i += 1;
        assert(a@ =~= start + b@.take(i as int));
    }
    assert(b@.take(i as int) =~= b@);
}

/// The characters of `s` from index `from` (inclusive) to `to` (exclusive).
pub fn part(s: &[char], from: usize, to: usize) -> (r: &[char])
    requires
        from <= to <= s@.len(),
    ensures
        r@ == s@.subrange(from as int, to as int),
{
    slice_subrange(s, from, to)
}

// ---------------------------------------------------------------------------
// Searching
// ---------------------------------------------------------------------------

/// The first index at or after `i` where `s` holds `c`; `s.len()` if there is none.
pub open spec fn index_from(s: Seq<char>, c: char, i: int) -> int
    decreases s.len() - i,
{
    if i >= s.len() {
        s.len() as int
    } else if s[i] == c {
        i
    } else {
        index_from(s, c, i + 1)
    }
}

pub proof fn lemma_index_from(s: Seq<char>, c: char, i: int)
    requires
        0 <= i <= s.len(),
    ensures
        i <= index_from(s, c, i) <= s.len(),
        index_from(s, c, i) < s.len() ==> s[index_from(s, c, i)] == c,
        forall|j: int| i <= j < index_from(s, c, i) ==> s[j] != c,
    decreases s.len() - i,
{
    if i < s.len() && s[i] != c {
        lemma_index_from(s, c, i + 1);
    }
}

pub fn index_of(s: &[char], c: char, from: usize) -> (r: usize)
    requires
        from <= s@.len(),
    ensures
        r == index_from(s@, c, from as int),
        from <= r <= s@.len(),
        r < s@.len() ==> s@[r as int] == c,
        forall|j: int| from <= j < r ==> s@[j] != c,
{
    let mut i: usize = from;
    while i < s.len() && s[i] != c
        invariant
            from <= i <= s.len(),
            index_from(s@, c, i as int) == index_from(s@, c, from as int),
        decreases s.len() - i,
    {
        i += 1;
    }
    proof {
        lemma_index_from(s@, c, from as int);
    }
    i
}

/// Whether `s` begins with `p`.
pub open spec fn starts_with(s: Seq<char>, p: Seq<char>) -> bool {
    p.len() <= s.len() && s.take(p.len() as int) == p
}

/// Whether `s` ends with `p`.
pub open spec fn ends_with(s: Seq<char>, p: Seq<char>) -> bool {
    p.len() <= s.len() && s.skip(s.len() - p.len()) == p
}

pub fn has_prefix(s: &[char], p: &[char]) -> (r: bool)
    ensures
        r == starts_with(s@, p@),
{
    if p.len() > s.len() {
        return false;
    }
    let head = part(s, 0, p.len());
    assert(head@ =~= s@.take(p@.len() as int));
    same(head, p)
}

pub fn has_suffix(s: &[char], p: &[char]) -> (r: bool)
    ensures
        r == ends_with(s@, p@),
{
    if p.len() > s.len() {
        return false;
    }
    let tail = part(s, s.len() - p.len(), s.len());
    assert(tail@ =~= s@.skip(s@.len() - p@.len()));
    same(tail, p)
}

/// The first index at or after `i` where `pat` occurs in `s`; -1 if there is none.
pub open spec fn find_from(s: Seq<char>, pat: Seq<char>, i: int) -> int
    decreases s.len() - i + 1,
{
    if i + pat.len() > s.len() {
        -1
    } else if s.subrange(i, i + pat.len()) == pat {
        i
    } else {
        find_from(s, pat, i + 1)
    }
}

/// Whether `pat` occurs in `s`.
pub open spec fn contains(s: Seq<char>, pat: Seq<char>) -> bool {
    find_from(s, pat, 0) >= 0
}

pub proof fn lemma_find_from(s: Seq<char>, pat: Seq<char>, i: int)
    requires
        0 <= i,
    ensures
        find_from(s, pat, i) >= 0 ==> {
            &&& i <= find_from(s, pat, i)
            &&& find_from(s, pat, i) + pat.len() <= s.len()
            &&& s.subrange(find_from(s, pat, i), find_from(s, pat, i) + pat.len()) == pat
        },
        find_from(s, pat, i) >= -1,
    decreases s.len() - i + 1,
{
    if i + pat.len() <= s.len() && s.subrange(i, i + pat.len()) != pat {
        lemma_find_from(s, pat, i + 1);
    }
}

pub fn find(s: &[char], pat: &[char], from: usize) -> (r: Option<usize>)
    requires
        from <= s@.len(),
    ensures
        match r {
            Some(i) => i == find_from(s@, pat@, from as int) && from <= i && i + pat@.len()
                <= s@.len(),
            None => find_from(s@, pat@, from as int) < 0,
        },
{
    let mut i: usize = from;
    while pat.len() <= s.len() - i
        invariant
            from <= i <= s.len(),
            find_from(s@, pat@, i as int) == find_from(s@, pat@, from as int),
        decreases s.len() - i,
    {
        if same(part(s, i, i + pat.len()), pat) {
            return Some(i);
        }
        assert(pat@.len() == 0 ==> s@.subrange(i as int, i as int) =~= pat@);
        i += 1;
    }
    None
}

pub fn has(s: &[char], lit: &str) -> (r: bool)
    ensures
        r == contains(s@, lit@),
{
    let l = chars_of(lit);
    proof {
        lemma_find_from(s@, lit@, 0);
    }
    find(s, l.as_slice(), 0).is_some()
}

/// `s` with every occurrence of `pat` (taken from the left, not overlapping)
/// replaced by `with`.
pub open spec fn replaced(s: Seq<char>, pat: Seq<char>, with: Seq<char>) -> Seq<char>
    decreases s.len(),
{
    let i = find_from(s, pat, 0);
    if pat.len() == 0 || i < 0 || i + pat.len() > s.len() {
        s
    } else {
        s.take(i) + with + replaced(s.skip(i + pat.len()), pat, with)
    }
}

pub fn replace(s: &[char], pat: &[char], with: &[char]) -> (r: Vec<char>)
    requires
        pat@.len() > 0,
    ensures
        r@ == replaced(s@, pat@, with@),
{
    let mut out: Vec<char> = Vec::new();
    let mut at: usize = 0;
    assert(s@.skip(0) =~= s@);
    loop
        invariant_except_break
            at <= s@.len(),
            pat@.len() > 0,
            out@ + replaced(s@.skip(at as int), pat@, with@) == replaced(s@, pat@, with@),
        ensures
            out@ == replaced(s@, pat@, with@),
        decreases s@.len() - at,
    {
        let rest = part(s, at, s.len());
        assert(rest@ =~= s@.skip(at as int));
        match find(rest, pat, 0) {
            None => {
                push_all(&mut out, rest);
                break;
            },
            Some(i) => {
                let ghost before = out@;
                push_all(&mut out, part(rest, 0, i));
                push_all(&mut out, with);
                assert(s@.skip(at as int).skip(i + pat@.len()) =~= s@.skip(
                    at + i + pat@.len(),
                ));
                assert(out@ + replaced(s@.skip(at + i + pat@.len()), pat@, with@) =~= before + (
                rest@.take(i as int) + with@ + replaced(
                    s@.skip(at + i + pat@.len()),
                    pat@,
                    with@,
                )));
                at = at + i + pat.len();
            },
        }
    }
    out
}

// ---------------------------------------------------------------------------
// Splitting and joining
// ---------------------------------------------------------------------------

/// The pieces of `s` between occurrences of `c`: always one more than there
/// are occurrences.
pub open spec fn split_on(s: Seq<char>, c: char) -> Seq<Seq<char>>
    decreases s.len(),
{
    let i = index_from(s, c, 0);
    if i < 0 || i >= s.len() {
        seq![s]
    } else {
        seq![s.take(i)] + split_on(s.skip(i + 1), c)
    }
}

pub fn split(s: &[char], c: char) -> (r: Vec<Vec<char>>)
    ensures
        views(r@) == split_on(s@, c),
{
    let mut out: Vec<Vec<char>> = Vec::new();
    let mut at: usize = 0;
    assert(s@.skip(0) =~= s@);
    assert(views(out@) + split_on(s@, c) =~= split_on(s@, c));
    loop
        invariant_except_break
            at <= s@.len(),
            views(out@) + split_on(s@.skip(at as int), c) == split_on(s@, c),
        ensures
            views(out@) == split_on(s@, c),
        decreases s@.len() - at,
    {
        let rest = part(s, at, s.len());
        assert(rest@ =~= s@.skip(at as int));
        let i = index_of(rest, c, 0);
        let ghost before = views(out@);
        out.push(copy_of(part(rest, 0, i)));
        assert(views(out@) =~= before.push(rest@.subrange(0, i as int)));
        if i == rest.len() {
            assert(rest@.subrange(0, i as int) =~= rest@);
            assert(views(out@) =~= before + seq![rest@]);
            break;
        }
        assert(s@.skip(at as int).skip(i + 1) =~= s@.skip(at + i + 1));
        assert(views(out@) + split_on(s@.skip(at + i + 1), c) =~= before + (seq![
            rest@.take(i as int),
        ] + split_on(s@.skip(at + i + 1), c)));
        at = at + i + 1;
    }
    out
}

/// One line without its line ending (a line feed, or a carriage return and a
/// line feed); the line feed itself is already cut off.
pub open spec fn strip_cr(s: Seq<char>) -> Seq<char> {
    if s.len() > 0 && s.last() == '\r' {
        s.drop_last()
    } else {
        s
    }
}

/// The lines of a text. The ending of the last line is optional.
pub open spec fn lines(s: Seq<char>) -> Seq<Seq<char>>
    decreases s.len(),
{
    let i = index_from(s, '\n', 0);
    if s.len() == 0 {
        Seq::empty()
    } else if i < 0 || i >= s.len() {
        seq![s]
    } else {
        seq![strip_cr(s.take(i))] + lines(s.skip(i + 1))
    }
}

pub fn lines_of(s: &[char]) -> (r: Vec<Vec<char>>)
    ensures
        views(r@) == lines(s@),
{
    let mut out: Vec<Vec<char>> = Vec::new();
    let mut at: usize = 0;
    assert(s@.skip(0) =~= s@);
    assert(views(out@) + lines(s@) =~= lines(s@));
    while at < s.len()
        invariant
            at <= s@.len(),
            views(out@) + lines(s@.skip(at as int)) == lines(s@),
        decreases s@.len() - at,
    {
        let rest = part(s, at, s.len());
        assert(rest@ =~= s@.skip(at as int));
        let i = index_of(rest, '\n', 0);
        let ghost before = views(out@);
        if i == rest.len() {
            out.push(copy_of(rest));
            assert(views(out@) =~= before + seq![rest@]);
            at = s.len();
            assert(s@.skip(at as int) =~= Seq::<char>::empty());
            assert(views(out@) + lines(s@.skip(at as int)) =~= views(out@));
        } else {
            let end: usize = if i > 0 && rest[i - 1] == '\r' {
                i - 1
            } else {
                i
            };
            out.push(copy_of(part(rest, 0, end)));
            assert(rest@.subrange(0, end as int) =~= strip_cr(rest@.take(i as int)));
            assert(views(out@) =~= before.push(rest@.subrange(0, end as int)));
            assert(s@.skip(at as int).skip(i + 1) =~= s@.skip(at + i + 1));
            assert(views(out@) + lines(s@.skip(at + i + 1)) =~= before + (seq![
                strip_cr(rest@.take(i as int)),
            ] + lines(s@.skip(at + i + 1))));
            at = at + i + 1;
        }
    }
    assert(s@.skip(at as int) =~= Seq::<char>::empty());
    assert(views(out@) + lines(s@.skip(at as int)) =~= views(out@));
    out
}

/// The pieces one after the other, with `sep` between neighbours.
pub open spec fn joined(pieces: Seq<Seq<char>>, sep: Seq<char>) -> Seq<char>
    decreases pieces.len(),
{
    if pieces.len() == 0 {
        Seq::empty()
    } else if pieces.len() == 1 {
        pieces[0]
    } else {
        joined(pieces.drop_last(), sep) + sep + pieces.last()
    }
}

pub fn join_all(pieces: &[Vec<char>], sep: &[char]) -> (r: Vec<char>)
    ensures
        r@ == joined(views(pieces@), sep@),
{
    let mut out: Vec<char> = Vec::new();
    let mut i: usize = 0;
    while i < pieces.len()
        invariant
            i <= pieces.len(),
            out@ == joined(views(pieces@).take(i as int), sep@),
        decreases pieces.len() - i,
    {
        let ghost before = out@;
        if i > 0 {
            push_all(&mut out, sep);
        }
        push_all(&mut out, pieces[i].as_slice());
        let ghost next = views(pieces@).take(i + 1);
        assert(next.drop_last() =~= views(pieces@).take(i as int));
        assert(next.last() == pieces@[i as int]@);
        if i == 0 {
            assert(out@ =~= pieces@[i as int]@);
        }
        i += 1;
    }
    assert(views(pieces@).take(i as int) =~= views(pieces@));
    out
}

// ---------------------------------------------------------------------------
// Trimming
// ---------------------------------------------------------------------------

/// Unicode white space.
pub open spec fn is_white(c: char) -> bool {
    ||| '\u{9}' <= c <= '\u{d}'
    ||| c == ' '
    ||| c == '\u{85}'
    ||| c == '\u{a0}'
    ||| c == '\u{1680}'
    ||| '\u{2000}' <= c <= '\u{200a}'
    ||| c == '\u{2028}'
    ||| c == '\u{2029}'
    ||| c == '\u{202f}'
    ||| c == '\u{205f}'
    ||| c == '\u{3000}'
}

pub fn white(c: char) -> (r: bool)
    ensures
        r == is_white(c),
{
    ('\u{9}' <= c && c <= '\u{d}') || c == ' ' || c == '\u{85}' || c == '\u{a0}' || c == '\u{1680}'
        || ('\u{2000}' <= c && c <= '\u{200a}') || c == '\u{2028}' || c == '\u{2029}' || c
        == '\u{202f}' || c == '\u{205f}' || c == '\u{3000}'
}

/// `s` without the white space at its start.
pub open spec fn trim_start(s: Seq<char>) -> Seq<char>
    decreases s.len(),
{
    if s.len() > 0 && is_white(s[0]) {
        trim_start(s.skip(1))
    } else {
        s
    }
}

/// `s` without the white space at its end.
pub open spec fn trim_end(s: Seq<char>) -> Seq<char>
    decreases s.len(),
{
    if s.len() > 0 && is_white(s.last()) {
        trim_end(s.drop_last())
    } else {
        s
    }
}

/// `s` without the white space at either end.
pub open spec fn trim(s: Seq<char>) -> Seq<char> {
    trim_end(trim_start(s))
}

pub fn trimmed_start(s: &[char]) -> (r: &[char])
    ensures
        r@ == trim_start(s@),
{
    let mut i: usize = 0;
    assert(s@.skip(0) =~= s@);
    while i < s.len() && white(s[i])
        invariant
            i <= s.len(),
            trim_start(s@.skip(i as int)) == trim_start(s@),
        decreases s.len() - i,
    {
        assert(s@.skip(i as int).skip(1) =~= s@.skip(i + 1));
        i += 1;
    }
    let r = part(s, i, s.len());
    assert(r@ =~= s@.skip(i as int));
    r
}

pub fn trimmed_end(s: &[char]) -> (r: &[char])
    ensures
        r@ == trim_end(s@),
{
    let mut n: usize = s.len();
    assert(s@.take(n as int) =~= s@);
    while n > 0 && white(s[n - 1])
        invariant
            n <= s.len(),
            trim_end(s@.take(n as int)) == trim_end(s@),
        decreases n,
    {
        assert(s@.take(n as int).drop_last() =~= s@.take(n - 1));
        n -= 1;
    }
    let r = part(s, 0, n);
    assert(r@ =~= s@.take(n as int));
    r
}

pub fn trimmed(s: &[char]) -> (r: &[char])
    ensures
        r@ == trim(s@),
{
    trimmed_end(trimmed_start(s))
}

// ---------------------------------------------------------------------------
// Numbers
// ---------------------------------------------------------------------------

/// The digit with value `d`, in lower case.
pub open spec fn digit(d: int) -> char {
    if d < 10 {
        (d + 48) as char
    } else {
        (d + 87) as char
    }
}

/// A number in decimal, without leading zeros.
pub open spec fn decimal(n: nat) -> Seq<char>
    decreases n,
{
    if n < 10 {
        seq![digit(n as int)]
    } else {
        decimal(n / 10).push(digit((n % 10) as int))
    }
}

pub fn digit_char(d: u8) -> (r: char)
    requires
        d < 16,
    ensures
        r == digit(d as int),
{
    if d < 10 {
        (d + 48) as char
    } else {
        (d + 87) as char
    }
}

pub fn decimal_of(n: u64) -> (r: String)
    ensures
        r@ == decimal(n as nat),
    decreases n,
{
    if n < 10 {
        let mut s = String::new();
        s.push(digit_char(n as u8));
        assert(s@ =~= seq![digit(n as int)]);
        s
    } else {
        let mut s = decimal_of(n / 10);
        s.push(digit_char((n % 10) as u8));
        s
    }
}

/// The value of a digit below `radix` (at most 16), in either case.
pub open spec fn digit_value(c: char, radix: int) -> Option<int> {
    let v = if '0' <= c <= '9' {
        c as int - 48
    } else if 'a' <= c <= 'f' {
        c as int - 87
    } else if 'A' <= c <= 'F' {
        c as int - 55
    } else {
        99
    };
    if v < radix {
        Some(v)
    } else {
        None
    }
}

/// The number that a run of digits spells; none if there is anything else, or
/// nothing at all.
pub open spec fn digits_value(s: Seq<char>, radix: int) -> Option<int>
    decreases s.len(),
{
    if s.len() == 0 {
        None
    } else {
        match digit_value(s.last(), radix) {
            None => None,
            Some(d) => if s.len() == 1 {
                Some(d)
            } else {
                match digits_value(s.drop_last(), radix) {
                    None => None,
                    Some(v) => Some(v * radix + d),
                }
            },
        }
    }
}

/// The number that `s` spells: digits after an optional `+`, or, where
/// `minus` allows it, a `-`.
pub open spec fn number(s: Seq<char>, radix: int, minus: bool) -> Option<int> {
    if s.len() > 0 && s[0] == '+' {
        digits_value(s.skip(1), radix)
    } else if minus && s.len() > 0 && s[0] == '-' {
        match digits_value(s.skip(1), radix) {
            None => None,
            Some(v) => Some(-v),
        }
    } else {
        digits_value(s, radix)
    }
}

/// `number`, where it lies between `lo` and `hi`.
pub open spec fn number_in(s: Seq<char>, radix: int, minus: bool, lo: int, hi: int) -> Option<int> {
    match number(s, radix, minus) {
        Some(v) if lo <= v <= hi => Some(v),
        _ => None,
    }
}

fn digit_val(c: char, radix: i128) -> (r: Option<i128>)
    requires
        radix == 10 || radix == 16,
    ensures
        match r {
            Some(v) => digit_value(c, radix as int) == Some(v as int) && 0 <= v < radix,
            None => digit_value(c, radix as int) is None,
        },
{
    let v: i128 = if '0' <= c && c <= '9' {
        c as i128 - 48
    } else if 'a' <= c && c <= 'f' {
        c as i128 - 87
    } else if 'A' <= c && c <= 'F' {
        c as i128 - 55
    } else {
        99
    };
    if v < radix {
        Some(v)
    } else {
        None
    }
}

proof fn lemma_digits_prefix(s: Seq<char>, radix: int, n: int)
    requires
        0 < n <= s.len(),
        radix == 10 || radix == 16,
    ensures
        digits_value(s, radix) is Some ==> digits_value(s.take(n), radix) is Some && 0
            <= digits_value(s.take(n), radix)->0 <= digits_value(s, radix)->0,
        digits_value(s.take(n), radix) is Some ==> digits_value(s.take(n), radix)->0 >= 0,
    decreases s.len(),
{
    if n < s.len() {
        assert(s.drop_last().take(n) =~= s.take(n));
        lemma_digits_prefix(s.drop_last(), radix, n);
    } else {
        assert(s.take(n) =~= s);
        if s.len() > 1 {
            lemma_digits_prefix(s.drop_last(), radix, n - 1);
        }
    }
}

/// The digits of `s`, where they spell a number of at most `hi`.
fn digits_upto(s: &[char], radix: i128, hi: i128) -> (r: Option<i128>)
    requires
        radix == 10 || radix == 16,
        0 <= hi <= 0x1_0000_0000_0000_0000,
    ensures
        match r {
            Some(v) => digits_value(s@, radix as int) == Some(v as int) && 0 <= v <= hi,
            None => digits_value(s@, radix as int) is None || digits_value(s@, radix as int)->0
                > hi,
        },
{
    if s.len() == 0 {
        return None;
    }
    let mut acc: i128 = 0;
    let mut i: usize = 0;
    while i < s.len()
        invariant
            i <= s.len(),
            s.len() > 0,
            radix == 10 || radix == 16,
            0 <= hi <= 0x1_0000_0000_0000_0000,
            0 <= acc <= hi,
            i == 0 ==> acc == 0,
            i > 0 ==> digits_value(s@.take(i as int), radix as int) == Some(acc as int),
        decreases s.len() - i,
    {
        let ghost next = s@.take(i + 1);
        assert(next.drop_last() =~= s@.take(i as int));
        assert(next.last() == s@[i as int]);
        proof {
            lemma_digits_prefix(s@, radix as int, i + 1);
        }
        match digit_val(s[i], radix) {
            None => {
                return None;
            },
            Some(d) => {
                acc = acc * radix + d;
                if acc > hi {
                    return None;
                }
            },
        }
        i += 1;
    }
    assert(s@.take(i as int) =~= s@);
    Some(acc)
}

/// Reads a number that lies between `lo` and `hi`.
pub fn parse_number(s: &[char], radix: i128, minus: bool, lo: i128, hi: i128) -> (r: Option<i128>)
    requires
        radix == 10 || radix == 16,
        -0x1_0000_0000_0000_0000 <= lo <= 0,
        0 <= hi <= 0x1_0000_0000_0000_0000,
    ensures
        match r {
            Some(v) => number_in(s@, radix as int, minus, lo as int, hi as int) == Some(v as int)
                && lo <= v <= hi,
            None => number_in(s@, radix as int, minus, lo as int, hi as int) is None,
        },
{
    if s.len() > 0 && (s[0] == '+' || (minus && s[0] == '-')) {
        let rest = part(s, 1, s.len());
        assert(rest@ =~= s@.skip(1));
        proof {
            if rest@.len() > 0 {
                lemma_digits_prefix(rest@, radix as int, rest@.len() as int);
                assert(rest@.take(rest@.len() as int) =~= rest@);
            }
        }
        if s[0] == '+' {
            digits_upto(rest, radix, hi)
        } else {
            match digits_upto(rest, radix, 0 - lo) {
                None => None,
                Some(v) => Some(0 - v),
            }
        }
    } else {
        proof {
            if s@.len() > 0 {
                lemma_digits_prefix(s@, radix as int, s@.len() as int);
                assert(s@.take(s@.len() as int) =~= s@);
            }
        }
        digits_upto(s, radix, hi)
    }
}

} // verus!
