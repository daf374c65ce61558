//! What searching, splitting, trimming and reading numbers do to texts.

use crate::names::{
    diverge, lemma_precedes_irreflexive, lemma_precedes_total, lemma_precedes_transitive, precedes,
};
use crate::text::{
    contains, decimal, digit, digit_value, digits_value, ends_with, find_from, index_from,
    is_white, joined, lemma_index_from, lines, number, number_in, replaced, split_on, starts_with,
    strip_cr, trim, trim_end, trim_start,
};
use vstd::prelude::*;

verus! {

/// The word stands in the text at index `i`.
pub open spec fn stands_at(s: Seq<char>, word: Seq<char>, i: int) -> bool {
    0 <= i && i + word.len() <= s.len() && forall|k: int|
        0 <= k < word.len() ==> #[trigger] s[i + k] == word[k]
}

proof fn lemma_stands_at(s: Seq<char>, word: Seq<char>, i: int)
    requires
        0 <= i,
        i + word.len() <= s.len(),
    ensures
        stands_at(s, word, i) <==> s.subrange(i, i + word.len()) == word,
{
    let part = s.subrange(i, i + word.len());
    if part == word {
        assert forall|k: int| 0 <= k < word.len() implies #[trigger] s[i + k] == word[k] by {
            assert(part[k] == word[k]);
        }
    }
    if stands_at(s, word, i) {
        assert forall|k: int| 0 <= k < word.len() implies part[k] == word[k] by {
            assert(s[i + k] == word[k]);
        }
        assert(part =~= word);
    }
}

/// Searching finds the first place where a word stands; a text contains a word
/// that stands somewhere in it, and starts and ends with one that stands there.
pub proof fn law_search_finds_the_first(s: Seq<char>, word: Seq<char>)
    ensures
        contains(s, word) <==> exists|i: int| stands_at(s, word, i),
        contains(s, word) ==> stands_at(s, word, find_from(s, word, 0)),
        forall|i: int| #[trigger] stands_at(s, word, i) ==> 0 <= find_from(s, word, 0) <= i,
        starts_with(s, word) <==> stands_at(s, word, 0),
        ends_with(s, word) <==> stands_at(s, word, s.len() - word.len()),
{
    lemma_first(s, word, 0);
    assert forall|i: int| #[trigger] stands_at(s, word, i) implies 0 <= find_from(s, word, 0)
        <= i by {}
    if word.len() <= s.len() {
        lemma_stands_at(s, word, 0);
        assert(s.subrange(0, word.len() as int) =~= s.take(word.len() as int));
        lemma_stands_at(s, word, s.len() - word.len());
        assert(s.subrange(s.len() - word.len(), s.len() as int) =~= s.skip(s.len() - word.len()));
    }
}

proof fn lemma_first(s: Seq<char>, word: Seq<char>, i: int)
    requires
        0 <= i,
    ensures
        find_from(s, word, i) >= 0 ==> i <= find_from(s, word, i) && stands_at(
            s,
            word,
            find_from(s, word, i),
        ),
        forall|k: int|
            i <= k && #[trigger] stands_at(s, word, k) ==> 0 <= find_from(s, word, i) <= k,
    decreases s.len() - i + 1,
{
    if i + word.len() <= s.len() {
        lemma_stands_at(s, word, i);
        lemma_first(s, word, i + 1);
    }
}

pub proof fn lemma_joined_front(x: Seq<char>, rest: Seq<Seq<char>>, sep: Seq<char>)
    requires
        rest.len() > 0,
    ensures
        joined(seq![x] + rest, sep) == x + sep + joined(rest, sep),
    decreases rest.len(),
{
    let all = seq![x] + rest;
    if rest.len() == 1 {
        assert(all.drop_last() =~= seq![x]);
        assert(all.last() == rest[0]);
        assert(joined(all.drop_last(), sep) == x);
        assert(joined(all, sep) == x + sep + rest[0]);
    } else {
        lemma_joined_front(x, rest.drop_last(), sep);
        assert(all.drop_last() =~= seq![x] + rest.drop_last());
        assert(all.last() == rest.last());
        assert(joined(all, sep) =~= x + sep + joined(rest, sep));
    }
}

/// Splitting cuts at every separator and loses nothing else: no piece holds one,
/// and put together again the pieces are the text.
pub proof fn law_split_pieces_join_again(s: Seq<char>, c: char)
    ensures
        split_on(s, c).len() > 0,
        forall|i: int|
            0 <= i < split_on(s, c).len() ==> !(#[trigger] split_on(s, c)[i]).contains(c),
        joined(split_on(s, c), seq![c]) == s,
    decreases s.len(),
{
    lemma_index_from(s, c, 0);
    let at = index_from(s, c, 0);
    let all = split_on(s, c);
    if at < s.len() {
        let rest = split_on(s.skip(at + 1), c);
        law_split_pieces_join_again(s.skip(at + 1), c);
        lemma_joined_front(s.take(at), rest, seq![c]);
        assert(s.take(at) + seq![c] + s.skip(at + 1) =~= s);
        assert forall|i: int| 0 <= i < all.len() implies !(#[trigger] all[i]).contains(c) by {
            if i > 0 {
                assert(all[i] == rest[i - 1]);
            } else {
                assert(all[0] == s.take(at));
            }
        }
    } else {
        assert(all[0] == s);
    }
}

/// A line ends at a line feed, with the carriage return before it; what follows
/// is read on its own. The last line need not end.
pub proof fn law_lines_end_at_line_feeds(a: Seq<char>, b: Seq<char>)
    requires
        !a.contains('\n'),
    ensures
        lines(a + seq!['\n'] + b) == seq![strip_cr(a)] + lines(b),
        a.len() > 0 ==> lines(a) == seq![a],
        lines(Seq::<char>::empty()) == Seq::<Seq<char>>::empty(),
        a.len() == 0 || a.last() != '\r' ==> strip_cr(a) == a,
        strip_cr(a.push('\r')) == a,
{
    let s = a + seq!['\n'] + b;
    lemma_index_from(s, '\n', 0);
    lemma_index_from(a, '\n', 0);
    let at = index_from(s, '\n', 0);
    assert(s[a.len() as int] == '\n');
    if at < a.len() {
        assert(a[at] == '\n');
        assert(a.contains(a[at]));
    }
    assert(at == a.len());
    assert(s.take(at) =~= a);
    assert(s.skip(at + 1) =~= b);
    let in_a = index_from(a, '\n', 0);
    if in_a < a.len() {
        assert(a.contains(a[in_a]));
    }
    assert(a.push('\r').drop_last() =~= a);
}

pub proof fn lemma_trim_start(s: Seq<char>) -> (k: int)
    ensures
        0 <= k <= s.len(),
        trim_start(s) == s.skip(k),
        forall|i: int| 0 <= i < k ==> is_white(#[trigger] s[i]),
        k < s.len() ==> !is_white(s[k]),
    decreases s.len(),
{
    if s.len() > 0 && is_white(s[0]) {
        let k = lemma_trim_start(s.skip(1));
        assert(s.skip(1).skip(k) =~= s.skip(k + 1));
        assert forall|i: int| 0 <= i < k + 1 implies is_white(#[trigger] s[i]) by {
            if i > 0 {
                assert(s.skip(1)[i - 1] == s[i]);
            }
        }
        k + 1
    } else {
        assert(s.skip(0) =~= s);
        0
    }
}

pub proof fn lemma_trim_end(s: Seq<char>) -> (k: int)
    ensures
        0 <= k <= s.len(),
        trim_end(s) == s.take(k),
        forall|i: int| k <= i < s.len() ==> is_white(#[trigger] s[i]),
        k > 0 ==> !is_white(s[k - 1]),
    decreases s.len(),
{
    if s.len() > 0 && is_white(s.last()) {
        let k = lemma_trim_end(s.drop_last());
        assert(s.drop_last().take(k) =~= s.take(k));
        assert forall|i: int| k <= i < s.len() implies is_white(#[trigger] s[i]) by {
            if i < s.len() - 1 {
                assert(s.drop_last()[i] == s[i]);
            }
        }
        k
    } else {
        assert(s.take(s.len() as int) =~= s);
        s.len() as int
    }
}

/// Trimming takes white space away, as much as there is at that end, and nothing
/// else.
pub proof fn law_trimming_takes_white_space_only(s: Seq<char>)
    ensures
        exists|k: int|
            0 <= k <= s.len() && trim_start(s) == #[trigger] s.skip(k) && (forall|i: int|
                0 <= i < k ==> is_white(#[trigger] s[i])) && (k < s.len() ==> !is_white(s[k])),
        exists|k: int|
            0 <= k <= s.len() && trim_end(s) == #[trigger] s.take(k) && (forall|i: int|
                k <= i < s.len() ==> is_white(#[trigger] s[i])) && (k > 0 ==> !is_white(s[k - 1])),
        trim(s) == trim_end(trim_start(s)),
        trim(s).len() > 0 ==> !is_white(trim(s)[0]) && !is_white(trim(s).last()),
        (forall|i: int| 0 <= i < s.len() ==> !is_white(#[trigger] s[i])) ==> trim(s) == s,
{
    let a = lemma_trim_start(s);
    let b = lemma_trim_end(s);
    assert(trim_start(s) == s.skip(a));
    assert(trim_end(s) == s.take(b));
    let c = lemma_trim_end(s.skip(a));
    if forall|i: int| 0 <= i < s.len() ==> !is_white(#[trigger] s[i]) {
        if a > 0 {
            assert(is_white(s[0]));
        }
        assert(s.skip(0) =~= s);
        if c < s.len() {
            assert(is_white(s.skip(a)[c]));
        }
        assert(s.take(s.len() as int) =~= s);
    }
}

/// A number that is written down is read back: in decimal, with a sign or
/// without, where a sign is allowed.
pub proof fn law_decimals_read_back(n: nat, minus: bool, lo: int, hi: int)
    ensures
        decimal(n).len() > 0,
        forall|i: int| 0 <= i < decimal(n).len() ==> '0' <= #[trigger] decimal(n)[i] <= '9',
        n > 0 ==> decimal(n)[0] != '0',
        number(decimal(n), 10, minus) == Some(n as int),
        number(seq!['+'] + decimal(n), 10, minus) == Some(n as int),
        number(seq!['-'] + decimal(n), 10, true) == Some(-(n as int)),
        number(seq!['-'] + decimal(n), 10, false) is None,
        number_in(decimal(n), 10, minus, lo, hi) == (if lo <= n <= hi {
            Some(n as int)
        } else {
            None::<int>
        }),
{
    lemma_decimal(n);
    let d = decimal(n);
    assert((seq!['+'] + d).skip(1) =~= d);
    assert((seq!['-'] + d).skip(1) =~= d);
    let m = seq!['-'] + d;
    lemma_bad_digit(m, 10, 0);
}

pub proof fn lemma_decimal(n: nat)
    ensures
        decimal(n).len() > 0,
        forall|i: int| 0 <= i < decimal(n).len() ==> '0' <= #[trigger] decimal(n)[i] <= '9',
        n > 0 ==> decimal(n)[0] != '0',
        digits_value(decimal(n), 10) == Some(n as int),
    decreases n,
{
    let c = digit((n % 10) as int);
    assert('0' <= c <= '9');
    assert(digit_value(c, 10) == Some((n % 10) as int));
    if n >= 10 {
        lemma_decimal(n / 10);
        assert(decimal(n).drop_last() =~= decimal(n / 10));
        assert(decimal(n).last() == c);
        assert(decimal(n)[0] == decimal(n / 10)[0]);
    }
}

proof fn lemma_bad_digit(s: Seq<char>, radix: int, i: int)
    requires
        0 <= i < s.len(),
        digit_value(s[i], radix) is None,
    ensures
        digits_value(s, radix) is None,
    decreases s.len(),
{
    if i < s.len() - 1 {
        lemma_bad_digit(s.drop_last(), radix, i);
    }
}

/// A number is read digit by digit, each worth the radix times the next. Nothing
/// is read where a character is no digit, or where there is none.
pub proof fn law_digits_have_their_places(s: Seq<char>, c: char, radix: int, i: int)
    ensures
        digits_value(Seq::<char>::empty(), radix) is None,
        digits_value(seq![c], radix) == digit_value(c, radix),
        s.len() > 0 ==> digits_value(s.push(c), radix) == (match (
            digits_value(s, radix),
            digit_value(c, radix),
        ) {
            (Some(v), Some(d)) => Some(v * radix + d),
            _ => None::<int>,
        }),
        0 <= i < s.len() && digit_value(s[i], radix) is None ==> digits_value(s, radix) is None,
{
    assert(s.push(c).drop_last() =~= s);
    if 0 <= i < s.len() && digit_value(s[i], radix) is None {
        lemma_bad_digit(s, radix, i);
    }
}

/// The digits: ten figures, and six letters, large or small, where the radix goes
/// that far.
pub proof fn law_digits_are_figures_and_letters(d: int, c: char)
    ensures
        0 <= d < 16 ==> digit_value(digit(d), 16) == Some(d),
        0 <= d < 10 ==> digit_value(digit(d), 10) == Some(d),
        10 <= d < 16 ==> digit_value((d + 55) as char, 16) == Some(d) && digit_value(
            digit(d),
            10,
        ) is None,
        digit(0) == '0' && digit(9) == '9' && digit(10) == 'a' && digit(15) == 'f',
        digit_value(c, 16) is Some <==> '0' <= c <= '9' || 'a' <= c <= 'f' || 'A' <= c <= 'F',
        digit_value(c, 10) is Some <==> '0' <= c <= '9',
{
}

/// Replacing one character by another changes exactly those characters.
pub proof fn law_replacing_characters(s: Seq<char>, a: char, b: char)
    ensures
        replaced(s, seq![a], seq![b]) == Seq::new(
            s.len(),
            |i: int|
                if s[i] == a {
                    b
                } else {
                    s[i]
                },
        ),
    decreases s.len(),
{
    let word = seq![a];
    let want = Seq::new(
        s.len(),
        |i: int|
            if s[i] == a {
                b
            } else {
                s[i]
            },
    );
    lemma_first(s, word, 0);
    let at = find_from(s, word, 0);
    assert forall|k: int| 0 <= k < s.len() && s[k] == a implies stands_at(s, word, k) by {}
    if at >= 0 {
        assert(s[at + 0] == word[0]);
        let rest = s.skip(at + 1);
        law_replacing_characters(rest, a, b);
        assert(replaced(s, word, seq![b]) =~= want) by {
            assert forall|i: int| 0 <= i < s.len() implies replaced(s, word, seq![b])[i]
                == want[i] by {
                if i < at {
                    assert(s[i] != a);
                } else if i > at {
                    assert(rest[i - at - 1] == s[i]);
                }
            }
        }
    } else {
        assert(replaced(s, word, seq![b]) =~= want);
    }
}

/// Replacing a word goes from the front: what comes before its first occurrence
/// stays, the occurrence is replaced, and what follows is treated likewise. A
/// text without the word stays as it is.
pub proof fn law_replacing_words(a: Seq<char>, b: Seq<char>, word: Seq<char>, with: Seq<char>)
    requires
        word.len() > 0,
    ensures
        !contains(a, word) ==> replaced(a, word, with) == a,
        (forall|i: int| 0 <= i < a.len() ==> !#[trigger] stands_at(a + word + b, word, i))
            ==> replaced(a + word + b, word, with) == a + with + replaced(b, word, with),
{
    let s = a + word + b;
    lemma_first(s, word, 0);
    assert(stands_at(s, word, a.len() as int));
    if forall|i: int| 0 <= i < a.len() ==> !#[trigger] stands_at(s, word, i) {
        let at = find_from(s, word, 0);
        assert(at == a.len());
        assert(s.take(at) =~= a);
        assert(s.skip(at + word.len()) =~= b);
    }
}

/// Names are ordered by their first difference, or the shorter comes first where
/// there is none; two names that differ come one before the other, never both.
pub proof fn law_names_are_ordered(a: Seq<char>, b: Seq<char>, c: Seq<char>, x: char, y: char)
    ensures
        b.len() > 0 ==> precedes(a, a + b),
        x < y ==> precedes(a + seq![x] + b, a + seq![y] + c),
        a != b ==> precedes(a, b) || precedes(b, a),
        !(precedes(a, b) && precedes(b, a)),
        precedes(a, b) && precedes(b, c) ==> precedes(a, c),
{
    if b.len() > 0 {
        assert(diverge(a, a + b, a.len() as int));
    }
    if x < y {
        let p = a + seq![x] + b;
        let q = a + seq![y] + c;
        assert(diverge(p, q, a.len() as int));
    }
    lemma_precedes_total(a, b, 0);
    if precedes(a, b) && precedes(b, a) {
        lemma_precedes_transitive(a, b, a);
        lemma_precedes_irreflexive(a);
    }
    if precedes(a, b) && precedes(b, c) {
        lemma_precedes_transitive(a, b, c);
    }
}

} // verus!
