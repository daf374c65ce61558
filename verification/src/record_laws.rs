//! What is recorded in process, and what is read back from a trace file.

use crate::bundle::{is_blank, line_error, numbered, trace_of_lines};
use crate::error::ErrorView;
use crate::hex::{byte_of, bytes_of, bytes_upto, hex_digit};
use crate::paths::joined_path;
use crate::record::{names_upto, next_offset, stays_below, PartView, RecFileView};
use crate::text::{digit_value, digits_value, is_white};
use crate::text_laws::{lemma_trim_end, lemma_trim_start};
use crate::trace::{tree_upto, EntryView, Found, Op, TraceView, TreeView, What};
use vstd::prelude::*;
use vstd::utf8::encode_utf8;

verus! {

/// Writes through one handle follow one another, whether it appends or not: the
/// next one goes where the last one ended. A handle that appends writes behind the
/// file, wherever its position is.
pub proof fn law_writes_through_a_handle_follow(f: RecFileView, n: u64)
    requires
        next_offset(f) + n <= u64::MAX,
    ensures
        ({
            let end = (next_offset(f) + n) as u64;
            let after = RecFileView {
                pos: end,
                len: if f.len < end {
                    end
                } else {
                    f.len
                },
                ..f
            };
            next_offset(after) == end
        }),
        f.append ==> next_offset(f) == f.len,
        !f.append ==> next_offset(f) == f.pos,
{
}

/// The names of a path are its names in order; dots count for nothing.
pub proof fn law_names_of_a_path(a: Seq<PartView>, s: Seq<char>)
    ensures
        names_upto(a.push(PartView::Normal(s)), a.len() as int + 1) == names_upto(
            a,
            a.len() as int,
        ).push(s),
        names_upto(a.push(PartView::CurDir), a.len() as int + 1) == names_upto(a, a.len() as int),
        names_upto(Seq::<PartView>::empty(), 0) == Seq::<Seq<char>>::empty(),
        stays_below(a.push(PartView::Normal(s))) <==> stays_below(a),
        stays_below(a.push(PartView::CurDir)) <==> stays_below(a),
        !stays_below(a.push(PartView::Other)),
{
    lemma_names_front(a, PartView::Normal(s), a.len() as int);
    lemma_names_front(a, PartView::CurDir, a.len() as int);
    let x = a.push(PartView::Normal(s));
    let y = a.push(PartView::CurDir);
    assert(forall|i: int| 0 <= i < a.len() ==> #[trigger] a[i] == x[i]);
    assert(forall|i: int| 0 <= i < a.len() ==> #[trigger] a[i] == y[i]);
    assert(a.push(PartView::Other)[a.len() as int] is Other);
}

proof fn lemma_names_front(a: Seq<PartView>, x: PartView, n: int)
    requires
        0 <= n <= a.len(),
    ensures
        names_upto(a.push(x), n) == names_upto(a, n),
    decreases n,
{
    if n > 0 {
        lemma_names_front(a, x, n - 1);
    }
}

/// The lines of a trace file that hold something are numbered from one, in order
/// and with their text; those that hold nothing but white space are left out.
pub proof fn law_lines_keep_their_numbers(all: Seq<Seq<char>>, n: int)
    requires
        0 <= n <= all.len() <= usize::MAX,
    ensures
        ({
            let v = numbered(all, n);
            &&& forall|a: int, b: int|
                0 <= a < b < v.len() ==> (#[trigger] v[a]).0 < (#[trigger] v[b]).0
            &&& forall|a: int|
                0 <= a < v.len() ==> {
                    &&& 1 <= (#[trigger] v[a]).0 <= n
                    &&& v[a].1 == all[v[a].0 - 1]
                    &&& !only_white(v[a].1)
                }
            &&& forall|i: int|
                0 <= i < n && !only_white(#[trigger] all[i]) ==> v.contains(
                    ((i + 1) as usize, all[i]),
                )
        }),
    decreases n,
{
    if n > 0 {
        law_lines_keep_their_numbers(all, n - 1);
        lemma_blank(all[n - 1]);
        let before = numbered(all, n - 1);
        let v = numbered(all, n);
        assert forall|i: int| 0 <= i < n && !only_white(#[trigger] all[i]) implies v.contains(
            ((i + 1) as usize, all[i]),
        ) by {
            let x = ((i + 1) as usize, all[i]);
            if i < n - 1 {
                assert(before.contains(x));
                let a = choose|a: int| 0 <= a < before.len() && before[a] == x;
                assert(v[a] == x);
            } else {
                assert(v[before.len() as int] == x);
            }
        }
        assert forall|a: int, b: int| 0 <= a < b < v.len() implies (#[trigger] v[a]).0 < (
        #[trigger] v[b]).0 by {
            assert(v[a] == before[a]);
            if b < before.len() {
                assert(v[b] == before[b]);
            }
        }
    }
}

/// Nothing but white space.
pub open spec fn only_white(s: Seq<char>) -> bool {
    forall|i: int| 0 <= i < s.len() ==> is_white(#[trigger] s[i])
}

proof fn lemma_blank(s: Seq<char>)
    ensures
        is_blank(s) <==> only_white(s),
{
    let a = lemma_trim_start(s);
    let b = lemma_trim_end(s.skip(a));
    if is_blank(s) {
        assert forall|i: int| 0 <= i < s.len() implies is_white(#[trigger] s[i]) by {
            if i >= a {
                assert(is_white(s.skip(a)[i - a]));
            }
        }
    }
    if only_white(s) && a < s.len() {
        assert(is_white(s[a]));
    }
}

/// A trace is read line by line: it has the op of each line, in order. The first
/// line that cannot be read is told, with its number, and nothing is read then.
pub proof fn law_traces_are_read_line_by_line(
    initial: TreeView,
    parsed: Seq<(usize, Result<Op, String>)>,
    n: int,
    i: int,
)
    requires
        0 <= i < n <= parsed.len(),
    ensures
        ({
            let r = trace_of_lines(initial, parsed, n);
            let fine = forall|k: int| 0 <= k < n ==> (#[trigger] parsed[k]).1 is Ok;
            &&& fine ==> (r matches Ok(t) && t.initial == initial && t.ops.len() == n && t.ops[i]
                == parsed[i].1->Ok_0@)
            &&& (parsed[i].1 is Err && forall|k: int| 0 <= k < i ==> (#[trigger] parsed[k]).1 is Ok)
                ==> r == Err::<TraceView, ErrorView>(
                line_error(parsed[i].0, (parsed[i].1->Err_0)@),
            )
        }),
    decreases n,
{
    lemma_read(initial, parsed, n - 1);
    if n - 1 > i {
        law_traces_are_read_line_by_line(initial, parsed, n - 1, i);
    }
}

proof fn lemma_read(initial: TreeView, parsed: Seq<(usize, Result<Op, String>)>, n: int)
    requires
        0 <= n <= parsed.len(),
    ensures
        (forall|k: int| 0 <= k < n ==> (#[trigger] parsed[k]).1 is Ok) ==> (trace_of_lines(
            initial,
            parsed,
            n,
        ) matches Ok(t) && t.initial == initial && t.ops.len() == n),
    decreases n,
{
    if n > 0 {
        lemma_read(initial, parsed, n - 1);
    }
}

/// A snapshot holds what was found: each file with its bytes and each directory,
/// at its path; nothing else; and of two things found at one path the later.
pub proof fn law_snapshots_hold_what_was_found(found: Seq<Found>, n: int, i: int)
    requires
        0 <= i < n <= found.len(),
        forall|k: int|
            i < k < n ==> joined_path((#[trigger] found[k]).prefix@, found[k].name@) != joined_path(
                found[i].prefix@,
                found[i].name@,
            ),
    ensures
        ({
            let path = joined_path(found[i].prefix@, found[i].name@);
            let t = tree_upto(found, n);
            &&& found[i].what is Dir ==> t.contains_key(path) && t[path] == EntryView::Dir
            &&& found[i].what matches What::File(data) ==> t.contains_key(path) && t[path]
                == EntryView::File(data@)
        }),
        forall|p: Seq<char>| #[trigger]
            tree_upto(found, n).contains_key(p) ==> exists|k: int|
                0 <= k < n && !((#[trigger] found[k]).what is Other) && p == joined_path(
                    found[k].prefix@,
                    found[k].name@,
                ),
    decreases n,
{
    lemma_only_found(found, n);
    if i < n - 1 {
        law_snapshots_hold_what_was_found(found, n - 1, i);
        assert(joined_path(found[n - 1].prefix@, found[n - 1].name@) != joined_path(
            found[i].prefix@,
            found[i].name@,
        ));
    }
}

proof fn lemma_only_found(found: Seq<Found>, n: int)
    requires
        0 <= n <= found.len(),
    ensures
        forall|p: Seq<char>| #[trigger]
            tree_upto(found, n).contains_key(p) ==> exists|k: int|
                0 <= k < n && !((#[trigger] found[k]).what is Other) && p == joined_path(
                    found[k].prefix@,
                    found[k].name@,
                ),
    decreases n,
{
    if n > 0 {
        lemma_only_found(found, n - 1);
        assert forall|p: Seq<char>| #[trigger] tree_upto(found, n).contains_key(p) implies exists|
            k: int,
        |
            0 <= k < n && !((#[trigger] found[k]).what is Other) && p == joined_path(
                found[k].prefix@,
                found[k].name@,
            ) by {
            if tree_upto(found, n - 1).contains_key(p) {
                let k = choose|k: int|
                    0 <= k < n - 1 && !((#[trigger] found[k]).what is Other) && p == joined_path(
                        found[k].prefix@,
                        found[k].name@,
                    );
                assert(!(found[k].what is Other));
            } else {
                assert(!(found[n - 1].what is Other));
            }
        }
    }
}

/// A hex string spells one byte with every two characters; one of odd length, or
/// with two characters that are no number, spells nothing.
pub proof fn law_hex_spells_byte_by_byte(s: Seq<char>, i: int)
    ensures
        ({
            let b = encode_utf8(s);
            &&& b.len() % 2 != 0 <==> bytes_of(s) == Err::<Seq<u8>, Seq<char>>(
                "odd-length hex string"@,
            )
            &&& bytes_of(s) matches Ok(data) ==> {
                &&& data.len() * 2 == b.len()
                &&& 0 <= i < data.len() ==> byte_of(b[2 * i], b[2 * i + 1]) == Some(data[i] as int)
            }
            &&& b.len() % 2 == 0 && 0 <= i < b.len() / 2 && byte_of(b[2 * i], b[2 * i + 1]) is None
                ==> bytes_of(s) is Err
        }),
{
    let b = encode_utf8(s);
    lemma_bytes(b, b.len() as int / 2, i);
    reveal_strlit("odd-length hex string");
    reveal_strlit("invalid digit found in string");
    assert("odd-length hex string"@.len() != "invalid digit found in string"@.len());
}

proof fn lemma_bytes(b: Seq<u8>, n: int, i: int)
    requires
        0 <= n,
    ensures
        bytes_upto(b, n) matches Some(data) ==> data.len() == n && (0 <= i < n ==> byte_of(
            b[2 * i],
            b[2 * i + 1],
        ) == Some(data[i] as int)),
        0 <= i < n && byte_of(b[2 * i], b[2 * i + 1]) is None ==> bytes_upto(b, n) is None,
    decreases n,
{
    if n > 0 {
        lemma_bytes(b, n - 1, i);
        assert(2 * n - 2 == 2 * (n - 1));
    }
}

/// Two characters spell a byte: sixteen times the first digit and the second.
pub proof fn law_two_digits_spell_a_byte(hi: int, lo: int)
    requires
        0 <= hi < 16,
        0 <= lo < 16,
    ensures
        byte_of(hex_digit(hi) as u8, hex_digit(lo) as u8) == Some(16 * hi + lo),
{
    let a = hex_digit(hi);
    let b = hex_digit(lo);
    let s = seq![a as u8 as char, b as u8 as char];
    assert(a as u8 as char == a && b as u8 as char == b);
    assert(s.drop_last() =~= seq![a]);
    reveal_with_fuel(digits_value, 2);
    assert(digit_value(a, 16) == Some(hi));
    assert(digit_value(b, 16) == Some(lo));
    assert(digits_value(s, 16) == Some(hi * 16 + lo));
}

} // verus!
