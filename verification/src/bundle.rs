//! The trace file of a bundle: one op per line. Blank lines are skipped, and
//! what is wrong with a line is told with its number.

use crate::error::{Error, ErrorView};
use crate::text::{
    cat, chars_of, decimal, decimal_of, index_from, lemma_index_from, lines, lines_of, strip_cr,
    text_of, texts, trim, trimmed, views,
};
use crate::trace::{ops_view, Op, OpView, Trace, TraceView, Tree, TreeView};
use vstd::prelude::*;

verus! {

/// A text of lines, each one ended by a line feed.
pub open spec fn ended_lines(v: Seq<Seq<char>>) -> Seq<char>
    decreases v.len(),
{
    if v.len() == 0 {
        Seq::empty()
    } else {
        v[0] + seq!['\n'] + ended_lines(v.skip(1))
    }
}

/// The text of a trace file, given the text of each op.
pub fn trace_text(ops: &Vec<String>) -> (r: String)
    ensures
        r@ == ended_lines(texts(ops@)),
{
    let mut out: String = "".to_owned();
    let ghost all = texts(ops@);
    let mut i: usize = 0;
    proof {
        reveal_strlit("");
        assert(all.skip(0) =~= all);
        assert(out@ + ended_lines(all) =~= ended_lines(all));
    }
    while i < ops.len()
        invariant
            i <= ops@.len(),
            all == texts(ops@),
            out@ + ended_lines(all.skip(i as int)) == ended_lines(all),
        decreases ops@.len() - i,
    {
        let ghost before = out@;
        out = cat(out, ops[i].as_str());
        out = cat(out, "\n");
        proof {
            reveal_strlit("\n");
            let rest = all.skip(i as int);
            assert(rest[0] == ops@[i as int]@);
            assert(rest.skip(1) =~= all.skip(i + 1));
            assert("\n"@ =~= seq!['\n']);
            assert(out@ + ended_lines(all.skip(i + 1)) =~= before + (rest[0] + seq!['\n']
                + ended_lines(all.skip(i + 1))));
        }
        i += 1;
    }
    proof {
        assert(all.skip(i as int) =~= Seq::<Seq<char>>::empty());
        assert(out@ + ended_lines(all.skip(i as int)) =~= out@);
    }
    out
}

/// A line that holds nothing but white space.
pub open spec fn is_blank(line: Seq<char>) -> bool {
    trim(line).len() == 0
}

/// Those of the first `n` lines that are not blank, with their numbers.
pub open spec fn numbered(all: Seq<Seq<char>>, n: int) -> Seq<(usize, Seq<char>)>
    decreases n,
{
    if n <= 0 {
        Seq::empty()
    } else {
        let before = numbered(all, n - 1);
        if is_blank(all[n - 1]) {
            before
        } else {
            before.push((n as usize, all[n - 1]))
        }
    }
}

/// What a list of numbered lines says.
pub open spec fn numbered_view(v: Seq<(usize, String)>) -> Seq<(usize, Seq<char>)> {
    Seq::new(v.len(), |i: int| (v[i].0, v[i].1@))
}

/// The lines of a trace file that hold an op, with their numbers.
pub fn op_lines(text: &str) -> (r: Vec<(usize, String)>)
    ensures
        numbered_view(r@) == numbered(lines(text@), lines(text@).len() as int),
{
    let c = chars_of(text);
    let all = lines_of(c.as_slice());
    let ghost ls = lines(text@);
    let mut out: Vec<(usize, String)> = Vec::new();
    let mut i: usize = 0;
    assert(numbered_view(out@) =~= Seq::<(usize, Seq<char>)>::empty());
    while i < all.len()
        invariant
            i <= all@.len(),
            ls == views(all@),
            numbered_view(out@) == numbered(ls, i as int),
        decreases all@.len() - i,
    {
        let ghost before = numbered_view(out@);
        let line = &all[i];
        assert(ls[i as int] == line@);
        if trimmed(line.as_slice()).len() > 0 {
            out.push((i + 1, text_of(line.as_slice())));
            assert(numbered_view(out@) =~= before.push(((i + 1) as usize, line@)));
        }
        i += 1;
    }
    out
}

/// What is wrong with a line of a trace file.
pub open spec fn line_error(number: usize, why: Seq<char>) -> ErrorView {
    ErrorView::Trace("trace.jsonl line "@ + decimal(number as nat) + ": "@ + why)
}

/// The trace of the first `n` lines, or what is wrong with the first bad one.
pub open spec fn trace_of_lines(
    initial: TreeView,
    parsed: Seq<(usize, Result<Op, String>)>,
    n: int,
) -> Result<TraceView, ErrorView>
    decreases n,
{
    if n <= 0 {
        Ok(TraceView { initial, ops: Seq::empty() })
    } else {
        match trace_of_lines(initial, parsed, n - 1) {
            Err(e) => Err(e),
            Ok(t) => match parsed[n - 1].1 {
                Ok(op) => Ok(TraceView { initial, ops: t.ops.push(op@) }),
                Err(why) => Err(line_error(parsed[n - 1].0, why@)),
            },
        }
    }
}

proof fn lemma_bad_line_stays(
    initial: TreeView,
    parsed: Seq<(usize, Result<Op, String>)>,
    i: int,
    n: int,
)
    requires
        0 <= i <= n,
        trace_of_lines(initial, parsed, i) is Err,
    ensures
        trace_of_lines(initial, parsed, n) == trace_of_lines(initial, parsed, i),
    decreases n - i,
{
    if i < n {
        lemma_bad_line_stays(initial, parsed, i, n - 1);
    }
}

impl Trace {
    /// The trace of a bundle: its snapshot, and what each numbered line of its
    /// trace file holds, or why it holds no op.
    pub fn load(initial: Tree, parsed: Vec<(usize, Result<Op, String>)>) -> (r: Result<
        Trace,
        Error,
    >)
        ensures
            match r {
                Ok(t) => trace_of_lines(initial@, parsed@, parsed@.len() as int) == Ok::<
                    TraceView,
                    ErrorView,
                >(t@),
                Err(e) => trace_of_lines(initial@, parsed@, parsed@.len() as int) == Err::<
                    TraceView,
                    ErrorView,
                >(e@),
            },
    {
        let ghost all = parsed@;
        let mut ops: Vec<Op> = Vec::new();
        assert(ops_view(ops@) =~= Seq::<OpView>::empty());
        for x in it: parsed
            invariant
                it.seq() == all,
                trace_of_lines(initial@, all, it.index() as int) == Ok::<TraceView, ErrorView>(
                    TraceView { initial: initial@, ops: ops_view(ops@) },
                ),
        {
            let ghost before = ops_view(ops@);
            let (number, parsed_line) = x;
            match parsed_line {
                Ok(op) => {
                    ops.push(op);
                    assert(ops_view(ops@) =~= before.push(op@));
                },
                Err(why) => {
                    let s = cat("trace.jsonl line ".to_owned(), decimal_of(number as u64).as_str());
                    let s = cat(s, ": ");
                    proof {
                        lemma_bad_line_stays(
                            initial@,
                            all,
                            it.index() as int + 1,
                            all.len() as int,
                        );
                    }
                    return Err(Error::Trace(cat(s, why.as_str())));
                },
            }
        }
        Ok(Trace { initial, ops })
    }
}

/// A text that stays one line when it is written to a trace file.
pub open spec fn is_one_line(s: Seq<char>) -> bool {
    !s.contains('\n') && strip_cr(s) == s && !is_blank(s)
}

proof fn lemma_lines_of_ended(v: Seq<Seq<char>>)
    requires
        forall|i: int| 0 <= i < v.len() ==> is_one_line(#[trigger] v[i]),
    ensures
        lines(ended_lines(v)) == v,
    decreases v.len(),
{
    if v.len() == 0 {
        assert(lines(ended_lines(v)) =~= v);
    } else {
        let s = ended_lines(v);
        let first = v[0];
        let rest = v.skip(1);
        assert(is_one_line(v[0]));
        assert forall|i: int| 0 <= i < rest.len() implies is_one_line(#[trigger] rest[i]) by {
            assert(rest[i] == v[i + 1]);
        }
        lemma_lines_of_ended(rest);
        lemma_index_from(s, '\n', 0);
        let at = index_from(s, '\n', 0);
        assert(s[first.len() as int] == '\n');
        assert forall|j: int| 0 <= j < first.len() implies s[j] != '\n' by {
            assert(s[j] == first[j]);
            assert(first.contains(first[j]));
        }
        assert(at == first.len());
        assert(s.take(at) =~= first);
        assert(s.skip(at + 1) =~= ended_lines(rest));
        assert(seq![first] + rest =~= v);
    }
}

proof fn lemma_numbered_all(v: Seq<Seq<char>>, n: int)
    requires
        0 <= n <= v.len(),
        forall|i: int| 0 <= i < v.len() ==> is_one_line(#[trigger] v[i]),
    ensures
        numbered(v, n) == Seq::new(n as nat, |i: int| ((i + 1) as usize, v[i])),
    decreases n,
{
    if n > 0 {
        lemma_numbered_all(v, n - 1);
        assert(is_one_line(v[n - 1]));
    }
    assert(numbered(v, n) =~= Seq::new(n as nat, |i: int| ((i + 1) as usize, v[i])));
}

/// The lines that are written to a trace file are the lines that are read back,
/// in order and numbered from one.
pub proof fn law_trace_file_reads_back(v: Seq<Seq<char>>)
    requires
        forall|i: int| 0 <= i < v.len() ==> is_one_line(#[trigger] v[i]),
    ensures
        ({
            let read = lines(ended_lines(v));
            numbered(read, read.len() as int) == Seq::new(
                v.len(),
                |i: int| ((i + 1) as usize, v[i]),
            )
        }),
{
    lemma_lines_of_ended(v);
    lemma_numbered_all(v, v.len() as int);
}

} // verus!
