//! What the words of a command line stand for.

use crate::check::Options;
use crate::cli::{
    args_of, asked_by, flag_named, no_args, op_listing, options_end, padded, parsed, with_dir,
    with_flag, ArgsView, CommandView, Flag,
};
use crate::crash::Search;
use crate::model::{profile_named, Profile};
use crate::report_laws::{lemma_tells, lemma_tells_through, tells};
use crate::text::{contains, decimal, number_in};
use crate::text_laws::{law_replacing_words, stands_at};
use crate::trace::{described, OpView};
use vstd::prelude::*;

verus! {

/// What tells the names of the options apart: how long they are, and some letters.
proof fn lemma_spelling()
    ensures
        "--dir"@.len() == 5,
        "--dir"@[2] == 'd',
        "--init"@.len() == 6,
        "--init"@[3] == 'n',
        "-o"@.len() == 2,
        "--out"@.len() == 5,
        "--out"@[2] == 'o',
        "--check"@.len() == 7,
        "--recover"@.len() == 9,
        "--recover"@[2] == 'r',
        "--profile"@.len() == 9,
        "--profile"@[2] == 'p',
        "--block-size"@.len() == 12,
        "--block-size"@[2] == 'b',
        "--jobs"@.len() == 6,
        "--jobs"@[3] == 'o',
        "--timeout"@.len() == 9,
        "--timeout"@[2] == 't',
        "--max-states"@.len() == 12,
        "--max-states"@[2] == 'm',
        "--exhaustive"@.len() == 12,
        "--exhaustive"@[2] == 'e',
        "--samples"@.len() == 9,
        "--samples"@[2] == 's',
        "--seed"@.len() == 6,
        "--seed"@[3] == 'e',
        "--explain"@.len() == 9,
        "--explain"@[2] == 'e',
        "--json"@.len() == 6,
        "--json"@[3] == 's',
{
    reveal_strlit("--dir");
    reveal_strlit("--init");
    reveal_strlit("-o");
    reveal_strlit("--out");
    reveal_strlit("--check");
    reveal_strlit("--recover");
    reveal_strlit("--profile");
    reveal_strlit("--block-size");
    reveal_strlit("--jobs");
    reveal_strlit("--timeout");
    reveal_strlit("--max-states");
    reveal_strlit("--exhaustive");
    reveal_strlit("--samples");
    reveal_strlit("--seed");
    reveal_strlit("--explain");
    reveal_strlit("--json");
}

/// Which option each name is.
proof fn lemma_flags()
    ensures
        flag_named("--dir"@) == Some(Flag::Dir),
        flag_named("--init"@) == Some(Flag::Init),
        flag_named("-o"@) == Some(Flag::Out),
        flag_named("--out"@) == Some(Flag::Out),
        flag_named("--check"@) == Some(Flag::Check),
        flag_named("--recover"@) == Some(Flag::Recover),
        flag_named("--profile"@) == Some(Flag::Profile),
        flag_named("--block-size"@) == Some(Flag::BlockSize),
        flag_named("--jobs"@) == Some(Flag::Jobs),
        flag_named("--timeout"@) == Some(Flag::Timeout),
        flag_named("--max-states"@) == Some(Flag::MaxStates),
        flag_named("--exhaustive"@) == Some(Flag::Exhaustive),
        flag_named("--samples"@) == Some(Flag::Samples),
        flag_named("--seed"@) == Some(Flag::Seed),
        flag_named("--explain"@) == Some(Flag::Explain),
        flag_named("--json"@) is None,
{
    lemma_spelling();
}

/// What reading a word, and the value behind it, does to the arguments: an option
/// that takes a text sets just that, and reading goes on behind the value.
pub proof fn law_text_options_are_read(a: ArgsView, words: Seq<Seq<char>>, i: int, n: int)
    requires
        0 <= i,
        i + 1 < n <= words.len(),
    ensures
        words[i] == "--dir"@ ==> args_of(a, words, i, n) == args_of(
            ArgsView { dir: Some(words[i + 1]), ..a },
            words,
            i + 2,
            n,
        ),
        words[i] == "--init"@ ==> args_of(a, words, i, n) == args_of(
            ArgsView { init: Some(words[i + 1]), ..a },
            words,
            i + 2,
            n,
        ),
        words[i] == "-o"@ ==> args_of(a, words, i, n) == args_of(
            ArgsView { out: Some(words[i + 1]), ..a },
            words,
            i + 2,
            n,
        ),
        words[i] == "--out"@ ==> args_of(a, words, i, n) == args_of(
            ArgsView { out: Some(words[i + 1]), ..a },
            words,
            i + 2,
            n,
        ),
        words[i] == "--check"@ ==> args_of(a, words, i, n) == args_of(
            ArgsView { check: Some(words[i + 1]), ..a },
            words,
            i + 2,
            n,
        ),
        words[i] == "--recover"@ ==> args_of(a, words, i, n) == args_of(
            ArgsView { recover: Some(words[i + 1]), ..a },
            words,
            i + 2,
            n,
        ),
{
    lemma_flags();
}

/// An option that takes a number sets just that, and a value that is none is
/// refused; so is a profile that is unknown.
#[verifier::spinoff_prover]
pub proof fn law_number_options_are_read(a: ArgsView, words: Seq<Seq<char>>, i: int, n: int, k: int)
    requires
        0 <= i,
        i + 1 < n <= words.len(),
        0 <= k,
    ensures
        ({
            let v = words[i + 1];
            let o = a.opts;
            let size = number_in(v, 10, false, 0, usize::MAX as int) == Some(k);
            let long = number_in(v, 10, false, 0, u64::MAX as int) == Some(k);
            let next = |b: ArgsView| args_of(b, words, i + 2, n);
            let now = args_of(a, words, i, n);
            &&& words[i] == "--block-size"@ && long ==> now == next(
                ArgsView { opts: Options { block_size: k as u64, ..o }, ..a },
            )
            &&& words[i] == "--jobs"@ && size ==> now == next(
                ArgsView { opts: Options { jobs: k as usize, ..o }, ..a },
            )
            &&& words[i] == "--timeout"@ && long ==> now == next(
                ArgsView { timeout: k as u64, ..a },
            )
            &&& words[i] == "--max-states"@ && size ==> now == next(
                ArgsView { opts: Options { max_states: k as usize, ..o }, ..a },
            )
            &&& words[i] == "--explain"@ && size ==> now == next(
                ArgsView { opts: Options { explain: k as usize, ..o }, ..a },
            )
            &&& words[i] == "--exhaustive"@ && size ==> now == next(
                ArgsView {
                    opts: Options {
                        search: Search { exhaustive_limit: k as usize, ..o.search },
                        ..o
                    },
                    ..a
                },
            )
            &&& words[i] == "--samples"@ && size ==> now == next(
                ArgsView {
                    opts: Options {
                        search: Search { samples: k as usize, ..o.search },
                        ..o
                    },
                    ..a
                },
            )
            &&& words[i] == "--seed"@ && long ==> now == next(
                ArgsView {
                    opts: Options {
                        search: Search { seed: k as u64, ..o.search },
                        ..o
                    },
                    ..a
                },
            )
            &&& words[i] == "--profile"@ && profile_named(v) == Some(Profile::Posix)
                ==> now == next(
                ArgsView { opts: Options { profile: Profile::Posix, ..o }, ..a },
            )
            &&& words[i] == "--profile"@ && profile_named(v) == Some(Profile::Ext4Ordered)
                ==> now == next(
                ArgsView { opts: Options { profile: Profile::Ext4Ordered, ..o }, ..a },
            )
            &&& words[i] == "--block-size"@ && number_in(v, 10, false, 0, u64::MAX as int) is None
                ==> now == Err::<ArgsView, Seq<char>>(
                "--block-size"@ + ": `"@ + v + "` is not a valid number"@,
            )
            &&& words[i] == "--jobs"@ && number_in(v, 10, false, 0, usize::MAX as int) is None
                ==> now == Err::<ArgsView, Seq<char>>(
                "--jobs"@ + ": `"@ + v + "` is not a valid number"@,
            )
            &&& words[i] == "--timeout"@ && number_in(v, 10, false, 0, u64::MAX as int) is None
                ==> now == Err::<ArgsView, Seq<char>>(
                "--timeout"@ + ": `"@ + v + "` is not a valid number"@,
            )
            &&& words[i] == "--max-states"@ && number_in(v, 10, false, 0, usize::MAX as int) is None
                ==> now == Err::<ArgsView, Seq<char>>(
                "--max-states"@ + ": `"@ + v + "` is not a valid number"@,
            )
            &&& words[i] == "--explain"@ && number_in(v, 10, false, 0, usize::MAX as int) is None
                ==> now == Err::<ArgsView, Seq<char>>(
                "--explain"@ + ": `"@ + v + "` is not a valid number"@,
            )
            &&& words[i] == "--exhaustive"@ && number_in(v, 10, false, 0, usize::MAX as int) is None
                ==> now == Err::<ArgsView, Seq<char>>(
                "--exhaustive"@ + ": `"@ + v + "` is not a valid number"@,
            )
            &&& words[i] == "--samples"@ && number_in(v, 10, false, 0, usize::MAX as int) is None
                ==> now == Err::<ArgsView, Seq<char>>(
                "--samples"@ + ": `"@ + v + "` is not a valid number"@,
            )
            &&& words[i] == "--seed"@ && number_in(v, 10, false, 0, u64::MAX as int) is None
                ==> now == Err::<ArgsView, Seq<char>>(
                "--seed"@ + ": `"@ + v + "` is not a valid number"@,
            )
            &&& words[i] == "--profile"@ && profile_named(v) is None ==> now is Err
        }),
{
    lemma_flags();
}

/// A word that is no option: `--json` asks for that format, any other word with a
/// dash is refused, and one without is an argument. An option without its value is
/// refused, and nothing is read from no words.
pub proof fn law_other_words_are_read(a: ArgsView, words: Seq<Seq<char>>, i: int, n: int)
    requires
        0 <= i < n <= words.len(),
    ensures
        args_of(a, words, n, n) == Ok::<ArgsView, Seq<char>>(a),
        words[i] == "--json"@ ==> args_of(a, words, i, n) == args_of(
            ArgsView { json: true, ..a },
            words,
            i + 1,
            n,
        ),
        flag_named(words[i]) is None && words[i] != "--json"@ && words[i].len() > 0 && words[i][0]
            == '-' ==> args_of(a, words, i, n) is Err,
        words[i].len() == 0 || words[i][0] != '-' ==> args_of(a, words, i, n) == args_of(
            ArgsView { positional: a.positional.push(words[i]), ..a },
            words,
            i + 1,
            n,
        ),
        flag_named(words[i]) is Some && i + 1 == n ==> args_of(a, words, i, n) is Err,
{
    lemma_flags();
    lemma_dashes();
}

/// Every option begins with a dash.
proof fn lemma_dashes()
    ensures
        forall|w: Seq<char>| #[trigger] flag_named(w) is Some ==> w.len() > 0 && w[0] == '-',
        "--json"@.len() > 0 && "--json"@[0] == '-',
{
    reveal_strlit("--dir");
    reveal_strlit("--init");
    reveal_strlit("-o");
    reveal_strlit("--out");
    reveal_strlit("--check");
    reveal_strlit("--recover");
    reveal_strlit("--profile");
    reveal_strlit("--block-size");
    reveal_strlit("--jobs");
    reveal_strlit("--timeout");
    reveal_strlit("--max-states");
    reveal_strlit("--exhaustive");
    reveal_strlit("--samples");
    reveal_strlit("--seed");
    reveal_strlit("--explain");
    reveal_strlit("--json");
}

proof fn lemma_workload_apart(
    a: ArgsView,
    workload: Seq<Seq<char>>,
    words: Seq<Seq<char>>,
    more: Seq<Seq<char>>,
    i: int,
)
    requires
        0 <= i <= words.len(),
    ensures
        args_of(ArgsView { workload, ..a }, words + more, i, words.len() as int) == (match args_of(
            a,
            words,
            i,
            words.len() as int,
        ) {
            Ok(b) => Ok(ArgsView { workload, ..b }),
            Err(e) => Err(e),
        }),
    decreases words.len() - i,
{
    let n = words.len() as int;
    let all = words + more;
    if i < n {
        let w = words[i];
        assert(all[i] == w);
        match flag_named(w) {
            Some(f) => {
                if i + 1 < n {
                    assert(all[i + 1] == words[i + 1]);
                    match with_flag(a, f, words[i + 1]) {
                        Ok(b) => {
                            lemma_workload_apart(b, workload, words, more, i + 2);
                        },
                        Err(_) => {},
                    }
                }
            },
            None => {
                lemma_workload_apart(ArgsView { json: true, ..a }, workload, words, more, i + 1);
                lemma_workload_apart(
                    ArgsView { positional: a.positional.push(w), ..a },
                    workload,
                    words,
                    more,
                    i + 1,
                );
            },
        }
    }
}

proof fn lemma_options_end(words: Seq<Seq<char>>, i: int, n: int)
    requires
        0 <= i <= n <= words.len(),
        forall|k: int| i <= k < n ==> #[trigger] words[k] != "--"@,
        n < words.len() ==> words[n] == "--"@,
    ensures
        options_end(words, i) == n,
    decreases n - i,
{
    if i < n {
        lemma_options_end(words, i + 1, n);
    }
}

/// The words behind the first `--` are the workload, whatever they are, and those
/// before it are read as if they stood alone.
pub proof fn law_the_workload_stands_behind_two_dashes(
    front: Seq<Seq<char>>,
    back: Seq<Seq<char>>,
    opts: Options,
)
    requires
        forall|k: int| 0 <= k < front.len() ==> #[trigger] front[k] != "--"@,
    ensures
        parsed(front + seq!["--"@] + back, opts) == (match parsed(front, opts) {
            Ok(a) => Ok(ArgsView { workload: back, ..a }),
            Err(e) => Err(e),
        }),
        parsed(front, opts) matches Ok(a) ==> a.workload.len() == 0,
{
    let n = front.len() as int;
    let more = seq!["--"@] + back;
    let words = front + seq!["--"@] + back;
    assert(words =~= front + more);
    assert(words[n] == "--"@);
    assert forall|k: int| 0 <= k < n implies #[trigger] words[k] != "--"@ by {
        assert(words[k] == front[k]);
    }
    lemma_options_end(words, 0, n);
    lemma_options_end(front, 0, n);
    assert(words.skip(n + 1) =~= back);
    let empty = no_args(opts, Seq::empty());
    lemma_workload_apart(empty, back, front, more, 0);
    lemma_workload_apart(empty, Seq::empty(), front, Seq::empty(), 0);
    assert(front + Seq::<Seq<char>>::empty() =~= front);
}

/// What each command needs: `run` a check and a workload, `record` a place for the
/// bundle and a workload, `check` one bundle and a check, `show` one bundle, and
/// `help` nothing.
pub proof fn law_commands_need_their_arguments(a: ArgsView)
    ensures
        asked_by("run"@, a) is Ok <==> a.check is Some && a.workload.len() > 0,
        asked_by("run"@, a) matches Ok(c) ==> c == (CommandView::Run { check: a.check->0 }),
        asked_by("record"@, a) is Ok <==> a.out is Some && a.workload.len() > 0,
        asked_by("record"@, a) matches Ok(c) ==> c == (CommandView::Record { out: a.out->0 }),
        asked_by("check"@, a) is Ok <==> a.check is Some && a.positional.len() == 1,
        asked_by("check"@, a) matches Ok(c) ==> c == (CommandView::Check {
            bundle: a.positional[0],
            check: a.check->0,
        }),
        asked_by("show"@, a) is Ok <==> a.positional.len() == 1,
        asked_by("show"@, a) matches Ok(c) ==> c == (CommandView::Show {
            bundle: a.positional[0],
        }),
        asked_by("help"@, a) == Ok::<CommandView, Seq<char>>(CommandView::Help),
        asked_by("-h"@, a) == Ok::<CommandView, Seq<char>>(CommandView::Help),
        asked_by("--help"@, a) == Ok::<CommandView, Seq<char>>(CommandView::Help),
{
    lemma_commands();
}

proof fn lemma_commands()
    ensures
        "run"@.len() == 3,
        "record"@.len() == 6,
        "record"@[0] == 'r',
        "check"@.len() == 5,
        "show"@.len() == 4,
        "show"@[0] == 's',
        "help"@.len() == 4,
        "help"@[0] == 'h',
        "-h"@.len() == 2,
        "--help"@.len() == 6,
        "--help"@[0] == '-',
{
    reveal_strlit("run");
    reveal_strlit("record");
    reveal_strlit("check");
    reveal_strlit("show");
    reveal_strlit("help");
    reveal_strlit("-h");
    reveal_strlit("--help");
}

/// A padded text is the text, and blanks up to the width.
pub proof fn law_padding_adds_blanks(s: Seq<char>, width: nat)
    ensures
        padded(s, width).len() == (if s.len() < width {
            width
        } else {
            s.len()
        }),
        padded(s, width).take(s.len() as int) == s,
        forall|i: int|
            s.len() <= i < padded(s, width).len() ==> #[trigger] padded(s, width)[i] == ' ',
    decreases width,
{
    if s.len() < width && width > 0 {
        law_padding_adds_blanks(s, (width - 1) as nat);
        assert(padded(s, width).take(s.len() as int) =~= padded(s, (width - 1) as nat).take(
            s.len() as int,
        ));
    } else {
        assert(s.take(s.len() as int) =~= s);
    }
}

/// A listing tells every op, by its number and by what it does.
pub proof fn law_listings_tell_every_op(ops: Seq<OpView>, n: int, k: int)
    requires
        0 <= k < n <= ops.len(),
    ensures
        tells(
            op_listing(ops, n),
            "#"@ + padded(decimal(k as nat), 5) + " "@ + described(ops[k]) + "\n"@,
        ),
    decreases n,
{
    let line = "#"@ + padded(decimal(k as nat), 5) + " "@ + described(ops[k]) + "\n"@;
    let before = op_listing(ops, n - 1);
    let all = op_listing(ops, n);
    if k < n - 1 {
        law_listings_tell_every_op(ops, n - 1, k);
        let last = "#"@ + padded(decimal((n - 1) as nat), 5) + " "@ + described(ops[n - 1])
            + "\n"@;
        lemma_tells(all, Seq::empty(), before, last);
        lemma_tells_through(all, before, line);
    } else {
        lemma_tells(all, before, line, Seq::empty());
    }
}

/// The directory stands in a command wherever the command asks for it; a command
/// that does not ask stays as it is.
pub proof fn law_directories_are_filled_in(a: Seq<char>, b: Seq<char>, dir: Seq<char>)
    ensures
        !contains(a, "{dir}"@) ==> with_dir(a, dir) == a,
        (forall|i: int| 0 <= i < a.len() ==> !#[trigger] stands_at(a + "{dir}"@ + b, "{dir}"@, i))
            ==> with_dir(a + "{dir}"@ + b, dir) == a + dir + with_dir(b, dir),
{
    reveal_strlit("{dir}");
    law_replacing_words(a, b, "{dir}"@, dir);
}

} // verus!
