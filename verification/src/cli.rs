//! The command line: what the arguments ask for, and what is said back.

use crate::check::Options;
use crate::crash::Search;
use crate::explain::all_end;
use crate::model::{profile_named, Profile};
use crate::names::lemma_ascending_len;
use crate::strace::Recording;
use crate::syscall::{lossy, lossy_text};
use crate::text::{
    cat, chars_of, decimal, decimal_of, is_lit, number_in, parse_number, replace, replaced,
    same_str, text_of, texts, trim, trimmed,
};
use crate::trace::{described, op_ends, OpView, Trace, TraceView};
use vstd::prelude::*;

verus! {

/// How the program is used.
pub const USAGE: &'static str =
    "unsynced - find crash-consistency bugs by exploring every disk state a power loss can leave

USAGE:
  unsynced run    [--dir DIR] [--init DIR] --check CMD [--recover CMD] [OPTIONS] -- WORKLOAD...
  unsynced record [--dir DIR] [--init DIR] -o BUNDLE -- WORKLOAD...
  unsynced check  BUNDLE --check CMD [--recover CMD] [OPTIONS]
  unsynced show   BUNDLE

`run` and `record` trace WORKLOAD with strace (Linux). WORKLOAD operates on the
directory under test: --dir (default: a fresh temp dir), seeded from --init.
CMD runs once per crash state and must exit 0 iff that state is acceptable.
In both, {dir} expands to the directory and {marks} to a file holding what
WORKLOAD printed to stdout before the crash (also $UNSYNCED_DIR, $UNSYNCED_MARKS).

With --recover, CMD repairs each crash state before --check runs, and is itself
traced (Linux) and crashed at every point: recovery must survive a second crash.

OPTIONS:
  --profile posix|ext4  persistence model (default posix: the weakest legal)
  --block-size N        writes tear at N-byte boundaries (default 4096)
  --jobs N              checkers to run in parallel (default: CPU count)
  --timeout SECS        per-check time limit (default 30)
  --max-states N        cap on unique crash states (default 20000)
  --exhaustive N        try every subset when <= N micro-ops are in flight (default 10)
  --samples N           random subsets per crash point beyond that (default 32)
  --seed N              seed for those samples
  --explain N           minimize up to N failing states to find root causes (default 16)
  --json                print the report as JSON

EXIT STATUS: 0 no bugs found, 1 bugs found, 2 error";

/// The arguments behind the command.
#[derive(Debug, PartialEq, Eq)]
pub struct Args {
    pub positional: Vec<String>,
    pub workload: Vec<String>,
    pub dir: Option<String>,
    pub init: Option<String>,
    pub out: Option<String>,
    pub check: Option<String>,
    pub recover: Option<String>,
    pub timeout: u64,
    pub json: bool,
    pub opts: Options,
}

/// The arguments behind the command, over mathematical values.
pub struct ArgsView {
    pub positional: Seq<Seq<char>>,
    pub workload: Seq<Seq<char>>,
    pub dir: Option<Seq<char>>,
    pub init: Option<Seq<char>>,
    pub out: Option<Seq<char>>,
    pub check: Option<Seq<char>>,
    pub recover: Option<Seq<char>>,
    pub timeout: u64,
    pub json: bool,
    pub opts: Options,
}

/// What a text that may be missing says.
pub open spec fn maybe(s: Option<String>) -> Option<Seq<char>> {
    match s {
        Some(t) => Some(t@),
        None => None,
    }
}

impl View for Args {
    type V = ArgsView;

    open spec fn view(&self) -> ArgsView {
        ArgsView {
            positional: texts(self.positional@),
            workload: texts(self.workload@),
            dir: maybe(self.dir),
            init: maybe(self.init),
            out: maybe(self.out),
            check: maybe(self.check),
            recover: maybe(self.recover),
            timeout: self.timeout,
            json: self.json,
            opts: self.opts,
        }
    }
}

/// An option that takes a value.
#[derive(Debug, Clone, Copy, PartialEq, Eq)]
pub enum Flag {
    Dir,
    Init,
    Out,
    Check,
    Recover,
    Profile,
    BlockSize,
    Jobs,
    Timeout,
    MaxStates,
    Exhaustive,
    Samples,
    Seed,
    Explain,
}

/// The option of a name.
pub open spec fn flag_named(s: Seq<char>) -> Option<Flag> {
    if s == "--dir"@ {
        Some(Flag::Dir)
    } else if s == "--init"@ {
        Some(Flag::Init)
    } else if s == "-o"@ || s == "--out"@ {
        Some(Flag::Out)
    } else if s == "--check"@ {
        Some(Flag::Check)
    } else if s == "--recover"@ {
        Some(Flag::Recover)
    } else if s == "--profile"@ {
        Some(Flag::Profile)
    } else if s == "--block-size"@ {
        Some(Flag::BlockSize)
    } else if s == "--jobs"@ {
        Some(Flag::Jobs)
    } else if s == "--timeout"@ {
        Some(Flag::Timeout)
    } else if s == "--max-states"@ {
        Some(Flag::MaxStates)
    } else if s == "--exhaustive"@ {
        Some(Flag::Exhaustive)
    } else if s == "--samples"@ {
        Some(Flag::Samples)
    } else if s == "--seed"@ {
        Some(Flag::Seed)
    } else if s == "--explain"@ {
        Some(Flag::Explain)
    } else {
        None
    }
}

/// What an option is called in an error.
pub open spec fn flag_name(f: Flag) -> Seq<char> {
    match f {
        Flag::Dir => "--dir"@,
        Flag::Init => "--init"@,
        Flag::Out => "-o"@,
        Flag::Check => "--check"@,
        Flag::Recover => "--recover"@,
        Flag::Profile => "--profile"@,
        Flag::BlockSize => "--block-size"@,
        Flag::Jobs => "--jobs"@,
        Flag::Timeout => "--timeout"@,
        Flag::MaxStates => "--max-states"@,
        Flag::Exhaustive => "--exhaustive"@,
        Flag::Samples => "--samples"@,
        Flag::Seed => "--seed"@,
        Flag::Explain => "--explain"@,
    }
}

/// The arguments with an option set, or what is wrong with its value.
pub open spec fn with_flag(a: ArgsView, f: Flag, v: Seq<char>) -> Result<ArgsView, Seq<char>> {
    let size = number_in(v, 10, false, 0, usize::MAX as int);
    let long = number_in(v, 10, false, 0, u64::MAX as int);
    let wrong = Err(flag_name(f) + ": `"@ + v + "` is not a valid number"@);
    let o = a.opts;
    match f {
        Flag::Dir => Ok(ArgsView { dir: Some(v), ..a }),
        Flag::Init => Ok(ArgsView { init: Some(v), ..a }),
        Flag::Out => Ok(ArgsView { out: Some(v), ..a }),
        Flag::Check => Ok(ArgsView { check: Some(v), ..a }),
        Flag::Recover => Ok(ArgsView { recover: Some(v), ..a }),
        Flag::Profile => match profile_named(v) {
            Some(p) => Ok(ArgsView { opts: Options { profile: p, ..o }, ..a }),
            None => Err(
                "unknown profile `"@ + v + "` (expected `posix` or `ext4`)"@,
            ),
        },
        Flag::BlockSize => match long {
            Some(n) => Ok(ArgsView { opts: Options { block_size: n as u64, ..o }, ..a }),
            None => wrong,
        },
        Flag::Jobs => match size {
            Some(n) => Ok(ArgsView { opts: Options { jobs: n as usize, ..o }, ..a }),
            None => wrong,
        },
        Flag::Timeout => match long {
            Some(n) => Ok(ArgsView { timeout: n as u64, ..a }),
            None => wrong,
        },
        Flag::MaxStates => match size {
            Some(n) => Ok(ArgsView { opts: Options { max_states: n as usize, ..o }, ..a }),
            None => wrong,
        },
        Flag::Exhaustive => match size {
            Some(n) => Ok(
                ArgsView {
                    opts: Options {
                        search: Search { exhaustive_limit: n as usize, ..o.search },
                        ..o
                    },
                    ..a
                },
            ),
            None => wrong,
        },
        Flag::Samples => match size {
            Some(n) => Ok(
                ArgsView {
                    opts: Options {
                        search: Search { samples: n as usize, ..o.search },
                        ..o
                    },
                    ..a
                },
            ),
            None => wrong,
        },
        Flag::Seed => match long {
            Some(n) => Ok(
                ArgsView {
                    opts: Options {
                        search: Search { seed: n as u64, ..o.search },
                        ..o
                    },
                    ..a
                },
            ),
            None => wrong,
        },
        Flag::Explain => match size {
            Some(n) => Ok(ArgsView { opts: Options { explain: n as usize, ..o }, ..a }),
            None => wrong,
        },
    }
}

/// The arguments once the words from `i` up to `n` are read, or what is wrong
/// with the first one that is.
pub open spec fn args_of(a: ArgsView, words: Seq<Seq<char>>, i: int, n: int) -> Result<
    ArgsView,
    Seq<char>,
>
    decreases n - i,
{
    if i >= n {
        Ok(a)
    } else {
        let w = words[i];
        match flag_named(w) {
            Some(f) => if i + 1 >= n {
                Err(flag_name(f) + " needs a value"@)
            } else {
                match with_flag(a, f, words[i + 1]) {
                    Ok(b) => args_of(b, words, i + 2, n),
                    Err(e) => Err(e),
                }
            },
            None => if w == "--json"@ {
                args_of(ArgsView { json: true, ..a }, words, i + 1, n)
            } else if w.len() > 0 && w[0] == '-' {
                Err("unknown option `"@ + w + "`\n\n"@ + USAGE@)
            } else {
                args_of(
                    ArgsView { positional: a.positional.push(w), ..a },
                    words,
                    i + 1,
                    n,
                )
            },
        }
    }
}

/// Where the words stop being options: the first `--` from `i` on, or the end.
pub open spec fn options_end(words: Seq<Seq<char>>, i: int) -> int
    decreases words.len() - i,
{
    if i >= words.len() || words[i] == "--"@ {
        i
    } else {
        options_end(words, i + 1)
    }
}

/// The arguments before any word is read.
pub open spec fn no_args(opts: Options, workload: Seq<Seq<char>>) -> ArgsView {
    ArgsView {
        positional: Seq::empty(),
        workload,
        dir: None,
        init: None,
        out: None,
        check: None,
        recover: None,
        timeout: 30,
        json: false,
        opts,
    }
}

/// The arguments that words stand for: options, and a workload behind `--`.
pub open spec fn parsed(words: Seq<Seq<char>>, opts: Options) -> Result<ArgsView, Seq<char>> {
    let end = options_end(words, 0);
    let workload = if end < words.len() {
        words.skip(end + 1)
    } else {
        Seq::empty()
    };
    args_of(no_args(opts, workload), words, 0, end)
}

fn find_flag(s: &str) -> (r: Option<Flag>)
    ensures
        r == flag_named(s@),
{
    let c = chars_of(s);
    let c = c.as_slice();
    if is_lit(c, "--dir") {
        Some(Flag::Dir)
    } else if is_lit(c, "--init") {
        Some(Flag::Init)
    } else if is_lit(c, "-o") || is_lit(c, "--out") {
        Some(Flag::Out)
    } else if is_lit(c, "--check") {
        Some(Flag::Check)
    } else if is_lit(c, "--recover") {
        Some(Flag::Recover)
    } else if is_lit(c, "--profile") {
        Some(Flag::Profile)
    } else if is_lit(c, "--block-size") {
        Some(Flag::BlockSize)
    } else if is_lit(c, "--jobs") {
        Some(Flag::Jobs)
    } else if is_lit(c, "--timeout") {
        Some(Flag::Timeout)
    } else if is_lit(c, "--max-states") {
        Some(Flag::MaxStates)
    } else if is_lit(c, "--exhaustive") {
        Some(Flag::Exhaustive)
    } else if is_lit(c, "--samples") {
        Some(Flag::Samples)
    } else if is_lit(c, "--seed") {
        Some(Flag::Seed)
    } else if is_lit(c, "--explain") {
        Some(Flag::Explain)
    } else {
        None
    }
}

fn name_of(f: Flag) -> (r: &'static str)
    ensures
        r@ == flag_name(f),
{
    match f {
        Flag::Dir => "--dir",
        Flag::Init => "--init",
        Flag::Out => "-o",
        Flag::Check => "--check",
        Flag::Recover => "--recover",
        Flag::Profile => "--profile",
        Flag::BlockSize => "--block-size",
        Flag::Jobs => "--jobs",
        Flag::Timeout => "--timeout",
        Flag::MaxStates => "--max-states",
        Flag::Exhaustive => "--exhaustive",
        Flag::Samples => "--samples",
        Flag::Seed => "--seed",
        Flag::Explain => "--explain",
    }
}

fn not_a_number(f: Flag, v: &str) -> (r: String)
    ensures
        r@ == flag_name(f) + ": `"@ + v@ + "` is not a valid number"@,
{
    let s = cat(name_of(f).to_owned(), ": `");
    let s = cat(s, v);
    cat(s, "` is not a valid number")
}

fn size_of(f: Flag, v: &str) -> (r: Result<usize, String>)
    ensures
        match r {
            Ok(n) => number_in(v@, 10, false, 0, usize::MAX as int) == Some(n as int),
            Err(e) => number_in(v@, 10, false, 0, usize::MAX as int) is None && e@ == flag_name(f)
                + ": `"@ + v@ + "` is not a valid number"@,
        },
{
    let c = chars_of(v);
    match parse_number(c.as_slice(), 10, false, 0, usize::MAX as i128) {
        Some(n) => Ok(n as usize),
        None => Err(not_a_number(f, v)),
    }
}

fn long_of(f: Flag, v: &str) -> (r: Result<u64, String>)
    ensures
        match r {
            Ok(n) => number_in(v@, 10, false, 0, u64::MAX as int) == Some(n as int),
            Err(e) => number_in(v@, 10, false, 0, u64::MAX as int) is None && e@ == flag_name(f)
                + ": `"@ + v@ + "` is not a valid number"@,
        },
{
    let c = chars_of(v);
    match parse_number(c.as_slice(), 10, false, 0, u64::MAX as i128) {
        Some(n) => Ok(n as u64),
        None => Err(not_a_number(f, v)),
    }
}

fn set_flag(a: &mut Args, f: Flag, v: &str) -> (r: Result<(), String>)
    ensures
        match r {
            Ok(_) => with_flag(old(a)@, f, v@) == Ok::<ArgsView, Seq<char>>(final(a)@),
            Err(e) => with_flag(old(a)@, f, v@) == Err::<ArgsView, Seq<char>>(e@),
        },
{
    match f {
        Flag::Dir => {
            a.dir = Some(v.to_owned());
        },
        Flag::Init => {
            a.init = Some(v.to_owned());
        },
        Flag::Out => {
            a.out = Some(v.to_owned());
        },
        Flag::Check => {
            a.check = Some(v.to_owned());
        },
        Flag::Recover => {
            a.recover = Some(v.to_owned());
        },
        Flag::Profile => match Profile::parse(v) {
            Ok(p) => {
                a.opts.profile = p;
            },
            Err(e) => {
                return Err(e);
            },
        },
        Flag::BlockSize => match long_of(f, v) {
            Ok(n) => {
                a.opts.block_size = n;
            },
            Err(e) => {
                return Err(e);
            },
        },
        Flag::Jobs => match size_of(f, v) {
            Ok(n) => {
                a.opts.jobs = n;
            },
            Err(e) => {
                return Err(e);
            },
        },
        Flag::Timeout => match long_of(f, v) {
            Ok(n) => {
                a.timeout = n;
            },
            Err(e) => {
                return Err(e);
            },
        },
        Flag::MaxStates => match size_of(f, v) {
            Ok(n) => {
                a.opts.max_states = n;
            },
            Err(e) => {
                return Err(e);
            },
        },
        Flag::Exhaustive => match size_of(f, v) {
            Ok(n) => {
                a.opts.search.exhaustive_limit = n;
            },
            Err(e) => {
                return Err(e);
            },
        },
        Flag::Samples => match size_of(f, v) {
            Ok(n) => {
                a.opts.search.samples = n;
            },
            Err(e) => {
                return Err(e);
            },
        },
        Flag::Seed => match long_of(f, v) {
            Ok(n) => {
                a.opts.search.seed = n;
            },
            Err(e) => {
                return Err(e);
            },
        },
        Flag::Explain => match size_of(f, v) {
            Ok(n) => {
                a.opts.explain = n;
            },
            Err(e) => {
                return Err(e);
            },
        },
    }
    Ok(())
}

fn unknown(what: &str, s: &str) -> (r: String)
    ensures
        r@ == what@ + s@ + "`\n\n"@ + USAGE@,
{
    let t = cat(what.to_owned(), s);
    let t = cat(t, "`\n\n");
    cat(t, USAGE)
}

/// Reads the arguments behind the command.
pub fn parse(words: &[String], opts: Options) -> (r: Result<Args, String>)
    ensures
        match r {
            Ok(a) => parsed(texts(words@), opts) == Ok::<ArgsView, Seq<char>>(a@),
            Err(e) => parsed(texts(words@), opts) == Err::<ArgsView, Seq<char>>(e@),
        },
{
    let ghost all = texts(words@);
    let n: usize = words.len();
    let mut end: usize = 0;
    while end < n && !same_str(words[end].as_str(), "--")
        invariant
            end <= n,
            n == words@.len(),
            all == texts(words@),
            options_end(all, 0) == options_end(all, end as int),
        decreases n - end,
    {
        assert(all[end as int] == words@[end as int]@);
        end += 1;
    }
    assert(end < n ==> all[end as int] == words@[end as int]@);
    assert(options_end(all, 0) == end);
    let ghost work = if end < n {
        all.skip(end + 1)
    } else {
        Seq::empty()
    };
    let mut workload: Vec<String> = Vec::new();
    if end < n {
        let mut k: usize = end + 1;
        assert(texts(workload@) =~= work.take(0));
        while k < n
            invariant
                end < k <= n,
                n == words@.len(),
                all == texts(words@),
                work == all.skip(end + 1),
                texts(workload@) == work.take(k - end - 1),
            decreases n - k,
        {
            let ghost before = texts(workload@);
            let s = words[k].clone();
            workload.push(s);
            assert(texts(workload@) =~= before.push(s@));
            assert(work.take(k - end) =~= work.take(k - end - 1).push(all[k as int]));
            k += 1;
        }
        assert(work.take(n - end - 1) =~= work);
    } else {
        assert(texts(workload@) =~= work);
    }
    let mut a = Args {
        positional: Vec::new(),
        workload,
        dir: None,
        init: None,
        out: None,
        check: None,
        recover: None,
        timeout: 30,
        json: false,
        opts,
    };
    assert(a@.positional =~= Seq::<Seq<char>>::empty());
    let ghost start = no_args(opts, work);
    assert(a@ == start);
    let mut i: usize = 0;
    while i < end
        invariant
            i <= end <= n,
            n == words@.len(),
            all == texts(words@),
            args_of(start, all, 0, end as int) == args_of(a@, all, i as int, end as int),
            parsed(all, opts) == args_of(start, all, 0, end as int),
        decreases end - i,
    {
        let w = words[i].as_str();
        assert(all[i as int] == w@);
        match find_flag(w) {
            Some(f) => {
                if i + 1 >= end {
                    return Err(cat(name_of(f).to_owned(), " needs a value"));
                }
                assert(all[i + 1] == words@[i + 1]@);
                if let Err(e) = set_flag(&mut a, f, words[i + 1].as_str()) {
                    return Err(e);
                }
                i += 2;
            },
            None => {
                let c = chars_of(w);
                if is_lit(c.as_slice(), "--json") {
                    a.json = true;
                } else if c.len() > 0 && c[0] == '-' {
                    return Err(unknown("unknown option `", w));
                } else {
                    let ghost before = a@;
                    let s = w.to_owned();
                    a.positional.push(s);
                    assert(a@.positional =~= before.positional.push(w@));
                    assert(a@ == (ArgsView {
                        positional: before.positional.push(w@),
                        ..before
                    }));
                }
                i += 1;
            },
        }
    }
    Ok(a)
}

/// What is asked for.
#[derive(Debug, PartialEq, Eq)]
pub enum Command {
    /// Nothing: say how the program is used.
    Usage,
    /// Record a workload and check it.
    Run { check: String },
    /// Record a workload.
    Record { out: String },
    /// Check a recorded workload.
    Check { bundle: String, check: String },
    /// List the operations of a recorded workload.
    Show { bundle: String },
    /// Say how the program is used.
    Help,
}

/// What is asked for, over mathematical values.
pub enum CommandView {
    Usage,
    Run { check: Seq<char> },
    Record { out: Seq<char> },
    Check { bundle: Seq<char>, check: Seq<char> },
    Show { bundle: Seq<char> },
    Help,
}

impl View for Command {
    type V = CommandView;

    open spec fn view(&self) -> CommandView {
        match *self {
            Command::Usage => CommandView::Usage,
            Command::Run { check } => CommandView::Run { check: check@ },
            Command::Record { out } => CommandView::Record { out: out@ },
            Command::Check { bundle, check } => CommandView::Check {
                bundle: bundle@,
                check: check@,
            },
            Command::Show { bundle } => CommandView::Show { bundle: bundle@ },
            Command::Help => CommandView::Help,
        }
    }
}

/// What a command asks for with its arguments, or what they lack.
pub open spec fn asked_by(cmd: Seq<char>, a: ArgsView) -> Result<CommandView, Seq<char>> {
    if cmd == "run"@ {
        match a.check {
            None => Err("`run` needs --check CMD"@),
            Some(check) => if a.workload.len() == 0 {
                Err("give the workload after `--`"@)
            } else {
                Ok(CommandView::Run { check })
            },
        }
    } else if cmd == "record"@ {
        match a.out {
            None => Err("`record` needs -o BUNDLE"@),
            Some(out) => if a.workload.len() == 0 {
                Err("give the workload after `--`"@)
            } else {
                Ok(CommandView::Record { out })
            },
        }
    } else if cmd == "check"@ {
        if a.positional.len() != 1 {
            Err("`check` needs one BUNDLE"@)
        } else {
            match a.check {
                None => Err("`check` needs --check CMD"@),
                Some(check) => Ok(CommandView::Check { bundle: a.positional[0], check }),
            }
        }
    } else if cmd == "show"@ {
        if a.positional.len() != 1 {
            Err("`show` needs one BUNDLE"@)
        } else {
            Ok(CommandView::Show { bundle: a.positional[0] })
        }
    } else if cmd == "help"@ || cmd == "-h"@ || cmd == "--help"@ {
        Ok(CommandView::Help)
    } else {
        Err("unknown command `"@ + cmd + "`\n\n"@ + USAGE@)
    }
}

/// What a command line asks for, with its arguments; or what is wrong with it.
pub open spec fn asked(words: Seq<Seq<char>>, opts: Options) -> Result<
    (CommandView, ArgsView),
    Seq<char>,
> {
    if words.len() == 0 {
        Ok((CommandView::Usage, no_args(opts, Seq::empty())))
    } else {
        match parsed(words.skip(1), opts) {
            Err(e) => Err(e),
            Ok(a) => match asked_by(words[0], a) {
                Err(e) => Err(e),
                Ok(c) => Ok((c, a)),
            },
        }
    }
}

fn copy_maybe(s: &Option<String>) -> (r: Option<String>)
    ensures
        maybe(r) == maybe(*s),
{
    match s {
        Some(t) => Some(t.clone()),
        None => None,
    }
}

fn command_of(cmd: &str, a: &Args) -> (r: Result<Command, String>)
    ensures
        match r {
            Ok(c) => asked_by(cmd@, a@) == Ok::<CommandView, Seq<char>>(c@),
            Err(e) => asked_by(cmd@, a@) == Err::<CommandView, Seq<char>>(e@),
        },
{
    let c = chars_of(cmd);
    let c = c.as_slice();
    let check = copy_maybe(&a.check);
    if is_lit(c, "run") {
        match check {
            None => Err("`run` needs --check CMD".to_owned()),
            Some(check) => if a.workload.len() == 0 {
                Err("give the workload after `--`".to_owned())
            } else {
                Ok(Command::Run { check })
            },
        }
    } else if is_lit(c, "record") {
        match copy_maybe(&a.out) {
            None => Err("`record` needs -o BUNDLE".to_owned()),
            Some(out) => if a.workload.len() == 0 {
                Err("give the workload after `--`".to_owned())
            } else {
                Ok(Command::Record { out })
            },
        }
    } else if is_lit(c, "check") {
        if a.positional.len() != 1 {
            Err("`check` needs one BUNDLE".to_owned())
        } else {
            match check {
                None => Err("`check` needs --check CMD".to_owned()),
                Some(check) => Ok(Command::Check { bundle: a.positional[0].clone(), check }),
            }
        }
    } else if is_lit(c, "show") {
        if a.positional.len() != 1 {
            Err("`show` needs one BUNDLE".to_owned())
        } else {
            Ok(Command::Show { bundle: a.positional[0].clone() })
        }
    } else if is_lit(c, "help") || is_lit(c, "-h") || is_lit(c, "--help") {
        Ok(Command::Help)
    } else {
        Err(unknown("unknown command `", cmd))
    }
}

/// Reads a command line.
pub fn read(words: &Vec<String>, opts: Options) -> (r: Result<(Command, Args), String>)
    ensures
        match r {
            Ok(x) => asked(texts(words@), opts) == Ok::<(CommandView, ArgsView), Seq<char>>(
                (x.0@, x.1@),
            ),
            Err(e) => asked(texts(words@), opts) == Err::<(CommandView, ArgsView), Seq<char>>(e@),
        },
{
    if words.len() == 0 {
        let a = Args {
            positional: Vec::new(),
            workload: Vec::new(),
            dir: None,
            init: None,
            out: None,
            check: None,
            recover: None,
            timeout: 30,
            json: false,
            opts,
        };
        assert(a@.positional =~= Seq::<Seq<char>>::empty());
        assert(a@.workload =~= Seq::<Seq<char>>::empty());
        return Ok((Command::Usage, a));
    }
    let rest = vstd::slice::slice_subrange(words.as_slice(), 1, words.len());
    assert(texts(rest@) =~= texts(words@).skip(1));
    match parse(rest, opts) {
        Err(e) => Err(e),
        Ok(a) => match command_of(words[0].as_str(), &a) {
            Err(e) => Err(e),
            Ok(c) => Ok((c, a)),
        },
    }
}

/// A command with the directory filled in.
pub open spec fn with_dir(cmd: Seq<char>, dir: Seq<char>) -> Seq<char> {
    replaced(cmd, "{dir}"@, dir)
}

/// Fills the directory into a command.
pub fn expand_dir(cmd: &str, dir: &str) -> (r: String)
    ensures
        r@ == with_dir(cmd@, dir@),
{
    let c = chars_of(cmd);
    let d = chars_of(dir);
    let pat = chars_of("{dir}");
    proof {
        reveal_strlit("{dir}");
    }
    text_of(replace(c.as_slice(), pat.as_slice(), d.as_slice()).as_slice())
}

/// Fills the directory and the file with the marks into a check command.
pub fn expand(cmd: &str, dir: &str, marks: &str) -> (r: String)
    ensures
        r@ == replaced(with_dir(cmd@, dir@), "{marks}"@, marks@),
{
    let first = expand_dir(cmd, dir);
    let c = chars_of(first.as_str());
    let m = chars_of(marks);
    let pat = chars_of("{marks}");
    proof {
        reveal_strlit("{marks}");
    }
    text_of(replace(c.as_slice(), pat.as_slice(), m.as_slice()).as_slice())
}

/// What to do next with a check command that was started.
#[derive(Debug, PartialEq, Eq)]
pub enum Step {
    /// It ended: nothing.
    Done,
    /// It is late: end it.
    Kill,
    /// Look again after this many milliseconds.
    Sleep { millis: u64 },
}

/// What to do next with a check command, given whether it ended, for how many
/// milliseconds it has been running, and for how many it may.
pub fn next_step(ended: bool, elapsed_ms: u64, limit_ms: u64) -> (r: Step)
    ensures
        r == (if ended {
            Step::Done
        } else if elapsed_ms > limit_ms {
            Step::Kill
        } else {
            (Step::Sleep { millis: 2 })
        }),
{
    if ended {
        Step::Done
    } else if elapsed_ms > limit_ms {
        Step::Kill
    } else {
        Step::Sleep { millis: 2 }
    }
}

/// How a check command ended.
#[derive(Debug, PartialEq, Eq)]
pub enum Ended {
    Well,
    /// With this status, after this output.
    Badly { status: String, output: String },
    /// It ran longer than this many seconds.
    Late { secs: u64 },
}

/// A check command ended with a status that is not success, after printing this.
pub fn ended_badly(status: String, output: &Vec<u8>) -> (r: Ended)
    ensures
        r matches Ended::Badly { status: s, output: o } && s@ == status@ && o@ == lossy_text(
            output@,
        ),
{
    Ended::Badly { status, output: lossy(output) }
}

/// What the end of a check command says of the state: nothing, or why it is
/// rejected.
pub fn judged(e: &Ended) -> (r: Result<(), String>)
    ensures
        match *e {
            Ended::Well => r is Ok,
            Ended::Badly { status, output } => r matches Err(m) && m@ == (if trim(
                output@,
            ).len() == 0 {
                "checker failed ("@ + status@ + ")"@
            } else {
                output@
            }),
            Ended::Late { secs } => r matches Err(m) && m@ == "checker timed out after "@
                + decimal(secs as nat) + "s"@,
        },
{
    match e {
        Ended::Well => Ok(()),
        Ended::Badly { status, output } => {
            let c = chars_of(output.as_str());
            if trimmed(c.as_slice()).len() == 0 {
                let s = cat("checker failed (".to_owned(), status.as_str());
                Err(cat(s, ")"))
            } else {
                Err(output.clone())
            }
        },
        Ended::Late { secs } => {
            let s = cat("checker timed out after ".to_owned(), decimal_of(*secs).as_str());
            Err(cat(s, "s"))
        },
    }
}

/// What a recovery command did, if it ended well.
pub fn repaired(cmd: &str, rec: Recording) -> (r: Result<Trace, String>)
    ensures
        match r {
            Ok(t) => rec.success && t == rec.trace,
            Err(e) => !rec.success && e@ == "`"@ + cmd@ + "` failed"@,
        },
{
    if rec.success {
        Ok(rec.trace)
    } else {
        let s = cat("`".to_owned(), cmd);
        Err(cat(s, "` failed"))
    }
}

/// A text with spaces behind it, up to a width.
pub open spec fn padded(s: Seq<char>, width: nat) -> Seq<char>
    decreases width,
{
    if s.len() >= width || width == 0 {
        s
    } else {
        padded(s, (width - 1) as nat).push(' ')
    }
}

/// The lines that list the first `n` operations.
pub open spec fn op_listing(ops: Seq<OpView>, n: int) -> Seq<char>
    decreases n,
{
    if n <= 0 {
        ""@
    } else {
        op_listing(ops, n - 1) + "#"@ + padded(decimal((n - 1) as nat), 5) + " "@ + described(
            ops[n - 1],
        ) + "\n"@
    }
}

/// How a recorded workload is listed.
pub open spec fn listing_of(t: TraceView) -> Seq<char> {
    "initial state: "@ + decimal(t.initial.dom().len()) + " entries\n"@ + op_listing(
        t.ops,
        t.ops.len() as int,
    )
}

fn pad(s: String, width: usize) -> (r: String)
    ensures
        r@ == padded(s@, width as nat),
    decreases width,
{
    let c = chars_of(s.as_str());
    if c.len() >= width || width == 0 {
        s
    } else {
        let mut t = pad(s, width - 1);
        t.push(' ');
        t
    }
}

/// Lists a recorded workload.
pub fn listing(t: &Trace) -> (r: String)
    requires
        all_end(t@.ops),
    ensures
        r@ == listing_of(t@),
{
    let mut s: String = "".to_owned();
    let mut i: usize = 0;
    while i < t.ops.len()
        invariant
            i <= t.ops@.len(),
            all_end(t@.ops),
            s@ == op_listing(t@.ops, i as int),
        decreases t.ops@.len() - i,
    {
        assert(op_ends(t@.ops[i as int]));
        assert(t@.ops[i as int] == t.ops@[i as int]@);
        s = cat(s, "#");
        s = cat(s, pad(decimal_of(i as u64), 5).as_str());
        s = cat(s, " ");
        s = cat(s, t.ops[i].describe().as_str());
        s = cat(s, "\n");
        i += 1;
    }
    let n: usize = t.initial.entries.len();
    proof {
        assert(t.initial.entries@.dom() =~= t@.initial.dom());
        lemma_ascending_len(t.initial.entries.names());
    }
    let head = cat("initial state: ".to_owned(), decimal_of(n as u64).as_str());
    let head = cat(head, " entries\n");
    cat(head, s.as_str())
}

} // verus!
