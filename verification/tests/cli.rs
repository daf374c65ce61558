use unsynced::cli::{
    ended_badly, expand, expand_dir, judged, listing, next_step, parse, read, repaired, Command, Ended, Step,
    USAGE,
};
use unsynced::strace::Recording;
use unsynced::{Entry, Op, Options, Profile, Trace, Tree};

fn words(s: &[&str]) -> Vec<String> {
    s.iter().map(|w| w.to_string()).collect()
}

fn refused(s: &[&str]) -> String {
    read(&words(s), Options::default()).unwrap_err()
}

#[test]
fn nothing_asked_is_a_question_for_the_usage() {
    let (c, a) = read(&words(&[]), Options::default()).unwrap();
    assert_eq!(c, Command::Usage);
    assert_eq!(a.timeout, 30);
    assert!(!a.json);
    for w in ["help", "-h", "--help"] {
        assert_eq!(read(&words(&[w]), Options::default()).unwrap().0, Command::Help);
    }
    assert!(USAGE.starts_with("unsynced - find crash-consistency bugs"));
    assert!(USAGE.ends_with("EXIT STATUS: 0 no bugs found, 1 bugs found, 2 error"));
    assert_eq!(USAGE.lines().count(), 30);
}

#[test]
fn every_option_is_read() {
    let line = words(&[
        "run", "--dir", "/d", "--init", "/i", "--out", "/o", "--check", "c {dir}", "--recover", "r",
        "--profile", "ext4", "--block-size", "512", "--jobs", "3", "--timeout", "7", "--max-states",
        "100", "--exhaustive", "5", "--samples", "6", "--seed", "9", "--explain", "2", "--json", "extra",
        "--", "sh", "-c", "--check",
    ]);
    let (c, a) = read(&line, Options::default()).unwrap();
    assert_eq!(c, Command::Run { check: "c {dir}".into() });
    assert_eq!(a.positional, words(&["extra"]));
    assert_eq!(a.workload, words(&["sh", "-c", "--check"]));
    assert_eq!(a.dir, Some("/d".into()));
    assert_eq!(a.init, Some("/i".into()));
    assert_eq!(a.out, Some("/o".into()));
    assert_eq!(a.recover, Some("r".into()));
    assert_eq!(a.timeout, 7);
    assert!(a.json);
    assert_eq!(a.opts.profile, Profile::Ext4Ordered);
    assert_eq!(a.opts.block_size, 512);
    assert_eq!(a.opts.jobs, 3);
    assert_eq!(a.opts.max_states, 100);
    assert_eq!(a.opts.search.exhaustive_limit, 5);
    assert_eq!(a.opts.search.samples, 6);
    assert_eq!(a.opts.search.seed, 9);
    assert_eq!(a.opts.explain, 2);
}

#[test]
fn commands_need_their_arguments() {
    let (c, _) = read(&words(&["record", "-o", "b", "--", "w"]), Options::default()).unwrap();
    assert_eq!(c, Command::Record { out: "b".into() });
    let (c, _) = read(&words(&["check", "b", "--check", "true"]), Options::default()).unwrap();
    assert_eq!(c, Command::Check { bundle: "b".into(), check: "true".into() });
    let (c, _) = read(&words(&["show", "b"]), Options::default()).unwrap();
    assert_eq!(c, Command::Show { bundle: "b".into() });
    assert_eq!(refused(&["run", "--", "w"]), "`run` needs --check CMD");
    assert_eq!(refused(&["run", "--check", "c"]), "give the workload after `--`");
    assert_eq!(refused(&["run", "--check", "c", "--"]), "give the workload after `--`");
    assert_eq!(refused(&["record", "--", "w"]), "`record` needs -o BUNDLE");
    assert_eq!(refused(&["record", "-o", "b"]), "give the workload after `--`");
    assert_eq!(refused(&["check", "--check", "c"]), "`check` needs one BUNDLE");
    assert_eq!(refused(&["check", "a", "b", "--check", "c"]), "`check` needs one BUNDLE");
    assert_eq!(refused(&["check", "a"]), "`check` needs --check CMD");
    assert_eq!(refused(&["show"]), "`show` needs one BUNDLE");
    assert_eq!(refused(&["frob"]), format!("unknown command `frob`\n\n{USAGE}"));
}

#[test]
fn bad_options_are_refused() {
    assert_eq!(refused(&["run", "--nope"]), format!("unknown option `--nope`\n\n{USAGE}"));
    assert_eq!(refused(&["run", "--dir"]), "--dir needs a value");
    assert_eq!(refused(&["run", "--out"]), "-o needs a value");
    assert_eq!(refused(&["run", "--jobs", "x"]), "--jobs: `x` is not a valid number");
    assert_eq!(refused(&["run", "--jobs", "-1"]), "--jobs: `-1` is not a valid number");
    assert_eq!(
        refused(&["run", "--seed", "18446744073709551616"]),
        "--seed: `18446744073709551616` is not a valid number"
    );
    assert_eq!(
        refused(&["run", "--profile", "zfs"]),
        "unknown profile `zfs` (expected `posix` or `ext4`)"
    );
    // What comes first is told first.
    assert_eq!(refused(&["frob", "--dir"]), "--dir needs a value");
    let a = parse(&words(&["--seed", "+18446744073709551615"]), Options::default()).unwrap();
    assert_eq!(a.opts.search.seed, u64::MAX);
}

#[test]
fn commands_are_expanded() {
    assert_eq!(expand_dir("ls {dir} {dir}/x", "/tmp/d"), "ls /tmp/d /tmp/d/x");
    assert_eq!(expand("CHECK {dir} {marks}", "/d", "/m"), "CHECK /d /m");
    assert_eq!(expand("a {dir", "/d", "/m"), "a {dir");
    // The directory is filled in first.
    assert_eq!(expand("{dir}", "{marks}", "/m"), "/m");
}

#[test]
fn the_end_of_a_checker_is_a_verdict() {
    assert_eq!(judged(&Ended::Well), Ok(()));
    let bad = |output: &str| Ended::Badly { status: "exit status: 1".into(), output: output.into() };
    assert_eq!(judged(&bad(" \n")), Err("checker failed (exit status: 1)".into()));
    assert_eq!(judged(&bad("lost row 3\n")), Err("lost row 3\n".into()));
    let e = ended_badly("exit status: 2".into(), &b"bad \xff".to_vec());
    assert_eq!(judged(&e), Err("bad \u{fffd}".into()));
    assert_eq!(judged(&Ended::Late { secs: 30 }), Err("checker timed out after 30s".into()));
}

#[test]
fn a_workload_is_listed() {
    let mut initial = Tree::default();
    initial.entries.insert("log".into(), Entry::File(Vec::new()));
    initial.entries.insert("d".into(), Entry::Dir);
    let t = Trace {
        initial,
        ops: vec![
            Op::Write { path: "log".into(), offset: 0, data: b"hello\n".to_vec() },
            Op::Write { path: "log".into(), offset: 6, data: b"more\n".to_vec() },
            Op::Sync,
            Op::Mark { text: "a \"b\"\n".into() },
            Op::Fsync { path: "".into() },
        ],
    };
    assert_eq!(
        listing(&t),
        "initial state: 2 entries\n\
         #0     write log [0..6)\n\
         #1     write log [6..11)\n\
         #2     sync\n\
         #3     mark \"a \\\"b\\\"\"\n\
         #4     fsync .\n"
    );
}

#[test]
fn a_recovery_that_ended_badly_is_none() {
    let rec = |success: bool| Recording { trace: Trace::default(), warnings: Vec::new(), success };
    assert_eq!(repaired("fix /d", rec(true)), Ok(Trace::default()));
    assert_eq!(repaired("fix /d", rec(false)), Err("`fix /d` failed".into()));
}

#[test]
fn a_late_checker_is_ended() {
    assert_eq!(next_step(true, 40, 30), Step::Done);
    assert_eq!(next_step(false, 31, 30), Step::Kill);
    assert_eq!(next_step(false, 30, 30), Step::Sleep { millis: 2 });
}
