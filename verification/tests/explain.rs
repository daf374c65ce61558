use unsynced::explain::{explain, lost_ops};
use unsynced::program::compile;
use unsynced::{check, Crash, Entry, Kind, Op, Options, Profile, Report, Trace, Tree, Vulnerability};

fn text(t: &Tree, p: &str) -> String {
    match t.entries.get(p) {
        Some(Entry::File(d)) => String::from_utf8_lossy(d).into_owned(),
        Some(Entry::Dir) => "<dir>".into(),
        None => "<none>".into(),
    }
}

fn trace(files: &[(&str, &str)], ops: Vec<Op>) -> Trace {
    let mut initial = Tree::default();
    for (path, data) in files {
        initial.entries.insert(path.to_string(), Entry::File(data.as_bytes().to_vec()));
    }
    Trace { initial, ops }
}

fn create(path: &str) -> Op {
    Op::Create { path: path.into() }
}

fn write(path: &str, data: &str) -> Op {
    Op::Write { path: path.into(), offset: 0, data: data.as_bytes().to_vec() }
}

fn rename(from: &str, to: &str) -> Op {
    Op::Rename { from: from.into(), to: to.into() }
}

fn mark(text: &str) -> Op {
    Op::Mark { text: text.into() }
}

fn run(t: &Trace, checker: impl Fn(&Crash) -> Result<(), String>) -> Report {
    check(t, &Options { block_size: 2, ..Options::default() }, checker).unwrap()
}

fn only(r: &Report) -> &Vulnerability {
    assert_eq!(r.vulnerabilities.len(), 1, "{}", r.render());
    &r.vulnerabilities[0]
}

#[test]
fn a_checker_that_rejects_everything_is_wrong() {
    let r = run(&trace(&[], vec![create("a")]), |_| Err("no".into()));
    assert_eq!(r.states, 2);
    assert_eq!(r.failures, 2);
    let v = &r.vulnerabilities[0];
    assert_eq!(v.kind, Kind::NonAtomic);
    assert_eq!(v.crash_point, 0);
    assert_eq!(v.crash_after, None);
    assert_eq!(v.message, "no");
    assert_eq!(
        v.hint,
        "the checker rejects the initial state, before any operation ran: \
         the checker (or the initial directory) is wrong"
    );
    assert!(!r.is_clean());
}

#[test]
fn an_update_in_place_is_not_atomic() {
    let t = trace(
        &[("f", "old")],
        vec![Op::Truncate { path: "f".into(), len: 0 }, Op::Sync, write("f", "n"), Op::Sync],
    );
    let r = run(&t, |c| match text(c.tree, "f").as_str() {
        "" => Err("empty".into()),
        _ => Ok(()),
    });
    let v = only(&r);
    assert_eq!(v.kind, Kind::NonAtomic);
    assert_eq!(v.crash_point, 1);
    assert_eq!(v.lost, Vec::new());
    assert_eq!(v.files, Vec::<String>::new());
    assert_eq!(
        v.hint,
        "the state right after `truncate f to 0` is rejected even with every operation persisted, so \
         this update is not atomic: build the new state in a temp file, fsync it, and rename it into place"
    );
}

#[test]
fn a_write_over_several_blocks_can_tear() {
    let r = run(&trace(&[("f", "0000")], vec![write("f", "abcd")]), |c| {
        match text(c.tree, "f").as_str() {
            "0000" | "abcd" => Ok(()),
            other => Err(format!("torn: {other}")),
        }
    });
    assert_eq!(r.states, 4);
    assert_eq!(r.failures, 2);
    let v = only(&r);
    assert_eq!(v.kind, Kind::TornWrite);
    assert_eq!(v.occurrences, 2);
    assert_eq!(v.files, vec!["f".to_string()]);
    assert_eq!(
        v.hint,
        "`write f [0..4)` spans several blocks and a crash can persist only some of them; \
         detect torn records with a checksum, or write a temp file, fsync it, and rename it into place"
    );
}

#[test]
fn a_later_write_can_overtake_an_earlier_one() {
    let t = trace(&[("a", "0"), ("b", "0")], vec![write("a", "1"), write("b", "1")]);
    let r = run(&t, |c| {
        if text(c.tree, "b") == "1" && text(c.tree, "a") == "0" { Err("b before a".into()) } else { Ok(()) }
    });
    let v = only(&r);
    assert_eq!(v.kind, Kind::Reordering);
    assert_eq!(v.lost[0].op, "write a [0..1)");
    assert_eq!(v.survived[0].op, "write b [0..1)");
    assert_eq!(
        v.hint,
        "`write a [0..1)` can reach disk after later writes; fsync `a` before anything that depends on it"
    );
}

#[test]
fn a_lost_entry_wants_its_directory_synced() {
    let r = run(&trace(&[], vec![create("a"), create("b")]), |c| {
        if text(c.tree, "b") != "<none>" && text(c.tree, "a") == "<none>" {
            Err("b without a".into())
        } else {
            Ok(())
        }
    });
    let v = only(&r);
    assert_eq!(v.kind, Kind::Reordering);
    assert_eq!(v.hint, "fsync the directory `.` after `create a` to make the entry durable");
}

#[test]
fn a_lost_rename_wants_its_directory_synced() {
    let r = run(&trace(&[("a", "x")], vec![rename("a", "c"), create("b")]), |c| {
        if text(c.tree, "b") != "<none>" && text(c.tree, "c") == "<none>" {
            Err("b without c".into())
        } else {
            Ok(())
        }
    });
    let v = only(&r);
    assert_eq!(v.kind, Kind::Reordering);
    assert_eq!(v.hint, "fsync the directory `.` after `rename a -> c`; until then the rename can be undone");
}

#[test]
fn what_was_acknowledged_must_be_durable() {
    let t = trace(&[("a", "0")], vec![write("a", "1"), mark(" done\n")]);
    let r = run(&t, |c| {
        if !c.marks.is_empty() && text(c.tree, "a") == "0" { Err("lost".into()) } else { Ok(()) }
    });
    let v = only(&r);
    assert_eq!(v.kind, Kind::Unsynced);
    assert_eq!(v.crash_point, 2);
    assert_eq!(v.survived, Vec::new());
    assert_eq!(v.hint, "fsync `a` after `write a [0..1)` and before acknowledging (\"done\")");
    // With the sync in place nothing is found.
    let t = trace(
        &[("a", "0")],
        vec![write("a", "1"), Op::Fsync { path: "a".into() }, mark(" done\n")],
    );
    assert!(run(&t, |c| {
        if !c.marks.is_empty() && text(c.tree, "a") == "0" { Err("lost".into()) } else { Ok(()) }
    })
    .is_clean());
}

#[test]
fn a_single_state_is_explained() {
    let t = trace(&[("a", "0"), ("b", "0")], vec![write("a", "1"), write("b", "1"), Op::Fsync { path: "b".into() }]);
    let p = compile(&t, Profile::Posix, 4096).unwrap();
    assert_eq!(p.micro.len(), 2);
    // What persisted by a barrier does not count as overtaking.
    let v = explain(&p, &t.ops, 3, &vec![false, true], "m".into(), false);
    assert_eq!(lost_ops(&p, &vec![false, true]), vec![0]);
    assert_eq!(v.kind, Kind::Unsynced);
    assert_eq!(v.hint, "fsync `a` after `write a [0..1)`");
    assert_eq!(v.crash_after.unwrap().op, "fsync b");
    // Before the barrier it does.
    let v = explain(&p, &t.ops, 2, &vec![false, true], "m".into(), false);
    assert_eq!(v.kind, Kind::Reordering);
    // Nothing was lost.
    let v = explain(&p, &t.ops, 2, &vec![true, true], "m".into(), true);
    assert_eq!(v.kind, Kind::NonAtomic);
    assert_eq!(v.occurrences, 1);
    assert_eq!(v.in_recovery, None);
}

#[test]
fn failures_beyond_the_limit_are_counted_but_not_explained() {
    let t = trace(&[("a", "0"), ("b", "0")], vec![write("a", "1"), write("b", "1")]);
    let opts = Options { explain: 0, ..Options::default() };
    let r = check(&t, &opts, |_| Err("no".into())).unwrap();
    assert_eq!(r.failures, 4);
    assert_eq!(r.vulnerabilities.len(), 0);
}

#[test]
fn the_limit_on_states_is_kept_and_told() {
    let t = trace(&[("a", "0"), ("b", "0")], vec![write("a", "1"), write("b", "1")]);
    let r = check(&t, &Options { max_states: 3, ..Options::default() }, |_| Ok(())).unwrap();
    assert_eq!(r.states, 3);
    assert!(r.truncated);
    assert!(r.is_clean());
    assert_eq!(
        r.render(),
        "2 ops, 3 crash points, 3 unique crash states checked (posix model) [TRUNCATED: raise --max-states]\n\
         OK: the checker accepted every crash state\n"
    );
    let r = check(&t, &Options { max_states: 4, ..Options::default() }, |_| Ok(())).unwrap();
    assert_eq!(r.states, 4);
    assert!(!r.truncated);
}

#[test]
fn a_long_complaint_is_cut_to_its_last_lines() {
    let t = trace(&[], vec![create("a")]);
    let r = run(&t, |c| match text(c.tree, "a").as_str() {
        "<none>" => Ok(()),
        _ => Err("one\ntwo\nthree\nfour\n".into()),
    });
    let shown = r.render();
    assert!(
        shown.contains("  checker said  two\n                three\n                four\n"),
        "{shown}"
    );
}
