use unsynced::bundle::{op_lines, trace_text};
use unsynced::hex::{deserialize, serialize};
use unsynced::trace::{Found, What};
use unsynced::{Entry, Error, Op, Trace, Tree};

#[test]
fn bytes_become_digits_and_come_back() {
    assert_eq!(serialize(&[0, 255, 16]), "00ff10");
    assert_eq!(deserialize("00ff10"), Ok(vec![0, 255, 16]));
    assert_eq!(deserialize("00FF1a"), Ok(vec![0, 255, 26]));
    assert_eq!(deserialize(""), Ok(Vec::new()));
    let all: Vec<u8> = (0..=255).collect();
    assert_eq!(deserialize(&serialize(&all)), Ok(all));
}

#[test]
fn digits_that_are_none_are_refused() {
    assert_eq!(deserialize("abc"), Err("odd-length hex string".into()));
    assert_eq!(deserialize("0g"), Err("invalid digit found in string".into()));
    assert_eq!(deserialize("-1"), Err("invalid digit found in string".into()));
    assert_eq!(deserialize("+1"), Ok(vec![1]));
}

#[test]
fn lines_are_written_and_read_back() {
    let ops: Vec<String> = vec!["{\"op\":\"sync\"}".into(), "{\"op\":\"mark\",\"text\":\"x\"}".into()];
    let text = trace_text(&ops);
    assert_eq!(text, "{\"op\":\"sync\"}\n{\"op\":\"mark\",\"text\":\"x\"}\n");
    assert_eq!(op_lines(&text), vec![(1, ops[0].clone()), (2, ops[1].clone())]);
    assert_eq!(trace_text(&Vec::new()), "");
    assert_eq!(op_lines(""), Vec::new());
}

#[test]
fn blank_lines_are_skipped_but_counted() {
    assert_eq!(
        op_lines("\na\r\n \t\nb"),
        vec![(2, "a".to_string()), (4, "b".to_string())]
    );
}

#[test]
fn a_bad_line_is_told_with_its_number() {
    let ok = Trace::load(Tree::default(), vec![(1, Ok(Op::Sync)), (3, Ok(Op::Mark { text: "m".into() }))]);
    assert_eq!(
        ok,
        Ok(Trace { initial: Tree::default(), ops: vec![Op::Sync, Op::Mark { text: "m".into() }] })
    );
    let bad = Trace::load(
        Tree::default(),
        vec![(1, Ok(Op::Sync)), (4, Err("expected value".into())), (5, Err("later".into()))],
    );
    assert_eq!(bad, Err(Error::Trace("trace.jsonl line 4: expected value".into())));
}

#[test]
fn a_snapshot_holds_files_and_directories() {
    let found = |prefix: &str, name: &str, what: What| Found {
        prefix: prefix.into(),
        name: name.into(),
        what,
    };
    assert_eq!(found("", "d", What::Dir).path(), "d");
    assert_eq!(found("d/e", "f", What::Other).path(), "d/e/f");
    let t = Tree::load(&vec![
        found("", "d", What::Dir),
        found("d", "f", What::File(b"x".to_vec())),
        found("", "link", What::Other),
    ]);
    assert_eq!(t.entries.len(), 2);
    assert_eq!(t.entries.get("d"), Some(&Entry::Dir));
    assert_eq!(t.entries.get("d/f"), Some(&Entry::File(b"x".to_vec())));
    assert_eq!(t.entries.get("link"), None);
    assert_eq!(t.entries.name_at(0), "d");
    assert_eq!(t.entries.name_at(1), "d/f");
}

#[test]
fn errors_say_what_is_wrong() {
    assert_eq!(Error::Io("disk full".into()).message(), "disk full");
    assert_eq!(Error::Trace("bad".into()).message(), "bad");
    assert_eq!(Error::Strace("no strace".into()).message(), "no strace");
    assert_eq!(
        Error::Model { op: 3, msg: "write f: no such file".into() }.message(),
        "trace op #3 (write f: no such file)"
    );
}

#[test]
fn ops_are_described() {
    let p = |s: &str| s.to_string();
    let all = [
        (Op::Create { path: p("a") }, "create a", Some("a")),
        (Op::Mkdir { path: p("d") }, "mkdir d", Some("d")),
        (Op::Write { path: p("a"), offset: 7, data: vec![0; 3] }, "write a [7..10)", Some("a")),
        (Op::Truncate { path: p("a"), len: 4 }, "truncate a to 4", Some("a")),
        (Op::Rename { from: p("a"), to: p("b") }, "rename a -> b", Some("a")),
        (Op::Unlink { path: p("b") }, "unlink b", Some("b")),
        (Op::Rmdir { path: p("d") }, "rmdir d", Some("d")),
        (Op::Fsync { path: p("") }, "fsync .", Some("")),
        (Op::Sync, "sync", None),
        (Op::Mark { text: p("ok \n") }, "mark \"ok\"", None),
    ];
    for (op, said, path) in all {
        assert_eq!(op.describe(), said);
        assert_eq!(op.path(), path);
        assert_eq!(op.clone(), op);
    }
}
