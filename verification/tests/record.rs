use unsynced::record::{rel, Part};
use unsynced::{Op, Recorder, Trace, Tree};

fn name(s: &str) -> Part {
    Part::Normal(s.into())
}

#[test]
fn paths_stay_below_the_root() {
    assert_eq!(rel(&vec![name("a"), Part::CurDir, name("b")], "a/./b"), Ok("a/b".into()));
    assert_eq!(rel(&vec![], ""), Ok("".into()));
    assert_eq!(
        rel(&vec![name("a"), Part::Other], "a/.."),
        Err("a/..: paths must be relative to the recorder root".into())
    );
}

#[test]
fn what_is_done_is_logged() {
    let mut rec = Recorder::new(Tree::default());
    let mut f = rec.create("data.tmp", None);
    f.write(&mut rec, &b"hello".to_vec());
    f.write(&mut rec, &b"!".to_vec());
    f.sync_all(&mut rec);
    f.seek(1);
    f.write(&mut rec, &b"E".to_vec());
    f.sync_data(&mut rec);
    f.set_len(&mut rec, 3);
    rec.rename("data.tmp", "data");
    rec.create_dir("d");
    rec.remove_dir("d");
    rec.remove_file("data");
    rec.sync_dir("");
    rec.mark("saved");
    let t: Trace = rec.finish();
    let p = |s: &str| s.to_string();
    assert_eq!(
        t.ops,
        vec![
            Op::Create { path: p("data.tmp") },
            Op::Write { path: p("data.tmp"), offset: 0, data: b"hello".to_vec() },
            Op::Write { path: p("data.tmp"), offset: 5, data: b"!".to_vec() },
            Op::Fsync { path: p("data.tmp") },
            Op::Write { path: p("data.tmp"), offset: 1, data: b"E".to_vec() },
            Op::Fsync { path: p("data.tmp") },
            Op::Truncate { path: p("data.tmp"), len: 3 },
            Op::Rename { from: p("data.tmp"), to: p("data") },
            Op::Mkdir { path: p("d") },
            Op::Rmdir { path: p("d") },
            Op::Unlink { path: p("data") },
            Op::Fsync { path: p("") },
            Op::Mark { text: p("saved") },
        ]
    );
}

#[test]
fn creating_truncates_what_is_there() {
    let mut rec = Recorder::new(Tree::default());
    rec.create("empty", Some(0));
    rec.create("full", Some(9));
    assert_eq!(rec.finish().ops, vec![Op::Truncate { path: "full".into(), len: 0 }]);
}

#[test]
fn appending_goes_to_the_end() {
    let mut rec = Recorder::new(Tree::default());
    let mut f = rec.append("log", true);
    f.opened_at_end(4);
    f.seek(0);
    assert_eq!(f.offset(), 4);
    f.write(&mut rec, &b"ab".to_vec());
    f.write(&mut rec, &b"c".to_vec());
    let mut g = rec.append("new", false);
    g.write(&mut rec, &b"x".to_vec());
    let mut h = rec.open("old", 8);
    h.write(&mut rec, &b"y".to_vec());
    assert_eq!(h.offset(), 1);
    let p = |s: &str| s.to_string();
    assert_eq!(
        rec.finish().ops,
        vec![
            Op::Write { path: p("log"), offset: 4, data: b"ab".to_vec() },
            Op::Write { path: p("log"), offset: 6, data: b"c".to_vec() },
            Op::Create { path: p("new") },
            Op::Write { path: p("new"), offset: 0, data: b"x".to_vec() },
            Op::Write { path: p("old"), offset: 0, data: b"y".to_vec() },
        ]
    );
}
