use unsynced::model::Fs;
use unsynced::program::{compile, NEVER};
use unsynced::{Entry, Op, Profile, Trace, Tree};

fn tree(files: &[(&str, &str)]) -> Tree {
    let mut t = Tree::default();
    for (p, d) in files {
        let e = if d.ends_with('/') { Entry::Dir } else { Entry::File(d.as_bytes().to_vec()) };
        t.entries.insert(p.to_string(), e);
    }
    t
}

#[test]
fn volatile_replay_matches_ops() {
    let trace = Trace {
        initial: tree(&[("d", "/"), ("d/old", "hello")]),
        ops: vec![
            Op::Create { path: "d/new".into() },
            Op::Write { path: "d/new".into(), offset: 0, data: b"abcdefghij".to_vec() },
            Op::Rename { from: "d/new".into(), to: "d/old".into() },
            Op::Truncate { path: "d/old".into(), len: 4 },
        ],
    };
    let p = compile(&trace, Profile::Posix, 4).unwrap();
    // 10 bytes over 4-byte blocks = 3 chunks + a size extension.
    assert_eq!(p.op_end, vec![0, 1, 5, 6, 7]);
    let mut fs = p.base.clone();
    p.micro.iter().for_each(|m| fs.apply(&m.m));
    assert_eq!(fs.to_tree(), tree(&[("d", "/"), ("d/old", "abcd")]));
}

#[test]
fn size_without_data_reads_zeros() {
    let trace = Trace {
        initial: tree(&[("f", "")]),
        ops: vec![Op::Write { path: "f".into(), offset: 0, data: b"xy".to_vec() }],
    };
    let p = compile(&trace, Profile::Posix, 4096).unwrap();
    let mut fs = p.base.clone();
    fs.apply(&p.micro[1].m); // SetLen only
    assert_eq!(fs.to_tree(), tree(&[("f", "\0\0")]));
}

#[test]
fn fsync_file_does_not_cover_its_dir_entry_on_posix() {
    let trace = Trace {
        initial: Tree::default(),
        ops: vec![
            Op::Create { path: "f".into() },
            Op::Write { path: "f".into(), offset: 0, data: b"x".to_vec() },
            Op::Fsync { path: "f".into() },
        ],
    };
    let posix = compile(&trace, Profile::Posix, 4096).unwrap();
    let d: Vec<_> = posix.micro.iter().map(|m| m.durable_at).collect();
    assert_eq!(d, vec![NEVER, 2, 2]);
    let ext4 = compile(&trace, Profile::Ext4Ordered, 4096).unwrap();
    let d: Vec<_> = ext4.micro.iter().map(|m| m.durable_at).collect();
    assert_eq!(d, vec![2, 2, 2]);
}

fn failure(ops: Vec<Op>) -> String {
    let trace = Trace { initial: tree(&[("d", "/"), ("f", "x")]), ops };
    compile(&trace, Profile::Posix, 4096).unwrap_err().message()
}

#[test]
fn ops_that_cannot_apply_are_reported_with_their_index() {
    assert_eq!(
        failure(vec![Op::Sync, Op::Create { path: "no/file".into() }]),
        "trace op #1 (create no/file: parent directory does not exist)"
    );
    assert_eq!(
        failure(vec![Op::Write { path: "g".into(), offset: 1, data: b"ab".to_vec() }]),
        "trace op #0 (write g [1..3): no such file)"
    );
    assert_eq!(
        failure(vec![Op::Truncate { path: "d".into(), len: 3 }]),
        "trace op #0 (truncate d to 3: is a directory)"
    );
    assert_eq!(
        failure(vec![Op::Rename { from: "d".into(), to: "d/e".into() }]),
        "trace op #0 (rename d -> d/e: cannot move a directory into itself)"
    );
    assert_eq!(
        failure(vec![Op::Rename { from: "f".into(), to: "x/y".into() }]),
        "trace op #0 (rename f -> x/y: target directory does not exist)"
    );
    assert_eq!(failure(vec![Op::Unlink { path: "q".into() }]), "trace op #0 (unlink q: no such file)");
    assert_eq!(failure(vec![Op::Fsync { path: "q".into() }]), "trace op #0 (fsync q: no such file)");
}

#[test]
fn a_block_size_of_zero_counts_as_one() {
    let trace = Trace {
        initial: tree(&[("f", "")]),
        ops: vec![Op::Write { path: "f".into(), offset: 2, data: b"abc".to_vec() }],
    };
    let p = compile(&trace, Profile::Posix, 0).unwrap();
    assert_eq!(p.op_end, vec![0, 4]);
}

#[test]
fn renaming_a_file_onto_itself_does_nothing() {
    let trace = Trace {
        initial: tree(&[("f", "x")]),
        ops: vec![
            Op::Rename { from: "f".into(), to: "f".into() },
            Op::Rename { from: "f".into(), to: "./f".into() },
        ],
    };
    assert!(compile(&trace, Profile::Posix, 4096).is_err());
    let trace = Trace {
        initial: tree(&[("f", "x")]),
        ops: vec![Op::Rename { from: "f".into(), to: "f".into() }, Op::Create { path: "f".into() }],
    };
    let p = compile(&trace, Profile::Posix, 4096).unwrap();
    assert_eq!(p.op_end, vec![0, 0, 0]);
}

#[test]
fn a_snapshot_survives_the_way_through_an_image() {
    let t = tree(&[("a", "/"), ("a/b", "/"), ("a/b/f", "1"), ("a/c", "22"), ("z", "")]);
    assert_eq!(Fs::from_tree(&t).to_tree(), t);
}

#[test]
fn a_snapshot_without_a_parent_has_no_image() {
    assert!(Fs::try_from_tree(&tree(&[("a/f", "1")])).is_none());
    assert!(Fs::try_from_tree(&tree(&[("a", "1"), ("a/f", "1")])).is_none());
    assert!(Fs::try_from_tree(&tree(&[("a", "/"), ("a/f", "1")])).is_some());
}

#[test]
fn paths_lead_to_inodes() {
    let fs = Fs::from_tree(&tree(&[("a", "/"), ("a/f", "123")]));
    assert_eq!(fs.lookup(""), Some(0));
    assert_eq!(fs.lookup("a"), Some(1));
    assert_eq!(fs.lookup("//a///f"), Some(2));
    assert_eq!(fs.lookup("a/f/g"), None);
    assert_eq!(fs.file_len(2), Some(3));
    assert_eq!(fs.file_len(1), None);
}

#[test]
fn a_sync_makes_everything_before_it_durable() {
    let trace = Trace {
        initial: Tree::default(),
        ops: vec![
            Op::Mkdir { path: "d".into() },
            Op::Create { path: "d/f".into() },
            Op::Write { path: "d/f".into(), offset: 0, data: b"x".to_vec() },
            Op::Sync,
            Op::Write { path: "d/f".into(), offset: 1, data: b"y".to_vec() },
        ],
    };
    let p = compile(&trace, Profile::Posix, 4096).unwrap();
    let d: Vec<_> = p.micro.iter().map(|m| m.durable_at).collect();
    assert_eq!(d, vec![3, 3, 3, 3, NEVER, NEVER]);
}

#[test]
fn a_rename_is_durable_once_the_target_directory_is_synced() {
    let trace = Trace {
        initial: tree(&[("a", "/"), ("b", "/"), ("a/f", "1")]),
        ops: vec![
            Op::Rename { from: "a/f".into(), to: "b/f".into() },
            Op::Fsync { path: "a".into() },
            Op::Fsync { path: "b/f".into() },
            Op::Fsync { path: "b".into() },
        ],
    };
    let p = compile(&trace, Profile::Posix, 4096).unwrap();
    assert_eq!(p.micro.len(), 1);
    assert_eq!(p.micro[0].durable_at, 3);
}

#[test]
fn profiles_are_read_by_name() {
    assert_eq!(Profile::parse("posix"), Ok(Profile::Posix));
    assert_eq!(Profile::parse("ext4"), Ok(Profile::Ext4Ordered));
    assert_eq!(Profile::parse("ext4-ordered"), Ok(Profile::Ext4Ordered));
    assert_eq!(
        Profile::parse("xfs"),
        Err("unknown profile `xfs` (expected `posix` or `ext4`)".to_string())
    );
    assert_eq!(Profile::default(), Profile::Posix);
    assert_eq!("ext4".parse::<Profile>(), Ok(Profile::Ext4Ordered));
}
