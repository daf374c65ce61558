use unsynced::strace::{
    no_log, normalize, not_run, parse, parse_bytes, slash, tracer_options, State, MAX_WRITE,
};
use unsynced::syscall::{fd_arg, parse_call, strings, unescape};
use unsynced::{Entry, Error, Op, Tree};

fn run(log: &str) -> (Vec<Op>, Vec<String>) {
    let mut initial = Tree::default();
    initial.entries.insert("old".into(), Entry::File(b"12345".to_vec()));
    parse(log, "/r", "/r", &initial).unwrap()
}

#[test]
fn parses_calls_with_tricky_strings() {
    let c = parse_call(r#"write(3</r/a,b (x)>, "\x29\x2c\x22", 3) = 3"#).unwrap();
    assert_eq!(c.args, vec!["3</r/a,b (x)>", r#""\x29\x2c\x22""#, "3"]);
    assert_eq!(strings(&c.args[1])[0].0, b"),\"");
    assert_eq!(fd_arg(&c.args[0]).1.unwrap(), "/r/a,b (x)");
    let c = parse_call(r#"openat(AT_FDCWD</r>, "\x6e", O_WRONLY|O_CREAT, 0644) = 3</r/n>"#).unwrap();
    assert_eq!((c.ret, c.ret_path.as_deref()), (Some(3), Some("/r/n")));
    let c = parse_call("unlink(\"/nope\") = -1 ENOENT (No such file or directory)").unwrap();
    assert_eq!(c.ret, Some(-1));
}

#[test]
fn reconstructs_offsets_appends_dups_and_marks() {
    let log = r#"100 openat(AT_FDCWD</r>, "\x74\x6d\x70", O_WRONLY|O_CREAT|O_TRUNC|O_CLOEXEC, 0666) = 3</r/tmp>
100 write(3</r/tmp>, "\x61\x62", 2) = 2
100 dup(3</r/tmp>) = 4</r/tmp>
100 write(4</r/tmp>, "\x63", 1 <unfinished ...>
100 <... write resumed>) = 1
100 fsync(3</r/tmp>) = 0
100 rename("\x2f\x72\x2f\x74\x6d\x70", "\x2f\x72\x2f\x6f\x6c\x64") = 0
100 openat(AT_FDCWD</r>, "\x6f\x6c\x64", O_WRONLY|O_APPEND) = 5</r/old>
100 write(5</r/old>, "\x7a", 1) = 1
100 pwrite64(5</r/old>, "\x51", 1, 0) = 1
100 write(1</dev/pts/0>, "\x6f\x6b\x0a", 3) = 3
100 +++ exited with 0 +++
"#;
    let (ops, warnings) = run(log);
    assert!(warnings.is_empty(), "{warnings:?}");
    let w = |p: &str, offset, d: &[u8]| Op::Write { path: p.into(), offset, data: d.to_vec() };
    assert_eq!(
        ops,
        vec![
            Op::Create { path: "tmp".into() },
            w("tmp", 0, b"ab"),
            w("tmp", 2, b"c"), // dup shares the offset
            Op::Fsync { path: "tmp".into() },
            Op::Rename { from: "tmp".into(), to: "old".into() },
            w("old", 3, b"z"), // O_APPEND lands at the (replaced) file's end
            w("old", 0, b"Q"),
            Op::Mark { text: "ok\n".into() },
        ]
    );
}

#[test]
fn pwritev2_offset_minus_one_uses_and_advances_file_offset() {
    let log = r#"1 openat(AT_FDCWD</r>, "\x6e", O_WRONLY|O_CREAT, 0600) = 3</r/n>
1 pwritev2(3</r/n>, [{iov_base="\x61\x62", iov_len=2}], 1, -1, 0) = 2
1 pwritev2(3</r/n>, [{iov_base="\x63", iov_len=1}], 1, -1, 0) = 1
"#;
    let (ops, warnings) = run(log);
    assert!(warnings.is_empty(), "{warnings:?}");
    assert_eq!(
        ops,
        vec![
            Op::Create { path: "n".into() },
            Op::Write { path: "n".into(), offset: 0, data: b"ab".to_vec() },
            Op::Write { path: "n".into(), offset: 2, data: b"c".to_vec() },
        ]
    );
}

#[test]
fn pwritev2_offset_minus_one_honors_append() {
    let log = r#"1 openat(AT_FDCWD</r>, "\x6f\x6c\x64", O_WRONLY|O_APPEND) = 3</r/old>
1 pwritev2(3</r/old>, [{iov_base="\x61", iov_len=1}], 1, -1, 0) = 1
"#;
    let (ops, warnings) = run(log);
    assert!(warnings.is_empty(), "{warnings:?}");
    assert_eq!(ops, vec![Op::Write { path: "old".into(), offset: 5, data: b"a".to_vec() }]);
}

#[test]
fn pwritev2_rejects_other_invalid_offsets() {
    let log = r#"1 openat(AT_FDCWD</r>, "\x6f\x6c\x64", O_WRONLY) = 3</r/old>
1 pwritev2(3</r/old>, [{iov_base="\x61", iov_len=1}], 1, -2, 0) = 1
"#;
    let error = parse(log, "/r", "/r", &Tree::default()).unwrap_err();
    assert!(error.message().contains("bad offset `-2`"), "{error:?}");
}

#[test]
fn forked_child_shares_offsets_and_threads_share_tables() {
    let log = r#"1 openat(AT_FDCWD</r>, "\x6f\x6c\x64", O_WRONLY) = 3</r/old>
1 clone(child_stack=NULL, flags=CLONE_CHILD_CLEARTID|SIGCHLD) = 2
2 write(3</r/old>, "\x41", 1) = 1
1 write(3</r/old>, "\x42", 1) = 1
1 clone(child_stack=0x1, flags=CLONE_VM|CLONE_FILES|CLONE_THREAD) = 3
3 openat(AT_FDCWD</r>, "\x6e", O_WRONLY|O_CREAT, 0600) = 7</r/n>
1 write(7</r/n>, "\x43", 1) = 1
"#;
    let (ops, _) = run(log);
    let offsets: Vec<u64> = ops
        .iter()
        .filter_map(|o| if let Op::Write { offset, .. } = o { Some(*offset) } else { None })
        .collect();
    assert_eq!(offsets, vec![0, 1, 0]);
}

#[test]
fn escapes_are_decoded() {
    assert_eq!(unescape(r"a\n\t\r\v\f\a\b\\\q"), b"a\n\t\r\x0b\x0c\x07\x08\\q");
    assert_eq!(unescape(r"\x41\x+f\xzz\0\12\101\777\x4"), b"A\x0fx\0\nA\xffx");
    assert_eq!(unescape("trailing\\"), b"trailing\\");
}

#[test]
fn bytes_that_are_no_text_are_replaced() {
    let log = r#"1 write(1</dev/pts/0>, "\x61\xff", 2) = 2
"#;
    assert_eq!(run(log).0, vec![Op::Mark { text: "a\u{fffd}".into() }]);
}

#[test]
fn cut_and_missing_data_are_errors() {
    let log = r#"7 write(3</r/n>, "\x61"..., 2) = 2"#;
    assert_eq!(
        parse(log, "/r", "/r", &Tree::default()).unwrap_err().message(),
        format!(
            "strace log line 1: a write was truncated by strace (limit {MAX_WRITE} bytes)\n  {log}"
        )
    );
    let log = "\n7 write(3</r/n>, \"\\x61\", 2) = 2";
    assert_eq!(
        parse(log, "/r", "/r", &Tree::default()).unwrap_err().message(),
        "strace log line 2: write: captured 1 of 2 bytes\n  7 write(3</r/n>, \"\\x61\", 2) = 2"
    );
    let log = "7 ftruncate(3</r/n>, x) = 0";
    assert_eq!(
        parse(log, "/r", "/r", &Tree::default()).unwrap_err().message(),
        "strace log line 1: bad length `x`\n  7 ftruncate(3</r/n>, x) = 0"
    );
}

#[test]
fn what_is_not_modeled_is_warned_about_once() {
    let log = r#"1 link("\x2f\x72\x2f\x61", "\x2f\x72\x2f\x62") = 0
1 link("\x2f\x72\x2f\x61", "\x2f\x72\x2f\x62") = 0
1 symlink("\x2f\x78", "\x2f\x79") = 0
1 mmap(NULL, 4096, PROT_READ|PROT_WRITE, MAP_SHARED, 3</r/old>, 0) = 0x7f0000000000
1 msync(0x7f0000000000, 4096, MS_SYNC) = 0
1 rename("\x2f\x78", "\x2f\x72\x2f\x78") = 0
1 renameat2(AT_FDCWD</r>, "\x61", AT_FDCWD</r>, "\x62", RENAME_EXCHANGE) = 0
1 openat(AT_FDCWD</r>, "\x2e", O_RDWR|O_TMPFILE, 0600) = 9
"#;
    let (ops, warnings) = run(log);
    assert_eq!(ops, vec![]);
    assert_eq!(
        warnings,
        vec![
            "link under the root is not modeled",
            "writes through a shared writable mmap are invisible to unsynced",
            "msync is not a durability barrier and was ignored",
            "x was moved in from outside the root; its content is not modeled",
            "renameat2(RENAME_EXCHANGE) is not modeled",
            "O_TMPFILE in  is not modeled",
        ]
    );
}

#[test]
fn directories_truncates_seeks_and_working_directories() {
    let log = r#"1 mkdir("\x64", 0777) = 0
1 chdir("\x64") = 0
1 open("\x66", O_WRONLY|O_CREAT, 0600) = 3
1 write(3</r/d/f>, "\x61\x62\x63", 3) = 3
1 lseek(3</r/d/f>, 1, SEEK_SET) = 1
1 write(3</r/d/f>, "\x78", 1) = 1
1 ftruncate(3</r/d/f>, 2) = 0
1 fcntl(3</r/d/f>, F_DUPFD, 10) = 10</r/d/f>
1 close(3</r/d/f>) = 0
1 write(10</r/d/f>, "\x79", 1) = 1
1 fchdir(4</r>) = 0
1 truncate("\x64\x2f\x66", 0) = 0
1 unlink("\x64\x2f\x66") = 0
1 rmdir("\x64") = 0
1 unlink("\x67\x6f\x6e\x65") = -1 ENOENT (No such file or directory)
1 rename("\x6f\x6c\x64", "\x2f\x74\x6d\x70\x2f\x6f") = 0
1 syncfs(3</r>) = 0
"#;
    let (ops, warnings) = run(log);
    assert!(warnings.is_empty(), "{warnings:?}");
    let f = || "d/f".to_string();
    assert_eq!(
        ops,
        vec![
            Op::Mkdir { path: "d".into() },
            Op::Create { path: f() },
            Op::Write { path: f(), offset: 0, data: b"abc".to_vec() },
            Op::Write { path: f(), offset: 1, data: b"x".to_vec() },
            Op::Truncate { path: f(), len: 2 },
            Op::Write { path: f(), offset: 2, data: b"y".to_vec() },
            Op::Truncate { path: f(), len: 0 },
            Op::Unlink { path: f() },
            Op::Rmdir { path: "d".into() },
            Op::Unlink { path: "old".into() },
            Op::Sync,
        ]
    );
}

#[test]
fn a_moved_directory_takes_its_files_along() {
    let log = r#"1 mkdir("\x61", 0777) = 0
1 creat("\x61\x2f\x66", 0600) = 3
1 write(3</r/a/f>, "\x31\x32", 2) = 2
1 rename("\x61", "\x62") = 0
1 open("\x62\x2f\x66", O_WRONLY|O_APPEND) = 4
1 write(4</r/b/f>, "\x33", 1) = 1
1 open("\x61\x2f\x66", O_WRONLY|O_CREAT, 0600) = 5
"#;
    let (ops, _) = run(log);
    assert_eq!(ops[4], Op::Write { path: "b/f".into(), offset: 2, data: b"3".to_vec() });
    assert_eq!(ops[5], Op::Create { path: "a/f".into() });
}

#[test]
fn paths_are_resolved_lexically() {
    let n = |p: &str| -> String { normalize(&p.chars().collect::<Vec<_>>()).into_iter().collect() };
    assert_eq!(n("/a//b/./c/../d/"), "/a/b/d");
    assert_eq!(n("/../.."), "/");
    assert_eq!(n(&n("/x/./../y")), n("/x/./../y"));
    assert_eq!(slash(r"C:\a\b").into_iter().collect::<String>(), "C:/a/b");
}

#[test]
fn calls_that_failed_change_nothing() {
    let (ops, warnings) = run("1 unlink(\"\\x2f\\x72\\x2f\\x61\") = -1 ENOENT (No such file or directory)\n");
    assert_eq!(ops, Vec::new());
    assert_eq!(warnings, Vec::<String>::new());
}

#[test]
fn a_command_is_traced_with_these_options() {
    assert_eq!(
        tracer_options(&["sh".to_string()]).unwrap(),
        ["-f", "-qq", "-y", "-xx", "-s", "16777216", "-e", "trace=%file,%desc,%process,%memory,sync"]
    );
    assert_eq!(
        tracer_options(&[]),
        Err(Error::Strace("no workload command given".into()))
    );
    assert_eq!(
        not_run("not found").message(),
        "cannot run strace (not found); install it (e.g. apt install strace)"
    );
    assert_eq!(no_log("gone").message(), "strace produced no log: gone");
}

#[test]
fn renaming_onto_itself_keeps_the_size() {
    let (ops, warnings) = run(
        "1 openat(AT_FDCWD</r>, \"\\x6f\\x6c\\x64\", O_WRONLY|O_APPEND) = 3</r/old>\n\
         1 rename(\"\\x6f\\x6c\\x64\", \"\\x6f\\x6c\\x64\") = 0\n\
         1 write(3</r/old>, \"\\x61\", 1) = 1\n",
    );
    assert_eq!(
        ops,
        vec![
            Op::Rename { from: "old".into(), to: "old".into() },
            Op::Write { path: "old".into(), offset: 5, data: b"a".to_vec() },
        ]
    );
    assert_eq!(warnings, Vec::<String>::new());
}

#[test]
fn renaming_a_directory_onto_itself_keeps_it() {
    let (ops, _) = run(
        "1 mkdir(\"/r/d\", 0777) = 0\n\
         1 rename(\"/r/d\", \"/r/d\") = 0\n\
         1 rmdir(\"/r/d\") = 0\n",
    );
    assert_eq!(ops[2], Op::Rmdir { path: "d".into() });
}

#[test]
fn a_blank_in_a_returned_path_is_kept() {
    let c = parse_call(r#"openat(AT_FDCWD</r>, "\x61\x20\x62", O_RDONLY) = 3</r/a b>"#).unwrap();
    assert_eq!(c.name, "openat");
    assert_eq!(c.args.len(), 3);
    assert_eq!(c.ret, Some(3));
    assert_eq!(c.ret_path, Some("/r/a b".to_string()));
    let c = parse_call(r#"dup(3</r/x>) = 4</r/\x3e y> (a <note>)"#).unwrap();
    assert_eq!(c.ret, Some(4));
    assert_eq!(c.ret_path, Some("/r/> y".to_string()));
    let c = parse_call("f() = 4</r/f (deleted)>").unwrap();
    assert_eq!(c.ret_path, Some("/r/f (deleted)".to_string()));
    let c = parse_call("close(3</r/x>) = -1 EBADF (Bad <file> descriptor)").unwrap();
    assert_eq!((c.ret, c.ret_path), (Some(-1), None));
    let c = parse_call("mmap(NULL, 1) = 0x7f00").unwrap();
    assert_eq!((c.ret, c.ret_path), (Some(0x7f00), None));
    assert_eq!(parse_call("exit_group(0) = ?").unwrap().ret, None);
    assert_eq!(parse_call("exit_group(0) =  "), None);
    let (ops, _) = run(
        "1 openat(AT_FDCWD</r>, \"\\x61\\x20\\x62\", O_WRONLY|O_CREAT) = 3</r/a b>\n\
         1 write(3</r/a b>, \"\\x78\", 1) = 1\n",
    );
    assert_eq!(
        ops,
        vec![
            Op::Create { path: "a b".into() },
            Op::Write { path: "a b".into(), offset: 0, data: b"x".to_vec() },
        ]
    );
}

#[test]
fn a_write_that_was_cut_leaves_no_op() {
    let mut st = State::new("/r", "/r", &Tree::default());
    let c = parse_call(r#"write(3</r/f>, "\x61"..., 20000000) = 20000000"#).unwrap();
    assert_eq!(
        st.apply(1, &c),
        Err("a write was truncated by strace (limit 16777216 bytes)".to_string())
    );
    assert_eq!(st.finish(), (Vec::new(), Vec::new()));
}

#[test]
fn an_interrupted_call_takes_effect_once() {
    let whole = "1 openat(AT_FDCWD</r>, \"/r/n\", O_WRONLY|O_CREAT) = 3</r/n>\n\
                 2 mkdir(\"/r/d\", 0777) = 0\n\
                 1 write(3</r/n>, \"\\x61\", 1) = 1\n\
                 1 fsync(3</r/n>) = 0\n";
    let split = "1 openat(AT_FDCWD</r>, \"/r/n\", O_WRONLY|O_CREAT) = 3</r/n>\n\
                 1 write(3</r/n>, \"\\x61\", <unfinished ...>\n\
                 2 mkdir(\"/r/d\", 0777) = 0\n\
                 1 <... write resumed>1) = 1\n\
                 1 fsync(3</r/n>) = 0\n";
    assert_eq!(run(split), run(whole));
    assert_eq!(run(whole).0.len(), 4);
    // Cut elsewhere: at the first argument, inside the list without a blank, and
    // next to the equals sign.
    let cuts = [
        ("write(", " 3</r/n>, \"\\x61\", 1) = 1"),
        ("write(3</r/n>", ", \"\\x61\", 1) = 1"),
        ("write(3</r/n>, \"\\x61\", 1)", "= 1"),
        ("write(3</r/n>, \"\\x61\", 1) =", "1"),
    ];
    for (head, tail) in cuts {
        let log = split
            .replace("write(3</r/n>, \"\\x61\",", head)
            .replace("resumed>1) = 1", &format!("resumed>{tail}"));
        assert_eq!(run(&log), run(whole), "{log}");
    }
}

#[test]
fn escaped_data_is_exact() {
    let data: Vec<u8> = (0..=255).collect();
    let text: String = data.iter().map(|b| format!("\\x{b:02x}")).collect();
    assert_eq!(unescape(&text), data);
    assert_eq!(strings(&format!("\"{text}\"")), vec![(data, false)]);
}

#[test]
fn a_log_is_read_byte_by_byte() {
    let log = b"1 mkdir(\"/r/\xff\", 0777) = 0\n".to_vec();
    let (ops, _) = parse_bytes(&log, "/r", "/r", &Tree::default()).unwrap();
    assert_eq!(ops, vec![Op::Mkdir { path: "\u{fffd}".into() }]);
}

#[test]
fn a_result_is_read_as_an_argument_is() {
    for text in ["3</a>b>", "4</r/f>(deleted)", "5</r/a b>", "6</r/f", "7"] {
        let c = parse_call(&format!("f({text}) = {text} (a note)"));
        let path = fd_arg(text).1;
        match c {
            Some(c) => assert_eq!(c.ret_path, path),
            None => assert_eq!(text, "6</r/f"),
        }
        let c = parse_call(&format!("f() = {text}")).unwrap();
        assert_eq!(c.ret_path, path);
        assert_eq!(c.ret, fd_arg(text).0);
    }
    assert_eq!(parse_call("f() = 3</a>b>").unwrap().ret_path, Some("/a>b".to_string()));
    let c = parse_call("f() = 4</r/f>(deleted)").unwrap();
    assert_eq!(c.ret_path, Some("/r/f>(deleted)".to_string()));
    let c = parse_call("f() = 3</r/a b").unwrap();
    assert_eq!(c.ret_path, Some("/r/a".to_string()));
}
