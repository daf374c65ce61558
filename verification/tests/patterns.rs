//! Ground truth: the four classic ways to update a file, and what each one
//! survives. Expected verdicts follow Pillai et al., "All File Systems Are Not
//! Created Equal" (OSDI '14) and the ext4 `auto_da_alloc` heuristic.

use unsynced::{check, Crash, Entry, Kind, Op, Options, Profile, Recorder, Report, Trace, Tree};

const OLD: &str = "version=1\n";
const NEW: &str = "version=2\n";

#[derive(Clone, Copy, Debug)]
enum Pattern {
    /// Truncate and rewrite the file in place, then fsync.
    InPlace,
    /// Write a temp file, rename it over the original. No fsync at all.
    RenameNoFsync,
    /// Write a temp file, fsync it, rename it. Directory never fsynced.
    RenameNoDirFsync,
    /// Write, fsync, rename, fsync the directory. The correct recipe.
    Correct,
}

fn workload(p: Pattern) -> Trace {
    let mut initial = Tree::default();
    initial.entries.insert("config".into(), Entry::File(OLD.as_bytes().to_vec()));
    let mut rec = Recorder::new(initial);
    let (target, existing) = if matches!(p, Pattern::InPlace) {
        ("config", Some(OLD.len() as u64))
    } else {
        ("config.tmp", None)
    };
    let mut f = rec.create(target, existing);
    f.write(&mut rec, &NEW.as_bytes().to_vec());
    if !matches!(p, Pattern::RenameNoFsync) {
        f.sync_all(&mut rec);
    }
    if !matches!(p, Pattern::InPlace) {
        rec.rename("config.tmp", "config");
    }
    if matches!(p, Pattern::Correct) {
        rec.sync_dir("");
    }
    rec.mark("saved");
    rec.finish()
}

/// The config must always be the old or the new version, and the new one once "saved" was printed.
fn checker(crash: &Crash) -> Result<(), String> {
    let got = match crash.tree.entries.get("config") {
        Some(Entry::File(d)) => String::from_utf8_lossy(d).into_owned(),
        _ => return Err("config missing".into()),
    };
    let acked = crash.marks.iter().any(|m| m == "saved");
    match got.as_str() {
        NEW => Ok(()),
        OLD if !acked => Ok(()),
        OLD => Err("acknowledged update lost".into()),
        other => Err(format!("config corrupted: {other:?}")),
    }
}

fn run(p: Pattern, profile: Profile) -> Report {
    let opts = Options { profile, jobs: 2, ..Options::default() };
    let report = check(&workload(p), &opts, checker).unwrap();
    println!("--- {p:?} under {profile:?}\n{}", report.render());
    report
}

fn corrupts(r: &Report) -> bool {
    r.vulnerabilities.iter().any(|v| !v.message.contains("acknowledged"))
}

#[test]
fn in_place_rewrite_is_never_atomic() {
    for profile in [Profile::Posix, Profile::Ext4Ordered] {
        let r = run(Pattern::InPlace, profile);
        assert!(corrupts(&r), "{}", r.render());
        // Even with every write persisted, a crash between truncate and write
        // leaves an empty file: the bug is in the workload, not the disk.
        assert!(
            r.vulnerabilities.iter().any(|v| v.kind == Kind::NonAtomic && v.lost.is_empty()),
            "{}",
            r.render()
        );
    }
}

#[test]
fn rename_without_fsync_corrupts_on_posix_but_not_ext4() {
    let posix = run(Pattern::RenameNoFsync, Profile::Posix);
    assert!(corrupts(&posix), "{}", posix.render());
    assert!(
        posix.vulnerabilities.iter().any(|v| v.hint.contains("before `rename")),
        "{}",
        posix.render()
    );
    // auto_da_alloc flushes the data before a replacing rename commits, so ext4
    // only loses durability (the rename itself can be rolled back).
    let ext4 = run(Pattern::RenameNoFsync, Profile::Ext4Ordered);
    assert!(!ext4.is_clean() && !corrupts(&ext4), "{}", ext4.render());
}

#[test]
fn missing_directory_fsync_loses_acknowledged_updates() {
    for profile in [Profile::Posix, Profile::Ext4Ordered] {
        let r = run(Pattern::RenameNoDirFsync, profile);
        assert!(!r.is_clean() && !corrupts(&r), "{}", r.render());
        assert!(
            r.vulnerabilities.iter().all(|v| v.hint.contains("fsync the directory")),
            "{}",
            r.render()
        );
    }
}

#[test]
fn the_correct_recipe_is_clean() {
    for profile in [Profile::Posix, Profile::Ext4Ordered] {
        let r = run(Pattern::Correct, profile);
        assert!(r.is_clean(), "{}", r.render());
    }
}

/// Replace-by-rename as a shell does it, acknowledged on stdout.
fn shell_replace() -> Trace {
    let mut initial = Tree::default();
    initial.entries.insert("cfg".into(), Entry::File(b"v1".to_vec()));
    Trace {
        initial,
        ops: vec![
            Op::Create { path: "tmp".into() },
            Op::Write { path: "tmp".into(), offset: 0, data: b"v2".to_vec() },
            Op::Rename { from: "tmp".into(), to: "cfg".into() },
            Op::Mark { text: "saved\n".into() },
        ],
    }
}

#[test]
fn a_report_reads_as_documented() {
    let report = check(&shell_replace(), &Options::default(), |c: &Crash| {
        let got = match c.tree.entries.get("cfg") {
            Some(Entry::File(d)) => d.clone(),
            _ => Vec::new(),
        };
        let saved = c.marks.iter().any(|m| m.contains("saved"));
        if got == b"v2" || (!saved && got == b"v1") {
            Ok(())
        } else {
            Err("checker failed (exit status: 1)".into())
        }
    })
    .unwrap();
    assert_eq!(
        report.render(),
        "4 ops, 5 crash points, 14 unique crash states checked (posix model)
FAIL: 8 crash states rejected, 2 distinct vulnerabilities:

[1] reordering (7 failing states)
  crash after   #2 rename tmp -> cfg
  lost          #1 write tmp [0..2)
  but persisted #2 rename tmp -> cfg
  checker said  checker failed (exit status: 1)
  fix           fsync `tmp` before `rename tmp -> cfg` (op #2); the rename reached disk before the data it points to

[2] unsynced (1 failing states)
  crash after   #3 mark \"saved\"
  lost          #2 rename tmp -> cfg
  checker said  checker failed (exit status: 1)
  fix           fsync the directory `.` after `rename tmp -> cfg` and before acknowledging (\"saved\")
"
    );
}
