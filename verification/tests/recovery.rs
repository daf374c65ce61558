//! Crashing the recovery: a repair that rewrites a file in place is only safe
//! if nothing interrupts it.

use unsynced::recovery::next_budget;
use unsynced::{
    check, check_with_recovery, Crash, Entry, Kind, Op, Options, Recorder, Recovery, Report, Trace,
    Tree,
};

/// Append "a" (synced, acknowledged), then "b" (neither).
fn workload() -> Trace {
    let mut rec = Recorder::new(Tree::default());
    let mut log = rec.append("log", false);
    log.opened_at_end(0);
    rec.sync_dir("");
    log.write(&mut rec, &b"a\n".to_vec());
    log.sync_all(&mut rec);
    rec.mark("saved a");
    log.write(&mut rec, &b"b\n".to_vec());
    rec.finish()
}

fn data(t: &Tree) -> Vec<u8> {
    match t.entries.get("log") {
        Some(Entry::File(d)) => d.clone(),
        _ => Vec::new(),
    }
}

/// Keep only complete lines, either by rewriting the file or by truncating it.
fn repair(tree: &Tree, rewrite: bool) -> Result<Recovery, String> {
    let mut rec = Recorder::new(tree.clone());
    let mut after = tree.clone();
    let data = data(tree);
    let keep = data.iter().rposition(|&b| b == b'\n').map_or(0, |i| i + 1);
    if keep < data.len() {
        if rewrite {
            let mut f = rec.create("log", Some(data.len() as u64));
            f.write(&mut rec, &data[..keep].to_vec());
            f.sync_all(&mut rec);
        } else {
            let mut f = rec.open("log", data.len() as u64);
            f.set_len(&mut rec, keep as u64);
            f.sync_all(&mut rec);
        }
        after.entries.insert("log".into(), Entry::File(data[..keep].to_vec()));
    }
    Ok(Recovery { tree: after, trace: rec.finish() })
}

fn verify(c: &Crash) -> Result<(), String> {
    let data = String::from_utf8(data(c.tree)).unwrap_or_default();
    if !c.marks.is_empty() && !data.starts_with("a\n") {
        return Err(format!("acknowledged record lost: {data:?}"));
    }
    if !data.lines().all(|l| l == "a" || l == "b") {
        return Err(format!("garbage in log: {data:?}"));
    }
    Ok(())
}

fn run(rewrite: bool) -> Report {
    let opts = Options { jobs: 2, ..Options::default() };
    let r = check_with_recovery(&workload(), &opts, |t: &Tree| repair(t, rewrite), verify).unwrap();
    println!("{}", r.render());
    r
}

#[test]
fn rewriting_repair_breaks_under_a_second_crash() {
    let r = run(true);
    assert!(r.recovery_states > 0, "{}", r.render());
    assert!(
        r.vulnerabilities.iter().any(|v| v.in_recovery.is_some() && v.kind == Kind::NonAtomic),
        "{}",
        r.render()
    );
    // Every failure comes from crashing the recovery, not the workload.
    assert!(r.vulnerabilities.iter().all(|v| v.in_recovery.is_some()), "{}", r.render());
    assert!(r.render().contains(" during recovery ("));
    assert!(r.render().contains("workload ops; recovery ran and crashed again"));
}

#[test]
fn truncating_repair_survives_a_second_crash() {
    let r = run(false);
    assert!(r.recovery_states > 0 && r.is_clean(), "{}", r.render());
}

#[test]
fn a_recovery_that_fails_is_a_failure() {
    let r = check_with_recovery(
        &workload(),
        &Options::default(),
        |_: &Tree| Err("no".to_string()),
        verify,
    )
    .unwrap();
    assert_eq!(r.failures, r.states);
    assert_eq!(r.recovery_states, 0);
    assert!(r.vulnerabilities.iter().all(|v| v.message == "recovery failed: no"));
}

#[test]
fn the_budget_limits_the_states_of_recoveries() {
    let full = run(true);
    let opts = Options { max_states: full.states, ..Options::default() };
    let r =
        check_with_recovery(&workload(), &opts, |t: &Tree| repair(t, true), verify).unwrap();
    assert!(r.recovery_states <= full.states);
    let opts = Options { max_states: 0, ..Options::default() };
    let r =
        check_with_recovery(&workload(), &opts, |t: &Tree| repair(t, true), verify).unwrap();
    assert_eq!((r.states, r.recovery_states, r.truncated), (0, 0, true));
}

#[test]
fn a_recovery_that_does_nothing_adds_nothing() {
    let opts = Options::default();
    let idle = |tree: &Tree| -> Result<Recovery, String> {
        Ok(Recovery {
            tree: tree.clone(),
            trace: Trace { initial: tree.clone(), ops: vec![Op::Mark { text: "seen".into() }] },
        })
    };
    let plain = check(&workload(), &opts, verify).unwrap();
    assert_eq!(check_with_recovery(&workload(), &opts, idle, verify).unwrap(), plain);
}

#[test]
fn a_recovery_that_always_fails_is_never_judged() {
    let opts = Options::default();
    let r = check_with_recovery(
        &workload(),
        &opts,
        |_: &Tree| -> Result<Recovery, String> { Err("no space".into()) },
        |_: &Crash| -> Result<(), String> { unreachable!() },
    )
    .unwrap();
    assert_eq!(r.failures, r.states);
    assert_eq!(r.recovery_states, 0);
    assert!(r.vulnerabilities.iter().all(|v| v.message == "recovery failed: no space"));
}

#[test]
fn what_recoveries_add_is_told_apart() {
    let r = run(true);
    let own = r.vulnerabilities.iter().take_while(|v| v.in_recovery.is_none()).count();
    assert!(r.vulnerabilities[own..].iter().all(|v| v.in_recovery.is_some()));
    assert!(own < r.vulnerabilities.len());
    let mut report = r;
    let max = report.recovery_states + 3;
    assert_eq!(next_budget(max, &mut report), Some(3));
    assert!(!report.truncated);
    assert_eq!(next_budget(max - 3, &mut report), None);
    assert!(report.truncated);
}
