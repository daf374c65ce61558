//! What holds of every trace, on one trace.

use unsynced::check::{ask, conclude, is_checkable, Asking};
use unsynced::model::{Fs, Micro};
use unsynced::program::{compile, Program, NEVER};
use unsynced::states::enumerate;
use unsynced::{check, Crash, Entry, Error, Kind, Op, Options, Profile, Search, Trace, Tree};

fn p(s: &str) -> String {
    s.to_string()
}

/// A directory, a file in it, a replaced file, a barrier in the middle.
fn workload() -> Trace {
    let mut initial = Tree::default();
    initial.entries.insert(p("cfg"), Entry::File(b"old".to_vec()));
    Trace {
        initial,
        ops: vec![
            Op::Mkdir { path: p("d") },
            Op::Create { path: p("d/f") },
            Op::Write { path: p("d/f"), offset: 1, data: b"abcdef".to_vec() },
            Op::Fsync { path: p("d/f") },
            Op::Truncate { path: p("d/f"), len: 3 },
            Op::Mark { text: p("cut") },
            Op::Rename { from: p("d/f"), to: p("cfg") },
            Op::Rmdir { path: p("d") },
        ],
    }
}

fn compiled(profile: Profile) -> Program {
    compile(&workload(), profile, 4).unwrap()
}

/// Every set of micro-ops that holds what is durable at a crash point.
fn sets(prog: &Program, point: usize) -> Vec<Vec<bool>> {
    prog.candidates(point, &Search { exhaustive_limit: 20, ..Search::default() })
}

fn within(a: &[bool], b: &[bool]) -> bool {
    a.iter().zip(b).all(|(x, y)| !x || *y)
}

#[test]
fn losing_nothing_leaves_what_the_workload_saw() {
    let t = workload();
    let full = compiled(Profile::Posix);
    for k in 0..=t.ops.len() {
        let seen = compile(&Trace { initial: t.initial.clone(), ops: t.ops[..k].to_vec() }, Profile::Posix, 4)
            .unwrap();
        let all = vec![true; full.op_end[k]];
        assert_eq!(full.materialize(&all), seen.materialize(&vec![true; seen.micro.len()]));
    }
    let end = full.materialize(&vec![true; full.micro.len()]);
    assert_eq!(end.entries.len(), 1);
    assert_eq!(end.entries.get("cfg"), Some(&Entry::File(b"\0ab".to_vec())));
}

#[test]
fn losing_everything_leaves_the_snapshot() {
    let prog = compiled(Profile::Posix);
    assert_eq!(prog.materialize(&vec![false; prog.micro.len()]), workload().initial);
    assert_eq!(prog.materialize(&Vec::new()), workload().initial);
}

#[test]
fn a_journal_makes_nothing_durable_later() {
    let (posix, ext4) = (compiled(Profile::Posix), compiled(Profile::Ext4Ordered));
    assert_eq!(posix.op_end, ext4.op_end);
    for (a, b) in posix.micro.iter().zip(&ext4.micro) {
        assert_eq!(a.m, b.m);
        assert!(b.durable_at <= a.durable_at);
    }
    // The entry of a new file is covered by a barrier on the file only there.
    assert_eq!(posix.micro[1].durable_at, NEVER);
    assert_eq!(ext4.micro[1].durable_at, 3);
}

#[test]
fn a_write_is_cut_at_block_boundaries() {
    let prog = compiled(Profile::Posix);
    let pieces: Vec<(u64, Vec<u8>)> = prog
        .micro
        .iter()
        .filter_map(|m| match &m.m {
            Micro::Write { offset, data, .. } => Some((*offset, data.clone())),
            _ => None,
        })
        .collect();
    assert_eq!(pieces, vec![(1, b"abc".to_vec()), (4, b"def".to_vec())]);
    let renames = prog.micro.iter().filter(|m| matches!(m.m, Micro::Rename { .. })).count();
    assert_eq!(renames, 1);
}

#[test]
fn closing_gives_the_smallest_legal_state() {
    for profile in [Profile::Posix, Profile::Ext4Ordered] {
        let prog = compiled(profile);
        for point in 0..prog.op_end.len() {
            let all = sets(&prog, point);
            for s in &all {
                let mut once = s.clone();
                prog.close(point, &mut once);
                assert!(within(s, &once));
                let mut twice = once.clone();
                prog.close(point, &mut twice);
                assert_eq!(once, twice);
                if profile == Profile::Posix {
                    assert_eq!(&once, s);
                }
                for larger in all.iter().filter(|l| within(s, l)) {
                    let mut closed = larger.clone();
                    prog.close(point, &mut closed);
                    assert!(within(&once, &closed));
                }
            }
        }
    }
}

#[test]
fn a_journal_leaves_fewer_states_behind() {
    let (posix, ext4) = (compiled(Profile::Posix), compiled(Profile::Ext4Ordered));
    for point in 0..posix.op_end.len() {
        let legal = sets(&posix, point);
        for mut s in sets(&ext4, point) {
            ext4.close(point, &mut s);
            assert!(legal.contains(&s));
        }
        assert!(sets(&ext4, point).len() <= legal.len());
    }
}

#[test]
fn all_and_none_are_always_examined() {
    let prog = compiled(Profile::Posix);
    let point = prog.op_end.len() - 1;
    let few = Search { exhaustive_limit: 0, samples: 0, seed: 1 };
    let c = prog.candidates(point, &few);
    let durable: Vec<bool> = prog.micro.iter().map(|m| m.durable_at < point).collect();
    assert!(c.contains(&vec![true; prog.micro.len()]));
    assert!(c.contains(&durable));
}

#[test]
fn content_and_names_change_apart() {
    let mut initial = Tree::default();
    initial.entries.insert(p("a"), Entry::File(b"1".to_vec()));
    let write = Micro::Write { ino: 1, offset: 0, data: b"2".to_vec() };
    let rename = Micro::Rename {
        from: 0,
        from_name: vec!['a'],
        to: 0,
        to_name: vec!['b'],
        ino: 1,
        replaces: false,
    };
    let mut one = Fs::from_tree(&initial);
    one.apply(&write);
    one.apply(&rename);
    let mut other = Fs::from_tree(&initial);
    other.apply(&rename);
    other.apply(&write);
    assert_eq!(one.to_tree(), other.to_tree());
    assert_eq!(one.to_tree().entries.get("b"), Some(&Entry::File(b"2".to_vec())));
    assert_eq!(one.to_tree().entries.get("a"), None);
}

#[test]
fn every_state_is_asked_about_once() {
    let prog = compiled(Profile::Posix);
    let opts = Options::default();
    let plan = enumerate(&prog, &opts.search, opts.max_states);
    let asked: std::cell::RefCell<Vec<(Tree, usize)>> = std::cell::RefCell::new(Vec::new());
    let r = check(&workload(), &Options { block_size: 4, ..opts }, |c| {
        let key = (c.tree.clone(), c.marks.len());
        assert!(!asked.borrow().contains(&key));
        asked.borrow_mut().push(key);
        Ok(())
    })
    .unwrap();
    assert_eq!(r.states, plan.points.len());
    assert_eq!(asked.borrow().len(), r.states);
    assert!(r.is_clean());
}

#[test]
fn each_failure_is_attributed_once() {
    let opts = Options { block_size: 4, ..Options::default() };
    let r = check(&workload(), &opts, |c| match c.tree.entries.get("cfg") {
        Some(Entry::File(d)) if d.len() == 3 => Ok(()),
        _ => Err(p("odd length")),
    })
    .unwrap();
    assert!(!r.is_clean());
    let sum: usize = r.vulnerabilities.iter().map(|v| v.occurrences).sum();
    assert_eq!(sum, r.failures);
    for (i, v) in r.vulnerabilities.iter().enumerate() {
        for w in &r.vulnerabilities[..i] {
            assert!(v.kind != w.kind || v.files != w.files);
        }
    }
}

#[test]
fn verdicts_may_come_in_before_the_report_is_drawn_up() {
    let t = workload();
    let opts = Options { block_size: 4, ..Options::default() };
    let checker = |c: &Crash| match c.tree.entries.get("d/f") {
        Some(Entry::File(d)) if d.len() == 7 && d[1] == 0 => Err(p("zeros")),
        _ => Ok(()),
    };
    let at_once = check(&t, &opts, checker).unwrap();
    let prog = compile(&t, opts.profile, opts.block_size).unwrap();
    let plan = enumerate(&prog, &opts.search, opts.max_states);
    let verdicts: Vec<Result<(), String>> = (0..plan.points.len())
        .map(|i| ask(&prog, &plan, i, &mut Asking::new(checker)))
        .collect();
    let later = conclude(&prog, &t, &opts, plan, verdicts, &mut Asking::new(checker));
    assert_eq!(later, at_once);
    assert!(!later.is_clean());
}

#[test]
fn what_cannot_be_checked_is_known() {
    let opts = Options::default();
    assert!(is_checkable(&workload(), &opts));
    let far = Trace {
        initial: Tree::default(),
        ops: vec![Op::Write { path: p("f"), offset: u64::MAX, data: vec![0] }],
    };
    assert!(!is_checkable(&far, &opts));
    let wide = Options {
        search: Search { exhaustive_limit: 64, ..Search::default() },
        ..opts
    };
    assert!(is_checkable(&workload(), &wide));
    let mut ops = Vec::new();
    for i in 0..70 {
        ops.push(Op::Create { path: format!("f{i}") });
    }
    let many = Trace { initial: Tree::default(), ops };
    assert!(is_checkable(&many, &opts));
    assert!(!is_checkable(&many, &wide));
    // A trace that does not compile can be checked: the check says why.
    let bad = Trace { initial: Tree::default(), ops: vec![Op::Unlink { path: p("f") }] };
    assert!(is_checkable(&bad, &opts));
    assert!(matches!(check(&bad, &opts, |_| Ok(())), Err(Error::Model { op: 0, .. })));
}

#[test]
fn the_defaults_of_a_check() {
    let o = Options::default();
    assert_eq!(o.profile, Profile::Posix);
    assert_eq!(o.block_size, 4096);
    assert_eq!(o.max_states, 20_000);
    assert_eq!(o.explain, 16);
    assert_eq!(Options::with_parallelism(Some(12)).jobs, 12);
    assert_eq!(Options::with_parallelism(None).jobs, 4);
}

#[test]
fn rejecting_everything_blames_the_start() {
    for explain in [1, 3, 1000] {
        let opts = Options { block_size: 4, explain, ..Options::default() };
        let r = check(&workload(), &opts, |_| Err(p("no"))).unwrap();
        assert!(r.states > 3);
        assert_eq!(r.failures, r.states);
        assert_eq!(r.vulnerabilities.len(), 1);
        let v = &r.vulnerabilities[0];
        assert_eq!(v.kind, Kind::NonAtomic);
        assert_eq!((v.crash_point, &v.crash_after), (0, &None));
        assert_eq!((v.lost.len(), v.survived.len(), v.files.len()), (0, 0, 0));
        assert_eq!(v.message, "no");
        assert_eq!(v.occurrences, r.failures.min(explain));
        let none = check(&workload(), &opts, |_| Ok(())).unwrap();
        assert_eq!((none.failures, none.vulnerabilities.len()), (0, 0));
        assert_eq!(none.states, r.states);
    }
}

#[test]
fn the_number_of_jobs_does_not_show() {
    let checker = |c: &Crash| match c.tree.entries.get("cfg") {
        Some(Entry::File(d)) if d.len() == 3 => Ok(()),
        _ => Err(p("odd length")),
    };
    let run = |jobs: usize| {
        let opts = Options { block_size: 4, jobs, ..Options::default() };
        check(&workload(), &opts, checker).unwrap()
    };
    let one = run(1);
    assert!(!one.is_clean());
    assert_eq!(run(0), one);
    assert_eq!(run(8), one);
}

#[test]
fn planned_states_are_asked_about_first() {
    let prog = compiled(Profile::Posix);
    let opts = Options { block_size: 4, ..Options::default() };
    let plan = enumerate(&prog, &opts.search, opts.max_states);
    let asked: std::cell::RefCell<Vec<(Tree, usize, Vec<String>, bool)>> =
        std::cell::RefCell::new(Vec::new());
    let r = check(&workload(), &opts, |c| {
        let bad = c.tree.entries.get("d/f").is_some() && c.marks.is_empty();
        asked.borrow_mut().push((c.tree.clone(), c.point, c.marks.to_vec(), bad));
        if bad { Err(p("early")) } else { Ok(()) }
    })
    .unwrap();
    let asked = asked.borrow();
    assert!(asked.len() >= r.states);
    for (i, point) in plan.points.iter().enumerate() {
        assert_eq!(asked[i].1, *point);
        assert_eq!(asked[i].2, prog.marks[..prog.marks_before[*point]].to_vec());
    }
    assert_eq!(asked[..r.states].iter().filter(|a| a.3).count(), r.failures);
    for (i, a) in asked.iter().enumerate() {
        assert!(asked[..i].iter().all(|b| b.0 != a.0 || b.2.len() != a.2.len()));
    }
}

#[test]
fn the_numbers_of_a_report_agree() {
    for explain in [0, 1, 100] {
        let opts = Options { block_size: 4, explain, max_states: 12, ..Options::default() };
        let r = check(&workload(), &opts, |c| match c.tree.entries.get("d/f") {
            Some(_) => Err(p("there")),
            None => Ok(()),
        })
        .unwrap();
        assert_eq!(r.ops, 8);
        assert_eq!(r.crash_points, 9);
        assert!(0 < r.failures && r.failures <= r.states && r.states <= 12);
        assert!(r.vulnerabilities.len() <= explain);
        assert_eq!(r.vulnerabilities.is_empty(), explain == 0);
        let sum: usize = r.vulnerabilities.iter().map(|v| v.occurrences).sum();
        assert!(sum <= r.failures);
        assert!(explain < r.failures || sum == r.failures);
    }
}
