use unsynced::crash::splitmix;
use unsynced::program::{compile, Program};
use unsynced::{Entry, Op, Profile, Search, Trace, Tree};

fn file(t: &Tree, p: &str) -> Option<String> {
    match t.entries.get(p) {
        Some(Entry::File(d)) => Some(String::from_utf8_lossy(d).into_owned()),
        _ => None,
    }
}

/// Replace-via-rename without fsync: the classic zero-length-file bug.
fn replace_trace() -> Trace {
    let mut initial = Tree::default();
    initial.entries.insert("cfg".into(), Entry::File(b"old".to_vec()));
    Trace {
        initial,
        ops: vec![
            Op::Create { path: "tmp".into() },
            Op::Write { path: "tmp".into(), offset: 0, data: b"new".to_vec() },
            Op::Rename { from: "tmp".into(), to: "cfg".into() },
        ],
    }
}

fn states(profile: Profile) -> Vec<Option<String>> {
    let p = compile(&replace_trace(), profile, 4096).unwrap();
    let mut seen: Vec<Option<String>> = Vec::new();
    for point in 0..p.op_end.len() {
        for mut c in p.candidates(point, &Search::default()) {
            p.close(point, &mut c);
            let s = file(&p.materialize(&c), "cfg");
            if !seen.contains(&s) {
                seen.push(s);
            }
        }
    }
    seen.sort();
    seen
}

#[test]
fn posix_exposes_empty_and_zeroed_file_after_rename() {
    let s = states(Profile::Posix);
    assert!(s.contains(&Some(String::new())), "{s:?}"); // rename persisted, data+size lost
    assert!(s.contains(&Some("\0\0\0".into())), "{s:?}"); // size persisted, data lost
    assert!(s.contains(&Some("new".into())));
    assert!(s.contains(&Some("old".into())));
}

#[test]
fn ext4_auto_da_alloc_makes_replace_safe() {
    assert_eq!(states(Profile::Ext4Ordered), vec![Some("new".into()), Some("old".into())]);
}

fn appends(n: usize) -> Program {
    let mut ops = vec![Op::Create { path: "f".into() }];
    for i in 0..n {
        ops.push(Op::Write { path: "f".into(), offset: i as u64, data: vec![b'x'] });
    }
    compile(&Trace { initial: Tree::default(), ops }, Profile::Posix, 4096).unwrap()
}

#[test]
fn few_micro_ops_in_flight_are_enumerated_exhaustively() {
    let p = appends(1);
    assert_eq!(p.in_flight(2), vec![0, 1, 2]);
    let c = p.candidates(2, &Search::default());
    assert_eq!(c.len(), 8);
    assert_eq!(c[0], vec![false, false, false]);
    assert_eq!(c[5], vec![true, false, true]);
    assert_eq!(c[7], vec![true, true, true]);
}

#[test]
fn many_micro_ops_in_flight_get_a_fixed_battery_and_samples() {
    let p = appends(6);
    let search = Search { exhaustive_limit: 3, samples: 2, seed: 7 };
    let c = p.candidates(7, &search);
    // 13 in flight: all, none, 13 lost alone, 13 prefixes, 7 whole ops, 2 samples.
    assert_eq!(p.in_flight(7).len(), 13);
    assert_eq!(c.len(), 2 + 2 * 13 + 7 + 2);
    assert!(c[0].iter().all(|b| *b));
    assert!(c[1].iter().all(|b| !*b));
    assert_eq!(c[2].iter().filter(|b| !**b).count(), 1);
    assert!(!c[2][0]);
    assert_eq!(c[5], {
        let mut prefix = vec![false; 13];
        prefix[0] = true;
        prefix
    });
    // The second op: its data and its size.
    assert_eq!(c[2 + 26 + 1].iter().filter(|b| !**b).count(), 2);
    assert_eq!(c, p.candidates(7, &search));
    assert!(p.can_search(&search));
}

#[test]
fn the_generator_is_splitmix() {
    let mut state = 0u64;
    assert_eq!(splitmix(&mut state), 0xe220a8397b1dcdaf);
    assert_eq!(splitmix(&mut state), 0x6e789e6aa1b965f4);
}

#[test]
fn closing_keeps_metadata_in_order_and_data_before_size() {
    let p = compile(&replace_trace(), Profile::Ext4Ordered, 4096).unwrap();
    // link, data, size, rename
    let mut s = vec![false, false, false, true];
    p.close(3, &mut s);
    assert_eq!(s, vec![true, true, true, true]);
    let mut s = vec![false, false, true, false];
    p.close(3, &mut s);
    assert_eq!(s, vec![true, true, true, false]);
    let mut s = vec![false, true, false, false];
    p.close(3, &mut s);
    assert_eq!(s, vec![false, true, false, false]);
    let posix = compile(&replace_trace(), Profile::Posix, 4096).unwrap();
    let mut s = vec![false, false, false, true];
    posix.close(3, &mut s);
    assert_eq!(s, vec![false, false, false, true]);
}

#[test]
fn what_is_durable_is_never_lost() {
    let mut t = replace_trace();
    t.ops.push(Op::Sync);
    let p = compile(&t, Profile::Posix, 4096).unwrap();
    assert_eq!(p.in_flight(4), Vec::<usize>::new());
    assert_eq!(p.candidates(4, &Search::default()), vec![vec![true; 4]]);
    let mut s = vec![false; 4];
    p.close(4, &mut s);
    assert_eq!(s, vec![true; 4]);
}

#[test]
fn the_defaults_of_a_search() {
    let s = Search::default();
    assert_eq!((s.exhaustive_limit, s.samples, s.seed), (10, 32, 0x5eed));
}
