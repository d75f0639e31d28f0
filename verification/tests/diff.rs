use scylla::diff::{eligible_ids, exact_diff, feature_round, propagate_round, record_pair};
use scylla::merge::{MatchInfo, MatchMethod, ProgramDiff};
use scylla::model::{mnemonic_fingerprint, mnemonic_histogram, mnemonic_trigrams, Function, Program, StableId};

fn func(id: u64, addr: u64, name: &str, bb: u32, callees: Vec<u64>) -> Function {
    let mn = vec!["PUSH".to_string(), "MOV".to_string(), "RET".to_string()];
    Function {
        id: StableId(id),
        addr,
        name: name.into(),
        size: 16 * bb as u64,
        bb_count: bb,
        callees: callees.into_iter().map(StableId).collect(),
        fingerprint: mnemonic_fingerprint(&mn),
        mnemonics: mnemonic_histogram(&mn),
        trigrams: mnemonic_trigrams(&mn),
        string_refs: vec![],
        imports: vec![],
        callee_names: vec![],
        bsim_vector: vec![],
        edge_provenance: vec![],
    }
}

fn prog(functions: Vec<Function>) -> Program {
    Program { name: "p".into(), language: "l".into(), functions, facts: vec![] }
}

#[test]
fn exact_rung_is_address_independent_and_flags_new_functions() {
    // Same bodies at shifted addresses under fresh ids: each unique signature pairs.
    let a = prog(vec![func(1, 0x1000, "main", 3, vec![2]), func(2, 0x1100, "gcd", 2, vec![])]);
    let b = prog(vec![
        func(10, 0x5000, "main", 3, vec![11]),
        func(11, 0x5100, "gcd", 2, vec![]),
        func(12, 0x5200, "extra", 7, vec![]),
    ]);
    let (d, left_a, left_b) = exact_diff(&a, &b);
    assert_eq!(d.matched, vec![(StableId(1), StableId(10)), (StableId(2), StableId(11))]);
    assert!(d.changed.is_empty());
    assert_eq!(left_a, Vec::<StableId>::new());
    assert_eq!(left_b, vec![StableId(12)]);
    assert_eq!(d.provenance.len(), 2);
    assert!(d.provenance.iter().all(|(_, i)| i.method == MatchMethod::Exact && i.confidence == 100));
}

#[test]
fn an_ambiguous_signature_is_left_on_both_sides() {
    let a = prog(vec![func(1, 0x1000, "x", 2, vec![]), func(2, 0x1100, "y", 2, vec![])]);
    let b = prog(vec![func(3, 0x1000, "x", 2, vec![]), func(4, 0x1100, "y", 2, vec![])]);
    let (d, left_a, left_b) = exact_diff(&a, &b);
    assert!(d.matched.is_empty());
    assert_eq!(left_a, vec![StableId(1), StableId(2)]);
    assert_eq!(left_b, vec![StableId(3), StableId(4)]);
}

#[test]
fn propagation_recovers_a_modified_body_by_its_neighbourhood() {
    // gcd's body changed (more blocks), but main calls it on both sides: it is re-identified.
    let a = prog(vec![func(1, 0x1000, "main", 3, vec![2]), func(2, 0x1100, "gcd", 2, vec![])]);
    let b = prog(vec![func(10, 0x1000, "main", 3, vec![11]), func(11, 0x1100, "gcd", 5, vec![])]);
    let (mut d, mut left_a, mut left_b) = exact_diff(&a, &b);
    assert_eq!(d.matched, vec![(StableId(1), StableId(10))]);
    propagate_round(&mut d, &a, &b, &mut left_a, &mut left_b);
    assert_eq!(d.changed, vec![(StableId(2), StableId(11))]);
    assert_eq!(d.provenance.last().unwrap().1, MatchInfo { method: MatchMethod::Propagation, confidence: 100 });
    assert!(left_a.is_empty() && left_b.is_empty());
}

#[test]
fn propagation_never_pairs_a_shared_neighbourhood() {
    // Two leaves called by main on each side, both with changed bodies: symmetric, so neither pairs.
    let a = prog(vec![
        func(1, 0x1000, "main", 3, vec![2, 3]),
        func(2, 0x1100, "f", 2, vec![]),
        func(3, 0x1200, "g", 4, vec![]),
    ]);
    let b = prog(vec![
        func(10, 0x1000, "main", 3, vec![11, 12]),
        func(11, 0x1100, "f", 6, vec![]),
        func(12, 0x1200, "g", 8, vec![]),
    ]);
    let (mut d, mut left_a, mut left_b) = exact_diff(&a, &b);
    propagate_round(&mut d, &a, &b, &mut left_a, &mut left_b);
    assert!(d.changed.is_empty());
    assert_eq!(left_a, vec![StableId(2), StableId(3)]);
    assert_eq!(left_b, vec![StableId(11), StableId(12)]);
}

#[test]
fn an_unchanged_body_paired_late_is_matched_not_changed() {
    let a = prog(vec![func(1, 0x1000, "f", 2, vec![])]);
    let b = prog(vec![func(9, 0x1000, "f", 2, vec![])]);
    let mut d = ProgramDiff::default();
    record_pair(&mut d, &a, &b, StableId(1), StableId(9), MatchInfo { method: MatchMethod::Fuzzy, confidence: 70 });
    assert_eq!(d.matched, vec![(StableId(1), StableId(9))]);
    assert!(d.changed.is_empty());
    assert_eq!(d.provenance, vec![(StableId(1), MatchInfo { method: MatchMethod::Fuzzy, confidence: 70 })]);
}

#[test]
fn a_scored_rung_pairs_only_reciprocal_bests() {
    let a = prog(vec![func(1, 0x1000, "p", 2, vec![]), func(2, 0x1100, "q", 3, vec![])]);
    let b = prog(vec![func(7, 0x1000, "p", 9, vec![]), func(8, 0x1100, "q", 8, vec![])]);
    let mut d = ProgramDiff::default();
    let mut left_a = vec![StableId(1), StableId(2)];
    let mut left_b = vec![StableId(7), StableId(8)];
    let elig_a = left_a.clone();
    let elig_b = left_b.clone();
    // 1's best is 7 and 7's best is 1; 2's best is 8 but 8's best is 1: only (1, 7) pairs.
    let best_of_a = vec![Some(StableId(7)), Some(StableId(8))];
    let conf = vec![91, 60];
    let best_of_b = vec![Some(StableId(1)), Some(StableId(1))];
    feature_round(&mut d, &a, &b, &mut left_a, &mut left_b, &elig_a, &best_of_a, &conf, &elig_b, &best_of_b, MatchMethod::Anchor);
    assert_eq!(d.changed, vec![(StableId(1), StableId(7))]);
    assert_eq!(d.provenance, vec![(StableId(1), MatchInfo { method: MatchMethod::Anchor, confidence: 91 })]);
    assert_eq!(left_a, vec![StableId(2)]);
    assert_eq!(left_b, vec![StableId(8)]);
}

#[test]
fn eligibility_follows_each_rungs_signal() {
    let mut rich = func(1, 0x1000, "rich", 2, vec![]);
    rich.string_refs = vec!["hello".into()];
    rich.imports = vec!["printf".into()];
    rich.bsim_vector = vec![(1, 0), (2, 0), (3, 0), (4, 0)];
    let mut poor = func(2, 0x1100, "poor", 2, vec![]);
    poor.string_refs = vec!["same".into()];
    poor.imports = vec!["same".into()];
    poor.mnemonics = vec![];
    let p = prog(vec![rich, poor]);
    let left = vec![StableId(1), StableId(2)];
    assert_eq!(eligible_ids(&p, &left, MatchMethod::Anchor), vec![StableId(1)]);
    assert_eq!(eligible_ids(&p, &left, MatchMethod::Bsim), vec![StableId(1)]);
    assert_eq!(eligible_ids(&p, &left, MatchMethod::Fuzzy), vec![StableId(1)]);
}

#[test]
fn a_model_diffed_against_itself_pairs_every_function_with_itself() {
    let p = prog(vec![
        func(1, 0x1000, "main", 3, vec![2, 3]),
        func(2, 0x1100, "gcd", 2, vec![]),
        func(3, 0x1200, "fib", 4, vec![3]),
    ]);
    let (d, left_a, left_b) = exact_diff(&p, &p);
    assert_eq!(
        d.matched,
        vec![(StableId(1), StableId(1)), (StableId(2), StableId(2)), (StableId(3), StableId(3))]
    );
    assert!(d.changed.is_empty());
    assert!(left_a.is_empty());
    assert!(left_b.is_empty());
}
