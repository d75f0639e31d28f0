use scylla::merge::{adopt_facts, collaborate, exact_anchor, propagate_all, propagate_match, retarget_facts, MatchMethod, Matching};
use scylla::model::{mnemonic_fingerprint, mnemonic_histogram, mnemonic_trigrams, FactKind, Function, Program, Provenance, StableId, UserFact};

fn func(id: u64, name: &str, bb: u32, callees: Vec<u64>) -> Function {
    let mn = vec!["PUSH".to_string(), "RET".to_string()];
    Function {
        id: StableId(id),
        addr: 0x1000 + 0x100 * id,
        name: name.into(),
        size: 8 * bb as u64,
        bb_count: bb,
        callees: callees.into_iter().map(StableId).collect(),
        fingerprint: mnemonic_fingerprint(&mn),
        mnemonics: mnemonic_histogram(&mn),
        trigrams: mnemonic_trigrams(&mn),
        string_refs: vec![],
        imports: vec![],
        callee_names: vec![],
        bsim_vector: vec![],
        edge_provenance: vec![],
    }
}

/// The same small program materialized with ids starting at `base`.
fn mathlib(base: u64) -> Program {
    Program {
        name: "mathlib".into(),
        language: "x86".into(),
        functions: vec![
            func(base, "main", 5, vec![base + 1, base + 2]),
            func(base + 1, "gcd", 3, vec![]),
            func(base + 2, "fib", 4, vec![base + 2]),
        ],
        facts: vec![],
    }
}

fn id_of(p: &Program, name: &str) -> StableId {
    p.functions.iter().find(|f| f.name == name).unwrap().id
}

fn has_rename(p: &Program, n: &str) -> bool {
    p.facts.iter().any(|f| matches!(&f.kind, FactKind::Rename(x) if x == n))
}

#[test]
fn collaboration_merges_non_conflicting_facts() {
    let mut a = mathlib(1);
    let mut b = mathlib(100);
    let a_main = id_of(&a, "main");
    let b_fib = id_of(&b, "fib");
    a.facts.push(UserFact::new(a_main, FactKind::Rename("entrypoint".into())));
    b.facts.push(UserFact::new(b_fib, FactKind::Comment("recursive".into())));
    let (report, conflicts) = collaborate(&mut a, &b);
    assert_eq!(conflicts.len(), 0);
    assert_eq!(report.merged, 1, "fib's comment should merge in");
    let fact = a.facts.iter().find(|f| matches!(&f.kind, FactKind::Comment(c) if c == "recursive")).unwrap();
    assert_eq!(fact.target, id_of(&a, "fib"), "re-targeted onto the base's own id");
}

#[test]
fn collaboration_surfaces_conflicts_without_overwriting() {
    let mut a = mathlib(1);
    let mut b = mathlib(100);
    let (a_fib, b_fib) = (id_of(&a, "fib"), id_of(&b, "fib"));
    a.facts.push(UserFact::new(a_fib, FactKind::Rename("fib_a".into())));
    b.facts.push(UserFact::new(b_fib, FactKind::Rename("fib_b".into())));
    let (report, conflicts) = collaborate(&mut a, &b);
    assert_eq!(report.conflicts, 1);
    assert_eq!(conflicts.len(), 1);
    assert!(has_rename(&a, "fib_a"));
    assert!(!has_rename(&a, "fib_b"));
}

#[test]
fn collaboration_resolves_disagreement_by_higher_confidence() {
    let mut a = mathlib(1);
    let mut b = mathlib(100);
    let (a_fib, b_fib) = (id_of(&a, "fib"), id_of(&b, "fib"));
    a.facts.push(UserFact::new(a_fib, FactKind::Rename("fib_guess".into())).with_provenance(Provenance { producer: "engine".into(), confidence: 45 }));
    b.facts.push(UserFact::new(b_fib, FactKind::Rename("recursive".into())).with_provenance(Provenance { producer: "user".into(), confidence: 100 }));
    let (report, conflicts) = collaborate(&mut a, &b);
    assert_eq!(conflicts.len(), 0, "a clear confidence winner is not a conflict");
    assert_eq!(report.resolved_by_confidence, 1);
    assert!(has_rename(&a, "recursive"));
    assert!(!has_rename(&a, "fib_guess"));
}

#[test]
fn collaboration_base_wins_when_more_confident() {
    let mut a = mathlib(1);
    let mut b = mathlib(100);
    let (a_fib, b_fib) = (id_of(&a, "fib"), id_of(&b, "fib"));
    a.facts.push(UserFact::new(a_fib, FactKind::Rename("recursive".into())));
    b.facts.push(UserFact::new(b_fib, FactKind::Rename("fib_guess".into())).with_provenance(Provenance { producer: "engine".into(), confidence: 40 }));
    let (report, conflicts) = collaborate(&mut a, &b);
    assert_eq!(conflicts.len(), 0);
    assert_eq!(report.resolved_by_confidence, 1);
    assert!(has_rename(&a, "recursive"));
    assert!(!has_rename(&a, "fib_guess"));
}

#[test]
fn collaboration_flags_a_near_tie_never_guesses() {
    let mut a = mathlib(1);
    let mut b = mathlib(100);
    let (a_fib, b_fib) = (id_of(&a, "fib"), id_of(&b, "fib"));
    a.facts.push(UserFact::new(a_fib, FactKind::Rename("fib_a".into())).with_provenance(Provenance { producer: "analyzer_a".into(), confidence: 85 }));
    b.facts.push(UserFact::new(b_fib, FactKind::Rename("fib_b".into())).with_provenance(Provenance { producer: "analyzer_b".into(), confidence: 90 }));
    let (report, conflicts) = collaborate(&mut a, &b);
    assert_eq!(report.conflicts, 1, "a near-tie is flagged, never auto-resolved");
    assert_eq!(report.resolved_by_confidence, 0);
    assert_eq!(conflicts.len(), 1);
    assert!(has_rename(&a, "fib_a"));
}

#[test]
fn an_unanchorable_incoming_fact_is_flagged() {
    let mut a = mathlib(1);
    let mut b = mathlib(100);
    b.facts.push(UserFact::new(StableId(9999), FactKind::Comment("ghost".into())));
    let (report, _) = collaborate(&mut a, &b);
    assert_eq!(report.flagged, 1);
    assert_eq!(report.merged, 0);
}

#[test]
fn re_analysis_carries_facts_through_the_exact_rung() {
    let mut old = mathlib(1);
    let mut new = mathlib(50);
    old.facts.push(UserFact::new(id_of(&old, "gcd"), FactKind::Rename("euclid_gcd".into())));
    old.facts.push(UserFact::new(StableId(777), FactKind::Comment("orphan".into())));
    let (m, deferred) = exact_anchor(&old, &new);
    assert_eq!(m.get(id_of(&old, "gcd")), Some(id_of(&new, "gcd")));
    assert_eq!(deferred, vec![StableId(777)]);
    let (merged, flagged) = retarget_facts(&m, &old.facts);
    assert_eq!(merged.len(), 1);
    assert_eq!(merged[0].target, id_of(&new, "gcd"));
    assert_eq!(flagged.len(), 1);
    let report = adopt_facts(&mut new, merged, flagged.len());
    assert_eq!((report.merged, report.flagged), (1, 1));
    assert!(has_rename(&new, "euclid_gcd"));
}

#[test]
fn propagation_places_a_function_by_its_anchored_neighbours() {
    // fib's body changed (no exact match) but main is anchored and fib is main's only
    // self-recursive callee: propagation places it; gcd (symmetric leaf) stays put.
    let mut old = mathlib(1);
    let mut new = mathlib(50);
    new.functions[2].bb_count = 9;
    old.facts.push(UserFact::new(id_of(&old, "main"), FactKind::Comment("entry".into())));
    old.facts.push(UserFact::new(id_of(&old, "fib"), FactKind::Comment("recursive".into())));
    let (mut m, deferred) = exact_anchor(&old, &new);
    assert_eq!(deferred, vec![id_of(&old, "fib")]);
    assert_eq!(propagate_match(id_of(&old, "fib"), &m, &old, &new), Some(id_of(&new, "fib")));
    propagate_all(&mut m, &deferred, &old, &new);
    assert_eq!(m.get(id_of(&old, "fib")), Some(id_of(&new, "fib")));
    assert!(m.is_claimed(id_of(&new, "fib")));
    let _ = Matching::new();
    let _ = MatchMethod::Propagation.as_str();
}
