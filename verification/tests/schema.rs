use scylla::model::{EdgeProvenance, FactKind, Function, Program, Provenance, StableId, UserFact};
use scylla::schema::{
    bounded_text, charge, decode_budget, fact_discriminant, fact_from_parts, quarantine, truncate_str, LoadError, LoadReport,
    MAX_STRING_LEN,
};

fn func(id: u64, name: &str, callees: Vec<u64>) -> Function {
    Function {
        id: StableId(id),
        addr: 0x1000 + id,
        name: name.into(),
        size: 8,
        bb_count: 1,
        callees: callees.into_iter().map(StableId).collect(),
        fingerprint: 0,
        mnemonics: vec![],
        trigrams: vec![],
        string_refs: vec![],
        imports: vec![],
        callee_names: vec![],
        bsim_vector: vec![],
        edge_provenance: vec![],
    }
}

#[test]
fn quarantine_drops_duplicates_and_dangling_references_and_counts_them() {
    let mut main = func(1, "main", vec![2, 99]);
    main.edge_provenance = vec![
        EdgeProvenance { target: StableId(2), provenance: Provenance::default() },
        EdgeProvenance { target: StableId(99), provenance: Provenance::default() },
    ];
    let prog = Program {
        name: "p".into(),
        language: "l".into(),
        functions: vec![main, func(2, "gcd", vec![]), func(2, "gcd_again", vec![])],
        facts: vec![
            UserFact::new(StableId(2), FactKind::Rename("euclid".into())),
            UserFact::new(StableId(42), FactKind::Comment("orphan".into())),
        ],
    };
    let (p, rep) = quarantine(prog, LoadReport::default());
    assert_eq!(p.functions.len(), 2);
    assert_eq!(p.functions[1].name, "gcd", "the first of a duplicated id stays");
    assert_eq!(p.functions[0].callees, vec![StableId(2)]);
    assert_eq!(p.functions[0].edge_provenance.len(), 1);
    assert_eq!(p.facts.len(), 1);
    assert_eq!(p.facts[0].target, StableId(2));
    assert_eq!(rep.dropped_duplicate_functions, 1);
    assert_eq!(rep.dropped_dangling_callees, 1);
    assert_eq!(rep.dropped_dangling_edge_provenance, 1);
    assert_eq!(rep.dropped_dangling_facts, 1);
    assert!(!rep.clean());
}

#[test]
fn a_sound_model_passes_quarantine_unchanged() {
    let prog = Program {
        name: "p".into(),
        language: "l".into(),
        functions: vec![func(1, "main", vec![2]), func(2, "gcd", vec![])],
        facts: vec![UserFact::new(StableId(1), FactKind::Comment("entry".into()))],
    };
    let (p, rep) = quarantine(prog.clone(), LoadReport::default());
    assert_eq!(p, prog);
    assert!(rep.clean());
}

#[test]
fn fact_kinds_round_trip_through_their_parts() {
    for k in [FactKind::Rename("a".into()), FactKind::Retype("int(int)".into()), FactKind::Comment("c".into())] {
        let (d, v) = fact_discriminant(&k);
        assert_eq!(fact_from_parts(d, v.to_string()), k);
    }
    assert_eq!(fact_from_parts(7, "x".into()), FactKind::Comment("x".into()));
}

#[test]
fn truncation_stops_on_a_char_boundary() {
    assert_eq!(truncate_str("hello", 10), "hello");
    assert_eq!(truncate_str("hello", 3), "hel");
    assert_eq!(truncate_str("h\u{e9}llo", 2), "h");
    assert_eq!(truncate_str("\u{e9}", 0), "");
}

#[test]
fn a_decode_failure_names_itself() {
    assert_eq!(LoadError::Decode("bad pointer".into()).message(), "artifact decode failed: bad pointer");
}

#[test]
fn the_decode_budget_is_eight_times_the_artifact_and_charges_down() {
    assert_eq!(decode_budget(10), 80);
    assert_eq!(decode_budget(usize::MAX), usize::MAX);
    assert_eq!(charge(80, "functions", 30), Ok(50));
    assert_eq!(charge(80, "functions", 80), Ok(0));
    assert_eq!(
        charge(10, "functions", 11),
        Err("artifact functions would decode to more than 8x the artifact size (DD-036 decode budget)".to_string())
    );
}

#[test]
fn over_long_text_is_cut_on_a_char_boundary_and_reported() {
    assert_eq!(bounded_text("abc"), ("abc".to_string(), false));
    let long = format!("{}\u{e9}", "a".repeat(MAX_STRING_LEN - 1));
    let (t, cut) = bounded_text(&long);
    assert!(cut);
    assert_eq!(t, "a".repeat(MAX_STRING_LEN - 1));
    let exact = "a".repeat(MAX_STRING_LEN);
    assert_eq!(bounded_text(&exact), (exact.clone(), false));
}
