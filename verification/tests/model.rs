use scylla::model::{
    histogram_fingerprint, mnemonic_fingerprint, mnemonic_histogram, mnemonic_trigrams, FactKind,
    Function, IdMinter, Program, StableId, UserFact,
};

#[test]
fn minter_is_monotonic_and_address_independent() {
    let mut m = IdMinter::new();
    let a = m.mint();
    let b = m.mint();
    assert_ne!(a, b);
    assert_eq!(a, StableId(1));
    assert_eq!(b, StableId(2));
}

#[test]
fn user_rename_wins_over_engine_symbol() {
    let mut m = IdMinter::new();
    let gcd = m.mint();
    let prog = Program {
        name: "mathlib".into(),
        language: "x86:LE:64:default".into(),
        functions: vec![Function {
            id: gcd,
            addr: 0x401156,
            name: "FUN_00401156".into(),
            size: 64,
            bb_count: 4,
            callees: vec![],
            fingerprint: 0,
            mnemonics: vec![],
            trigrams: vec![],
            string_refs: vec![],
            imports: vec![],
            callee_names: vec![],
            bsim_vector: vec![],
            edge_provenance: vec![],
        }],
        facts: vec![UserFact::new(gcd, FactKind::Rename("gcd".into()))],
    };
    assert_eq!(prog.display_name(gcd).as_deref(), Some("gcd"));
}

#[test]
fn fingerprint_is_order_independent_and_reserves_zero() {
    assert_eq!(mnemonic_fingerprint::<&str>(&[]), 0, "no data -> 0 sentinel");
    let a = mnemonic_fingerprint(&["MOV", "PUSH", "MOV", "RET"]);
    let b = mnemonic_fingerprint(&["MOV", "MOV", "RET", "PUSH"]); // same multiset, reordered
    assert_eq!(a, b, "the histogram is order-independent");
    assert_ne!(a, 0, "non-empty input never collides with the no-data sentinel");
    // A different instruction mix is a different fingerprint.
    assert_ne!(a, mnemonic_fingerprint(&["MOV", "PUSH", "RET"]));
    // The histogram is the sorted multiset; the fingerprint is its hash.
    let h = mnemonic_histogram(&["MOV", "PUSH", "MOV", "RET"]);
    assert_eq!(h, vec![("MOV".into(), 2), ("PUSH".into(), 1), ("RET".into(), 1)]);
    assert_eq!(histogram_fingerprint(&h), a);
}

#[test]
fn trigrams_capture_the_order_the_histogram_loses() {
    // Fewer than 3 mnemonics -> no window, no trigrams.
    assert!(mnemonic_trigrams::<&str>(&[]).is_empty());
    assert!(mnemonic_trigrams(&["MOV", "RET"]).is_empty());

    // Sliding length-3 windows, counted and sorted (deterministic).
    let t = mnemonic_trigrams(&["MOV", "ADD", "CMP", "MOV", "ADD", "CMP"]);
    assert_eq!(
        t,
        vec![
            ("ADD CMP MOV".into(), 1),
            ("CMP MOV ADD".into(), 1),
            ("MOV ADD CMP".into(), 2),
        ]
    );

    assert_eq!(
        mnemonic_histogram(&["MOV", "ADD", "RET"]),
        mnemonic_histogram(&["ADD", "MOV", "RET"]),
        "same multiset -> identical histogram"
    );
    assert_ne!(
        mnemonic_trigrams(&["MOV", "ADD", "RET"]),
        mnemonic_trigrams(&["ADD", "MOV", "RET"]),
        "but the trigrams differ -> order is captured"
    );
}
