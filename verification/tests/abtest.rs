use std::collections::BTreeSet;

use scylla::abtest::{compare, compare_masked, flaky};
use scylla::model::{
    mnemonic_fingerprint, mnemonic_histogram, mnemonic_trigrams, Function, IdMinter, Program,
    StableId,
};

fn func(id: StableId, addr: u64, name: &str, callees: Vec<StableId>) -> Function {
    let mn = vec!["PUSH".to_string(), "MOV".to_string(), "RET".to_string()];
    Function {
        id,
        addr,
        name: name.into(),
        size: 16,
        bb_count: 1,
        callees,
        fingerprint: mnemonic_fingerprint(&mn),
        mnemonics: mnemonic_histogram(&mn),
        trigrams: mnemonic_trigrams(&mn),
        string_refs: vec![],
        imports: vec![],
        callee_names: vec![],
        bsim_vector: vec![],
        edge_provenance: vec![],
    }
}

fn program(name: &str, skip_ids: u64) -> Program {
    // Mint ids from a different starting point per program: identity must NOT leak into parity.
    let mut m = IdMinter::new();
    for _ in 0..skip_ids {
        m.mint();
    }
    let (a, b) = (m.mint(), m.mint());
    Program {
        name: name.into(),
        language: "x86:LE:64:default".into(),
        functions: vec![
            func(a, 0x401000, "main", vec![b]),
            func(b, 0x401100, "gcd", vec![]),
        ],
        facts: vec![],
    }
}

#[test]
fn same_model_under_different_names_and_ids_is_parity() {
    let inside = program("scylla-bin1234.bin", 0);
    let outside = program("mathlib.elf", 7);
    let r = compare(&inside, &outside);
    assert!(r.is_parity(), "{r:?}");
    assert_eq!(r.functions_inside, 2);
}

#[test]
fn a_changed_field_is_named_by_addr_and_field() {
    let inside = program("a", 0);
    let mut outside = program("b", 0);
    outside.functions[1].bb_count = 3;
    let r = compare(&inside, &outside);
    assert!(!r.is_parity());
    assert_eq!(r.field_mismatches.len(), 1);
    assert_eq!(r.field_mismatches[0].addr, 0x401100);
    assert_eq!(r.field_mismatches[0].field, "bb_count");
    // The port projection sees it too (bb is part of the Detail view).
    assert!(!r.projection_mismatches.is_empty());
}

#[test]
fn a_missing_function_lands_in_only_lists() {
    let inside = program("a", 0);
    let mut outside = program("b", 0);
    outside.functions.pop();
    let r = compare(&inside, &outside);
    assert_eq!(r.only_inside, vec![0x401100]);
    assert!(r.only_outside.is_empty());
    assert!(!r.is_parity());
}

#[test]
fn flaky_lists_only_functions_the_runs_disagree_on() {
    let r1 = program("run1", 0);
    let mut r2 = program("run2", 3);
    r2.functions[1].size = 99; // gcd's extent flipped between two raw runs
    let f = flaky(&[r1.clone(), r2.clone(), r1.clone()]);
    assert_eq!(f.runs, 3);
    assert_eq!(f.functions.len(), 1);
    assert_eq!(f.functions[0].addr, "0x401100");
    assert_eq!(f.functions[0].fields, vec!["size"]);
    assert_eq!(f.functions[0].variants, vec![(16, 1), (99, 1)]);
    assert_eq!(f.mask(), BTreeSet::from([0x401100]));
    // Identical runs -> nothing flaky.
    assert!(flaky(&[r1.clone(), r1]).functions.is_empty());
}

#[test]
fn a_masked_function_is_listed_and_excluded_but_presence_still_counts() {
    let inside = program("a", 0);
    let mut outside = program("b", 0);
    outside.functions[1].bb_count = 3;
    let mask = BTreeSet::from([0x401100]);
    let r = compare_masked(&inside, &outside, &mask);
    assert!(r.is_parity(), "{r:?}");
    assert_eq!(r.masked.len(), 1);
    assert_eq!(r.masked[0].name, "gcd");
    // ...but a masked function MISSING from a leg is still a real difference.
    outside.functions.pop();
    let r = compare_masked(&inside, &outside, &mask);
    assert_eq!(r.only_inside, vec![0x401100]);
    assert!(!r.is_parity());
}

#[test]
fn a_language_mismatch_is_not_parity() {
    let inside = program("a", 0);
    let mut outside = program("b", 0);
    outside.language = "ARM:LE:32:v8".into();
    let r = compare(&inside, &outside);
    assert!(r.language_mismatch.is_some());
    assert!(!r.is_parity());
}

#[test]
fn a_program_compared_with_itself_is_at_parity_and_identical_runs_are_not_flaky() {
    let p = program("mathlib.elf", 3);
    assert!(compare(&p, &p).is_parity());
    let mut mask = BTreeSet::new();
    mask.insert(0x401000u64);
    assert!(compare_masked(&p, &p, &mask).is_parity());
    let f = flaky(&[p.clone(), p.clone(), p]);
    assert_eq!(f.runs, 3);
    assert!(f.functions.is_empty());
    assert!(flaky(&[]).functions.is_empty());
}

#[test]
fn a_fingerprint_that_differs_between_runs_is_flaky() {
    let r1 = program("run1", 0);
    let mut r2 = program("run2", 0);
    r2.functions[0].fingerprint ^= 1;
    let f = flaky(&[r1.clone(), r2]);
    assert_eq!(f.functions.len(), 1);
    assert_eq!(f.functions[0].addr, "0x401000");
    assert_eq!(f.functions[0].fields, vec!["fingerprint"]);
    assert_eq!(f.mask(), BTreeSet::from([0x401000]));
}
