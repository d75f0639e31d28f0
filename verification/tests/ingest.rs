use scylla::ingest::{parse_addr, snapshot_program, SnapFunc, Snapshot};

fn snap_func(entry: &str, name: &str, callees: &[&str]) -> SnapFunc {
    SnapFunc {
        entry: entry.into(),
        name: name.into(),
        size: 1,
        bb_count: 1,
        callees: callees.iter().map(|c| c.to_string()).collect(),
        ..SnapFunc::default()
    }
}

#[test]
fn duplicate_entry_addresses_get_distinct_ids() {
    // The same input the JSON form spells out: two functions at 0x1000, and a caller of 0x1000.
    let snap = Snapshot {
        program: "p".into(),
        language: "l".into(),
        functions: vec![
            snap_func("0x1000", "a", &[]),
            snap_func("0x1000", "b", &[]),
            snap_func("0x2000", "caller", &["0x1000"]),
        ],
    };
    let prog = snapshot_program(&snap);
    let id = |n: &str| prog.functions.iter().find(|f| f.name == n).unwrap().id;
    assert_ne!(id("a"), id("b"), "two functions sharing an entry address must not share an id");
    let caller = prog.functions.iter().find(|f| f.name == "caller").unwrap();
    assert!(caller.callees.is_empty(), "a call to the ambiguous address resolves to nothing");
}

#[test]
fn callees_resolve_through_entry_addresses() {
    let mut f = snap_func("0x401000", "main", &["401100", "0X401100", "zzz", "0x9999"]);
    f.bsim_vector = vec![(0xDEAD_BEEF, 1.0f32.to_bits()), (0x1234, 0.5f32.to_bits())];
    f.mnemonics = vec!["PUSH".into(), "RET".into()];
    let snap = Snapshot {
        program: "mathlib".into(),
        language: "x86".into(),
        functions: vec![f, snap_func(" 0x401100 ", "gcd", &[]), snap_func("junk", "odd", &[])],
    };
    let prog = snapshot_program(&snap);
    assert_eq!(prog.name, "mathlib");
    assert_eq!(prog.functions[0].id.0, 1);
    assert_eq!(prog.functions[1].id.0, 2);
    assert_eq!(prog.functions[0].addr, 0x401000);
    assert_eq!(prog.functions[1].addr, 0x401100);
    assert_eq!(prog.functions[2].addr, 0, "an unparseable entry keeps address 0");
    let gcd = prog.functions[1].id;
    assert_eq!(prog.functions[0].callees, vec![gcd, gcd], "dangling and unparseable callees drop");
    assert_eq!(prog.functions[0].bsim_vector, vec![(0xDEAD_BEEFu32, 1.0f32.to_bits()), (0x1234u32, 0.5f32.to_bits())]);
    assert_eq!(prog.functions[0].mnemonics.len(), 2);
    assert_ne!(prog.functions[0].fingerprint, 0);
    assert_eq!(prog.functions[2].fingerprint, 0);
}

#[test]
fn addresses_parse_as_hex_with_an_optional_prefix() {
    assert_eq!(parse_addr("0x401156"), Some(0x401156));
    assert_eq!(parse_addr("0X401156"), Some(0x401156));
    assert_eq!(parse_addr("401156"), Some(0x401156));
    assert_eq!(parse_addr("  0x10 "), Some(0x10));
    assert_eq!(parse_addr("0x"), None);
    assert_eq!(parse_addr("ram:1000"), None);
    assert_eq!(parse_addr("0x1_0000_0000_0000_0000"), None);
}
