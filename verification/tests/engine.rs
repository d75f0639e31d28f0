use scylla::engine::{
    assemble, check_stream_caps, chunk_to_function, FunctionChunk, MAX_FUNCTIONS,
    MAX_TOTAL_BYTES, MAX_TOTAL_MNEMONICS,
};
use scylla::model::{mnemonic_fingerprint, mnemonic_histogram, StableId};

#[test]
fn wire_chunk_maps_to_a_model_function() {
    let chunk = FunctionChunk {
        entry: 0x401156,
        name: "gcd".into(),
        size: 64,
        bb_count: 4,
        callees: vec![],
        mnemonics: vec!["PUSH".into(), "MOV".into(), "DIV".into(), "RET".into()],
        string_refs: vec![],
        imports: vec![],
        callee_names: vec![],
        bsim_vector: vec![],
    };
    let f = chunk_to_function(&chunk, StableId(1));
    assert_eq!(f.id, StableId(1));
    assert_eq!(f.addr, 0x401156);
    assert_eq!(f.name, "gcd");
    assert_eq!(f.bb_count, 4);
    assert_eq!(f.fingerprint, mnemonic_fingerprint(&chunk.mnemonics));
    assert_eq!(f.mnemonics, mnemonic_histogram(&chunk.mnemonics));
    assert_ne!(f.fingerprint, 0, "a chunk with mnemonics gets a real fingerprint");
}

#[test]
fn stream_caps_refuse_an_oversized_engine_stream() {
    assert!(check_stream_caps(10, 1_000, 1_000).is_ok());
    assert!(check_stream_caps(MAX_FUNCTIONS, MAX_TOTAL_MNEMONICS, MAX_TOTAL_BYTES).is_ok());
    assert!(check_stream_caps(MAX_FUNCTIONS + 1, 0, 0).is_err(), "too many functions refused");
    assert!(
        check_stream_caps(1, MAX_TOTAL_MNEMONICS + 1, 0).is_err(),
        "too many instructions refused"
    );
    assert!(
        check_stream_caps(1, 0, MAX_TOTAL_BYTES + 1).is_err(),
        "a byte flood with zero mnemonics is refused"
    );
}

fn chunk(entry: u64, name: &str, callees: Vec<u64>) -> FunctionChunk {
    FunctionChunk {
        entry,
        name: name.into(),
        size: 1,
        bb_count: 1,
        callees,
        mnemonics: vec![],
        string_refs: vec![],
        imports: vec![],
        callee_names: vec![],
        bsim_vector: vec![],
    }
}

#[test]
fn assemble_gives_distinct_ids_on_duplicate_entry_addresses() {
    let chunks = vec![
        chunk(0x1000, "a", vec![]),
        chunk(0x1000, "b", vec![]),
        chunk(0x2000, "caller", vec![0x1000]),
    ];
    let prog = assemble("p", "l", &chunks);
    let id = |n: &str| prog.functions.iter().find(|f| f.name == n).unwrap().id;
    assert_ne!(id("a"), id("b"), "duplicate entry addresses must not share a stable id");
    let caller = prog.functions.iter().find(|f| f.name == "caller").unwrap();
    assert!(caller.callees.is_empty(), "a call to the ambiguous address resolves to nothing");
}

#[test]
fn assemble_mints_ids_and_resolves_callees() {
    let chunks = vec![
        FunctionChunk {
            entry: 0x1000,
            name: "gcd".into(),
            size: 64,
            bb_count: 4,
            callees: vec![],
            mnemonics: vec![],
            string_refs: vec![],
            imports: vec![],
            callee_names: vec![],
            bsim_vector: vec![],
        },
        FunctionChunk {
            entry: 0x2000,
            name: "main".into(),
            size: 180,
            bb_count: 4,
            callees: vec![0x1000, 0x9999],
            mnemonics: vec![],
            string_refs: vec!["result=%d\n".into()],
            imports: vec!["printf".into()],
            callee_names: vec![],
            bsim_vector: vec![],
        },
    ];
    let p = assemble("prog", "x86:LE:64:default", &chunks);
    assert_eq!(p.name, "prog");
    assert_eq!(p.language, "x86:LE:64:default", "language from the ProgramInfo header survives");
    let gcd = p.functions.iter().find(|f| f.name == "gcd").unwrap();
    let main = p.functions.iter().find(|f| f.name == "main").unwrap();
    assert!(main.callees.contains(&gcd.id), "main -> gcd resolved to a stable id");
    assert_eq!(main.callees.len(), 1, "dangling callee 0x9999 is dropped");
    assert_eq!(main.string_refs, vec!["result=%d\n".to_string()]);
    assert_eq!(main.imports, vec!["printf".to_string()]);
    assert_ne!(gcd.id, main.id);
}

#[test]
fn stream_cap_messages_name_the_cap() {
    assert_eq!(
        check_stream_caps(MAX_FUNCTIONS + 1, 0, 0).unwrap_err(),
        "engine stream exceeded 1000000 functions — refusing (untrusted engine output)"
    );
}
