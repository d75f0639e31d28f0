use scylla::mcp::{call_tool, is_status_only, tool_text, ToolArgs, ToolReply};
use scylla::model::{mnemonic_fingerprint, mnemonic_histogram, mnemonic_trigrams, Function, Program, StableId};
use scylla::port::{Session, Zoom};

fn func(id: u64, name: &str, callees: Vec<u64>) -> Function {
    let mn = vec!["RET".to_string()];
    Function {
        id: StableId(id),
        addr: 0x1000 + id,
        name: name.into(),
        size: 8,
        bb_count: 1,
        callees: callees.into_iter().map(StableId).collect(),
        fingerprint: mnemonic_fingerprint(&mn),
        mnemonics: mnemonic_histogram(&mn),
        trigrams: mnemonic_trigrams(&mn),
        string_refs: vec![],
        imports: vec![],
        callee_names: vec![],
        bsim_vector: vec![],
        edge_provenance: vec![],
    }
}

fn session() -> Session {
    Session::open(Program {
        name: "p".into(),
        language: "l".into(),
        functions: vec![func(1, "main", vec![2]), func(2, "gcd", vec![])],
        facts: vec![],
    })
}

fn args() -> ToolArgs {
    ToolArgs { id: None, zoom: None, name: None, text: None, type_text: None, artifact_path: None, path: None }
}

#[test]
fn list_and_get_project_the_port() {
    let mut s = session();
    match call_tool(&mut s, "list_functions", &ToolArgs { zoom: Some("intent".into()), ..args() }).unwrap() {
        ToolReply::Views(vs) => {
            assert_eq!(vs.len(), 2);
            assert!(vs.iter().all(|v| v.addr.is_none()));
        }
        _ => panic!("list_functions answers views"),
    }
    match call_tool(&mut s, "get_function", &ToolArgs { id: Some(2), ..args() }).unwrap() {
        ToolReply::View(v) => assert_eq!(v, s.view(StableId(2), Zoom::Domain).unwrap()),
        _ => panic!("get_function answers a view"),
    }
    assert_eq!(call_tool(&mut s, "get_function", &args()).err().unwrap(), "missing or invalid 'id'");
    assert_eq!(
        call_tool(&mut s, "get_function", &ToolArgs { id: Some(9), ..args() }).err().unwrap(),
        "no such function: StableId(9)"
    );
    match call_tool(&mut s, "callers", &ToolArgs { id: Some(2), ..args() }).unwrap() {
        ToolReply::Callers(cs) => assert_eq!(cs, vec![(1, Some("main".to_string()))]),
        _ => panic!("callers answers callers"),
    }
}

#[test]
fn annotation_tools_check_their_arguments_then_annotate() {
    let mut s = session();
    assert_eq!(call_tool(&mut s, "rename", &ToolArgs { id: Some(2), ..args() }).err().unwrap(), "missing 'name'");
    assert_eq!(
        call_tool(&mut s, "rename", &ToolArgs { name: Some("euclid".into()), ..args() }).err().unwrap(),
        "missing or invalid 'id'"
    );
    assert!(matches!(
        call_tool(&mut s, "rename", &ToolArgs { id: Some(2), name: Some("euclid".into()), ..args() }).unwrap(),
        ToolReply::Ack
    ));
    assert_eq!(s.view(StableId(2), Zoom::Domain).unwrap().name, "euclid");
    assert_eq!(
        call_tool(&mut s, "retype", &ToolArgs { id: Some(2), type_text: Some(" ".into()), ..args() }).err().unwrap(),
        "invalid input: a type cannot be empty"
    );
    assert!(matches!(
        call_tool(&mut s, "comment", &ToolArgs { id: Some(2), text: Some(String::new()), ..args() }).unwrap(),
        ToolReply::Ack
    ));
}

#[test]
fn artifact_tools_hand_their_path_on() {
    let mut s = session();
    match call_tool(&mut s, "diff", &ToolArgs { artifact_path: Some("b.scylla".into()), ..args() }).unwrap() {
        ToolReply::DiffWith(p) => assert_eq!(p, "b.scylla"),
        _ => panic!("diff hands on its path"),
    }
    assert_eq!(call_tool(&mut s, "export", &args()).err().unwrap(), "missing 'path'");
    assert_eq!(call_tool(&mut s, "merge", &args()).err().unwrap(), "missing 'artifact_path'");
    assert_eq!(call_tool(&mut s, "nope", &args()).err().unwrap(), "unknown tool: nope");
}

#[test]
fn only_status_acks_are_left_unwrapped() {
    assert!(is_status_only("rename") && is_status_only("merge") && is_status_only("export"));
    assert!(!is_status_only("list_functions") && !is_status_only("diff"));
    assert_eq!(tool_text("rename", "{\"ok\":true}".into()), "{\"ok\":true}");
    let t = tool_text("get_function", "{\"name\":\"x\"}".into());
    assert!(t.contains("<untrusted-data>\n{\"name\":\"x\"}\n</untrusted-data>"));
}
