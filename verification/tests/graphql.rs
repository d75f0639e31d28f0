use scylla::graphql::{artifact_bytes, comment_of, diff_report, parse_id, type_of, Context, Mutation, Query, Zoom};
use scylla::merge::{MatchInfo, MatchMethod};
use scylla::model::{mnemonic_fingerprint, mnemonic_histogram, mnemonic_trigrams, FactKind, Function, Program, StableId, UserFact};
use scylla::port::{Session, SessionDiff};

fn func(id: u64, addr: u64, name: &str, callees: Vec<u64>) -> Function {
    let mn = vec!["MOV".to_string(), "RET".to_string()];
    Function {
        id: StableId(id),
        addr,
        name: name.into(),
        size: 32,
        bb_count: 2,
        callees: callees.into_iter().map(StableId).collect(),
        fingerprint: mnemonic_fingerprint(&mn),
        mnemonics: mnemonic_histogram(&mn),
        trigrams: mnemonic_trigrams(&mn),
        string_refs: vec![],
        imports: vec![],
        callee_names: vec![],
        bsim_vector: vec![],
        edge_provenance: vec![],
    }
}

fn context() -> Context {
    Context::new(Session::open(Program {
        name: "mathlib".into(),
        language: "x86:LE:64:default".into(),
        functions: vec![func(1, 0x1000, "main", vec![2, 3]), func(2, 0x1100, "gcd", vec![]), func(3, 0x1200, "fib", vec![3])],
        facts: vec![],
    }))
}

#[test]
fn info_reports_name_language_and_count() {
    let c = context();
    let i = Query::info(&c);
    assert_eq!((i.name.as_str(), i.language.as_str(), i.functions), ("mathlib", "x86:LE:64:default", 3));
}

#[test]
fn functions_are_sorted_by_name_with_decimal_ids() {
    let c = context();
    let fs = Query::functions(&c, None);
    let names: Vec<&str> = fs.iter().map(|f| f.name.as_str()).collect();
    assert_eq!(names, vec!["fib", "gcd", "main"]);
    assert_eq!(fs[0].id, "3");
    assert_eq!(fs[2].summary, "main — 2 block(s), 2 out-call(s), 0 caller(s)");
}

#[test]
fn search_is_a_case_insensitive_substring_in_model_order() {
    let c = context();
    let hits = Query::search(&c, "G", Some(Zoom::Intent));
    let names: Vec<&str> = hits.iter().map(|f| f.name.as_str()).collect();
    assert_eq!(names, vec!["gcd"]);
}

#[test]
fn function_detail_follows_the_zoom_and_errors_on_a_bad_id() {
    let c = context();
    let d = Query::function(&c, "2", Some(Zoom::Detail)).unwrap().unwrap();
    assert_eq!(d.addr.as_deref(), Some("4352"));
    assert_eq!(d.size.as_deref(), Some("32"));
    assert_eq!(d.callers, Some(vec!["main".to_string()]));
    let d = Query::function(&c, "2", Some(Zoom::Intent)).unwrap().unwrap();
    assert!(d.addr.is_none() && d.bb_count.is_none() && d.callees.is_none());
    assert!(Query::function(&c, "99", None).unwrap().is_none());
    assert_eq!(Query::function(&c, "x", None).err().unwrap(), "id must be an integer");
}

#[test]
fn callers_name_their_functions_and_refuse_an_unknown_id() {
    let c = context();
    let cs = Query::callers(&c, "3").unwrap();
    let got: Vec<(&str, &str)> = cs.iter().map(|x| (x.id.as_str(), x.name.as_str())).collect();
    assert_eq!(got, vec![("1", "main"), ("3", "fib")]);
    assert_eq!(Query::callers(&c, "42").err().unwrap(), "no function with id 42");
}

#[test]
fn mutations_land_on_the_session_and_refuse_blank_names() {
    let mut c = context();
    let r = Mutation::rename(&mut c, "2", "euclid_gcd").unwrap();
    assert!(r.ok);
    assert_eq!(r.id, "2");
    assert_eq!(Query::function(&c, "2", None).unwrap().unwrap().name, "euclid_gcd");
    assert_eq!(Mutation::rename(&mut c, "2", "  ").err().unwrap(), "invalid input: a function name cannot be empty");
    assert_eq!(Mutation::retype(&mut c, "7", "int").err().unwrap(), "no function with id 7");
    Mutation::comment(&mut c, "2", "Euclid").unwrap();
    Mutation::retype(&mut c, "2", "int (*)(int, int)").unwrap();
    let d = Query::function(&c, "2", None).unwrap().unwrap();
    assert_eq!(d.comment.as_deref(), Some("Euclid"));
    assert_eq!(d.user_type.as_deref(), Some("int (*)(int, int)"));
}

#[test]
fn comment_and_type_are_the_first_such_fact() {
    let mut p = Program::default();
    p.facts.push(UserFact::new(StableId(1), FactKind::Comment("first".into())));
    p.facts.push(UserFact::new(StableId(1), FactKind::Comment("second".into())));
    assert_eq!(comment_of(&p, StableId(1)).as_deref(), Some("first"));
    assert_eq!(type_of(&p, StableId(1)), None);
    assert_eq!(parse_id("18446744073709551615").unwrap(), StableId(u64::MAX));
    assert!(parse_id("-1").is_err());
}

#[test]
fn diff_report_splits_renames_and_tallies_rungs_in_order() {
    let exact = MatchInfo { method: MatchMethod::Exact, confidence: 100 };
    let fuzzy = MatchInfo { method: MatchMethod::Fuzzy, confidence: 62 };
    let d = SessionDiff {
        matched: vec![("main".into(), "main".into()), ("gcd".into(), "euclid".into())],
        changed: vec![("fib".into(), "fib".into())],
        only_here: vec!["old".into()],
        only_there: vec!["new".into()],
        provenance: vec![("main".into(), exact), ("gcd".into(), fuzzy), ("fib".into(), exact)],
    };
    let r = diff_report(&d);
    assert_eq!(r.matched, 1);
    assert_eq!(r.renamed.len(), 1);
    assert_eq!((r.renamed[0].from.as_str(), r.renamed[0].to.as_str()), ("gcd", "euclid"));
    assert_eq!(r.modified.len(), 1);
    assert_eq!(r.added, vec!["new".to_string()]);
    assert_eq!(r.removed, vec!["old".to_string()]);
    let tally: Vec<(&str, i32)> = r.methods.iter().map(|m| (m.method.as_str(), m.count)).collect();
    assert_eq!(tally, vec![("exact", 2), ("fuzzy", 1)]);
    assert_eq!(r.confidence[1].name, "gcd");
    assert_eq!(r.confidence[1].method, "fuzzy");
    assert_eq!(r.confidence[1].confidence, 62);
}

#[test]
fn export_is_standard_padded_base64_and_reads_back() {
    let bytes = b"\xFA\xEC\x20\x55\0";
    let text = Query::export(bytes);
    assert_eq!(text, "+uwgVQA=");
    assert_eq!(artifact_bytes(&text).unwrap(), bytes.to_vec());
    assert_eq!(Query::export(b""), "");
    assert_eq!(Query::export(b"M"), "TQ==");
    assert_eq!(Query::export(b"Ma"), "TWE=");
    assert_eq!(Query::export(b"Man"), "TWFu");
}

#[test]
fn malformed_base64_is_a_named_error() {
    let e = artifact_bytes("!!!!").unwrap_err();
    assert_eq!(e, "artifactBase64 is not valid base64: Invalid symbol 33, offset 0.");
}
