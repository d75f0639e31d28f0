use scylla::cli::{callers_by_name, caller_text, diff_text, info_text, listing_text, parse_id, parse_zoom, view_text};
use scylla::merge::{MatchInfo, MatchMethod};
use scylla::model::{FactKind, Program, StableId, UserFact};
use scylla::port::{FunctionView, SessionDiff, Zoom};

#[test]
fn zoom_arguments_default_to_domain_and_refuse_the_unknown() {
    assert_eq!(parse_zoom(None).unwrap(), Zoom::Domain);
    assert_eq!(parse_zoom(Some("domain")).unwrap(), Zoom::Domain);
    assert_eq!(parse_zoom(Some("intent")).unwrap(), Zoom::Intent);
    assert_eq!(parse_zoom(Some("detail")).unwrap(), Zoom::Detail);
    assert_eq!(parse_zoom(Some("loud")).unwrap_err(), "error: unknown zoom \"loud\" (want intent|domain|detail)");
}

#[test]
fn ids_must_be_integers() {
    assert_eq!(parse_id("17").unwrap(), StableId(17));
    assert_eq!(parse_id("gcd").unwrap_err(), "error: id must be an integer, got \"gcd\"");
}

#[test]
fn info_lists_name_language_and_count() {
    let p = Program { name: "mathlib".into(), language: "x86".into(), functions: vec![], facts: vec![] };
    assert_eq!(info_text(&p), vec!["name:      mathlib", "language:  x86", "functions: 0"]);
}

fn view() -> FunctionView {
    FunctionView {
        id: StableId(4),
        name: "gcd".into(),
        summary: "gcd — 2 block(s)".into(),
        addr: Some(0x401156),
        bb_count: Some(2),
        callees: Some(vec![]),
        callers: Some(vec!["main".into(), "lcm".into()]),
        size: Some(64),
    }
}

#[test]
fn view_and_listing_lines() {
    assert_eq!(listing_text(&vec![view()]), vec!["4\tgcd\tgcd — 2 block(s)"]);
    assert_eq!(
        view_text(&view()),
        vec![
            "name:    gcd",
            "summary: gcd — 2 block(s)",
            "address: 0x401156",
            "blocks:  2",
            "size:    64 bytes",
            "calls:   (none)",
            "callers: main, lcm",
        ]
    );
}

#[test]
fn callers_are_sorted_by_display_name() {
    let mut p = Program::default();
    p.functions = vec![];
    p.facts.push(UserFact::new(StableId(2), FactKind::Rename("alpha".into())));
    let es = callers_by_name(&p, &vec![StableId(5), StableId(2)]);
    // 5 has no name (empty sorts first); 2 is renamed "alpha"
    assert_eq!(caller_text(&es), vec!["5\t", "2\talpha"]);
}

#[test]
fn the_diff_report_names_every_difference_and_sets_the_status() {
    let exact = MatchInfo { method: MatchMethod::Exact, confidence: 100 };
    let d = SessionDiff {
        matched: vec![("main".into(), "main".into()), ("gcd".into(), "euclid".into())],
        changed: vec![("fib".into(), "fib".into()), ("a".into(), "b".into())],
        only_here: vec!["old".into()],
        only_there: vec![],
        provenance: vec![("main".into(), exact)],
    };
    let (lines, differs) = diff_text("a.scylla", "b.scylla", &d);
    assert!(differs);
    assert_eq!(
        lines,
        vec![
            "scylla diff: a.scylla  vs  b.scylla",
            "  1 unchanged · 1 renamed · 2 modified · 0 added · 1 removed",
            "\nrenamed:",
            "  gcd -> euclid",
            "\nmodified:",
            "  fib",
            "  a -> b",
            "\nremoved (only in a.scylla):",
            "  old",
        ]
    );
    let same = SessionDiff { matched: vec![("main".into(), "main".into())], ..SessionDiff::default() };
    let (lines, differs) = diff_text("x", "y", &same);
    assert!(!differs);
    assert_eq!(lines.last().unwrap(), "\nno differences");
}
