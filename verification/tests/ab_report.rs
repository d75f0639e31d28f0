use scylla::ab_report::{compare_text, decomp_text};
use scylla::abtest::{FieldMismatch, Report};
use scylla::decomp::DecompReport;

#[test]
fn the_compare_report_lists_every_difference() {
    let r = Report {
        functions_inside: 2,
        functions_outside: 3,
        language_mismatch: Some(("x86".into(), "ARM".into())),
        only_inside: vec![],
        only_outside: vec![0x401200],
        field_mismatches: vec![FieldMismatch {
            addr: 0x401100,
            name: "gcd".into(),
            field: "bb_count",
            inside: "1".into(),
            outside: "3".into(),
        }],
        projection_mismatches: vec!["only outside: gcd".into()],
        masked: vec![],
    };
    assert_eq!(
        compare_text("in.scylla", "out.json", &r),
        vec![
            "scylla-abtest: in.scylla  vs  out.json",
            "  functions: inside 2  outside 3",
            "  LANGUAGE MISMATCH: inside \"x86\" outside \"ARM\"",
            "  only outside: 0x401200",
            "  0x401100 gcd .bb_count: inside 1 | outside 3",
            "  projection: only outside: gcd",
            "  result: DIFFERS",
        ]
    );
    let clean = Report { functions_inside: 1, functions_outside: 1, ..Report::default() };
    assert_eq!(compare_text("a", "b", &clean).last().unwrap(), "  result: PARITY");
}

#[test]
fn the_decomp_report_names_the_field_only() {
    let r = DecompReport {
        functions_inside: 1,
        functions_outside: 2,
        only_inside: vec![],
        only_outside: vec![0x10500],
        field_mismatches: vec![FieldMismatch {
            addr: 0x401000,
            name: "_init".into(),
            field: "c",
            inside: "a".into(),
            outside: "b".into(),
        }],
    };
    assert_eq!(
        decomp_text("in.json", "out.txt", &r),
        vec![
            "scylla-abtest decomp: in.json  vs  out.txt",
            "  functions: inside 1  outside 2",
            "  only outside: 0x10500",
            "  0x401000 _init .c: differs",
            "  result: DIFFERS",
        ]
    );
}
