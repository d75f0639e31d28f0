use scylla::decomp::{compare_decomp, parse_addr, parse_baseline, DecompFunction};

const DUMP: &str = "## LANGUAGE x86:LE:64:default / gcc\n## IMAGEBASE 00400000\n## FUNCTIONS 2\n\n==== FUNCTION 00401000 _init ====\nPROTO int _init(EVP_PKEY_CTX * ctx)\nCCONV __stdcall\n---- DECOMP ----\n\nint _init(EVP_PKEY_CTX *ctx)\n\n{\n  return 1;\n}\n\n---- ASM+PCODE ----\n00401000: ENDBR64\n00401004: SUB RSP,0x8\n    (register, 0x200, 1) INT_LESS (register, 0x20, 8) , (const, 0x8, 8)\n\n==== FUNCTION ram:00010500 rustmath::gcd ====\nPROTO int gcd(int a, int b)\nCCONV __rustcall\n---- DECOMP ----\n<decompile-failed: timed out>\n---- ASM+PCODE ----\n00010500: RET\n";

#[test]
fn baseline_parses_header_functions_and_byte_exact_c() {
    let b = parse_baseline(DUMP).unwrap();
    assert_eq!(b.language, "x86:LE:64:default");
    assert_eq!(b.functions.len(), 2);
    let f = &b.functions[0];
    assert_eq!(f.entry, 0x401000);
    assert_eq!(f.name, "_init");
    assert_eq!(f.prototype, "int _init(EVP_PKEY_CTX * ctx)");
    assert_eq!(f.calling_convention, "__stdcall");
    assert_eq!(
        f.c,
        "\nint _init(EVP_PKEY_CTX *ctx)\n\n{\n  return 1;\n}\n\n"
    );
    assert!(f.error.is_empty());
    // Space-qualified address, namespaced name, and a failed decompilation → error, not C.
    let g = &b.functions[1];
    assert_eq!(g.entry, 0x10500);
    assert_eq!(g.name, "rustmath::gcd");
    assert_eq!(g.error, "timed out");
    assert!(g.c.is_empty());
}

#[test]
fn identical_legs_are_parity_and_a_changed_body_is_not() {
    let outside = parse_baseline(DUMP).unwrap().functions;
    let inside = outside.clone();
    assert!(compare_decomp(&inside, &outside).is_parity());

    let mut drifted = inside.clone();
    drifted[0].c = drifted[0].c.replace("return 1", "return 2");
    drifted.pop();
    let r = compare_decomp(&drifted, &outside);
    assert!(!r.is_parity());
    assert_eq!(r.only_outside, vec![0x10500]);
    assert_eq!(r.field_mismatches.len(), 1);
    assert_eq!(r.field_mismatches[0].field, "c");
    assert_eq!(r.field_mismatches[0].addr, 0x401000);
}

#[test]
fn a_malformed_header_is_refused_with_the_line() {
    let e = parse_baseline("==== FUNCTION 00401000 ====\n").unwrap_err();
    assert_eq!(e, "malformed function header: \"==== FUNCTION 00401000 ====\"");
    let e = parse_baseline("==== FUNCTION 00401000 main\n").unwrap_err();
    assert_eq!(e, "malformed function header: \"==== FUNCTION 00401000 main\"");
}

#[test]
fn a_bad_address_is_refused_with_the_parse_error() {
    let e = parse_baseline("==== FUNCTION 0040zz00 main ====\n").unwrap_err();
    assert_eq!(e, "bad address \"0040zz00\": invalid digit found in string");
    assert_eq!(
        parse_addr("ram:").unwrap_err(),
        "bad address \"ram:\": cannot parse integer from empty string"
    );
    assert_eq!(
        parse_addr("0x10000000000000000").unwrap_err(),
        "bad address \"0x10000000000000000\": number too large to fit in target type"
    );
}

#[test]
fn addresses_take_the_offset_after_the_space_and_an_optional_prefix() {
    assert_eq!(parse_addr(" ram:00010500 ").unwrap(), 0x10500);
    assert_eq!(parse_addr("0X1f").unwrap(), 0x1f);
    assert_eq!(parse_addr("0x401000").unwrap(), 0x401000);
    assert_eq!(parse_addr("+ff").unwrap(), 0xff);
}

#[test]
fn crlf_lines_and_a_missing_final_newline_parse_alike() {
    let unix = "## LANGUAGE ARM:LE:32:v8 / default\n==== FUNCTION 10 f ====\n---- DECOMP ----\nint f;\n";
    let dos = "## LANGUAGE ARM:LE:32:v8 / default\r\n==== FUNCTION 10 f ====\r\n---- DECOMP ----\r\nint f;";
    let a = parse_baseline(unix).unwrap();
    let b = parse_baseline(dos).unwrap();
    assert_eq!(a.language, "ARM:LE:32:v8");
    assert_eq!(a, b);
    assert_eq!(a.functions[0].c, "int f;\n");
}

#[test]
fn decomp_field_mismatches_show_raw_text() {
    let x = DecompFunction {
        entry: 1,
        name: "f".into(),
        prototype: "void f(void)".into(),
        ..Default::default()
    };
    let mut y = x.clone();
    y.prototype = "int f(void)".into();
    y.error = "boom".into();
    let r = compare_decomp(&[x], &[y]);
    assert_eq!(r.field_mismatches.len(), 2);
    assert_eq!(r.field_mismatches[0].field, "prototype");
    assert_eq!(r.field_mismatches[0].inside, "void f(void)");
    assert_eq!(r.field_mismatches[0].outside, "int f(void)");
    assert_eq!(r.field_mismatches[1].field, "error");
    assert_eq!(r.functions_inside, 1);
}

#[test]
fn only_a_bad_header_fails_and_the_first_one_is_reported() {
    let text = "garbage\n## LANGUAGE x / y\nPROTO stray\n==== FUNCTION 00401000 main ====\n==== FUNCTION zz a ====\n==== FUNCTION 00401000 ====\n";
    assert_eq!(parse_baseline(text).unwrap_err(), "bad address \"zz\": invalid digit found in string");
    assert!(parse_baseline("anything at all\n---- DECOMP ----\nint x;\n").is_ok());
}

#[test]
fn parity_holds_exactly_for_dumps_with_the_same_entries_and_text() {
    let one = parse_baseline("==== FUNCTION 00401000 main ====\n---- DECOMP ----\nint main() {}\n").unwrap();
    let other = parse_baseline("==== FUNCTION 00401000 main ====\n---- DECOMP ----\nint main() { return 0; }\n").unwrap();
    assert!(compare_decomp(&one.functions, &one.functions).is_parity());
    assert!(!compare_decomp(&one.functions, &other.functions).is_parity());
}
