use scylla::model::{mnemonic_fingerprint, mnemonic_histogram, mnemonic_trigrams, Function, Program, StableId};
use scylla::port::{Session, SessionDiff};
use scylla::port::FunctionView;
use scylla::tui::{detail_lines, key_action, list_title, status_line, title_line, Action, App, Key, Mode, Screen};

fn func(id: u64, name: &str, callees: Vec<u64>) -> Function {
    let mn = vec!["RET".to_string()];
    Function {
        id: StableId(id),
        addr: 0x1000 + id,
        name: name.into(),
        size: 8,
        bb_count: 1,
        callees: callees.into_iter().map(StableId).collect(),
        fingerprint: mnemonic_fingerprint(&mn),
        mnemonics: mnemonic_histogram(&mn),
        trigrams: mnemonic_trigrams(&mn),
        string_refs: vec![],
        imports: vec![],
        callee_names: vec![],
        bsim_vector: vec![],
        edge_provenance: vec![],
    }
}

fn app() -> App {
    App::new(Session::open(Program {
        name: "p".into(),
        language: "l".into(),
        functions: vec![func(1, "main", vec![2, 3]), func(2, "gcd", vec![]), func(3, "fib", vec![3])],
        facts: vec![],
    }))
}

#[test]
fn keys_map_to_actions_by_mode() {
    assert_eq!(key_action(Mode::Browse, Screen::Functions, Key::Char('q')), Action::Quit);
    assert_eq!(key_action(Mode::Browse, Screen::Functions, Key::Char('j')), Action::Down);
    assert_eq!(key_action(Mode::Browse, Screen::Diff, Key::Up), Action::Up);
    assert_eq!(key_action(Mode::Browse, Screen::Functions, Key::Char('G')), Action::Bottom);
    assert_eq!(key_action(Mode::Browse, Screen::Functions, Key::Tab), Action::ToggleScreen);
    assert_eq!(key_action(Mode::Browse, Screen::Functions, Key::Char('/')), Action::EnterSearch);
    assert_eq!(key_action(Mode::Browse, Screen::Diff, Key::Char('/')), Action::Nothing);
    assert_eq!(key_action(Mode::Search, Screen::Functions, Key::Char('q')), Action::Push('q'));
    assert_eq!(key_action(Mode::Search, Screen::Functions, Key::Esc), Action::Cancel);
    assert_eq!(key_action(Mode::Search, Screen::Functions, Key::Enter), Action::Accept);
    assert_eq!(key_action(Mode::Search, Screen::Functions, Key::Backspace), Action::Pop);
    assert_eq!(key_action(Mode::Search, Screen::Functions, Key::Tab), Action::Nothing);
}

#[test]
fn navigation_clamps_and_search_filters_the_list() {
    let mut a = app();
    let names = |a: &App| a.visible().iter().map(|v| v.name.clone()).collect::<Vec<_>>();
    assert_eq!(names(&a), vec!["fib", "gcd", "main"]);
    a.handle_key(Key::Char('k'));
    assert_eq!(a.selected, 0, "clamps at the top");
    a.handle_key(Key::End);
    assert_eq!(a.selected, 2);
    a.handle_key(Key::Down);
    assert_eq!(a.selected, 2, "clamps at the bottom");
    a.handle_key(Key::Char('/'));
    assert_eq!(a.mode, Mode::Search);
    a.handle_key(Key::Char('G'));
    a.handle_key(Key::Char('c'));
    assert_eq!(names(&a), vec!["gcd"]);
    a.handle_key(Key::Backspace);
    assert_eq!(names(&a), vec!["gcd"]);
    a.handle_key(Key::Esc);
    assert_eq!(a.mode, Mode::Browse);
    assert_eq!(a.filter, "");
    assert_eq!(names(&a), vec!["fib", "gcd", "main"]);
    a.handle_key(Key::Tab);
    assert_eq!(a.screen(), Screen::Functions, "no diff: the toggle is inert");
    a.handle_key(Key::Char('q'));
    assert!(a.should_quit);
}

#[test]
fn a_loaded_diff_is_reachable_by_the_toggle() {
    let s = Session::open(Program { name: "p".into(), language: "l".into(), functions: vec![func(1, "main", vec![])], facts: vec![] });
    let d = SessionDiff { only_there: vec!["new".into()], ..SessionDiff::default() };
    let mut a = App::with_diff(s, &d);
    assert!(a.has_diff());
    a.handle_key(Key::Char('d'));
    assert_eq!(a.screen(), Screen::Diff);
    a.handle_key(Key::Char('/'));
    assert_eq!(a.mode, Mode::Browse, "search starts only on the function list");
}

#[test]
fn the_screen_text_is_the_apps_projection() {
    let mut a = app();
    assert_eq!(title_line(&a), "  p [l] \u{2014} 3 functions");
    assert_eq!(list_title(&a), "functions (3)");
    assert_eq!(status_line(Mode::Browse), "  j/k or \u{2191}/\u{2193} move \u{b7} g/G top/bottom \u{b7} / search \u{b7} q quit  ");
    assert_eq!(status_line(Mode::Search), "  type to filter \u{b7} Enter apply \u{b7} Esc clear & exit search  ");
    // the highlighted row is `fib` (sorted first); it calls itself and is called by main
    let lines = detail_lines(&a.selected_view(), &a.selected_callers());
    assert_eq!(lines[0], "fib");
    assert_eq!(lines[2], "");
    assert_eq!(lines[3], "addr     0x1003");
    assert_eq!(lines[4], "blocks   1");
    assert_eq!(lines[5], "size     8 bytes");
    assert_eq!(lines[6], "callees  fib");
    assert_eq!(lines[7], "callers  main, fib");
    a.handle_key(Key::Char('/'));
    a.handle_key(Key::Char('g'));
    assert_eq!(list_title(&a), "functions  /g (1)");
}

#[test]
fn an_empty_selection_says_so_and_no_callers_is_a_dash() {
    assert_eq!(detail_lines(&None, &vec![]), vec!["  (no function selected)".to_string()]);
    let v = FunctionView {
        id: StableId(9),
        name: "leaf".into(),
        summary: "s".into(),
        addr: None,
        bb_count: None,
        callees: Some(vec![]),
        callers: None,
        size: None,
    };
    assert_eq!(
        detail_lines(&Some(v), &vec![]),
        vec!["leaf".to_string(), "s".to_string(), String::new(), "callees  \u{2014}".to_string(), "callers  \u{2014}".to_string()]
    );
}
