use scylla::http::{
    authorized, bearer, constant_time_eq, gate_token, percent_decode, query_of, query_param, route, segments, zoom_of,
    HttpMethod, Route,
};
use scylla::port::Zoom;

#[test]
fn constant_time_eq_is_plain_equality() {
    assert!(constant_time_eq(b"Bearer s3cret", b"Bearer s3cret"));
    assert!(!constant_time_eq(b"Bearer s3cret", b"Bearer s3creT"));
    assert!(!constant_time_eq(b"Bearer", b"Bearer s3cret"));
    assert!(!constant_time_eq(b"Bearer s3cret", b""));
    assert!(constant_time_eq(b"", b""));
}

#[test]
fn percent_decoding_turns_escapes_and_plus_into_bytes() {
    assert_eq!(percent_decode("a%20b+c"), "a b c");
    assert_eq!(percent_decode("%41%62"), "Ab");
    // invalid or truncated escapes pass through
    assert_eq!(percent_decode("100%zz"), "100%zz");
    assert_eq!(percent_decode("%4"), "%4");
    assert_eq!(percent_decode("50%"), "50%");
    assert_eq!(percent_decode("caf%C3%A9"), "café");
    // a byte sequence that is not UTF-8 decodes lossily
    assert_eq!(percent_decode("%FF"), "\u{FFFD}");
}

#[test]
fn zoom_values_select_an_altitude() {
    assert_eq!(zoom_of(Some("intent")), Zoom::Intent);
    assert_eq!(zoom_of(Some("detail")), Zoom::Detail);
    assert_eq!(zoom_of(Some("domain")), Zoom::Domain);
    assert_eq!(zoom_of(Some("DETAIL")), Zoom::Domain);
    assert_eq!(zoom_of(None), Zoom::Domain);
}

#[test]
fn query_params_are_found_by_key() {
    assert_eq!(query_param("q=gcd&zoom=detail", "zoom").as_deref(), Some("detail"));
    assert_eq!(query_param("q=gcd&zoom=detail", "q").as_deref(), Some("gcd"));
    assert_eq!(query_param("q=a&q=b", "q").as_deref(), Some("a"));
    assert_eq!(query_param("zoomed=1", "zoom"), None);
    assert_eq!(query_param("", "q"), None);
    assert_eq!(query_param("q=", "q").as_deref(), Some(""));
}

#[test]
fn routes_follow_the_endpoint_list() {
    assert!(matches!(route(HttpMethod::Get, "/"), Route::Help));
    assert!(matches!(route(HttpMethod::Get, "/api/info"), Route::Info));
    assert!(matches!(route(HttpMethod::Get, "/api/functions?zoom=detail"), Route::Functions));
    assert!(matches!(route(HttpMethod::Get, "/api/search?q=gcd"), Route::Search));
    assert!(matches!(route(HttpMethod::Get, "/api/functions/12?zoom=detail"), Route::View(id) if id == "12"));
    assert!(matches!(route(HttpMethod::Get, "/api/functions/12/callers"), Route::Callers(id) if id == "12"));
    assert!(matches!(route(HttpMethod::Get, "/api/export"), Route::Export));
    assert!(matches!(route(HttpMethod::Post, "/api/functions/7/rename"), Route::Rename(id) if id == "7"));
    assert!(matches!(route(HttpMethod::Post, "/api/functions/7/retype"), Route::Retype(id) if id == "7"));
    assert!(matches!(route(HttpMethod::Post, "/api/functions/7/comment"), Route::Comment(id) if id == "7"));
    assert!(matches!(route(HttpMethod::Post, "/api/diff"), Route::Diff));
}

#[test]
fn unknown_routes_and_methods_are_not_found() {
    assert!(matches!(route(HttpMethod::Post, "/api/info"), Route::NotFound));
    assert!(matches!(route(HttpMethod::Get, "/api/functions/7/rename"), Route::NotFound));
    assert!(matches!(route(HttpMethod::Other, "/"), Route::NotFound));
    assert!(matches!(route(HttpMethod::Get, "/nope"), Route::NotFound));
}

#[test]
fn empty_segments_are_ignored_and_the_query_is_split_off() {
    assert_eq!(segments("//api//info/"), vec!["api".to_string(), "info".to_string()]);
    assert_eq!(segments("/api/functions?x=/a/b"), vec!["api".to_string(), "functions".to_string()]);
    assert!(segments("").is_empty());
    assert_eq!(query_of("/api/search?q=a?b&zoom=intent"), "q=a?b&zoom=intent");
    assert_eq!(query_of("/api/info"), "");
    assert!(matches!(route(HttpMethod::Get, "//api//info/"), Route::Info));
}

#[test]
fn the_endpoint_list_names_every_route() {
    let e = scylla::http::endpoints();
    assert_eq!(e.len(), 10);
    assert_eq!(e[0], "GET /api/info");
    assert_eq!(e[2], "GET /api/search?q=<query>&zoom=\u{2026}");
    assert_eq!(e[9], "GET /api/export (download the annotated model as a .scylla)");
}

#[test]
fn a_blank_token_leaves_the_gateway_open() {
    assert_eq!(gate_token(None), None);
    assert_eq!(gate_token(Some("   ".to_string())), None);
    assert_eq!(gate_token(Some(String::new())), None);
    assert_eq!(gate_token(Some("s3cret".to_string())), Some("s3cret".to_string()));
}

#[test]
fn only_the_matching_bearer_is_admitted() {
    let want = Some(bearer("s3cret"));
    assert_eq!(want.as_deref(), Some("Bearer s3cret"));
    assert!(!authorized(&want, &vec![]));
    assert!(!authorized(&want, &vec!["Bearer nope".to_string()]));
    assert!(authorized(&want, &vec!["Bearer nope".to_string(), "Bearer s3cret".to_string()]));
    assert!(authorized(&None, &vec![]));
}
