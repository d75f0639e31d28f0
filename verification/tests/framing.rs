use scylla::framing::{header_step, write_header, FramingError, HeaderStep, MAX_BODY, MAX_HEADER_LINE};
use serde_json::Value;

#[derive(Debug)]
enum Read {
    Framing(&'static str),
    Json,
}

/// Read one frame from an in-memory stream the way the editor head reads stdin: bounded header
/// lines, each decided by the library, then the body.
fn read_frame(bytes: &[u8]) -> Result<Option<Value>, Read> {
    let mut pos = 0;
    let mut seen = None;
    let length = loop {
        let rest = &bytes[pos..];
        let cap = rest.len().min(MAX_HEADER_LINE);
        let n = match rest[..cap].iter().position(|&b| b == b'\n') {
            Some(i) => i + 1,
            None => cap,
        };
        let line = std::str::from_utf8(&rest[..n]).expect("ASCII headers");
        pos += n;
        match header_step(seen, line, n) {
            HeaderStep::Eof => return Ok(None),
            HeaderStep::More(s) => seen = s,
            HeaderStep::Body(l) => break l,
            HeaderStep::Fail(e) => return Err(Read::Framing(e.message())),
        }
    };
    if bytes.len() - pos < length {
        return Err(Read::Framing(FramingError::ShortBody.message()));
    }
    serde_json::from_slice(&bytes[pos..pos + length]).map(Some).map_err(|_| Read::Json)
}

#[test]
fn reads_a_valid_message() {
    let body = br#"{"jsonrpc":"2.0","id":1,"method":"initialize"}"#;
    let frame = format!("Content-Length: {}\r\nContent-Type: application/vscode-jsonrpc\r\n\r\n", body.len());
    let mut bytes = frame.into_bytes();
    bytes.extend_from_slice(body);

    let message = read_frame(&bytes).expect("valid frame").expect("one message");
    assert_eq!(message["method"], "initialize");
}

#[test]
fn rejects_invalid_content_length() {
    assert!(matches!(
        read_frame(b"Content-Length: nope\r\n\r\n"),
        Err(Read::Framing("invalid Content-Length header"))
    ));
}

#[test]
fn rejects_missing_and_zero_content_length() {
    assert!(matches!(
        read_frame(b"Content-Type: application/json\r\n\r\n"),
        Err(Read::Framing("missing Content-Length header"))
    ));
    assert!(matches!(
        read_frame(b"Content-Length: 0\r\n\r\n"),
        Err(Read::Framing("Content-Length must be greater than zero"))
    ));
}

#[test]
fn rejects_unterminated_headers_and_short_bodies() {
    assert!(matches!(read_frame(b"Content-Length: 1"), Err(Read::Framing("unterminated header line"))));
    assert!(matches!(
        read_frame(b"Content-Length: 2\r\n\r\n{"),
        Err(Read::Framing("body is shorter than Content-Length"))
    ));
}

#[test]
fn reports_malformed_json_separately_from_framing() {
    assert!(matches!(read_frame(b"Content-Length: 1\r\n\r\n{"), Err(Read::Json)));
}

#[test]
fn empty_input_is_a_clean_end() {
    assert!(matches!(read_frame(b""), Ok(None)));
    assert_eq!(header_step(Some(5), "", 0), HeaderStep::Eof);
}

#[test]
fn header_name_is_case_insensitive_and_value_is_trimmed() {
    assert_eq!(header_step(None, "content-LENGTH:   42 \r\n", 23), HeaderStep::More(Some(42)));
    assert_eq!(header_step(None, "Content-Lengthx: 42\r\n", 21), HeaderStep::More(None));
    assert_eq!(header_step(None, "no colon here\r\n", 15), HeaderStep::More(None));
    assert_eq!(header_step(Some(7), "X-Other: 1\r\n", 12), HeaderStep::More(Some(7)));
}

#[test]
fn a_second_content_length_is_refused() {
    assert_eq!(
        header_step(Some(3), "Content-Length: 3\r\n", 19),
        HeaderStep::Fail(FramingError::DuplicateLength)
    );
    assert_eq!(FramingError::DuplicateLength.message(), "duplicate Content-Length header");
}

#[test]
fn an_over_long_header_line_is_refused() {
    let line = "a".repeat(MAX_HEADER_LINE);
    assert_eq!(header_step(None, &line, MAX_HEADER_LINE), HeaderStep::Fail(FramingError::HeaderTooLong));
    assert_eq!(FramingError::HeaderTooLong.message(), "header line too long");
}

#[test]
fn the_body_cap_is_enforced() {
    assert_eq!(header_step(Some(MAX_BODY), "\r\n", 2), HeaderStep::Body(MAX_BODY));
    assert_eq!(header_step(Some(MAX_BODY + 1), "\r\n", 2), HeaderStep::Fail(FramingError::TooLarge));
    assert_eq!(FramingError::TooLarge.message(), "Content-Length exceeds the maximum");
}

#[test]
fn written_headers_read_back() {
    let h = write_header(46);
    assert_eq!(h, "Content-Length: 46\r\n\r\n");
    let (first, rest) = h.split_at(h.find('\n').unwrap() + 1);
    assert_eq!(header_step(None, first, first.len()), HeaderStep::More(Some(46)));
    assert_eq!(header_step(Some(46), rest, rest.len()), HeaderStep::Body(46));
}
