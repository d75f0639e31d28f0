//! The language-server head's wire framing: a message is header lines (CRLF-terminated) up to a
//! blank line, then exactly `Content-Length` bytes of JSON body. Reading it alternates reads of
//! the stream with decisions; the decisions live here, one header line at a time, bounded on
//! both the header line length and the body size.

use vstd::prelude::*;

use crate::decomp::trimmed;
use crate::port::ascii_lower;
use crate::text::{chars_of, parse_decimal, parse_unsigned};

verus! {

/// A single header line this long without a newline is malformed.
pub const MAX_HEADER_LINE: usize = 8192;

/// A body larger than this is refused rather than allocated.
pub const MAX_BODY: usize = 33554432;

/// Why a frame is malformed.
#[derive(Clone, Copy, Debug, PartialEq, Eq, Structural)]
pub enum FramingError {
    /// A header line hit the length cap without ending.
    HeaderTooLong,
    /// The stream ended inside a header line.
    UnterminatedHeader,
    /// `Content-Length` given twice.
    DuplicateLength,
    /// `Content-Length` is not a number.
    InvalidLength,
    /// The headers ended without a `Content-Length`.
    MissingLength,
    /// `Content-Length` is over the body cap.
    TooLarge,
    /// `Content-Length` is zero.
    ZeroLength,
    /// The stream ended before the whole body arrived.
    ShortBody,
}

/// The text each framing failure reports.
pub open spec fn framing_text(e: FramingError) -> Seq<char> {
    match e {
        FramingError::HeaderTooLong => "header line too long"@,
        FramingError::UnterminatedHeader => "unterminated header line"@,
        FramingError::DuplicateLength => "duplicate Content-Length header"@,
        FramingError::InvalidLength => "invalid Content-Length header"@,
        FramingError::MissingLength => "missing Content-Length header"@,
        FramingError::TooLarge => "Content-Length exceeds the maximum"@,
        FramingError::ZeroLength => "Content-Length must be greater than zero"@,
        FramingError::ShortBody => "body is shorter than Content-Length"@,
    }
}

impl FramingError {
    /// The message this failure reports.
    pub fn message(&self) -> (s: &'static str)
        ensures
            s@ == framing_text(*self),
    {
        match self {
            FramingError::HeaderTooLong => "header line too long",
            FramingError::UnterminatedHeader => "unterminated header line",
            FramingError::DuplicateLength => "duplicate Content-Length header",
            FramingError::InvalidLength => "invalid Content-Length header",
            FramingError::MissingLength => "missing Content-Length header",
            FramingError::TooLarge => "Content-Length exceeds the maximum",
            FramingError::ZeroLength => "Content-Length must be greater than zero",
            FramingError::ShortBody => "body is shorter than Content-Length",
        }
    }
}

/// What one header line does to the read of a frame.
#[derive(Clone, Copy, Debug, PartialEq, Eq, Structural)]
pub enum HeaderStep {
    /// The stream ended: there is no message.
    Eof,
    /// Read the next header line; the `Content-Length` seen so far.
    More(Option<usize>),
    /// The headers are done: read exactly this many body bytes.
    Body(usize),
    /// The frame is malformed.
    Fail(FramingError),
}

/// `s` without its trailing carriage returns and line feeds.
pub open spec fn strip_line_end(s: Seq<char>) -> Seq<char>
    decreases s.len(),
{
    if s.len() > 0 && (s.last() == '\r' || s.last() == '\n') {
        strip_line_end(s.drop_last())
    } else {
        s
    }
}

/// The position of the first `:` in `s`, or `-1`.
pub open spec fn colon_in(s: Seq<char>) -> int
    decreases s.len(),
{
    if s.len() == 0 {
        -1
    } else if colon_in(s.drop_last()) >= 0 {
        colon_in(s.drop_last())
    } else if s.last() == ':' {
        s.len() - 1
    } else {
        -1
    }
}

/// `name` is `Content-Length`, ignoring ASCII case.
pub open spec fn names_length(name: Seq<char>) -> bool {
    let want = "content-length"@;
    name.len() == want.len() && forall|i: int| 0 <= i < name.len() ==> ascii_lower(#[trigger] name[i])
        == want[i]
}

/// Where the headers stand once they end, given the `Content-Length` seen.
pub open spec fn headers_done(seen: Option<usize>) -> HeaderStep {
    match seen {
        None => HeaderStep::Fail(FramingError::MissingLength),
        Some(l) => if l > MAX_BODY {
            HeaderStep::Fail(FramingError::TooLarge)
        } else if l == 0 {
            HeaderStep::Fail(FramingError::ZeroLength)
        } else {
            HeaderStep::Body(l)
        },
    }
}

/// The step a header line makes: `line` is what one bounded line read returned (`n` bytes, at
/// most `MAX_HEADER_LINE`), `seen` the `Content-Length` read so far. No bytes is the end of the
/// stream; a line without its newline is malformed; a blank line ends the headers; a
/// `Content-Length` header (name in any ASCII case) is read as a `usize`; others are ignored.
pub open spec fn header_step_of(seen: Option<usize>, line: Seq<char>, n: nat) -> HeaderStep {
    if n == 0 {
        HeaderStep::Eof
    } else if line.len() == 0 || line.last() != '\n' {
        HeaderStep::Fail(
            if n >= MAX_HEADER_LINE {
                FramingError::HeaderTooLong
            } else {
                FramingError::UnterminatedHeader
            },
        )
    } else {
        let t = strip_line_end(line);
        let k = colon_in(t);
        if t.len() == 0 {
            headers_done(seen)
        } else if k < 0 || !names_length(t.take(k)) {
            HeaderStep::More(seen)
        } else if seen is Some {
            HeaderStep::Fail(FramingError::DuplicateLength)
        } else {
            match parse_unsigned(trimmed(t.skip(k + 1)), usize::MAX as nat) {
                Ok(v) => HeaderStep::More(Some(v as usize)),
                Err(_) => HeaderStep::Fail(FramingError::InvalidLength),
            }
        }
    }
}

fn strip_end(cs: &Vec<char>) -> (r: usize)
    ensures
        r <= cs@.len(),
        cs@.take(r as int) == strip_line_end(cs@),
{
    let mut k: usize = cs.len();
    assert(cs@.take(k as int) =~= cs@);
    while k > 0 && (cs[k - 1] == '\r' || cs[k - 1] == '\n')
        invariant
            k <= cs@.len(),
            strip_line_end(cs@.take(k as int)) == strip_line_end(cs@),
        decreases k,
    {
        assert(cs@.take(k as int).drop_last() =~= cs@.take(k - 1));
        k -= 1;
    }
    k
}

fn find_colon(t: &Vec<char>, len: usize) -> (k: Option<usize>)
    requires
        len <= t@.len(),
    ensures
        match k {
            Some(i) => colon_in(t@.take(len as int)) == i && i < len,
            None => colon_in(t@.take(len as int)) < 0,
        },
{
    let mut i: usize = 0;
    assert(t@.take(0) =~= Seq::<char>::empty());
    while i < len
        invariant
            i <= len <= t@.len(),
            colon_in(t@.take(i as int)) < 0,
        decreases len - i,
    {
        assert(t@.take(i + 1).drop_last() =~= t@.take(i as int));
        if t[i] == ':' {
            proof {
                assert(t@.take(i + 1) =~= t@.take(len as int).take(i + 1));
                lemma_colon_keeps(t@.take(i + 1), t@.take(len as int));
            }
            return Some(i);
        }
        i += 1;
    }
    None
}

proof fn lemma_colon_keeps(p: Seq<char>, s: Seq<char>)
    requires
        p.len() <= s.len(),
        p == s.take(p.len() as int),
        colon_in(p) >= 0,
    ensures
        colon_in(s) == colon_in(p),
    decreases s.len(),
{
    if s.len() > p.len() {
        assert(s.drop_last().take(p.len() as int) =~= p);
        lemma_colon_keeps(p, s.drop_last());
    } else {
        assert(s =~= p);
    }
}

fn names_length_exec(t: &Vec<char>, k: usize) -> (r: bool)
    requires
        k <= t@.len(),
    ensures
        r == names_length(t@.take(k as int)),
{
    let want = chars_of("content-length");
    proof {
        reveal_strlit("content-length");
    }
    if k != want.len() {
        return false;
    }
    let mut i: usize = 0;
    while i < k
        invariant
            i <= k <= t@.len(),
            k == want@.len(),
            want@ == "content-length"@,
            forall|j: int| 0 <= j < i ==> ascii_lower(#[trigger] t@[j]) == want@[j],
        decreases k - i,
    {
        if crate::port::lower_char(t[i]) != want[i] {
            assert(ascii_lower(t@.take(k as int)[i as int]) != "content-length"@[i as int]);
            return false;
        }
        i += 1;
    }
    assert forall|j: int| 0 <= j < k implies ascii_lower(#[trigger] t@.take(k as int)[j])
        == "content-length"@[j] by {
        assert(t@.take(k as int)[j] == t@[j]);
    }
    true
}

/// Decide what one header line does, exactly as `header_step_of` states.
pub fn header_step(seen: Option<usize>, line: &str, n: usize) -> (r: HeaderStep)
    ensures
        r == header_step_of(seen, line@, n as nat),
{
    if n == 0 {
        return HeaderStep::Eof;
    }
    let cs = chars_of(line);
    if cs.len() == 0 || cs[cs.len() - 1] != '\n' {
        return HeaderStep::Fail(
            if n >= MAX_HEADER_LINE {
                FramingError::HeaderTooLong
            } else {
                FramingError::UnterminatedHeader
            },
        );
    }
    let len = strip_end(&cs);
    let ghost t = strip_line_end(line@);
    if len == 0 {
        return match seen {
            None => HeaderStep::Fail(FramingError::MissingLength),
            Some(l) => if l > MAX_BODY {
                HeaderStep::Fail(FramingError::TooLarge)
            } else if l == 0 {
                HeaderStep::Fail(FramingError::ZeroLength)
            } else {
                HeaderStep::Body(l)
            },
        };
    }
    let k = match find_colon(&cs, len) {
        None => return HeaderStep::More(seen),
        Some(k) => k,
    };
    assert(t.take(k as int) =~= cs@.take(k as int));
    if !names_length_exec(&cs, k) {
        return HeaderStep::More(seen);
    }
    if seen.is_some() {
        return HeaderStep::Fail(FramingError::DuplicateLength);
    }
    let mut value: Vec<char> = Vec::new();
    let mut i: usize = k + 1;
    while i < len
        invariant
            k + 1 <= len <= cs@.len(),
            i <= len || i == k + 1,
            k + 1 <= i,
            value@ == cs@.subrange(k + 1, i as int),
        decreases len - i,
    {
        value.push(cs[i]);
        assert(value@ =~= cs@.subrange(k + 1, i + 1));
        i += 1;
    }
    assert(value@ =~= t.skip(k + 1));
    let v = crate::decomp::trim_chars(&value);
    let text = crate::text::string_from_chars(&v);
    match parse_decimal(text.as_str(), usize::MAX as u64) {
        Ok(x) => HeaderStep::More(Some(x as usize)),
        Err(_) => HeaderStep::Fail(FramingError::InvalidLength),
    }
}

/// The frame `Content-Length` bytes of `body` would write (`Content-Length: N` and a blank line).
pub open spec fn frame_header(body_len: nat) -> Seq<char> {
    "Content-Length: "@ + crate::text::decimal(body_len) + "\r\n\r\n"@
}

/// The header written before a body of `body_len` bytes.
pub fn write_header(body_len: usize) -> (r: String)
    ensures
        r@ == frame_header(body_len as nat),
{
    let mut s = String::from_str("Content-Length: ");
    let d = crate::text::decimal_string(body_len as u64);
    s.append(d.as_str());
    s.append("\r\n\r\n");
    proof {
        reveal_strlit("Content-Length: ");
        reveal_strlit("\r\n\r\n");
    }
    assert(s@ =~= frame_header(body_len as nat));
    s
}

/// The first line of a written header: the length, then CRLF.
pub open spec fn length_line(n: nat) -> Seq<char> {
    "Content-Length: "@ + crate::text::decimal(n) + "\r\n"@
}

proof fn lemma_no_colon(s: Seq<char>)
    requires
        forall|i: int| 0 <= i < s.len() ==> s[i] != ':',
    ensures
        colon_in(s) == -1,
    decreases s.len(),
{
    if s.len() > 0 {
        lemma_no_colon(s.drop_last());
    }
}

proof fn lemma_trim_digits(d: Seq<char>)
    requires
        d.len() > 0,
        forall|i: int| 0 <= i < d.len() ==> #[trigger] crate::text::dec_digit(d[i]) is Some,
    ensures
        trimmed(seq![' '] + d) == d,
{
    let s = seq![' '] + d;
    assert(s.drop_first() =~= d);
    assert(crate::text::dec_digit(d[0]) is Some);
    assert(crate::text::dec_digit(d.last()) is Some);
    assert(crate::decomp::trim_start(s) == crate::decomp::trim_start(d));
    assert(crate::decomp::trim_start(d) == d);
    assert(crate::decomp::trim_end(d) == d);
}

/// A header the head writes reads back as the length it announced: the length line yields that
/// `Content-Length`, and the blank line after it asks for exactly that many body bytes.
pub proof fn law_written_header_reads_back(n: usize)
    requires
        0 < n <= MAX_BODY,
    ensures
        frame_header(n as nat) == length_line(n as nat) + "\r\n"@,
        header_step_of(None, length_line(n as nat), length_line(n as nat).len()) == HeaderStep::More(
            Some(n),
        ),
        header_step_of(Some(n), "\r\n"@, 2) == HeaderStep::Body(n),
{
    let d = crate::text::decimal(n as nat);
    crate::text::lemma_decimal_digits(n as nat);
    reveal_strlit("Content-Length: ");
    reveal_strlit("\r\n");
    reveal_strlit("\r\n\r\n");
    reveal_strlit("content-length");
    let head = "Content-Length: "@;
    let p = head + d;
    let l = length_line(n as nat);
    assert(frame_header(n as nat) =~= l + "\r\n"@);
    assert(l.last() == '\n');
    assert(l.drop_last() =~= p.push('\r'));
    assert(p.push('\r').drop_last() =~= p);
    assert(crate::text::dec_digit(d.last()) is Some);
    assert(p.last() == d.last());
    assert(strip_line_end(p) == p);
    assert(p.push('\r').last() == '\r');
    assert(strip_line_end(p.push('\r')) == strip_line_end(p));
    assert(strip_line_end(l) == strip_line_end(l.drop_last()));
    assert(strip_line_end(l) == p);
    // the first colon closes the header name
    assert(head.take(14) =~= p.take(14));
    lemma_no_colon(p.take(14));
    assert(p.take(15).drop_last() =~= p.take(14));
    assert(p[14] == ':');
    assert(colon_in(p.take(15)) == 14);
    assert(p.take(15) =~= p.take(15));
    lemma_colon_keeps(p.take(15), p);
    assert(colon_in(p) == 14);
    assert(names_length(p.take(14)));
    assert(p.skip(15) =~= seq![' '] + d);
    lemma_trim_digits(d);
    crate::text::law_decimal_round_trip(n as nat, usize::MAX as nat);
    // the blank line
    assert("\r\n"@.drop_last() =~= seq!['\r']);
    assert(seq!['\r'].drop_last() =~= Seq::<char>::empty());
    assert(strip_line_end(seq!['\r']) == strip_line_end(Seq::<char>::empty()));
    assert(strip_line_end("\r\n"@) == strip_line_end(seq!['\r']));
    assert(strip_line_end("\r\n"@) =~= Seq::<char>::empty());
}

} // verus!
