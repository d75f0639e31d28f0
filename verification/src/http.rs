//! The HTTP gateway's request-side helpers: the bearer-token comparison, query-string lookup and
//! percent-decoding, and the zoom a query selects.

use vstd::prelude::*;
use vstd::utf8::*;

use crate::decomp::{find_char, first_index, has_prefix, lemma_first_index_range, skip_chars, slice_chars, starts_with};
use crate::port::Zoom;
use crate::text::{chars_of, compare_text, copy_string, string_from_chars};

verus! {

/// Byte `i` of `b`, or `0` past its end.
pub open spec fn byte_or_zero(b: Seq<u8>, i: int) -> u8 {
    if 0 <= i < b.len() {
        b[i]
    } else {
        0
    }
}

/// Compare two byte strings without an early exit on the first difference, the length folded
/// into the same accumulator, so the time taken reveals neither a matching prefix nor the
/// expected length. The answer is plain equality.
pub fn constant_time_eq(a: &[u8], b: &[u8]) -> (r: bool)
    ensures
        r == (a@ == b@),
{
    let la = a.len();
    let lb = b.len();
    let x: usize = la ^ lb;
    let mut diff: u64 = x as u64;
    assert((x == 0) == (la == lb)) by (bit_vector)
        requires
            x == la ^ lb,
    ;
    assert((x as u64 == 0) == (x == 0)) by (bit_vector);
    let n = if la > lb {
        la
    } else {
        lb
    };
    let mut i: usize = 0;
    while i < n
        invariant
            i <= n,
            n == if la > lb {
                la
            } else {
                lb
            },
            la == a@.len(),
            lb == b@.len(),
            (diff == 0) == (la == lb && forall|j: int| 0 <= j < i ==> byte_or_zero(a@, j) == byte_or_zero(b@, j)),
        decreases n - i,
    {
        let p: u8 = if i < la {
            a[i]
        } else {
            0
        };
        let q: u8 = if i < lb {
            b[i]
        } else {
            0
        };
        let y: u8 = p ^ q;
        let old_diff = diff;
        diff = diff | (y as u64);
        assert((y == 0) == (p == q)) by (bit_vector)
            requires
                y == p ^ q,
        ;
        assert((diff == 0) == (old_diff == 0 && y == 0)) by (bit_vector)
            requires
                diff == old_diff | (y as u64),
        ;
        assert(p == byte_or_zero(a@, i as int) && q == byte_or_zero(b@, i as int));
        i += 1;
    }
    if diff == 0 {
        assert forall|j: int| 0 <= j < a@.len() implies a@[j] == b@[j] by {
            assert(byte_or_zero(a@, j) == byte_or_zero(b@, j));
        }
        assert(a@ =~= b@);
    }
    diff == 0
}

/// The value of a hexadecimal digit byte (either case), if it is one.
pub open spec fn hex_byte(c: u8) -> Option<u8> {
    if 48 <= c <= 57 {
        Some((c - 48) as u8)
    } else if 97 <= c <= 102 {
        Some((c - 87) as u8)
    } else if 65 <= c <= 70 {
        Some((c - 55) as u8)
    } else {
        None
    }
}

/// `b` from position `i` on, percent-decoded: `%` and two hexadecimal digits is the byte they
/// spell, `+` is a space, anything else (an invalid escape's `%` too) stands for itself.
pub open spec fn pct_decoded_from(b: Seq<u8>, i: int) -> Seq<u8>
    decreases b.len() - i,
{
    if i < 0 || i >= b.len() {
        Seq::empty()
    } else if b[i] == 37 && i + 2 < b.len() && hex_byte(b[i + 1]) is Some && hex_byte(b[i + 2]) is Some {
        seq![(hex_byte(b[i + 1]).unwrap() * 16 + hex_byte(b[i + 2]).unwrap()) as u8] + pct_decoded_from(b, i + 3)
    } else if b[i] == 43 {
        seq![32u8] + pct_decoded_from(b, i + 1)
    } else {
        seq![b[i]] + pct_decoded_from(b, i + 1)
    }
}

/// What `String::from_utf8_lossy` makes of a byte string.
pub uninterp spec fn utf8_lossy(bytes: Seq<u8>) -> Seq<char>;

/// `String::from_utf8_lossy`, owned. Claimed of it: the result depends on the bytes alone, and
/// valid UTF-8 decodes to its own characters. What replaces an invalid sequence (U+FFFD) is not
/// stated.
#[verifier::external_body]
fn lossy_string(bytes: &[u8]) -> (r: String)
    ensures
        r@ == utf8_lossy(bytes@),
        valid_utf8(bytes@) ==> r@ == decode_utf8(bytes@),
{
    String::from_utf8_lossy(bytes).into_owned()
}

fn hex_value_of(c: u8) -> (r: Option<u8>)
    ensures
        r == hex_byte(c),
{
    if 48 <= c && c <= 57 {
        Some(c - 48)
    } else if 97 <= c && c <= 102 {
        Some(c - 87)
    } else if 65 <= c && c <= 70 {
        Some(c - 55)
    } else {
        None
    }
}

/// Minimal percent-decoding for query values (`%20` and `+` become a space); an invalid escape
/// passes through; the decoded bytes are read as UTF-8, lossily.
pub fn percent_decode(s: &str) -> (r: String)
    ensures
        r@ == utf8_lossy(pct_decoded_from(encode_utf8(s@), 0)),
{
    let b = s.as_bytes();
    let ghost bs = b@;
    let mut out: Vec<u8> = Vec::new();
    let mut i: usize = 0;
    while i < b.len()
        invariant
            i <= bs.len(),
            b@ == bs,
            out@ + pct_decoded_from(bs, i as int) == pct_decoded_from(bs, 0),
        decreases bs.len() - i,
    {
        let c = b[i];
        if c == 37 && b.len() - i > 2 {
            match (hex_value_of(b[i + 1]), hex_value_of(b[i + 2])) {
                (Some(h), Some(l)) => {
                    let v: u8 = h * 16 + l;
                    assert(out@.push(v) + pct_decoded_from(bs, i + 3) =~= out@ + pct_decoded_from(bs, i as int));
                    out.push(v);
                    i += 3;
                },
                _ => {
                    assert(out@.push(37u8) + pct_decoded_from(bs, i + 1) =~= out@ + pct_decoded_from(bs, i as int));
                    out.push(37);
                    i += 1;
                },
            }
        } else if c == 43 {
            assert(out@.push(32u8) + pct_decoded_from(bs, i + 1) =~= out@ + pct_decoded_from(bs, i as int));
            out.push(32);
            i += 1;
        } else {
            assert(out@.push(c) + pct_decoded_from(bs, i + 1) =~= out@ + pct_decoded_from(bs, i as int));
            out.push(c);
            i += 1;
        }
    }
    assert(out@ =~= pct_decoded_from(bs, 0));
    lossy_string(out.as_slice())
}

/// The zoom a query's `zoom` value selects: `intent`, `detail`, or the default `Domain`.
pub open spec fn zoom_named(q: Option<Seq<char>>) -> Zoom {
    match q {
        Some(s) => if s == "intent"@ {
            Zoom::Intent
        } else if s == "detail"@ {
            Zoom::Detail
        } else {
            Zoom::Domain
        },
        None => Zoom::Domain,
    }
}

/// The zoom a query's `zoom` value selects.
pub fn zoom_of(q: Option<&str>) -> (z: Zoom)
    ensures
        z == zoom_named(match q {
            Some(s) => Some(s@),
            None => None,
        }),
{
    match q {
        Some(s) => if compare_text(s, "intent") == 0 {
            Zoom::Intent
        } else if compare_text(s, "detail") == 0 {
            Zoom::Detail
        } else {
            Zoom::Domain
        },
        None => Zoom::Domain,
    }
}

/// The value of `key` in a `&`-joined query: the rest of the first piece that begins `key=`.
pub open spec fn query_value(q: Seq<char>, key: Seq<char>) -> Option<Seq<char>>
    decreases q.len(),
{
    let k = first_index(q, '&');
    let piece = if k < 0 {
        q
    } else {
        q.take(k)
    };
    if starts_with(piece, key + "="@) {
        Some(piece.skip(key.len() as int + 1))
    } else if k < 0 {
        None
    } else {
        proof {
            lemma_first_index_range(q, '&');
        }
        query_value(q.skip(k + 1), key)
    }
}

/// Pull `key`'s value out of a `&`-joined query string.
pub fn query_param(query: &str, key: &str) -> (r: Option<String>)
    ensures
        match r {
            Some(v) => query_value(query@, key@) == Some(v@),
            None => query_value(query@, key@) is None,
        },
{
    let mut want = String::new();
    want.append(key);
    want.append("=");
    let kc = chars_of(key);
    let mut rest = chars_of(query);
    loop
        invariant
            query_value(query@, key@) == query_value(rest@, key@),
            want@ == key@ + "="@,
            kc@ == key@,
        decreases rest@.len(),
    {
        let ghost q = rest@;
        proof {
            lemma_first_index_range(q, '&');
        }
        let found = find_char(&rest, '&');
        let end = match found {
            Some(k) => k,
            None => rest.len(),
        };
        let piece = slice_chars(&rest, 0, end);
        assert(found is None ==> piece@ =~= q);
        assert(found is Some ==> piece@ =~= q.take(end as int));
        if has_prefix(&piece, want.as_str()) {
            proof {
                reveal_strlit("=");
            }
            let v = skip_chars(&piece, kc.len() + 1);
            return Some(string_from_chars(v.as_slice()));
        }
        match found {
            None => {
                return None;
            },
            Some(k) => {
                let total = rest.len();
                assert(k < total);
                rest = skip_chars(&rest, k + 1);
            },
        }
    }
}

// ---------------------------------------------------------------------------------------------
// Routing
// ---------------------------------------------------------------------------------------------

/// The request methods the gateway tells apart.
#[derive(Clone, Copy, Debug, PartialEq, Eq, Structural)]
pub enum HttpMethod {
    Get,
    Post,
    /// Any other method: nothing is routed for it.
    Other,
}

/// Where a request goes; the id segments are carried as written, for the handler to parse.
pub enum Route {
    /// `GET /`: the endpoint list.
    Help,
    /// `GET /api/info`.
    Info,
    /// `GET /api/functions`.
    Functions,
    /// `GET /api/search`.
    Search,
    /// `GET /api/functions/<id>`.
    View(String),
    /// `GET /api/functions/<id>/callers`.
    Callers(String),
    /// `GET /api/export`.
    Export,
    /// `POST /api/functions/<id>/rename`.
    Rename(String),
    /// `POST /api/functions/<id>/retype`.
    Retype(String),
    /// `POST /api/functions/<id>/comment`.
    Comment(String),
    /// `POST /api/diff`.
    Diff,
    /// Anything else: `404`.
    NotFound,
}

/// A route as plain values: the endpoint's position in the list above (`0..=11`) and the id
/// segment it carries (empty when it carries none).
pub open spec fn route_view(r: Route) -> (int, Seq<char>) {
    match r {
        Route::Help => (0, Seq::empty()),
        Route::Info => (1, Seq::empty()),
        Route::Functions => (2, Seq::empty()),
        Route::Search => (3, Seq::empty()),
        Route::View(id) => (4, id@),
        Route::Callers(id) => (5, id@),
        Route::Export => (6, Seq::empty()),
        Route::Rename(id) => (7, id@),
        Route::Retype(id) => (8, id@),
        Route::Comment(id) => (9, id@),
        Route::Diff => (10, Seq::empty()),
        Route::NotFound => (11, Seq::empty()),
    }
}

/// The URL's path: everything before the first `?`.
pub open spec fn url_path(url: Seq<char>) -> Seq<char> {
    let k = first_index(url, '?');
    if k < 0 {
        url
    } else {
        url.take(k)
    }
}

/// The URL's query: everything after the first `?` (empty without one).
pub open spec fn url_query(url: Seq<char>) -> Seq<char> {
    let k = first_index(url, '?');
    if k < 0 {
        Seq::empty()
    } else {
        url.skip(k + 1)
    }
}

/// A left-to-right scan of a path: the finished non-empty segments and the segment being read.
pub open spec fn seg_scan(s: Seq<char>) -> (Seq<Seq<char>>, Seq<char>)
    decreases s.len(),
{
    if s.len() == 0 {
        (Seq::empty(), Seq::empty())
    } else {
        let (done, cur) = seg_scan(s.drop_last());
        if s.last() == '/' {
            (
                if cur.len() > 0 {
                    done.push(cur)
                } else {
                    done
                },
                Seq::empty(),
            )
        } else {
            (done, cur.push(s.last()))
        }
    }
}

/// The non-empty `/`-separated segments of a path.
pub open spec fn path_segments(s: Seq<char>) -> Seq<Seq<char>> {
    let (done, cur) = seg_scan(s);
    if cur.len() > 0 {
        done.push(cur)
    } else {
        done
    }
}

/// The route a method and path segments select.
pub open spec fn route_of(m: HttpMethod, g: Seq<Seq<char>>) -> (int, Seq<char>) {
    let api = g.len() >= 1 && g[0] == "api"@;
    let fns = g.len() >= 2 && g[1] == "functions"@;
    if m == HttpMethod::Get && g.len() == 0 {
        (0, Seq::empty())
    } else if m == HttpMethod::Get && g.len() == 2 && api && g[1] == "info"@ {
        (1, Seq::empty())
    } else if m == HttpMethod::Get && g.len() == 2 && api && fns {
        (2, Seq::empty())
    } else if m == HttpMethod::Get && g.len() == 2 && api && g[1] == "search"@ {
        (3, Seq::empty())
    } else if m == HttpMethod::Get && g.len() == 3 && api && fns {
        (4, g[2])
    } else if m == HttpMethod::Get && g.len() == 4 && api && fns && g[3] == "callers"@ {
        (5, g[2])
    } else if m == HttpMethod::Get && g.len() == 2 && api && g[1] == "export"@ {
        (6, Seq::empty())
    } else if m == HttpMethod::Post && g.len() == 4 && api && fns && g[3] == "rename"@ {
        (7, g[2])
    } else if m == HttpMethod::Post && g.len() == 4 && api && fns && g[3] == "retype"@ {
        (8, g[2])
    } else if m == HttpMethod::Post && g.len() == 4 && api && fns && g[3] == "comment"@ {
        (9, g[2])
    } else if m == HttpMethod::Post && g.len() == 2 && api && g[1] == "diff"@ {
        (10, Seq::empty())
    } else {
        (11, Seq::empty())
    }
}

/// The URL's path split into its non-empty segments.
pub fn segments(url: &str) -> (r: Vec<String>)
    ensures
        r.deep_view() == path_segments(url_path(url@)),
{
    let cs = chars_of(url);
    let end = match find_char(&cs, '?') {
        Some(k) => k,
        None => cs.len(),
    };
    let ghost path = url_path(url@);
    assert(path =~= cs@.take(end as int));
    let mut done: Vec<String> = Vec::new();
    let mut cur: Vec<char> = Vec::new();
    let mut i: usize = 0;
    assert(cs@.take(0) =~= Seq::<char>::empty());
    while i < end
        invariant
            i <= end <= cs@.len(),
            (done.deep_view(), cur@) == seg_scan(cs@.take(i as int)),
        decreases end - i,
    {
        assert(cs@.take(i + 1).drop_last() =~= cs@.take(i as int));
        let c = cs[i];
        if c == '/' {
            if cur.len() > 0 {
                let seg = string_from_chars(cur.as_slice());
                let ghost before = done.deep_view();
                done.push(seg);
                assert(done.deep_view() =~= before.push(cur@));
            }
            cur = Vec::new();
        } else {
            cur.push(c);
        }
        i += 1;
    }
    if cur.len() > 0 {
        let seg = string_from_chars(cur.as_slice());
        let ghost before = done.deep_view();
        done.push(seg);
        assert(done.deep_view() =~= before.push(cur@));
    }
    done
}

/// The URL's query (after the first `?`, empty without one).
pub fn query_of(url: &str) -> (r: String)
    ensures
        r@ == url_query(url@),
{
    let cs = chars_of(url);
    match find_char(&cs, '?') {
        Some(k) => {
            let total = cs.len();
            assert(k < total);
            let q = skip_chars(&cs, k + 1);
            string_from_chars(q.as_slice())
        },
        None => String::new(),
    }
}

fn is_seg(g: &Vec<String>, i: usize, lit: &str) -> (r: bool)
    requires
        i < g@.len(),
    ensures
        r == (g.deep_view()[i as int] == lit@),
{
    compare_text(g[i].as_str(), lit) == 0
}

/// Route a request by method and URL, exactly as `route_of` states over its path segments.
pub fn route(m: HttpMethod, url: &str) -> (r: Route)
    ensures
        route_view(r) == route_of(m, path_segments(url_path(url@))),
{
    let g = segments(url);
    let ghost gv = g.deep_view();
    let n = g.len();
    proof {
        reveal_strlit("api");
        reveal_strlit("functions");
    }
    let api = n >= 1 && is_seg(&g, 0, "api");
    let fns = n >= 2 && is_seg(&g, 1, "functions");
    let get = m == HttpMethod::Get;
    let post = m == HttpMethod::Post;
    if get && n == 0 {
        Route::Help
    } else if get && n == 2 && api && is_seg(&g, 1, "info") {
        Route::Info
    } else if get && n == 2 && api && fns {
        Route::Functions
    } else if get && n == 2 && api && is_seg(&g, 1, "search") {
        Route::Search
    } else if get && n == 3 && api && fns {
        Route::View(copy_string(&g[2]))
    } else if get && n == 4 && api && fns && is_seg(&g, 3, "callers") {
        Route::Callers(copy_string(&g[2]))
    } else if get && n == 2 && api && is_seg(&g, 1, "export") {
        Route::Export
    } else if post && n == 4 && api && fns && is_seg(&g, 3, "rename") {
        Route::Rename(copy_string(&g[2]))
    } else if post && n == 4 && api && fns && is_seg(&g, 3, "retype") {
        Route::Retype(copy_string(&g[2]))
    } else if post && n == 4 && api && fns && is_seg(&g, 3, "comment") {
        Route::Comment(copy_string(&g[2]))
    } else if post && n == 2 && api && is_seg(&g, 1, "diff") {
        Route::Diff
    } else {
        Route::NotFound
    }
}

/// The endpoint list the gateway serves at `/`.
pub open spec fn endpoint_list() -> Seq<Seq<char>> {
    seq![
        "GET /api/info"@,
        "GET /api/functions?zoom=intent|domain|detail"@,
        "GET /api/search?q=<query>&zoom=\u{2026}"@,
        "GET /api/functions/<id>?zoom=\u{2026}"@,
        "GET /api/functions/<id>/callers"@,
        "POST /api/functions/<id>/rename (body: {\"name\": \"\u{2026}\"})"@,
        "POST /api/functions/<id>/retype (body: {\"type\": \"\u{2026}\"})"@,
        "POST /api/functions/<id>/comment (body: {\"text\": \"\u{2026}\"})"@,
        "POST /api/diff (body: a .scylla artifact)"@,
        "GET /api/export (download the annotated model as a .scylla)"@,
    ]
}

/// The endpoints the gateway lists at `/`, in order.
pub fn endpoints() -> (r: Vec<String>)
    ensures
        r.deep_view() == endpoint_list(),
{
    let mut v: Vec<String> = Vec::new();
    v.push(String::from_str("GET /api/info"));
    v.push(String::from_str("GET /api/functions?zoom=intent|domain|detail"));
    v.push(String::from_str("GET /api/search?q=<query>&zoom=\u{2026}"));
    v.push(String::from_str("GET /api/functions/<id>?zoom=\u{2026}"));
    v.push(String::from_str("GET /api/functions/<id>/callers"));
    v.push(String::from_str("POST /api/functions/<id>/rename (body: {\"name\": \"\u{2026}\"})"));
    v.push(String::from_str("POST /api/functions/<id>/retype (body: {\"type\": \"\u{2026}\"})"));
    v.push(String::from_str("POST /api/functions/<id>/comment (body: {\"text\": \"\u{2026}\"})"));
    v.push(String::from_str("POST /api/diff (body: a .scylla artifact)"));
    v.push(String::from_str("GET /api/export (download the annotated model as a .scylla)"));
    assert(v.deep_view() =~= endpoint_list());
    v
}

// ---------------------------------------------------------------------------------------------
// The bearer-token gate
// ---------------------------------------------------------------------------------------------

/// The token that gates access: a blank or white-space-only value counts as unset.
pub open spec fn gate_token_of(raw: Option<Seq<char>>) -> Option<Seq<char>> {
    match raw {
        Some(t) => if crate::text::is_blank_text(t) {
            None
        } else {
            Some(t)
        },
        None => None,
    }
}

/// The configured token, if it gates anything.
pub fn gate_token(raw: Option<String>) -> (r: Option<String>)
    ensures
        match r {
            Some(t) => gate_token_of(
                match raw {
                    Some(x) => Some(x@),
                    None => None,
                },
            ) == Some(t@),
            None => gate_token_of(
                match raw {
                    Some(x) => Some(x@),
                    None => None,
                },
            ) is None,
        },
{
    match raw {
        Some(t) => if crate::text::is_blank(t.as_str()) {
            None
        } else {
            Some(t)
        },
        None => None,
    }
}

/// The `Authorization` value a request must carry for `token`.
pub fn bearer(token: &str) -> (r: String)
    ensures
        r@ == "Bearer "@ + token@,
{
    let mut s = String::from_str("Bearer ");
    s.append(token);
    s
}

/// A request is let in when the gateway is open, or when one of its `Authorization` values is
/// exactly the expected one (each compared in constant time).
pub open spec fn admits(expected: Option<Seq<char>>, values: Seq<Seq<char>>) -> bool {
    match expected {
        None => true,
        Some(want) => exists|i: int| 0 <= i < values.len() && #[trigger] values[i] == want,
    }
}

/// Whether a request with these `Authorization` header values is let in.
pub fn authorized(expected: &Option<String>, values: &Vec<String>) -> (r: bool)
    ensures
        r == admits(
            match expected {
                Some(w) => Some(w@),
                None => None,
            },
            values.deep_view(),
        ),
{
    let want = match expected {
        None => return true,
        Some(w) => w,
    };
    let ghost vs = values.deep_view();
    let mut i: usize = 0;
    while i < values.len()
        invariant
            i <= values@.len(),
            vs == values.deep_view(),
            *expected == Some(*want),
            forall|j: int| 0 <= j < i ==> vs[j] != want@,
        decreases values@.len() - i,
    {
        let same = constant_time_eq(values[i].as_str().as_bytes(), want.as_str().as_bytes());
        proof {
            encode_utf8_decode_utf8(values@[i as int]@);
            encode_utf8_decode_utf8(want@);
        }
        if same {
            assert(vs[i as int] == want@);
            return true;
        }
        i += 1;
    }
    false
}

} // verus!
