//! The GraphQL head's resolvers: the client port projected as one typed query graph. Queries
//! read (`info`, `functions`, `search`, `function`, `callers`, `diff`); mutations write durable
//! user facts (`rename`, `retype`, `comment`). Every resolver is a thin projection of
//! [`Session`], so the graph carries no domain logic of its own.

use vstd::prelude::*;
use vstd::string::*;

use crate::merge::{method_tag, MatchInfo, MatchMethod};
use crate::model::{index_of, FactKind, Program, StableId, UserFact};
use crate::port::{
    annotated, lemma_without_kind_clear, without_kind,
    callers_of, contains_id, name_in, name_text, names_of, port_error_text, search_ids, summary_text,
    FunctionView, PortError, Session, SessionDiff, Zoom as PortZoom,
};
use crate::text::{copy_string, decimal, decimal_string, parse_decimal, parse_unsigned, IntError};
use crate::tui::{sort_by_name, sorted_by_name};

use base64::engine::general_purpose::STANDARD as B64;
use base64::Engine;

verus! {

/// The execution context: the one resident session.
pub struct Context {
    pub session: Session,
}

impl Context {
    pub fn new(session: Session) -> (r: Self)
        ensures
            r.session == session,
    {
        Context { session }
    }
}

/// Semantic-zoom altitude, as a client picks it.
#[derive(Clone, Copy, Debug, PartialEq, Eq, Structural)]
pub enum Zoom {
    /// Coarsest: identity + a one-line summary, nothing else.
    Intent,
    /// Default: the domain vocabulary (address, basic-block count, callees, callers).
    Domain,
    /// Finest: everything the model holds (adds byte size).
    Detail,
}

/// The port altitude a client's choice selects; no choice means `Domain`.
pub open spec fn port_zoom_of(z: Option<Zoom>) -> PortZoom {
    match z {
        Some(Zoom::Intent) => PortZoom::Intent,
        Some(Zoom::Detail) => PortZoom::Detail,
        _ => PortZoom::Domain,
    }
}

/// The port altitude a client's choice selects; no choice means `Domain`.
pub fn port_zoom(z: Option<Zoom>) -> (r: PortZoom)
    ensures
        r == port_zoom_of(z),
{
    match z {
        Some(Zoom::Intent) => PortZoom::Intent,
        Some(Zoom::Detail) => PortZoom::Detail,
        _ => PortZoom::Domain,
    }
}

/// Program identity + how many functions it holds.
pub struct Info {
    pub name: String,
    pub language: String,
    pub functions: i32,
}

/// A function at list altitude: identity + one-line summary. The id is a decimal string (a
/// `u64` is wider than a GraphQL `Int`).
pub struct FunctionSummary {
    pub id: String,
    pub name: String,
    pub summary: String,
}

/// A caller reference: id + display name.
pub struct Caller {
    pub id: String,
    pub name: String,
}

/// One function's full view at a chosen zoom; the optional fields are present or absent by
/// altitude, exactly as the port populates them.
pub struct FunctionDetail {
    pub id: String,
    pub name: String,
    pub summary: String,
    /// Entry address as a decimal string, from `Domain` up.
    pub addr: Option<String>,
    /// Basic-block count, from `Domain` up.
    pub bb_count: Option<i32>,
    /// Byte size as a decimal string, at `Detail` only.
    pub size: Option<String>,
    pub callees: Option<Vec<String>>,
    pub callers: Option<Vec<String>>,
    /// The user comment attached to this function, if any.
    pub comment: Option<String>,
    /// The user-assigned type, if any.
    pub user_type: Option<String>,
}

/// A matched / renamed / modified function pair: `from` is this model's name, `to` the other's.
pub struct Pair {
    pub from: String,
    pub to: String,
}

/// How many pairs a given ladder rung recovered.
pub struct MethodCount {
    pub method: String,
    pub count: i32,
}

/// How a matched or modified function was recovered, and how strongly (0..=100).
pub struct MatchConfidence {
    pub name: String,
    pub method: String,
    pub confidence: i32,
}

/// The structural binary-diff report, with the ladder-rung tally and per-pair confidence.
pub struct DiffReport {
    /// Pairs matched with the name unchanged.
    pub matched: i32,
    /// Pairs matched but renamed (`from` != `to`).
    pub renamed: Vec<Pair>,
    /// Pairs re-identified with a changed body.
    pub modified: Vec<Pair>,
    /// Functions present only in the other model.
    pub added: Vec<String>,
    /// Functions present only in this model.
    pub removed: Vec<String>,
    pub methods: Vec<MethodCount>,
    pub confidence: Vec<MatchConfidence>,
}

/// The acknowledgement an annotation returns; failures are errors, not `ok: false`.
pub struct MutationResult {
    pub ok: bool,
    pub id: String,
}

/// The error a malformed id gets.
pub open spec fn bad_id_text() -> Seq<char> {
    "id must be an integer"@
}

/// The error an id no function has gets.
pub open spec fn missing_text(id: u64) -> Seq<char> {
    "no function with id "@ + decimal(id as nat)
}

/// The id a client's text names, as `u64` parsing reads it.
pub open spec fn id_named(id: Seq<char>) -> Option<StableId> {
    match parse_unsigned(id, u64::MAX as nat) {
        Ok(n) => Some(StableId(n as u64)),
        Err(_) => None,
    }
}

/// Parse a string id, refusing anything that is not a `u64`.
pub fn parse_id(id: &str) -> (r: Result<StableId, String>)
    ensures
        match r {
            Ok(s) => id_named(id@) == Some(s),
            Err(e) => id_named(id@) is None && e@ == bad_id_text(),
        },
{
    match parse_decimal(id, u64::MAX) {
        Ok(n) => Ok(StableId(n)),
        Err(_) => Err(String::from_str("id must be an integer")),
    }
}

/// The text of the first fact of kind `tag` on `id`, if any.
pub open spec fn first_fact(facts: Seq<UserFact>, id: StableId, tag: int) -> Option<Seq<char>>
    decreases facts.len(),
{
    if facts.len() == 0 {
        None
    } else if facts[0].target == id && facts[0].kind.tag() == tag {
        Some(facts[0].kind.text())
    } else {
        first_fact(facts.drop_first(), id, tag)
    }
}

/// Whether an optional string is the optional text `t`.
pub open spec fn opt_text(s: Option<String>, t: Option<Seq<char>>) -> bool {
    match s {
        Some(x) => t == Some(x@),
        None => t is None,
    }
}

fn fact_of(prog: &Program, id: StableId, tag: u8) -> (r: Option<String>)
    ensures
        opt_text(r, first_fact(prog.facts@, id, tag as int)),
{
    let facts = &prog.facts;
    let mut i: usize = 0;
    assert(facts@.skip(0) =~= facts@);
    while i < facts.len()
        invariant
            i <= facts@.len(),
            facts == &prog.facts,
            first_fact(facts@, id, tag as int) == first_fact(facts@.skip(i as int), id, tag as int),
        decreases facts@.len() - i,
    {
        assert(facts@.skip(i as int).drop_first() =~= facts@.skip(i + 1));
        assert(facts@.skip(i as int)[0] == facts@[i as int]);
        let f = &facts[i];
        if f.target == id && f.kind.kind_tag() == tag {
            return Some(copy_string(f.kind.value()));
        }
        i += 1;
    }
    None
}

/// The user comment attached to `id`, if any.
pub fn comment_of(prog: &Program, id: StableId) -> (r: Option<String>)
    ensures
        opt_text(r, first_fact(prog.facts@, id, 2)),
{
    fact_of(prog, id, 2)
}

/// The user-assigned type for `id`, if any.
pub fn type_of(prog: &Program, id: StableId) -> (r: Option<String>)
    ensures
        opt_text(r, first_fact(prog.facts@, id, 1)),
{
    fact_of(prog, id, 1)
}

/// `s` lists function `id` of `p`: its decimal id, display name and one-line summary.
pub open spec fn lists(s: FunctionSummary, p: Program, id: StableId) -> bool {
    let f = p.functions@[index_of(p.functions@, id)];
    &&& s.id@ == decimal(id.0 as nat)
    &&& s.name@ == name_text(p, id)
    &&& s.summary@ == summary_text(name_text(p, id), f.bb_count, f.callees@.len(), callers_of(p.functions@, id).len())
}

/// A view at list altitude.
pub fn summary(f: &FunctionView) -> (r: FunctionSummary)
    ensures
        r.id@ == decimal(f.id.0 as nat),
        r.name@ == f.name@,
        r.summary@ == f.summary@,
{
    FunctionSummary { id: decimal_string(f.id.0), name: copy_string(&f.name), summary: copy_string(&f.summary) }
}

fn summaries(vs: &Vec<FunctionView>) -> (r: Vec<FunctionSummary>)
    ensures
        r@.len() == vs@.len(),
        forall|i: int|
            0 <= i < r@.len() ==> (#[trigger] r@[i]).id@ == decimal(vs@[i].id.0 as nat) && r@[i].name@
                == vs@[i].name@ && r@[i].summary@ == vs@[i].summary@,
{
    let mut out: Vec<FunctionSummary> = Vec::new();
    let mut i: usize = 0;
    while i < vs.len()
        invariant
            i <= vs@.len(),
            out@.len() == i,
            forall|k: int|
                0 <= k < i ==> (#[trigger] out@[k]).id@ == decimal(vs@[k].id.0 as nat) && out@[k].name@
                    == vs@[k].name@ && out@[k].summary@ == vs@[k].summary@,
        decreases vs@.len() - i,
    {
        out.push(summary(&vs[i]));
        i += 1;
    }
    out
}

/// `d` is the detail of function `id` of `p` at `zoom`, with its comment and user type.
pub open spec fn details(d: FunctionDetail, p: Program, id: StableId, zoom: PortZoom) -> bool {
    let f = p.functions@[index_of(p.functions@, id)];
    let callers = callers_of(p.functions@, id);
    &&& d.id@ == decimal(id.0 as nat)
    &&& d.name@ == name_text(p, id)
    &&& d.summary@ == summary_text(name_text(p, id), f.bb_count, f.callees@.len(), callers.len())
    &&& match d.addr {
        None => zoom == PortZoom::Intent,
        Some(a) => zoom != PortZoom::Intent && a@ == decimal(f.addr as nat),
    }
    &&& d.bb_count == (if zoom == PortZoom::Intent {
        None
    } else {
        Some(f.bb_count as i32)
    })
    &&& match d.size {
        None => zoom != PortZoom::Detail,
        Some(s) => zoom == PortZoom::Detail && s@ == decimal(f.size as nat),
    }
    &&& match d.callees {
        None => zoom == PortZoom::Intent,
        Some(c) => zoom != PortZoom::Intent && c.deep_view() == names_of(p, f.callees@),
    }
    &&& match d.callers {
        None => zoom == PortZoom::Intent,
        Some(c) => zoom != PortZoom::Intent && c.deep_view() == names_of(p, callers),
    }
    &&& opt_text(d.comment, first_fact(p.facts@, id, 2))
    &&& opt_text(d.user_type, first_fact(p.facts@, id, 1))
}

fn decimal_opt(x: Option<u64>) -> (r: Option<String>)
    ensures
        match x {
            None => r is None,
            Some(n) => r matches Some(s) && s@ == decimal(n as nat),
        },
{
    match x {
        Some(n) => Some(decimal_string(n)),
        None => None,
    }
}

// ---------------------------------------------------------------------------------------------
// Artifacts as base64 text
// ---------------------------------------------------------------------------------------------

/// The standard base64 alphabet: `A-Z`, `a-z`, `0-9`, `+`, `/`.
pub open spec fn b64_char(v: nat) -> char {
    if v < 26 {
        (('A' as nat) + v) as char
    } else if v < 52 {
        (('a' as nat) + v - 26) as char
    } else if v < 62 {
        (('0' as nat) + v - 52) as char
    } else if v == 62 {
        '+'
    } else {
        '/'
    }
}

/// Standard padded base64 (RFC 4648): each three bytes become four characters, a final one or
/// two bytes are padded with `=` to four.
pub open spec fn b64_encoding(b: Seq<u8>) -> Seq<char>
    decreases b.len(),
{
    if b.len() == 0 {
        Seq::empty()
    } else if b.len() == 1 {
        seq![b64_char(b[0] as nat / 4), b64_char((b[0] as nat % 4) * 16), '=', '=']
    } else if b.len() == 2 {
        seq![
            b64_char(b[0] as nat / 4),
            b64_char((b[0] as nat % 4) * 16 + b[1] as nat / 16),
            b64_char((b[1] as nat % 16) * 4),
            '=',
        ]
    } else {
        seq![
            b64_char(b[0] as nat / 4),
            b64_char((b[0] as nat % 4) * 16 + b[1] as nat / 16),
            b64_char((b[1] as nat % 16) * 4 + b[2] as nat / 64),
            b64_char(b[2] as nat % 64),
        ] + b64_encoding(b.skip(3))
    }
}

/// What standard base64 decoding makes of a text: the bytes, or the message of the error that
/// stops it.
pub uninterp spec fn b64_decoding(text: Seq<char>) -> Result<Seq<u8>, Seq<char>>;

/// A successful decoding to `b`.
pub open spec fn decoded_ok(b: Seq<u8>) -> Result<Seq<u8>, Seq<char>> {
    Ok(b)
}

/// `base64`'s `STANDARD.encode`. Claimed of it: the text is the padded RFC 4648 encoding of the
/// bytes, and decoding that text with the same engine gives the bytes back.
#[verifier::external_body]
fn base64_text(bytes: &[u8]) -> (r: String)
    requires
        bytes@.len() <= isize::MAX,
    ensures
        r@ == b64_encoding(bytes@),
        b64_decoding(r@) == decoded_ok(bytes@),
{
    B64.encode(bytes)
}

/// `base64`'s `STANDARD.decode` of a text's bytes, its error given by its message. Claimed of
/// it: the outcome depends on the text alone. Which texts it refuses, and with which message, is
/// not stated.
#[verifier::external_body]
fn base64_bytes(text: &str) -> (r: Result<Vec<u8>, String>)
    ensures
        r matches Ok(v) ==> (b64_decoding(text@) matches Ok(b) && b == v@),
        r matches Err(m) ==> (b64_decoding(text@) matches Err(e) && e == m@),
{
    match B64.decode(text.as_bytes()) {
        Ok(v) => Ok(v),
        Err(e) => Err(e.to_string()),
    }
}

/// What an artifact sent as base64 text reads as: its bytes, or the error a client is told.
pub open spec fn artifact_text_read(text: Seq<char>) -> Result<Seq<u8>, Seq<char>> {
    match b64_decoding(text) {
        Ok(b) => Ok(b),
        Err(e) => Err("artifactBase64 is not valid base64: "@ + e),
    }
}

/// The bytes of an artifact sent as base64 text (the first step of `diff`).
pub fn artifact_bytes(artifact_base64: &str) -> (r: Result<Vec<u8>, String>)
    ensures
        match r {
            Ok(v) => artifact_text_read(artifact_base64@) == Ok::<Seq<u8>, Seq<char>>(v@),
            Err(m) => artifact_text_read(artifact_base64@) == Err::<Seq<u8>, Seq<char>>(m@),
        },
{
    match base64_bytes(artifact_base64) {
        Ok(v) => Ok(v),
        Err(e) => {
            let mut m = String::from_str("artifactBase64 is not valid base64: ");
            m.append(e.as_str());
            Err(m)
        },
    }
}


/// The read graph.
pub struct Query;

impl Query {
    /// The resident model's artifact (with this session's annotations) as base64 text, so a
    /// remote client can pull its work back out. What it hands out reads back, through `diff`'s
    /// first step, as the very artifact exported.
    pub fn export(artifact: &[u8]) -> (r: String)
        requires
            artifact@.len() <= isize::MAX,
        ensures
            r@ == b64_encoding(artifact@),
            artifact_text_read(r@) == Ok::<Seq<u8>, Seq<char>>(artifact@),
    {
        base64_text(artifact)
    }

    /// Program identity + function count.
    pub fn info(context: &Context) -> (r: Info)
        ensures
            r.name@ == context.session.model().name@,
            r.language@ == context.session.model().language@,
            r.functions == context.session.model().functions@.len() as i32,
    {
        let p = context.session.program();
        Info { name: copy_string(&p.name), language: copy_string(&p.language), functions: p.functions.len() as i32 }
    }

    /// Every function at the given zoom (default `Domain`), stably sorted by name.
    pub fn functions(context: &Context, zoom: Option<Zoom>) -> (r: Vec<FunctionSummary>)
        ensures
            exists|vs: Seq<FunctionView>|
                {
                    &&& vs.len() == context.session.model().functions@.len()
                    &&& forall|i: int|
                        0 <= i < vs.len() ==> crate::port::is_view_of(
                            #[trigger] vs[i],
                            context.session.model(),
                            context.session.model().functions@[i].id,
                            port_zoom_of(zoom),
                        )
                    &&& r@.len() == sorted_by_name(vs).len()
                    &&& forall|i: int|
                        0 <= i < r@.len() ==> (#[trigger] r@[i]).id@ == decimal(sorted_by_name(vs)[i].id.0 as nat)
                            && r@[i].name@ == sorted_by_name(vs)[i].name@ && r@[i].summary@
                            == sorted_by_name(vs)[i].summary@
                },
    {
        let vs = context.session.functions(port_zoom(zoom));
        let ghost views = vs@;
        let sorted = sort_by_name(vs);
        let r = summaries(&sorted);
        assert(views.len() == context.session.model().functions@.len());
        r
    }

    /// Functions whose display name contains `query`, ignoring ASCII case, in model order.
    pub fn search(context: &Context, query: &str, zoom: Option<Zoom>) -> (r: Vec<FunctionSummary>)
        ensures
            r@.len() == search_ids(context.session.model(), context.session.model().functions@, query@).len(),
            forall|i: int|
                0 <= i < r@.len() ==> lists(
                    #[trigger] r@[i],
                    context.session.model(),
                    search_ids(context.session.model(), context.session.model().functions@, query@)[i],
                ),
    {
        let vs = context.session.search(query, port_zoom(zoom));
        summaries(&vs)
    }

    /// One function's view at `zoom` (default `Domain`): `None` when no function has the id, an
    /// error when the id is malformed.
    pub fn function(context: &Context, id: &str, zoom: Option<Zoom>) -> (r: Result<Option<FunctionDetail>, String>)
        ensures
            match id_named(id@) {
                None => r matches Err(e) && e@ == bad_id_text(),
                Some(sid) => if index_of(context.session.model().functions@, sid) >= 0 {
                    r matches Ok(Some(d)) && details(d, context.session.model(), sid, port_zoom_of(zoom))
                } else {
                    r matches Ok(None)
                },
            },
    {
        let sid = match parse_id(id) {
            Ok(s) => s,
            Err(e) => return Err(e),
        };
        let s = &context.session;
        match s.view(sid, port_zoom(zoom)) {
            Ok(v) => {
                let prog = s.program();
                Ok(
                    Some(
                        FunctionDetail {
                            id: decimal_string(v.id.0),
                            name: v.name,
                            summary: v.summary,
                            addr: decimal_opt(v.addr),
                            bb_count: match v.bb_count {
                                Some(b) => Some(b as i32),
                                None => None,
                            },
                            size: decimal_opt(v.size),
                            callees: v.callees,
                            callers: v.callers,
                            comment: comment_of(prog, sid),
                            user_type: type_of(prog, sid),
                        },
                    ),
                )
            },
            Err(_) => Ok(None),
        }
    }

    /// The functions that call `id`, by id and display name; an unknown or malformed id is an
    /// error.
    pub fn callers(context: &Context, id: &str) -> (r: Result<Vec<Caller>, String>)
        ensures
            match id_named(id@) {
                None => r matches Err(e) && e@ == bad_id_text(),
                Some(sid) => if index_of(context.session.model().functions@, sid) >= 0 {
                    r matches Ok(cs) && cs@.len() == callers_of(context.session.model().functions@, sid).len()
                        && forall|i: int|
                        0 <= i < cs@.len() ==> (#[trigger] cs@[i]).id@ == decimal(
                            callers_of(context.session.model().functions@, sid)[i].0 as nat,
                        ) && cs@[i].name@ == name_text(
                            context.session.model(),
                            callers_of(context.session.model().functions@, sid)[i],
                        )
                } else {
                    r matches Err(e) && e@ == missing_text(sid.0)
                },
            },
    {
        let sid = match parse_id(id) {
            Ok(s) => s,
            Err(e) => return Err(e),
        };
        let s = &context.session;
        let prog = s.program();
        if crate::model::find_function(&prog.functions, sid).is_none() {
            let mut m = String::from_str("no function with id ");
            let d = decimal_string(sid.0);
            m.append(d.as_str());
            return Err(m);
        }
        let ids = s.callers(sid);
        let mut out: Vec<Caller> = Vec::new();
        let mut i: usize = 0;
        while i < ids.len()
            invariant
                i <= ids@.len(),
                ids@ == callers_of(context.session.model().functions@, sid),
                *prog == context.session.model(),
                out@.len() == i,
                forall|k: int|
                    0 <= k < i ==> (#[trigger] out@[k]).id@ == decimal(ids@[k].0 as nat) && out@[k].name@
                        == name_text(context.session.model(), ids@[k]),
            decreases ids@.len() - i,
        {
            out.push(Caller { id: decimal_string(ids[i].0), name: name_in(prog, ids[i]) });
            i += 1;
        }
        Ok(out)
    }
}

/// The write graph: the three durable-fact verbs. Each mutates the resident session in place
/// and is visible to the next query.
pub struct Mutation;

/// What an annotation through the graph does: a malformed or unknown id is an error and
/// nothing changes; otherwise the port verb runs, its error becoming the graph's.
pub open spec fn annotated_via(
    before: Context,
    after: Context,
    id: Seq<char>,
    tag: int,
    text: Seq<char>,
    checked: bool,
    r: Result<MutationResult, String>,
) -> bool {
    match id_named(id) {
        None => r matches Err(e) && e@ == bad_id_text() && after.session == before.session,
        Some(sid) => if index_of(before.session.model().functions@, sid) < 0 {
            r matches Err(e) && e@ == missing_text(sid.0) && after.session == before.session
        } else {
            exists|pr: Result<(), PortError>|
                {
                    &&& crate::port::annotated(before.session, after.session, sid, tag, text, pr, checked)
                    &&& (pr is Ok ==> (r matches Ok(m) && m.ok && m.id@ == decimal(sid.0 as nat)))
                    &&& (pr matches Err(e) ==> (r matches Err(t) && t@ == port_error_text(e)))
                }
        },
    }
}

fn annotate(context: &mut Context, id: &str, tag: u8, text: &str) -> (r: Result<MutationResult, String>)
    requires
        tag <= 2,
    ensures
        annotated_via(*old(context), *final(context), id@, tag as int, text@, tag != 2, r),
{
    let sid = match parse_id(id) {
        Ok(s) => s,
        Err(e) => return Err(e),
    };
    if crate::model::find_function(&context.session.program().functions, sid).is_none() {
        let mut m = String::from_str("no function with id ");
        let d = decimal_string(sid.0);
        m.append(d.as_str());
        return Err(m);
    }
    let ghost before = *context;
    let pr = if tag == 0 {
        context.session.rename(sid, text)
    } else if tag == 1 {
        context.session.retype(sid, text)
    } else {
        context.session.comment(sid, text)
    };
    assert(crate::port::annotated(before.session, context.session, sid, tag as int, text@, pr, tag != 2));
    match pr {
        Ok(()) => Ok(MutationResult { ok: true, id: decimal_string(sid.0) }),
        Err(e) => Err(e.message()),
    }
}

impl Mutation {
    /// Rename a function; a blank name or an unknown id is an error.
    pub fn rename(context: &mut Context, id: &str, name: &str) -> (r: Result<MutationResult, String>)
        ensures
            annotated_via(*old(context), *final(context), id@, 0, name@, true, r),
    {
        annotate(context, id, 0, name)
    }

    /// Assign a user type; a blank type or an unknown id is an error.
    pub fn retype(context: &mut Context, id: &str, new_type: &str) -> (r: Result<MutationResult, String>)
        ensures
            annotated_via(*old(context), *final(context), id@, 1, new_type@, true, r),
    {
        annotate(context, id, 1, new_type)
    }

    /// Attach a comment; an empty comment is valid and clears it.
    pub fn comment(context: &mut Context, id: &str, text: &str) -> (r: Result<MutationResult, String>)
        ensures
            annotated_via(*old(context), *final(context), id@, 2, text@, false, r),
    {
        annotate(context, id, 2, text)
    }
}

/// An id the graph prints names the same function when handed back: the decimal text of any
/// `u64` id parses to that id.
pub proof fn law_printed_id_reads_back(id: StableId)
    ensures
        id_named(decimal(id.0 as nat)) == Some(id),
{
    crate::text::law_decimal_round_trip(id.0 as nat, u64::MAX as nat);
}

proof fn lemma_first_fact_last(s: Seq<UserFact>, f: UserFact, id: StableId, tag: int)
    requires
        forall|j: int| 0 <= j < s.len() ==> !((#[trigger] s[j]).target == id && s[j].kind.tag() == tag),
        f.target == id,
        f.kind.tag() == tag,
    ensures
        first_fact(s.push(f), id, tag) == Some(f.kind.text()),
    decreases s.len(),
{
    if s.len() > 0 {
        assert(s.push(f).drop_first() =~= s.drop_first().push(f));
        assert(!(s[0].target == id && s[0].kind.tag() == tag));
        assert forall|j: int| 0 <= j < s.drop_first().len() implies !((#[trigger] s.drop_first()[j]).target
            == id && s.drop_first()[j].kind.tag() == tag) by {
            assert(s.drop_first()[j] == s[j + 1]);
        }
        lemma_first_fact_last(s.drop_first(), f, id, tag);
    } else {
        assert(s.push(f)[0] == f);
    }
}

/// What a mutation writes, the next query reads: once `rename`, `retype` or `comment` succeeds,
/// the function's fact of that kind is the text just written (so `function` shows the new
/// comment or type, and the display name is the new name).
pub proof fn law_annotation_reads_back(
    before: Context,
    after: Context,
    id: Seq<char>,
    tag: int,
    text: Seq<char>,
    checked: bool,
    r: Result<MutationResult, String>,
)
    requires
        annotated_via(before, after, id, tag, text, checked, r),
        r is Ok,
    ensures
        id_named(id) matches Some(sid) && first_fact(after.session.model().facts@, sid, tag) == Some(text),
{
    let sid = id_named(id)->0;
    let pr = choose|pr: Result<(), PortError>|
        {
            &&& annotated(before.session, after.session, sid, tag, text, pr, checked)
            &&& (pr is Ok ==> (r matches Ok(m) && m.ok && m.id@ == decimal(sid.0 as nat)))
            &&& (pr matches Err(e) ==> (r matches Err(t) && t@ == port_error_text(e)))
        };
    assert(pr is Ok);
    let facts = after.session.model().facts@;
    let f = facts.last();
    let kept = without_kind(before.session.model().facts@, sid, tag);
    assert(facts == kept.push(f));
    lemma_without_kind_clear(before.session.model().facts@, sid, tag);
    lemma_first_fact_last(kept, f, sid, tag);
}

// ---------------------------------------------------------------------------------------------
// The diff report
// ---------------------------------------------------------------------------------------------

/// The matched pairs whose names differ, in order.
pub open spec fn renamed_of(m: Seq<(Seq<char>, Seq<char>)>) -> Seq<(Seq<char>, Seq<char>)>
    decreases m.len(),
{
    if m.len() == 0 {
        Seq::empty()
    } else {
        let r = renamed_of(m.drop_last());
        if m.last().0 != m.last().1 {
            r.push(m.last())
        } else {
            r
        }
    }
}

proof fn lemma_renamed_len(m: Seq<(Seq<char>, Seq<char>)>)
    ensures
        renamed_of(m).len() <= m.len(),
    decreases m.len(),
{
    if m.len() > 0 {
        lemma_renamed_len(m.drop_last());
    }
}

/// Where the tally entry for `m` stands, or `-1`.
pub open spec fn tally_index(t: Seq<(MatchMethod, nat)>, m: MatchMethod) -> int
    decreases t.len(),
{
    if t.len() == 0 {
        -1
    } else if t.last().0 == m {
        t.len() - 1
    } else {
        tally_index(t.drop_last(), m)
    }
}

/// How many pairs each rung recovered, rungs in order of first appearance.
pub open spec fn tally_methods(ps: Seq<MatchMethod>) -> Seq<(MatchMethod, nat)>
    decreases ps.len(),
{
    if ps.len() == 0 {
        Seq::empty()
    } else {
        let t = tally_methods(ps.drop_last());
        let k = tally_index(t, ps.last());
        if k >= 0 {
            t.update(k, (ps.last(), t[k].1 + 1))
        } else {
            t.push((ps.last(), 1))
        }
    }
}

/// A pair's two names.
pub open spec fn pair_view(p: Pair) -> (Seq<char>, Seq<char>) {
    (p.from@, p.to@)
}

proof fn lemma_tally_index(t: Seq<(MatchMethod, nat)>, m: MatchMethod)
    ensures
        -1 <= tally_index(t, m) < t.len(),
        tally_index(t, m) >= 0 ==> t[tally_index(t, m)].0 == m,
        tally_index(t, m) < 0 ==> forall|j: int| 0 <= j < t.len() ==> t[j].0 != m,
    decreases t.len(),
{
    if t.len() > 0 && t.last().0 != m {
        lemma_tally_index(t.drop_last(), m);
        assert forall|j: int| 0 <= j < t.len() - 1 implies t[j] == t.drop_last()[j] by {}
    }
}

fn pairs_of(v: &Vec<(String, String)>, only_renamed: bool) -> (r: Vec<Pair>)
    ensures
        r@.map_values(|p: Pair| pair_view(p)) == (if only_renamed {
            renamed_of(v.deep_view())
        } else {
            v.deep_view()
        }),
{
    let mut out: Vec<Pair> = Vec::new();
    let mut i: usize = 0;
    while i < v.len()
        invariant
            i <= v@.len(),
            out@.map_values(|p: Pair| pair_view(p)) == (if only_renamed {
                renamed_of(v.deep_view().take(i as int))
            } else {
                v.deep_view().take(i as int)
            }),
        decreases v@.len() - i,
    {
        assert(v.deep_view().take(i + 1).drop_last() =~= v.deep_view().take(i as int));
        let ghost before = out@;
        let (a, b) = (&v[i].0, &v[i].1);
        if !only_renamed || !a.eq(b) {
            out.push(Pair { from: copy_string(a), to: copy_string(b) });
        }
        assert(out@.map_values(|p: Pair| pair_view(p)) =~= (if only_renamed {
            renamed_of(v.deep_view().take(i + 1))
        } else {
            v.deep_view().take(i + 1)
        }));
        i += 1;
    }
    assert(v.deep_view().take(v@.len() as int) =~= v.deep_view());
    out
}

fn copy_strings_of(v: &Vec<String>) -> (r: Vec<String>)
    ensures
        r.deep_view() == v.deep_view(),
{
    let mut out: Vec<String> = Vec::new();
    let mut i: usize = 0;
    while i < v.len()
        invariant
            i <= v@.len(),
            out.deep_view() == v.deep_view().take(i as int),
        decreases v@.len() - i,
    {
        let ghost before = out.deep_view();
        let c = copy_string(&v[i]);
        out.push(c);
        assert(out.deep_view() =~= before.push(c@));
        assert(v.deep_view().take(i + 1) =~= v.deep_view().take(i as int).push(v@[i as int]@));
        i += 1;
    }
    assert(v.deep_view().take(v@.len() as int) =~= v.deep_view());
    out
}

/// The rungs of a diff's provenance, in order.
pub open spec fn rungs(ps: Seq<(String, MatchInfo)>) -> Seq<MatchMethod> {
    ps.map_values(|p: (String, MatchInfo)| p.1.method)
}

/// The report of a named diff: renamed and modified pairs, the unchanged count, what appears on
/// one side only, how many pairs each rung recovered and each pair's confidence.
pub fn diff_report(d: &SessionDiff) -> (r: DiffReport)
    requires
        d.provenance@.len() <= i32::MAX,
    ensures
        r.renamed@.map_values(|p: Pair| pair_view(p)) == renamed_of(d.matched.deep_view()),
        r.matched == (d.matched@.len() - renamed_of(d.matched.deep_view()).len()) as i32,
        r.modified@.map_values(|p: Pair| pair_view(p)) == d.changed.deep_view(),
        r.added.deep_view() == d.only_there.deep_view(),
        r.removed.deep_view() == d.only_here.deep_view(),
        r.methods@.len() == tally_methods(rungs(d.provenance@)).len(),
        forall|i: int|
            0 <= i < r.methods@.len() ==> (#[trigger] r.methods@[i]).method@ == method_tag(
                tally_methods(rungs(d.provenance@))[i].0,
            ) && r.methods@[i].count == tally_methods(rungs(d.provenance@))[i].1,
        r.confidence@.len() == d.provenance@.len(),
        forall|i: int|
            0 <= i < r.confidence@.len() ==> (#[trigger] r.confidence@[i]).name@ == d.provenance@[i].0@
                && r.confidence@[i].method@ == method_tag(d.provenance@[i].1.method)
                && r.confidence@[i].confidence == d.provenance@[i].1.confidence as i32,
{
    let renamed = pairs_of(&d.matched, true);
    assert(renamed@.map_values(|p: Pair| pair_view(p)).len() == renamed@.len());
    let modified = pairs_of(&d.changed, false);
    let ghost rs = rungs(d.provenance@);
    let mut tally: Vec<(MatchMethod, i32)> = Vec::new();
    let mut confidence: Vec<MatchConfidence> = Vec::new();
    let mut i: usize = 0;
    while i < d.provenance.len()
        invariant
            i <= d.provenance@.len(),
            d.provenance@.len() <= i32::MAX,
            rs == rungs(d.provenance@),
            tally@.len() == tally_methods(rs.take(i as int)).len(),
            forall|j: int|
                0 <= j < tally@.len() ==> (#[trigger] tally@[j]).0 == tally_methods(rs.take(i as int))[j].0
                    && tally@[j].1 == tally_methods(rs.take(i as int))[j].1 && tally@[j].1 <= i,
            confidence@.len() == i,
            forall|j: int|
                0 <= j < i ==> (#[trigger] confidence@[j]).name@ == d.provenance@[j].0@
                    && confidence@[j].method@ == method_tag(d.provenance@[j].1.method)
                    && confidence@[j].confidence == d.provenance@[j].1.confidence as i32,
        decreases d.provenance@.len() - i,
    {
        assert(rs.take(i + 1).drop_last() =~= rs.take(i as int));
        assert(rs.take(i + 1).last() == d.provenance@[i as int].1.method);
        let ghost t = tally_methods(rs.take(i as int));
        let (name, info) = (&d.provenance[i].0, d.provenance[i].1);
        let mut k: usize = 0;
        loop
            invariant
                k <= tally@.len(),
                forall|j: int| 0 <= j < k ==> (#[trigger] tally@[j]).0 != info.method,
            ensures
                k <= tally@.len(),
                forall|j: int| 0 <= j < k ==> (#[trigger] tally@[j]).0 != info.method,
                k < tally@.len() ==> tally@[k as int].0 == info.method,
            decreases tally@.len() - k,
        {
            if k >= tally.len() {
                break;
            }
            if tally[k].0 == info.method {
                break;
            }
            k += 1;
        }
        proof {
            lemma_tally_index(t, info.method);
        }
        let ghost t1 = tally_methods(rs.take(i + 1));
        if k < tally.len() {
            assert(tally_index(t, info.method) >= 0) by {
                assert(t[k as int].0 == info.method);
            }
            assert(tally_index(t, info.method) == k as int) by {
                let q = tally_index(t, info.method);
                if q != k as int {
                    lemma_tally_unique(rs.take(i as int), q, k as int);
                }
            }
            let c = tally[k].1;
            tally.set(k, (info.method, c + 1));
            assert(t1 == t.update(k as int, (info.method, t[k as int].1 + 1)));
        } else {
            assert(tally_index(t, info.method) < 0) by {
                if tally_index(t, info.method) >= 0 {
                    let q = tally_index(t, info.method);
                    assert(tally@[q].0 == t[q].0);
                }
            }
            tally.push((info.method, 1));
            assert(t1 == t.push((info.method, 1nat)));
        }
        assert forall|j: int| 0 <= j < tally@.len() implies (#[trigger] tally@[j]).0 == t1[j].0
            && tally@[j].1 == t1[j].1 && tally@[j].1 <= i + 1 by {}
        confidence.push(
            MatchConfidence {
                name: copy_string(name),
                method: String::from_str(info.method.as_str()),
                confidence: info.confidence as i32,
            },
        );
        i += 1;
    }
    assert(rs.take(rs.len() as int) =~= rs);
    let mut methods: Vec<MethodCount> = Vec::new();
    let mut j: usize = 0;
    while j < tally.len()
        invariant
            j <= tally@.len(),
            methods@.len() == j,
            forall|q: int|
                0 <= q < j ==> (#[trigger] methods@[q]).method@ == method_tag(tally@[q].0)
                    && methods@[q].count == tally@[q].1,
        decreases tally@.len() - j,
    {
        methods.push(MethodCount { method: String::from_str(tally[j].0.as_str()), count: tally[j].1 });
        j += 1;
    }
    proof {
        lemma_renamed_len(d.matched.deep_view());
    }
    let unchanged = d.matched.len() - renamed.len();
    DiffReport {
        matched: unchanged as i32,
        renamed,
        modified,
        added: copy_strings_of(&d.only_there),
        removed: copy_strings_of(&d.only_here),
        methods,
        confidence,
    }
}

/// A tally lists each rung once.
proof fn lemma_tally_unique(ps: Seq<MatchMethod>, a: int, b: int)
    requires
        0 <= a < tally_methods(ps).len(),
        0 <= b < tally_methods(ps).len(),
        a != b,
    ensures
        tally_methods(ps)[a].0 != tally_methods(ps)[b].0,
    decreases ps.len(),
{
    let t = tally_methods(ps.drop_last());
    lemma_tally_index(t, ps.last());
    let k = tally_index(t, ps.last());
    if k >= 0 {
        lemma_tally_unique(ps.drop_last(), a, b);
    } else if a < t.len() && b < t.len() {
        lemma_tally_unique(ps.drop_last(), a, b);
    }
}

} // verus!
