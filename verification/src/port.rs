//! The client port: a data-centric, model-primary command surface a consumer drives. Consumers
//! see the *model* — a function, its callers — never engine operations. Every view carries a
//! [`Zoom`] altitude; `rename`/`retype`/`comment` write durable user facts; failures come back as
//! a small typed taxonomy ([`PortError`]).

use std::collections::BTreeSet;

use vstd::prelude::*;
use vstd::string::*;

use crate::merge::{MatchInfo, ProgramDiff};
use crate::model::{
    copy_principal, display_name_of, find_function, index_of, lemma_index_of, FactKind, Function,
    Principal, Program, Provenance, StableId, UserFact,
};
use crate::text::{decimal, decimal_string, is_blank, is_blank_text};

verus! {

/// Typed port errors: a small taxonomy a head can translate faithfully.
#[derive(Debug, Clone, PartialEq, Eq)]
pub enum PortError {
    /// The target id isn't in the model.
    NoSuchFunction(StableId),
    /// The model artifact failed to load/decode.
    Decode(String),
    /// An annotation value was rejected (e.g. an empty name).
    InvalidInput(String),
}

/// The text a `PortError` displays as.
pub open spec fn port_error_text(e: PortError) -> Seq<char> {
    match e {
        PortError::NoSuchFunction(id) => "no such function: StableId("@ + decimal(id.0 as nat)
            + ")"@,
        PortError::Decode(s) => "decode error: "@ + s@,
        PortError::InvalidInput(s) => "invalid input: "@ + s@,
    }
}

impl PortError {
    /// The human-readable message (what `Display` would print).
    pub fn message(&self) -> (s: String)
        ensures
            s@ == port_error_text(*self),
    {
        match self {
            PortError::NoSuchFunction(id) => {
                let mut s = String::from_str("no such function: StableId(");
                let d = decimal_string(id.0);
                s.append(d.as_str());
                s.append(")");
                s
            },
            PortError::Decode(e) => {
                let mut s = String::from_str("decode error: ");
                s.append(e.as_str());
                s
            },
            PortError::InvalidInput(e) => {
                let mut s = String::from_str("invalid input: ");
                s.append(e.as_str());
                s
            },
        }
    }
}

/// Semantic-zoom altitude.
#[derive(Clone, Copy, Debug, PartialEq, Eq, Structural)]
pub enum Zoom {
    /// Coarsest: just identity + a one-line summary.
    Intent,
    /// Default resting altitude: the domain vocabulary.
    Domain,
    /// Fine escape hatch: everything the model holds.
    Detail,
}

/// The zoom a numeric level selects: `0` intent, `2` detail, anything else the default domain.
pub fn zoom_of(level: u32) -> (z: Zoom)
    ensures
        z == (if level == 0 {
            Zoom::Intent
        } else if level == 2 {
            Zoom::Detail
        } else {
            Zoom::Domain
        }),
{
    match level {
        0 => Zoom::Intent,
        2 => Zoom::Detail,
        _ => Zoom::Domain,
    }
}

/// A function projected at a [`Zoom`] altitude. Fields above the current altitude are `None`.
#[derive(Debug, Clone, PartialEq, Eq)]
pub struct FunctionView {
    pub id: StableId,
    /// Display name — a user rename wins over the engine symbol.
    pub name: String,
    /// One-line summary, present at every altitude.
    pub summary: String,
    pub addr: Option<u64>,
    pub bb_count: Option<u32>,
    pub callees: Option<Vec<String>>,
    pub callers: Option<Vec<String>>,
    pub size: Option<u64>,
}

/// A semantic diff between two sessions: functions matched across them by structural identity,
/// and those on only one side — reported by display name.
#[derive(Debug, Default, PartialEq, Eq)]
pub struct SessionDiff {
    /// `(this_name, other_name)` for each structurally-matched pair (body unchanged).
    pub matched: Vec<(String, String)>,
    /// `(this_name, other_name)` for each pair whose body changed but which was re-identified.
    pub changed: Vec<(String, String)>,
    /// Display names of functions present only in this session.
    pub only_here: Vec<String>,
    /// Display names of functions present only in the other session.
    pub only_there: Vec<String>,
    /// How each matched/changed pair was recovered, keyed by this session's display name.
    pub provenance: Vec<(String, MatchInfo)>,
}

/// The display name of `id`, or the empty text when it has none.
pub open spec fn name_text(p: Program, id: StableId) -> Seq<char> {
    match display_name_of(p, id) {
        Some(n) => n@,
        None => Seq::empty(),
    }
}

/// Ids of the functions (in model order) whose callees include `id`.
pub open spec fn callers_of(fs: Seq<Function>, id: StableId) -> Seq<StableId>
    decreases fs.len(),
{
    if fs.len() == 0 {
        Seq::empty()
    } else {
        let r = callers_of(fs.drop_last(), id);
        if fs.last().callees@.contains(id) {
            r.push(fs.last().id)
        } else {
            r
        }
    }
}

/// The one-line summary of a function.
pub open spec fn summary_text(name: Seq<char>, bb: u32, out_calls: nat, callers: nat) -> Seq<char> {
    name + " — "@ + decimal(bb as nat) + " block(s), "@ + decimal(out_calls) + " out-call(s), "@
        + decimal(callers) + " caller(s)"@
}

/// The display names of a list of ids.
pub open spec fn names_of(p: Program, ids: Seq<StableId>) -> Seq<Seq<char>> {
    ids.map_values(|c: StableId| name_text(p, c))
}

/// `v` is the projection of function `id` of `p` at altitude `zoom`.
pub open spec fn is_view_of(v: FunctionView, p: Program, id: StableId, zoom: Zoom) -> bool {
    let k = index_of(p.functions@, id);
    let f = p.functions@[k];
    let callers = callers_of(p.functions@, id);
    &&& k >= 0
    &&& v.id == id
    &&& v.name@ == name_text(p, id)
    &&& v.summary@ == summary_text(name_text(p, id), f.bb_count, f.callees@.len(), callers.len())
    &&& v.addr == (if zoom == Zoom::Intent {
        None
    } else {
        Some(f.addr)
    })
    &&& v.bb_count == (if zoom == Zoom::Intent {
        None
    } else {
        Some(f.bb_count)
    })
    &&& match v.callees {
        None => zoom == Zoom::Intent,
        Some(c) => zoom != Zoom::Intent && c.deep_view() == names_of(p, f.callees@),
    }
    &&& match v.callers {
        None => zoom == Zoom::Intent,
        Some(c) => zoom != Zoom::Intent && c.deep_view() == names_of(p, callers),
    }
    &&& v.size == (if zoom == Zoom::Detail {
        Some(f.size)
    } else {
        None
    })
}

/// `facts` without the facts of kind `tag` on `id`.
pub open spec fn without_kind(facts: Seq<UserFact>, id: StableId, tag: int) -> Seq<UserFact>
    decreases facts.len(),
{
    if facts.len() == 0 {
        Seq::empty()
    } else {
        let r = without_kind(facts.drop_last(), id, tag);
        if facts.last().target == id && facts.last().kind.tag() == tag {
            r
        } else {
            r.push(facts.last())
        }
    }
}

/// `after` is `before` with the facts of `f`'s kind on `f`'s target replaced by `f`.
pub open spec fn fact_set(before: Seq<UserFact>, after: Seq<UserFact>, f: UserFact) -> bool {
    after == without_kind(before, f.target, f.kind.tag()).push(f)
}

/// A live analysis session: the client port over one loaded model.
pub struct Session {
    program: Program,
    principal: Option<Principal>,
}

impl Session {
    /// The model this session serves.
    pub closed spec fn model(&self) -> Program {
        self.program
    }

    /// The principal annotations are stamped with.
    pub closed spec fn author(&self) -> Option<Principal> {
        self.principal
    }

    /// Open a session as the local user.
    pub fn open(program: Program) -> (s: Self)
        ensures
            s.model() == program,
            s.author() matches Some(p) && p.0@ == "local"@,
    {
        Session { program, principal: Some(Principal(String::from_str("local"))) }
    }

    /// Open as a specific principal.
    pub fn open_as(program: Program, principal: Principal) -> (s: Self)
        ensures
            s.model() == program,
            s.author() == Some(principal),
    {
        Session { program, principal: Some(principal) }
    }

    pub fn program(&self) -> (p: &Program)
        ensures
            *p == self.model(),
    {
        &self.program
    }

    /// Replace the served model (the session's principal stays).
    pub fn adopt(&mut self, program: Program)
        ensures
            final(self).model() == program,
            final(self).author() == old(self).author(),
    {
        self.program = program;
    }

    /// Stable ids of functions that call `id` (call-graph navigation).
    pub fn callers(&self, id: StableId) -> (r: Vec<StableId>)
        ensures
            r@ == callers_of(self.model().functions@, id),
    {
        callers_in(&self.program, id)
    }

    /// Project one function at a zoom altitude.
    pub fn view(&self, id: StableId, zoom: Zoom) -> (r: Result<FunctionView, PortError>)
        ensures
            match r {
                Ok(v) => is_view_of(v, self.model(), id, zoom),
                Err(e) => e == PortError::NoSuchFunction(id) && index_of(
                    self.model().functions@,
                    id,
                ) < 0,
            },
    {
        project(&self.program, id, zoom)
    }

    /// List all functions at a zoom altitude, in model order.
    pub fn functions(&self, zoom: Zoom) -> (r: Vec<FunctionView>)
        ensures
            r@.len() == self.model().functions@.len(),
            forall|i: int|
                0 <= i < r@.len() ==> is_view_of(
                    #[trigger] r@[i],
                    self.model(),
                    self.model().functions@[i].id,
                    zoom,
                ),
    {
        project_all(&self.program, zoom)
    }
    /// Rename a function. A blank name is rejected.
    pub fn rename(&mut self, id: StableId, name: &str) -> (r: Result<(), PortError>)
        ensures
            annotated(*old(self), *final(self), id, 0, name@, r, true),
    {
        if is_blank(name) {
            return Err(PortError::InvalidInput(String::from_str("a function name cannot be empty")));
        }
        self.set_fact(id, FactKind::Rename(name.to_owned()))
    }

    /// Retype a function. A blank type is rejected.
    pub fn retype(&mut self, id: StableId, ty: &str) -> (r: Result<(), PortError>)
        ensures
            annotated(*old(self), *final(self), id, 1, ty@, r, true),
    {
        if is_blank(ty) {
            return Err(PortError::InvalidInput(String::from_str("a type cannot be empty")));
        }
        self.set_fact(id, FactKind::Retype(ty.to_owned()))
    }

    /// Comment on a function. A comment may be empty — clearing it is a legitimate edit.
    pub fn comment(&mut self, id: StableId, text: &str) -> (r: Result<(), PortError>)
        ensures
            annotated(*old(self), *final(self), id, 2, text@, r, false),
    {
        self.set_fact(id, FactKind::Comment(text.to_owned()))
    }

    /// Set a fact, replacing an existing fact of the same kind on the same target.
    fn set_fact(&mut self, id: StableId, kind: FactKind) -> (r: Result<(), PortError>)
        ensures
            final(self).author() == old(self).author(),
            final(self).model().name == old(self).model().name,
            final(self).model().language == old(self).model().language,
            final(self).model().functions == old(self).model().functions,
            index_of(old(self).model().functions@, id) < 0 ==> r == Err::<(), PortError>(
                PortError::NoSuchFunction(id),
            ) && final(self).model() == old(self).model(),
            index_of(old(self).model().functions@, id) >= 0 ==> r is Ok && {
                let facts = final(self).model().facts@;
                let f = facts.last();
                &&& facts.len() > 0
                &&& f.target == id
                &&& f.kind == kind
                &&& f.author == old(self).author()
                &&& f.provenance.is_user_default()
                &&& fact_set(old(self).model().facts@, facts, f)
            },
    {
        if find_function(&self.program.functions, id).is_none() {
            return Err(PortError::NoSuchFunction(id));
        }
        let tag = kind.kind_tag();
        let ghost before = self.program.facts@;
        let mut kept: Vec<UserFact> = Vec::new();
        let old_facts = &self.program.facts;
        let mut i: usize = 0;
        while i < old_facts.len()
            invariant
                i <= old_facts@.len(),
                old_facts@ == before,
                kept@ == without_kind(before.take(i as int), id, tag as int),
            decreases old_facts@.len() - i,
        {
            assert(before.take(i + 1).drop_last() =~= before.take(i as int));
            let f = &old_facts[i];
            if !(f.target == id && f.kind.kind_tag() == tag) {
                kept.push(f.duplicate());
            }
            i += 1;
        }
        assert(before.take(before.len() as int) =~= before);
        let fact = UserFact {
            target: id,
            kind,
            author: copy_principal(&self.principal),
            provenance: Provenance::default(),
        };
        kept.push(fact);
        self.program.facts = kept;
        Ok(())
    }

    /// Coarse-grained diff against another session: entry addresses present only here / only
    /// there.
    pub fn diff_function_addrs(&self, other: &Session) -> (r: (BTreeSet<u64>, BTreeSet<u64>))
        ensures
            r.0@ == addr_set(self.model().functions@).difference(addr_set(other.model().functions@)),
            r.1@ == addr_set(other.model().functions@).difference(addr_set(self.model().functions@)),
    {
        let mine = &self.program.functions;
        let theirs = &other.program.functions;
        let mut here: BTreeSet<u64> = BTreeSet::new();
        let mut there: BTreeSet<u64> = BTreeSet::new();
        let mut i: usize = 0;
        while i < mine.len()
            invariant
                i <= mine@.len(),
                here@ == addr_set(mine@.take(i as int)).difference(addr_set(theirs@)),
            decreases mine@.len() - i,
        {
            let a = mine[i].addr;
            proof {
                lemma_addr_set_push(mine@, i as int);
            }
            if !has_addr(theirs, a) {
                here.insert(a);
            }
            assert(here@ =~= addr_set(mine@.take(i + 1)).difference(addr_set(theirs@)));
            i += 1;
        }
        assert(mine@.take(mine@.len() as int) =~= mine@);
        let mut j: usize = 0;
        while j < theirs.len()
            invariant
                j <= theirs@.len(),
                there@ == addr_set(theirs@.take(j as int)).difference(addr_set(mine@)),
            decreases theirs@.len() - j,
        {
            let a = theirs[j].addr;
            proof {
                lemma_addr_set_push(theirs@, j as int);
            }
            if !has_addr(mine, a) {
                there.insert(a);
            }
            assert(there@ =~= addr_set(theirs@.take(j + 1)).difference(addr_set(mine@)));
            j += 1;
        }
        assert(theirs@.take(theirs@.len() as int) =~= theirs@);
        (here, there)
    }

    /// Name a structural diff of this session's model against `other`'s: every id pair, leftover
    /// and provenance entry of `d` by its side's display name, in `d`'s order.
    pub fn diff_names(&self, other: &Session, d: &ProgramDiff) -> (r: SessionDiff)
        ensures
            r.matched.deep_view() == d.matched@.map_values(
                |p: (StableId, StableId)| (name_text(self.model(), p.0), name_text(other.model(), p.1)),
            ),
            r.changed.deep_view() == d.changed@.map_values(
                |p: (StableId, StableId)| (name_text(self.model(), p.0), name_text(other.model(), p.1)),
            ),
            r.only_here.deep_view() == names_of(self.model(), d.only_a@),
            r.only_there.deep_view() == names_of(other.model(), d.only_b@),
            r.provenance@.len() == d.provenance@.len(),
            forall|i: int|
                0 <= i < r.provenance@.len() ==> (#[trigger] r.provenance@[i]).0@ == name_text(
                    self.model(),
                    d.provenance@[i].0,
                ) && r.provenance@[i].1 == d.provenance@[i].1,
    {
        let matched = self.name_pairs(other, &d.matched);
        let changed = self.name_pairs(other, &d.changed);
        let only_here = names_in(&self.program, &d.only_a);
        let only_there = names_in(&other.program, &d.only_b);
        let mut provenance: Vec<(String, MatchInfo)> = Vec::new();
        let mut i: usize = 0;
        while i < d.provenance.len()
            invariant
                i <= d.provenance@.len(),
                provenance@.len() == i,
                forall|j: int|
                    0 <= j < i ==> (#[trigger] provenance@[j]).0@ == name_text(
                        self.model(),
                        d.provenance@[j].0,
                    ) && provenance@[j].1 == d.provenance@[j].1,
            decreases d.provenance@.len() - i,
        {
            let (id, info) = d.provenance[i];
            provenance.push((name_in(&self.program, id), info));
            i += 1;
        }
        SessionDiff { matched, changed, only_here, only_there, provenance }
    }

    fn name_pairs(&self, other: &Session, pairs: &Vec<(StableId, StableId)>) -> (r: Vec<(String, String)>)
        ensures
            r.deep_view() == pairs@.map_values(
                |p: (StableId, StableId)| (name_text(self.model(), p.0), name_text(other.model(), p.1)),
            ),
    {
        let mut out: Vec<(String, String)> = Vec::new();
        let mut i: usize = 0;
        while i < pairs.len()
            invariant
                i <= pairs@.len(),
                out.deep_view() =~= pairs@.map_values(
                    |p: (StableId, StableId)|
                        (name_text(self.model(), p.0), name_text(other.model(), p.1)),
                ).take(i as int),
            decreases pairs@.len() - i,
        {
            let (a, b) = pairs[i];
            let na = name_in(&self.program, a);
            let nb = name_in(&other.program, b);
            let ghost before = out.deep_view();
            out.push((na, nb));
            assert(out.deep_view() =~= before.push((na@, nb@)));
            i += 1;
        }
        out
    }
}

/// The outcome of annotating `id` with a fact of kind `tag` and text `text`: a blank value is
/// refused where `checked` (nothing changes); otherwise a missing function is refused
/// (nothing changes); otherwise the fact replaces any earlier fact of its kind on `id`,
/// stamped with the session's principal at the default provenance.
pub open spec fn annotated(
    before: Session,
    after: Session,
    id: StableId,
    tag: int,
    text: Seq<char>,
    r: Result<(), PortError>,
    checked: bool,
) -> bool {
    let blank = checked && is_blank_text(text);
    let missing = index_of(before.model().functions@, id) < 0;
    &&& after.author() == before.author()
    &&& after.model().name == before.model().name
    &&& after.model().language == before.model().language
    &&& after.model().functions == before.model().functions
    &&& (blank ==> (r matches Err(PortError::InvalidInput(m)) && m@ == (if tag == 0 {
        "a function name cannot be empty"@
    } else {
        "a type cannot be empty"@
    })))
    &&& (!blank && missing ==> r == Err::<(), PortError>(PortError::NoSuchFunction(id)))
    &&& (r is Err ==> after.model() == before.model())
    &&& (!blank && !missing ==> r is Ok && {
        let facts = after.model().facts@;
        let f = facts.last();
        &&& facts.len() > 0
        &&& f.target == id
        &&& f.kind.tag() == tag
        &&& f.kind.text() == text
        &&& f.author == before.author()
        &&& f.provenance.is_user_default()
        &&& fact_set(before.model().facts@, facts, f)
    })
}

/// The display name of `id` in `p`, or empty.
pub(crate) fn name_in(p: &Program, id: StableId) -> (s: String)
    ensures
        s@ == name_text(*p, id),
{
    match p.display_name(id) {
        Some(n) => n,
        None => String::new(),
    }
}

/// Ids of the functions of `p` that call `id`, in model order.
fn callers_in(p: &Program, id: StableId) -> (r: Vec<StableId>)
    ensures
        r@ == callers_of(p.functions@, id),
{
    let fs = &p.functions;
    let mut out: Vec<StableId> = Vec::new();
    let mut i: usize = 0;
    while i < fs.len()
        invariant
            i <= fs@.len(),
            fs == &p.functions,
            out@ == callers_of(fs@.take(i as int), id),
        decreases fs@.len() - i,
    {
        assert(fs@.take(i + 1).drop_last() =~= fs@.take(i as int));
        if contains_id(&fs[i].callees, id) {
            out.push(fs[i].id);
        }
        i += 1;
    }
    assert(fs@.take(fs@.len() as int) =~= fs@);
    out
}

/// The display names in `p` of a list of ids.
fn names_in(p: &Program, ids: &Vec<StableId>) -> (r: Vec<String>)
    ensures
        r.deep_view() == names_of(*p, ids@),
{
    let mut out: Vec<String> = Vec::new();
    let mut i: usize = 0;
    while i < ids.len()
        invariant
            i <= ids@.len(),
            out.deep_view() =~= names_of(*p, ids@).take(i as int),
        decreases ids@.len() - i,
    {
        let n = name_in(p, ids[i]);
        let ghost before = out.deep_view();
        out.push(n);
        assert(out.deep_view() =~= before.push(n@));
        i += 1;
    }
    out
}

/// Project function `id` of `p` at a zoom altitude.
pub fn project(p: &Program, id: StableId, zoom: Zoom) -> (r: Result<FunctionView, PortError>)
    ensures
        match r {
            Ok(v) => is_view_of(v, *p, id, zoom),
            Err(e) => e == PortError::NoSuchFunction(id) && index_of(p.functions@, id) < 0,
        },
{
    proof {
        lemma_index_of(p.functions@, id);
    }
    let k = match find_function(&p.functions, id) {
        Some(k) => k,
        None => return Err(PortError::NoSuchFunction(id)),
    };
    let f = &p.functions[k];
    let name = name_in(p, id);
    let callers = callers_in(p, id);
    let mut summary = name.clone();
    summary.append(" — ");
    summary.append(decimal_string(f.bb_count as u64).as_str());
    summary.append(" block(s), ");
    summary.append(decimal_string(f.callees.len() as u64).as_str());
    summary.append(" out-call(s), ");
    summary.append(decimal_string(callers.len() as u64).as_str());
    summary.append(" caller(s)");
    let mut v = FunctionView {
        id,
        name,
        summary,
        addr: None,
        bb_count: None,
        callees: None,
        callers: None,
        size: None,
    };
    if zoom != Zoom::Intent {
        v.addr = Some(f.addr);
        v.bb_count = Some(f.bb_count);
        v.callees = Some(names_in(p, &f.callees));
        v.callers = Some(names_in(p, &callers));
    }
    if zoom == Zoom::Detail {
        v.size = Some(f.size);
    }
    Ok(v)
}

/// Project every function of `p` at a zoom altitude, in model order.
pub fn project_all(p: &Program, zoom: Zoom) -> (r: Vec<FunctionView>)
    ensures
        r@.len() == p.functions@.len(),
        forall|i: int|
            0 <= i < r@.len() ==> is_view_of(#[trigger] r@[i], *p, p.functions@[i].id, zoom),
{
    let fs = &p.functions;
    let mut out: Vec<FunctionView> = Vec::new();
    let mut i: usize = 0;
    while i < fs.len()
        invariant
            i <= fs@.len(),
            fs == &p.functions,
            out@.len() == i,
            forall|j: int| 0 <= j < i ==> is_view_of(#[trigger] out@[j], *p, fs@[j].id, zoom),
        decreases fs@.len() - i,
    {
        proof {
            lemma_index_of(fs@, fs@[i as int].id);
        }
        match project(p, fs[i].id, zoom) {
            Ok(v) => out.push(v),
            Err(_) => {
                assert(fs@[i as int].id == fs@[i as int].id);
                assert(false);
            },
        }
        i += 1;
    }
    out
}

/// The set of entry addresses of some functions.
pub open spec fn addr_set(fs: Seq<Function>) -> Set<u64> {
    Set::new(|a: u64| exists|i: int| 0 <= i < fs.len() && fs[i].addr == a)
}

proof fn lemma_addr_set_push(fs: Seq<Function>, i: int)
    requires
        0 <= i < fs.len(),
    ensures
        addr_set(fs.take(i + 1)) == addr_set(fs.take(i)).insert(fs[i].addr),
{
    let t1 = fs.take(i + 1);
    let t0 = fs.take(i);
    let a = addr_set(t1);
    let b = addr_set(t0).insert(fs[i].addr);
    assert forall|x: u64| a.contains(x) implies b.contains(x) by {
        let k = choose|k: int| 0 <= k < t1.len() && #[trigger] t1[k].addr == x;
        if k < i {
            assert(t0[k].addr == x);
        }
    }
    assert forall|x: u64| b.contains(x) implies a.contains(x) by {
        if x == fs[i].addr {
            assert(t1[i].addr == x);
        } else {
            let k = choose|k: int| 0 <= k < t0.len() && #[trigger] t0[k].addr == x;
            assert(t1[k].addr == x);
        }
    }
    assert(a =~= b);
}

fn has_addr(fs: &Vec<Function>, a: u64) -> (r: bool)
    ensures
        r == addr_set(fs@).contains(a),
{
    let mut i: usize = 0;
    while i < fs.len()
        invariant
            i <= fs@.len(),
            forall|k: int| 0 <= k < i ==> fs@[k].addr != a,
        decreases fs@.len() - i,
    {
        if fs[i].addr == a {
            return true;
        }
        i += 1;
    }
    false
}

/// Whether `id` occurs in `ids`.
pub fn contains_id(ids: &Vec<StableId>, id: StableId) -> (r: bool)
    ensures
        r == ids@.contains(id),
{
    let mut i: usize = 0;
    while i < ids.len()
        invariant
            i <= ids@.len(),
            forall|k: int| 0 <= k < i ==> ids@[k] != id,
        decreases ids@.len() - i,
    {
        if ids[i] == id {
            return true;
        }
        i += 1;
    }
    false
}

pub(crate) proof fn lemma_without_kind_clear(facts: Seq<UserFact>, id: StableId, tag: int)
    ensures
        forall|j: int|
            0 <= j < without_kind(facts, id, tag).len() ==> !((#[trigger] without_kind(
                facts,
                id,
                tag,
            )[j]).target == id && without_kind(facts, id, tag)[j].kind.tag() == tag),
    decreases facts.len(),
{
    if facts.len() > 0 {
        lemma_without_kind_clear(facts.drop_last(), id, tag);
    }
}

proof fn lemma_rename_of_last(s: Seq<UserFact>, f: UserFact, id: StableId)
    requires
        forall|j: int| 0 <= j < s.len() ==> !(s[j].target == id && s[j].kind.tag() == 0),
        f.target == id,
        f.kind is Rename,
    ensures
        crate::model::rename_of(s.push(f), id) == Some(f.kind->Rename_0),
    decreases s.len(),
{
    if s.len() > 0 {
        assert(s.push(f).drop_first() =~= s.drop_first().push(f));
        assert(!(s[0].target == id && s[0].kind.tag() == 0));
        assert forall|j: int| 0 <= j < s.drop_first().len() implies !(s.drop_first()[j].target == id
            && s.drop_first()[j].kind.tag() == 0) by {
            assert(s.drop_first()[j] == s[j + 1]);
        }
        lemma_rename_of_last(s.drop_first(), f, id);
    } else {
        assert(s.push(f)[0] == f);
    }
}

/// A user rename wins over the engine's symbol: once `rename` succeeds, the function's display
/// name is the new name.
pub proof fn law_rename_wins(
    before: Session,
    after: Session,
    id: StableId,
    name: Seq<char>,
    r: Result<(), PortError>,
)
    requires
        annotated(before, after, id, 0, name, r, true),
        r is Ok,
    ensures
        display_name_of(after.model(), id) matches Some(n) && n@ == name,
        name_text(after.model(), id) == name,
{
    let facts = after.model().facts@;
    let f = facts.last();
    let kept = without_kind(before.model().facts@, id, 0);
    assert(facts == kept.push(f));
    lemma_without_kind_clear(before.model().facts@, id, 0);
    assert(f.kind is Rename);
    lemma_rename_of_last(kept, f, id);
}

// ---------------------------------------------------------------------------------------------
// Search
// ---------------------------------------------------------------------------------------------

/// ASCII lower case of one character (other characters are left alone).
pub open spec fn ascii_lower(c: char) -> char {
    if 'A' <= c && c <= 'Z' {
        ((c as u32) + 32) as char
    } else {
        c
    }
}

/// A text with its ASCII letters lower-cased.
pub open spec fn folded(s: Seq<char>) -> Seq<char> {
    s.map_values(|c: char| ascii_lower(c))
}

/// `needle` occurs in `hay` as a contiguous run.
pub open spec fn occurs_in(hay: Seq<char>, needle: Seq<char>) -> bool {
    exists|i: int| 0 <= i && i + needle.len() <= hay.len() && #[trigger] hay.subrange(i, i + needle.len()) == needle
}

/// A display name matches a query when the query occurs in it, ignoring ASCII case.
pub open spec fn matches_query(name: Seq<char>, q: Seq<char>) -> bool {
    occurs_in(folded(name), folded(q))
}

/// The ids of the functions (in model order) whose display name matches `q`.
pub open spec fn search_ids(p: Program, fs: Seq<Function>, q: Seq<char>) -> Seq<StableId>
    decreases fs.len(),
{
    if fs.len() == 0 {
        Seq::empty()
    } else {
        let r = search_ids(p, fs.drop_last(), q);
        if matches_query(name_text(p, fs.last().id), q) {
            r.push(fs.last().id)
        } else {
            r
        }
    }
}

pub(crate) fn lower_char(c: char) -> (r: char)
    ensures
        r == ascii_lower(c),
{
    if 'A' <= c && c <= 'Z' {
        ((c as u8) + 32) as char
    } else {
        c
    }
}

fn fold_text(s: &str) -> (r: Vec<char>)
    ensures
        r@ == folded(s@),
{
    let cs = crate::text::chars_of(s);
    let mut out: Vec<char> = Vec::new();
    let mut i: usize = 0;
    while i < cs.len()
        invariant
            i <= cs@.len(),
            cs@ == s@,
            out@ == folded(cs@).take(i as int),
        decreases cs@.len() - i,
    {
        out.push(lower_char(cs[i]));
        assert(out@ =~= folded(cs@).take(i + 1));
        i += 1;
    }
    assert(out@ =~= folded(s@));
    out
}

/// Whether `needle` occurs in `hay`.
fn occurs(hay: &Vec<char>, needle: &Vec<char>) -> (r: bool)
    ensures
        r == occurs_in(hay@, needle@),
{
    if needle.len() > hay.len() {
        return false;
    }
    let limit = hay.len() - needle.len();
    let mut i: usize = 0;
    while i <= limit
        invariant
            needle@.len() <= hay@.len(),
            limit + needle.len() == hay.len(),
            i <= limit + 1,
            forall|k: int| 0 <= k < i ==> #[trigger] hay@.subrange(k, k + needle@.len()) != needle@,
        decreases limit + 1 - i,
    {
        let mut j: usize = 0;
        let mut same = true;
        while j < needle.len()
            invariant
                j <= needle@.len(),
                i <= limit,
                limit + needle.len() == hay.len(),
                same == (forall|t: int| 0 <= t < j ==> hay@[i + t] == needle@[t]),
            decreases needle@.len() - j,
        {
            assert(i + j < hay.len());
            if hay[i + j] != needle[j] {
                same = false;
            }
            j += 1;
        }
        if same {
            assert(hay@.subrange(i as int, i + needle@.len()) =~= needle@);
            return true;
        }
        proof {
            let t = choose|t: int| 0 <= t < needle@.len() && hay@[i + t] != needle@[t];
            assert(hay@.subrange(i as int, i + needle@.len())[t] != needle@[t]);
        }
        i += 1;
    }
    assert forall|k: int| 0 <= k && k + needle@.len() <= hay@.len() implies #[trigger] hay@.subrange(k, k + needle@.len()) != needle@ by {
        assert(k <= limit);
    }
    false
}

impl Session {
    /// The functions whose display name contains `query`, ignoring ASCII case, projected at a
    /// zoom altitude, in model order.
    pub fn search(&self, query: &str, zoom: Zoom) -> (r: Vec<FunctionView>)
        ensures
            r@.len() == search_ids(self.model(), self.model().functions@, query@).len(),
            forall|i: int|
                0 <= i < r@.len() ==> is_view_of(
                    #[trigger] r@[i],
                    self.model(),
                    search_ids(self.model(), self.model().functions@, query@)[i],
                    zoom,
                ),
    {
        let q = fold_text(query);
        let fs = &self.program.functions;
        let mut out: Vec<FunctionView> = Vec::new();
        let mut i: usize = 0;
        while i < fs.len()
            invariant
                i <= fs@.len(),
                fs == &self.program.functions,
                q@ == folded(query@),
                out@.len() == search_ids(self.model(), fs@.take(i as int), query@).len(),
                forall|k: int|
                    0 <= k < out@.len() ==> is_view_of(
                        #[trigger] out@[k],
                        self.model(),
                        search_ids(self.model(), fs@.take(i as int), query@)[k],
                        zoom,
                    ),
            decreases fs@.len() - i,
        {
            let ghost before = search_ids(self.model(), fs@.take(i as int), query@);
            assert(fs@.take(i + 1).drop_last() =~= fs@.take(i as int));
            let id = fs[i].id;
            let name = name_in(&self.program, id);
            let hay = fold_text(name.as_str());
            if occurs(&hay, &q) {
                proof {
                    lemma_index_of(fs@, id);
                }
                match project(&self.program, id, zoom) {
                    Ok(v) => out.push(v),
                    Err(_) => {
                        assert(fs@[i as int].id == id);
                        assert(false);
                    },
                }
            }
            i += 1;
        }
        assert(fs@.take(fs@.len() as int) =~= fs@);
        out
    }
}

} // verus!

verus! {

proof fn lemma_without_kind_from(facts: Seq<UserFact>, id: StableId, tag: int)
    ensures
        forall|t: int|
            0 <= t < without_kind(facts, id, tag).len() ==> facts.contains(#[trigger] without_kind(facts, id, tag)[t]),
    decreases facts.len(),
{
    if facts.len() > 0 {
        let d = facts.drop_last();
        let r = without_kind(d, id, tag);
        lemma_without_kind_from(d, id, tag);
        assert forall|t: int| 0 <= t < without_kind(facts, id, tag).len() implies facts.contains(
            #[trigger] without_kind(facts, id, tag)[t],
        ) by {
            if t < r.len() {
                assert(without_kind(facts, id, tag)[t] == r[t]);
                assert(d.contains(r[t]));
                let q = choose|q: int| 0 <= q < d.len() && d[q] == r[t];
                assert(facts[q] == r[t]);
            } else {
                assert(facts[facts.len() - 1] == without_kind(facts, id, tag)[t]);
            }
        }
    }
}

/// Annotating keeps a model well formed: the functions are untouched, and a new fact only ever
/// targets a function the model has.
pub proof fn law_annotation_keeps_model_well_formed(
    before: Session,
    after: Session,
    id: StableId,
    tag: int,
    text: Seq<char>,
    r: Result<(), PortError>,
    checked: bool,
)
    requires
        annotated(before, after, id, tag, text, r, checked),
        crate::schema::well_formed(before.model()),
    ensures
        crate::schema::well_formed(after.model()),
{
    if r is Ok {
        let fs = before.model().functions@;
        let facts = after.model().facts@;
        let kept = without_kind(before.model().facts@, id, tag);
        assert(facts == kept.push(facts.last()));
        assert(index_of(fs, id) >= 0);
        crate::model::lemma_index_of(fs, id);
        assert(fs[index_of(fs, id)].id == id);
        lemma_without_kind_from(before.model().facts@, id, tag);
        assert forall|t: int| 0 <= t < facts.len() implies crate::schema::has_id(
            after.model().functions@,
            (#[trigger] facts[t]).target,
        ) by {
            if t < kept.len() {
                assert(facts[t] == kept[t]);
                assert(before.model().facts@.contains(kept[t]));
                let q = choose|q: int| 0 <= q < before.model().facts@.len() && before.model().facts@[q] == kept[t];
                assert(crate::schema::has_id(fs, before.model().facts@[q].target));
            } else {
                assert(facts[t] == facts.last());
                assert(fs[index_of(fs, id)].id == facts[t].target);
            }
        }
    }
}

} // verus!
