//! The artifact loader's policy: the caps an artifact is decoded under, the quarantine of soft
//! faults after decoding (duplicate ids, dangling callee / fact / edge-provenance references),
//! and the report that counts every quarantine. A structurally broken or cap-busting artifact is a
//! [`LoadError`]; soft faults are dropped and counted in the [`LoadReport`], never a panic.

use vstd::prelude::*;
use vstd::string::*;
use vstd::utf8::*;

use crate::model::{
    copy_histogram, copy_strings, copy_vec, EdgeProvenance, FactKind, Function, Program,
    StableId, UserFact,
};

verus! {

/// Absolute traversal ceiling: words the reader will traverse before refusing (~512 MiB).
pub const MAX_TRAVERSAL_WORDS: usize = 67_108_864;

/// Max pointer-nesting depth.
pub const MAX_NESTING: i32 = 64;

/// A name or comment longer than this is hostile, not data — truncated on load.
pub const MAX_STRING_LEN: usize = 65_536;

/// Decode budget: the native model may occupy at most this many times the artifact's byte length.
pub const MAX_DECODE_AMPLIFICATION: usize = 8;

/// What the loader had to quarantine to keep a hostile or buggy artifact total.
#[derive(Debug, Default, Clone, PartialEq, Eq, Structural)]
pub struct LoadReport {
    pub dropped_dangling_callees: usize,
    pub dropped_dangling_facts: usize,
    pub dropped_dangling_edge_provenance: usize,
    pub dropped_duplicate_functions: usize,
    pub truncated_strings: usize,
}

impl LoadReport {
    /// Nothing had to be quarantined.
    pub fn clean(&self) -> (r: bool)
        ensures
            r == (self.dropped_dangling_callees == 0 && self.dropped_dangling_facts == 0
                && self.dropped_dangling_edge_provenance == 0
                && self.dropped_duplicate_functions == 0 && self.truncated_strings == 0),
    {
        self.dropped_dangling_callees == 0 && self.dropped_dangling_facts == 0
            && self.dropped_dangling_edge_provenance == 0 && self.dropped_duplicate_functions == 0
            && self.truncated_strings == 0
    }
}

/// Hard load failure — the artifact is structurally unusable.
#[derive(Debug, Clone, PartialEq, Eq)]
pub enum LoadError {
    Decode(String),
}

impl LoadError {
    /// The message this error displays.
    pub fn message(&self) -> (s: String)
        ensures
            match self {
                LoadError::Decode(e) => s@ == "artifact decode failed: "@ + e@,
            },
    {
        match self {
            LoadError::Decode(e) => {
                let mut s = String::from_str("artifact decode failed: ");
                s.append(e.as_str());
                s
            },
        }
    }
}

/// A fact kind as its persisted parts: the discriminant and the text.
pub fn fact_discriminant(k: &FactKind) -> (r: (u16, &str))
    ensures
        r.0 as int == k.tag(),
        r.1@ == k.text(),
{
    match k {
        FactKind::Rename(s) => (0, s.as_str()),
        FactKind::Retype(s) => (1, s.as_str()),
        FactKind::Comment(s) => (2, s.as_str()),
    }
}

/// A fact kind from its persisted parts; an unknown discriminant reads as a comment.
pub fn fact_from_parts(kind: u16, value: String) -> (r: FactKind)
    ensures
        r.tag() == (if kind == 0 {
            0int
        } else if kind == 1 {
            1int
        } else {
            2int
        }),
        r.text() == value@,
{
    match kind {
        0 => FactKind::Rename(value),
        1 => FactKind::Retype(value),
        _ => FactKind::Comment(value),
    }
}

/// The largest char boundary of `b` that is at most `max`.
pub open spec fn boundary_at_most(b: Seq<u8>, max: int) -> int
    decreases max,
{
    if max <= 0 {
        0
    } else if is_char_boundary(b, max) {
        max
    } else {
        boundary_at_most(b, max - 1)
    }
}

/// The longest prefix of `s` of at most `max` bytes that ends on a char boundary (never
/// panics, unlike slicing at a fixed byte).
pub fn truncate_str(s: &str, max: usize) -> (r: &str)
    ensures
        s.spec_bytes().len() <= max ==> r@ == s@,
        s.spec_bytes().len() > max ==> r.spec_bytes() == s.spec_bytes().subrange(
            0,
            boundary_at_most(s.spec_bytes(), max as int),
        ),
{
    let bytes = s.as_bytes();
    if bytes.len() <= max {
        return s;
    }
    proof {
        encode_utf8_valid_utf8(s@);
    }
    let mut end = max;
    while end > 0 && !s.is_char_boundary(end)
        invariant
            end <= max,
            valid_utf8(s.spec_bytes()),
            boundary_at_most(s.spec_bytes(), max as int) == boundary_at_most(
                s.spec_bytes(),
                end as int,
            ),
        decreases end,
    {
        end -= 1;
    }
    let (head, _) = s.split_at(end);
    head
}

// ---------------------------------------------------------------------------------------------
// Quarantine
// ---------------------------------------------------------------------------------------------

/// Whether some function of `fs` has id `id`.
pub open spec fn has_id(fs: Seq<Function>, id: StableId) -> bool {
    exists|j: int| 0 <= j < fs.len() && fs[j].id == id
}

/// `fs` with every later duplicate of an id dropped (the first occurrence stays).
pub open spec fn first_of_each(fs: Seq<Function>) -> Seq<Function>
    decreases fs.len(),
{
    if fs.len() == 0 {
        Seq::empty()
    } else {
        let r = first_of_each(fs.drop_last());
        if has_id(fs.drop_last(), fs.last().id) {
            r
        } else {
            r.push(fs.last())
        }
    }
}

/// The ids of `ids` that name a function of `fs`, in order.
pub open spec fn known_ids(ids: Seq<StableId>, fs: Seq<Function>) -> Seq<StableId>
    decreases ids.len(),
{
    if ids.len() == 0 {
        Seq::empty()
    } else {
        let r = known_ids(ids.drop_last(), fs);
        if has_id(fs, ids.last()) {
            r.push(ids.last())
        } else {
            r
        }
    }
}

/// The edge provenance entries whose target is one of `callees`, in order.
pub open spec fn edges_on(edges: Seq<EdgeProvenance>, callees: Seq<StableId>) -> Seq<EdgeProvenance>
    decreases edges.len(),
{
    if edges.len() == 0 {
        Seq::empty()
    } else {
        let r = edges_on(edges.drop_last(), callees);
        if callees.contains(edges.last().target) {
            r.push(edges.last())
        } else {
            r
        }
    }
}

/// The facts whose target is a function of `fs`, in order.
pub open spec fn facts_on(facts: Seq<UserFact>, fs: Seq<Function>) -> Seq<UserFact>
    decreases facts.len(),
{
    if facts.len() == 0 {
        Seq::empty()
    } else {
        let r = facts_on(facts.drop_last(), fs);
        if has_id(fs, facts.last().target) {
            r.push(facts.last())
        } else {
            r
        }
    }
}

/// `g` is `f` with its dangling callees and edge provenance dropped, against the functions `fs`.
pub open spec fn is_cleaned(g: Function, f: Function, fs: Seq<Function>) -> bool {
    let callees = known_ids(f.callees@, fs);
    &&& g.id == f.id
    &&& g.addr == f.addr
    &&& g.name == f.name
    &&& g.size == f.size
    &&& g.bb_count == f.bb_count
    &&& g.callees@ == callees
    &&& g.fingerprint == f.fingerprint
    &&& g.mnemonics@ == f.mnemonics@
    &&& g.trigrams@ == f.trigrams@
    &&& g.string_refs@ == f.string_refs@
    &&& g.imports@ == f.imports@
    &&& g.callee_names@ == f.callee_names@
    &&& g.bsim_vector@ == f.bsim_vector@
    &&& g.edge_provenance@ == edges_on(f.edge_provenance@, callees)
}

/// The total number of callees and edge-provenance entries over `fs`.
pub open spec fn total_refs(fs: Seq<Function>) -> nat
    decreases fs.len(),
{
    if fs.len() == 0 {
        0
    } else {
        total_refs(fs.drop_last()) + fs.last().callees@.len() + fs.last().edge_provenance@.len()
    }
}

/// The total number of callees over `fs`.
pub open spec fn callee_refs(fs: Seq<Function>) -> nat
    decreases fs.len(),
{
    if fs.len() == 0 {
        0
    } else {
        callee_refs(fs.drop_last()) + fs.last().callees@.len()
    }
}

/// The total number of edge-provenance entries over `fs`.
pub open spec fn edge_refs(fs: Seq<Function>) -> nat
    decreases fs.len(),
{
    if fs.len() == 0 {
        0
    } else {
        edge_refs(fs.drop_last()) + fs.last().edge_provenance@.len()
    }
}

/// The quarantine can count every drop without overflowing the report.
pub open spec fn report_has_room(p: Program, r: LoadReport) -> bool {
    &&& r.dropped_duplicate_functions + p.functions@.len() <= usize::MAX
    &&& r.dropped_dangling_callees + total_refs(p.functions@) <= usize::MAX
    &&& r.dropped_dangling_edge_provenance + total_refs(p.functions@) <= usize::MAX
    &&& r.dropped_dangling_facts + p.facts@.len() <= usize::MAX
}

proof fn lemma_known_ids_len(ids: Seq<StableId>, fs: Seq<Function>)
    ensures
        known_ids(ids, fs).len() <= ids.len(),
    decreases ids.len(),
{
    if ids.len() > 0 {
        lemma_known_ids_len(ids.drop_last(), fs);
    }
}

proof fn lemma_edges_on_len(edges: Seq<EdgeProvenance>, callees: Seq<StableId>)
    ensures
        edges_on(edges, callees).len() <= edges.len(),
    decreases edges.len(),
{
    if edges.len() > 0 {
        lemma_edges_on_len(edges.drop_last(), callees);
    }
}

proof fn lemma_first_of_each(fs: Seq<Function>)
    ensures
        first_of_each(fs).len() <= fs.len(),
        forall|id: StableId| has_id(first_of_each(fs), id) == has_id(fs, id),
        total_refs(first_of_each(fs)) <= total_refs(fs),
    decreases fs.len(),
{
    if fs.len() > 0 {
        let d = fs.drop_last();
        lemma_first_of_each(d);
        let r0 = first_of_each(d);
        if has_id(d, fs.last().id) {
            assert(first_of_each(fs) == r0);
        } else {
            assert(first_of_each(fs) == r0.push(fs.last()));
            assert(r0.push(fs.last()).drop_last() =~= r0);
        }
        assert forall|id: StableId| has_id(first_of_each(fs), id) == has_id(fs, id) by {
            let r = first_of_each(d);
            if has_id(fs, id) {
                let j = choose|j: int| 0 <= j < fs.len() && fs[j].id == id;
                if j < d.len() {
                    assert(d[j].id == id);
                    assert(has_id(d, id));
                    assert(has_id(r, id));
                    let k = choose|k: int| 0 <= k < r.len() && r[k].id == id;
                    assert(first_of_each(fs)[k].id == id);
                } else if !has_id(d, fs.last().id) {
                    assert(first_of_each(fs)[r.len() as int].id == id);
                } else {
                    assert(has_id(d, id));
                    assert(has_id(r, id));
                    let k = choose|k: int| 0 <= k < r.len() && r[k].id == id;
                    assert(first_of_each(fs)[k].id == id);
                }
            }
            if has_id(first_of_each(fs), id) {
                let k = choose|k: int| 0 <= k < first_of_each(fs).len() && first_of_each(fs)[k].id == id;
                if k < r.len() {
                    assert(r[k].id == id);
                    assert(has_id(r, id));
                    assert(has_id(d, id));
                    let j = choose|j: int| 0 <= j < d.len() && d[j].id == id;
                    assert(fs[j].id == id);
                } else {
                    assert(fs[fs.len() - 1].id == id);
                }
            }
        }
    }
}

/// Whether some function of `fs` has id `id`.
fn has_id_exec(fs: &Vec<Function>, id: StableId) -> (r: bool)
    ensures
        r == has_id(fs@, id),
{
    let mut i: usize = 0;
    while i < fs.len()
        invariant
            i <= fs@.len(),
            forall|j: int| 0 <= j < i ==> fs@[j].id != id,
        decreases fs@.len() - i,
    {
        if fs[i].id == id {
            return true;
        }
        i += 1;
    }
    false
}

/// `f` with its dangling callees and edge provenance dropped, against the functions `fs`.
fn clean_function(f: &Function, fs: &Vec<Function>) -> (g: Function)
    ensures
        is_cleaned(g, *f, fs@),
{
    let mut callees: Vec<StableId> = Vec::new();
    let mut i: usize = 0;
    while i < f.callees.len()
        invariant
            i <= f.callees@.len(),
            callees@ == known_ids(f.callees@.take(i as int), fs@),
        decreases f.callees@.len() - i,
    {
        assert(f.callees@.take(i + 1).drop_last() =~= f.callees@.take(i as int));
        if has_id_exec(fs, f.callees[i]) {
            callees.push(f.callees[i]);
        }
        i += 1;
    }
    assert(f.callees@.take(f.callees@.len() as int) =~= f.callees@);
    let mut edges: Vec<EdgeProvenance> = Vec::new();
    let mut j: usize = 0;
    while j < f.edge_provenance.len()
        invariant
            j <= f.edge_provenance@.len(),
            edges@ == edges_on(f.edge_provenance@.take(j as int), callees@),
        decreases f.edge_provenance@.len() - j,
    {
        assert(f.edge_provenance@.take(j + 1).drop_last() =~= f.edge_provenance@.take(j as int));
        let e = &f.edge_provenance[j];
        if crate::port::contains_id(&callees, e.target) {
            edges.push(
                EdgeProvenance {
                    target: e.target,
                    provenance: crate::model::copy_provenance(&e.provenance),
                },
            );
        }
        j += 1;
    }
    assert(f.edge_provenance@.take(f.edge_provenance@.len() as int) =~= f.edge_provenance@);
    Function {
        id: f.id,
        addr: f.addr,
        name: f.name.clone(),
        size: f.size,
        bb_count: f.bb_count,
        callees,
        fingerprint: f.fingerprint,
        mnemonics: copy_histogram(&f.mnemonics),
        trigrams: copy_histogram(&f.trigrams),
        string_refs: copy_strings(&f.string_refs),
        imports: copy_strings(&f.imports),
        callee_names: copy_strings(&f.callee_names),
        bsim_vector: copy_vec(&f.bsim_vector),
        edge_provenance: edges,
    }
}

/// Quarantine the soft faults of a decoded model: later duplicates of a stable id are dropped
/// (identity must be unique), then callees and edge provenance that name no surviving function,
/// then facts on no surviving function — every drop counted in the report. The model's name,
/// language and every surviving value are kept as decoded, and the result is well formed.
pub fn quarantine(prog: Program, report: LoadReport) -> (r: (Program, LoadReport))
    requires
        report_has_room(prog, report),
    ensures
        ({
            let (p, rep) = r;
            let kept = first_of_each(prog.functions@);
            &&& p.name == prog.name
            &&& p.language == prog.language
            &&& p.functions@.len() == kept.len()
            &&& forall|i: int|
                0 <= i < kept.len() ==> is_cleaned(#[trigger] p.functions@[i], kept[i], prog.functions@)
            &&& p.facts@ == facts_on(prog.facts@, prog.functions@)
            &&& rep.dropped_duplicate_functions == report.dropped_duplicate_functions
                + prog.functions@.len() - kept.len()
            &&& rep.dropped_dangling_facts == report.dropped_dangling_facts + prog.facts@.len()
                - p.facts@.len()
            &&& rep.truncated_strings == report.truncated_strings
            &&& rep.dropped_dangling_callees == report.dropped_dangling_callees + callee_refs(kept)
                - callee_refs(p.functions@)
            &&& rep.dropped_dangling_edge_provenance == report.dropped_dangling_edge_provenance
                + edge_refs(kept) - edge_refs(p.functions@)
            &&& well_formed(p)
        }),
{
    let ghost fs0 = prog.functions@;
    proof {
        lemma_first_of_each(fs0);
    }
    let total = prog.functions.len();
    let name = prog.name;
    let language = prog.language;
    let old_facts = prog.facts;
    // Take the functions out front to back (reverse once), keeping the first of each id.
    let mut src = prog.functions;
    let mut rev: Vec<Function> = Vec::new();
    while src.len() > 0
        invariant
            fs0 == src@ + rev@.reverse(),
        decreases src@.len(),
    {
        let ghost s0 = src@;
        let ghost r0 = rev@;
        match src.pop() {
            Some(x) => {
                rev.push(x);
                assert(rev@.reverse() =~= seq![x] + r0.reverse());
                assert(s0 =~= src@.push(x));
                assert(fs0 =~= src@ + rev@.reverse());
            },
            None => {},
        }
    }
    assert(src@ + rev@.reverse() =~= rev@.reverse());
    assert(fs0.skip(0) =~= fs0);
    let mut kept: Vec<Function> = Vec::new();
    let mut i: usize = 0;
    while rev.len() > 0
        invariant
            i <= fs0.len(),
            fs0.len() == total,
            fs0.skip(i as int) == rev@.reverse(),
            kept@ == first_of_each(fs0.take(i as int)),
        decreases rev@.len(),
    {
        let ghost r0 = rev@;
        match rev.pop() {
            Some(x) => {
                assert(r0 =~= rev@.push(x));
                assert(r0.reverse() =~= seq![x] + rev@.reverse());
                assert(fs0.skip(i as int)[0] == x);
                assert(fs0[i as int] == x);
                assert(fs0.take(i + 1).drop_last() =~= fs0.take(i as int));
                assert(fs0.take(i + 1).last() == x);
                proof {
                    lemma_first_of_each(fs0.take(i as int));
                }
                if !has_id_exec(&kept, x.id) {
                    kept.push(x);
                }
                assert(fs0.skip(i + 1) =~= fs0.skip(i as int).drop_first());
                i += 1;
            },
            None => {},
        }
    }
    assert(rev@.reverse().len() == 0);
    assert(fs0.take(i as int) =~= fs0);
    let n_dup = total - kept.len();
    // Clean each survivor against the surviving ids (the same set of ids as before).
    let mut functions: Vec<Function> = Vec::new();
    let mut dropped_callees: usize = report.dropped_dangling_callees;
    let mut dropped_edges: usize = report.dropped_dangling_edge_provenance;
    let mut k: usize = 0;
    while k < kept.len()
        invariant
            k <= kept@.len(),
            kept@ == first_of_each(prog.functions@),
            fs0 == prog.functions@,
            forall|id: StableId| has_id(kept@, id) == has_id(prog.functions@, id),
            total_refs(kept@) <= total_refs(prog.functions@),
            report_has_room(prog, report),
            functions@.len() == k,
            forall|t: int|
                0 <= t < k ==> is_cleaned(#[trigger] functions@[t], kept@[t], prog.functions@),
            report.dropped_dangling_callees <= dropped_callees,
            dropped_callees <= report.dropped_dangling_callees + total_refs(kept@.take(k as int)),
            report.dropped_dangling_edge_provenance <= dropped_edges,
            dropped_edges <= report.dropped_dangling_edge_provenance + total_refs(
                kept@.take(k as int),
            ),
            dropped_callees == report.dropped_dangling_callees + callee_refs(kept@.take(k as int))
                - callee_refs(functions@),
            dropped_edges == report.dropped_dangling_edge_provenance + edge_refs(kept@.take(k as int))
                - edge_refs(functions@),
        decreases kept@.len() - k,
    {
        let f = &kept[k];
        let g = clean_function(f, &kept);
        proof {
            assert(kept@.take(k + 1).drop_last() =~= kept@.take(k as int));
            lemma_total_refs_prefix(kept@, k + 1);
            lemma_known_ids_len(f.callees@, kept@);
            lemma_edges_on_len(f.edge_provenance@, g.callees@);
            lemma_known_ids_same(f.callees@, kept@, prog.functions@);
        }
        dropped_callees = dropped_callees + (f.callees.len() - g.callees.len());
        dropped_edges = dropped_edges + (f.edge_provenance.len() - g.edge_provenance.len());
        let ghost before = functions@;
        functions.push(g);
        assert(functions@.drop_last() =~= before);
        k += 1;
    }
    assert(kept@.take(kept@.len() as int) =~= kept@);
    // Drop facts on no surviving function.
    let mut facts: Vec<UserFact> = Vec::new();
    let mut j: usize = 0;
    while j < old_facts.len()
        invariant
            j <= old_facts@.len(),
            old_facts@ == prog.facts@,
            forall|id: StableId| has_id(kept@, id) == has_id(prog.functions@, id),
            facts@ == facts_on(old_facts@.take(j as int), prog.functions@),
        decreases old_facts@.len() - j,
    {
        assert(old_facts@.take(j + 1).drop_last() =~= old_facts@.take(j as int));
        if has_id_exec(&kept, old_facts[j].target) {
            facts.push(old_facts[j].duplicate());
        }
        j += 1;
    }
    assert(old_facts@.take(old_facts@.len() as int) =~= old_facts@);
    proof {
        lemma_facts_on_len(prog.facts@, prog.functions@);
    }
    let n_facts = old_facts.len() - facts.len();
    let rep = LoadReport {
        dropped_dangling_callees: dropped_callees,
        dropped_dangling_facts: report.dropped_dangling_facts + n_facts,
        dropped_dangling_edge_provenance: dropped_edges,
        dropped_duplicate_functions: report.dropped_duplicate_functions + n_dup,
        truncated_strings: report.truncated_strings,
    };
    let out = Program { name, language, functions, facts };
    proof {
        law_quarantine_is_well_formed(prog, out);
    }
    (out, rep)
}

proof fn lemma_total_refs_prefix(fs: Seq<Function>, k: int)
    requires
        0 < k <= fs.len(),
    ensures
        total_refs(fs.take(k)) == total_refs(fs.take(k - 1)) + fs[k - 1].callees@.len()
            + fs[k - 1].edge_provenance@.len(),
        total_refs(fs.take(k)) <= total_refs(fs),
    decreases fs.len() - k,
{
    assert(fs.take(k).drop_last() =~= fs.take(k - 1));
    if k < fs.len() {
        lemma_total_refs_prefix(fs, k + 1);
    } else {
        assert(fs.take(k) =~= fs);
    }
}

proof fn lemma_known_ids_same(ids: Seq<StableId>, a: Seq<Function>, b: Seq<Function>)
    requires
        forall|id: StableId| has_id(a, id) == has_id(b, id),
    ensures
        known_ids(ids, a) == known_ids(ids, b),
    decreases ids.len(),
{
    if ids.len() > 0 {
        lemma_known_ids_same(ids.drop_last(), a, b);
    }
}

proof fn lemma_facts_on_len(facts: Seq<UserFact>, fs: Seq<Function>)
    ensures
        facts_on(facts, fs).len() <= facts.len(),
    decreases facts.len(),
{
    if facts.len() > 0 {
        lemma_facts_on_len(facts.drop_last(), fs);
    }
}

/// An equal copy of a function (every field equal in value).
pub fn clone_function(f: &Function) -> (g: Function)
    ensures
        g.id == f.id,
        g.addr == f.addr,
        g.name == f.name,
        g.size == f.size,
        g.bb_count == f.bb_count,
        g.callees@ == f.callees@,
        g.fingerprint == f.fingerprint,
        g.mnemonics@ == f.mnemonics@,
        g.trigrams@ == f.trigrams@,
        g.string_refs@ == f.string_refs@,
        g.imports@ == f.imports@,
        g.callee_names@ == f.callee_names@,
        g.bsim_vector@ == f.bsim_vector@,
        g.edge_provenance@ == f.edge_provenance@,
{
    let mut edges: Vec<EdgeProvenance> = Vec::new();
    let mut j: usize = 0;
    while j < f.edge_provenance.len()
        invariant
            j <= f.edge_provenance@.len(),
            edges@ == f.edge_provenance@.take(j as int),
        decreases f.edge_provenance@.len() - j,
    {
        let e = &f.edge_provenance[j];
        edges.push(
            EdgeProvenance {
                target: e.target,
                provenance: crate::model::copy_provenance(&e.provenance),
            },
        );
        assert(edges@ =~= f.edge_provenance@.take(j + 1));
        j += 1;
    }
    assert(edges@ =~= f.edge_provenance@);
    Function {
        id: f.id,
        addr: f.addr,
        name: f.name.clone(),
        size: f.size,
        bb_count: f.bb_count,
        callees: copy_vec(&f.callees),
        fingerprint: f.fingerprint,
        mnemonics: copy_histogram(&f.mnemonics),
        trigrams: copy_histogram(&f.trigrams),
        string_refs: copy_strings(&f.string_refs),
        imports: copy_strings(&f.imports),
        callee_names: copy_strings(&f.callee_names),
        bsim_vector: copy_vec(&f.bsim_vector),
        edge_provenance: edges,
    }
}

} // verus!

verus! {

/// A model's identity and references are sound: no two functions share a stable id, every
/// callee names a function of the model, and every user fact targets one.
pub open spec fn well_formed(p: Program) -> bool {
    &&& forall|i: int, j: int|
        0 <= i < j < p.functions@.len() ==> (#[trigger] p.functions@[i]).id != (#[trigger] p.functions@[j]).id
    &&& forall|i: int, k: int|
        0 <= i < p.functions@.len() && 0 <= k < p.functions@[i].callees@.len() ==> has_id(
            p.functions@,
            #[trigger] p.functions@[i].callees@[k],
        )
    &&& forall|t: int| 0 <= t < p.facts@.len() ==> has_id(p.functions@, (#[trigger] p.facts@[t]).target)
}

proof fn lemma_first_of_each_unique(fs: Seq<Function>)
    ensures
        forall|i: int, j: int|
            0 <= i < j < first_of_each(fs).len() ==> (#[trigger] first_of_each(fs)[i]).id != (
            #[trigger] first_of_each(fs)[j]).id,
    decreases fs.len(),
{
    if fs.len() > 0 {
        let d = fs.drop_last();
        lemma_first_of_each_unique(d);
        lemma_first_of_each(d);
        let r = first_of_each(d);
        if !has_id(d, fs.last().id) {
            let q = r.push(fs.last());
            assert forall|i: int, j: int| 0 <= i < j < q.len() implies (#[trigger] q[i]).id != (#[trigger] q[j]).id by {
                if j == r.len() {
                    assert(q[i] == r[i]);
                    if r[i].id == fs.last().id {
                        assert(has_id(r, fs.last().id));
                    }
                } else {
                    assert(q[i] == r[i] && q[j] == r[j]);
                }
            }
        }
    }
}

proof fn lemma_known_ids_known(ids: Seq<StableId>, fs: Seq<Function>)
    ensures
        forall|k: int| 0 <= k < known_ids(ids, fs).len() ==> has_id(fs, #[trigger] known_ids(ids, fs)[k]),
    decreases ids.len(),
{
    if ids.len() > 0 {
        let r = known_ids(ids.drop_last(), fs);
        lemma_known_ids_known(ids.drop_last(), fs);
        assert forall|k: int| 0 <= k < known_ids(ids, fs).len() implies has_id(fs, #[trigger] known_ids(ids, fs)[k]) by {
            if k < r.len() {
                assert(known_ids(ids, fs)[k] == r[k]);
            }
        }
    }
}

proof fn lemma_facts_on_known(facts: Seq<UserFact>, fs: Seq<Function>)
    ensures
        forall|t: int| 0 <= t < facts_on(facts, fs).len() ==> has_id(fs, (#[trigger] facts_on(facts, fs)[t]).target),
    decreases facts.len(),
{
    if facts.len() > 0 {
        lemma_facts_on_known(facts.drop_last(), fs);
    }
}

/// Whatever was decoded, the quarantined model is well formed: ids are unique, and no callee
/// or fact names a function the model lacks.
pub proof fn law_quarantine_is_well_formed(prog: Program, p: Program)
    requires
        p.functions@.len() == first_of_each(prog.functions@).len(),
        forall|i: int|
            0 <= i < p.functions@.len() ==> is_cleaned(
                #[trigger] p.functions@[i],
                first_of_each(prog.functions@)[i],
                prog.functions@,
            ),
        p.facts@ == facts_on(prog.facts@, prog.functions@),
    ensures
        well_formed(p),
{
    let fs = prog.functions@;
    let kept = first_of_each(fs);
    lemma_first_of_each(fs);
    lemma_first_of_each_unique(fs);
    assert forall|id: StableId| has_id(p.functions@, id) == has_id(kept, id) by {
        if has_id(p.functions@, id) {
            let k = choose|k: int| 0 <= k < p.functions@.len() && p.functions@[k].id == id;
            assert(is_cleaned(p.functions@[k], kept[k], fs));
        }
        if has_id(kept, id) {
            let k = choose|k: int| 0 <= k < kept.len() && kept[k].id == id;
            assert(is_cleaned(p.functions@[k], kept[k], fs));
        }
    }
    assert forall|i: int, j: int|
        0 <= i < j < p.functions@.len() implies (#[trigger] p.functions@[i]).id != (#[trigger] p.functions@[j]).id by {
        assert(is_cleaned(p.functions@[i], kept[i], fs));
        assert(is_cleaned(p.functions@[j], kept[j], fs));
    }
    assert forall|i: int, k: int|
        0 <= i < p.functions@.len() && 0 <= k < p.functions@[i].callees@.len() implies has_id(
            p.functions@,
            #[trigger] p.functions@[i].callees@[k],
        ) by {
        assert(is_cleaned(p.functions@[i], kept[i], fs));
        lemma_known_ids_known(kept[i].callees@, fs);
        assert(has_id(fs, p.functions@[i].callees@[k]));
    }
    lemma_facts_on_known(prog.facts@, fs);
}

} // verus!

verus! {

// ---------------------------------------------------------------------------------------------
// The decode budget and the string bound
// ---------------------------------------------------------------------------------------------

/// The native bytes an artifact of `len` bytes may decode to: `MAX_DECODE_AMPLIFICATION` times
/// its size, saturating at the largest `usize`.
pub open spec fn budget_for(len: nat) -> nat {
    if len * MAX_DECODE_AMPLIFICATION <= usize::MAX {
        (len * MAX_DECODE_AMPLIFICATION) as nat
    } else {
        usize::MAX as nat
    }
}

/// The decode budget of an artifact of `artifact_len` bytes.
pub fn decode_budget(artifact_len: usize) -> (r: usize)
    ensures
        r == budget_for(artifact_len as nat),
{
    if artifact_len <= usize::MAX / MAX_DECODE_AMPLIFICATION {
        artifact_len * MAX_DECODE_AMPLIFICATION
    } else {
        usize::MAX
    }
}

/// The refusal when materializing `field` would exceed the budget. It names only the policy,
/// never a number drawn from the input.
pub open spec fn over_budget_text(field: Seq<char>) -> Seq<char> {
    "artifact "@ + field + " would decode to more than 8x the artifact size (DD-036 decode budget)"@
}

/// Charge `n` native bytes of `field` against what is left of the budget: what remains, or the
/// refusal once the artifact would decode to more than its budget.
pub fn charge(budget: usize, field: &str, n: usize) -> (r: Result<usize, String>)
    ensures
        n <= budget ==> r == Ok::<usize, String>((budget - n) as usize),
        n > budget ==> (r matches Err(m) && m@ == over_budget_text(field@)),
{
    if n <= budget {
        Ok(budget - n)
    } else {
        let mut m = String::from_str("artifact ");
        m.append(field);
        m.append(" would decode to more than 8x the artifact size (DD-036 decode budget)");
        Err(m)
    }
}

/// A text field, bounded: an over-long string (more than `MAX_STRING_LEN` bytes) is cut on a
/// char boundary, and whether it was cut is returned for the load report.
pub fn bounded_text(s: &str) -> (r: (String, bool))
    ensures
        r.1 == (s.spec_bytes().len() > MAX_STRING_LEN),
        !r.1 ==> r.0@ == s@,
        r.1 ==> encode_utf8(r.0@) == s.spec_bytes().subrange(
            0,
            boundary_at_most(s.spec_bytes(), MAX_STRING_LEN as int),
        ),
        encode_utf8(r.0@).len() <= MAX_STRING_LEN,
{
    let over = s.as_bytes().len() > MAX_STRING_LEN;
    let t = truncate_str(s, MAX_STRING_LEN);
    let out = t.to_owned();
    proof {
        lemma_boundary_at_most(s.spec_bytes(), MAX_STRING_LEN as int);
        encode_utf8_decode_utf8(s@);
    }
    (out, over)
}

proof fn lemma_boundary_at_most(b: Seq<u8>, max: int)
    ensures
        0 <= boundary_at_most(b, max),
        max >= 0 ==> boundary_at_most(b, max) <= max,
    decreases max,
{
    if max > 0 {
        lemma_boundary_at_most(b, max - 1);
    }
}

} // verus!
