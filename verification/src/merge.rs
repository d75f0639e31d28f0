//! Identity-anchored re-anchoring of user facts across re-analysis, structural diffing, and
//! collaboration merges.
//!
//! A fact only carries across on a *unique* structural match; anything ambiguous or absent is
//! flagged, never silently mis-attached. This module holds the integer-valued rungs of the
//! matching ladder — the exact structural signature, call-graph propagation, the reciprocal
//! unique-best pairing rule shared by the scored rungs — and the collaboration merge.

use vstd::prelude::*;

use crate::model::{copy_principal, copy_provenance, FactKind, Function, Program, StableId, UserFact};

verus! {

/// Facts re-anchored vs. flagged by a merge.
#[derive(Debug, Default, PartialEq, Eq)]
pub struct MergeReport {
    /// Facts confidently re-anchored onto the new model.
    pub merged: usize,
    /// Facts that couldn't be re-anchored uniquely — surfaced for analyst review.
    pub flagged: usize,
}

/// How a matched/changed pair was recovered — the rung of the ladder that placed it.
#[derive(Clone, Copy, Debug, PartialEq, Eq, Structural)]
pub enum MatchMethod {
    /// Unique shared structural signature (body unchanged) — the most confident rung.
    Exact,
    /// Call-graph position: a unique neighbourhood of already-matched callers/callees.
    Propagation,
    /// Unique arch-independent features — referenced strings / imports / package-qualified callees.
    Anchor,
    /// BSim decompiler-signature feature-vector cosine.
    Bsim,
    /// Mnemonic-mix + ordered-trigram cosine and structural closeness — the soft last resort.
    Fuzzy,
}

/// The stable lowercase tag of a match method.
pub open spec fn method_tag(m: MatchMethod) -> Seq<char> {
    match m {
        MatchMethod::Exact => "exact"@,
        MatchMethod::Propagation => "propagation"@,
        MatchMethod::Anchor => "anchor"@,
        MatchMethod::Bsim => "bsim"@,
        MatchMethod::Fuzzy => "fuzzy"@,
    }
}

impl MatchMethod {
    /// A stable lowercase tag for serialization / display.
    pub fn as_str(self) -> (r: &'static str)
        ensures
            r@ == method_tag(self),
    {
        match self {
            MatchMethod::Exact => "exact",
            MatchMethod::Propagation => "propagation",
            MatchMethod::Anchor => "anchor",
            MatchMethod::Bsim => "bsim",
            MatchMethod::Fuzzy => "fuzzy",
        }
    }
}

/// The recovery of one matched/changed pair: the ladder rung plus a confidence percentage
/// (`0..=100`). Exact and propagation matches are structural certainties (100).
#[derive(Clone, Copy, Debug, PartialEq, Eq, Structural)]
pub struct MatchInfo {
    pub method: MatchMethod,
    pub confidence: u8,
}

impl MatchInfo {
    /// A structurally certain match (100%).
    pub fn certain(method: MatchMethod) -> (r: Self)
        ensures
            r.method == method,
            r.confidence == 100,
    {
        MatchInfo { method, confidence: 100 }
    }
}

/// A structural diff of two programs: which functions are matched across them and which live on
/// only one side.
#[derive(Debug, Default, PartialEq, Eq)]
pub struct ProgramDiff {
    /// `(a_id, b_id)` pairs whose bodies are unchanged (equal structural signature).
    pub matched: Vec<(StableId, StableId)>,
    /// `(a_id, b_id)` pairs re-identified as the same function with a changed body.
    pub changed: Vec<(StableId, StableId)>,
    /// Stable ids present only in `a` (removed).
    pub only_a: Vec<StableId>,
    /// Stable ids present only in `b` (added).
    pub only_b: Vec<StableId>,
    /// How each matched/changed pair was recovered, keyed by the `a`-side id.
    pub provenance: Vec<(StableId, MatchInfo)>,
}

/// A disagreement found while merging another analyst's work: both gave the same kind of fact to
/// the same entity, with different values. Surfaced, never auto-resolved.
#[derive(Debug, Clone, PartialEq, Eq)]
pub struct Conflict {
    pub target: StableId,
    pub ours: FactKind,
    pub theirs: FactKind,
}

/// What a collaboration merge did with each incoming fact.
#[derive(Debug, Default, PartialEq, Eq)]
pub struct CollabReport {
    /// Incoming facts cleanly added to `base`.
    pub merged: usize,
    /// Same entity + same fact kind, different value — surfaced as a [`Conflict`].
    pub conflicts: usize,
    /// Incoming facts that couldn't be re-anchored onto `base` (flagged, not lost).
    pub flagged: usize,
    /// Disagreements settled because one side's confidence beat the other's by more than
    /// [`CONFIDENCE_MARGIN`].
    pub resolved_by_confidence: usize,
}

/// The confidence gap a disagreement must exceed for the higher-confidence fact to win.
pub const CONFIDENCE_MARGIN: u8 = 5;

/// Structural signature: CFG size, byte size, out-degree and mnemonic fingerprint. Two functions
/// with the same signature are indistinguishable to the exact rung.
pub type Signature = (u32, u64, usize, u64);

pub open spec fn sig(f: Function) -> Signature {
    (f.bb_count, f.size, f.callees.len(), f.fingerprint)
}

/// The structural signature of a function.
pub fn signature(f: &Function) -> (r: Signature)
    ensures
        r == sig(*f),
{
    (f.bb_count, f.size, f.callees.len(), f.fingerprint)
}

// ---------------------------------------------------------------------------------------------
// Structural matching across materializations
// ---------------------------------------------------------------------------------------------

/// The function of `fs` with id `id` (the last such, should ids repeat).
pub open spec fn fn_by_id(fs: Seq<Function>, id: StableId) -> Option<Function>
    decreases fs.len(),
{
    if fs.len() == 0 {
        None
    } else if fs.last().id == id {
        Some(fs.last())
    } else {
        fn_by_id(fs.drop_last(), id)
    }
}

/// The ids of the functions of `fs` whose signature is `s`, in order.
pub open spec fn ids_with_sig(fs: Seq<Function>, s: Signature) -> Seq<StableId>
    decreases fs.len(),
{
    if fs.len() == 0 {
        Seq::empty()
    } else {
        let r = ids_with_sig(fs.drop_last(), s);
        if sig(fs.last()) == s {
            r.push(fs.last().id)
        } else {
            r
        }
    }
}

/// The one function of `fs` that shares `f`'s signature, if exactly one does.
pub open spec fn unique_sig_match(fs: Seq<Function>, f: Function) -> Option<StableId> {
    let ids = ids_with_sig(fs, sig(f));
    if ids.len() == 1 {
        Some(ids[0])
    } else {
        None
    }
}

/// `fs[i]` is the one function of `fs` whose signature is `s`.
pub open spec fn sole_with_sig(fs: Seq<Function>, s: Signature, i: int) -> bool {
    &&& 0 <= i < fs.len()
    &&& sig(fs[i]) == s
    &&& forall|j: int| 0 <= j < fs.len() && sig(#[trigger] fs[j]) == s ==> j == i
}

/// How many functions carry a signature decides what [`ids_with_sig`] lists: nothing when none
/// does, the one function's id when exactly one does, and two or more ids otherwise.
pub proof fn lemma_ids_with_sig(fs: Seq<Function>, s: Signature)
    ensures
        ids_with_sig(fs, s).len() == 0 <==> forall|j: int| 0 <= j < fs.len() ==> sig(#[trigger] fs[j]) != s,
        forall|i: int| sole_with_sig(fs, s, i) ==> ids_with_sig(fs, s).len() == 1 && ids_with_sig(fs, s)[0] == fs[i].id,
        ids_with_sig(fs, s).len() == 1 ==> exists|i: int| sole_with_sig(fs, s, i),
    decreases fs.len(),
{
    if fs.len() > 0 {
        let d = fs.drop_last();
        let n = fs.len() - 1;
        lemma_ids_with_sig(d, s);
        assert forall|j: int| 0 <= j < d.len() implies d[j] == fs[j] by {}
        if sig(fs[n]) == s {
            assert(ids_with_sig(fs, s).len() > 0);
            assert forall|i: int| sole_with_sig(fs, s, i) implies ids_with_sig(fs, s).len() == 1
                && ids_with_sig(fs, s)[0] == fs[i].id by {
                assert(i == n);
                assert forall|j: int| 0 <= j < d.len() implies sig(#[trigger] d[j]) != s by {
                    assert(d[j] == fs[j]);
                }
            }
            if ids_with_sig(fs, s).len() == 1 {
                assert(ids_with_sig(d, s).len() == 0);
                assert forall|j: int| 0 <= j < fs.len() && sig(#[trigger] fs[j]) == s implies j == n by {
                    if j < n {
                        assert(sig(d[j]) != s);
                    }
                }
                assert(sole_with_sig(fs, s, n));
            }
        } else {
            assert(ids_with_sig(fs, s) == ids_with_sig(d, s));
            assert forall|i: int| sole_with_sig(fs, s, i) implies ids_with_sig(fs, s).len() == 1
                && ids_with_sig(fs, s)[0] == fs[i].id by {
                assert(i < n);
                assert forall|j: int| 0 <= j < d.len() && sig(#[trigger] d[j]) == s implies j == i by {
                    assert(d[j] == fs[j]);
                }
                assert(sole_with_sig(d, s, i));
            }
            if ids_with_sig(fs, s).len() == 1 {
                let i = choose|i: int| sole_with_sig(d, s, i);
                assert forall|j: int| 0 <= j < fs.len() && sig(#[trigger] fs[j]) == s implies j == i by {
                    if j < n {
                        assert(d[j] == fs[j]);
                    }
                }
                assert(sole_with_sig(fs, s, i));
            }
            assert((ids_with_sig(fs, s).len() == 0) ==> forall|j: int| 0 <= j < fs.len() ==> sig(#[trigger] fs[j]) != s) by {
                if ids_with_sig(fs, s).len() == 0 {
                    assert forall|j: int| 0 <= j < fs.len() implies sig(#[trigger] fs[j]) != s by {
                        if j < n {
                            assert(d[j] == fs[j]);
                        }
                    }
                }
            }
            assert((forall|j: int| 0 <= j < fs.len() ==> sig(#[trigger] fs[j]) != s) ==> ids_with_sig(fs, s).len() == 0) by {
                if forall|j: int| 0 <= j < fs.len() ==> sig(#[trigger] fs[j]) != s {
                    assert forall|j: int| 0 <= j < d.len() implies sig(#[trigger] d[j]) != s by {
                        assert(d[j] == fs[j]);
                    }
                }
            }
        }
    }
}

/// The structural match is the sole function of the same signature: `sig_match` answers `id`
/// exactly when one function of `fs` carries `f`'s signature and its id is `id`, and answers
/// nothing when none or several do.
pub proof fn law_unique_sig_match_is_sole(fs: Seq<Function>, f: Function)
    ensures
        unique_sig_match(fs, f) is Some <==> exists|k: int| sole_with_sig(fs, sig(f), k),
        forall|k: int| sole_with_sig(fs, sig(f), k) ==> unique_sig_match(fs, f) == Some(fs[k].id),
{
    lemma_ids_with_sig(fs, sig(f));
}

/// Index of the last function of `fs` with id `id`, if any.
pub fn last_by_id(fs: &Vec<Function>, id: StableId) -> (r: Option<usize>)
    ensures
        match r {
            Some(i) => i < fs@.len() && fn_by_id(fs@, id) == Some(fs@[i as int]),
            None => fn_by_id(fs@, id) is None,
        },
{
    let mut i: usize = fs.len();
    assert(fs@.take(i as int) =~= fs@);
    while i > 0
        invariant
            i <= fs@.len(),
            fn_by_id(fs@, id) == fn_by_id(fs@.take(i as int), id),
        decreases i,
    {
        assert(fs@.take(i as int).drop_last() =~= fs@.take(i - 1));
        if fs[i - 1].id == id {
            return Some(i - 1);
        }
        i -= 1;
    }
    None
}

/// The one function of `fs` sharing `f`'s signature, if exactly one does.
pub fn sig_match(fs: &Vec<Function>, f: &Function) -> (r: Option<StableId>)
    ensures
        r == unique_sig_match(fs@, *f),
{
    let s = signature(f);
    let mut count: usize = 0;
    let mut first: StableId = StableId(0);
    let mut i: usize = 0;
    while i < fs.len()
        invariant
            i <= fs@.len(),
            s == sig(*f),
            count == ids_with_sig(fs@.take(i as int), s).len(),
            count > 0 ==> first == ids_with_sig(fs@.take(i as int), s)[0],
            count <= i,
        decreases fs@.len() - i,
    {
        assert(fs@.take(i + 1).drop_last() =~= fs@.take(i as int));
        let t = signature(&fs[i]);
        if t.0 == s.0 && t.1 == s.1 && t.2 == s.2 && t.3 == s.3 {
            if count == 0 {
                first = fs[i].id;
            }
            count += 1;
        }
        i += 1;
    }
    assert(fs@.take(fs@.len() as int) =~= fs@);
    if count == 1 {
        Some(first)
    } else {
        None
    }
}

// ---------------------------------------------------------------------------------------------
// Collaboration: merging another analyst's facts
// ---------------------------------------------------------------------------------------------

/// Index of the first fact on `id` of kind `tag`, or `-1`.
pub open spec fn fact_at(facts: Seq<UserFact>, id: StableId, tag: int) -> int
    decreases facts.len(),
{
    if facts.len() == 0 {
        -1
    } else if facts[0].target == id && facts[0].kind.tag() == tag {
        0
    } else {
        let r = fact_at(facts.drop_first(), id, tag);
        if r < 0 {
            -1
        } else {
            r + 1
        }
    }
}

pub proof fn lemma_fact_at(facts: Seq<UserFact>, id: StableId, tag: int)
    ensures
        -1 <= fact_at(facts, id, tag) < facts.len(),
        fact_at(facts, id, tag) >= 0 ==> facts[fact_at(facts, id, tag)].target == id
            && facts[fact_at(facts, id, tag)].kind.tag() == tag,
        fact_at(facts, id, tag) >= 0 ==> forall|j: int|
            0 <= j < fact_at(facts, id, tag) ==> !(facts[j].target == id && facts[j].kind.tag()
                == tag),
        fact_at(facts, id, tag) < 0 ==> forall|j: int|
            0 <= j < facts.len() ==> !(facts[j].target == id && facts[j].kind.tag() == tag),
    decreases facts.len(),
{
    if facts.len() > 0 {
        lemma_fact_at(facts.drop_first(), id, tag);
        assert forall|j: int| 1 <= j < facts.len() implies facts[j] == facts.drop_first()[j - 1] by {}
    }
}

proof fn lemma_fact_at_is(facts: Seq<UserFact>, id: StableId, tag: int, k: int)
    requires
        -1 <= k < facts.len(),
        k >= 0 ==> facts[k].target == id && facts[k].kind.tag() == tag,
        forall|j: int|
            0 <= j < facts.len() && (k < 0 || j < k) ==> !(facts[j].target == id
                && facts[j].kind.tag() == tag),
    ensures
        fact_at(facts, id, tag) == k,
{
    lemma_fact_at(facts, id, tag);
    let r = fact_at(facts, id, tag);
    if r >= 0 && k >= 0 && r != k {
        assert(!(facts[r].target == id && facts[r].kind.tag() == tag) || !(facts[k].target == id
            && facts[k].kind.tag() == tag));
    }
}

/// The first fact on `id` of kind `tag`, if any.
pub fn find_fact(facts: &Vec<UserFact>, id: StableId, tag: u8) -> (r: Option<usize>)
    ensures
        match r {
            Some(k) => fact_at(facts@, id, tag as int) == k as int,
            None => fact_at(facts@, id, tag as int) == -1,
        },
{
    let mut i: usize = 0;
    while i < facts.len()
        invariant
            i <= facts@.len(),
            forall|j: int|
                0 <= j < i ==> !(facts@[j].target == id && facts@[j].kind.tag() == tag as int),
        decreases facts@.len() - i,
    {
        if facts[i].target == id && facts[i].kind.kind_tag() == tag {
            proof {
                lemma_fact_at_is(facts@, id, tag as int, i as int);
            }
            return Some(i);
        }
        i += 1;
    }
    proof {
        lemma_fact_at_is(facts@, id, tag as int, -1);
    }
    None
}

/// What a collaboration merge does with one incoming fact.
pub enum Settle {
    /// It could not be re-anchored onto the base uniquely.
    Flagged,
    /// The base had no fact of its kind on its target: it is added (re-targeted).
    Added(UserFact),
    /// It disagrees with the base's fact and its confidence is clearly higher: it replaces it.
    Replaced(UserFact),
    /// It disagrees with the base's fact, whose confidence is clearly higher: the base's stands.
    KeptBase,
    /// It disagrees with the base's fact on a near-tie: surfaced, nothing changes.
    Conflicted(Conflict),
    /// The base already says the same thing.
    Agreed,
}

/// The settlement of one incoming fact against the base as it was before the merge.
pub open spec fn settle(base: Program, incoming: Program, fact: UserFact) -> Settle {
    match fn_by_id(incoming.functions@, fact.target) {
        None => Settle::Flagged,
        Some(f) => match unique_sig_match(base.functions@, f) {
            None => Settle::Flagged,
            Some(tid) => {
                let k = fact_at(base.facts@, tid, fact.kind.tag());
                if k < 0 {
                    Settle::Added(UserFact { target: tid, ..fact })
                } else {
                    let bf = base.facts@[k];
                    let b = bf.provenance.confidence;
                    let i = fact.provenance.confidence;
                    if bf.kind.same_as(fact.kind) {
                        Settle::Agreed
                    } else if i > b && i - b > CONFIDENCE_MARGIN {
                        Settle::Replaced(UserFact { target: tid, ..fact })
                    } else if b > i && b - i > CONFIDENCE_MARGIN {
                        Settle::KeptBase
                    } else {
                        Settle::Conflicted(Conflict { target: tid, ours: bf.kind, theirs: fact.kind })
                    }
                }
            },
        },
    }
}

/// The running totals of a collaboration merge.
pub struct Tally {
    pub merged: nat,
    pub conflicts: nat,
    pub flagged: nat,
    pub resolved: nat,
    pub adds: Seq<UserFact>,
    pub replaces: Seq<UserFact>,
    pub conflict_list: Seq<Conflict>,
}

/// The totals after settling `facts` in order.
pub open spec fn tally(base: Program, incoming: Program, facts: Seq<UserFact>) -> Tally
    decreases facts.len(),
{
    if facts.len() == 0 {
        Tally {
            merged: 0,
            conflicts: 0,
            flagged: 0,
            resolved: 0,
            adds: Seq::empty(),
            replaces: Seq::empty(),
            conflict_list: Seq::empty(),
        }
    } else {
        let t = tally(base, incoming, facts.drop_last());
        match settle(base, incoming, facts.last()) {
            Settle::Flagged => Tally { flagged: t.flagged + 1, ..t },
            Settle::Added(f) => Tally { merged: t.merged + 1, adds: t.adds.push(f), ..t },
            Settle::Replaced(f) => Tally {
                resolved: t.resolved + 1,
                replaces: t.replaces.push(f),
                ..t
            },
            Settle::KeptBase => Tally { resolved: t.resolved + 1, ..t },
            Settle::Conflicted(c) => Tally {
                conflicts: t.conflicts + 1,
                conflict_list: t.conflict_list.push(c),
                ..t
            },
            Settle::Agreed => t,
        }
    }
}

/// `facts` with the first fact on `r`'s target and kind replaced by `r`, if there is one.
pub open spec fn replace_first(facts: Seq<UserFact>, r: UserFact) -> Seq<UserFact> {
    let k = fact_at(facts, r.target, r.kind.tag());
    if k < 0 {
        facts
    } else {
        facts.update(k, r)
    }
}

/// `facts` with each of `rs` applied in order by [`replace_first`].
pub open spec fn apply_replacements(facts: Seq<UserFact>, rs: Seq<UserFact>) -> Seq<UserFact>
    decreases rs.len(),
{
    if rs.len() == 0 {
        facts
    } else {
        replace_first(apply_replacements(facts, rs.drop_last()), rs.last())
    }
}

proof fn lemma_tally_bounds(base: Program, incoming: Program, facts: Seq<UserFact>)
    ensures
        tally(base, incoming, facts).merged + tally(base, incoming, facts).conflicts + tally(
            base,
            incoming,
            facts,
        ).flagged + tally(base, incoming, facts).resolved <= facts.len(),
    decreases facts.len(),
{
    if facts.len() > 0 {
        lemma_tally_bounds(base, incoming, facts.drop_last());
    }
}

/// Merge another analyst's facts into `base`. `incoming` is a separate materialization of the
/// same binary: each incoming fact is re-anchored onto `base` by a unique structural-signature
/// match; clean ones are added, identical ones are no-ops, and a disagreement is settled by
/// provenance confidence when one side clearly wins — otherwise returned as a [`Conflict`].
/// `base` is never silently overwritten on a near-tie.
pub fn collaborate(base: &mut Program, incoming: &Program) -> (r: (CollabReport, Vec<Conflict>))
    ensures
        ({
            let t = tally(*old(base), *incoming, incoming.facts@);
            &&& r.0.merged == t.merged
            &&& r.0.conflicts == t.conflicts
            &&& r.0.flagged == t.flagged
            &&& r.0.resolved_by_confidence == t.resolved
            &&& r.1@ == t.conflict_list
            &&& final(base).facts@ == apply_replacements(old(base).facts@ + t.adds, t.replaces)
        }),
        final(base).name == old(base).name,
        final(base).language == old(base).language,
        final(base).functions == old(base).functions,
        final(base).facts@.len() == old(base).facts@.len() + r.0.merged,
        forall|i: int, j: int|
            old(base).facts@.len() <= i < final(base).facts@.len() && 0 <= j < old(base).facts@.len()
                ==> !((#[trigger] old(base).facts@[j]).target == (#[trigger] final(base).facts@[i]).target
                && old(base).facts@[j].kind.tag() == final(base).facts@[i].kind.tag()),
{
    let ghost base0 = *base;
    let mut merged: usize = 0;
    let mut conflicts_n: usize = 0;
    let mut flagged: usize = 0;
    let mut resolved: usize = 0;
    let mut conflicts: Vec<Conflict> = Vec::new();
    let mut to_add: Vec<UserFact> = Vec::new();
    let mut to_replace: Vec<UserFact> = Vec::new();
    let mut i: usize = 0;
    while i < incoming.facts.len()
        invariant
            i <= incoming.facts@.len(),
            *base == base0,
            ({
                let t = tally(base0, *incoming, incoming.facts@.take(i as int));
                &&& merged == t.merged
                &&& conflicts_n == t.conflicts
                &&& flagged == t.flagged
                &&& resolved == t.resolved
                &&& to_add@ == t.adds
                &&& to_replace@ == t.replaces
                &&& conflicts@ == t.conflict_list
            }),
        decreases incoming.facts@.len() - i,
    {
        let ghost before = incoming.facts@.take(i as int);
        assert(incoming.facts@.take(i + 1).drop_last() =~= before);
        proof {
            lemma_tally_bounds(base0, *incoming, before);
        }
        let fact = &incoming.facts[i];
        let tid = match last_by_id(&incoming.functions, fact.target) {
            None => None,
            Some(k) => sig_match(&base.functions, &incoming.functions[k]),
        };
        match tid {
            None => {
                flagged += 1;
            },
            Some(tid) => {
                let tag = fact.kind.kind_tag();
                proof {
                    lemma_fact_at(base.facts@, tid, tag as int);
                }
                match find_fact(&base.facts, tid, tag) {
                    None => {
                        to_add.push(fact.retarget(tid));
                        merged += 1;
                    },
                    Some(k) => {
                        let bf = &base.facts[k];
                        if !bf.kind.same(&fact.kind) {
                            let b = bf.provenance.confidence;
                            let c = fact.provenance.confidence;
                            if c > b && c - b > CONFIDENCE_MARGIN {
                                to_replace.push(fact.retarget(tid));
                                resolved += 1;
                            } else if b > c && b - c > CONFIDENCE_MARGIN {
                                resolved += 1;
                            } else {
                                conflicts.push(
                                    Conflict {
                                        target: tid,
                                        ours: bf.kind.duplicate(),
                                        theirs: fact.kind.duplicate(),
                                    },
                                );
                                conflicts_n += 1;
                            }
                        }
                    },
                }
            },
        }
        i += 1;
    }
    assert(incoming.facts@.take(incoming.facts@.len() as int) =~= incoming.facts@);
    let ghost extended = base.facts@ + to_add@;
    base.facts.append(&mut to_add);
    assert(base.facts@ == extended);
    let mut j: usize = 0;
    while j < to_replace.len()
        invariant
            j <= to_replace@.len(),
            base.name == base0.name,
            base.language == base0.language,
            base.functions == base0.functions,
            base.facts@ == apply_replacements(extended, to_replace@.take(j as int)),
        decreases to_replace@.len() - j,
    {
        assert(to_replace@.take(j + 1).drop_last() =~= to_replace@.take(j as int));
        let r = &to_replace[j];
        let tag = r.kind.kind_tag();
        proof {
            lemma_fact_at(base.facts@, r.target, tag as int);
        }
        match find_fact(&base.facts, r.target, tag) {
            Some(k) => {
                base.facts.set(k, r.duplicate());
            },
            None => {},
        }
        j += 1;
    }
    assert(to_replace@.take(to_replace@.len() as int) =~= to_replace@);
    proof {
        law_collaboration_accounts(base0, *incoming);
        law_merge_fills_only_empty_slots(base0, *incoming);
        let t = tally(base0, *incoming, incoming.facts@);
        assert forall|i: int, j: int|
            base0.facts@.len() <= i < base.facts@.len() && 0 <= j < base0.facts@.len() implies !(
            (#[trigger] base0.facts@[j]).target == (#[trigger] base.facts@[i]).target
                && base0.facts@[j].kind.tag() == base.facts@[i].kind.tag()) by {
            let q = i - base0.facts@.len();
            assert(base.facts@[base0.facts@.len() + q] == t.adds[q]);
        }
    }
    (
        CollabReport {
            merged,
            conflicts: conflicts_n,
            flagged,
            resolved_by_confidence: resolved,
        },
        conflicts,
    )
}

/// A replacement that the base's own facts justify: the base holds a fact of its target and
/// kind, and the replacement's confidence beats that fact's by more than the margin.
pub open spec fn justified(base_facts: Seq<UserFact>, r: UserFact) -> bool {
    let k = fact_at(base_facts, r.target, r.kind.tag());
    k >= 0 && r.provenance.confidence > base_facts[k].provenance.confidence + CONFIDENCE_MARGIN
}

proof fn lemma_replaces_justified(base: Program, incoming: Program, facts: Seq<UserFact>)
    ensures
        forall|i: int|
            0 <= i < tally(base, incoming, facts).replaces.len() ==> justified(
                base.facts@,
                #[trigger] tally(base, incoming, facts).replaces[i],
            ),
    decreases facts.len(),
{
    if facts.len() > 0 {
        lemma_replaces_justified(base, incoming, facts.drop_last());
        let t0 = tally(base, incoming, facts.drop_last());
        let t = tally(base, incoming, facts);
        assert forall|i: int| 0 <= i < t.replaces.len() implies justified(
            base.facts@,
            #[trigger] t.replaces[i],
        ) by {
            if i < t0.replaces.len() {
                assert(t.replaces[i] == t0.replaces[i]);
            }
        }
    }
}

proof fn lemma_fact_at_same_keys(x: Seq<UserFact>, y: Seq<UserFact>, id: StableId, tag: int)
    requires
        x.len() == y.len(),
        forall|j: int|
            0 <= j < x.len() ==> x[j].target == y[j].target && x[j].kind.tag() == y[j].kind.tag(),
    ensures
        fact_at(x, id, tag) == fact_at(y, id, tag),
{
    lemma_fact_at(x, id, tag);
    lemma_fact_at_is(y, id, tag, fact_at(x, id, tag));
}

proof fn lemma_fact_at_prefix(x: Seq<UserFact>, ext: Seq<UserFact>, id: StableId, tag: int)
    requires
        x.len() <= ext.len(),
        forall|j: int| 0 <= j < x.len() ==> ext[j] == x[j],
        fact_at(x, id, tag) >= 0,
    ensures
        fact_at(ext, id, tag) == fact_at(x, id, tag),
{
    lemma_fact_at(x, id, tag);
    lemma_fact_at_is(ext, id, tag, fact_at(x, id, tag));
}

proof fn lemma_apply_justified(base_facts: Seq<UserFact>, adds: Seq<UserFact>, rs: Seq<UserFact>)
    requires
        forall|i: int| 0 <= i < rs.len() ==> justified(base_facts, #[trigger] rs[i]),
    ensures
        ({
            let ext = base_facts + adds;
            let after = apply_replacements(ext, rs);
            &&& after.len() == ext.len()
            &&& forall|k: int|
                0 <= k < ext.len() ==> (#[trigger] after[k]).target == ext[k].target
                    && after[k].kind.tag() == ext[k].kind.tag()
            &&& forall|k: int|
                0 <= k < base_facts.len() ==> #[trigger] after[k] == base_facts[k] || after[k].provenance.confidence
                    > base_facts[k].provenance.confidence + CONFIDENCE_MARGIN
        }),
    decreases rs.len(),
{
    let ext = base_facts + adds;
    if rs.len() > 0 {
        let rs0 = rs.drop_last();
        assert forall|i: int| 0 <= i < rs0.len() implies justified(base_facts, #[trigger] rs0[i]) by {
            assert(rs0[i] == rs[i]);
        }
        lemma_apply_justified(base_facts, adds, rs0);
        let cur = apply_replacements(ext, rs0);
        let r = rs.last();
        assert(justified(base_facts, rs[rs.len() - 1]));
        let tag = r.kind.tag();
        let k0 = fact_at(base_facts, r.target, tag);
        lemma_fact_at(base_facts, r.target, tag);
        lemma_fact_at_prefix(base_facts, ext, r.target, tag);
        lemma_fact_at_same_keys(cur, ext, r.target, tag);
        assert(fact_at(cur, r.target, tag) == k0);
        let after = cur.update(k0, r);
        assert(apply_replacements(ext, rs) == after);
        assert forall|k: int| 0 <= k < base_facts.len() implies #[trigger] after[k] == base_facts[k]
            || after[k].provenance.confidence > base_facts[k].provenance.confidence
            + CONFIDENCE_MARGIN by {
            if k != k0 {
                assert(after[k] == cur[k]);
            }
        }
    }
}

/// Collaboration never drops a base fact or overwrites one on a near-tie: every fact the base
/// held keeps its place, and either stands unchanged or was replaced by a fact on the same
/// target and of the same kind whose confidence beat it by more than [`CONFIDENCE_MARGIN`].
pub proof fn law_base_facts_survive(base: Program, incoming: Program)
    ensures
        ({
            let t = tally(base, incoming, incoming.facts@);
            let after = apply_replacements(base.facts@ + t.adds, t.replaces);
            &&& after.len() >= base.facts@.len()
            &&& forall|k: int|
                0 <= k < base.facts@.len() ==> #[trigger] after[k] == base.facts@[k] || (after[k].target
                    == base.facts@[k].target && after[k].kind.tag() == base.facts@[k].kind.tag()
                    && after[k].provenance.confidence > base.facts@[k].provenance.confidence
                    + CONFIDENCE_MARGIN)
        }),
{
    let t = tally(base, incoming, incoming.facts@);
    lemma_replaces_justified(base, incoming, incoming.facts@);
    lemma_apply_justified(base.facts@, t.adds, t.replaces);
    let ext = base.facts@ + t.adds;
    assert forall|k: int| 0 <= k < base.facts@.len() implies ext[k] == base.facts@[k] by {}
}

/// A disagreement within the confidence margin is never settled automatically: it is a
/// conflict, and the base is left as it was.
pub proof fn law_near_tie_is_conflict(base: Program, incoming: Program, fact: UserFact)
    requires
        settle(base, incoming, fact) !is Flagged,
        settle(base, incoming, fact) !is Added,
        settle(base, incoming, fact) !is Agreed,
        ({
            let f = fn_by_id(incoming.functions@, fact.target).unwrap();
            let tid = unique_sig_match(base.functions@, f).unwrap();
            let bf = base.facts@[fact_at(base.facts@, tid, fact.kind.tag())];
            let b = bf.provenance.confidence as int;
            let i = fact.provenance.confidence as int;
            -(CONFIDENCE_MARGIN as int) <= i - b <= CONFIDENCE_MARGIN as int
        }),
    ensures
        settle(base, incoming, fact) is Conflicted,
{
}

} // verus!

verus! {

// ---------------------------------------------------------------------------------------------
// Re-anchoring: the exact rung, call-graph propagation, and re-targeting
// ---------------------------------------------------------------------------------------------

/// The distinct fact targets of `facts`, in order of first appearance.
pub open spec fn distinct_targets(facts: Seq<UserFact>) -> Seq<StableId>
    decreases facts.len(),
{
    if facts.len() == 0 {
        Seq::empty()
    } else {
        let r = distinct_targets(facts.drop_last());
        if r.contains(facts.last().target) {
            r
        } else {
            r.push(facts.last().target)
        }
    }
}

/// The target each re-anchored prev id maps to (the last pairing recorded for it).
pub open spec fn image(pairs: Seq<(StableId, StableId)>, k: StableId) -> Option<StableId>
    decreases pairs.len(),
{
    if pairs.len() == 0 {
        None
    } else if pairs.last().0 == k {
        Some(pairs.last().1)
    } else {
        image(pairs.drop_last(), k)
    }
}

/// A partial matching of prev functions onto next ones: the recorded pairs and the next ids
/// already claimed.
#[derive(Debug, Default)]
pub struct Matching {
    pub pairs: Vec<(StableId, StableId)>,
    pub claimed: Vec<StableId>,
}

impl Matching {
    /// An empty matching.
    pub fn new() -> (m: Self)
        ensures
            m.pairs@.len() == 0,
            m.claimed@.len() == 0,
    {
        Matching { pairs: Vec::new(), claimed: Vec::new() }
    }

    /// Record that prev `t` is next `id`, and claim `id`.
    pub fn insert(&mut self, t: StableId, id: StableId)
        ensures
            final(self).pairs@ == old(self).pairs@.push((t, id)),
            final(self).claimed@ == old(self).claimed@.push(id),
    {
        self.pairs.push((t, id));
        self.claimed.push(id);
    }

    /// The next id prev `t` was matched to, if any.
    pub fn get(&self, t: StableId) -> (r: Option<StableId>)
        ensures
            r == image(self.pairs@, t),
    {
        let mut i: usize = self.pairs.len();
        assert(self.pairs@.take(i as int) =~= self.pairs@);
        while i > 0
            invariant
                i <= self.pairs@.len(),
                image(self.pairs@, t) == image(self.pairs@.take(i as int), t),
            decreases i,
        {
            assert(self.pairs@.take(i as int).drop_last() =~= self.pairs@.take(i - 1));
            if self.pairs[i - 1].0 == t {
                return Some(self.pairs[i - 1].1);
            }
            i -= 1;
        }
        None
    }

    /// Whether next `id` is already claimed.
    pub fn is_claimed(&self, id: StableId) -> (r: bool)
        ensures
            r == self.claimed@.contains(id),
    {
        crate::port::contains_id(&self.claimed, id)
    }
}

/// The distinct fact targets, in order of first appearance.
pub fn fact_targets(facts: &Vec<UserFact>) -> (r: Vec<StableId>)
    ensures
        r@ == distinct_targets(facts@),
{
    let mut out: Vec<StableId> = Vec::new();
    let mut i: usize = 0;
    while i < facts.len()
        invariant
            i <= facts@.len(),
            out@ == distinct_targets(facts@.take(i as int)),
        decreases facts@.len() - i,
    {
        assert(facts@.take(i + 1).drop_last() =~= facts@.take(i as int));
        if !crate::port::contains_id(&out, facts[i].target) {
            out.push(facts[i].target);
        }
        i += 1;
    }
    assert(facts@.take(facts@.len() as int) =~= facts@);
    out
}

/// The exact rung's answer for prev target `t`: the one next function sharing its signature.
pub open spec fn exact_image(prev: Program, next: Program, t: StableId) -> Option<StableId> {
    match fn_by_id(prev.functions@, t) {
        None => None,
        Some(f) => unique_sig_match(next.functions@, f),
    }
}

/// The pairs the exact rung records over `ts`, in order.
pub open spec fn exact_pairs(prev: Program, next: Program, ts: Seq<StableId>) -> Seq<(StableId, StableId)>
    decreases ts.len(),
{
    if ts.len() == 0 {
        Seq::empty()
    } else {
        let r = exact_pairs(prev, next, ts.drop_last());
        match exact_image(prev, next, ts.last()) {
            Some(id) => r.push((ts.last(), id)),
            None => r,
        }
    }
}

/// The exact rung re-anchors only onto the sole carrier of a signature: prev target `t` has an
/// answer exactly when `t` names a prev function and exactly one next function shares its
/// signature, and the answer is that function's id; when none or two or more share it, `t` is
/// left for the later rungs.
pub proof fn law_exact_image_is_sole(prev: Program, next: Program, t: StableId)
    ensures
        exact_image(prev, next, t) is Some <==> (fn_by_id(prev.functions@, t) is Some && exists|k: int|
            sole_with_sig(next.functions@, sig(fn_by_id(prev.functions@, t).unwrap()), k)),
        forall|k: int|
            fn_by_id(prev.functions@, t) is Some && sole_with_sig(
                next.functions@,
                sig(fn_by_id(prev.functions@, t).unwrap()),
                k,
            ) ==> exact_image(prev, next, t) == Some(next.functions@[k].id),
{
    if fn_by_id(prev.functions@, t) is Some {
        law_unique_sig_match_is_sole(next.functions@, fn_by_id(prev.functions@, t).unwrap());
    }
}

/// Every pair the exact rung records re-anchors a prev target that names a prev function onto
/// the one next function sharing that function's signature; and every target of `ts` whose
/// function's signature exactly one next function carries is re-anchored onto it.
pub proof fn law_exact_pairs_are_sole(prev: Program, next: Program, ts: Seq<StableId>)
    ensures
        forall|t: StableId, k: int|
            #![trigger ts.contains(t), sole_with_sig(next.functions@, sig(fn_by_id(prev.functions@, t).unwrap()), k)]
            ts.contains(t) && fn_by_id(prev.functions@, t) is Some && sole_with_sig(
                next.functions@,
                sig(fn_by_id(prev.functions@, t).unwrap()),
                k,
            ) ==> exact_pairs(prev, next, ts).contains((t, next.functions@[k].id)),
        forall|q: int|
            0 <= q < exact_pairs(prev, next, ts).len() ==> ({
                let p = #[trigger] exact_pairs(prev, next, ts)[q];
                &&& ts.contains(p.0)
                &&& fn_by_id(prev.functions@, p.0) is Some
                &&& exists|k: int|
                    sole_with_sig(next.functions@, sig(fn_by_id(prev.functions@, p.0).unwrap()), k)
                        && next.functions@[k].id == p.1
            }),
    decreases ts.len(),
{
    if ts.len() > 0 {
        let d = ts.drop_last();
        let t = ts.last();
        law_exact_pairs_are_sole(prev, next, d);
        let r = exact_pairs(prev, next, d);
        let ps = exact_pairs(prev, next, ts);
        law_exact_image_is_sole(prev, next, t);
        assert forall|q: int| 0 <= q < ps.len() implies ({
            let p = #[trigger] ps[q];
            &&& ts.contains(p.0)
            &&& fn_by_id(prev.functions@, p.0) is Some
            &&& exists|k: int|
                sole_with_sig(next.functions@, sig(fn_by_id(prev.functions@, p.0).unwrap()), k)
                    && next.functions@[k].id == p.1
        }) by {
            if q < r.len() {
                assert(ps[q] == r[q]);
                let x = r[q].0;
                let i = choose|i: int| 0 <= i < d.len() && d[i] == x;
                assert(ts[i] == x);
            } else {
                assert(ts[ts.len() - 1] == t);
                let f = fn_by_id(prev.functions@, t).unwrap();
                let k = choose|k: int| sole_with_sig(next.functions@, sig(f), k);
                assert(exact_image(prev, next, t) == Some(next.functions@[k].id));
            }
        }
        assert forall|u: StableId, k: int|
            #![trigger ts.contains(u), sole_with_sig(next.functions@, sig(fn_by_id(prev.functions@, u).unwrap()), k)]
            ts.contains(u) && fn_by_id(prev.functions@, u) is Some && sole_with_sig(
                next.functions@,
                sig(fn_by_id(prev.functions@, u).unwrap()),
                k,
            ) implies ps.contains((u, next.functions@[k].id)) by {
            let x = (u, next.functions@[k].id);
            if u == t {
                law_exact_image_is_sole(prev, next, u);
                assert(ps == r.push(x));
                assert(ps[r.len() as int] == x);
            } else {
                let m = choose|m: int| 0 <= m < ts.len() && ts[m] == u;
                assert(m < d.len());
                assert(d[m] == u);
                assert(d.contains(u));
                assert(r.contains(x));
                let q = choose|q: int| 0 <= q < r.len() && r[q] == x;
                if exact_image(prev, next, t) is Some {
                    assert(ps == r.push(ps[r.len() as int]));
                    assert(ps[q] == r[q]);
                } else {
                    assert(ps == r);
                }
            }
        }
    }
}

/// The targets of `ts` the exact rung leaves, in order.
pub open spec fn exact_left(prev: Program, next: Program, ts: Seq<StableId>) -> Seq<StableId>
    decreases ts.len(),
{
    if ts.len() == 0 {
        Seq::empty()
    } else {
        let r = exact_left(prev, next, ts.drop_last());
        match exact_image(prev, next, ts.last()) {
            Some(_) => r,
            None => r.push(ts.last()),
        }
    }
}

/// Prev target `t` names a prev function whose signature exactly one next function carries.
pub open spec fn anchorable(prev: Program, next: Program, t: StableId) -> bool {
    fn_by_id(prev.functions@, t) is Some && exists|k: int|
        sole_with_sig(next.functions@, sig(fn_by_id(prev.functions@, t).unwrap()), k)
}

/// What the exact rung leaves is exactly what it cannot re-anchor: every target of `ts` that
/// names no prev function, or whose function's signature no next function or several carry, is
/// left for the later rungs, and everything left is such a target of `ts`.
pub proof fn law_exact_left_is_the_unanchorable(prev: Program, next: Program, ts: Seq<StableId>)
    ensures
        forall|m: int|
            0 <= m < ts.len() && !anchorable(prev, next, ts[m]) ==> exact_left(prev, next, ts).contains(
                #[trigger] ts[m],
            ),
        forall|q: int|
            0 <= q < exact_left(prev, next, ts).len() ==> ts.contains(#[trigger] exact_left(prev, next, ts)[q])
                && !anchorable(prev, next, exact_left(prev, next, ts)[q]),
    decreases ts.len(),
{
    if ts.len() > 0 {
        let d = ts.drop_last();
        let t = ts.last();
        law_exact_left_is_the_unanchorable(prev, next, d);
        law_exact_image_is_sole(prev, next, t);
        let r = exact_left(prev, next, d);
        let l = exact_left(prev, next, ts);
        if anchorable(prev, next, t) {
            assert(l == r);
        } else {
            assert(l == r.push(t));
        }
        assert forall|m: int| 0 <= m < ts.len() && !anchorable(prev, next, ts[m]) implies l.contains(#[trigger] ts[m]) by {
            if m < d.len() {
                assert(d[m] == ts[m]);
                assert(r.contains(d[m]));
                let q = choose|q: int| 0 <= q < r.len() && r[q] == d[m];
                assert(l[q] == r[q]);
            } else {
                assert(l[r.len() as int] == t);
            }
        }
        assert forall|q: int| 0 <= q < l.len() implies ts.contains(#[trigger] l[q]) && !anchorable(prev, next, l[q]) by {
            if q < r.len() {
                assert(l[q] == r[q]);
                assert(d.contains(r[q]));
                let m = choose|m: int| 0 <= m < d.len() && d[m] == r[q];
                assert(ts[m] == r[q]);
            } else {
                assert(ts[ts.len() - 1] == t);
            }
        }
    }
}

/// The exact rung of re-anchoring: each of `prev`'s fact targets whose signature exactly one
/// function of `next` carries is matched to it (and that function claimed); the rest are left, in
/// order, for the later rungs.
pub fn exact_anchor(prev: &Program, next: &Program) -> (r: (Matching, Vec<StableId>))
    ensures
        r.0.pairs@ == exact_pairs(*prev, *next, distinct_targets(prev.facts@)),
        r.0.claimed@ == exact_pairs(*prev, *next, distinct_targets(prev.facts@)).map_values(
            |p: (StableId, StableId)| p.1,
        ),
        r.1@ == exact_left(*prev, *next, distinct_targets(prev.facts@)),
        forall|q: int|
            0 <= q < r.0.pairs@.len() ==> fn_by_id(prev.functions@, (#[trigger] r.0.pairs@[q]).0) is Some
                && exists|k: int|
                sole_with_sig(next.functions@, sig(fn_by_id(prev.functions@, r.0.pairs@[q].0).unwrap()), k)
                    && next.functions@[k].id == r.0.pairs@[q].1,
{
    let targets = fact_targets(&prev.facts);
    let mut m = Matching::new();
    let mut left: Vec<StableId> = Vec::new();
    let mut i: usize = 0;
    while i < targets.len()
        invariant
            i <= targets@.len(),
            m.pairs@ == exact_pairs(*prev, *next, targets@.take(i as int)),
            m.claimed@ == m.pairs@.map_values(|p: (StableId, StableId)| p.1),
            left@ == exact_left(*prev, *next, targets@.take(i as int)),
        decreases targets@.len() - i,
    {
        assert(targets@.take(i + 1).drop_last() =~= targets@.take(i as int));
        let t = targets[i];
        let hit = match last_by_id(&prev.functions, t) {
            None => None,
            Some(k) => sig_match(&next.functions, &prev.functions[k]),
        };
        match hit {
            Some(id) => {
                let ghost before = m.pairs@;
                m.insert(t, id);
                assert(m.claimed@ =~= m.pairs@.map_values(|p: (StableId, StableId)| p.1));
            },
            None => {
                left.push(t);
            },
        }
        i += 1;
    }
    assert(targets@.take(targets@.len() as int) =~= targets@);
    proof {
        law_exact_pairs_are_sole(*prev, *next, targets@);
    }
    (m, left)
}

/// `fact` re-targeted through the matching, or `None` when its target was not matched.
pub open spec fn carried(pairs: Seq<(StableId, StableId)>, fact: UserFact) -> Option<UserFact> {
    match image(pairs, fact.target) {
        Some(id) => Some(UserFact { target: id, ..fact }),
        None => None,
    }
}

/// The facts the matching carries across, re-targeted, in order.
pub open spec fn merged_facts(pairs: Seq<(StableId, StableId)>, facts: Seq<UserFact>) -> Seq<UserFact>
    decreases facts.len(),
{
    if facts.len() == 0 {
        Seq::empty()
    } else {
        let r = merged_facts(pairs, facts.drop_last());
        match carried(pairs, facts.last()) {
            Some(f) => r.push(f),
            None => r,
        }
    }
}

/// The facts the matching cannot carry (flagged for review), in order.
pub open spec fn flagged_facts(pairs: Seq<(StableId, StableId)>, facts: Seq<UserFact>) -> Seq<UserFact>
    decreases facts.len(),
{
    if facts.len() == 0 {
        Seq::empty()
    } else {
        let r = flagged_facts(pairs, facts.drop_last());
        match carried(pairs, facts.last()) {
            Some(_) => r,
            None => r.push(facts.last()),
        }
    }
}

/// Re-target every fact through the matching; anything unmatched is flagged, never guessed.
pub fn retarget_facts(m: &Matching, facts: &Vec<UserFact>) -> (r: (Vec<UserFact>, Vec<UserFact>))
    ensures
        r.0@ == merged_facts(m.pairs@, facts@),
        r.1@ == flagged_facts(m.pairs@, facts@),
{
    let mut merged: Vec<UserFact> = Vec::new();
    let mut flagged: Vec<UserFact> = Vec::new();
    let mut i: usize = 0;
    while i < facts.len()
        invariant
            i <= facts@.len(),
            merged@ == merged_facts(m.pairs@, facts@.take(i as int)),
            flagged@ == flagged_facts(m.pairs@, facts@.take(i as int)),
        decreases facts@.len() - i,
    {
        assert(facts@.take(i + 1).drop_last() =~= facts@.take(i as int));
        match m.get(facts[i].target) {
            Some(id) => merged.push(facts[i].retarget(id)),
            None => flagged.push(facts[i].duplicate()),
        }
        i += 1;
    }
    assert(facts@.take(facts@.len() as int) =~= facts@);
    (merged, flagged)
}

/// Append the carried facts to `next` and report how many were carried and flagged.
pub fn adopt_facts(next: &mut Program, merged: Vec<UserFact>, flagged: usize) -> (r: MergeReport)
    ensures
        final(next).facts@ == old(next).facts@ + merged@,
        final(next).name == old(next).name,
        final(next).language == old(next).language,
        final(next).functions == old(next).functions,
        r.merged == merged@.len(),
        r.flagged == flagged,
{
    let n = merged.len();
    let mut merged = merged;
    next.facts.append(&mut merged);
    MergeReport { merged: n, flagged }
}

} // verus!

verus! {

// ---------------------------------------------------------------------------------------------
// Call-graph propagation for re-anchoring
// ---------------------------------------------------------------------------------------------

/// `img` once for each occurrence of `id` in `cs` (nothing when there is no image).
pub open spec fn imgs_for(cs: Seq<StableId>, id: StableId, img: Option<StableId>) -> Seq<StableId>
    decreases cs.len(),
{
    if cs.len() == 0 {
        Seq::empty()
    } else {
        let r = imgs_for(cs.drop_last(), id, img);
        if cs.last() == id && img is Some {
            r.push(img.unwrap())
        } else {
            r
        }
    }
}

/// The images of `id`'s callers among `fs` — one per call, in order.
pub open spec fn caller_imgs(fs: Seq<Function>, id: StableId, pairs: Seq<(StableId, StableId)>) -> Seq<
    StableId,
>
    decreases fs.len(),
{
    if fs.len() == 0 {
        Seq::empty()
    } else {
        caller_imgs(fs.drop_last(), id, pairs) + imgs_for(
            fs.last().callees@,
            id,
            image(pairs, fs.last().id),
        )
    }
}

/// The images of `ids` through the matching, in order (unmatched ids skipped).
pub open spec fn images(ids: Seq<StableId>, pairs: Seq<(StableId, StableId)>) -> Seq<StableId>
    decreases ids.len(),
{
    if ids.len() == 0 {
        Seq::empty()
    } else {
        let r = images(ids.drop_last(), pairs);
        match image(pairs, ids.last()) {
            Some(i) => r.push(i),
            None => r,
        }
    }
}

/// The function `from` of `fs` calls `to`.
pub open spec fn calls(fs: Seq<Function>, from: StableId, to: StableId) -> bool {
    match fn_by_id(fs, from) {
        Some(f) => f.callees@.contains(to),
        None => false,
    }
}

/// `f` calls one of `targets`.
pub open spec fn calls_any(f: Function, targets: Seq<StableId>) -> bool {
    exists|j: int| 0 <= j < targets.len() && f.callees@.contains(targets[j])
}

/// `c` lies in the confirmed neighbourhood: a callee of an image of a matched caller, or a
/// caller of an image of a matched callee.
pub open spec fn in_neighbourhood(fs: Seq<Function>, ci: Seq<StableId>, ei: Seq<StableId>, c: StableId) -> bool {
    ||| exists|i: int| 0 <= i < ci.len() && calls(fs, ci[i], c)
    ||| exists|k: int| 0 <= k < fs.len() && fs[k].id == c && calls_any(fs[k], ei)
}

/// How many of the caller images call `c`.
pub open spec fn caller_agreement(ci: Seq<StableId>, fs: Seq<Function>, c: StableId) -> nat
    decreases ci.len(),
{
    if ci.len() == 0 {
        0
    } else {
        caller_agreement(ci.drop_last(), fs, c) + if calls(fs, ci.last(), c) {
            1nat
        } else {
            0nat
        }
    }
}

/// How many of the callee images `cf` calls.
pub open spec fn callee_agreement(ei: Seq<StableId>, cf: Function) -> nat
    decreases ei.len(),
{
    if ei.len() == 0 {
        0
    } else {
        callee_agreement(ei.drop_last(), cf) + if cf.callees@.contains(ei.last()) {
            1nat
        } else {
            0nat
        }
    }
}

/// A candidate's propagation score: matched callers and callees it reproduces, plus two for a
/// shared self-recursion.
pub open spec fn prop_score(fs: Seq<Function>, ci: Seq<StableId>, ei: Seq<StableId>, rec: bool, c: StableId) -> int {
    let cf = fn_by_id(fs, c).unwrap();
    caller_agreement(ci, fs, c) + callee_agreement(ei, cf) + if rec && cf.callees@.contains(c) {
        2int
    } else {
        0int
    }
}

/// `c` may be chosen: in the neighbourhood, unclaimed, and a function of `fs`.
pub open spec fn prop_eligible(
    fs: Seq<Function>,
    claimed: Seq<StableId>,
    ci: Seq<StableId>,
    ei: Seq<StableId>,
    c: StableId,
) -> bool {
    in_neighbourhood(fs, ci, ei, c) && !claimed.contains(c) && fn_by_id(fs, c) is Some
}

/// `c` wins the propagation: eligible, scoring at least two, and beating every other eligible
/// candidate by at least one — a near-tie has no winner.
pub open spec fn prop_winner(
    fs: Seq<Function>,
    claimed: Seq<StableId>,
    ci: Seq<StableId>,
    ei: Seq<StableId>,
    rec: bool,
    c: StableId,
) -> bool {
    &&& prop_eligible(fs, claimed, ci, ei, c)
    &&& prop_score(fs, ci, ei, rec, c) >= 2
    &&& forall|d: StableId|
        prop_eligible(fs, claimed, ci, ei, d) && d != c ==> #[trigger] prop_score(fs, ci, ei, rec, d)
            <= prop_score(fs, ci, ei, rec, c) - 1
}

/// What propagation answers for prev function `b_id`: nothing without the function or a matched
/// neighbour; otherwise the winner, if there is one.
pub open spec fn propagates(
    prev: Program,
    next: Program,
    pairs: Seq<(StableId, StableId)>,
    claimed: Seq<StableId>,
    b_id: StableId,
    r: Option<StableId>,
) -> bool {
    match fn_by_id(prev.functions@, b_id) {
        None => r is None,
        Some(b) => {
            let ci = caller_imgs(prev.functions@, b_id, pairs);
            let ei = images(b.callees@, pairs);
            let rec = b.callees@.contains(b_id);
            if ci.len() == 0 && ei.len() == 0 {
                r is None
            } else {
                match r {
                    Some(c) => prop_winner(next.functions@, claimed, ci, ei, rec, c),
                    None => forall|c: StableId| !prop_winner(next.functions@, claimed, ci, ei, rec, c),
                }
            }
        },
    }
}

/// Propagation never guesses between near-ties: at most one candidate wins.
pub proof fn law_propagation_winner_unique(
    fs: Seq<Function>,
    claimed: Seq<StableId>,
    ci: Seq<StableId>,
    ei: Seq<StableId>,
    rec: bool,
    c: StableId,
    d: StableId,
)
    requires
        prop_winner(fs, claimed, ci, ei, rec, c),
        prop_winner(fs, claimed, ci, ei, rec, d),
    ensures
        c == d,
{
    if c != d {
        assert(prop_score(fs, ci, ei, rec, d) <= prop_score(fs, ci, ei, rec, c) - 1);
        assert(prop_score(fs, ci, ei, rec, c) <= prop_score(fs, ci, ei, rec, d) - 1);
    }
}

proof fn lemma_fn_by_id_some(fs: Seq<Function>, id: StableId)
    ensures
        fn_by_id(fs, id) is Some ==> exists|k: int| 0 <= k < fs.len() && fs[k].id == id,
        fn_by_id(fs, id) matches Some(f) ==> f.id == id,
        (exists|k: int| 0 <= k < fs.len() && fs[k].id == id) ==> fn_by_id(fs, id) is Some,
    decreases fs.len(),
{
    if fs.len() > 0 {
        lemma_fn_by_id_some(fs.drop_last(), id);
        if fn_by_id(fs, id) is Some && fs.last().id != id {
            let k = choose|k: int| 0 <= k < fs.drop_last().len() && fs.drop_last()[k].id == id;
            assert(fs[k].id == id);
        }
        if fs.last().id != id && (exists|k: int| 0 <= k < fs.len() && fs[k].id == id) {
            let k = choose|k: int| 0 <= k < fs.len() && fs[k].id == id;
            assert(fs.drop_last()[k].id == id);
        }
    }
}

/// The images of `ids` through the matching.
fn image_list(ids: &Vec<StableId>, m: &Matching) -> (r: Vec<StableId>)
    ensures
        r@ == images(ids@, m.pairs@),
{
    let mut out: Vec<StableId> = Vec::new();
    let mut i: usize = 0;
    while i < ids.len()
        invariant
            i <= ids@.len(),
            out@ == images(ids@.take(i as int), m.pairs@),
        decreases ids@.len() - i,
    {
        assert(ids@.take(i + 1).drop_last() =~= ids@.take(i as int));
        match m.get(ids[i]) {
            Some(x) => out.push(x),
            None => {},
        }
        i += 1;
    }
    assert(ids@.take(ids@.len() as int) =~= ids@);
    out
}

/// The images of `id`'s callers among `fs`.
fn caller_image_list(fs: &Vec<Function>, id: StableId, m: &Matching) -> (r: Vec<StableId>)
    ensures
        r@ == caller_imgs(fs@, id, m.pairs@),
{
    let mut out: Vec<StableId> = Vec::new();
    let mut i: usize = 0;
    while i < fs.len()
        invariant
            i <= fs@.len(),
            out@ == caller_imgs(fs@.take(i as int), id, m.pairs@),
        decreases fs@.len() - i,
    {
        assert(fs@.take(i + 1).drop_last() =~= fs@.take(i as int));
        let f = &fs[i];
        let img = m.get(f.id);
        let ghost start = out@;
        let mut j: usize = 0;
        while j < f.callees.len()
            invariant
                j <= f.callees@.len(),
                img == image(m.pairs@, f.id),
                out@ == start + imgs_for(f.callees@.take(j as int), id, img),
            decreases f.callees@.len() - j,
        {
            assert(f.callees@.take(j + 1).drop_last() =~= f.callees@.take(j as int));
            if f.callees[j] == id {
                match img {
                    Some(x) => {
                        out.push(x);
                    },
                    None => {},
                }
            }
            assert(out@ =~= start + imgs_for(f.callees@.take(j + 1), id, img));
            j += 1;
        }
        assert(f.callees@.take(f.callees@.len() as int) =~= f.callees@);
        i += 1;
    }
    assert(fs@.take(fs@.len() as int) =~= fs@);
    out
}

/// Whether function `from` of `fs` calls `to`.
fn calls_exec(fs: &Vec<Function>, from: StableId, to: StableId) -> (r: bool)
    ensures
        r == calls(fs@, from, to),
{
    match last_by_id(fs, from) {
        Some(k) => crate::port::contains_id(&fs[k].callees, to),
        None => false,
    }
}

/// Whether `f` calls one of `targets`.
fn calls_any_exec(f: &Function, targets: &Vec<StableId>) -> (r: bool)
    ensures
        r == calls_any(*f, targets@),
{
    let mut j: usize = 0;
    while j < targets.len()
        invariant
            j <= targets@.len(),
            forall|t: int| 0 <= t < j ==> !f.callees@.contains(targets@[t]),
        decreases targets@.len() - j,
    {
        if crate::port::contains_id(&f.callees, targets[j]) {
            return true;
        }
        j += 1;
    }
    false
}

/// Whether `c` lies in the confirmed neighbourhood.
fn in_neighbourhood_exec(fs: &Vec<Function>, ci: &Vec<StableId>, ei: &Vec<StableId>, c: StableId) -> (r: bool)
    ensures
        r == in_neighbourhood(fs@, ci@, ei@, c),
{
    let mut i: usize = 0;
    while i < ci.len()
        invariant
            i <= ci@.len(),
            forall|t: int| 0 <= t < i ==> !calls(fs@, ci@[t], c),
        decreases ci@.len() - i,
    {
        if calls_exec(fs, ci[i], c) {
            return true;
        }
        i += 1;
    }
    let mut k: usize = 0;
    while k < fs.len()
        invariant
            k <= fs@.len(),
            forall|t: int| 0 <= t < ci@.len() ==> !calls(fs@, ci@[t], c),
            forall|t: int| 0 <= t < k ==> !(fs@[t].id == c && calls_any(fs@[t], ei@)),
        decreases fs@.len() - k,
    {
        if fs[k].id == c && calls_any_exec(&fs[k], ei) {
            return true;
        }
        k += 1;
    }
    false
}

/// A candidate's propagation score.
fn score_of(fs: &Vec<Function>, ci: &Vec<StableId>, ei: &Vec<StableId>, rec: bool, c: StableId, cf: &Function) -> (s: i128)
    requires
        fn_by_id(fs@, c) == Some(*cf),
    ensures
        s as int == prop_score(fs@, ci@, ei@, rec, c),
        0 <= s <= ci@.len() + ei@.len() + 2,
{
    let mut a: usize = 0;
    let mut i: usize = 0;
    while i < ci.len()
        invariant
            i <= ci@.len(),
            a == caller_agreement(ci@.take(i as int), fs@, c),
            a <= i,
        decreases ci@.len() - i,
    {
        assert(ci@.take(i + 1).drop_last() =~= ci@.take(i as int));
        if calls_exec(fs, ci[i], c) {
            a += 1;
        }
        i += 1;
    }
    assert(ci@.take(ci@.len() as int) =~= ci@);
    let mut b: usize = 0;
    let mut j: usize = 0;
    while j < ei.len()
        invariant
            j <= ei@.len(),
            b == callee_agreement(ei@.take(j as int), *cf),
            b <= j,
        decreases ei@.len() - j,
    {
        assert(ei@.take(j + 1).drop_last() =~= ei@.take(j as int));
        if crate::port::contains_id(&cf.callees, ei[j]) {
            b += 1;
        }
        j += 1;
    }
    assert(ei@.take(ei@.len() as int) =~= ei@);
    let r: i128 = if rec && crate::port::contains_id(&cf.callees, c) {
        2
    } else {
        0
    };
    (a as i128) + (b as i128) + r
}

/// Whether an earlier function of `fs` than index `k` has the same id.
fn seen_before(fs: &Vec<Function>, k: usize) -> (r: bool)
    requires
        k < fs@.len(),
    ensures
        r == exists|j: int| 0 <= j < k && fs@[j].id == fs@[k as int].id,
{
    let mut j: usize = 0;
    while j < k
        invariant
            j <= k,
            k < fs@.len(),
            forall|t: int| 0 <= t < j ==> fs@[t].id != fs@[k as int].id,
        decreases k - j,
    {
        if fs[j].id == fs[k].id {
            return true;
        }
        j += 1;
    }
    false
}

/// Propagation: match prev `b_id` by its position in the call graph relative to the functions
/// already matched. The candidates are the next functions in its confirmed neighbourhood; each is
/// scored by how much of that neighbourhood it reproduces (plus a shared self-recursion), and
/// only a unique winner scoring at least two and beating every other candidate by at least one
/// is accepted — symmetric neighbours tie and stay unmatched.
pub fn propagate_match(b_id: StableId, m: &Matching, prev: &Program, next: &Program) -> (r: Option<StableId>)
    ensures
        propagates(*prev, *next, m.pairs@, m.claimed@, b_id, r),
{
    let bk = match last_by_id(&prev.functions, b_id) {
        Some(k) => k,
        None => return None,
    };
    let b = &prev.functions[bk];
    let ci = caller_image_list(&prev.functions, b_id, m);
    let ei = image_list(&b.callees, m);
    if ci.len() == 0 && ei.len() == 0 {
        return None;
    }
    let rec = crate::port::contains_id(&b.callees, b_id);
    let fs = &next.functions;
    let ghost claimed = m.claimed@;
    let mut best: Option<StableId> = None;
    let mut best_s: i128 = -1;
    let mut second_s: i128 = -1;
    let mut k: usize = 0;
    while k < fs.len()
        invariant
            k <= fs@.len(),
            fs == &next.functions,
            claimed == m.claimed@,
            -1 <= second_s <= best_s,
            best_s <= ci@.len() + ei@.len() + 2,
            forall|c: StableId|
                (exists|j: int| 0 <= j < k && #[trigger] fs@[j].id == c) && prop_eligible(
                    fs@,
                    claimed,
                    ci@,
                    ei@,
                    c,
                ) ==> prop_score(fs@, ci@, ei@, rec, c) <= best_s,
            match best {
                Some(bb) => (exists|j: int| 0 <= j < k && fs@[j].id == bb) && prop_eligible(
                    fs@,
                    claimed,
                    ci@,
                    ei@,
                    bb,
                ) && prop_score(fs@, ci@, ei@, rec, bb) == best_s,
                None => best_s == -1 && second_s == -1,
            },
            forall|c: StableId|
                (exists|j: int| 0 <= j < k && #[trigger] fs@[j].id == c) && prop_eligible(
                    fs@,
                    claimed,
                    ci@,
                    ei@,
                    c,
                ) && Some(c) != best ==> prop_score(fs@, ci@, ei@, rec, c) <= second_s,
            second_s != -1 ==> exists|c: StableId|
                (exists|j: int| 0 <= j < k && #[trigger] fs@[j].id == c) && prop_eligible(
                    fs@,
                    claimed,
                    ci@,
                    ei@,
                    c,
                ) && Some(c) != best && prop_score(fs@, ci@, ei@, rec, c) == second_s,
        decreases fs@.len() - k,
    {
        let c = fs[k].id;
        let fresh = !seen_before(fs, k);
        if fresh && !m.is_claimed(c) && in_neighbourhood_exec(fs, &ci, &ei, c) {
            proof {
                lemma_fn_by_id_some(fs@, c);
                assert(fs@[k as int].id == c);
            }
            let ck = match last_by_id(fs, c) {
                Some(ck) => ck,
                None => {
                    assert(false);
                    return None;
                },
            };
            let s = score_of(fs, &ci, &ei, rec, c, &fs[ck]);
            if s > best_s {
                second_s = best_s;
                best_s = s;
                best = Some(c);
            } else if s > second_s {
                second_s = s;
            }
        }
        k += 1;
    }
    proof {
        assert forall|c: StableId| prop_eligible(fs@, claimed, ci@, ei@, c) implies (exists|j: int|
            0 <= j < fs@.len() && #[trigger] fs@[j].id == c) by {
            lemma_fn_by_id_some(fs@, c);
        }
    }
    match best {
        Some(bb) => {
            if best_s >= 2 && best_s > second_s {
                Some(bb)
            } else {
                proof {
                    if best_s >= 2 {
                        let d = choose|d: StableId|
                            (exists|j: int| 0 <= j < fs@.len() && #[trigger] fs@[j].id == d)
                                && prop_eligible(fs@, claimed, ci@, ei@, d) && Some(d) != best
                                && prop_score(fs@, ci@, ei@, rec, d) == second_s;
                        assert forall|c: StableId| !prop_winner(fs@, claimed, ci@, ei@, rec, c) by {
                            if prop_winner(fs@, claimed, ci@, ei@, rec, c) {
                                if c == bb {
                                    assert(prop_score(fs@, ci@, ei@, rec, d) <= prop_score(fs@, ci@, ei@, rec, c) - 1);
                                } else {
                                    assert(prop_score(fs@, ci@, ei@, rec, bb) <= prop_score(fs@, ci@, ei@, rec, c) - 1);
                                }
                            }
                        }
                    }
                }
                None
            }
        },
        None => None,
    }
}

} // verus!

verus! {

/// Propagation's answer for prev `t`, as a value.
pub open spec fn prop_result(
    prev: Program,
    next: Program,
    pairs: Seq<(StableId, StableId)>,
    claimed: Seq<StableId>,
    t: StableId,
) -> Option<StableId> {
    match fn_by_id(prev.functions@, t) {
        None => None,
        Some(b) => {
            let ci = caller_imgs(prev.functions@, t, pairs);
            let ei = images(b.callees@, pairs);
            let rec = b.callees@.contains(t);
            if ci.len() == 0 && ei.len() == 0 {
                None
            } else if exists|c: StableId| prop_winner(next.functions@, claimed, ci, ei, rec, c) {
                Some(choose|c: StableId| prop_winner(next.functions@, claimed, ci, ei, rec, c))
            } else {
                None
            }
        },
    }
}

proof fn lemma_propagates_is_result(
    prev: Program,
    next: Program,
    pairs: Seq<(StableId, StableId)>,
    claimed: Seq<StableId>,
    t: StableId,
    r: Option<StableId>,
)
    requires
        propagates(prev, next, pairs, claimed, t, r),
    ensures
        r == prop_result(prev, next, pairs, claimed, t),
{
    match fn_by_id(prev.functions@, t) {
        None => {},
        Some(b) => {
            let ci = caller_imgs(prev.functions@, t, pairs);
            let ei = images(b.callees@, pairs);
            let rec = b.callees@.contains(t);
            if !(ci.len() == 0 && ei.len() == 0) {
                if let Some(c) = r {
                    let w = choose|c: StableId| prop_winner(next.functions@, claimed, ci, ei, rec, c);
                    law_propagation_winner_unique(next.functions@, claimed, ci, ei, rec, c, w);
                }
            }
        },
    }
}

/// A matching mid-round: its pairs and claims, and whether the round has matched anything.
pub struct PropState {
    pub pairs: Seq<(StableId, StableId)>,
    pub claimed: Seq<StableId>,
    pub progress: bool,
}

/// One propagation round over the targets `ts`, in order: each still-unmatched target is
/// matched to its propagation winner, if it has one, and that winner claimed.
pub open spec fn prop_round(prev: Program, next: Program, st: PropState, ts: Seq<StableId>) -> PropState
    decreases ts.len(),
{
    if ts.len() == 0 {
        st
    } else {
        let s1 = prop_round(prev, next, st, ts.drop_last());
        let t = ts.last();
        if image(s1.pairs, t) is Some {
            s1
        } else {
            match prop_result(prev, next, s1.pairs, s1.claimed, t) {
                Some(id) => PropState {
                    pairs: s1.pairs.push((t, id)),
                    claimed: s1.claimed.push(id),
                    progress: true,
                },
                None => s1,
            }
        }
    }
}

/// The matching after `n` propagation rounds over `ts`.
pub open spec fn prop_iterate(
    prev: Program,
    next: Program,
    pairs: Seq<(StableId, StableId)>,
    claimed: Seq<StableId>,
    ts: Seq<StableId>,
    n: nat,
) -> (Seq<(StableId, StableId)>, Seq<StableId>)
    decreases n,
{
    if n == 0 {
        (pairs, claimed)
    } else {
        let (p, c) = prop_iterate(prev, next, pairs, claimed, ts, (n - 1) as nat);
        let r = prop_round(prev, next, PropState { pairs: p, claimed: c, progress: false }, ts);
        (r.pairs, r.claimed)
    }
}

/// How many of `ts` the matching has not placed.
pub open spec fn unmatched(pairs: Seq<(StableId, StableId)>, ts: Seq<StableId>) -> nat
    decreases ts.len(),
{
    if ts.len() == 0 {
        0
    } else {
        unmatched(pairs, ts.drop_last()) + if image(pairs, ts.last()) is None {
            1nat
        } else {
            0nat
        }
    }
}

proof fn lemma_unmatched_push(pairs: Seq<(StableId, StableId)>, x: (StableId, StableId), ts: Seq<StableId>)
    ensures
        unmatched(pairs.push(x), ts) <= unmatched(pairs, ts),
        ts.contains(x.0) && image(pairs, x.0) is None ==> unmatched(pairs.push(x), ts) < unmatched(
            pairs,
            ts,
        ),
    decreases ts.len(),
{
    assert(pairs.push(x).drop_last() =~= pairs);
    if ts.len() > 0 {
        lemma_unmatched_push(pairs, x, ts.drop_last());
        if ts.contains(x.0) && ts.last() != x.0 {
            let k = choose|k: int| 0 <= k < ts.len() && ts[k] == x.0;
            assert(ts.drop_last()[k] == x.0);
        }
    }
}

proof fn lemma_quiet_round(prev: Program, next: Program, st: PropState, ts: Seq<StableId>)
    requires
        !st.progress,
        !prop_round(prev, next, st, ts).progress,
    ensures
        prop_round(prev, next, st, ts) == st,
    decreases ts.len(),
{
    if ts.len() > 0 {
        let s1 = prop_round(prev, next, st, ts.drop_last());
        if s1.progress {
            lemma_progress_sticks(prev, next, st, ts);
        }
        lemma_quiet_round(prev, next, st, ts.drop_last());
    }
}

proof fn lemma_progress_sticks(prev: Program, next: Program, st: PropState, ts: Seq<StableId>)
    requires
        ts.len() > 0,
        prop_round(prev, next, st, ts.drop_last()).progress,
    ensures
        prop_round(prev, next, st, ts).progress,
{
}

/// Spread confirmed matches along the call graph to a fixpoint: rounds over the left-over
/// targets `ts` repeat until one matches nothing. Builds only on matches already recorded and
/// accepts only unique winners, so it never cascades a guess.
pub fn propagate_all(m: &mut Matching, ts: &Vec<StableId>, prev: &Program, next: &Program)
    ensures
        exists|n: nat|
            (final(m).pairs@, final(m).claimed@) == prop_iterate(
                *prev,
                *next,
                old(m).pairs@,
                old(m).claimed@,
                ts@,
                n,
            ),
        !prop_round(
            *prev,
            *next,
            PropState { pairs: final(m).pairs@, claimed: final(m).claimed@, progress: false },
            ts@,
        ).progress,
{
    let ghost p0 = m.pairs@;
    let ghost c0 = m.claimed@;
    let ghost mut n: nat = 0;
    loop
        invariant
            (m.pairs@, m.claimed@) == prop_iterate(*prev, *next, p0, c0, ts@, n),
        ensures
            (m.pairs@, m.claimed@) == prop_iterate(*prev, *next, p0, c0, ts@, n),
            !prop_round(
                *prev,
                *next,
                PropState { pairs: m.pairs@, claimed: m.claimed@, progress: false },
                ts@,
            ).progress,
        decreases unmatched(m.pairs@, ts@),
    {
        let ghost start = PropState { pairs: m.pairs@, claimed: m.claimed@, progress: false };
        let mut progress = false;
        let mut i: usize = 0;
        while i < ts.len()
            invariant
                i <= ts@.len(),
                prop_round(*prev, *next, start, ts@.take(i as int)) == (PropState {
                    pairs: m.pairs@,
                    claimed: m.claimed@,
                    progress,
                }),
                unmatched(m.pairs@, ts@) <= unmatched(start.pairs, ts@),
                progress ==> unmatched(m.pairs@, ts@) < unmatched(start.pairs, ts@),
            decreases ts@.len() - i,
        {
            assert(ts@.take(i + 1).drop_last() =~= ts@.take(i as int));
            let t = ts[i];
            if m.get(t).is_none() {
                match propagate_match(t, m, prev, next) {
                    Some(id) => {
                        proof {
                            lemma_propagates_is_result(*prev, *next, m.pairs@, m.claimed@, t, Some(id));
                            lemma_unmatched_push(m.pairs@, (t, id), ts@);
                            assert(ts@[i as int] == t);
                        }
                        m.insert(t, id);
                        progress = true;
                    },
                    None => {
                        proof {
                            lemma_propagates_is_result(*prev, *next, m.pairs@, m.claimed@, t, None);
                        }
                    },
                }
            }
            i += 1;
        }
        assert(ts@.take(ts@.len() as int) =~= ts@);
        if !progress {
            proof {
                lemma_quiet_round(*prev, *next, start, ts@);
            }
            break;
        }
        proof {
            n = n + 1;
        }
    }
}

} // verus!

verus! {

/// Re-anchoring loses nothing and guesses nothing: every fact comes out exactly once, either
/// carried — re-targeted onto the image of its own target under the matching, the rest of it
/// unchanged — or flagged, and a fact is flagged exactly when its target has no image.
pub proof fn law_reanchor_loses_nothing(pairs: Seq<(StableId, StableId)>, facts: Seq<UserFact>)
    ensures
        merged_facts(pairs, facts).len() + flagged_facts(pairs, facts).len() == facts.len(),
        forall|i: int|
            0 <= i < flagged_facts(pairs, facts).len() ==> image(pairs, (#[trigger] flagged_facts(pairs, facts)[i]).target)
                is None,
        forall|i: int|
            0 <= i < merged_facts(pairs, facts).len() ==> exists|k: int|
                0 <= k < facts.len() && #[trigger] merged_facts(pairs, facts)[i] == (UserFact {
                    target: image(pairs, facts[k].target).unwrap(),
                    ..facts[k]
                }) && image(pairs, facts[k].target) is Some,
    decreases facts.len(),
{
    if facts.len() > 0 {
        let s = facts.drop_last();
        law_reanchor_loses_nothing(pairs, s);
        let m = merged_facts(pairs, facts);
        let ms = merged_facts(pairs, s);
        assert forall|i: int| 0 <= i < m.len() implies exists|k: int|
            0 <= k < facts.len() && #[trigger] m[i] == (UserFact {
                target: image(pairs, facts[k].target).unwrap(),
                ..facts[k]
            }) && image(pairs, facts[k].target) is Some by {
            if i < ms.len() {
                assert(m[i] == ms[i]);
                let k = choose|k: int|
                    0 <= k < s.len() && #[trigger] ms[i] == (UserFact {
                        target: image(pairs, s[k].target).unwrap(),
                        ..s[k]
                    }) && image(pairs, s[k].target) is Some;
                assert(facts[k] == s[k]);
            } else {
                assert(m[i] == (UserFact { target: image(pairs, facts.last().target).unwrap(), ..facts.last() }));
                assert(facts[facts.len() - 1] == facts.last());
            }
        }
    }
}

} // verus!

verus! {

proof fn lemma_image_known(pairs: Seq<(StableId, StableId)>, k: StableId, fs: Seq<Function>)
    requires
        forall|i: int| 0 <= i < pairs.len() ==> crate::schema::has_id(fs, (#[trigger] pairs[i]).1),
    ensures
        image(pairs, k) matches Some(id) ==> crate::schema::has_id(fs, id),
    decreases pairs.len(),
{
    if pairs.len() > 0 {
        assert(crate::schema::has_id(fs, pairs[pairs.len() - 1].1));
        assert forall|i: int| 0 <= i < pairs.drop_last().len() implies crate::schema::has_id(
            fs,
            (#[trigger] pairs.drop_last()[i]).1,
        ) by {
            assert(pairs.drop_last()[i] == pairs[i]);
        }
        lemma_image_known(pairs.drop_last(), k, fs);
    }
}

/// Re-anchored facts land on the new model: when every pairing names a function of the new
/// model, so does every fact the matching carries across, and so does every fact of the new
/// model once they are adopted.
pub proof fn law_merged_facts_land_on_the_new_model(
    pairs: Seq<(StableId, StableId)>,
    facts: Seq<UserFact>,
    next: Program,
)
    requires
        forall|i: int| 0 <= i < pairs.len() ==> crate::schema::has_id(next.functions@, (#[trigger] pairs[i]).1),
        crate::schema::well_formed(next),
    ensures
        forall|t: int|
            0 <= t < merged_facts(pairs, facts).len() ==> crate::schema::has_id(
                next.functions@,
                (#[trigger] merged_facts(pairs, facts)[t]).target,
            ),
        forall|t: int|
            0 <= t < (next.facts@ + merged_facts(pairs, facts)).len() ==> crate::schema::has_id(
                next.functions@,
                (#[trigger] (next.facts@ + merged_facts(pairs, facts))[t]).target,
            ),
    decreases facts.len(),
{
    if facts.len() > 0 {
        let r = merged_facts(pairs, facts.drop_last());
        law_merged_facts_land_on_the_new_model(pairs, facts.drop_last(), next);
        lemma_image_known(pairs, facts.last().target, next.functions@);
        assert forall|t: int| 0 <= t < merged_facts(pairs, facts).len() implies crate::schema::has_id(
            next.functions@,
            (#[trigger] merged_facts(pairs, facts)[t]).target,
        ) by {
            if t < r.len() {
                assert(merged_facts(pairs, facts)[t] == r[t]);
            }
        }
    }
    let all = next.facts@ + merged_facts(pairs, facts);
    assert forall|t: int| 0 <= t < all.len() implies crate::schema::has_id(
        next.functions@,
        (#[trigger] all[t]).target,
    ) by {
        if t >= next.facts@.len() {
            assert(all[t] == merged_facts(pairs, facts)[t - next.facts@.len()]);
        }
    }
}

} // verus!

verus! {

proof fn lemma_tally_lists(base: Program, incoming: Program, facts: Seq<UserFact>)
    ensures
        tally(base, incoming, facts).conflict_list.len() == tally(base, incoming, facts).conflicts,
        tally(base, incoming, facts).adds.len() == tally(base, incoming, facts).merged,
    decreases facts.len(),
{
    if facts.len() > 0 {
        lemma_tally_lists(base, incoming, facts.drop_last());
    }
}

proof fn lemma_replacements_in_place(facts: Seq<UserFact>, rs: Seq<UserFact>)
    ensures
        apply_replacements(facts, rs).len() == facts.len(),
        forall|j: int|
            0 <= j < facts.len() ==> #[trigger] apply_replacements(facts, rs)[j] == facts[j] || exists|t: int|
                0 <= t < rs.len() && apply_replacements(facts, rs)[j] == rs[t] && rs[t].target == facts[j].target
                    && rs[t].kind.tag() == facts[j].kind.tag(),
    decreases rs.len(),
{
    if rs.len() > 0 {
        let d = rs.drop_last();
        let prev = apply_replacements(facts, d);
        lemma_replacements_in_place(facts, d);
        let r = rs.last();
        lemma_fact_at(prev, r.target, r.kind.tag());
        let k = fact_at(prev, r.target, r.kind.tag());
        let cur = apply_replacements(facts, rs);
        assert forall|j: int| 0 <= j < facts.len() implies #[trigger] cur[j] == facts[j] || exists|t: int|
            0 <= t < rs.len() && cur[j] == rs[t] && rs[t].target == facts[j].target && rs[t].kind.tag()
                == facts[j].kind.tag() by {
            if k >= 0 && j == k {
                assert(cur[j] == rs[rs.len() - 1]);
                if prev[j] == facts[j] {
                } else {
                    let t = choose|t: int|
                        0 <= t < d.len() && prev[j] == d[t] && d[t].target == facts[j].target && d[t].kind.tag()
                            == facts[j].kind.tag();
                    assert(rs[t] == d[t]);
                }
            } else {
                assert(cur[j] == prev[j]);
                if prev[j] != facts[j] {
                    let t = choose|t: int|
                        0 <= t < d.len() && prev[j] == d[t] && d[t].target == facts[j].target && d[t].kind.tag()
                            == facts[j].kind.tag();
                    assert(rs[t] == d[t]);
                }
            }
        }
    }
}

/// What a collaboration merge reports adds up: one conflict in the list per conflict counted,
/// the base gains exactly the facts counted as merged (appended after its own), and each of the
/// base's own slots keeps its fact unless a replacement of the same target and kind, won on
/// confidence, took it.
pub proof fn law_collaboration_accounts(base: Program, incoming: Program)
    ensures
        ({
            let t = tally(base, incoming, incoming.facts@);
            let after = apply_replacements(base.facts@ + t.adds, t.replaces);
            &&& t.conflict_list.len() == t.conflicts
            &&& after.len() == base.facts@.len() + t.merged
            &&& forall|j: int|
                0 <= j < base.facts@.len() ==> #[trigger] after[j] == base.facts@[j] || exists|r: int|
                    0 <= r < t.replaces.len() && after[j] == t.replaces[r] && t.replaces[r].target
                        == base.facts@[j].target && t.replaces[r].kind.tag() == base.facts@[j].kind.tag()
        }),
{
    let t = tally(base, incoming, incoming.facts@);
    lemma_tally_lists(base, incoming, incoming.facts@);
    let start = base.facts@ + t.adds;
    lemma_replacements_in_place(start, t.replaces);
    let after = apply_replacements(start, t.replaces);
    assert forall|j: int| 0 <= j < base.facts@.len() implies #[trigger] after[j] == base.facts@[j] || exists|r: int|
        0 <= r < t.replaces.len() && after[j] == t.replaces[r] && t.replaces[r].target == base.facts@[j].target
            && t.replaces[r].kind.tag() == base.facts@[j].kind.tag() by {
        assert(start[j] == base.facts@[j]);
    }
}

} // verus!

verus! {

proof fn lemma_replaces_from(base: Program, incoming: Program, facts: Seq<UserFact>)
    ensures
        forall|i: int|
            0 <= i < tally(base, incoming, facts).replaces.len() ==> exists|j: int|
                0 <= j < facts.len() && settle(base, incoming, facts[j]) == Settle::Replaced(
                    #[trigger] tally(base, incoming, facts).replaces[i],
                ),
        forall|j: int|
            0 <= j < facts.len() && (#[trigger] settle(base, incoming, facts[j])) is Replaced ==> tally(
                base,
                incoming,
                facts,
            ).replaces.contains(settle(base, incoming, facts[j])->Replaced_0),
    decreases facts.len(),
{
    if facts.len() > 0 {
        let d = facts.drop_last();
        lemma_replaces_from(base, incoming, d);
        let t0 = tally(base, incoming, d);
        let t = tally(base, incoming, facts);
        assert forall|i: int| 0 <= i < t.replaces.len() implies exists|j: int|
            0 <= j < facts.len() && settle(base, incoming, facts[j]) == Settle::Replaced(#[trigger] t.replaces[i]) by {
            if i < t0.replaces.len() {
                assert(t.replaces[i] == t0.replaces[i]);
                let j = choose|j: int| 0 <= j < d.len() && settle(base, incoming, d[j]) == Settle::Replaced(t0.replaces[i]);
                assert(facts[j] == d[j]);
            } else {
                assert(settle(base, incoming, facts[facts.len() - 1]) == Settle::Replaced(t.replaces[i]));
            }
        }
        assert forall|j: int| 0 <= j < facts.len() && (#[trigger] settle(base, incoming, facts[j])) is Replaced implies t.replaces.contains(
            settle(base, incoming, facts[j])->Replaced_0,
        ) by {
            let x = settle(base, incoming, facts[j])->Replaced_0;
            if j < d.len() {
                assert(facts[j] == d[j]);
                assert(t0.replaces.contains(x));
                let q = choose|q: int| 0 <= q < t0.replaces.len() && t0.replaces[q] == x;
                assert(t.replaces[q] == x);
            } else {
                assert(t.replaces[t.replaces.len() - 1] == x);
            }
        }
    }
}

proof fn lemma_slot(base_facts: Seq<UserFact>, adds: Seq<UserFact>, rs: Seq<UserFact>, rf: UserFact)
    requires
        forall|i: int| 0 <= i < rs.len() ==> justified(base_facts, #[trigger] rs[i]),
        rs.contains(rf),
        forall|i: int|
            0 <= i < rs.len() && (#[trigger] rs[i]).target == rf.target && rs[i].kind.tag() == rf.kind.tag()
                ==> rs[i] == rf,
    ensures
        0 <= fact_at(base_facts, rf.target, rf.kind.tag()),
        apply_replacements(base_facts + adds, rs)[fact_at(base_facts, rf.target, rf.kind.tag())] == rf,
    decreases rs.len(),
{
    let ext = base_facts + adds;
    let tag = rf.kind.tag();
    let k0 = fact_at(base_facts, rf.target, tag);
    let q = choose|q: int| 0 <= q < rs.len() && rs[q] == rf;
    assert(justified(base_facts, rs[q]));
    lemma_fact_at(base_facts, rf.target, tag);
    let rs0 = rs.drop_last();
    assert forall|i: int| 0 <= i < rs0.len() implies justified(base_facts, #[trigger] rs0[i]) by {
        assert(rs0[i] == rs[i]);
    }
    lemma_apply_justified(base_facts, adds, rs0);
    let cur = apply_replacements(ext, rs0);
    let r = rs.last();
    assert(justified(base_facts, rs[rs.len() - 1]));
    let k1 = fact_at(base_facts, r.target, r.kind.tag());
    lemma_fact_at(base_facts, r.target, r.kind.tag());
    lemma_fact_at_prefix(base_facts, ext, r.target, r.kind.tag());
    lemma_fact_at_same_keys(cur, ext, r.target, r.kind.tag());
    assert(apply_replacements(ext, rs) == cur.update(k1, r));
    if r.target == rf.target && r.kind.tag() == tag {
        assert(r == rf);
    } else {
        assert(rs0.contains(rf)) by {
            assert(q < rs.len() - 1);
            assert(rs0[q] == rf);
        }
        assert forall|i: int|
            0 <= i < rs0.len() && (#[trigger] rs0[i]).target == rf.target && rs0[i].kind.tag() == tag implies rs0[i]
                == rf by {
            assert(rs0[i] == rs[i]);
        }
        lemma_slot(base_facts, adds, rs0, rf);
        assert(k1 != k0) by {
            assert(ext[k0] == base_facts[k0]);
            assert(ext[k1] == base_facts[k1]);
        }
    }
}

/// A confidence win takes the base fact's slot: when an incoming fact settles as a replacement
/// and no other incoming fact replaces something else on the same target and kind, the first
/// base fact on that target and kind is, after the merge, exactly the incoming fact re-targeted
/// onto the base's function.
pub proof fn law_confidence_win_takes_the_slot(base: Program, incoming: Program, g: UserFact, rf: UserFact)
    requires
        incoming.facts@.contains(g),
        settle(base, incoming, g) == Settle::Replaced(rf),
        forall|j: int|
            0 <= j < incoming.facts@.len() && (#[trigger] settle(base, incoming, incoming.facts@[j])) is Replaced
                && settle(base, incoming, incoming.facts@[j])->Replaced_0.target == rf.target && settle(
                base,
                incoming,
                incoming.facts@[j],
            )->Replaced_0.kind.tag() == rf.kind.tag() ==> settle(base, incoming, incoming.facts@[j])->Replaced_0 == rf,
    ensures
        rf == (UserFact { target: rf.target, ..g }),
        ({
            let t = tally(base, incoming, incoming.facts@);
            let k = fact_at(base.facts@, rf.target, rf.kind.tag());
            &&& 0 <= k < base.facts@.len()
            &&& apply_replacements(base.facts@ + t.adds, t.replaces)[k] == rf
        }),
{
    let facts = incoming.facts@;
    let t = tally(base, incoming, facts);
    lemma_replaces_from(base, incoming, facts);
    lemma_replaces_justified(base, incoming, facts);
    let jg = choose|j: int| 0 <= j < facts.len() && facts[j] == g;
    assert(settle(base, incoming, facts[jg]) == Settle::Replaced(rf));
    assert(t.replaces.contains(rf));
    assert forall|i: int|
        0 <= i < t.replaces.len() && (#[trigger] t.replaces[i]).target == rf.target && t.replaces[i].kind.tag()
            == rf.kind.tag() implies t.replaces[i] == rf by {
        let j = choose|j: int| 0 <= j < facts.len() && settle(base, incoming, facts[j]) == Settle::Replaced(t.replaces[i]);
        assert(settle(base, incoming, facts[j]) is Replaced && settle(base, incoming, facts[j])->Replaced_0 == t.replaces[i]);
    }
    lemma_slot(base.facts@, t.adds, t.replaces, rf);
    lemma_fact_at(base.facts@, rf.target, rf.kind.tag());
}

} // verus!

verus! {

proof fn lemma_adds_fresh(base: Program, incoming: Program, facts: Seq<UserFact>)
    ensures
        forall|i: int|
            0 <= i < tally(base, incoming, facts).adds.len() ==> fact_at(
                base.facts@,
                (#[trigger] tally(base, incoming, facts).adds[i]).target,
                tally(base, incoming, facts).adds[i].kind.tag(),
            ) < 0,
    decreases facts.len(),
{
    if facts.len() > 0 {
        lemma_adds_fresh(base, incoming, facts.drop_last());
        let t0 = tally(base, incoming, facts.drop_last());
        let t = tally(base, incoming, facts);
        assert forall|i: int| 0 <= i < t.adds.len() implies fact_at(
            base.facts@,
            (#[trigger] t.adds[i]).target,
            t.adds[i].kind.tag(),
        ) < 0 by {
            if i < t0.adds.len() {
                assert(t.adds[i] == t0.adds[i]);
            }
        }
    }
}

/// A collaboration merge appends an incoming fact only onto a slot the base left empty: each
/// fact counted as merged lands, after the merge, in its own slot past the base's facts, and
/// none of the base's facts has its target and kind. An incoming fact whose target already
/// holds a fact of its kind, agreeing or not, is never appended, so a merge never gives a
/// target a second fact of a kind the base already had there.
pub proof fn law_merge_fills_only_empty_slots(base: Program, incoming: Program)
    ensures
        ({
            let t = tally(base, incoming, incoming.facts@);
            let after = apply_replacements(base.facts@ + t.adds, t.replaces);
            &&& t.adds.len() == t.merged
            &&& forall|i: int|
                0 <= i < t.merged ==> after[base.facts@.len() + i] == #[trigger] t.adds[i]
                    && forall|j: int|
                    0 <= j < base.facts@.len() ==> !(base.facts@[j].target == t.adds[i].target
                        && base.facts@[j].kind.tag() == t.adds[i].kind.tag())
        }),
{
    let t = tally(base, incoming, incoming.facts@);
    let ext = base.facts@ + t.adds;
    let after = apply_replacements(ext, t.replaces);
    lemma_tally_lists(base, incoming, incoming.facts@);
    lemma_adds_fresh(base, incoming, incoming.facts@);
    lemma_replaces_justified(base, incoming, incoming.facts@);
    lemma_replacements_in_place(ext, t.replaces);
    assert forall|i: int| 0 <= i < t.merged implies after[base.facts@.len() + i] == #[trigger] t.adds[i]
        && forall|j: int|
        0 <= j < base.facts@.len() ==> !(base.facts@[j].target == t.adds[i].target
            && base.facts@[j].kind.tag() == t.adds[i].kind.tag()) by {
        let x = t.adds[i];
        lemma_fact_at(base.facts@, x.target, x.kind.tag());
        let p = base.facts@.len() + i;
        assert(ext[p] == x);
        if after[p] != x {
            let q = choose|q: int|
                0 <= q < t.replaces.len() && after[p] == t.replaces[q] && t.replaces[q].target == ext[p].target
                    && t.replaces[q].kind.tag() == ext[p].kind.tag();
            assert(justified(base.facts@, t.replaces[q]));
        }
    }
}

} // verus!

verus! {

/// An incoming fact the base already agrees with changes nothing: when its target names an
/// incoming function whose signature exactly one base function (`k`) carries, and the first base
/// fact of its kind on that function (`j`) says the same thing, settling it after any other
/// incoming facts leaves every count and every list of the merge as it was.
pub proof fn law_agreement_changes_nothing(
    base: Program,
    incoming: Program,
    facts: Seq<UserFact>,
    g: UserFact,
    k: int,
    j: int,
)
    requires
        fn_by_id(incoming.functions@, g.target) is Some,
        sole_with_sig(base.functions@, sig(fn_by_id(incoming.functions@, g.target).unwrap()), k),
        0 <= j < base.facts@.len(),
        base.facts@[j].target == base.functions@[k].id,
        base.facts@[j].kind.tag() == g.kind.tag(),
        base.facts@[j].kind.text() == g.kind.text(),
        forall|i: int|
            0 <= i < j ==> !((#[trigger] base.facts@[i]).target == base.functions@[k].id
                && base.facts@[i].kind.tag() == g.kind.tag()),
    ensures
        tally(base, incoming, facts.push(g)) == tally(base, incoming, facts),
{
    let f = fn_by_id(incoming.functions@, g.target).unwrap();
    law_unique_sig_match_is_sole(base.functions@, f);
    let tid = base.functions@[k].id;
    lemma_fact_at_is(base.facts@, tid, g.kind.tag(), j);
    assert(settle(base, incoming, g) == Settle::Agreed);
    assert(facts.push(g).drop_last() =~= facts);
}

} // verus!

verus! {

/// An incoming fact that cannot be re-anchored is flagged and nothing else: when its target names
/// no incoming function, or that function's signature is carried by no base function or by
/// several, settling it only adds one to the flagged count.
pub proof fn law_unanchored_fact_is_flagged(base: Program, incoming: Program, facts: Seq<UserFact>, g: UserFact)
    requires
        fn_by_id(incoming.functions@, g.target) is None || !exists|k: int|
            sole_with_sig(base.functions@, sig(fn_by_id(incoming.functions@, g.target).unwrap()), k),
    ensures
        tally(base, incoming, facts.push(g)) == (Tally {
            flagged: tally(base, incoming, facts).flagged + 1,
            ..tally(base, incoming, facts)
        }),
{
    if fn_by_id(incoming.functions@, g.target) is Some {
        law_unique_sig_match_is_sole(base.functions@, fn_by_id(incoming.functions@, g.target).unwrap());
    }
    assert(facts.push(g).drop_last() =~= facts);
}

/// An incoming fact re-anchored onto a base function (the one, `k`, carrying its function's
/// signature) that holds no fact of its kind is merged: it is appended, re-targeted onto that
/// function, and counted as merged, and nothing else changes.
pub proof fn law_fact_on_empty_slot_is_added(
    base: Program,
    incoming: Program,
    facts: Seq<UserFact>,
    g: UserFact,
    k: int,
)
    requires
        fn_by_id(incoming.functions@, g.target) is Some,
        sole_with_sig(base.functions@, sig(fn_by_id(incoming.functions@, g.target).unwrap()), k),
        forall|i: int|
            0 <= i < base.facts@.len() ==> !((#[trigger] base.facts@[i]).target == base.functions@[k].id
                && base.facts@[i].kind.tag() == g.kind.tag()),
    ensures
        tally(base, incoming, facts.push(g)) == (Tally {
            merged: tally(base, incoming, facts).merged + 1,
            adds: tally(base, incoming, facts).adds.push(UserFact { target: base.functions@[k].id, ..g }),
            ..tally(base, incoming, facts)
        }),
{
    let f = fn_by_id(incoming.functions@, g.target).unwrap();
    law_unique_sig_match_is_sole(base.functions@, f);
    lemma_fact_at_is(base.facts@, base.functions@[k].id, g.kind.tag(), -1);
    assert(facts.push(g).drop_last() =~= facts);
}

/// A disagreement is settled by confidence, and only a clear margin settles it: when an incoming
/// fact re-anchored onto base function `k` meets, as the first base fact of its kind there
/// (`j`), one that says something else, a confidence more than [`CONFIDENCE_MARGIN`] above the
/// base's replaces it (re-targeted), one more than the margin below leaves the base's standing,
/// and either counts one resolution; anything within the margin is one conflict, recorded with
/// both sides, and changes no fact.
pub proof fn law_disagreement_is_settled_by_confidence(
    base: Program,
    incoming: Program,
    facts: Seq<UserFact>,
    g: UserFact,
    k: int,
    j: int,
)
    requires
        fn_by_id(incoming.functions@, g.target) is Some,
        sole_with_sig(base.functions@, sig(fn_by_id(incoming.functions@, g.target).unwrap()), k),
        0 <= j < base.facts@.len(),
        base.facts@[j].target == base.functions@[k].id,
        base.facts@[j].kind.tag() == g.kind.tag(),
        base.facts@[j].kind.text() != g.kind.text(),
        forall|i: int|
            0 <= i < j ==> !((#[trigger] base.facts@[i]).target == base.functions@[k].id
                && base.facts@[i].kind.tag() == g.kind.tag()),
    ensures
        ({
            let t = tally(base, incoming, facts);
            let after = tally(base, incoming, facts.push(g));
            let b = base.facts@[j].provenance.confidence as int;
            let c = g.provenance.confidence as int;
            let tid = base.functions@[k].id;
            &&& c > b + CONFIDENCE_MARGIN ==> after == (Tally {
                resolved: t.resolved + 1,
                replaces: t.replaces.push(UserFact { target: tid, ..g }),
                ..t
            })
            &&& b > c + CONFIDENCE_MARGIN ==> after == (Tally { resolved: t.resolved + 1, ..t })
            &&& (b - CONFIDENCE_MARGIN <= c <= b + CONFIDENCE_MARGIN) ==> after == (Tally {
                conflicts: t.conflicts + 1,
                conflict_list: t.conflict_list.push(
                    Conflict { target: tid, ours: base.facts@[j].kind, theirs: g.kind },
                ),
                ..t
            })
        }),
{
    let f = fn_by_id(incoming.functions@, g.target).unwrap();
    law_unique_sig_match_is_sole(base.functions@, f);
    lemma_fact_at_is(base.facts@, base.functions@[k].id, g.kind.tag(), j);
    assert(facts.push(g).drop_last() =~= facts);
}

} // verus!
