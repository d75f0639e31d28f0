//! The A/B parity differ: does the model one leg reports for a binary equal what the other leg
//! reports? Each program is reduced to a [`Canonical`] form keyed by **entry address** — never by
//! stable id (ids are minted per materialization) and never by program name — and every field
//! that disagrees is reported. The check is repeated on the client port's `Detail` projection, so
//! the output a head shows is compared too. A [`Report`] never hides a difference.

use std::collections::{BTreeMap, BTreeSet};

use vstd::prelude::*;
use vstd::relations::sorted_by;
use vstd::string::*;

use crate::model::{copy_histogram, copy_strings, copy_vec, index_of, Function, Program, StableId};
use crate::port::{
    addr_set, callers_of, is_view_of, name_text, names_of, project_all, summary_text, Zoom,
};
use crate::render::{debug_escaped, debug_list, Rendered};
use crate::text::{
    compare_text, decimal, hex_prefixed, hex_string, lemma_text_lt_asymmetric,
    lemma_text_lt_irreflexive, lemma_text_lt_total, lemma_text_lt_transitive, sort_strings,
    text_lt, text_order,
};

verus! {

// ---------------------------------------------------------------------------------------------
// Ordered sets as strictly increasing sequences
// ---------------------------------------------------------------------------------------------

/// `lt` is a strict order in which any two distinct values are comparable.
pub open spec fn strict_total<T>(lt: spec_fn(T, T) -> bool) -> bool {
    &&& forall|a: T, b: T| #[trigger] lt(a, b) ==> !lt(b, a)
    &&& forall|a: T, b: T| a != b ==> #[trigger] lt(a, b) || lt(b, a)
}

/// `k` lists exactly the members of `s`, each once, in increasing `lt` order.
pub open spec fn lists_in_order<T>(k: Seq<T>, s: Set<T>, lt: spec_fn(T, T) -> bool) -> bool {
    sorted_by(k, lt) && k.to_set() == s
}

/// The members of `s` in increasing `lt` order.
pub open spec fn in_order<T>(s: Set<T>, lt: spec_fn(T, T) -> bool) -> Seq<T> {
    choose|k: Seq<T>| lists_in_order(k, s, lt)
}

/// Two strictly sorted sequences with the same members are equal.
pub proof fn lemma_in_order_unique<T>(x: Seq<T>, y: Seq<T>, lt: spec_fn(T, T) -> bool)
    requires
        strict_total(lt),
        sorted_by(x, lt),
        sorted_by(y, lt),
        x.to_set() == y.to_set(),
    ensures
        x == y,
    decreases x.len(),
{
    if x.len() == 0 {
        if y.len() > 0 {
            assert(y.to_set().contains(y[0]));
        }
        assert(x =~= y);
    } else {
        assert(x.to_set().contains(x[0]));
        assert(y.len() > 0);
        assert(y.to_set().contains(y[0]));
        let i = choose|i: int| 0 <= i < x.len() && x[i] == y[0];
        let j = choose|j: int| 0 <= j < y.len() && y[j] == x[0];
        if i > 0 && j > 0 {
            assert(lt(x[0], x[i]));
            assert(lt(y[0], y[j]));
        } else if i > 0 {
            assert(lt(x[0], x[i]));
        } else if j > 0 {
            assert(lt(y[0], y[j]));
        }
        assert(x[0] == y[0]);
        let x1 = x.drop_first();
        let y1 = y.drop_first();
        assert forall|a: T| x1.to_set().contains(a) implies y1.to_set().contains(a) by {
            let p = choose|p: int| 0 <= p < x1.len() && x1[p] == a;
            assert(x[p + 1] == a);
            assert(lt(x[0], x[p + 1]));
            assert(y.to_set().contains(a));
            let q = choose|q: int| 0 <= q < y.len() && y[q] == a;
            if q == 0 {
                assert(lt(x[0], a) && a == x[0]);
            }
            assert(y1[q - 1] == a);
        }
        assert forall|a: T| y1.to_set().contains(a) implies x1.to_set().contains(a) by {
            let p = choose|p: int| 0 <= p < y1.len() && y1[p] == a;
            assert(y[p + 1] == a);
            assert(lt(y[0], y[p + 1]));
            assert(x.to_set().contains(a));
            let q = choose|q: int| 0 <= q < x.len() && x[q] == a;
            if q == 0 {
                assert(lt(y[0], a) && a == y[0]);
            }
            assert(x1[q - 1] == a);
        }
        assert(x1.to_set() =~= y1.to_set());
        lemma_in_order_unique(x1, y1, lt);
        assert(x =~= seq![x[0]] + x1);
        assert(y =~= seq![y[0]] + y1);
    }
}

/// A witness fixes [`in_order`].
pub proof fn lemma_in_order_is<T>(k: Seq<T>, s: Set<T>, lt: spec_fn(T, T) -> bool)
    requires
        strict_total(lt),
        lists_in_order(k, s, lt),
    ensures
        in_order(s, lt) == k,
{
    let c = in_order(s, lt);
    assert(lists_in_order(c, s, lt));
    lemma_in_order_unique(c, k, lt);
}

/// The order of entry addresses.
pub open spec fn addr_lt() -> spec_fn(u64, u64) -> bool {
    |a: u64, b: u64| a < b
}

/// Add `x` to a strictly increasing list of addresses, keeping it strictly increasing.
pub(crate) fn insert_addr(v: &mut Vec<u64>, x: u64)
    requires
        sorted_by(old(v)@, addr_lt()),
    ensures
        sorted_by(final(v)@, addr_lt()),
        final(v)@.to_set() == old(v)@.to_set().insert(x),
{
    let mut k: usize = 0;
    loop
        invariant
            k <= v@.len(),
            v@ == old(v)@,
            sorted_by(v@, addr_lt()),
            forall|j: int| 0 <= j < k ==> v@[j] < x,
        ensures
            k <= v@.len(),
            v@ == old(v)@,
            forall|j: int| 0 <= j < k ==> v@[j] < x,
            k < v@.len() ==> v@[k as int] > x,
        decreases v@.len() - k,
    {
        if k >= v.len() {
            break;
        }
        if v[k] == x {
            assert(v@.to_set().insert(x) =~= v@.to_set());
            return;
        }
        if v[k] > x {
            break;
        }
        k += 1;
    }
    let ghost before = v@;
    v.insert(k, x);
    assert(sorted_by(v@, addr_lt())) by {
        assert forall|i: int, j: int| 0 <= i < j < v@.len() implies #[trigger] (addr_lt())(
            v@[i],
            v@[j],
        ) by {
            if j < k {
                assert(v@[i] == before[i] && v@[j] == before[j]);
            } else if j == k {
                assert(v@[i] == before[i]);
            } else if i == k {
                assert(v@[j] == before[j - 1]);
                assert(before[k as int] > x);
                if j - 1 > k {
                    assert((addr_lt())(before[k as int], before[j - 1]));
                }
            } else if i < k {
                assert(v@[i] == before[i] && v@[j] == before[j - 1]);
            } else {
                assert(v@[i] == before[i - 1] && v@[j] == before[j - 1]);
            }
        }
    }
    assert forall|a: u64| v@.to_set().contains(a) <==> before.to_set().insert(x).contains(a) by {
        if v@.to_set().contains(a) {
            let p = choose|p: int| 0 <= p < v@.len() && v@[p] == a;
            if p < k {
                assert(before[p] == a);
            } else if p > k {
                assert(before[p - 1] == a);
            }
        }
        if before.to_set().contains(a) {
            let p = choose|p: int| 0 <= p < before.len() && before[p] == a;
            if p < k {
                assert(v@[p] == a);
            } else {
                assert(v@[p + 1] == a);
            }
        }
        if a == x {
            assert(v@[k as int] == x);
        }
    }
    assert(v@.to_set() =~= before.to_set().insert(x));
}

// ---------------------------------------------------------------------------------------------
// Canonical form
// ---------------------------------------------------------------------------------------------

/// One function in canonical, address-keyed, id-free form — every field the engine emits and
/// Scylla persists. Program name and stable ids are deliberately absent.
#[derive(Debug, Clone, PartialEq, Eq)]
pub struct CanonicalFunction {
    pub name: String,
    pub size: u64,
    pub bb_count: u32,
    /// Callee **entry addresses** (sorted, deduped) — the call graph without ids.
    pub callees: Vec<u64>,
    pub fingerprint: u64,
    pub mnemonics: Vec<(String, u32)>,
    pub trigrams: Vec<(String, u32)>,
    pub string_refs: Vec<String>,
    pub imports: Vec<String>,
    pub callee_names: Vec<String>,
    pub bsim_vector: Vec<(u32, u32)>,
}

/// A whole program in canonical form.
#[derive(Debug, Clone, PartialEq, Eq)]
pub struct Canonical {
    pub language: String,
    pub functions: BTreeMap<u64, CanonicalFunction>,
}

/// The entry address of the last function of `fs` whose id is `id` (a later duplicate wins).
pub open spec fn addr_of_id(fs: Seq<Function>, id: StableId) -> Option<u64>
    decreases fs.len(),
{
    if fs.len() == 0 {
        None
    } else if fs.last().id == id {
        Some(fs.last().addr)
    } else {
        addr_of_id(fs.drop_last(), id)
    }
}

/// Index of the last function of `fs` at entry address `a`, or `-1`.
pub open spec fn last_at(fs: Seq<Function>, a: u64) -> int
    decreases fs.len(),
{
    if fs.len() == 0 {
        -1
    } else if fs.last().addr == a {
        fs.len() - 1
    } else {
        last_at(fs.drop_last(), a)
    }
}

/// The entry addresses of `f`'s callees that resolve to a function of `fs`.
pub open spec fn callee_addrs(fs: Seq<Function>, f: Function) -> Set<u64> {
    Set::new(
        |a: u64| exists|i: int| 0 <= i < f.callees@.len() && addr_of_id(fs, f.callees@[i]) == Some(a),
    )
}

/// `cf` is the canonical form of `f`, a function of `fs`.
pub open spec fn is_canonical_fn(cf: CanonicalFunction, fs: Seq<Function>, f: Function) -> bool {
    &&& cf.name == f.name
    &&& cf.size == f.size
    &&& cf.bb_count == f.bb_count
    &&& lists_in_order(cf.callees@, callee_addrs(fs, f), addr_lt())
    &&& cf.fingerprint == f.fingerprint
    &&& cf.mnemonics@ == f.mnemonics@
    &&& cf.trigrams@ == f.trigrams@
    &&& cf.string_refs@ == f.string_refs@
    &&& cf.imports@ == f.imports@
    &&& cf.callee_names@ == f.callee_names@
    &&& cf.bsim_vector@ == f.bsim_vector@
}

/// `c` is the canonical form of `p`: one entry per entry address, holding the last function
/// there.
pub open spec fn is_canonical(c: Canonical, p: Program) -> bool {
    &&& c.language == p.language
    &&& c.functions@.dom() == addr_set(p.functions@)
    &&& forall|a: u64|
        #[trigger] c.functions@.contains_key(a) ==> is_canonical_fn(
            c.functions@[a],
            p.functions@,
            p.functions@[last_at(p.functions@, a)],
        )
}

proof fn lemma_last_at(fs: Seq<Function>, a: u64)
    ensures
        -1 <= last_at(fs, a) < fs.len(),
        last_at(fs, a) >= 0 ==> fs[last_at(fs, a)].addr == a,
        last_at(fs, a) >= 0 ==> forall|j: int| last_at(fs, a) < j < fs.len() ==> fs[j].addr != a,
        last_at(fs, a) < 0 ==> forall|j: int| 0 <= j < fs.len() ==> fs[j].addr != a,
    decreases fs.len(),
{
    if fs.len() > 0 {
        lemma_last_at(fs.drop_last(), a);
        assert(forall|j: int| 0 <= j < fs.len() - 1 ==> fs.drop_last()[j] == fs[j]);
    }
}

/// The map from stable id to entry address, a later duplicate winning.
fn id_addrs(fs: &Vec<Function>) -> (m: BTreeMap<u64, u64>)
    ensures
        forall|k: u64|
            #![trigger m@.contains_key(k)]
            m@.contains_key(k) == addr_of_id(fs@, StableId(k)).is_some() && (m@.contains_key(k)
                ==> addr_of_id(fs@, StableId(k)) == Some(m@[k])),
{
    let mut m: BTreeMap<u64, u64> = BTreeMap::new();
    let mut i: usize = 0;
    while i < fs.len()
        invariant
            i <= fs@.len(),
            forall|k: u64|
                #![trigger m@.contains_key(k)]
                m@.contains_key(k) == addr_of_id(fs@.take(i as int), StableId(k)).is_some() && (
                m@.contains_key(k) ==> addr_of_id(fs@.take(i as int), StableId(k)) == Some(
                    m@[k],
                )),
        decreases fs@.len() - i,
    {
        assert(fs@.take(i + 1).drop_last() =~= fs@.take(i as int));
        m.insert(fs[i].id.0, fs[i].addr);
        i += 1;
    }
    assert(fs@.take(fs@.len() as int) =~= fs@);
    m
}

impl Canonical {
    /// Reduce a [`Program`] to canonical form. A callee whose id does not resolve to a function
    /// in the same program is dropped rather than invented.
    pub fn from_program(p: &Program) -> (c: Self)
        ensures
            is_canonical(c, *p),
    {
        let addr_of = id_addrs(&p.functions);
        let fs = &p.functions;
        let mut functions: BTreeMap<u64, CanonicalFunction> = BTreeMap::new();
        let mut i: usize = 0;
        while i < fs.len()
            invariant
                i <= fs@.len(),
                fs == &p.functions,
                forall|k: u64|
                    #![trigger addr_of@.contains_key(k)]
                    addr_of@.contains_key(k) == addr_of_id(fs@, StableId(k)).is_some() && (
                    addr_of@.contains_key(k) ==> addr_of_id(fs@, StableId(k)) == Some(
                        addr_of@[k],
                    )),
                functions@.dom() == addr_set(fs@.take(i as int)),
                forall|a: u64|
                    #[trigger] functions@.contains_key(a) ==> is_canonical_fn(
                        functions@[a],
                        fs@,
                        fs@[last_at(fs@.take(i as int), a)],
                    ),
            decreases fs@.len() - i,
        {
            let f = &fs[i];
            let mut callees: Vec<u64> = Vec::new();
            let mut j: usize = 0;
            while j < f.callees.len()
                invariant
                    j <= f.callees@.len(),
                    f == fs@[i as int],
                    forall|k: u64|
                        #![trigger addr_of@.contains_key(k)]
                        addr_of@.contains_key(k) == addr_of_id(fs@, StableId(k)).is_some() && (
                        addr_of@.contains_key(k) ==> addr_of_id(fs@, StableId(k)) == Some(
                            addr_of@[k],
                        )),
                    sorted_by(callees@, addr_lt()),
                    callees@.to_set() == Set::new(
                        |a: u64|
                            exists|t: int|
                                0 <= t < j && addr_of_id(fs@, f.callees@[t]) == Some(a),
                    ),
                decreases f.callees@.len() - j,
            {
                let ghost before = callees@.to_set();
                let c = f.callees[j];
                assert(addr_of@.contains_key(c.0) == addr_of_id(fs@, StableId(c.0)).is_some());
                match addr_of.get(&c.0) {
                    Some(a) => {
                        insert_addr(&mut callees, *a);
                    },
                    None => {},
                }
                assert(callees@.to_set() =~= Set::new(
                    |a: u64|
                        exists|t: int| 0 <= t < j + 1 && addr_of_id(fs@, f.callees@[t]) == Some(a),
                )) by {
                    assert forall|a: u64|
                        exists|t: int|
                            0 <= t < j + 1 && addr_of_id(fs@, f.callees@[t]) == Some(
                                a,
                            ) implies #[trigger] callees@.to_set().contains(a) by {
                        let t = choose|t: int|
                            0 <= t < j + 1 && addr_of_id(fs@, f.callees@[t]) == Some(a);
                        if t < j {
                            assert(before.contains(a));
                        }
                    }
                }
                j += 1;
            }
            assert(callees@.to_set() =~= callee_addrs(fs@, *f));
            let cf = CanonicalFunction {
                name: f.name.clone(),
                size: f.size,
                bb_count: f.bb_count,
                callees,
                fingerprint: f.fingerprint,
                mnemonics: copy_histogram(&f.mnemonics),
                trigrams: copy_histogram(&f.trigrams),
                string_refs: copy_strings(&f.string_refs),
                imports: copy_strings(&f.imports),
                callee_names: copy_strings(&f.callee_names),
                bsim_vector: copy_vec(&f.bsim_vector),
            };
            functions.insert(f.addr, cf);
            proof {
                let t0 = fs@.take(i as int);
                let t1 = fs@.take(i + 1);
                assert(t1.drop_last() =~= t0);
                assert(functions@.dom() =~= addr_set(t1)) by {
                    assert forall|a: u64| addr_set(t1).contains(a) implies #[trigger] functions@.dom().contains(a) by {
                        let q = choose|q: int| 0 <= q < t1.len() && t1[q].addr == a;
                        if q < i {
                            assert(t0[q].addr == a);
                        }
                    }
                    assert forall|a: u64| functions@.dom().contains(a) implies #[trigger] addr_set(t1).contains(a) by {
                        if a == fs@[i as int].addr {
                            assert(t1[i as int].addr == a);
                        } else {
                            let q = choose|q: int| 0 <= q < t0.len() && t0[q].addr == a;
                            assert(t1[q].addr == a);
                        }
                    }
                }
            }
            i += 1;
        }
        assert(fs@.take(fs@.len() as int) =~= fs@);
        Canonical { language: p.language.clone(), functions }
    }
}

/// The entry addresses of `p`'s functions, each once, in increasing order.
fn sorted_addrs(p: &Program) -> (r: Vec<u64>)
    ensures
        lists_in_order(r@, addr_set(p.functions@), addr_lt()),
{
    let fs = &p.functions;
    let mut out: Vec<u64> = Vec::new();
    let mut i: usize = 0;
    while i < fs.len()
        invariant
            i <= fs@.len(),
            fs == &p.functions,
            sorted_by(out@, addr_lt()),
            out@.to_set() == addr_set(fs@.take(i as int)),
        decreases fs@.len() - i,
    {
        insert_addr(&mut out, fs[i].addr);
        proof {
            let t0 = fs@.take(i as int);
            let t1 = fs@.take(i + 1);
            assert(out@.to_set() =~= addr_set(t1)) by {
                assert forall|a: u64| addr_set(t1).contains(a) implies #[trigger] out@.to_set().contains(a) by {
                    let q = choose|q: int| 0 <= q < t1.len() && t1[q].addr == a;
                    if q < i {
                        assert(t0[q].addr == a);
                    }
                }
                assert forall|a: u64| out@.to_set().contains(a) implies #[trigger] addr_set(t1).contains(a) by {
                    if a == fs@[i as int].addr {
                        assert(t1[i as int].addr == a);
                    } else {
                        let q = choose|q: int| 0 <= q < t0.len() && t0[q].addr == a;
                        assert(t1[q].addr == a);
                    }
                }
            }
        }
        i += 1;
    }
    assert(fs@.take(fs@.len() as int) =~= fs@);
    out
}

} // verus!

verus! {

// ---------------------------------------------------------------------------------------------
// The report
// ---------------------------------------------------------------------------------------------

/// One field that disagrees between the legs, on one function.
#[derive(Debug, Clone, PartialEq, Eq)]
pub struct FieldMismatch {
    pub addr: u64,
    pub name: String,
    pub field: &'static str,
    pub inside: String,
    pub outside: String,
}

impl DeepView for FieldMismatch {
    type V = (u64, Seq<char>, Seq<char>, Seq<char>, Seq<char>);

    open spec fn deep_view(&self) -> Self::V {
        (self.addr, self.name@, self.field@, self.inside@, self.outside@)
    }
}

/// A function masked out of a comparison as engine-nondeterministic.
#[derive(Debug, Clone, PartialEq, Eq)]
pub struct MaskedFunction {
    pub addr: u64,
    pub name: String,
}

impl DeepView for MaskedFunction {
    type V = (u64, Seq<char>);

    open spec fn deep_view(&self) -> Self::V {
        (self.addr, self.name@)
    }
}

/// The parity report for one binary. Empty vectors everywhere = parity.
#[derive(Debug, Clone, Default, PartialEq, Eq)]
pub struct Report {
    pub functions_inside: usize,
    pub functions_outside: usize,
    /// `(inside, outside)` when the language ids differ; `None` when they agree.
    pub language_mismatch: Option<(String, String)>,
    /// Entry addresses present only in the inside leg.
    pub only_inside: Vec<u64>,
    /// Entry addresses present only in the outside leg.
    pub only_outside: Vec<u64>,
    /// Per-field disagreements on functions both legs have.
    pub field_mismatches: Vec<FieldMismatch>,
    /// Disagreements in the client port's `Detail` projection (what a head shows).
    pub projection_mismatches: Vec<String>,
    /// Functions excluded from the field and projection checks as engine-nondeterministic —
    /// listed, never hidden. Only addresses that occur in both compared programs are recorded.
    pub masked: Vec<MaskedFunction>,
}

/// Nothing differs: languages, function sets, fields and projected views all agree.
pub open spec fn parity(r: Report) -> bool {
    &&& r.language_mismatch is None
    &&& r.only_inside@.len() == 0
    &&& r.only_outside@.len() == 0
    &&& r.field_mismatches@.len() == 0
    &&& r.projection_mismatches@.len() == 0
}

impl Report {
    /// True only when the legs agree on every function, every field, and every projected view.
    pub fn is_parity(&self) -> (r: bool)
        ensures
            r == parity(*self),
    {
        self.language_mismatch.is_none() && self.only_inside.len() == 0
            && self.only_outside.len() == 0 && self.field_mismatches.len() == 0
            && self.projection_mismatches.len() == 0
    }
}

/// One reported mismatch: address, function name, field, inside rendering, outside rendering.
pub type MismatchRow = (u64, Seq<char>, Seq<char>, Seq<char>, Seq<char>);

/// The row for one field: present exactly when the two values differ.
pub open spec fn field_row(
    addr: u64,
    name: Seq<char>,
    field: Seq<char>,
    differ: bool,
    a: Seq<char>,
    b: Seq<char>,
) -> Seq<MismatchRow> {
    if differ {
        seq![(addr, name, field, a, b)]
    } else {
        Seq::empty()
    }
}

/// Record a mismatch on `field` when `a` and `b` differ.
fn push_if_ne<T: Rendered>(
    out: &mut Vec<FieldMismatch>,
    addr: u64,
    name: &str,
    field: &'static str,
    a: &T,
    b: &T,
)
    ensures
        final(out).deep_view() == old(out).deep_view() + field_row(
            addr,
            name@,
            field@,
            a.deep_view() != b.deep_view(),
            a.rendering(),
            b.rendering(),
        ),
{
    let ghost before = out.deep_view();
    if !a.equals(b) {
        let m = FieldMismatch {
            addr,
            name: String::from_str(name),
            field,
            inside: a.render(),
            outside: b.render(),
        };
        out.push(m);
        assert(out.deep_view() =~= before + seq![m.deep_view()]);
    } else {
        assert(out.deep_view() =~= before);
    }
}

/// The canonical callee list of `f`: its resolvable callee addresses, increasing.
pub open spec fn canon_callees(fs: Seq<Function>, f: Function) -> Seq<u64> {
    in_order(callee_addrs(fs, f), addr_lt())
}

/// `{:?}` of a list of addresses.
pub open spec fn render_addrs(s: Seq<u64>) -> Seq<char> {
    crate::render::debug_list(s.map_values(|x: u64| crate::text::decimal(x as nat)))
}

/// The function of `p` a canonical entry at address `a` holds.
pub open spec fn at_addr(p: Program, a: u64) -> Function {
    p.functions@[last_at(p.functions@, a)]
}

/// `acc` followed by the mismatch rows of the identity fields at `addr`: name, size, block
/// count, callees and fingerprint.
pub open spec fn add_shape_mismatches(acc: Seq<MismatchRow>, addr: u64, pa: Program, pb: Program) -> Seq<MismatchRow> {
    let fa = at_addr(pa, addr);
    let fb = at_addr(pb, addr);
    let ca = canon_callees(pa.functions@, fa);
    let cb = canon_callees(pb.functions@, fb);
    let n = fa.name@;
    acc + field_row(addr, n, "name"@, fa.name@ != fb.name@, fa.name.rendering(), fb.name.rendering())
        + field_row(addr, n, "size"@, fa.size != fb.size, fa.size.rendering(), fb.size.rendering())
        + field_row(
        addr,
        n,
        "bb_count"@,
        fa.bb_count != fb.bb_count,
        fa.bb_count.rendering(),
        fb.bb_count.rendering(),
    ) + field_row(addr, n, "callees"@, ca != cb, render_addrs(ca), render_addrs(cb)) + field_row(
        addr,
        n,
        "fingerprint"@,
        fa.fingerprint != fb.fingerprint,
        fa.fingerprint.rendering(),
        fb.fingerprint.rendering(),
    )
}

/// `acc` followed by the mismatch rows of the feature fields at `addr`: mnemonics, trigrams,
/// string references, imports, callee names and the BSim vector.
pub open spec fn add_feature_mismatches(acc: Seq<MismatchRow>, addr: u64, pa: Program, pb: Program) -> Seq<MismatchRow> {
    let fa = at_addr(pa, addr);
    let fb = at_addr(pb, addr);
    let n = fa.name@;
    acc + field_row(
        addr,
        n,
        "mnemonics"@,
        fa.mnemonics.deep_view() != fb.mnemonics.deep_view(),
        fa.mnemonics.rendering(),
        fb.mnemonics.rendering(),
    ) + field_row(
        addr,
        n,
        "trigrams"@,
        fa.trigrams.deep_view() != fb.trigrams.deep_view(),
        fa.trigrams.rendering(),
        fb.trigrams.rendering(),
    ) + field_row(
        addr,
        n,
        "string_refs"@,
        fa.string_refs.deep_view() != fb.string_refs.deep_view(),
        fa.string_refs.rendering(),
        fb.string_refs.rendering(),
    ) + field_row(
        addr,
        n,
        "imports"@,
        fa.imports.deep_view() != fb.imports.deep_view(),
        fa.imports.rendering(),
        fb.imports.rendering(),
    ) + field_row(
        addr,
        n,
        "callee_names"@,
        fa.callee_names.deep_view() != fb.callee_names.deep_view(),
        fa.callee_names.rendering(),
        fb.callee_names.rendering(),
    ) + field_row(
        addr,
        n,
        "bsim_vector"@,
        fa.bsim_vector@ != fb.bsim_vector@,
        fa.bsim_vector.rendering(),
        fb.bsim_vector.rendering(),
    )
}

/// `acc` followed by a row for every field on which the two legs' functions at `addr`
/// disagree, in field order.
pub open spec fn add_fn_mismatches(acc: Seq<MismatchRow>, addr: u64, pa: Program, pb: Program) -> Seq<MismatchRow> {
    add_feature_mismatches(add_shape_mismatches(acc, addr, pa, pb), addr, pa, pb)
}

/// The keys of `keys` that `other` lacks, in order.
pub open spec fn absent_from(keys: Seq<u64>, other: Set<u64>) -> Seq<u64>
    decreases keys.len(),
{
    if keys.len() == 0 {
        Seq::empty()
    } else {
        let r = absent_from(keys.drop_last(), other);
        if other.contains(keys.last()) {
            r
        } else {
            r.push(keys.last())
        }
    }
}

/// The masked functions both legs have, by address and inside name, in order.
pub open spec fn masked_rows(keys: Seq<u64>, pa: Program, pb: Program, mask: Set<u64>) -> Seq<
    (u64, Seq<char>),
>
    decreases keys.len(),
{
    if keys.len() == 0 {
        Seq::empty()
    } else {
        let r = masked_rows(keys.drop_last(), pa, pb, mask);
        let k = keys.last();
        if addr_set(pb.functions@).contains(k) && mask.contains(k) {
            r.push((k, at_addr(pa, k).name@))
        } else {
            r
        }
    }
}

/// The field mismatches of the unmasked functions both legs have, in address order.
pub open spec fn mismatch_rows(keys: Seq<u64>, pa: Program, pb: Program, mask: Set<u64>) -> Seq<
    MismatchRow,
>
    decreases keys.len(),
{
    if keys.len() == 0 {
        Seq::empty()
    } else {
        let r = mismatch_rows(keys.drop_last(), pa, pb, mask);
        let k = keys.last();
        if addr_set(pb.functions@).contains(k) && !mask.contains(k) {
            add_fn_mismatches(r, k, pa, pb)
        } else {
            r
        }
    }
}

/// The entry addresses of `p`, increasing.
pub open spec fn addr_keys(p: Program) -> Seq<u64> {
    in_order(addr_set(p.functions@), addr_lt())
}

pub proof fn lemma_addr_lt_strict()
    ensures
        strict_total(addr_lt()),
{
}

/// Compare the identity fields of the two canonical functions at `addr`.
fn push_shape_mismatches(
    m: &mut Vec<FieldMismatch>,
    addr: u64,
    fa: &CanonicalFunction,
    fb: &CanonicalFunction,
    Ghost(pa): Ghost<Program>,
    Ghost(pb): Ghost<Program>,
)
    requires
        is_canonical_fn(*fa, pa.functions@, at_addr(pa, addr)),
        is_canonical_fn(*fb, pb.functions@, at_addr(pb, addr)),
    ensures
        final(m).deep_view() == add_shape_mismatches(old(m).deep_view(), addr, pa, pb),
{
    proof {
        lemma_addr_lt_strict();
        lemma_in_order_is(fa.callees@, callee_addrs(pa.functions@, at_addr(pa, addr)), addr_lt());
        lemma_in_order_is(fb.callees@, callee_addrs(pb.functions@, at_addr(pb, addr)), addr_lt());
        assert(fa.callees@.map_values(|x: u64| x.rendering()) =~= fa.callees@.map_values(
            |x: u64| crate::text::decimal(x as nat),
        ));
        assert(fb.callees@.map_values(|x: u64| x.rendering()) =~= fb.callees@.map_values(
            |x: u64| crate::text::decimal(x as nat),
        ));
        assert(fa.callees.deep_view() =~= fa.callees@);
        assert(fb.callees.deep_view() =~= fb.callees@);
    }
    let ghost m0 = m.deep_view();
    let n = fa.name.as_str();
    push_if_ne(m, addr, n, "name", &fa.name, &fb.name);
    let ghost m1 = m.deep_view();
    push_if_ne(m, addr, n, "size", &fa.size, &fb.size);
    let ghost m2 = m.deep_view();
    push_if_ne(m, addr, n, "bb_count", &fa.bb_count, &fb.bb_count);
    let ghost m3 = m.deep_view();
    push_if_ne(m, addr, n, "callees", &fa.callees, &fb.callees);
    let ghost m4 = m.deep_view();
    push_if_ne(m, addr, n, "fingerprint", &fa.fingerprint, &fb.fingerprint);
}

/// Compare the feature fields of the two canonical functions at `addr`.
fn push_feature_mismatches(
    m: &mut Vec<FieldMismatch>,
    addr: u64,
    fa: &CanonicalFunction,
    fb: &CanonicalFunction,
    Ghost(pa): Ghost<Program>,
    Ghost(pb): Ghost<Program>,
)
    requires
        is_canonical_fn(*fa, pa.functions@, at_addr(pa, addr)),
        is_canonical_fn(*fb, pb.functions@, at_addr(pb, addr)),
    ensures
        final(m).deep_view() == add_feature_mismatches(old(m).deep_view(), addr, pa, pb),
{
    let ghost m0 = m.deep_view();
    proof {
        let fx = at_addr(pa, addr);
        let fy = at_addr(pb, addr);
        lemma_same_view(&fa.mnemonics, &fx.mnemonics);
        lemma_same_view(&fb.mnemonics, &fy.mnemonics);
        lemma_same_view(&fa.trigrams, &fx.trigrams);
        lemma_same_view(&fb.trigrams, &fy.trigrams);
        lemma_same_view(&fa.string_refs, &fx.string_refs);
        lemma_same_view(&fb.string_refs, &fy.string_refs);
        lemma_same_view(&fa.imports, &fx.imports);
        lemma_same_view(&fb.imports, &fy.imports);
        lemma_same_view(&fa.callee_names, &fx.callee_names);
        lemma_same_view(&fb.callee_names, &fy.callee_names);
        lemma_same_view(&fa.bsim_vector, &fx.bsim_vector);
        lemma_same_view(&fb.bsim_vector, &fy.bsim_vector);
        assert(fa.bsim_vector.deep_view() =~= fa.bsim_vector@);
        assert(fb.bsim_vector.deep_view() =~= fb.bsim_vector@);
    }
    let n = fa.name.as_str();
    push_if_ne(m, addr, n, "mnemonics", &fa.mnemonics, &fb.mnemonics);
    push_if_ne(m, addr, n, "trigrams", &fa.trigrams, &fb.trigrams);
    push_if_ne(m, addr, n, "string_refs", &fa.string_refs, &fb.string_refs);
    push_if_ne(m, addr, n, "imports", &fa.imports, &fb.imports);
    push_if_ne(m, addr, n, "callee_names", &fa.callee_names, &fb.callee_names);
    push_if_ne(m, addr, n, "bsim_vector", &fa.bsim_vector, &fb.bsim_vector);
}

/// Vectors with one view render alike and have one deep view.
proof fn lemma_same_view<T: Rendered>(a: &Vec<T>, b: &Vec<T>)
    requires
        a@ == b@,
    ensures
        a.deep_view() == b.deep_view(),
        a.rendering() == b.rendering(),
{
    assert(a.deep_view() =~= b.deep_view());
}

} // verus!

verus! {

/// The language clause of a report: a mismatch is recorded exactly when the ids differ.
pub open spec fn language_reported(r: Report, inside: Program, outside: Program) -> bool {
    match r.language_mismatch {
        None => inside.language@ == outside.language@,
        Some(lm) => inside.language@ != outside.language@ && lm.0@ == inside.language@ && lm.1@
            == outside.language@,
    }
}

/// The model part of a report on `inside` against `outside` with `mask`: counts, language,
/// function sets, masked functions and field mismatches.
pub open spec fn model_reported(r: Report, inside: Program, outside: Program, mask: Set<u64>) -> bool {
    &&& r.functions_inside == addr_set(inside.functions@).len()
    &&& r.functions_outside == addr_set(outside.functions@).len()
    &&& language_reported(r, inside, outside)
    &&& r.only_inside@ == absent_from(addr_keys(inside), addr_set(outside.functions@))
    &&& r.only_outside@ == absent_from(addr_keys(outside), addr_set(inside.functions@))
    &&& r.masked.deep_view() == masked_rows(addr_keys(inside), inside, outside, mask)
    &&& r.field_mismatches.deep_view() == mismatch_rows(addr_keys(inside), inside, outside, mask)
}

/// The whole report on `inside` against `outside` with `mask`: the model part and the rows of
/// the `Detail` projection only one leg shows.
pub open spec fn reported(r: Report, inside: Program, outside: Program, mask: Set<u64>) -> bool {
    &&& model_reported(r, inside, outside, mask)
    &&& r.projection_mismatches.deep_view() == projection_diff(inside, outside, mask)
}

/// Compare the inside and outside programs. Pure: no I/O. A program compared with itself is
/// at parity, and parity means the legs agree on language, entry addresses and every compared
/// field at every address: a report never hides a difference.
pub fn compare(inside: &Program, outside: &Program) -> (r: Report)
    ensures
        reported(r, *inside, *outside, Set::empty()),
        *inside == *outside ==> parity(r),
        parity(r) ==> legs_agree(*inside, *outside, Set::empty()),
{
    let none: BTreeSet<u64> = BTreeSet::new();
    compare_masked(inside, outside, &none)
}

/// The addresses `b` lacks of `ka`, and for those it has, the masked entries and the field
/// mismatches, all in address order.
fn walk_inside(
    ka: &Vec<u64>,
    a: &Canonical,
    b: &Canonical,
    mask: &BTreeSet<u64>,
    Ghost(inside): Ghost<Program>,
    Ghost(outside): Ghost<Program>,
) -> (r: (Vec<u64>, Vec<MaskedFunction>, Vec<FieldMismatch>))
    requires
        is_canonical(*a, inside),
        is_canonical(*b, outside),
        ka@.to_set() == addr_set(inside.functions@),
    ensures
        r.0@ == absent_from(ka@, addr_set(outside.functions@)),
        r.1.deep_view() == masked_rows(ka@, inside, outside, mask@),
        r.2.deep_view() == mismatch_rows(ka@, inside, outside, mask@),
{
    let mut only: Vec<u64> = Vec::new();
    let mut masked: Vec<MaskedFunction> = Vec::new();
    let mut mismatches: Vec<FieldMismatch> = Vec::new();
    let mut i: usize = 0;
    while i < ka.len()
        invariant
            i <= ka@.len(),
            is_canonical(*a, inside),
            is_canonical(*b, outside),
            ka@.to_set() == addr_set(inside.functions@),
            only@ == absent_from(ka@.take(i as int), addr_set(outside.functions@)),
            masked.deep_view() == masked_rows(ka@.take(i as int), inside, outside, mask@),
            mismatches.deep_view() == mismatch_rows(ka@.take(i as int), inside, outside, mask@),
        decreases ka@.len() - i,
    {
        let addr = ka[i];
        assert(ka@.take(i + 1).drop_last() =~= ka@.take(i as int));
        assert(ka@.to_set().contains(addr));
        match b.functions.get(&addr) {
            None => {
                only.push(addr);
            },
            Some(fb) => {
                let fa = match a.functions.get(&addr) {
                    Some(fa) => fa,
                    None => {
                        assert(false);
                        return (only, masked, mismatches);
                    },
                };
                if mask.contains(&addr) {
                    let ghost before = masked.deep_view();
                    let m = MaskedFunction { addr, name: fa.name.clone() };
                    masked.push(m);
                    assert(masked.deep_view() =~= before.push((addr, at_addr(inside, addr).name@)));
                } else {
                    push_shape_mismatches(
                        &mut mismatches,
                        addr,
                        fa,
                        fb,
                        Ghost(inside),
                        Ghost(outside),
                    );
                    push_feature_mismatches(
                        &mut mismatches,
                        addr,
                        fa,
                        fb,
                        Ghost(inside),
                        Ghost(outside),
                    );
                }
            },
        }
        i += 1;
    }
    assert(ka@.take(ka@.len() as int) =~= ka@);
    (only, masked, mismatches)
}

/// The addresses of `kb` that `a` lacks, in order.
fn walk_outside(kb: &Vec<u64>, a: &Canonical, Ghost(inside): Ghost<Program>) -> (r: Vec<u64>)
    requires
        is_canonical(*a, inside),
    ensures
        r@ == absent_from(kb@, addr_set(inside.functions@)),
{
    let mut only: Vec<u64> = Vec::new();
    let mut i: usize = 0;
    while i < kb.len()
        invariant
            i <= kb@.len(),
            is_canonical(*a, inside),
            only@ == absent_from(kb@.take(i as int), addr_set(inside.functions@)),
        decreases kb@.len() - i,
    {
        assert(kb@.take(i + 1).drop_last() =~= kb@.take(i as int));
        if !a.functions.contains_key(&kb[i]) {
            only.push(kb[i]);
        }
        i += 1;
    }
    assert(kb@.take(kb@.len() as int) =~= kb@);
    only
}

pub(crate) proof fn lemma_absent_none(keys: Seq<u64>, other: Set<u64>)
    requires
        forall|i: int| 0 <= i < keys.len() ==> other.contains(#[trigger] keys[i]),
    ensures
        absent_from(keys, other) == Seq::<u64>::empty(),
    decreases keys.len(),
{
    if keys.len() > 0 {
        assert(other.contains(keys[keys.len() - 1]));
        assert forall|i: int| 0 <= i < keys.drop_last().len() implies other.contains(#[trigger] keys.drop_last()[i]) by {
            assert(keys.drop_last()[i] == keys[i]);
        }
        lemma_absent_none(keys.drop_last(), other);
    }
}

proof fn lemma_no_mismatch_rows(keys: Seq<u64>, p: Program, mask: Set<u64>)
    ensures
        mismatch_rows(keys, p, p, mask) == Seq::<MismatchRow>::empty(),
    decreases keys.len(),
{
    if keys.len() > 0 {
        lemma_no_mismatch_rows(keys.drop_last(), p, mask);
        let k = keys.last();
        let e = Seq::<MismatchRow>::empty();
        assert(add_shape_mismatches(e, k, p, p) =~= e);
        assert(add_feature_mismatches(e, k, p, p) =~= e);
    }
}

proof fn lemma_same_leg_parity(r: Report, p: Program, mask: Set<u64>)
    requires
        reported(r, p, p, mask),
        lists_in_order(addr_keys(p), addr_set(p.functions@), addr_lt()),
    ensures
        parity(r),
{
    let keys = addr_keys(p);
    assert forall|i: int| 0 <= i < keys.len() implies addr_set(p.functions@).contains(#[trigger] keys[i]) by {
        assert(keys.to_set().contains(keys[i]));
    }
    lemma_absent_none(keys, addr_set(p.functions@));
    lemma_no_mismatch_rows(keys, p, mask);
    let ra = projected_rows(p, mask);
    assert(ra.difference(ra) =~= Set::<Seq<char>>::empty());
    lemma_text_strict();
    assert(Seq::<Seq<char>>::empty().to_set() =~= Set::<Seq<char>>::empty());
    assert(sorted_by(Seq::<Seq<char>>::empty(), text_strict()));
    assert(lists_in_order(Seq::<Seq<char>>::empty(), Set::<Seq<char>>::empty(), text_strict()));
    lemma_in_order_is(Seq::<Seq<char>>::empty(), Set::<Seq<char>>::empty(), text_strict());
    assert(projection_diff(p, p, mask) =~= Seq::<Seq<char>>::empty());
    assert(r.language_mismatch is None);
    assert(r.only_inside@.len() == 0);
    assert(r.only_outside@.len() == 0);
    assert(r.field_mismatches.deep_view().len() == 0);
    assert(r.field_mismatches@.len() == 0);
    assert(r.projection_mismatches.deep_view().len() == 0);
    assert(r.projection_mismatches@.len() == 0);
}

/// The two legs agree at entry address `a` on every field the checks compare.
pub open spec fn same_at(pa: Program, pb: Program, a: u64) -> bool {
    forall|k: int| 0 <= k < n_flaky_fields() ==> #[trigger] same_in(pa, pb, a, k)
}

pub(crate) proof fn lemma_absent_empty(keys: Seq<u64>, other: Set<u64>)
    requires
        absent_from(keys, other).len() == 0,
    ensures
        forall|i: int| 0 <= i < keys.len() ==> other.contains(#[trigger] keys[i]),
    decreases keys.len(),
{
    if keys.len() > 0 {
        lemma_absent_empty(keys.drop_last(), other);
        assert forall|i: int| 0 <= i < keys.len() implies other.contains(#[trigger] keys[i]) by {
            if i < keys.len() - 1 {
                assert(keys.drop_last()[i] == keys[i]);
            }
        }
    }
}

proof fn lemma_no_rows_same(keys: Seq<u64>, pa: Program, pb: Program, mask: Set<u64>)
    requires
        mismatch_rows(keys, pa, pb, mask).len() == 0,
    ensures
        forall|i: int|
            0 <= i < keys.len() && addr_set(pb.functions@).contains(keys[i]) && !mask.contains(keys[i])
                ==> same_at(pa, pb, #[trigger] keys[i]),
    decreases keys.len(),
{
    if keys.len() > 0 {
        let r = mismatch_rows(keys.drop_last(), pa, pb, mask);
        let k = keys.last();
        if addr_set(pb.functions@).contains(k) && !mask.contains(k) {
            let e = Seq::<MismatchRow>::empty();
            assert(add_shape_mismatches(r, k, pa, pb) =~= r + add_shape_mismatches(e, k, pa, pb));
            assert(add_fn_mismatches(r, k, pa, pb) =~= add_shape_mismatches(r, k, pa, pb) + add_feature_mismatches(
                e,
                k,
                pa,
                pb,
            ));
            assert(r.len() == 0);
            assert(add_shape_mismatches(e, k, pa, pb).len() == 0);
            assert(add_feature_mismatches(e, k, pa, pb).len() == 0);
            assert forall|q: int| 0 <= q < n_flaky_fields() implies #[trigger] same_in(pa, pb, k, q) by {}
        } else {
            assert(r.len() == 0);
        }
        lemma_no_rows_same(keys.drop_last(), pa, pb, mask);
        assert forall|i: int|
            0 <= i < keys.len() && addr_set(pb.functions@).contains(keys[i]) && !mask.contains(keys[i])
                implies same_at(pa, pb, #[trigger] keys[i]) by {
            if i < keys.len() - 1 {
                assert(keys.drop_last()[i] == keys[i]);
            }
        }
    }
}

/// What parity means of the two legs: the same language, the same entry addresses, and at
/// every unmasked address the same value of every compared field.
pub open spec fn legs_agree(inside: Program, outside: Program, mask: Set<u64>) -> bool {
    &&& inside.language@ == outside.language@
    &&& addr_set(inside.functions@) == addr_set(outside.functions@)
    &&& forall|a: u64|
        addr_set(inside.functions@).contains(a) && !mask.contains(a) ==> #[trigger] same_at(inside, outside, a)
}

proof fn lemma_parity_means_agreement(
    r: Report,
    inside: Program,
    outside: Program,
    mask: Set<u64>,
    ka: Seq<u64>,
    kb: Seq<u64>,
)
    requires
        reported(r, inside, outside, mask),
        parity(r),
        lists_in_order(ka, addr_set(inside.functions@), addr_lt()),
        lists_in_order(kb, addr_set(outside.functions@), addr_lt()),
        addr_keys(inside) == ka,
        addr_keys(outside) == kb,
    ensures
        legs_agree(inside, outside, mask),
{
    lemma_absent_empty(ka, addr_set(outside.functions@));
    lemma_absent_empty(kb, addr_set(inside.functions@));
    assert(r.field_mismatches.deep_view().len() == r.field_mismatches@.len());
    lemma_no_rows_same(ka, inside, outside, mask);
    assert forall|a: u64| addr_set(inside.functions@).contains(a) implies addr_set(outside.functions@).contains(a) by {
        assert(ka.to_set().contains(a));
        let i = choose|i: int| 0 <= i < ka.len() && ka[i] == a;
        assert(addr_set(outside.functions@).contains(ka[i]));
    }
    assert forall|a: u64| addr_set(outside.functions@).contains(a) implies addr_set(inside.functions@).contains(a) by {
        assert(kb.to_set().contains(a));
        let i = choose|i: int| 0 <= i < kb.len() && kb[i] == a;
        assert(addr_set(inside.functions@).contains(kb[i]));
    }
    assert(addr_set(inside.functions@) =~= addr_set(outside.functions@));
    assert forall|a: u64|
        addr_set(inside.functions@).contains(a) && !mask.contains(a) implies #[trigger] same_at(inside, outside, a) by {
        assert(ka.to_set().contains(a));
        let i = choose|i: int| 0 <= i < ka.len() && ka[i] == a;
        assert(addr_set(outside.functions@).contains(ka[i]));
    }
}

/// The rows of `rows` whose address `mask` does not hold, in order.
pub open spec fn unmasked(rows: Seq<MismatchRow>, mask: Set<u64>) -> Seq<MismatchRow>
    decreases rows.len(),
{
    if rows.len() == 0 {
        Seq::empty()
    } else if mask.contains(rows.last().0) {
        unmasked(rows.drop_last(), mask)
    } else {
        unmasked(rows.drop_last(), mask).push(rows.last())
    }
}

proof fn lemma_unmasked_add(a: Seq<MismatchRow>, b: Seq<MismatchRow>, mask: Set<u64>)
    ensures
        unmasked(a + b, mask) == unmasked(a, mask) + unmasked(b, mask),
    decreases b.len(),
{
    if b.len() == 0 {
        assert(a + b =~= a);
        assert(unmasked(a, mask) + unmasked(b, mask) =~= unmasked(a, mask));
    } else {
        lemma_unmasked_add(a, b.drop_last(), mask);
        assert((a + b).drop_last() =~= a + b.drop_last());
        assert((a + b).last() == b.last());
        if !mask.contains(b.last().0) {
            assert(unmasked(a, mask) + unmasked(b, mask) =~= (unmasked(a, mask) + unmasked(b.drop_last(), mask)).push(
                b.last(),
            ));
        }
    }
}

proof fn lemma_unmasked_one_addr(rows: Seq<MismatchRow>, k: u64, mask: Set<u64>)
    requires
        all_at(rows, k),
    ensures
        unmasked(rows, mask) == (if mask.contains(k) {
            Seq::<MismatchRow>::empty()
        } else {
            rows
        }),
    decreases rows.len(),
{
    if rows.len() > 0 {
        assert forall|i: int| 0 <= i < rows.drop_last().len() implies (#[trigger] rows.drop_last()[i]).0 == k by {
            assert(rows.drop_last()[i] == rows[i]);
        }
        assert(all_at(rows.drop_last(), k));
        lemma_unmasked_one_addr(rows.drop_last(), k, mask);
        assert(rows[rows.len() - 1].0 == k);
        assert(rows.drop_last().push(rows.last()) =~= rows);
    }
}

/// All of `rows` are at address `k`.
pub open spec fn all_at(rows: Seq<MismatchRow>, k: u64) -> bool {
    forall|i: int| 0 <= i < rows.len() ==> (#[trigger] rows[i]).0 == k
}

proof fn lemma_all_at_add(a: Seq<MismatchRow>, b: Seq<MismatchRow>, k: u64)
    requires
        all_at(a, k),
        all_at(b, k),
    ensures
        all_at(a + b, k),
{
    assert forall|i: int| 0 <= i < (a + b).len() implies (#[trigger] (a + b)[i]).0 == k by {
        if i < a.len() {
            assert((a + b)[i] == a[i]);
        } else {
            assert((a + b)[i] == b[i - a.len()]);
        }
    }
}

proof fn lemma_field_row_at(addr: u64, name: Seq<char>, field: Seq<char>, differ: bool, x: Seq<char>, y: Seq<char>)
    ensures
        all_at(field_row(addr, name, field, differ, x, y), addr),
{
}

#[verifier::rlimit(60)]
proof fn lemma_shape_rows(q: Seq<MismatchRow>, k: u64, pa: Program, pb: Program)
    ensures
        add_shape_mismatches(q, k, pa, pb) == q + add_shape_mismatches(Seq::<MismatchRow>::empty(), k, pa, pb),
        all_at(add_shape_mismatches(Seq::<MismatchRow>::empty(), k, pa, pb), k),
{
    let e = Seq::<MismatchRow>::empty();
    let fa = at_addr(pa, k);
    let fb = at_addr(pb, k);
    let n = fa.name@;
    let ca = canon_callees(pa.functions@, fa);
    let cb = canon_callees(pb.functions@, fb);
    let s0 = field_row(k, n, "name"@, fa.name@ != fb.name@, fa.name.rendering(), fb.name.rendering());
    let s1 = field_row(k, n, "size"@, fa.size != fb.size, fa.size.rendering(), fb.size.rendering());
    let s2 = field_row(k, n, "bb_count"@, fa.bb_count != fb.bb_count, fa.bb_count.rendering(), fb.bb_count.rendering());
    let s3 = field_row(k, n, "callees"@, ca != cb, render_addrs(ca), render_addrs(cb));
    let s4 = field_row(k, n, "fingerprint"@, fa.fingerprint != fb.fingerprint, fa.fingerprint.rendering(), fb.fingerprint.rendering());
    let e0 = e;
    let e1 = e0 + s0;
    vstd::seq_lib::lemma_concat_associative(q, e0, s0);
    lemma_all_at_add(e0, s0, k);
    let e2 = e1 + s1;
    vstd::seq_lib::lemma_concat_associative(q, e1, s1);
    lemma_all_at_add(e1, s1, k);
    let e3 = e2 + s2;
    vstd::seq_lib::lemma_concat_associative(q, e2, s2);
    lemma_all_at_add(e2, s2, k);
    let e4 = e3 + s3;
    vstd::seq_lib::lemma_concat_associative(q, e3, s3);
    lemma_all_at_add(e3, s3, k);
    let e5 = e4 + s4;
    vstd::seq_lib::lemma_concat_associative(q, e4, s4);
    lemma_all_at_add(e4, s4, k);
    assert(q + e0 =~= q);
    assert(add_shape_mismatches(e, k, pa, pb) == e5);
    assert(add_shape_mismatches(q, k, pa, pb) == (((((q + s0) + s1) + s2) + s3) + s4));
}

#[verifier::rlimit(60)]
proof fn lemma_feature_rows(q: Seq<MismatchRow>, k: u64, pa: Program, pb: Program)
    ensures
        add_feature_mismatches(q, k, pa, pb) == q + add_feature_mismatches(Seq::<MismatchRow>::empty(), k, pa, pb),
        all_at(add_feature_mismatches(Seq::<MismatchRow>::empty(), k, pa, pb), k),
{
    let e = Seq::<MismatchRow>::empty();
    let fa = at_addr(pa, k);
    let fb = at_addr(pb, k);
    let n = fa.name@;
    let s0 = field_row(k, n, "mnemonics"@, fa.mnemonics.deep_view() != fb.mnemonics.deep_view(), fa.mnemonics.rendering(), fb.mnemonics.rendering());
    let s1 = field_row(k, n, "trigrams"@, fa.trigrams.deep_view() != fb.trigrams.deep_view(), fa.trigrams.rendering(), fb.trigrams.rendering());
    let s2 = field_row(k, n, "string_refs"@, fa.string_refs.deep_view() != fb.string_refs.deep_view(), fa.string_refs.rendering(), fb.string_refs.rendering());
    let s3 = field_row(k, n, "imports"@, fa.imports.deep_view() != fb.imports.deep_view(), fa.imports.rendering(), fb.imports.rendering());
    let s4 = field_row(k, n, "callee_names"@, fa.callee_names.deep_view() != fb.callee_names.deep_view(), fa.callee_names.rendering(), fb.callee_names.rendering());
    let s5 = field_row(k, n, "bsim_vector"@, fa.bsim_vector@ != fb.bsim_vector@, fa.bsim_vector.rendering(), fb.bsim_vector.rendering());
    let e0 = e;
    let e1 = e0 + s0;
    vstd::seq_lib::lemma_concat_associative(q, e0, s0);
    lemma_all_at_add(e0, s0, k);
    let e2 = e1 + s1;
    vstd::seq_lib::lemma_concat_associative(q, e1, s1);
    lemma_all_at_add(e1, s1, k);
    let e3 = e2 + s2;
    vstd::seq_lib::lemma_concat_associative(q, e2, s2);
    lemma_all_at_add(e2, s2, k);
    let e4 = e3 + s3;
    vstd::seq_lib::lemma_concat_associative(q, e3, s3);
    lemma_all_at_add(e3, s3, k);
    let e5 = e4 + s4;
    vstd::seq_lib::lemma_concat_associative(q, e4, s4);
    lemma_all_at_add(e4, s4, k);
    let e6 = e5 + s5;
    vstd::seq_lib::lemma_concat_associative(q, e5, s5);
    lemma_all_at_add(e5, s5, k);
    assert(q + e0 =~= q);
    assert(add_feature_mismatches(e, k, pa, pb) == e6);
    assert(add_feature_mismatches(q, k, pa, pb) == ((((((q + s0) + s1) + s2) + s3) + s4) + s5));
}

proof fn lemma_fn_rows(q: Seq<MismatchRow>, k: u64, pa: Program, pb: Program)
    ensures
        add_fn_mismatches(q, k, pa, pb) == q + add_fn_mismatches(Seq::<MismatchRow>::empty(), k, pa, pb),
        all_at(add_fn_mismatches(Seq::<MismatchRow>::empty(), k, pa, pb), k),
{
    let e = Seq::<MismatchRow>::empty();
    let sh = add_shape_mismatches(e, k, pa, pb);
    let fe = add_feature_mismatches(e, k, pa, pb);
    lemma_shape_rows(q, k, pa, pb);
    lemma_feature_rows(q + sh, k, pa, pb);
    lemma_feature_rows(sh, k, pa, pb);
    vstd::seq_lib::lemma_concat_associative(q, sh, fe);
    lemma_all_at_add(sh, fe, k);
}

#[verifier::rlimit(30)]
proof fn lemma_masked_rows_are_unmasked(keys: Seq<u64>, pa: Program, pb: Program, mask: Set<u64>)
    ensures
        mismatch_rows(keys, pa, pb, mask) == unmasked(mismatch_rows(keys, pa, pb, Set::empty()), mask),
    decreases keys.len(),
{
    if keys.len() == 0 {
        assert(unmasked(Seq::<MismatchRow>::empty(), mask) == Seq::<MismatchRow>::empty());
    } else {
        lemma_masked_rows_are_unmasked(keys.drop_last(), pa, pb, mask);
        let k = keys.last();
        let rm = mismatch_rows(keys.drop_last(), pa, pb, mask);
        let r0 = mismatch_rows(keys.drop_last(), pa, pb, Set::empty());
        let rows = add_fn_mismatches(Seq::<MismatchRow>::empty(), k, pa, pb);
        if addr_set(pb.functions@).contains(k) {
            lemma_fn_rows(r0, k, pa, pb);
            lemma_fn_rows(rm, k, pa, pb);
            lemma_unmasked_one_addr(rows, k, mask);
            lemma_unmasked_add(r0, rows, mask);
            if mask.contains(k) {
                assert(unmasked(r0, mask) + Seq::<MismatchRow>::empty() =~= unmasked(r0, mask));
            }
        }
    }
}

/// Masking only hides: `compare_masked` reports what `compare` reports — the same counts,
/// language and one-sided addresses — except that the field mismatches at masked addresses are
/// left out (and the masked functions are listed).
pub proof fn law_masking_only_hides_rows(r0: Report, r: Report, inside: Program, outside: Program, mask: Set<u64>)
    requires
        reported(r0, inside, outside, Set::empty()),
        reported(r, inside, outside, mask),
    ensures
        r.functions_inside == r0.functions_inside,
        r.functions_outside == r0.functions_outside,
        r.language_mismatch is None <==> r0.language_mismatch is None,
        r.only_inside@ == r0.only_inside@,
        r.only_outside@ == r0.only_outside@,
        r.field_mismatches.deep_view() == unmasked(r0.field_mismatches.deep_view(), mask),
        r.masked.deep_view() == masked_rows(addr_keys(inside), inside, outside, mask),
{
    lemma_masked_rows_are_unmasked(addr_keys(inside), inside, outside, mask);
}

/// Compare the inside and outside programs with the functions at `mask` addresses excluded
/// from the per-field and projection checks. Masked functions still count toward the function
/// set (a masked function missing from one leg is still `only_*`) and are listed in
/// [`Report::masked`]. Two identical legs are always at parity, whatever the mask; at parity
/// the legs agree everywhere outside the mask.
pub fn compare_masked(inside: &Program, outside: &Program, mask: &BTreeSet<u64>) -> (r: Report)
    ensures
        reported(r, *inside, *outside, mask@),
        *inside == *outside ==> parity(r),
        parity(r) ==> legs_agree(*inside, *outside, mask@),
{
    let a = Canonical::from_program(inside);
    let b = Canonical::from_program(outside);
    let ka = sorted_addrs(inside);
    let kb = sorted_addrs(outside);
    proof {
        lemma_addr_lt_strict();
        lemma_in_order_is(ka@, addr_set(inside.functions@), addr_lt());
        lemma_in_order_is(kb@, addr_set(outside.functions@), addr_lt());
    }
    let language_mismatch = if a.language.eq(&b.language) {
        None
    } else {
        Some((a.language.clone(), b.language.clone()))
    };
    let (only_inside, masked, field_mismatches) = walk_inside(
        &ka,
        &a,
        &b,
        mask,
        Ghost(*inside),
        Ghost(*outside),
    );
    let only_outside = walk_outside(&kb, &a, Ghost(*inside));
    let projection_mismatches = compare_projection(inside, outside, mask);
    let r = Report {
        functions_inside: a.functions.len(),
        functions_outside: b.functions.len(),
        language_mismatch,
        only_inside,
        only_outside,
        field_mismatches,
        projection_mismatches,
        masked,
    };
    proof {
        if *inside == *outside {
            lemma_same_leg_parity(r, *inside, mask@);
        }
        if parity(r) {
            lemma_parity_means_agreement(r, *inside, *outside, mask@, ka@, kb@);
        }
    }
    r
}

} // verus!

verus! {

// ---------------------------------------------------------------------------------------------
// The head-visible check: the port's `Detail` projection
// ---------------------------------------------------------------------------------------------

/// `{:?}` of a list of strings.
pub open spec fn render_texts(s: Seq<Seq<char>>) -> Seq<char> {
    debug_list(s.map_values(|t: Seq<char>| debug_escaped(t)))
}

/// The row the check writes for function `id` of `p`, as its `Detail` view shows it: address,
/// name, summary, block count, size, and the callee and caller names sorted.
pub open spec fn row_of(p: Program, id: StableId) -> Seq<char> {
    let f = p.functions@[index_of(p.functions@, id)];
    let callers = callers_of(p.functions@, id);
    let name = name_text(p, id);
    hex_prefixed(f.addr as nat) + "\t"@ + name + "\t"@ + summary_text(
        name,
        f.bb_count,
        f.callees@.len(),
        callers.len(),
    ) + "\tbb="@ + ("Some("@ + decimal(f.bb_count as nat) + ")"@) + "\tsize="@ + ("Some("@
        + decimal(f.size as nat) + ")"@) + "\tcallees="@ + render_texts(
        names_of(p, f.callees@).sort_by(text_order()),
    ) + "\tcallers="@ + render_texts(names_of(p, callers).sort_by(text_order()))
}

/// Whether the view of the `i`-th function of `p` is left out by `mask`.
pub open spec fn masked_view(p: Program, i: int, mask: Set<u64>) -> bool {
    mask.contains(p.functions@[index_of(p.functions@, p.functions@[i].id)].addr)
}

/// The rows of `p`'s unmasked functions.
pub open spec fn projected_rows(p: Program, mask: Set<u64>) -> Set<Seq<char>> {
    Set::new(
        |r: Seq<char>|
            exists|i: int|
                0 <= i < p.functions@.len() && !masked_view(p, i, mask) && r == row_of(
                    p,
                    p.functions@[i].id,
                ),
    )
}

/// The strict `str` order.
pub open spec fn text_strict() -> spec_fn(Seq<char>, Seq<char>) -> bool {
    |a: Seq<char>, b: Seq<char>| text_lt(a, b)
}

proof fn lemma_text_strict()
    ensures
        strict_total(text_strict()),
{
    assert forall|a: Seq<char>, b: Seq<char>| #[trigger] (text_strict())(a, b) implies !(
    text_strict())(b, a) by {
        lemma_text_lt_asymmetric(a, b);
    }
    assert forall|a: Seq<char>, b: Seq<char>| a != b implies #[trigger] (text_strict())(a, b) || (
    text_strict())(b, a) by {
        lemma_text_lt_total(a, b);
    }
}

/// The rows only one leg shows, each tagged with its side, in `str` order within a side.
pub open spec fn projection_diff(inside: Program, outside: Program, mask: Set<u64>) -> Seq<Seq<char>> {
    let ra = projected_rows(inside, mask);
    let rb = projected_rows(outside, mask);
    in_order(ra.difference(rb), text_strict()).map_values(|r: Seq<char>| "inside only: "@ + r)
        + in_order(rb.difference(ra), text_strict()).map_values(
        |r: Seq<char>| "outside only: "@ + r,
    )
}

/// Sort a list of strings and render it with `{:?}`.
fn render_sorted(v: Vec<String>) -> (r: String)
    ensures
        r@ == render_texts(v.deep_view().sort_by(text_order())),
{
    let s = sort_strings(v);
    let r = s.render();
    assert(s@.map_values(|x: String| x.rendering()) =~= s.deep_view().map_values(
        |t: Seq<char>| debug_escaped(t),
    ));
    r
}

/// The row of one `Detail` view.
fn view_row(v: &crate::port::FunctionView, Ghost(p): Ghost<Program>, Ghost(id): Ghost<StableId>) -> (r: String)
    requires
        is_view_of(*v, p, id, Zoom::Detail),
    ensures
        r@ == row_of(p, id),
{
    let addr = match v.addr {
        Some(a) => a,
        None => 0,
    };
    let mut row = hex_string(addr);
    row.append("\t");
    row.append(v.name.as_str());
    row.append("\t");
    row.append(v.summary.as_str());
    row.append("\tbb=");
    let bb = v.bb_count.render();
    row.append(bb.as_str());
    row.append("\tsize=");
    let size = v.size.render();
    row.append(size.as_str());
    row.append("\tcallees=");
    let callees = match &v.callees {
        Some(c) => copy_strings(c),
        None => Vec::new(),
    };
    let rc = render_sorted(callees);
    row.append(rc.as_str());
    row.append("\tcallers=");
    let callers = match &v.callers {
        Some(c) => copy_strings(c),
        None => Vec::new(),
    };
    let rr = render_sorted(callers);
    row.append(rr.as_str());
    row
}

/// The rows of `p`'s unmasked functions, each once, in `str` order.
fn rows_of(p: &Program, mask: &BTreeSet<u64>) -> (r: Vec<String>)
    ensures
        lists_in_order(r.deep_view(), projected_rows(*p, mask@), text_strict()),
{
    let views = project_all(p, Zoom::Detail);
    let mut rows: Vec<String> = Vec::new();
    let mut i: usize = 0;
    while i < views.len()
        invariant
            i <= views@.len(),
            views@.len() == p.functions@.len(),
            forall|j: int|
                0 <= j < views@.len() ==> is_view_of(
                    #[trigger] views@[j],
                    *p,
                    p.functions@[j].id,
                    Zoom::Detail,
                ),
            rows.deep_view().to_set() == Set::new(
                |r: Seq<char>|
                    exists|j: int|
                        0 <= j < i && !masked_view(*p, j, mask@) && r == row_of(
                            *p,
                            p.functions@[j].id,
                        ),
            ),
        decreases views@.len() - i,
    {
        let v = &views[i];
        let ghost before = rows.deep_view();
        let ghost id = p.functions@[i as int].id;
        proof {
            crate::model::lemma_index_of(p.functions@, id);
        }
        let skip = match v.addr {
            Some(a) => mask.contains(&a),
            None => false,
        };
        if !skip {
            let row = view_row(v, Ghost(*p), Ghost(id));
            rows.push(row);
            assert(rows.deep_view() =~= before.push(row@));
        }
        assert(rows.deep_view().to_set() =~= Set::new(
            |r: Seq<char>|
                exists|j: int|
                    0 <= j < i + 1 && !masked_view(*p, j, mask@) && r == row_of(
                        *p,
                        p.functions@[j].id,
                    ),
        )) by {
            assert forall|r: Seq<char>|
                rows.deep_view().to_set().contains(r) implies exists|j: int|
                    0 <= j < i + 1 && !masked_view(*p, j, mask@) && r == row_of(
                        *p,
                        p.functions@[j].id,
                    ) by {
                if !before.to_set().contains(r) {
                    assert(r == row_of(*p, id));
                    assert(!masked_view(*p, i as int, mask@));
                }
            }
            assert forall|r: Seq<char>|
                (exists|j: int|
                    0 <= j < i + 1 && !masked_view(*p, j, mask@) && r == row_of(
                        *p,
                        p.functions@[j].id,
                    )) implies rows.deep_view().to_set().contains(r) by {
                let j = choose|j: int|
                    0 <= j < i + 1 && !masked_view(*p, j, mask@) && r == row_of(
                        *p,
                        p.functions@[j].id,
                    );
                if j < i {
                    assert(before.to_set().contains(r));
                    let q = choose|q: int| 0 <= q < before.len() && #[trigger] before[q] == r;
                    assert(rows.deep_view()[q] == r);
                } else {
                    assert(rows.deep_view()[rows.deep_view().len() - 1] == r);
                }
            }
        }
        i += 1;
    }
    let ghost unsorted = rows.deep_view();
    let sorted = sort_strings(rows);
    proof {
        crate::text::lemma_text_order_total();
        unsorted.lemma_sort_by_ensures(text_order());
        lemma_sort_same_set(unsorted);
    }
    let r = dedup_sorted(sorted);
    proof {
        lemma_text_strict();
        let ghost all = Set::new(
            |r: Seq<char>|
                exists|j: int|
                    0 <= j < views@.len() && !masked_view(*p, j, mask@) && r == row_of(
                        *p,
                        p.functions@[j].id,
                    ),
        );
        assert(all =~= projected_rows(*p, mask@));
    }
    r
}

/// Drop the repeats of a sorted list of strings.
fn dedup_sorted(v: Vec<String>) -> (r: Vec<String>)
    requires
        sorted_by(v.deep_view(), text_order()),
    ensures
        sorted_by(r.deep_view(), text_strict()),
        r.deep_view().to_set() == v.deep_view().to_set(),
{
    proof {
        crate::text::lemma_text_order_total();
    }
    let ghost vs = v.deep_view();
    let mut out: Vec<String> = Vec::new();
    let mut i: usize = 0;
    while i < v.len()
        invariant
            i <= vs.len(),
            vs == v.deep_view(),
            vstd::relations::total_ordering(text_order()),
            sorted_by(vs, text_order()),
            sorted_by(out.deep_view(), text_strict()),
            out.deep_view().to_set() == vs.take(i as int).to_set(),
            i > 0 ==> out.deep_view().len() > 0 && out.deep_view().last() == vs[i - 1],
            i == 0 ==> out.deep_view().len() == 0,
        decreases vs.len() - i,
    {
        let ghost before = out.deep_view();
        let fresh = if out.len() == 0 {
            true
        } else {
            !out[out.len() - 1].eq(&v[i])
        };
        if fresh {
            out.push(v[i].clone());
            assert(out.deep_view() =~= before.push(vs[i as int]));
            assert(sorted_by(out.deep_view(), text_strict())) by {
                assert forall|a: int, b: int| 0 <= a < b < out.deep_view().len() implies #[trigger] (
                text_strict())(out.deep_view()[a], out.deep_view()[b]) by {
                    if b == out.deep_view().len() - 1 {
                        let x = before[a];
                        assert(vs.take(i as int).to_set().contains(x));
                        let j = choose|j: int| 0 <= j < i && #[trigger] vs.take(i as int)[j] == x;
                        assert(vs[j] == x);
                        assert((text_order())(vs[j], vs[i as int]));
                        if x == vs[i as int] {
                            assert((text_order())(vs[j], vs[i - 1]));
                            assert((text_order())(vs[i - 1], vs[i as int]));
                        }
                        lemma_text_lt_total(x, vs[i as int]);
                    } else {
                        assert(out.deep_view()[a] == before[a]);
                        assert(out.deep_view()[b] == before[b]);
                    }
                }
            }
        }
        assert(out.deep_view().to_set() =~= vs.take(i + 1).to_set()) by {
            assert(vs.take(i + 1) =~= vs.take(i as int).push(vs[i as int]));
            assert forall|x: Seq<char>| vs.take(i + 1).to_set().contains(x) implies out.deep_view().to_set().contains(x) by {
                let j = choose|j: int| 0 <= j < i + 1 && #[trigger] vs.take(i + 1)[j] == x;
                if j < i {
                    assert(vs.take(i as int)[j] == x);
                    assert(before.to_set().contains(x));
                    let q = choose|q: int| 0 <= q < before.len() && #[trigger] before[q] == x;
                    assert(out.deep_view()[q] == x);
                } else {
                    assert(out.deep_view()[out.deep_view().len() - 1] == x);
                }
            }
            assert forall|x: Seq<char>| out.deep_view().to_set().contains(x) implies vs.take(i + 1).to_set().contains(x) by {
                let q = choose|q: int| 0 <= q < out.deep_view().len() && #[trigger] out.deep_view()[q] == x;
                if q < before.len() {
                    assert(before[q] == x);
                    assert(before.to_set().contains(x));
                    let j = choose|j: int| 0 <= j < i && #[trigger] vs.take(i as int)[j] == x;
                    assert(vs.take(i + 1)[j] == x);
                } else {
                    assert(vs.take(i + 1)[i as int] == x);
                }
            }
        }
        i += 1;
    }
    assert(vs.take(vs.len() as int) =~= vs);
    out
}

/// Sorting keeps the members.
proof fn lemma_sort_same_set(s: Seq<Seq<char>>)
    ensures
        s.sort_by(text_order()).to_set() == s.to_set(),
{
    broadcast use vstd::seq_lib::group_to_multiset_ensures;

    crate::text::lemma_text_order_total();
    s.lemma_sort_by_ensures(text_order());
    let t = s.sort_by(text_order());
    assert forall|x: Seq<char>| t.to_set().contains(x) <==> s.to_set().contains(x) by {
        assert(t.contains(x) <==> t.to_multiset().count(x) > 0);
        assert(s.contains(x) <==> s.to_multiset().count(x) > 0);
    }
    assert(t.to_set() =~= s.to_set());
}

/// Whether `x` is one of `ys`.
fn contains_text(ys: &Vec<String>, x: &String) -> (r: bool)
    ensures
        r == ys.deep_view().contains(x@),
{
    let mut i: usize = 0;
    while i < ys.len()
        invariant
            i <= ys@.len(),
            forall|j: int| 0 <= j < i ==> ys.deep_view()[j] != x@,
        decreases ys@.len() - i,
    {
        if ys[i].eq(x) {
            assert(ys.deep_view()[i as int] == x@);
            return true;
        }
        i += 1;
    }
    false
}

/// Append, tagged with `tag`, the members of `xs` that `ys` lacks, in order.
fn push_difference(out: &mut Vec<String>, xs: &Vec<String>, ys: &Vec<String>, tag: &str)
    requires
        sorted_by(xs.deep_view(), text_strict()),
    ensures
        final(out).deep_view() == old(out).deep_view() + in_order(
            xs.deep_view().to_set().difference(ys.deep_view().to_set()),
            text_strict(),
        ).map_values(|r: Seq<char>| tag@ + r),
{
    let ghost xv = xs.deep_view();
    let ghost yset = ys.deep_view().to_set();
    let ghost start = out.deep_view();
    let ghost mut kept: Seq<Seq<char>> = Seq::empty();
    let mut i: usize = 0;
    while i < xs.len()
        invariant
            i <= xv.len(),
            xv == xs.deep_view(),
            yset == ys.deep_view().to_set(),
            sorted_by(xv, text_strict()),
            sorted_by(kept, text_strict()),
            kept.to_set() == xv.take(i as int).to_set().difference(yset),
            out.deep_view() == start + kept.map_values(|r: Seq<char>| tag@ + r),
        decreases xv.len() - i,
    {
        let ghost before = kept;
        let ghost before_out = out.deep_view();
        assert(xv.take(i + 1) =~= xv.take(i as int).push(xv[i as int]));
        if !contains_text(ys, &xs[i]) {
            let mut line = String::from_str(tag);
            line.append(xs[i].as_str());
            out.push(line);
            assert(out.deep_view() =~= before_out.push(tag@ + xv[i as int]));
            proof {
                kept = kept.push(xv[i as int]);
                assert(kept.map_values(|r: Seq<char>| tag@ + r) =~= before.map_values(
                    |r: Seq<char>| tag@ + r,
                ).push(tag@ + xv[i as int]));
                assert(sorted_by(kept, text_strict())) by {
                    assert forall|a: int, b: int| 0 <= a < b < kept.len() implies #[trigger] (
                    text_strict())(kept[a], kept[b]) by {
                        if b == kept.len() - 1 {
                            assert(before.to_set().contains(before[a]));
                            let j = choose|j: int| 0 <= j < i && #[trigger] xv.take(i as int)[j] == before[a];
                            assert(xv[j] == before[a]);
                        } else {
                            assert(kept[a] == before[a] && kept[b] == before[b]);
                        }
                    }
                }
                assert(out.deep_view() =~= start + kept.map_values(|r: Seq<char>| tag@ + r));
            }
        }
        assert(kept.to_set() =~= xv.take(i + 1).to_set().difference(yset)) by {
            assert forall|x: Seq<char>| xv.take(i + 1).to_set().difference(yset).contains(x) implies kept.to_set().contains(x) by {
                let j = choose|j: int| 0 <= j < i + 1 && #[trigger] xv.take(i + 1)[j] == x;
                if j < i {
                    assert(xv.take(i as int)[j] == x);
                    assert(before.to_set().contains(x));
                    let q = choose|q: int| 0 <= q < before.len() && #[trigger] before[q] == x;
                    assert(kept[q] == x);
                } else {
                    assert(kept[kept.len() - 1] == x);
                }
            }
            assert forall|x: Seq<char>| kept.to_set().contains(x) implies xv.take(i + 1).to_set().difference(yset).contains(x) by {
                let q = choose|q: int| 0 <= q < kept.len() && #[trigger] kept[q] == x;
                if q < before.len() {
                    assert(before[q] == x);
                    assert(before.to_set().contains(x));
                    let j = choose|j: int| 0 <= j < i && #[trigger] xv.take(i as int)[j] == x;
                    assert(xv.take(i + 1)[j] == x);
                } else {
                    assert(xv.take(i + 1)[i as int] == x);
                }
            }
        }
        i += 1;
    }
    proof {
        assert(xv.take(xv.len() as int) =~= xv);
        lemma_text_strict();
        lemma_in_order_is(kept, xv.to_set().difference(yset), text_strict());
    }
}

/// Project both programs at `Detail` and diff the rows a head would show (rows of masked
/// functions are left out on both sides).
fn compare_projection(inside: &Program, outside: &Program, mask: &BTreeSet<u64>) -> (r: Vec<String>)
    ensures
        r.deep_view() == projection_diff(*inside, *outside, mask@),
{
    let ra = rows_of(inside, mask);
    let rb = rows_of(outside, mask);
    let mut out: Vec<String> = Vec::new();
    push_difference(&mut out, &ra, &rb, "inside only: ");
    push_difference(&mut out, &rb, &ra, "outside only: ");
    proof {
        let a = projected_rows(*inside, mask@);
        let b = projected_rows(*outside, mask@);
        let da = in_order(a.difference(b), text_strict());
        let db = in_order(b.difference(a), text_strict());
        assert(out.deep_view() =~= Seq::<Seq<char>>::empty() + da.map_values(
            |r: Seq<char>| "inside only: "@ + r,
        ) + db.map_values(|r: Seq<char>| "outside only: "@ + r));
    }
    out
}

} // verus!

verus! {

// ---------------------------------------------------------------------------------------------
// Engine nondeterminism: the only legitimate source of a comparison mask
// ---------------------------------------------------------------------------------------------

/// One engine-nondeterministic function: its address, the name(s) seen, the fields that
/// varied, and every distinct `(size, bb_count)` the raw engine produced for it.
#[derive(Debug, Clone, PartialEq, Eq)]
pub struct FlakyFunction {
    pub addr: u64,
    pub names: Vec<String>,
    pub fields: Vec<&'static str>,
    pub variants: Vec<(u64, u32)>,
}

/// The engine-nondeterminism record for one binary, over `runs` direct engine runs.
#[derive(Debug, Clone, PartialEq, Eq)]
pub struct Flaky {
    pub runs: usize,
    pub functions: Vec<FlakyRecord>,
}

/// The persisted shape of a [`FlakyFunction`] (addresses as hex strings for readability).
#[derive(Debug, Clone, PartialEq, Eq)]
pub struct FlakyRecord {
    pub addr: String,
    pub names: Vec<String>,
    pub fields: Vec<String>,
    pub variants: Vec<(u64, u32)>,
}

impl DeepView for FlakyRecord {
    type V = (Seq<char>, Seq<Seq<char>>, Seq<Seq<char>>, Seq<(u64, u32)>);

    open spec fn deep_view(&self) -> Self::V {
        (self.addr@, self.names.deep_view(), self.fields.deep_view(), self.variants@)
    }
}

/// The runs (by index) that have a function at `a`, in run order.
pub open spec fn runs_with(runs: Seq<Program>, a: u64) -> Seq<int>
    decreases runs.len(),
{
    if runs.len() == 0 {
        Seq::empty()
    } else {
        let r = runs_with(runs.drop_last(), a);
        if addr_set(runs.last().functions@).contains(a) {
            r.push(runs.len() - 1)
        } else {
            r
        }
    }
}

/// The number of per-function fields the nondeterminism check looks at.
pub open spec fn n_flaky_fields() -> nat {
    11
}

/// The `k`-th field the nondeterminism check looks at.
pub open spec fn flaky_field_name(k: int) -> Seq<char> {
    if k == 0 {
        "name"@
    } else if k == 1 {
        "size"@
    } else if k == 2 {
        "bb_count"@
    } else if k == 3 {
        "callees"@
    } else if k == 4 {
        "fingerprint"@
    } else if k == 5 {
        "mnemonics"@
    } else if k == 6 {
        "trigrams"@
    } else if k == 7 {
        "string_refs"@
    } else if k == 8 {
        "imports"@
    } else if k == 9 {
        "callee_names"@
    } else {
        "bsim_vector"@
    }
}

/// Whether `p` and `q` agree on field `k` of their canonical functions at `a`.
pub open spec fn same_in(p: Program, q: Program, a: u64, k: int) -> bool {
    let f = at_addr(p, a);
    let g = at_addr(q, a);
    if k == 0 {
        f.name@ == g.name@
    } else if k == 1 {
        f.size == g.size
    } else if k == 2 {
        f.bb_count == g.bb_count
    } else if k == 3 {
        canon_callees(p.functions@, f) == canon_callees(q.functions@, g)
    } else if k == 4 {
        f.fingerprint == g.fingerprint
    } else if k == 5 {
        f.mnemonics.deep_view() == g.mnemonics.deep_view()
    } else if k == 6 {
        f.trigrams.deep_view() == g.trigrams.deep_view()
    } else if k == 7 {
        f.string_refs.deep_view() == g.string_refs.deep_view()
    } else if k == 8 {
        f.imports.deep_view() == g.imports.deep_view()
    } else if k == 9 {
        f.callee_names.deep_view() == g.callee_names.deep_view()
    } else {
        f.bsim_vector@ == g.bsim_vector@
    }
}

/// Whether some run in `seen` disagrees with the first on field `k` at `a`.
pub open spec fn varies(runs: Seq<Program>, seen: Seq<int>, a: u64, k: int) -> bool {
    exists|t: int| 0 <= t < seen.len() && !same_in(runs[seen[0]], #[trigger] runs[seen[t]], a, k)
}

/// The names of the first `n` fields that vary at `a`, in field order.
pub open spec fn varied(runs: Seq<Program>, seen: Seq<int>, a: u64, n: nat) -> Seq<Seq<char>>
    decreases n,
{
    if n == 0 {
        Seq::empty()
    } else {
        let r = varied(runs, seen, a, (n - 1) as nat);
        if varies(runs, seen, a, n - 1) {
            r.push(flaky_field_name(n - 1))
        } else {
            r
        }
    }
}

/// The fields that vary at `a` across the runs: `presence` first when some run lacks it.
pub open spec fn flaky_fields(runs: Seq<Program>, a: u64) -> Seq<Seq<char>> {
    let seen = runs_with(runs, a);
    (if seen.len() != runs.len() {
        seq!["presence"@]
    } else {
        Seq::empty()
    }) + (if seen.len() > 0 {
        varied(runs, seen, a, n_flaky_fields())
    } else {
        Seq::empty()
    })
}

/// The order of `(size, bb_count)` variants: lexicographic.
pub open spec fn pair_lt() -> spec_fn((u64, u32), (u64, u32)) -> bool {
    |x: (u64, u32), y: (u64, u32)| x.0 < y.0 || (x.0 == y.0 && x.1 < y.1)
}

/// The record for address `a`: its hex address, the names seen, the varied fields, and the
/// distinct `(size, bb_count)` variants.
pub open spec fn flaky_record(runs: Seq<Program>, a: u64) -> (
    Seq<char>,
    Seq<Seq<char>>,
    Seq<Seq<char>>,
    Seq<(u64, u32)>,
) {
    let seen = runs_with(runs, a);
    (
        hex_prefixed(a as nat),
        in_order(
            Set::new(
                |n: Seq<char>|
                    exists|t: int| 0 <= t < seen.len() && n == at_addr(runs[seen[t]], a).name@,
            ),
            text_strict(),
        ),
        flaky_fields(runs, a),
        in_order(
            Set::new(
                |v: (u64, u32)|
                    exists|t: int|
                        0 <= t < seen.len() && v == (
                            at_addr(runs[seen[t]], a).size,
                            at_addr(runs[seen[t]], a).bb_count,
                        ),
            ),
            pair_lt(),
        ),
    )
}

/// The records of the addresses in `keys` on which some field varies, in order.
pub open spec fn flaky_records(runs: Seq<Program>, keys: Seq<u64>) -> Seq<
    (Seq<char>, Seq<Seq<char>>, Seq<Seq<char>>, Seq<(u64, u32)>),
>
    decreases keys.len(),
{
    if keys.len() == 0 {
        Seq::empty()
    } else {
        let r = flaky_records(runs, keys.drop_last());
        if flaky_fields(runs, keys.last()).len() > 0 {
            r.push(flaky_record(runs, keys.last()))
        } else {
            r
        }
    }
}

/// Every entry address of any of the runs.
pub open spec fn all_addrs(runs: Seq<Program>) -> Set<u64> {
    Set::new(|a: u64| exists|j: int| 0 <= j < runs.len() && addr_set(runs[j].functions@).contains(a))
}

} // verus!

verus! {

/// Whether two canonical functions agree on field `k`.
pub open spec fn canon_same(x: CanonicalFunction, y: CanonicalFunction, k: int) -> bool {
    if k == 0 {
        x.name@ == y.name@
    } else if k == 1 {
        x.size == y.size
    } else if k == 2 {
        x.bb_count == y.bb_count
    } else if k == 3 {
        x.callees@ == y.callees@
    } else if k == 4 {
        x.fingerprint == y.fingerprint
    } else if k == 5 {
        x.mnemonics.deep_view() == y.mnemonics.deep_view()
    } else if k == 6 {
        x.trigrams.deep_view() == y.trigrams.deep_view()
    } else if k == 7 {
        x.string_refs.deep_view() == y.string_refs.deep_view()
    } else if k == 8 {
        x.imports.deep_view() == y.imports.deep_view()
    } else if k == 9 {
        x.callee_names.deep_view() == y.callee_names.deep_view()
    } else {
        x.bsim_vector@ == y.bsim_vector@
    }
}

/// Field `k` compared on two canonical functions.
fn same_field(x: &CanonicalFunction, y: &CanonicalFunction, k: u8) -> (r: bool)
    ensures
        r == canon_same(*x, *y, k as int),
{
    match k {
        0 => x.name.equals(&y.name),
        1 => x.size == y.size,
        2 => x.bb_count == y.bb_count,
        3 => {
            let r = x.callees.equals(&y.callees);
            assert(x.callees.deep_view() =~= x.callees@);
            assert(y.callees.deep_view() =~= y.callees@);
            r
        },
        4 => x.fingerprint == y.fingerprint,
        5 => x.mnemonics.equals(&y.mnemonics),
        6 => x.trigrams.equals(&y.trigrams),
        7 => x.string_refs.equals(&y.string_refs),
        8 => x.imports.equals(&y.imports),
        9 => x.callee_names.equals(&y.callee_names),
        _ => {
            let r = x.bsim_vector.equals(&y.bsim_vector);
            assert(x.bsim_vector.deep_view() =~= x.bsim_vector@);
            assert(y.bsim_vector.deep_view() =~= y.bsim_vector@);
            r
        },
    }
}

/// Canonical agreement is agreement of the programs' functions.
proof fn lemma_canon_same(x: CanonicalFunction, y: CanonicalFunction, p: Program, q: Program, a: u64, k: int)
    requires
        is_canonical_fn(x, p.functions@, at_addr(p, a)),
        is_canonical_fn(y, q.functions@, at_addr(q, a)),
    ensures
        canon_same(x, y, k) == same_in(p, q, a, k),
{
    let f = at_addr(p, a);
    let g = at_addr(q, a);
    lemma_addr_lt_strict();
    lemma_in_order_is(x.callees@, callee_addrs(p.functions@, f), addr_lt());
    lemma_in_order_is(y.callees@, callee_addrs(q.functions@, g), addr_lt());
    lemma_same_view(&x.mnemonics, &f.mnemonics);
    lemma_same_view(&y.mnemonics, &g.mnemonics);
    lemma_same_view(&x.trigrams, &f.trigrams);
    lemma_same_view(&y.trigrams, &g.trigrams);
    lemma_same_view(&x.string_refs, &f.string_refs);
    lemma_same_view(&y.string_refs, &g.string_refs);
    lemma_same_view(&x.imports, &f.imports);
    lemma_same_view(&y.imports, &g.imports);
    lemma_same_view(&x.callee_names, &f.callee_names);
    lemma_same_view(&y.callee_names, &g.callee_names);
}

/// The canonical form of each run.
fn canon_all(runs: &[Program]) -> (r: Vec<Canonical>)
    ensures
        r@.len() == runs@.len(),
        forall|j: int| 0 <= j < runs@.len() ==> is_canonical(#[trigger] r@[j], runs@[j]),
{
    let mut out: Vec<Canonical> = Vec::new();
    let mut i: usize = 0;
    while i < runs.len()
        invariant
            i <= runs@.len(),
            out@.len() == i,
            forall|j: int| 0 <= j < i ==> is_canonical(#[trigger] out@[j], runs@[j]),
        decreases runs@.len() - i,
    {
        out.push(Canonical::from_program(&runs[i]));
        i += 1;
    }
    out
}

/// Every entry address of any run, each once, increasing.
fn union_addrs(runs: &[Program]) -> (r: Vec<u64>)
    ensures
        lists_in_order(r@, all_addrs(runs@), addr_lt()),
{
    let mut out: Vec<u64> = Vec::new();
    let mut i: usize = 0;
    while i < runs.len()
        invariant
            i <= runs@.len(),
            sorted_by(out@, addr_lt()),
            out@.to_set() == Set::new(
                |a: u64| exists|j: int| 0 <= j < i && addr_set(runs@[j].functions@).contains(a),
            ),
        decreases runs@.len() - i,
    {
        let ks = sorted_addrs(&runs[i]);
        let ghost before = out@.to_set();
        let mut t: usize = 0;
        while t < ks.len()
            invariant
                t <= ks@.len(),
                sorted_by(out@, addr_lt()),
                out@.to_set() == before.union(ks@.take(t as int).to_set()),
            decreases ks@.len() - t,
        {
            insert_addr(&mut out, ks[t]);
            assert(ks@.take(t + 1).to_set() =~= ks@.take(t as int).to_set().insert(ks@[t as int])) by {
                let s0 = ks@.take(t as int);
                let s1 = ks@.take(t + 1);
                assert forall|a: u64| s1.to_set().contains(a) implies s0.to_set().insert(ks@[t as int]).contains(a) by {
                    let q = choose|q: int| 0 <= q < s1.len() && #[trigger] s1[q] == a;
                    if q < t {
                        assert(s0[q] == a);
                    }
                }
                assert forall|a: u64| s0.to_set().insert(ks@[t as int]).contains(a) implies s1.to_set().contains(a) by {
                    if a == ks@[t as int] {
                        assert(s1[t as int] == a);
                    } else {
                        let q = choose|q: int| 0 <= q < s0.len() && #[trigger] s0[q] == a;
                        assert(s1[q] == a);
                    }
                }
            }
            assert(out@.to_set() =~= before.union(ks@.take(t + 1).to_set()));
            t += 1;
        }
        assert(ks@.take(ks@.len() as int) =~= ks@);
        assert(out@.to_set() =~= Set::new(
            |a: u64| exists|j: int| 0 <= j < i + 1 && addr_set(runs@[j].functions@).contains(a),
        )) by {
            assert forall|a: u64| out@.to_set().contains(a) implies exists|j: int|
                0 <= j < i + 1 && addr_set(runs@[j].functions@).contains(a) by {
                if !before.contains(a) {
                    assert(addr_set(runs@[i as int].functions@).contains(a));
                }
            }
        }
        i += 1;
    }
    assert(out@.to_set() =~= all_addrs(runs@));
    out
}

/// The runs with a function at `addr`, in order.
fn seen_runs(canon: &Vec<Canonical>, addr: u64, Ghost(runs): Ghost<Seq<Program>>) -> (r: Vec<usize>)
    requires
        canon@.len() == runs.len(),
        forall|j: int| 0 <= j < runs.len() ==> is_canonical(#[trigger] canon@[j], runs[j]),
    ensures
        r@.len() == runs_with(runs, addr).len(),
        forall|t: int| 0 <= t < r@.len() ==> #[trigger] r@[t] as int == runs_with(runs, addr)[t],
{
    let mut out: Vec<usize> = Vec::new();
    let mut j: usize = 0;
    while j < canon.len()
        invariant
            j <= canon@.len(),
            canon@.len() == runs.len(),
            forall|q: int| 0 <= q < runs.len() ==> is_canonical(#[trigger] canon@[q], runs[q]),
            out@.len() == runs_with(runs.take(j as int), addr).len(),
            forall|t: int|
                0 <= t < out@.len() ==> #[trigger] out@[t] as int == runs_with(
                    runs.take(j as int),
                    addr,
                )[t],
        decreases canon@.len() - j,
    {
        assert(runs.take(j + 1).drop_last() =~= runs.take(j as int));
        assert(runs.take(j + 1).last() == runs[j as int]);
        assert(is_canonical(canon@[j as int], runs[j as int]));
        if canon[j].functions.contains_key(&addr) {
            out.push(j);
        }
        j += 1;
    }
    assert(runs.take(runs.len() as int) =~= runs);
    out
}

} // verus!

verus! {

proof fn lemma_runs_with(runs: Seq<Program>, a: u64)
    ensures
        runs_with(runs, a).len() <= runs.len(),
        forall|t: int|
            0 <= t < runs_with(runs, a).len() ==> 0 <= #[trigger] runs_with(runs, a)[t] < runs.len()
                && addr_set(runs[runs_with(runs, a)[t]].functions@).contains(a),
        forall|j: int|
            0 <= j < runs.len() && addr_set(runs[j].functions@).contains(a) ==> exists|t: int|
                0 <= t < runs_with(runs, a).len() && #[trigger] runs_with(runs, a)[t] == j,
    decreases runs.len(),
{
    if runs.len() > 0 {
        let r = runs_with(runs.drop_last(), a);
        lemma_runs_with(runs.drop_last(), a);
        assert forall|j: int|
            0 <= j < runs.len() && addr_set(runs[j].functions@).contains(a) implies exists|t: int|
                0 <= t < runs_with(runs, a).len() && #[trigger] runs_with(runs, a)[t] == j by {
            if j < runs.len() - 1 {
                assert(runs.drop_last()[j] == runs[j]);
                let t = choose|t: int| 0 <= t < r.len() && #[trigger] r[t] == j;
                assert(runs_with(runs, a)[t] == j);
            } else {
                assert(runs_with(runs, a)[r.len() as int] == j);
            }
        }
        assert forall|t: int| 0 <= t < runs_with(runs, a).len() implies 0 <= #[trigger] runs_with(runs, a)[t] < runs.len()
                && addr_set(runs[runs_with(runs, a)[t]].functions@).contains(a) by {
            if t < r.len() {
                assert(runs.drop_last()[r[t]] == runs[r[t]]);
            }
        }
    }
}

/// The label of the `k`-th field the nondeterminism check looks at.
fn flaky_field_label(k: u8) -> (r: &'static str)
    requires
        k < 11,
    ensures
        r@ == flaky_field_name(k as int),
{
    match k {
        0 => "name",
        1 => "size",
        2 => "bb_count",
        3 => "callees",
        4 => "fingerprint",
        5 => "mnemonics",
        6 => "trigrams",
        7 => "string_refs",
        8 => "imports",
        9 => "callee_names",
        _ => "bsim_vector",
    }
}

/// Whether some run in `seen` disagrees with the first on field `k` at `addr`.
fn field_varies(
    canon: &Vec<Canonical>,
    seen: &Vec<usize>,
    addr: u64,
    k: u8,
    Ghost(runs): Ghost<Seq<Program>>,
) -> (r: bool)
    requires
        canon@.len() == runs.len(),
        forall|j: int| 0 <= j < runs.len() ==> is_canonical(#[trigger] canon@[j], runs[j]),
        seen@.len() == runs_with(runs, addr).len(),
        forall|t: int| 0 <= t < seen@.len() ==> #[trigger] seen@[t] as int == runs_with(runs, addr)[t],
        seen@.len() > 0,
    ensures
        r == varies(runs, runs_with(runs, addr), addr, k as int),
{
    let ghost sw = runs_with(runs, addr);
    proof {
        lemma_runs_with(runs, addr);
        assert(seen@[0] as int == sw[0]);
        assert(is_canonical(canon@[sw[0]], runs[sw[0]]));
    }
    let c0 = &canon[seen[0]];
    let first = match c0.functions.get(&addr) {
        Some(f) => f,
        None => {
            assert(false);
            return false;
        },
    };
    let mut t: usize = 0;
    while t < seen.len()
        invariant
            t <= seen@.len(),
            sw == runs_with(runs, addr),
            canon@.len() == runs.len(),
            forall|j: int| 0 <= j < runs.len() ==> is_canonical(#[trigger] canon@[j], runs[j]),
            seen@.len() == sw.len(),
            forall|q: int| 0 <= q < seen@.len() ==> #[trigger] seen@[q] as int == sw[q],
            forall|q: int|
                0 <= q < sw.len() ==> 0 <= #[trigger] sw[q] < runs.len() && addr_set(
                    runs[sw[q]].functions@,
                ).contains(addr),
            is_canonical_fn(*first, runs[sw[0]].functions@, at_addr(runs[sw[0]], addr)),
            forall|q: int| 0 <= q < t ==> same_in(runs[sw[0]], #[trigger] runs[sw[q]], addr, k as int),
        decreases seen@.len() - t,
    {
        let j = seen[t];
        assert(j as int == sw[t as int]);
        assert(is_canonical(canon@[j as int], runs[j as int]));
        let cj = &canon[j];
        let x = match cj.functions.get(&addr) {
            Some(x) => x,
            None => {
                assert(false);
                return false;
            },
        };
        proof {
            lemma_canon_same(*first, *x, runs[sw[0]], runs[j as int], addr, k as int);
        }
        if !same_field(first, x, k) {
            assert(!same_in(runs[sw[0]], runs[sw[t as int]], addr, k as int));
            return true;
        }
        t += 1;
    }
    false
}

/// Add `x` to a list of variants kept in increasing [`pair_lt`] order without repeats.
fn insert_variant(v: &mut Vec<(u64, u32)>, x: (u64, u32))
    requires
        sorted_by(old(v)@, pair_lt()),
    ensures
        sorted_by(final(v)@, pair_lt()),
        final(v)@.to_set() == old(v)@.to_set().insert(x),
{
    let mut k: usize = 0;
    loop
        invariant
            k <= v@.len(),
            v@ == old(v)@,
            sorted_by(v@, pair_lt()),
            forall|j: int| 0 <= j < k ==> (pair_lt())(v@[j], x),
        ensures
            k <= v@.len(),
            v@ == old(v)@,
            forall|j: int| 0 <= j < k ==> (pair_lt())(v@[j], x),
            k < v@.len() ==> (pair_lt())(x, v@[k as int]),
        decreases v@.len() - k,
    {
        if k >= v.len() {
            break;
        }
        let y = v[k];
        if y.0 == x.0 && y.1 == x.1 {
            assert(y == x);
            assert(v@.to_set().insert(x) =~= v@.to_set());
            return;
        }
        if y.0 > x.0 || (y.0 == x.0 && y.1 > x.1) {
            break;
        }
        k += 1;
    }
    let ghost before = v@;
    v.insert(k, x);
    assert(sorted_by(v@, pair_lt())) by {
        assert forall|i: int, j: int| 0 <= i < j < v@.len() implies #[trigger] (pair_lt())(
            v@[i],
            v@[j],
        ) by {
            if j < k {
                assert(v@[i] == before[i] && v@[j] == before[j]);
            } else if j == k {
                assert(v@[i] == before[i]);
            } else if i == k {
                assert(v@[j] == before[j - 1]);
                if j - 1 > k {
                    assert((pair_lt())(before[k as int], before[j - 1]));
                }
            } else if i < k {
                assert(v@[i] == before[i] && v@[j] == before[j - 1]);
            } else {
                assert(v@[i] == before[i - 1] && v@[j] == before[j - 1]);
            }
        }
    }
    assert forall|a: (u64, u32)| v@.to_set().contains(a) <==> before.to_set().insert(x).contains(a) by {
        if v@.to_set().contains(a) {
            let p = choose|p: int| 0 <= p < v@.len() && #[trigger] v@[p] == a;
            if p < k {
                assert(before[p] == a);
            } else if p > k {
                assert(before[p - 1] == a);
            }
        }
        if before.to_set().contains(a) {
            let p = choose|p: int| 0 <= p < before.len() && #[trigger] before[p] == a;
            if p < k {
                assert(v@[p] == a);
            } else {
                assert(v@[p + 1] == a);
            }
        }
        if a == x {
            assert(v@[k as int] == x);
        }
    }
    assert(v@.to_set() =~= before.to_set().insert(x));
}

proof fn lemma_pair_lt_strict()
    ensures
        strict_total(pair_lt()),
{
}

} // verus!

verus! {

/// The names and variants seen at `addr`, each once, in order.
fn seen_names_variants(
    canon: &Vec<Canonical>,
    seen: &Vec<usize>,
    addr: u64,
    Ghost(runs): Ghost<Seq<Program>>,
) -> (r: (Vec<String>, Vec<(u64, u32)>))
    requires
        canon@.len() == runs.len(),
        forall|j: int| 0 <= j < runs.len() ==> is_canonical(#[trigger] canon@[j], runs[j]),
        seen@.len() == runs_with(runs, addr).len(),
        forall|t: int| 0 <= t < seen@.len() ==> #[trigger] seen@[t] as int == runs_with(runs, addr)[t],
    ensures
        r.0.deep_view() == flaky_record(runs, addr).1,
        r.1@ == flaky_record(runs, addr).3,
{
    let ghost sw = runs_with(runs, addr);
    proof {
        lemma_runs_with(runs, addr);
    }
    let mut names: Vec<String> = Vec::new();
    let mut variants: Vec<(u64, u32)> = Vec::new();
    let mut t: usize = 0;
    while t < seen.len()
        invariant
            t <= seen@.len(),
            sw == runs_with(runs, addr),
            canon@.len() == runs.len(),
            forall|j: int| 0 <= j < runs.len() ==> is_canonical(#[trigger] canon@[j], runs[j]),
            seen@.len() == sw.len(),
            forall|q: int| 0 <= q < seen@.len() ==> #[trigger] seen@[q] as int == sw[q],
            forall|q: int|
                0 <= q < sw.len() ==> 0 <= #[trigger] sw[q] < runs.len() && addr_set(
                    runs[sw[q]].functions@,
                ).contains(addr),
            names.deep_view().to_set() == Set::new(
                |n: Seq<char>| exists|q: int| 0 <= q < t && n == at_addr(runs[sw[q]], addr).name@,
            ),
            sorted_by(variants@, pair_lt()),
            variants@.to_set() == Set::new(
                |v: (u64, u32)|
                    exists|q: int|
                        0 <= q < t && v == (
                            at_addr(runs[sw[q]], addr).size,
                            at_addr(runs[sw[q]], addr).bb_count,
                        ),
            ),
        decreases seen@.len() - t,
    {
        let j = seen[t];
        assert(j as int == sw[t as int]);
        assert(is_canonical(canon@[j as int], runs[j as int]));
        let cj = &canon[j];
        let x = match cj.functions.get(&addr) {
            Some(x) => x,
            None => {
                assert(false);
                return (names, variants);
            },
        };
        let ghost before = names.deep_view();
        let ghost vbefore = variants@.to_set();
        names.push(x.name.clone());
        assert(names.deep_view() =~= before.push(x.name@));
        insert_variant(&mut variants, (x.size, x.bb_count));
        assert(names.deep_view().to_set() =~= Set::new(
            |n: Seq<char>| exists|q: int| 0 <= q < t + 1 && n == at_addr(runs[sw[q]], addr).name@,
        )) by {
            assert forall|n: Seq<char>| names.deep_view().to_set().contains(n) implies exists|q: int|
                0 <= q < t + 1 && n == at_addr(runs[sw[q]], addr).name@ by {
                if !before.to_set().contains(n) {
                    assert(n == at_addr(runs[sw[t as int]], addr).name@);
                }
            }
            assert forall|n: Seq<char>|
                (exists|q: int| 0 <= q < t + 1 && n == at_addr(runs[sw[q]], addr).name@) implies names.deep_view().to_set().contains(n) by {
                let q = choose|q: int| 0 <= q < t + 1 && n == at_addr(runs[sw[q]], addr).name@;
                if q < t {
                    assert(before.to_set().contains(n));
                    let w = choose|w: int| 0 <= w < before.len() && #[trigger] before[w] == n;
                    assert(names.deep_view()[w] == n);
                } else {
                    assert(names.deep_view()[names.deep_view().len() - 1] == n);
                }
            }
        }
        assert(variants@.to_set() =~= Set::new(
            |v: (u64, u32)|
                exists|q: int|
                    0 <= q < t + 1 && v == (
                        at_addr(runs[sw[q]], addr).size,
                        at_addr(runs[sw[q]], addr).bb_count,
                    ),
        )) by {
            assert forall|v: (u64, u32)| variants@.to_set().contains(v) implies exists|q: int|
                0 <= q < t + 1 && v == (
                    at_addr(runs[sw[q]], addr).size,
                    at_addr(runs[sw[q]], addr).bb_count,
                ) by {
                if !vbefore.contains(v) {
                    assert(v == (x.size, x.bb_count));
                }
            }
        }
        t += 1;
    }
    let ghost unsorted = names.deep_view();
    let sorted = sort_strings(names);
    proof {
        crate::text::lemma_text_order_total();
        unsorted.lemma_sort_by_ensures(text_order());
        lemma_sort_same_set(unsorted);
    }
    let names = dedup_sorted(sorted);
    proof {
        lemma_text_strict();
        lemma_pair_lt_strict();
        lemma_in_order_is(names.deep_view(), unsorted.to_set(), text_strict());
        lemma_in_order_is(variants@, variants@.to_set(), pair_lt());
    }
    (names, variants)
}

/// The varied fields at `addr`, `presence` first.
fn varied_fields(
    canon: &Vec<Canonical>,
    seen: &Vec<usize>,
    addr: u64,
    Ghost(runs): Ghost<Seq<Program>>,
) -> (r: Vec<String>)
    requires
        canon@.len() == runs.len(),
        forall|j: int| 0 <= j < runs.len() ==> is_canonical(#[trigger] canon@[j], runs[j]),
        seen@.len() == runs_with(runs, addr).len(),
        forall|t: int| 0 <= t < seen@.len() ==> #[trigger] seen@[t] as int == runs_with(runs, addr)[t],
    ensures
        r.deep_view() == flaky_fields(runs, addr),
{
    let ghost sw = runs_with(runs, addr);
    let mut fields: Vec<String> = Vec::new();
    if seen.len() != canon.len() {
        fields.push(String::from_str("presence"));
    }
    let ghost prefix = fields.deep_view();
    assert(prefix =~= (if sw.len() != runs.len() {
        seq!["presence"@]
    } else {
        Seq::<Seq<char>>::empty()
    }));
    if seen.len() > 0 {
        let mut k: u8 = 0;
        while k < 11
            invariant
                k <= 11,
                sw == runs_with(runs, addr),
                canon@.len() == runs.len(),
                forall|j: int| 0 <= j < runs.len() ==> is_canonical(#[trigger] canon@[j], runs[j]),
                seen@.len() == sw.len(),
                seen@.len() > 0,
                forall|q: int| 0 <= q < seen@.len() ==> #[trigger] seen@[q] as int == sw[q],
                fields.deep_view() == prefix + varied(runs, sw, addr, k as nat),
            decreases 11 - k,
        {
            let ghost before = fields.deep_view();
            if field_varies(canon, seen, addr, k, Ghost(runs)) {
                let label = flaky_field_label(k);
                fields.push(String::from_str(label));
                assert(fields.deep_view() =~= before.push(flaky_field_name(k as int)));
            }
            assert(fields.deep_view() =~= prefix + varied(runs, sw, addr, (k + 1) as nat));
            k += 1;
        }
    } else {
        assert(fields.deep_view() =~= prefix + Seq::<Seq<char>>::empty());
    }
    fields
}

proof fn lemma_runs_with_every(runs: Seq<Program>, a: u64)
    requires
        forall|j: int| 0 <= j < runs.len() ==> addr_set((#[trigger] runs[j]).functions@).contains(a),
    ensures
        runs_with(runs, a).len() == runs.len(),
    decreases runs.len(),
{
    if runs.len() > 0 {
        assert forall|j: int| 0 <= j < runs.drop_last().len() implies addr_set(
            (#[trigger] runs.drop_last()[j]).functions@,
        ).contains(a) by {
            assert(runs.drop_last()[j] == runs[j]);
        }
        lemma_runs_with_every(runs.drop_last(), a);
        assert(addr_set(runs[runs.len() - 1].functions@).contains(a));
    }
}

proof fn lemma_none_varied(runs: Seq<Program>, seen: Seq<int>, a: u64, n: nat)
    requires
        seen.len() > 0,
        forall|t: int| 0 <= t < seen.len() ==> runs[#[trigger] seen[t]] == runs[seen[0]],
    ensures
        varied(runs, seen, a, n) == Seq::<Seq<char>>::empty(),
    decreases n,
{
    if n > 0 {
        lemma_none_varied(runs, seen, a, (n - 1) as nat);
        assert(!varies(runs, seen, a, n - 1)) by {
            assert forall|t: int| 0 <= t < seen.len() implies same_in(runs[seen[0]], #[trigger] runs[seen[t]], a, n - 1) by {
                assert(runs[seen[t]] == runs[seen[0]]);
            }
        }
    }
}

proof fn lemma_same_runs_records(runs: Seq<Program>, keys: Seq<u64>)
    requires
        runs.len() > 0,
        forall|i: int| 0 <= i < runs.len() ==> #[trigger] runs[i] == runs[0],
        forall|i: int| 0 <= i < keys.len() ==> addr_set(runs[0].functions@).contains(#[trigger] keys[i]),
    ensures
        flaky_records(runs, keys) == Seq::<(Seq<char>, Seq<Seq<char>>, Seq<Seq<char>>, Seq<(u64, u32)>)>::empty(),
    decreases keys.len(),
{
    if keys.len() > 0 {
        assert forall|i: int| 0 <= i < keys.drop_last().len() implies addr_set(runs[0].functions@).contains(
            #[trigger] keys.drop_last()[i],
        ) by {
            assert(keys.drop_last()[i] == keys[i]);
        }
        lemma_same_runs_records(runs, keys.drop_last());
        let a = keys.last();
        assert(addr_set(runs[0].functions@).contains(keys[keys.len() - 1]));
        assert forall|j: int| 0 <= j < runs.len() implies addr_set((#[trigger] runs[j]).functions@).contains(a) by {
            assert(runs[j] == runs[0]);
        }
        lemma_runs_with_every(runs, a);
        lemma_runs_with(runs, a);
        let seen = runs_with(runs, a);
        assert(0 <= seen[0] < runs.len());
        assert forall|t: int| 0 <= t < seen.len() implies runs[#[trigger] seen[t]] == runs[seen[0]] by {
            assert(runs[seen[t]] == runs[0]);
            assert(runs[seen[0]] == runs[0]);
        }
        lemma_none_varied(runs, seen, a, n_flaky_fields());
        assert(flaky_fields(runs, a) =~= Seq::<Seq<char>>::empty());
    }
}

/// Characterize the engine's own nondeterminism: given several programs produced by running
/// the raw engine directly on the same binary, list every function (by address) that any field
/// disagrees on between any two runs. A function only present in some runs is included too.
/// Runs that all agree have no flaky function.
pub fn flaky(runs: &[Program]) -> (r: Flaky)
    ensures
        r.runs == runs@.len(),
        r.functions.deep_view() == flaky_records(runs@, in_order(all_addrs(runs@), addr_lt())),
        (forall|i: int| 0 <= i < runs@.len() ==> #[trigger] runs@[i] == runs@[0]) ==> r.functions@.len() == 0,
        forall|a: u64, j: int, k: int|
            #![trigger addr_set(runs@[j].functions@).contains(a), addr_set(runs@[k].functions@).contains(a)]
            0 <= j < runs@.len() && 0 <= k < runs@.len() && addr_set(runs@[j].functions@).contains(a)
                && !addr_set(runs@[k].functions@).contains(a) ==> reports_presence(r.functions.deep_view(), a),
{
    let canon = canon_all(runs);
    let keys = union_addrs(runs);
    proof {
        lemma_addr_lt_strict();
        lemma_in_order_is(keys@, all_addrs(runs@), addr_lt());
    }
    let mut functions: Vec<FlakyRecord> = Vec::new();
    let mut i: usize = 0;
    while i < keys.len()
        invariant
            i <= keys@.len(),
            canon@.len() == runs@.len(),
            forall|j: int| 0 <= j < runs@.len() ==> is_canonical(#[trigger] canon@[j], runs@[j]),
            functions.deep_view() == flaky_records(runs@, keys@.take(i as int)),
        decreases keys@.len() - i,
    {
        let addr = keys[i];
        assert(keys@.take(i + 1).drop_last() =~= keys@.take(i as int));
        let seen = seen_runs(&canon, addr, Ghost(runs@));
        let fields = varied_fields(&canon, &seen, addr, Ghost(runs@));
        if fields.len() > 0 {
            let (names, variants) = seen_names_variants(&canon, &seen, addr, Ghost(runs@));
            let ghost before = functions.deep_view();
            let rec = FlakyRecord { addr: hex_string(addr), names, fields, variants };
            functions.push(rec);
            assert(functions.deep_view() =~= before.push(flaky_record(runs@, addr)));
        }
        i += 1;
    }
    assert(keys@.take(keys@.len() as int) =~= keys@);
    proof {
        if forall|i: int| 0 <= i < runs@.len() ==> #[trigger] runs@[i] == runs@[0] {
            assert forall|i: int| 0 <= i < keys@.len() implies all_addrs(runs@).contains(#[trigger] keys@[i]) by {
                assert(keys@.to_set().contains(keys@[i]));
            }
            if runs@.len() > 0 {
                assert forall|i: int| 0 <= i < keys@.len() implies addr_set(runs@[0].functions@).contains(
                    #[trigger] keys@[i],
                ) by {
                    assert(all_addrs(runs@).contains(keys@[i]));
                    let j = choose|j: int| 0 <= j < runs@.len() && addr_set(runs@[j].functions@).contains(keys@[i]);
                    assert(runs@[j] == runs@[0]);
                }
                lemma_same_runs_records(runs@, keys@);
            } else if keys@.len() > 0 {
                assert(all_addrs(runs@).contains(keys@[0]));
            }
            assert(functions.deep_view().len() == 0);
        }
        assert forall|a: u64, j: int, k: int|
            #![trigger addr_set(runs@[j].functions@).contains(a), addr_set(runs@[k].functions@).contains(a)]
            0 <= j < runs@.len() && 0 <= k < runs@.len() && addr_set(runs@[j].functions@).contains(a)
                && !addr_set(runs@[k].functions@).contains(a) implies reports_presence(functions.deep_view(), a) by {
            law_partial_presence_is_flaky(runs@, a, j, k);
        }
    }
    Flaky { runs: runs.len(), functions }
}

} // verus!

verus! {

/// The value of a hexadecimal digit (either case), if `c` is one.
pub open spec fn hex_digit_value(c: char) -> Option<nat> {
    if '0' <= c && c <= '9' {
        Some((c as nat - '0' as nat) as nat)
    } else if 'a' <= c && c <= 'f' {
        Some((c as nat - 'a' as nat + 10) as nat)
    } else if 'A' <= c && c <= 'F' {
        Some((c as nat - 'A' as nat + 10) as nat)
    } else {
        None
    }
}

/// Every character is a hexadecimal digit.
pub open spec fn all_hex(s: Seq<char>) -> bool {
    forall|i: int| 0 <= i < s.len() ==> #[trigger] hex_digit_value(s[i]) is Some
}

/// The number the hexadecimal digits `s` spell.
pub open spec fn hex_value(s: Seq<char>) -> nat
    decreases s.len(),
{
    if s.len() == 0 {
        0
    } else {
        hex_value(s.drop_last()) * 16 + hex_digit_value(s.last()).unwrap_or(0)
    }
}

/// `u64::from_str_radix(s, 16)`, as an option: an optional `+`, then at least one hexadecimal
/// digit and nothing else, with a value that fits.
pub open spec fn parse_hex(s: Seq<char>) -> Option<u64> {
    let d = if s.len() > 0 && s[0] == '+' {
        s.drop_first()
    } else {
        s
    };
    if d.len() > 0 && all_hex(d) && hex_value(d) <= u64::MAX {
        Some(hex_value(d) as u64)
    } else {
        None
    }
}

/// `s` without a leading `0x`, if it has one.
pub open spec fn strip_hex_prefix(s: Seq<char>) -> Seq<char> {
    if s.len() >= 2 && s[0] == '0' && s[1] == 'x' {
        s.subrange(2, s.len() as int)
    } else {
        s
    }
}

proof fn lemma_hex_value_grows(s: Seq<char>, k: int)
    requires
        0 <= k <= s.len(),
    ensures
        hex_value(s) >= hex_value(s.take(k)),
    decreases s.len(),
{
    if k < s.len() {
        lemma_hex_value_grows(s.drop_last(), k);
        assert(s.drop_last().take(k) =~= s.take(k));
    } else {
        assert(s.take(k) =~= s);
    }
}

fn hex_digit(c: char) -> (r: Option<u64>)
    ensures
        match hex_digit_value(c) {
            Some(v) => r == Some(v as u64),
            None => r is None,
        },
{
    if '0' <= c && c <= '9' {
        Some((c as u32 - '0' as u32) as u64)
    } else if 'a' <= c && c <= 'f' {
        Some((c as u32 - 'a' as u32 + 10) as u64)
    } else if 'A' <= c && c <= 'F' {
        Some((c as u32 - 'A' as u32 + 10) as u64)
    } else {
        None
    }
}

/// Why hexadecimal digits failed to parse, as `u64::from_str_radix` classifies it.
#[derive(Clone, Copy, Debug, PartialEq, Eq, Structural)]
pub enum HexError {
    /// Nothing to parse.
    Empty,
    /// A character that is not a hexadecimal digit (or a lone sign).
    InvalidDigit,
    /// The value does not fit in a `u64`.
    PosOverflow,
}

/// The text `ParseIntError` displays for each kind.
pub open spec fn hex_error_text(e: HexError) -> Seq<char> {
    match e {
        HexError::Empty => "cannot parse integer from empty string"@,
        HexError::InvalidDigit => "invalid digit found in string"@,
        HexError::PosOverflow => "number too large to fit in target type"@,
    }
}

impl HexError {
    /// The message this error displays.
    pub fn message(&self) -> (s: &'static str)
        ensures
            s@ == hex_error_text(*self),
    {
        match self {
            HexError::Empty => "cannot parse integer from empty string",
            HexError::InvalidDigit => "invalid digit found in string",
            HexError::PosOverflow => "number too large to fit in target type",
        }
    }
}

/// How the digit at `i` stops the scan, if it does: not a digit, or the value so far overflows.
pub open spec fn bad_at(d: Seq<char>, i: int) -> Option<HexError> {
    if hex_digit_value(d[i]) is None {
        Some(HexError::InvalidDigit)
    } else if hex_value(d.take(i + 1)) > u64::MAX {
        Some(HexError::PosOverflow)
    } else {
        None
    }
}

/// The first failure of a left-to-right scan of `d` from position `i`.
pub open spec fn first_failure(d: Seq<char>, i: int) -> Option<HexError>
    decreases d.len() - i,
{
    if i < 0 || i >= d.len() {
        None
    } else if bad_at(d, i) is Some {
        bad_at(d, i)
    } else {
        first_failure(d, i + 1)
    }
}

/// The error `u64::from_str_radix(s, 16)` reports on text it refuses.
pub open spec fn hex_error(s: Seq<char>) -> HexError {
    let d = if s.len() > 0 && s[0] == '+' {
        s.drop_first()
    } else {
        s
    };
    if s.len() == 0 {
        HexError::Empty
    } else if d.len() == 0 {
        HexError::InvalidDigit
    } else {
        match first_failure(d, 0) {
            Some(e) => e,
            None => HexError::InvalidDigit,
        }
    }
}

proof fn lemma_first_failure_skip(d: Seq<char>, i: int)
    requires
        0 <= i <= d.len(),
        forall|j: int| 0 <= j < i ==> bad_at(d, j) is None,
    ensures
        first_failure(d, 0) == first_failure(d, i),
    decreases i,
{
    if i > 0 {
        lemma_first_failure_skip(d, i - 1);
    }
}

/// Parse hexadecimal digits the way `u64::from_str_radix(_, 16)` does, reporting why it fails.
#[verifier::spinoff_prover]
#[verifier::rlimit(40)]
pub fn parse_hex_u64(s: &str) -> (r: Result<u64, HexError>)
    ensures
        match r {
            Ok(v) => parse_hex(s@) == Some(v),
            Err(e) => parse_hex(s@) is None && e == hex_error(s@),
        },
{
    let cs = crate::text::chars_of(s);
    if cs.len() == 0 {
        return Err(HexError::Empty);
    }
    let start: usize = if cs[0] == '+' {
        1
    } else {
        0
    };
    let ghost d = if s@.len() > 0 && s@[0] == '+' {
        s@.drop_first()
    } else {
        s@
    };
    assert(d =~= cs@.subrange(start as int, cs@.len() as int));
    if start >= cs.len() {
        return Err(HexError::InvalidDigit);
    }
    let mut acc: u64 = 0;
    let mut i: usize = start;
    while i < cs.len()
        invariant
            start <= i <= cs@.len(),
            cs@ == s@,
            s@.len() > 0,
            d == cs@.subrange(start as int, cs@.len() as int),
            d == (if s@.len() > 0 && s@[0] == '+' {
                s@.drop_first()
            } else {
                s@
            }),
            d.len() > 0,
            all_hex(d.take(i - start)),
            acc as nat == hex_value(d.take(i - start)),
            forall|j: int| 0 <= j < i - start ==> bad_at(d, j) is None,
        decreases cs@.len() - i,
    {
        let ghost k = i - start;
        assert(d.take(k + 1).drop_last() =~= d.take(k));
        assert(d.take(k + 1).last() == cs@[i as int]);
        assert(d[k] == cs@[i as int]);
        let v = match hex_digit(cs[i]) {
            Some(v) => v,
            None => {
                proof {
                    assert(!all_hex(d)) by {
                        assert(hex_digit_value(d[k]) is None);
                    }
                    lemma_first_failure_skip(d, k);
                }
                return Err(HexError::InvalidDigit);
            },
        };
        if acc > (u64::MAX - v) / 16 {
            proof {
                assert(hex_value(d.take(k + 1)) > u64::MAX) by (nonlinear_arith)
                    requires
                        hex_value(d.take(k + 1)) == acc * 16 + v,
                        acc > (u64::MAX - v) / 16,
                        v < 16,
                ;
                if all_hex(d) {
                    lemma_hex_value_grows(d, k + 1);
                }
                lemma_first_failure_skip(d, k);
            }
            return Err(HexError::PosOverflow);
        }
        acc = acc * 16 + v;
        i += 1;
    }
    assert(d.take(d.len() as int) =~= d);
    Ok(acc)
}

impl Flaky {
    /// The address mask [`compare_masked`] takes: the records' addresses that parse as
    /// hexadecimal (after an optional `0x`).
    pub fn mask(&self) -> (r: BTreeSet<u64>)
        ensures
            r@ == Set::new(
                |a: u64|
                    exists|i: int|
                        0 <= i < self.functions@.len() && parse_hex(
                            strip_hex_prefix(#[trigger] self.functions@[i].addr@),
                        ) == Some(a),
            ),
    {
        let mut out: BTreeSet<u64> = BTreeSet::new();
        let mut i: usize = 0;
        while i < self.functions.len()
            invariant
                i <= self.functions@.len(),
                out@ == Set::new(
                    |a: u64|
                        exists|j: int|
                            0 <= j < i && parse_hex(
                                strip_hex_prefix(#[trigger] self.functions@[j].addr@),
                            ) == Some(a),
                ),
            decreases self.functions@.len() - i,
        {
            let digits = strip_0x(self.functions[i].addr.as_str());
            let ghost before = out@;
            match parse_hex_u64(digits.as_str()) {
                Ok(a) => {
                    out.insert(a);
                },
                Err(_) => {},
            }
            assert(out@ =~= Set::new(
                |a: u64|
                    exists|j: int|
                        0 <= j < i + 1 && parse_hex(
                            strip_hex_prefix(#[trigger] self.functions@[j].addr@),
                        ) == Some(a),
            )) by {
                assert forall|a: u64| #[trigger] out@.contains(a) implies exists|j: int|
                    0 <= j < i + 1 && parse_hex(strip_hex_prefix(#[trigger] self.functions@[j].addr@))
                        == Some(a) by {
                    if !before.contains(a) {
                        assert(parse_hex(strip_hex_prefix(self.functions@[i as int].addr@)) == Some(a));
                    }
                }
            }
            i += 1;
        }
        out
    }
}

/// `s` without a leading `0x`, if it has one.
fn strip_0x(s: &str) -> (r: String)
    ensures
        r@ == strip_hex_prefix(s@),
{
    let cs = crate::text::chars_of(s);
    if cs.len() >= 2 && cs[0] == '0' && cs[1] == 'x' {
        let mut rest: Vec<char> = Vec::new();
        let mut i: usize = 2;
        while i < cs.len()
            invariant
                2 <= i <= cs@.len(),
                rest@ == cs@.subrange(2, i as int),
            decreases cs@.len() - i,
        {
            rest.push(cs[i]);
            assert(rest@ =~= cs@.subrange(2, i + 1));
            i += 1;
        }
        crate::text::string_from_chars(&rest)
    } else {
        crate::text::string_from_chars(&cs)
    }
}

} // verus!

verus! {

proof fn lemma_hex_digits(n: nat)
    ensures
        all_hex(crate::text::digits(n, 16)),
        hex_value(crate::text::digits(n, 16)) == n,
        crate::text::digits(n, 16).len() > 0,
        crate::text::digits(n, 16)[0] != '+',
    decreases n,
{
    let d = crate::text::digits(n, 16);
    if n < 16 {
        assert(d == seq![crate::text::digit_char(n)]);
        assert(d.drop_last() =~= Seq::<char>::empty());
        assert(hex_digit_value(crate::text::digit_char(n)) == Some(n));
        assert(hex_value(d) == hex_value(d.drop_last()) * 16 + n);
    } else {
        let q = n / 16;
        let r = n % 16;
        assert(q < n);
        lemma_hex_digits(q);
        let dq = crate::text::digits(q, 16);
        assert(d == dq.push(crate::text::digit_char(r)));
        assert(d.drop_last() =~= dq);
        assert(hex_digit_value(crate::text::digit_char(r)) == Some(r));
        assert forall|i: int| 0 <= i < d.len() implies #[trigger] hex_digit_value(d[i]) is Some by {
            if i < dq.len() {
                assert(d[i] == dq[i]);
            }
        }
        assert(d[0] == dq[0]);
        assert(n == q * 16 + r) by (nonlinear_arith)
            requires
                q == n / 16,
                r == n % 16,
        ;
        assert(hex_value(d) == hex_value(dq) * 16 + r);
    }
}

/// An address written as `{:#x}` reads back as itself: stripping the `0x` and parsing the
/// hexadecimal digits gives the number that was written.
pub proof fn law_hex_round_trip(a: u64)
    ensures
        parse_hex(strip_hex_prefix(crate::text::hex_prefixed(a as nat))) == Some(a),
{
    lemma_hex_digits(a as nat);
    let d = crate::text::digits(a as nat, 16);
    let s = crate::text::hex_prefixed(a as nat);
    assert(strip_hex_prefix(s) =~= d);
}

} // verus!

verus! {

/// `g` is `f` under a renumbering of stable ids: its own id and its callees renamed, every
/// other field the same.
pub open spec fn renumbered(f: Function, g: Function, rename: spec_fn(StableId) -> StableId) -> bool {
    &&& g.id == rename(f.id)
    &&& g.callees@ == f.callees@.map_values(|c: StableId| rename(c))
    &&& g.addr == f.addr
    &&& g.name == f.name
    &&& g.size == f.size
    &&& g.bb_count == f.bb_count
    &&& g.fingerprint == f.fingerprint
    &&& g.mnemonics@ == f.mnemonics@
    &&& g.trigrams@ == f.trigrams@
    &&& g.string_refs@ == f.string_refs@
    &&& g.imports@ == f.imports@
    &&& g.callee_names@ == f.callee_names@
    &&& g.bsim_vector@ == f.bsim_vector@
}

/// `gs` is `fs` function by function under the renumbering `rename`.
pub open spec fn renumbered_all(fs: Seq<Function>, gs: Seq<Function>, rename: spec_fn(StableId) -> StableId) -> bool {
    &&& fs.len() == gs.len()
    &&& forall|i: int| 0 <= i < fs.len() ==> renumbered(fs[i], #[trigger] gs[i], rename)
}

proof fn lemma_renumbered_lookup(
    fs: Seq<Function>,
    gs: Seq<Function>,
    rename: spec_fn(StableId) -> StableId,
    x: StableId,
    a: u64,
)
    requires
        renumbered_all(fs, gs, rename),
        forall|u: StableId, v: StableId| #[trigger] rename(u) == #[trigger] rename(v) ==> u == v,
    ensures
        addr_of_id(gs, rename(x)) == addr_of_id(fs, x),
        last_at(gs, a) == last_at(fs, a),
    decreases fs.len(),
{
    if fs.len() > 0 {
        let (df, dg) = (fs.drop_last(), gs.drop_last());
        assert(renumbered_all(df, dg, rename)) by {
            assert forall|i: int| 0 <= i < df.len() implies renumbered(df[i], #[trigger] dg[i], rename) by {
                assert(renumbered(fs[i], gs[i], rename));
            }
        }
        lemma_renumbered_lookup(df, dg, rename, x, a);
        assert(renumbered(fs[fs.len() - 1], gs[gs.len() - 1], rename));
        if fs.last().id != x {
            assert(rename(fs.last().id) != rename(x));
        }
    }
}

/// The canonical form forgets what the A/B check must not see: a program's name, its user facts
/// and which stable ids it uses. A canonical form of `p` is one of any `q` with `p`'s language
/// and `p`'s functions under an injective renumbering of ids.
pub proof fn law_canonical_ignores_names_facts_and_ids(
    c: Canonical,
    p: Program,
    q: Program,
    rename: spec_fn(StableId) -> StableId,
)
    requires
        is_canonical(c, p),
        q.language == p.language,
        renumbered_all(p.functions@, q.functions@, rename),
        forall|u: StableId, v: StableId| #[trigger] rename(u) == #[trigger] rename(v) ==> u == v,
    ensures
        is_canonical(c, q),
{
    let (fs, gs) = (p.functions@, q.functions@);
    assert(addr_set(fs) =~= addr_set(gs)) by {
        assert forall|a: u64| addr_set(fs).contains(a) <==> addr_set(gs).contains(a) by {
            if addr_set(fs).contains(a) {
                let i = choose|i: int| 0 <= i < fs.len() && fs[i].addr == a;
                assert(renumbered(fs[i], gs[i], rename));
            }
            if addr_set(gs).contains(a) {
                let i = choose|i: int| 0 <= i < gs.len() && gs[i].addr == a;
                assert(renumbered(fs[i], gs[i], rename));
            }
        }
    }
    assert forall|a: u64| #[trigger] c.functions@.contains_key(a) implies is_canonical_fn(
        c.functions@[a],
        gs,
        gs[last_at(gs, a)],
    ) by {
        lemma_renumbered_lookup(fs, gs, rename, StableId(0), a);
        lemma_last_at(fs, a);
        let k = last_at(fs, a);
        let (f, g) = (fs[k], gs[k]);
        assert(renumbered(f, g, rename));
        assert(callee_addrs(gs, g) =~= callee_addrs(fs, f)) by {
            assert forall|b: u64| callee_addrs(gs, g).contains(b) <==> callee_addrs(fs, f).contains(b) by {
                if callee_addrs(fs, f).contains(b) {
                    let i = choose|i: int| 0 <= i < f.callees@.len() && addr_of_id(fs, f.callees@[i]) == Some(b);
                    lemma_renumbered_lookup(fs, gs, rename, f.callees@[i], a);
                    assert(g.callees@[i] == rename(f.callees@[i]));
                }
                if callee_addrs(gs, g).contains(b) {
                    let i = choose|i: int| 0 <= i < g.callees@.len() && addr_of_id(gs, g.callees@[i]) == Some(b);
                    lemma_renumbered_lookup(fs, gs, rename, f.callees@[i], a);
                    assert(g.callees@[i] == rename(f.callees@[i]));
                }
            }
        }
    }
}

} // verus!

verus! {

proof fn lemma_renumbered_at(p: Program, q: Program, rename: spec_fn(StableId) -> StableId, a: u64)
    requires
        renumbered_all(p.functions@, q.functions@, rename),
        forall|u: StableId, v: StableId| #[trigger] rename(u) == #[trigger] rename(v) ==> u == v,
        addr_set(p.functions@).contains(a),
    ensures
        addr_set(p.functions@) == addr_set(q.functions@),
        renumbered(at_addr(p, a), at_addr(q, a), rename),
        canon_callees(p.functions@, at_addr(p, a)) == canon_callees(q.functions@, at_addr(q, a)),
{
    let (fs, gs) = (p.functions@, q.functions@);
    assert(addr_set(fs) =~= addr_set(gs)) by {
        assert forall|b: u64| addr_set(fs).contains(b) <==> addr_set(gs).contains(b) by {
            if addr_set(fs).contains(b) {
                let i = choose|i: int| 0 <= i < fs.len() && fs[i].addr == b;
                assert(renumbered(fs[i], gs[i], rename));
            }
            if addr_set(gs).contains(b) {
                let i = choose|i: int| 0 <= i < gs.len() && gs[i].addr == b;
                assert(renumbered(fs[i], gs[i], rename));
            }
        }
    }
    lemma_renumbered_lookup(fs, gs, rename, StableId(0), a);
    lemma_last_at(fs, a);
    let k = last_at(fs, a);
    assert(k >= 0) by {
        let i = choose|i: int| 0 <= i < fs.len() && fs[i].addr == a;
        if k < 0 {
            assert(fs[i].addr != a);
        }
    }
    let (f, g) = (fs[k], gs[k]);
    assert(renumbered(f, g, rename));
    assert(callee_addrs(gs, g) =~= callee_addrs(fs, f)) by {
        assert forall|b: u64| callee_addrs(gs, g).contains(b) <==> callee_addrs(fs, f).contains(b) by {
            if callee_addrs(fs, f).contains(b) {
                let i = choose|i: int| 0 <= i < f.callees@.len() && addr_of_id(fs, f.callees@[i]) == Some(b);
                lemma_renumbered_lookup(fs, gs, rename, f.callees@[i], a);
                assert(g.callees@[i] == rename(f.callees@[i]));
            }
            if callee_addrs(gs, g).contains(b) {
                let i = choose|i: int| 0 <= i < g.callees@.len() && addr_of_id(gs, g.callees@[i]) == Some(b);
                lemma_renumbered_lookup(fs, gs, rename, f.callees@[i], a);
                assert(g.callees@[i] == rename(f.callees@[i]));
            }
        }
    }
}

proof fn lemma_renumbered_rows(
    keys: Seq<u64>,
    p: Program,
    q: Program,
    x: Program,
    rename: spec_fn(StableId) -> StableId,
    mask: Set<u64>,
)
    requires
        renumbered_all(p.functions@, q.functions@, rename),
        forall|u: StableId, v: StableId| #[trigger] rename(u) == #[trigger] rename(v) ==> u == v,
        forall|i: int| 0 <= i < keys.len() ==> addr_set(p.functions@).contains(#[trigger] keys[i]),
    ensures
        mismatch_rows(keys, q, x, mask) == mismatch_rows(keys, p, x, mask),
        masked_rows(keys, q, x, mask) == masked_rows(keys, p, x, mask),
    decreases keys.len(),
{
    if keys.len() > 0 {
        assert forall|i: int| 0 <= i < keys.drop_last().len() implies addr_set(p.functions@).contains(
            #[trigger] keys.drop_last()[i],
        ) by {
            assert(keys.drop_last()[i] == keys[i]);
        }
        lemma_renumbered_rows(keys.drop_last(), p, q, x, rename, mask);
        let k = keys.last();
        assert(addr_set(p.functions@).contains(keys[keys.len() - 1]));
        lemma_renumbered_at(p, q, rename, k);
        let (f, g) = (at_addr(p, k), at_addr(q, k));
        assert(f.mnemonics.deep_view() =~= g.mnemonics.deep_view());
        assert(f.trigrams.deep_view() =~= g.trigrams.deep_view());
        assert(f.string_refs.deep_view() =~= g.string_refs.deep_view());
        assert(f.imports.deep_view() =~= g.imports.deep_view());
        assert(f.callee_names.deep_view() =~= g.callee_names.deep_view());
        let r = mismatch_rows(keys.drop_last(), p, x, mask);
        assert(add_shape_mismatches(r, k, q, x) == add_shape_mismatches(r, k, p, x));
        assert(add_fn_mismatches(r, k, q, x) == add_fn_mismatches(r, k, p, x));
    }
}

/// What the model part of a report says does not depend on which stable ids the inside leg uses
/// (or on its name and facts): under an injective renumbering of its ids, the same counts,
/// language, one-sided addresses, masked functions and field mismatches are reported.
pub proof fn law_report_ignores_ids(
    r: Report,
    p: Program,
    q: Program,
    outside: Program,
    rename: spec_fn(StableId) -> StableId,
    mask: Set<u64>,
)
    requires
        model_reported(r, p, outside, mask),
        q.language == p.language,
        renumbered_all(p.functions@, q.functions@, rename),
        forall|u: StableId, v: StableId| #[trigger] rename(u) == #[trigger] rename(v) ==> u == v,
    ensures
        model_reported(r, q, outside, mask),
{
    lemma_addr_keys(p);
    let keys = addr_keys(p);
    if p.functions@.len() > 0 {
        lemma_renumbered_at(p, q, rename, p.functions@[0].addr);
    } else {
        assert(addr_set(p.functions@) =~= Set::<u64>::empty());
        assert(addr_set(q.functions@) =~= Set::<u64>::empty());
    }
    assert(addr_set(p.functions@) == addr_set(q.functions@));
    assert forall|i: int| 0 <= i < keys.len() implies addr_set(p.functions@).contains(#[trigger] keys[i]) by {
        assert(keys.to_set().contains(keys[i]));
    }
    lemma_renumbered_rows(keys, p, q, outside, rename, mask);
}

} // verus!

verus! {

/// `x` put into the strictly increasing `k` (unchanged when it is there already).
pub open spec fn put_addr(k: Seq<u64>, x: u64) -> Seq<u64>
    decreases k.len(),
{
    if k.len() == 0 {
        seq![x]
    } else if k.last() == x {
        k
    } else if x < k.last() {
        put_addr(k.drop_last(), x).push(k.last())
    } else {
        k.push(x)
    }
}

proof fn lemma_put_addr(k: Seq<u64>, x: u64)
    requires
        sorted_by(k, addr_lt()),
    ensures
        sorted_by(put_addr(k, x), addr_lt()),
        put_addr(k, x).to_set() == k.to_set().insert(x),
        forall|i: int| 0 <= i < put_addr(k, x).len() ==> (#[trigger] put_addr(k, x)[i] == x || k.contains(put_addr(k, x)[i])),
    decreases k.len(),
{
    broadcast use vstd::seq_lib::group_seq_properties;

    let r = put_addr(k, x);
    if k.len() == 0 {
        assert(r =~= Seq::<u64>::empty().push(x));
        assert(r.to_set() =~= k.to_set().insert(x));
    } else {
        let d = k.drop_last();
        let l = k.last();
        assert(sorted_by(d, addr_lt()));
        assert(k =~= d.push(l));
        if l == x {
            assert(r.to_set() =~= k.to_set().insert(x)) by {
                assert(k[k.len() - 1] == x);
                assert(k.to_set().contains(x));
            }
        } else if x < l {
            lemma_put_addr(d, x);
            let m = put_addr(d, x);
            assert forall|i: int, j: int| 0 <= i < j < r.len() implies (addr_lt())(r[i], r[j]) by {
                if j == r.len() - 1 {
                    assert(r[i] == m[i]);
                    if m[i] != x {
                        assert(d.contains(m[i]));
                        let q = choose|q: int| 0 <= q < d.len() && d[q] == m[i];
                        assert(k[q] == m[i]);
                    }
                } else {
                    assert(r[i] == m[i] && r[j] == m[j]);
                }
            }
            assert(r == m.push(l));
            m.lemma_push_to_set_commute(l);
            d.lemma_push_to_set_commute(l);
            assert(r.to_set() =~= k.to_set().insert(x));
            assert forall|i: int| 0 <= i < r.len() implies (#[trigger] r[i] == x || k.contains(r[i])) by {
                if i < m.len() {
                    assert(r[i] == m[i]);
                    if m[i] != x {
                        let q = choose|q: int| 0 <= q < d.len() && d[q] == m[i];
                        assert(k[q] == m[i]);
                    }
                } else {
                    assert(k[k.len() - 1] == r[i]);
                }
            }
        } else {
            assert forall|i: int, j: int| 0 <= i < j < r.len() implies (addr_lt())(r[i], r[j]) by {
                if j == r.len() - 1 && i < k.len() - 1 {
                    assert((addr_lt())(k[i], k[k.len() - 1]));
                }
            }
            assert(r == k.push(x));
            assert(r.to_set() =~= k.to_set().insert(x));
        }
    }
}

/// The entry addresses of `fs` in increasing order, built one function at a time.
pub open spec fn addrs_in_order(fs: Seq<Function>) -> Seq<u64>
    decreases fs.len(),
{
    if fs.len() == 0 {
        Seq::empty()
    } else {
        put_addr(addrs_in_order(fs.drop_last()), fs.last().addr)
    }
}

/// Every program's entry addresses can be listed in increasing order, so `addr_keys` is that list.
pub proof fn lemma_addr_keys(p: Program)
    ensures
        lists_in_order(addr_keys(p), addr_set(p.functions@), addr_lt()),
{
    lemma_addrs_in_order(p.functions@);
    lemma_addr_lt_strict();
    lemma_in_order_is(addrs_in_order(p.functions@), addr_set(p.functions@), addr_lt());
}

proof fn lemma_addrs_in_order(fs: Seq<Function>)
    ensures
        lists_in_order(addrs_in_order(fs), addr_set(fs), addr_lt()),
    decreases fs.len(),
{
    if fs.len() == 0 {
        assert(Seq::<u64>::empty().to_set() =~= addr_set(fs));
    } else {
        let d = fs.drop_last();
        lemma_addrs_in_order(d);
        lemma_put_addr(addrs_in_order(d), fs.last().addr);
        assert(addr_set(fs) =~= addr_set(d).insert(fs.last().addr)) by {
            assert forall|a: u64| addr_set(fs).contains(a) implies addr_set(d).insert(fs.last().addr).contains(a) by {
                let i = choose|i: int| 0 <= i < fs.len() && fs[i].addr == a;
                if i < d.len() {
                    assert(d[i].addr == a);
                }
            }
            assert forall|a: u64| addr_set(d).contains(a) implies addr_set(fs).contains(a) by {
                let i = choose|i: int| 0 <= i < d.len() && d[i].addr == a;
                assert(fs[i].addr == a);
            }
            assert(addr_set(fs).contains(fs[fs.len() - 1].addr));
        }
    }
}

} // verus!

verus! {

proof fn lemma_renumbered_rows_out(
    keys: Seq<u64>,
    x: Program,
    p: Program,
    q: Program,
    rename: spec_fn(StableId) -> StableId,
    mask: Set<u64>,
)
    requires
        renumbered_all(p.functions@, q.functions@, rename),
        forall|u: StableId, v: StableId| #[trigger] rename(u) == #[trigger] rename(v) ==> u == v,
        addr_set(p.functions@) == addr_set(q.functions@),
    ensures
        mismatch_rows(keys, x, q, mask) == mismatch_rows(keys, x, p, mask),
        masked_rows(keys, x, q, mask) == masked_rows(keys, x, p, mask),
    decreases keys.len(),
{
    if keys.len() > 0 {
        lemma_renumbered_rows_out(keys.drop_last(), x, p, q, rename, mask);
        let k = keys.last();
        if addr_set(p.functions@).contains(k) {
            lemma_renumbered_at(p, q, rename, k);
            let (f, g) = (at_addr(p, k), at_addr(q, k));
            assert(f.mnemonics.deep_view() =~= g.mnemonics.deep_view());
            assert(f.trigrams.deep_view() =~= g.trigrams.deep_view());
            assert(f.string_refs.deep_view() =~= g.string_refs.deep_view());
            assert(f.imports.deep_view() =~= g.imports.deep_view());
            assert(f.callee_names.deep_view() =~= g.callee_names.deep_view());
            let r = mismatch_rows(keys.drop_last(), x, p, mask);
            assert(add_shape_mismatches(r, k, x, q) == add_shape_mismatches(r, k, x, p));
            assert(add_fn_mismatches(r, k, x, q) == add_fn_mismatches(r, k, x, p));
        }
    }
}

/// The same of the outside leg: renumbering its stable ids (injectively) changes nothing the
/// model part of a report says.
pub proof fn law_report_ignores_outside_ids(
    r: Report,
    inside: Program,
    p: Program,
    q: Program,
    rename: spec_fn(StableId) -> StableId,
    mask: Set<u64>,
)
    requires
        model_reported(r, inside, p, mask),
        q.language == p.language,
        renumbered_all(p.functions@, q.functions@, rename),
        forall|u: StableId, v: StableId| #[trigger] rename(u) == #[trigger] rename(v) ==> u == v,
    ensures
        model_reported(r, inside, q, mask),
{
    if p.functions@.len() > 0 {
        lemma_renumbered_at(p, q, rename, p.functions@[0].addr);
    } else {
        assert(addr_set(p.functions@) =~= Set::<u64>::empty());
        assert(addr_set(q.functions@) =~= Set::<u64>::empty());
    }
    lemma_renumbered_rows_out(addr_keys(inside), inside, p, q, rename, mask);
}

} // verus!

verus! {

proof fn lemma_runs_with_full(runs: Seq<Program>, a: u64)
    requires
        runs_with(runs, a).len() == runs.len(),
    ensures
        forall|j: int| 0 <= j < runs.len() ==> addr_set((#[trigger] runs[j]).functions@).contains(a),
    decreases runs.len(),
{
    if runs.len() > 0 {
        let d = runs.drop_last();
        lemma_runs_with(d, a);
        assert(addr_set(runs[runs.len() - 1].functions@).contains(a));
        lemma_runs_with_full(d, a);
        assert forall|j: int| 0 <= j < runs.len() implies addr_set((#[trigger] runs[j]).functions@).contains(a) by {
            if j < d.len() {
                assert(d[j] == runs[j]);
            }
        }
    }
}

/// The functions of all the runs, one run after another.
pub open spec fn run_functions(runs: Seq<Program>) -> Seq<Function>
    decreases runs.len(),
{
    if runs.len() == 0 {
        Seq::empty()
    } else {
        run_functions(runs.drop_last()) + runs.last().functions@
    }
}

proof fn lemma_run_functions_addrs(runs: Seq<Program>)
    ensures
        addr_set(run_functions(runs)) == all_addrs(runs),
    decreases runs.len(),
{
    if runs.len() == 0 {
        assert(addr_set(run_functions(runs)) =~= all_addrs(runs));
    } else {
        let d = runs.drop_last();
        let last = runs[runs.len() - 1];
        lemma_run_functions_addrs(d);
        let g = run_functions(d);
        let f = run_functions(runs);
        assert(f == g + last.functions@);
        assert forall|x: u64| addr_set(f).contains(x) implies all_addrs(runs).contains(x) by {
            let i = choose|i: int| 0 <= i < f.len() && f[i].addr == x;
            if i < g.len() {
                assert(f[i] == g[i]);
                assert(addr_set(g).contains(x));
                assert(all_addrs(d).contains(x));
                let j = choose|j: int| 0 <= j < d.len() && addr_set(d[j].functions@).contains(x);
                assert(d[j] == runs[j]);
            } else {
                assert(f[i] == last.functions@[i - g.len()]);
                assert(addr_set(last.functions@).contains(x));
                assert(addr_set(runs[runs.len() - 1].functions@).contains(x));
            }
        }
        assert forall|x: u64| all_addrs(runs).contains(x) implies addr_set(f).contains(x) by {
            let j = choose|j: int| 0 <= j < runs.len() && addr_set(runs[j].functions@).contains(x);
            if j < d.len() {
                assert(d[j] == runs[j]);
                assert(all_addrs(d).contains(x));
                assert(addr_set(g).contains(x));
                let i = choose|i: int| 0 <= i < g.len() && g[i].addr == x;
                assert(f[i] == g[i]);
            } else {
                let fs = last.functions@;
                let i = choose|i: int| 0 <= i < fs.len() && fs[i].addr == x;
                assert(f[g.len() + i] == fs[i]);
            }
        }
        assert(addr_set(f) =~= all_addrs(runs));
    }
}

/// The entry addresses of all the runs can be listed in increasing order, so
/// `in_order(all_addrs(runs), addr_lt())` is that list.
proof fn lemma_all_addrs_listed(runs: Seq<Program>)
    ensures
        lists_in_order(in_order(all_addrs(runs), addr_lt()), all_addrs(runs), addr_lt()),
{
    lemma_run_functions_addrs(runs);
    lemma_addrs_in_order(run_functions(runs));
    lemma_addr_lt_strict();
    lemma_in_order_is(addrs_in_order(run_functions(runs)), all_addrs(runs), addr_lt());
}

/// Some record of `recs` is for address `a` and lists `presence` first among its varied fields.
pub open spec fn reports_presence(
    recs: Seq<(Seq<char>, Seq<Seq<char>>, Seq<Seq<char>>, Seq<(u64, u32)>)>,
    a: u64,
) -> bool {
    exists|i: int|
        0 <= i < recs.len() && (#[trigger] recs[i]).0 == hex_prefixed(a as nat) && recs[i].2.len() > 0
            && recs[i].2[0] == "presence"@
}

proof fn lemma_records_report(runs: Seq<Program>, keys: Seq<u64>, a: u64)
    requires
        keys.contains(a),
        flaky_fields(runs, a).len() > 0,
        flaky_fields(runs, a)[0] == "presence"@,
    ensures
        reports_presence(flaky_records(runs, keys), a),
    decreases keys.len(),
{
    let d = keys.drop_last();
    let recs = flaky_records(runs, keys);
    if keys.last() == a {
        let r = flaky_record(runs, a);
        assert(recs == flaky_records(runs, d).push(r));
        assert(recs[recs.len() - 1] == r);
    } else {
        let m = choose|m: int| 0 <= m < keys.len() && keys[m] == a;
        assert(d[m] == a);
        lemma_records_report(runs, d, a);
        let r0 = flaky_records(runs, d);
        let i = choose|i: int|
            0 <= i < r0.len() && (#[trigger] r0[i]).0 == hex_prefixed(a as nat) && r0[i].2.len() > 0
                && r0[i].2[0] == "presence"@;
        assert(recs[i] == r0[i]);
    }
}

/// A function present in some runs but missing from another is flaky: when run `j` has a
/// function at `a` and run `k` has none, `presence` is the first field that varies at `a`, and
/// the report over all the runs' addresses holds a record for `a`'s hexadecimal address whose
/// varied fields begin with `presence`.
pub proof fn law_partial_presence_is_flaky(runs: Seq<Program>, a: u64, j: int, k: int)
    requires
        0 <= j < runs.len(),
        0 <= k < runs.len(),
        addr_set(runs[j].functions@).contains(a),
        !addr_set(runs[k].functions@).contains(a),
    ensures
        flaky_fields(runs, a).len() > 0,
        flaky_fields(runs, a)[0] == "presence"@,
        reports_presence(flaky_records(runs, in_order(all_addrs(runs), addr_lt())), a),
{
    lemma_runs_with(runs, a);
    if runs_with(runs, a).len() == runs.len() {
        lemma_runs_with_full(runs, a);
        assert(addr_set(runs[k].functions@).contains(a));
    }
    let keys = in_order(all_addrs(runs), addr_lt());
    lemma_all_addrs_listed(runs);
    assert(all_addrs(runs).contains(a));
    assert(keys.to_set().contains(a));
    lemma_records_report(runs, keys, a);
}

} // verus!

verus! {

proof fn lemma_varied_has(runs: Seq<Program>, seen: Seq<int>, a: u64, n: nat, f: int)
    requires
        0 <= f < n,
        varies(runs, seen, a, f),
    ensures
        varied(runs, seen, a, n).contains(flaky_field_name(f)),
    decreases n,
{
    let r = varied(runs, seen, a, (n - 1) as nat);
    if f == n - 1 {
        assert(varied(runs, seen, a, n) == r.push(flaky_field_name(f)));
        assert(varied(runs, seen, a, n)[r.len() as int] == flaky_field_name(f));
    } else {
        lemma_varied_has(runs, seen, a, (n - 1) as nat, f);
        let q = choose|q: int| 0 <= q < r.len() && r[q] == flaky_field_name(f);
        if varies(runs, seen, a, n - 1) {
            assert(varied(runs, seen, a, n)[q] == r[q]);
        }
    }
}

/// Some record of `recs` is for address `a` and lists `field` among its varied fields.
pub open spec fn reports_field(
    recs: Seq<(Seq<char>, Seq<Seq<char>>, Seq<Seq<char>>, Seq<(u64, u32)>)>,
    a: u64,
    field: Seq<char>,
) -> bool {
    exists|i: int| 0 <= i < recs.len() && (#[trigger] recs[i]).0 == hex_prefixed(a as nat) && recs[i].2.contains(field)
}

proof fn lemma_records_report_field(runs: Seq<Program>, keys: Seq<u64>, a: u64, field: Seq<char>)
    requires
        keys.contains(a),
        flaky_fields(runs, a).contains(field),
    ensures
        reports_field(flaky_records(runs, keys), a, field),
    decreases keys.len(),
{
    let d = keys.drop_last();
    let recs = flaky_records(runs, keys);
    if keys.last() == a {
        let r = flaky_record(runs, a);
        assert(recs == flaky_records(runs, d).push(r));
        assert(recs[recs.len() - 1] == r);
    } else {
        let m = choose|m: int| 0 <= m < keys.len() && keys[m] == a;
        assert(d[m] == a);
        lemma_records_report_field(runs, d, a, field);
        let r0 = flaky_records(runs, d);
        let i = choose|i: int| 0 <= i < r0.len() && (#[trigger] r0[i]).0 == hex_prefixed(a as nat) && r0[i].2.contains(field);
        assert(recs[i] == r0[i]);
    }
}

/// Any field two runs disagree on is flaky: when runs `j` and `k` both have a function at `a`
/// and differ on field `f` there, `f`'s name is among the fields that vary at `a`, and the
/// report over all the runs' addresses holds a record for `a`'s hexadecimal address listing it.
pub proof fn law_disagreeing_field_is_flaky(runs: Seq<Program>, a: u64, j: int, k: int, f: int)
    requires
        0 <= j < runs.len(),
        0 <= k < runs.len(),
        addr_set(runs[j].functions@).contains(a),
        addr_set(runs[k].functions@).contains(a),
        0 <= f < n_flaky_fields(),
        !same_in(runs[j], runs[k], a, f),
    ensures
        flaky_fields(runs, a).contains(flaky_field_name(f)),
        reports_field(flaky_records(runs, in_order(all_addrs(runs), addr_lt())), a, flaky_field_name(f)),
{
    lemma_runs_with(runs, a);
    let seen = runs_with(runs, a);
    let tj = choose|t: int| 0 <= t < seen.len() && #[trigger] seen[t] == j;
    let tk = choose|t: int| 0 <= t < seen.len() && #[trigger] seen[t] == k;
    assert(varies(runs, seen, a, f)) by {
        if same_in(runs[seen[0]], runs[seen[tj]], a, f) && same_in(runs[seen[0]], runs[seen[tk]], a, f) {
            assert(same_in(runs[j], runs[k], a, f));
        }
    }
    lemma_varied_has(runs, seen, a, n_flaky_fields(), f);
    let pre = if seen.len() != runs.len() {
        seq!["presence"@]
    } else {
        Seq::<Seq<char>>::empty()
    };
    let v = varied(runs, seen, a, n_flaky_fields());
    assert(flaky_fields(runs, a) == pre + v);
    let q = choose|q: int| 0 <= q < v.len() && v[q] == flaky_field_name(f);
    assert((pre + v)[pre.len() + q] == flaky_field_name(f));
    let keys = in_order(all_addrs(runs), addr_lt());
    lemma_all_addrs_listed(runs);
    assert(all_addrs(runs).contains(a));
    assert(keys.to_set().contains(a));
    lemma_records_report_field(runs, keys, a, flaky_field_name(f));
}

} // verus!

verus! {

/// `field` is borne out at `a`: it is `presence` and some run has a function at `a` while another
/// has none, or it names a field two runs that both have a function at `a` disagree on.
pub open spec fn field_witnessed(runs: Seq<Program>, a: u64, field: Seq<char>) -> bool {
    ||| field == "presence"@ && exists|j: int, k: int|
        0 <= j < runs.len() && 0 <= k < runs.len() && addr_set((#[trigger] runs[j]).functions@).contains(a)
            && !addr_set((#[trigger] runs[k]).functions@).contains(a)
    ||| exists|f: int, j: int, k: int|
        0 <= f < n_flaky_fields() && field == flaky_field_name(f) && 0 <= j < runs.len() && 0 <= k < runs.len()
            && addr_set(runs[j].functions@).contains(a) && addr_set(runs[k].functions@).contains(a)
            && !#[trigger] same_in(runs[j], runs[k], a, f)
}

/// `rec` is the record of an address of one of the runs, and every field it lists is borne out.
pub open spec fn record_borne_out(
    runs: Seq<Program>,
    rec: (Seq<char>, Seq<Seq<char>>, Seq<Seq<char>>, Seq<(u64, u32)>),
) -> bool {
    exists|a: u64|
        all_addrs(runs).contains(a) && rec.0 == hex_prefixed(a as nat) && forall|q: int|
            0 <= q < rec.2.len() ==> field_witnessed(runs, a, #[trigger] rec.2[q])
}

/// `name` is the name of one of the first `n` fields, and that field varies at `a`.
spec fn names_varying_field(runs: Seq<Program>, seen: Seq<int>, a: u64, n: nat, name: Seq<char>) -> bool {
    exists|f: int| 0 <= f < n && name == flaky_field_name(f) && #[trigger] varies(runs, seen, a, f)
}

proof fn lemma_varied_from(runs: Seq<Program>, seen: Seq<int>, a: u64, n: nat)
    ensures
        forall|q: int|
            0 <= q < varied(runs, seen, a, n).len() ==> names_varying_field(
                runs,
                seen,
                a,
                n,
                #[trigger] varied(runs, seen, a, n)[q],
            ),
    decreases n,
{
    if n > 0 {
        lemma_varied_from(runs, seen, a, (n - 1) as nat);
        let r = varied(runs, seen, a, (n - 1) as nat);
        let v = varied(runs, seen, a, n);
        assert forall|q: int| 0 <= q < v.len() implies names_varying_field(runs, seen, a, n, #[trigger] v[q]) by {
            if q < r.len() {
                assert(v[q] == r[q]);
                assert(names_varying_field(runs, seen, a, (n - 1) as nat, r[q]));
                let f = choose|f: int| 0 <= f < n - 1 && r[q] == flaky_field_name(f) && varies(runs, seen, a, f);
                assert(0 <= f < n && v[q] == flaky_field_name(f) && varies(runs, seen, a, f));
            } else {
                assert(v[q] == flaky_field_name(n - 1));
                assert(varies(runs, seen, a, n - 1));
            }
        }
    }
}

proof fn lemma_fields_borne_out(runs: Seq<Program>, a: u64)
    requires
        all_addrs(runs).contains(a),
    ensures
        forall|q: int| 0 <= q < flaky_fields(runs, a).len() ==> field_witnessed(runs, a, #[trigger] flaky_fields(runs, a)[q]),
{
    let seen = runs_with(runs, a);
    lemma_runs_with(runs, a);
    let j0 = choose|j: int| 0 <= j < runs.len() && addr_set(runs[j].functions@).contains(a);
    let pre = if seen.len() != runs.len() {
        seq!["presence"@]
    } else {
        Seq::<Seq<char>>::empty()
    };
    let v = if seen.len() > 0 {
        varied(runs, seen, a, n_flaky_fields())
    } else {
        Seq::<Seq<char>>::empty()
    };
    assert(flaky_fields(runs, a) == pre + v);
    lemma_varied_from(runs, seen, a, n_flaky_fields());
    assert forall|q: int| 0 <= q < flaky_fields(runs, a).len() implies field_witnessed(
        runs,
        a,
        #[trigger] flaky_fields(runs, a)[q],
    ) by {
        if q < pre.len() {
            assert(flaky_fields(runs, a)[q] == "presence"@);
            let k0 = if forall|k: int| 0 <= k < runs.len() ==> addr_set((#[trigger] runs[k]).functions@).contains(a) {
                lemma_runs_with_every(runs, a);
                0
            } else {
                choose|k: int| 0 <= k < runs.len() && !addr_set(runs[k].functions@).contains(a)
            };
            assert(0 <= k0 < runs.len() && !addr_set(runs[k0].functions@).contains(a));
            assert(addr_set(runs[j0].functions@).contains(a));
        } else {
            let p = q - pre.len();
            assert(flaky_fields(runs, a)[q] == v[p]);
            assert(seen.len() > 0);
            assert(names_varying_field(runs, seen, a, n_flaky_fields(), v[p]));
            let f = choose|f: int| 0 <= f < n_flaky_fields() && v[p] == flaky_field_name(f) && varies(runs, seen, a, f);
            let t = choose|t: int| 0 <= t < seen.len() && !same_in(runs[seen[0]], #[trigger] runs[seen[t]], a, f);
            let j = seen[0];
            let k = seen[t];
            assert(addr_set(runs[j].functions@).contains(a) && addr_set(runs[k].functions@).contains(a));
            assert(!same_in(runs[j], runs[k], a, f));
        }
    }
}

proof fn lemma_records_borne_out(runs: Seq<Program>, keys: Seq<u64>)
    requires
        forall|m: int| 0 <= m < keys.len() ==> all_addrs(runs).contains(#[trigger] keys[m]),
    ensures
        forall|i: int| 0 <= i < flaky_records(runs, keys).len() ==> record_borne_out(runs, #[trigger] flaky_records(runs, keys)[i]),
    decreases keys.len(),
{
    if keys.len() > 0 {
        let d = keys.drop_last();
        assert forall|m: int| 0 <= m < d.len() implies all_addrs(runs).contains(#[trigger] d[m]) by {
            assert(d[m] == keys[m]);
        }
        lemma_records_borne_out(runs, d);
        let a = keys.last();
        assert(all_addrs(runs).contains(keys[keys.len() - 1]));
        let r = flaky_records(runs, d);
        let recs = flaky_records(runs, keys);
        if flaky_fields(runs, a).len() > 0 {
            let rec = flaky_record(runs, a);
            assert(recs == r.push(rec));
            lemma_fields_borne_out(runs, a);
            assert(record_borne_out(runs, rec)) by {
                assert forall|q: int| 0 <= q < rec.2.len() implies field_witnessed(runs, a, #[trigger] rec.2[q]) by {
                    assert(rec.2 == flaky_fields(runs, a));
                }
            }
        } else {
            assert(recs == r);
        }
        assert forall|i: int| 0 <= i < recs.len() implies record_borne_out(runs, #[trigger] recs[i]) by {
            if i < r.len() {
                assert(recs[i] == r[i]);
            }
        }
    }
}

/// The nondeterminism report invents nothing: every record it holds is for an entry address of
/// one of the runs, and every field that record lists as varying is borne out by the runs:
/// `presence` only when one run has a function there and another has none, and any other field
/// only when two runs that both have a function there disagree on it.
pub proof fn law_flaky_reports_only_disagreements(runs: Seq<Program>)
    ensures
        forall|i: int|
            0 <= i < flaky_records(runs, in_order(all_addrs(runs), addr_lt())).len() ==> record_borne_out(
                runs,
                #[trigger] flaky_records(runs, in_order(all_addrs(runs), addr_lt()))[i],
            ),
{
    let keys = in_order(all_addrs(runs), addr_lt());
    lemma_all_addrs_listed(runs);
    assert forall|m: int| 0 <= m < keys.len() implies all_addrs(runs).contains(#[trigger] keys[m]) by {
        assert(keys.to_set().contains(keys[m]));
    }
    lemma_records_borne_out(runs, keys);
}

} // verus!
