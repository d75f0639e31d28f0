//! Structural diffing of two programs: the exact rung and call-graph propagation.
//!
//! Functions pair by a structural signature unique on both sides, so the diff survives the
//! address shifts a recompile causes; leftovers then pair by a unique neighbourhood of
//! already-matched callers and callees. Nothing ambiguous is ever paired.

use vstd::prelude::*;
use vstd::relations::sorted_by;

use crate::merge::{fn_by_id, ids_with_sig, image, last_by_id, lemma_ids_with_sig, sig, sig_match, signature, sole_with_sig, MatchInfo, MatchMethod, ProgramDiff};
use crate::abtest::{addr_lt, in_order, insert_addr, lemma_addr_lt_strict, lemma_in_order_is, lists_in_order};
use crate::merge::Matching;
use crate::model::{Function, Program, StableId};
use crate::text::compare_text;
use crate::port::contains_id;

verus! {

// ---------------------------------------------------------------------------------------------
// Structural diff: the exact rung and call-graph propagation
// ---------------------------------------------------------------------------------------------

/// `f`'s counterpart by the diff's exact rung: its signature is unique in `a` and in `b`.
pub open spec fn diff_exact_image(a: Seq<Function>, b: Seq<Function>, f: Function) -> Option<StableId> {
    if ids_with_sig(a, sig(f)).len() == 1 && ids_with_sig(b, sig(f)).len() == 1 {
        Some(ids_with_sig(b, sig(f))[0])
    } else {
        None
    }
}

/// The exact pairs over the functions `fs` of `a`, in order.
pub open spec fn diff_exact_pairs(a: Seq<Function>, b: Seq<Function>, fs: Seq<Function>) -> Seq<
    (StableId, StableId),
>
    decreases fs.len(),
{
    if fs.len() == 0 {
        Seq::empty()
    } else {
        let r = diff_exact_pairs(a, b, fs.drop_last());
        match diff_exact_image(a, b, fs.last()) {
            Some(id) => r.push((fs.last().id, id)),
            None => r,
        }
    }
}

/// The ids of the functions of `fs` the exact rung leaves, in order.
pub open spec fn diff_exact_left(a: Seq<Function>, b: Seq<Function>, fs: Seq<Function>) -> Seq<StableId>
    decreases fs.len(),
{
    if fs.len() == 0 {
        Seq::empty()
    } else {
        let r = diff_exact_left(a, b, fs.drop_last());
        match diff_exact_image(a, b, fs.last()) {
            Some(_) => r,
            None => r.push(fs.last().id),
        }
    }
}

/// Whether `id` is the right-hand side of one of `pairs`.
pub open spec fn claims(pairs: Seq<(StableId, StableId)>, id: StableId) -> bool {
    exists|i: int| 0 <= i < pairs.len() && pairs[i].1 == id
}

/// The ids of the functions of `fs` no pair claims, in order.
pub open spec fn unclaimed(fs: Seq<Function>, pairs: Seq<(StableId, StableId)>) -> Seq<StableId>
    decreases fs.len(),
{
    if fs.len() == 0 {
        Seq::empty()
    } else {
        let r = unclaimed(fs.drop_last(), pairs);
        if claims(pairs, fs.last().id) {
            r
        } else {
            r.push(fs.last().id)
        }
    }
}

/// No two functions of `fs` share a structural signature.
pub open spec fn sigs_distinct(fs: Seq<Function>) -> bool {
    forall|i: int, j: int| 0 <= i < j < fs.len() ==> sig(#[trigger] fs[i]) != sig(#[trigger] fs[j])
}

proof fn lemma_no_sig(fs: Seq<Function>, s: crate::merge::Signature)
    requires
        forall|i: int| 0 <= i < fs.len() ==> sig(#[trigger] fs[i]) != s,
    ensures
        ids_with_sig(fs, s) == Seq::<StableId>::empty(),
    decreases fs.len(),
{
    if fs.len() > 0 {
        assert forall|i: int| 0 <= i < fs.drop_last().len() implies sig(#[trigger] fs.drop_last()[i]) != s by {
            assert(fs.drop_last()[i] == fs[i]);
        }
        lemma_no_sig(fs.drop_last(), s);
        assert(sig(fs[fs.len() - 1]) != s);
    }
}

proof fn lemma_sig_single(fs: Seq<Function>, k: int)
    requires
        sigs_distinct(fs),
        0 <= k < fs.len(),
    ensures
        ids_with_sig(fs, sig(fs[k])) == seq![fs[k].id],
    decreases fs.len(),
{
    let d = fs.drop_last();
    assert(sigs_distinct(d)) by {
        assert forall|i: int, j: int| 0 <= i < j < d.len() implies sig(#[trigger] d[i]) != sig(#[trigger] d[j]) by {
            assert(d[i] == fs[i] && d[j] == fs[j]);
        }
    }
    if k < fs.len() - 1 {
        assert(d[k] == fs[k]);
        lemma_sig_single(d, k);
        assert(sig(fs[k]) != sig(fs[fs.len() - 1]));
    } else {
        assert forall|i: int| 0 <= i < d.len() implies sig(#[trigger] d[i]) != sig(fs[k]) by {
            assert(d[i] == fs[i]);
        }
        lemma_no_sig(d, sig(fs[k]));
        assert(Seq::<StableId>::empty().push(fs[k].id) =~= seq![fs[k].id]);
    }
}

proof fn lemma_self_pairs(fs: Seq<Function>, n: int)
    requires
        sigs_distinct(fs),
        0 <= n <= fs.len(),
    ensures
        diff_exact_pairs(fs, fs, fs.take(n)) == fs.take(n).map_values(|f: Function| (f.id, f.id)),
        diff_exact_left(fs, fs, fs.take(n)) == Seq::<StableId>::empty(),
    decreases n,
{
    if n == 0 {
        assert(fs.take(0).map_values(|f: Function| (f.id, f.id)) =~= Seq::<(StableId, StableId)>::empty());
    } else {
        lemma_self_pairs(fs, n - 1);
        lemma_sig_single(fs, n - 1);
        assert(fs.take(n).drop_last() =~= fs.take(n - 1));
        assert(fs.take(n).last() == fs[n - 1]);
        assert(diff_exact_image(fs, fs, fs[n - 1]) == Some(fs[n - 1].id));
        assert(fs.take(n).map_values(|f: Function| (f.id, f.id)) =~= fs.take(n - 1).map_values(
            |f: Function| (f.id, f.id),
        ).push((fs[n - 1].id, fs[n - 1].id)));
    }
}

proof fn lemma_all_claimed(fs: Seq<Function>, pairs: Seq<(StableId, StableId)>)
    requires
        pairs == fs.map_values(|f: Function| (f.id, f.id)),
    ensures
        unclaimed(fs, pairs) == Seq::<StableId>::empty(),
    decreases fs.len(),
{
    if fs.len() > 0 {
        let d = fs.drop_last();
        let k = fs.len() - 1;
        assert(pairs[k] == (fs[k].id, fs[k].id));
        assert(claims(pairs, fs.last().id));
        assert forall|t: int| 0 <= t < d.len() implies claims(pairs, #[trigger] d[t].id) by {
            assert(pairs[t] == (fs[t].id, fs[t].id));
            assert(d[t] == fs[t]);
        }
        lemma_claimed_prefix(d, pairs);
    }
}

proof fn lemma_claimed_prefix(fs: Seq<Function>, pairs: Seq<(StableId, StableId)>)
    requires
        forall|t: int| 0 <= t < fs.len() ==> claims(pairs, #[trigger] fs[t].id),
    ensures
        unclaimed(fs, pairs) == Seq::<StableId>::empty(),
    decreases fs.len(),
{
    if fs.len() > 0 {
        assert(claims(pairs, fs[fs.len() - 1].id));
        assert forall|t: int| 0 <= t < fs.drop_last().len() implies claims(pairs, #[trigger] fs.drop_last()[t].id) by {
            assert(fs.drop_last()[t] == fs[t]);
        }
        lemma_claimed_prefix(fs.drop_last(), pairs);
    }
}

/// A model diffed against itself: when no two of its functions share a structural signature,
/// the exact rung pairs every function with itself and leaves nothing over on either side.
pub proof fn law_self_diff_pairs_everything(fs: Seq<Function>)
    requires
        sigs_distinct(fs),
    ensures
        diff_exact_pairs(fs, fs, fs) == fs.map_values(|f: Function| (f.id, f.id)),
        diff_exact_left(fs, fs, fs) == Seq::<StableId>::empty(),
        unclaimed(fs, diff_exact_pairs(fs, fs, fs)) == Seq::<StableId>::empty(),
{
    lemma_self_pairs(fs, fs.len() as int);
    assert(fs.take(fs.len() as int) =~= fs);
    lemma_all_claimed(fs, diff_exact_pairs(fs, fs, fs));
}

/// The pair `p` comes from `a[i]`, the one function of `a` with its signature, and goes to the
/// one function of `b` with that signature.
spec fn sole_pair(a: Seq<Function>, b: Seq<Function>, i: int, p: (StableId, StableId)) -> bool {
    &&& sole_with_sig(a, sig(a[i]), i)
    &&& a[i].id == p.0
    &&& exists|k: int| sole_with_sig(b, sig(a[i]), k) && b[k].id == p.1
}

/// No two functions of `fs` share an id.
pub open spec fn ids_distinct(fs: Seq<Function>) -> bool {
    forall|j: int, l: int| 0 <= j < l < fs.len() ==> (#[trigger] fs[j]).id != (#[trigger] fs[l]).id
}

/// Some function of `a` before position `n` is the sole origin of the pair `p`.
spec fn sole_origin(a: Seq<Function>, b: Seq<Function>, n: int, p: (StableId, StableId)) -> bool {
    exists|i: int| 0 <= i < n && #[trigger] sole_pair(a, b, i, p)
}

proof fn lemma_exact_pairs_sole(a: Seq<Function>, b: Seq<Function>, n: int)
    requires
        0 <= n <= a.len(),
    ensures
        forall|q: int|
            0 <= q < diff_exact_pairs(a, b, a.take(n)).len() ==> sole_origin(
                a,
                b,
                n,
                #[trigger] diff_exact_pairs(a, b, a.take(n))[q],
            ),
        ids_distinct(b) ==> forall|q1: int, q2: int|
            0 <= q1 < q2 < diff_exact_pairs(a, b, a.take(n)).len() ==> (#[trigger] diff_exact_pairs(
                a,
                b,
                a.take(n),
            )[q1]).1 != (#[trigger] diff_exact_pairs(a, b, a.take(n))[q2]).1,
        forall|i: int, k: int|
            #![trigger sole_with_sig(a, sig(a[i]), i), sole_with_sig(b, sig(a[i]), k)]
            0 <= i < n && sole_with_sig(a, sig(a[i]), i) && sole_with_sig(b, sig(a[i]), k)
                ==> diff_exact_pairs(a, b, a.take(n)).contains((a[i].id, b[k].id)),
    decreases n,
{
    if n > 0 {
        lemma_exact_pairs_sole(a, b, n - 1);
        lemma_ids_with_sig(a, sig(a[n - 1]));
        lemma_ids_with_sig(b, sig(a[n - 1]));
        assert(a.take(n).drop_last() =~= a.take(n - 1));
        let f = a[n - 1];
        assert(a.take(n).last() == f);
        let r = diff_exact_pairs(a, b, a.take(n - 1));
        let ps = diff_exact_pairs(a, b, a.take(n));
        let s = sig(f);
        if diff_exact_image(a, b, f) is Some {
            lemma_ids_with_sig(a, s);
            lemma_ids_with_sig(b, s);
            let i0 = choose|i: int| sole_with_sig(a, s, i);
            assert(i0 == n - 1);
            let k0 = choose|k: int| sole_with_sig(b, s, k);
            assert(ps == r.push((f.id, b[k0].id)));
            assert(sole_pair(a, b, n - 1, ps[r.len() as int]));
            assert forall|q: int| 0 <= q < ps.len() implies sole_origin(a, b, n, #[trigger] ps[q]) by {
                if q < r.len() {
                    assert(ps[q] == r[q]);
                    assert(sole_origin(a, b, n - 1, r[q]));
                    let i = choose|i: int| 0 <= i < n - 1 && sole_pair(a, b, i, r[q]);
                    assert(sole_pair(a, b, i, ps[q]));
                } else {
                    assert(sole_pair(a, b, n - 1, ps[q]));
                }
            }
            if ids_distinct(b) {
                assert forall|q1: int, q2: int| 0 <= q1 < q2 < ps.len() implies (#[trigger] ps[q1]).1
                    != (#[trigger] ps[q2]).1 by {
                    assert(ps[q1] == r[q1]);
                    if q2 < r.len() {
                        assert(ps[q2] == r[q2]);
                        assert(r[q1].1 != r[q2].1);
                    } else {
                        assert(sole_origin(a, b, n - 1, r[q1]));
                        let i1 = choose|i: int| 0 <= i < n - 1 && sole_pair(a, b, i, r[q1]);
                        let k1 = choose|k: int| sole_with_sig(b, sig(a[i1]), k) && b[k].id == r[q1].1;
                        if k1 != k0 {
                            if k1 < k0 {
                                assert(b[k1].id != b[k0].id);
                            } else {
                                assert(b[k0].id != b[k1].id);
                            }
                        } else {
                            assert(sig(a[i1]) == s);
                        }
                    }
                }
            }
        } else {
            assert(ps == r);
            assert forall|q: int| 0 <= q < ps.len() implies sole_origin(a, b, n, #[trigger] ps[q]) by {
                assert(sole_origin(a, b, n - 1, r[q]));
                let i = choose|i: int| 0 <= i < n - 1 && sole_pair(a, b, i, r[q]);
                assert(sole_pair(a, b, i, ps[q]));
            }
        }
        assert forall|i: int, k: int|
            #![trigger sole_with_sig(a, sig(a[i]), i), sole_with_sig(b, sig(a[i]), k)]
            0 <= i < n && sole_with_sig(a, sig(a[i]), i) && sole_with_sig(b, sig(a[i]), k)
                implies ps.contains((a[i].id, b[k].id)) by {
            if i < n - 1 {
                assert(r.contains((a[i].id, b[k].id)));
                let q = choose|q: int| 0 <= q < r.len() && r[q] == (a[i].id, b[k].id);
                if diff_exact_image(a, b, f) is Some {
                    assert(ps == r.push(ps[r.len() as int]));
                    assert(ps[q] == r[q]);
                } else {
                    assert(ps == r);
                }
            } else {
                assert(diff_exact_image(a, b, f) == Some(b[k].id));
                assert(ps == r.push((a[i].id, b[k].id)));
                assert(ps[r.len() as int] == (a[i].id, b[k].id));
            }
        }
    }
}

/// `p` pairs the one function of `a` with some signature (its id is `p.0`) with the one
/// function of `b` with that signature (its id is `p.1`).
pub open spec fn sole_on_both_sides(a: Seq<Function>, b: Seq<Function>, p: (StableId, StableId)) -> bool {
    exists|i: int, k: int|
        sole_with_sig(a, sig(a[i]), i) && sole_with_sig(b, sig(a[i]), k) && a[i].id == p.0 && b[k].id == p.1
}

/// The diff's exact rung pairs only on a signature unique on both sides: every exact pair
/// `(x, y)` comes from the one function of `a` with some signature, whose id is `x`, and goes to
/// the one function of `b` with that signature, whose id is `y`; a signature two functions of
/// either side share pairs nothing. So no function of `b` is claimed twice: when `b`'s ids are
/// distinct, no two exact pairs name the same `b`-side id. Conversely, every signature carried
/// by exactly one function on each side pairs those two functions.
pub proof fn law_exact_diff_pairs_are_sole(a: Seq<Function>, b: Seq<Function>)
    ensures
        forall|i: int, k: int|
            #![trigger sole_with_sig(a, sig(a[i]), i), sole_with_sig(b, sig(a[i]), k)]
            sole_with_sig(a, sig(a[i]), i) && sole_with_sig(b, sig(a[i]), k) ==> diff_exact_pairs(
                a,
                b,
                a,
            ).contains((a[i].id, b[k].id)),
        forall|q: int|
            0 <= q < diff_exact_pairs(a, b, a).len() ==> sole_on_both_sides(
                a,
                b,
                #[trigger] diff_exact_pairs(a, b, a)[q],
            ),
        ids_distinct(b) ==> forall|q1: int, q2: int|
            0 <= q1 < q2 < diff_exact_pairs(a, b, a).len() ==> (#[trigger] diff_exact_pairs(a, b, a)[q1]).1
                != (#[trigger] diff_exact_pairs(a, b, a)[q2]).1,
{
    lemma_exact_pairs_sole(a, b, a.len() as int);
    assert(a.take(a.len() as int) =~= a);
    let ps = diff_exact_pairs(a, b, a);
    assert forall|q: int| 0 <= q < ps.len() implies sole_on_both_sides(a, b, #[trigger] ps[q]) by {
        let p = ps[q];
        assert(sole_origin(a, b, a.len() as int, p));
        let i = choose|i: int| 0 <= i < a.len() && sole_pair(a, b, i, p);
        let k = choose|k: int| sole_with_sig(b, sig(a[i]), k) && b[k].id == p.1;
        assert(sole_with_sig(a, sig(a[i]), i) && sole_with_sig(b, sig(a[i]), k) && a[i].id == p.0 && b[k].id == p.1);
    }
}

/// `a[i]` is the one function of `a` with its signature, and exactly one function of `b` carries
/// that signature too.
pub open spec fn sole_on_both(a: Seq<Function>, b: Seq<Function>, i: int) -> bool {
    sole_with_sig(a, sig(a[i]), i) && exists|k: int| sole_with_sig(b, sig(a[i]), k)
}

proof fn lemma_image_iff_sole(a: Seq<Function>, b: Seq<Function>, i: int)
    requires
        0 <= i < a.len(),
    ensures
        diff_exact_image(a, b, a[i]) is Some <==> sole_on_both(a, b, i),
{
    let s = sig(a[i]);
    lemma_ids_with_sig(a, s);
    lemma_ids_with_sig(b, s);
    if ids_with_sig(a, s).len() == 1 {
        let i0 = choose|j: int| sole_with_sig(a, s, j);
        assert(i0 == i);
    }
}

/// Some function of `a` before position `n` has id `id` and cannot be paired by the exact rung.
pub open spec fn unpaired_id(a: Seq<Function>, b: Seq<Function>, n: int, id: StableId) -> bool {
    exists|i: int| 0 <= i < n && a[i].id == id && !sole_on_both(a, b, i)
}

proof fn lemma_exact_left(a: Seq<Function>, b: Seq<Function>, n: int)
    requires
        0 <= n <= a.len(),
    ensures
        forall|i: int| 0 <= i < n && !sole_on_both(a, b, i) ==> diff_exact_left(a, b, a.take(n)).contains(#[trigger] a[i].id),
        forall|q: int|
            0 <= q < diff_exact_left(a, b, a.take(n)).len() ==> unpaired_id(a, b, n, #[trigger] diff_exact_left(a, b, a.take(n))[q]),
    decreases n,
{
    if n > 0 {
        lemma_exact_left(a, b, n - 1);
        assert(a.take(n).drop_last() =~= a.take(n - 1));
        assert(a.take(n).last() == a[n - 1]);
        lemma_image_iff_sole(a, b, n - 1);
        let r = diff_exact_left(a, b, a.take(n - 1));
        let l = diff_exact_left(a, b, a.take(n));
        if sole_on_both(a, b, n - 1) {
            assert(l == r);
        } else {
            assert(l == r.push(a[n - 1].id));
        }
        assert forall|i: int| 0 <= i < n && !sole_on_both(a, b, i) implies l.contains(#[trigger] a[i].id) by {
            if i < n - 1 {
                assert(r.contains(a[i].id));
                let q = choose|q: int| 0 <= q < r.len() && r[q] == a[i].id;
                assert(l[q] == r[q]);
            } else {
                assert(l[r.len() as int] == a[i].id);
            }
        }
        assert forall|q: int| 0 <= q < l.len() implies unpaired_id(a, b, n, #[trigger] l[q]) by {
            if q < r.len() {
                assert(l[q] == r[q]);
                assert(unpaired_id(a, b, n - 1, r[q]));
                let i = choose|i: int| 0 <= i < n - 1 && a[i].id == r[q] && !sole_on_both(a, b, i);
                assert(0 <= i < n && a[i].id == l[q] && !sole_on_both(a, b, i));
            } else {
                assert(l[q] == a[n - 1].id);
                assert(0 <= n - 1 < n && a[n - 1].id == l[q] && !sole_on_both(a, b, n - 1));
            }
        }
    }
}

/// What the diff's exact rung leaves of `a` is exactly what it cannot pair: the id of every
/// function of `a` whose signature is not carried by exactly one function on each side is left,
/// and everything left is the id of such a function.
pub proof fn law_exact_diff_leaves_the_ambiguous(a: Seq<Function>, b: Seq<Function>)
    ensures
        forall|i: int| 0 <= i < a.len() && !sole_on_both(a, b, i) ==> diff_exact_left(a, b, a).contains(#[trigger] a[i].id),
        forall|q: int|
            0 <= q < diff_exact_left(a, b, a).len() ==> unpaired_id(a, b, a.len() as int, #[trigger] diff_exact_left(a, b, a)[q]),
{
    lemma_exact_left(a, b, a.len() as int);
    assert(a.take(a.len() as int) =~= a);
}

/// Whether `id` is the right-hand side of one of `pairs`.
fn claims_exec(pairs: &Vec<(StableId, StableId)>, id: StableId) -> (r: bool)
    ensures
        r == claims(pairs@, id),
{
    let mut i: usize = 0;
    while i < pairs.len()
        invariant
            i <= pairs@.len(),
            forall|t: int| 0 <= t < i ==> pairs@[t].1 != id,
        decreases pairs@.len() - i,
    {
        if pairs[i].1 == id {
            return true;
        }
        i += 1;
    }
    false
}

/// The diff's exact rung: functions pair by a structural signature unique on both sides
/// (address-independent, so the diff survives a recompile's address shifts); each pair is
/// recorded as an exact, certain match. Returns the diff so far and the ids left on each side,
/// in model order.
pub fn exact_diff(a: &Program, b: &Program) -> (r: (ProgramDiff, Vec<StableId>, Vec<StableId>))
    ensures
        r.0.matched@ == diff_exact_pairs(a.functions@, b.functions@, a.functions@),
        r.0.changed@.len() == 0,
        r.0.only_a@.len() == 0,
        r.0.only_b@.len() == 0,
        r.0.provenance@ == r.0.matched@.map_values(
            |p: (StableId, StableId)| (p.0, MatchInfo { method: MatchMethod::Exact, confidence: 100 }),
        ),
        r.1@ == diff_exact_left(a.functions@, b.functions@, a.functions@),
        r.2@ == unclaimed(b.functions@, r.0.matched@),
        forall|q: int|
            0 <= q < r.0.matched@.len() ==> sole_on_both_sides(a.functions@, b.functions@, #[trigger] r.0.matched@[q]),
        ids_distinct(b.functions@) ==> forall|q1: int, q2: int|
            0 <= q1 < q2 < r.0.matched@.len() ==> (#[trigger] r.0.matched@[q1]).1 != (#[trigger] r.0.matched@[q2]).1,
{
    let fs = &a.functions;
    let mut matched: Vec<(StableId, StableId)> = Vec::new();
    let mut provenance: Vec<(StableId, MatchInfo)> = Vec::new();
    let mut left_a: Vec<StableId> = Vec::new();
    let mut i: usize = 0;
    while i < fs.len()
        invariant
            i <= fs@.len(),
            fs == &a.functions,
            matched@ == diff_exact_pairs(a.functions@, b.functions@, fs@.take(i as int)),
            provenance@ == matched@.map_values(
                |p: (StableId, StableId)| (p.0, MatchInfo { method: MatchMethod::Exact, confidence: 100 }),
            ),
            left_a@ == diff_exact_left(a.functions@, b.functions@, fs@.take(i as int)),
        decreases fs@.len() - i,
    {
        assert(fs@.take(i + 1).drop_last() =~= fs@.take(i as int));
        let f = &fs[i];
        let hit = if sig_match(&a.functions, f).is_some() {
            sig_match(&b.functions, f)
        } else {
            None
        };
        match hit {
            Some(id) => {
                matched.push((f.id, id));
                provenance.push((f.id, MatchInfo::certain(MatchMethod::Exact)));
                assert(provenance@ =~= matched@.map_values(
                    |p: (StableId, StableId)| (p.0, MatchInfo { method: MatchMethod::Exact, confidence: 100 }),
                ));
            },
            None => {
                left_a.push(f.id);
            },
        }
        i += 1;
    }
    assert(fs@.take(fs@.len() as int) =~= fs@);
    let gs = &b.functions;
    let mut left_b: Vec<StableId> = Vec::new();
    let mut j: usize = 0;
    while j < gs.len()
        invariant
            j <= gs@.len(),
            gs == &b.functions,
            left_b@ == unclaimed(gs@.take(j as int), matched@),
        decreases gs@.len() - j,
    {
        assert(gs@.take(j + 1).drop_last() =~= gs@.take(j as int));
        if !claims_exec(&matched, gs[j].id) {
            left_b.push(gs[j].id);
        }
        j += 1;
    }
    assert(gs@.take(gs@.len() as int) =~= gs@);
    proof {
        law_exact_diff_pairs_are_sole(a.functions@, b.functions@);
    }
    (
        ProgramDiff {
            matched,
            changed: Vec::new(),
            only_a: Vec::new(),
            only_b: Vec::new(),
            provenance,
        },
        left_a,
        left_b,
    )
}

/// Record a pairing found by a later rung: an unchanged body (equal signature) is `matched`, a
/// differing one `changed`; either way its recovery is recorded against the `a`-side id.
pub fn record_pair(diff: &mut ProgramDiff, a: &Program, b: &Program, aid: StableId, bid: StableId, info: MatchInfo)
    requires
        fn_by_id(a.functions@, aid) is Some,
        fn_by_id(b.functions@, bid) is Some,
    ensures
        sig(fn_by_id(a.functions@, aid).unwrap()) == sig(fn_by_id(b.functions@, bid).unwrap()) ==> final(diff).matched@ == old(diff).matched@.push((aid, bid)) && final(diff).changed@ == old(diff).changed@,
        sig(fn_by_id(a.functions@, aid).unwrap()) != sig(fn_by_id(b.functions@, bid).unwrap()) ==> final(diff).changed@ == old(diff).changed@.push((aid, bid)) && final(diff).matched@ == old(diff).matched@,
        final(diff).provenance@ == old(diff).provenance@.push((aid, info)),
        final(diff).only_a@ == old(diff).only_a@,
        final(diff).only_b@ == old(diff).only_b@,
{
    let ka = match last_by_id(&a.functions, aid) {
        Some(k) => k,
        None => {
            assert(false);
            return;
        },
    };
    let kb = match last_by_id(&b.functions, bid) {
        Some(k) => k,
        None => {
            assert(false);
            return;
        },
    };
    let sa = signature(&a.functions[ka]);
    let sb = signature(&b.functions[kb]);
    if sa.0 == sb.0 && sa.1 == sb.1 && sa.2 == sb.2 && sa.3 == sb.3 {
        diff.matched.push((aid, bid));
    } else {
        diff.changed.push((aid, bid));
    }
    diff.provenance.push((aid, info));
}

} // verus!

verus! {

/// The pairs `a`-id → `b`-id recorded so far in a diff (matched, then changed).
pub open spec fn diff_pairs(d: ProgramDiff) -> Seq<(StableId, StableId)> {
    d.matched@ + d.changed@
}

/// The `b`-side ids the recorded pairs map onto.
pub open spec fn mapped(pairs: Seq<(StableId, StableId)>) -> Set<StableId> {
    Set::new(|x: StableId| exists|i: int| 0 <= i < pairs.len() && image(pairs, pairs[i].0) == Some(x))
}

/// The images of `f`'s matched callees (as id values).
pub open spec fn key_a_callees(f: Function, pairs: Seq<(StableId, StableId)>) -> Set<u64> {
    Set::new(
        |x: u64|
            exists|i: int| 0 <= i < f.callees@.len() && image(pairs, f.callees@[i]) == Some(StableId(x)),
    )
}

/// The images of `id`'s matched callers among `a` (as id values).
pub open spec fn key_a_callers(a: Seq<Function>, id: StableId, pairs: Seq<(StableId, StableId)>) -> Set<u64> {
    Set::new(
        |x: u64|
            exists|k: int|
                0 <= k < a.len() && image(pairs, a[k].id) == Some(StableId(x)) && a[k].callees@.contains(id),
    )
}

/// `g`'s callees that are matched (as id values).
pub open spec fn key_b_callees(g: Function, pairs: Seq<(StableId, StableId)>) -> Set<u64> {
    Set::new(|x: u64| g.callees@.contains(StableId(x)) && mapped(pairs).contains(StableId(x)))
}

/// `id`'s matched callers among `b` (as id values).
pub open spec fn key_b_callers(b: Seq<Function>, id: StableId, pairs: Seq<(StableId, StableId)>) -> Set<u64> {
    Set::new(
        |x: u64|
            exists|k: int|
                0 <= k < b.len() && b[k].id == StableId(x) && mapped(pairs).contains(b[k].id)
                    && b[k].callees@.contains(id),
    )
}

/// An anchored neighbourhood: the matched callees and the matched callers, each as the
/// increasing list of their ids in the shared (`b`-side) id space.
pub type Nbhd = (Seq<u64>, Seq<u64>);

/// An `a`-side leftover's anchored neighbourhood.
pub open spec fn nbhd_a(a: Seq<Function>, pairs: Seq<(StableId, StableId)>, id: StableId) -> Nbhd {
    (
        in_order(key_a_callees(fn_by_id(a, id).unwrap(), pairs), addr_lt()),
        in_order(key_a_callers(a, id, pairs), addr_lt()),
    )
}

/// A `b`-side leftover's anchored neighbourhood.
pub open spec fn nbhd_b(b: Seq<Function>, pairs: Seq<(StableId, StableId)>, id: StableId) -> Nbhd {
    (
        in_order(key_b_callees(fn_by_id(b, id).unwrap(), pairs), addr_lt()),
        in_order(key_b_callers(b, id, pairs), addr_lt()),
    )
}

/// The neighbourhoods of the `a`-side leftovers `ids`, in order.
pub open spec fn nbhds_a(a: Seq<Function>, pairs: Seq<(StableId, StableId)>, ids: Seq<StableId>) -> Seq<Nbhd> {
    ids.map_values(|id: StableId| nbhd_a(a, pairs, id))
}

/// The neighbourhoods of the `b`-side leftovers `ids`, in order.
pub open spec fn nbhds_b(b: Seq<Function>, pairs: Seq<(StableId, StableId)>, ids: Seq<StableId>) -> Seq<Nbhd> {
    ids.map_values(|id: StableId| nbhd_b(b, pairs, id))
}

/// How many entries of `ks` equal `k`.
pub open spec fn count_in<K>(ks: Seq<K>, k: K) -> nat
    decreases ks.len(),
{
    if ks.len() == 0 {
        0
    } else {
        count_in(ks.drop_last(), k) + if ks.last() == k {
            1nat
        } else {
            0nat
        }
    }
}

/// The position of the last entry of `ks` equal to `k`, or `-1`.
pub open spec fn last_index_with<K>(ks: Seq<K>, k: K) -> int
    decreases ks.len(),
{
    if ks.len() == 0 {
        -1
    } else if ks.last() == k {
        ks.len() - 1
    } else {
        last_index_with(ks.drop_last(), k)
    }
}

/// A propagation round's running result: what it recorded and which leftovers it paired.
pub struct RoundState {
    pub matched: Seq<(StableId, StableId)>,
    pub changed: Seq<(StableId, StableId)>,
    pub provenance: Seq<(StableId, MatchInfo)>,
    pub paired_a: Seq<StableId>,
    pub paired_b: Seq<StableId>,
}

/// One propagation round over the `a`-side leftovers `ids`, in order: a leftover whose
/// non-empty neighbourhood occurs exactly once among the `a`-side leftovers (`left_a`) and
/// exactly once among the `b`-side ones (`left_b`) is paired with that `b`-side leftover,
/// unless this round already paired it — `matched` when the bodies' signatures agree,
/// `changed` when they differ — at full confidence.
pub open spec fn diff_round(
    a: Seq<Function>,
    b: Seq<Function>,
    pairs: Seq<(StableId, StableId)>,
    left_a: Seq<StableId>,
    left_b: Seq<StableId>,
    st: RoundState,
    ids: Seq<StableId>,
) -> RoundState
    decreases ids.len(),
{
    if ids.len() == 0 {
        st
    } else {
        let s1 = diff_round(a, b, pairs, left_a, left_b, st, ids.drop_last());
        let id = ids.last();
        let k = nbhd_a(a, pairs, id);
        let kb = nbhds_b(b, pairs, left_b);
        if k.0.len() == 0 && k.1.len() == 0 || count_in(nbhds_a(a, pairs, left_a), k) != 1
            || count_in(kb, k) != 1 {
            s1
        } else {
            let ub = left_b[last_index_with(kb, k)];
            if s1.paired_b.contains(ub) {
                s1
            } else {
                let info = MatchInfo { method: MatchMethod::Propagation, confidence: 100 };
                let same = sig(fn_by_id(a, id).unwrap()) == sig(fn_by_id(b, ub).unwrap());
                RoundState {
                    matched: if same {
                        s1.matched.push((id, ub))
                    } else {
                        s1.matched
                    },
                    changed: if same {
                        s1.changed
                    } else {
                        s1.changed.push((id, ub))
                    },
                    provenance: s1.provenance.push((id, info)),
                    paired_a: s1.paired_a.push(id),
                    paired_b: s1.paired_b.push(ub),
                }
            }
        }
    }
}

/// A whole propagation round of `d` over the leftovers, starting from what `d` recorded.
pub open spec fn round_of(
    a: Seq<Function>,
    b: Seq<Function>,
    d: ProgramDiff,
    left_a: Seq<StableId>,
    left_b: Seq<StableId>,
) -> RoundState {
    diff_round(
        a,
        b,
        diff_pairs(d),
        left_a,
        left_b,
        RoundState {
            matched: d.matched@,
            changed: d.changed@,
            provenance: d.provenance@,
            paired_a: Seq::empty(),
            paired_b: Seq::empty(),
        },
        left_a,
    )
}

/// The ids of `ids` not among `gone`, in order.
pub open spec fn without(ids: Seq<StableId>, gone: Seq<StableId>) -> Seq<StableId>
    decreases ids.len(),
{
    if ids.len() == 0 {
        Seq::empty()
    } else {
        let r = without(ids.drop_last(), gone);
        if gone.contains(ids.last()) {
            r
        } else {
            r.push(ids.last())
        }
    }
}

} // verus!

verus! {

/// A pair recorded in `pairs` has an image.
proof fn lemma_image_some(pairs: Seq<(StableId, StableId)>, i: int)
    requires
        0 <= i < pairs.len(),
    ensures
        image(pairs, pairs[i].0) is Some,
    decreases pairs.len(),
{
    if pairs.last().0 != pairs[i].0 {
        assert(i != pairs.len() - 1);
        assert(pairs.drop_last()[i] == pairs[i]);
        lemma_image_some(pairs.drop_last(), i);
    }
}

/// The `b`-side ids the recorded pairs map onto.
fn mapped_ids(m: &Matching) -> (r: Vec<StableId>)
    ensures
        forall|x: StableId| r@.contains(x) <==> mapped(m.pairs@).contains(x),
{
    let ghost pairs = m.pairs@;
    let mut out: Vec<StableId> = Vec::new();
    let mut i: usize = 0;
    while i < m.pairs.len()
        invariant
            i <= pairs.len(),
            pairs == m.pairs@,
            forall|x: StableId|
                out@.contains(x) <==> exists|t: int| 0 <= t < i && image(pairs, pairs[t].0) == Some(x),
        decreases pairs.len() - i,
    {
        proof {
            lemma_image_some(pairs, i as int);
        }
        if let Some(y) = m.get(m.pairs[i].0) {
            let ghost before = out@;
            out.push(y);
            assert forall|x: StableId|
                out@.contains(x) <==> exists|t: int| 0 <= t < i + 1 && image(pairs, pairs[t].0) == Some(x) by {
                if out@.contains(x) {
                    let p = choose|p: int| 0 <= p < out@.len() && out@[p] == x;
                    if p < before.len() {
                        assert(before.contains(x));
                    } else {
                        assert(image(pairs, pairs[i as int].0) == Some(x));
                    }
                }
                if exists|t: int| 0 <= t < i + 1 && image(pairs, pairs[t].0) == Some(x) {
                    let t = choose|t: int| 0 <= t < i + 1 && image(pairs, pairs[t].0) == Some(x);
                    if t < i {
                        assert(before.contains(x));
                        let p = choose|p: int| 0 <= p < before.len() && before[p] == x;
                        assert(out@[p] == x);
                    } else {
                        assert(out@[before.len() as int] == x);
                    }
                }
            }
        }
        i += 1;
    }
    out
}

/// The images of `f`'s matched callees, as an increasing list.
fn callee_images(f: &Function, m: &Matching) -> (r: Vec<u64>)
    ensures
        r@ == in_order(key_a_callees(*f, m.pairs@), addr_lt()),
{
    let ghost pairs = m.pairs@;
    let mut out: Vec<u64> = Vec::new();
    let mut i: usize = 0;
    while i < f.callees.len()
        invariant
            i <= f.callees@.len(),
            pairs == m.pairs@,
            sorted_by(out@, addr_lt()),
            out@.to_set() == Set::new(
                |x: u64| exists|t: int| 0 <= t < i && image(pairs, f.callees@[t]) == Some(StableId(x)),
            ),
        decreases f.callees@.len() - i,
    {
        let ghost before = out@;
        if let Some(y) = m.get(f.callees[i]) {
            insert_addr(&mut out, y.0);
        }
        assert(out@.to_set() =~= Set::new(
            |x: u64| exists|t: int| 0 <= t < i + 1 && image(pairs, f.callees@[t]) == Some(StableId(x)),
        )) by {
            assert forall|x: u64|
                (exists|t: int| 0 <= t < i + 1 && image(pairs, f.callees@[t]) == Some(StableId(x)))
                    implies out@.to_set().contains(x) by {
                if exists|t: int| 0 <= t < i + 1 && image(pairs, f.callees@[t]) == Some(StableId(x)) {
                    let t = choose|t: int| 0 <= t < i + 1 && image(pairs, f.callees@[t]) == Some(StableId(x));
                    if t < i {
                        assert(before.to_set().contains(x));
                    }
                }
            }
        }
        i += 1;
    }
    proof {
        assert(out@.to_set() =~= key_a_callees(*f, pairs));
        lemma_addr_lt_strict();
        lemma_in_order_is(out@, key_a_callees(*f, pairs), addr_lt());
    }
    out
}

/// The images of `id`'s matched callers among `fs`, as an increasing list.
fn caller_images(fs: &Vec<Function>, id: StableId, m: &Matching) -> (r: Vec<u64>)
    ensures
        r@ == in_order(key_a_callers(fs@, id, m.pairs@), addr_lt()),
{
    let ghost pairs = m.pairs@;
    let mut out: Vec<u64> = Vec::new();
    let mut k: usize = 0;
    while k < fs.len()
        invariant
            k <= fs@.len(),
            pairs == m.pairs@,
            sorted_by(out@, addr_lt()),
            out@.to_set() == Set::new(
                |x: u64|
                    exists|t: int|
                        0 <= t < k && image(pairs, fs@[t].id) == Some(StableId(x)) && fs@[t].callees@.contains(id),
            ),
        decreases fs@.len() - k,
    {
        let ghost before = out@;
        if let Some(y) = m.get(fs[k].id) {
            if contains_id(&fs[k].callees, id) {
                insert_addr(&mut out, y.0);
            }
        }
        assert(out@.to_set() =~= Set::new(
            |x: u64|
                exists|t: int|
                    0 <= t < k + 1 && image(pairs, fs@[t].id) == Some(StableId(x)) && fs@[t].callees@.contains(id),
        )) by {
            assert forall|x: u64|
                (exists|t: int|
                    0 <= t < k + 1 && image(pairs, fs@[t].id) == Some(StableId(x)) && fs@[t].callees@.contains(id))
                    implies out@.to_set().contains(x) by {
                if exists|t: int|
                    0 <= t < k + 1 && image(pairs, fs@[t].id) == Some(StableId(x)) && fs@[t].callees@.contains(id) {
                    let t = choose|t: int|
                        0 <= t < k + 1 && image(pairs, fs@[t].id) == Some(StableId(x)) && fs@[t].callees@.contains(id);
                    if t < k {
                        assert(before.to_set().contains(x));
                    }
                }
            }
        }
        k += 1;
    }
    proof {
        assert(out@.to_set() =~= key_a_callers(fs@, id, pairs));
        lemma_addr_lt_strict();
        lemma_in_order_is(out@, key_a_callers(fs@, id, pairs), addr_lt());
    }
    out
}

/// `g`'s callees that are matched, as an increasing list.
fn matched_callees(g: &Function, mb: &Vec<StableId>, Ghost(pairs): Ghost<Seq<(StableId, StableId)>>) -> (r: Vec<u64>)
    requires
        forall|x: StableId| mb@.contains(x) <==> mapped(pairs).contains(x),
    ensures
        r@ == in_order(key_b_callees(*g, pairs), addr_lt()),
{
    let mut out: Vec<u64> = Vec::new();
    let mut i: usize = 0;
    while i < g.callees.len()
        invariant
            i <= g.callees@.len(),
            forall|x: StableId| mb@.contains(x) <==> mapped(pairs).contains(x),
            sorted_by(out@, addr_lt()),
            out@.to_set() == Set::new(
                |x: u64|
                    exists|t: int| 0 <= t < i && g.callees@[t] == StableId(x) && mapped(pairs).contains(StableId(x)),
            ),
        decreases g.callees@.len() - i,
    {
        let ghost before = out@;
        let c = g.callees[i];
        if contains_id(mb, c) {
            insert_addr(&mut out, c.0);
        }
        assert(out@.to_set() =~= Set::new(
            |x: u64|
                exists|t: int| 0 <= t < i + 1 && g.callees@[t] == StableId(x) && mapped(pairs).contains(StableId(x)),
        )) by {
            assert forall|x: u64|
                (exists|t: int| 0 <= t < i + 1 && g.callees@[t] == StableId(x) && mapped(pairs).contains(StableId(x)))
                    implies out@.to_set().contains(x) by {
                if exists|t: int|
                    0 <= t < i + 1 && g.callees@[t] == StableId(x) && mapped(pairs).contains(StableId(x)) {
                    let t = choose|t: int|
                        0 <= t < i + 1 && g.callees@[t] == StableId(x) && mapped(pairs).contains(StableId(x));
                    if t < i {
                        assert(before.to_set().contains(x));
                    }
                }
            }
        }
        i += 1;
    }
    proof {
        assert forall|x: u64| out@.to_set().contains(x) <==> key_b_callees(*g, pairs).contains(x) by {
            if key_b_callees(*g, pairs).contains(x) {
                let t = choose|t: int| 0 <= t < g.callees@.len() && g.callees@[t] == StableId(x);
            }
        }
        assert(out@.to_set() =~= key_b_callees(*g, pairs));
        lemma_addr_lt_strict();
        lemma_in_order_is(out@, key_b_callees(*g, pairs), addr_lt());
    }
    out
}

/// `id`'s matched callers among `fs`, as an increasing list.
fn matched_callers(
    fs: &Vec<Function>,
    id: StableId,
    mb: &Vec<StableId>,
    Ghost(pairs): Ghost<Seq<(StableId, StableId)>>,
) -> (r: Vec<u64>)
    requires
        forall|x: StableId| mb@.contains(x) <==> mapped(pairs).contains(x),
    ensures
        r@ == in_order(key_b_callers(fs@, id, pairs), addr_lt()),
{
    let mut out: Vec<u64> = Vec::new();
    let mut k: usize = 0;
    while k < fs.len()
        invariant
            k <= fs@.len(),
            forall|x: StableId| mb@.contains(x) <==> mapped(pairs).contains(x),
            sorted_by(out@, addr_lt()),
            out@.to_set() == Set::new(
                |x: u64|
                    exists|t: int|
                        0 <= t < k && fs@[t].id == StableId(x) && mapped(pairs).contains(fs@[t].id)
                            && fs@[t].callees@.contains(id),
            ),
        decreases fs@.len() - k,
    {
        let ghost before = out@;
        if contains_id(mb, fs[k].id) && contains_id(&fs[k].callees, id) {
            insert_addr(&mut out, fs[k].id.0);
        }
        assert(out@.to_set() =~= Set::new(
            |x: u64|
                exists|t: int|
                    0 <= t < k + 1 && fs@[t].id == StableId(x) && mapped(pairs).contains(fs@[t].id)
                        && fs@[t].callees@.contains(id),
        )) by {
            assert forall|x: u64|
                (exists|t: int|
                    0 <= t < k + 1 && fs@[t].id == StableId(x) && mapped(pairs).contains(fs@[t].id)
                        && fs@[t].callees@.contains(id)) implies out@.to_set().contains(x) by {
                if exists|t: int|
                    0 <= t < k + 1 && fs@[t].id == StableId(x) && mapped(pairs).contains(fs@[t].id)
                        && fs@[t].callees@.contains(id) {
                    let t = choose|t: int|
                        0 <= t < k + 1 && fs@[t].id == StableId(x) && mapped(pairs).contains(fs@[t].id)
                            && fs@[t].callees@.contains(id);
                    if t < k {
                        assert(before.to_set().contains(x));
                    }
                }
            }
        }
        k += 1;
    }
    proof {
        assert(out@.to_set() =~= key_b_callers(fs@, id, pairs));
        lemma_addr_lt_strict();
        lemma_in_order_is(out@, key_b_callers(fs@, id, pairs), addr_lt());
    }
    out
}

/// An exec neighbourhood: the two increasing id lists.
pub type NbhdLists = (Vec<u64>, Vec<u64>);

/// The neighbourhood an exec key stands for.
pub open spec fn key_view(k: NbhdLists) -> Nbhd {
    (k.0@, k.1@)
}

/// The neighbourhoods a list of exec keys stands for.
pub open spec fn keys_view(ks: Seq<NbhdLists>) -> Seq<Nbhd> {
    ks.map_values(|k: NbhdLists| key_view(k))
}

/// The neighbourhood of the `a`-side function `id`.
fn key_of_a(a: &Program, m: &Matching, id: StableId) -> (r: NbhdLists)
    requires
        fn_by_id(a.functions@, id) is Some,
    ensures
        key_view(r) == nbhd_a(a.functions@, m.pairs@, id),
{
    let k = match last_by_id(&a.functions, id) {
        Some(k) => k,
        None => {
            assert(false);
            0
        },
    };
    (callee_images(&a.functions[k], m), caller_images(&a.functions, id, m))
}

/// The neighbourhood of the `b`-side function `id`.
fn key_of_b(b: &Program, mb: &Vec<StableId>, id: StableId, Ghost(pairs): Ghost<Seq<(StableId, StableId)>>) -> (r: NbhdLists)
    requires
        fn_by_id(b.functions@, id) is Some,
        forall|x: StableId| mb@.contains(x) <==> mapped(pairs).contains(x),
    ensures
        key_view(r) == nbhd_b(b.functions@, pairs, id),
{
    let k = match last_by_id(&b.functions, id) {
        Some(k) => k,
        None => {
            assert(false);
            0
        },
    };
    (matched_callees(&b.functions[k], mb, Ghost(pairs)), matched_callers(&b.functions, id, mb, Ghost(pairs)))
}

/// Whether two id lists are equal.
fn same_list(x: &Vec<u64>, y: &Vec<u64>) -> (r: bool)
    ensures
        r == (x@ == y@),
{
    if x.len() != y.len() {
        return false;
    }
    let mut i: usize = 0;
    while i < x.len()
        invariant
            i <= x@.len(),
            x@.len() == y@.len(),
            forall|t: int| 0 <= t < i ==> x@[t] == y@[t],
        decreases x@.len() - i,
    {
        if x[i] != y[i] {
            return false;
        }
        i += 1;
    }
    assert(x@ =~= y@);
    true
}

/// Whether two exec keys stand for the same neighbourhood.
fn same_key(x: &NbhdLists, y: &NbhdLists) -> (r: bool)
    ensures
        r == (key_view(*x) == key_view(*y)),
{
    same_list(&x.0, &y.0) && same_list(&x.1, &y.1)
}

/// How many of `ks` stand for `k`'s neighbourhood.
fn count_key(ks: &Vec<NbhdLists>, k: &NbhdLists) -> (r: usize)
    ensures
        r == count_in(keys_view(ks@), key_view(*k)),
{
    let mut n: usize = 0;
    let mut i: usize = 0;
    while i < ks.len()
        invariant
            i <= ks@.len(),
            n <= i,
            n == count_in(keys_view(ks@).take(i as int), key_view(*k)),
        decreases ks@.len() - i,
    {
        assert(keys_view(ks@).take(i + 1).drop_last() =~= keys_view(ks@).take(i as int));
        if same_key(&ks[i], k) {
            n += 1;
        }
        i += 1;
    }
    assert(keys_view(ks@).take(ks@.len() as int) =~= keys_view(ks@));
    n
}

/// The position of the last of `ks` standing for `k`'s neighbourhood.
fn last_key(ks: &Vec<NbhdLists>, k: &NbhdLists) -> (r: Option<usize>)
    ensures
        match r {
            Some(j) => j < ks@.len() && j == last_index_with(keys_view(ks@), key_view(*k)),
            None => last_index_with(keys_view(ks@), key_view(*k)) == -1,
        },
{
    let mut i: usize = ks.len();
    assert(keys_view(ks@).take(i as int) =~= keys_view(ks@));
    while i > 0
        invariant
            i <= ks@.len(),
            last_index_with(keys_view(ks@), key_view(*k)) == last_index_with(
                keys_view(ks@).take(i as int),
                key_view(*k),
            ),
        decreases i,
    {
        assert(keys_view(ks@).take(i as int).drop_last() =~= keys_view(ks@).take(i - 1));
        if same_key(&ks[i - 1], k) {
            return Some(i - 1);
        }
        i -= 1;
    }
    None
}

/// The last position of `k`, when there is one, holds `k`.
proof fn lemma_last_index_hit<K>(ks: Seq<K>, k: K)
    ensures
        last_index_with(ks, k) < ks.len(),
        last_index_with(ks, k) >= 0 ==> ks[last_index_with(ks, k)] == k,
    decreases ks.len(),
{
    if ks.len() > 0 && ks.last() != k {
        lemma_last_index_hit(ks.drop_last(), k);
    }
}

/// A key occurring in `ks` has a last position, holding it.
proof fn lemma_last_index(ks: Seq<Nbhd>, k: Nbhd)
    requires
        count_in(ks, k) > 0,
    ensures
        0 <= last_index_with(ks, k) < ks.len(),
        ks[last_index_with(ks, k)] == k,
    decreases ks.len(),
{
    if ks.last() != k {
        lemma_last_index(ks.drop_last(), k);
    }
}

/// The ids of `ids` not among `gone`, in order.
fn without_ids(ids: &Vec<StableId>, gone: &Vec<StableId>) -> (r: Vec<StableId>)
    ensures
        r@ == without(ids@, gone@),
        forall|x: StableId| r@.contains(x) ==> ids@.contains(x),
{
    let mut out: Vec<StableId> = Vec::new();
    let mut i: usize = 0;
    while i < ids.len()
        invariant
            i <= ids@.len(),
            out@ == without(ids@.take(i as int), gone@),
            forall|x: StableId| out@.contains(x) ==> ids@.take(i as int).contains(x),
        decreases ids@.len() - i,
    {
        assert(ids@.take(i + 1).drop_last() =~= ids@.take(i as int));
        let ghost before = out@;
        if !contains_id(gone, ids[i]) {
            out.push(ids[i]);
        }
        assert forall|x: StableId| out@.contains(x) implies ids@.take(i + 1).contains(x) by {
            let p = choose|p: int| 0 <= p < out@.len() && out@[p] == x;
            if p < before.len() {
                assert(before.contains(x));
                let q = choose|q: int| 0 <= q < i && ids@.take(i as int)[q] == x;
                assert(ids@.take(i + 1)[q] == x);
            } else {
                assert(ids@.take(i + 1)[i as int] == x);
            }
        }
        i += 1;
    }
    assert(ids@.take(ids@.len() as int) =~= ids@);
    out
}

/// One round of call-graph propagation over the leftovers: a leftover on each side with the
/// same non-empty neighbourhood of already-matched callees and callers — unique among the
/// leftovers on both sides — is the same function, recorded as `matched` (body unchanged) or
/// `changed`, at full confidence. The paired leftovers leave `left_a` / `left_b`. Nothing
/// ambiguous is paired: a neighbourhood two leftovers share pairs neither.
pub fn propagate_round(
    diff: &mut ProgramDiff,
    a: &Program,
    b: &Program,
    left_a: &mut Vec<StableId>,
    left_b: &mut Vec<StableId>,
)
    requires
        forall|i: int| 0 <= i < old(left_a)@.len() ==> fn_by_id(a.functions@, #[trigger] old(left_a)@[i]) is Some,
        forall|i: int| 0 <= i < old(left_b)@.len() ==> fn_by_id(b.functions@, #[trigger] old(left_b)@[i]) is Some,
    ensures
        final(diff).matched@ == round_of(a.functions@, b.functions@, *old(diff), old(left_a)@, old(left_b)@).matched,
        final(diff).changed@ == round_of(a.functions@, b.functions@, *old(diff), old(left_a)@, old(left_b)@).changed,
        final(diff).provenance@ == round_of(a.functions@, b.functions@, *old(diff), old(left_a)@, old(left_b)@).provenance,
        final(diff).only_a@ == old(diff).only_a@,
        final(diff).only_b@ == old(diff).only_b@,
        final(left_a)@ == without(old(left_a)@, round_of(a.functions@, b.functions@, *old(diff), old(left_a)@, old(left_b)@).paired_a),
        final(left_b)@ == without(old(left_b)@, round_of(a.functions@, b.functions@, *old(diff), old(left_a)@, old(left_b)@).paired_b),
        forall|i: int| 0 <= i < final(left_a)@.len() ==> fn_by_id(a.functions@, #[trigger] final(left_a)@[i]) is Some,
        forall|i: int| 0 <= i < final(left_b)@.len() ==> fn_by_id(b.functions@, #[trigger] final(left_b)@[i]) is Some,
{
    let ghost d0 = *diff;
    let ghost la = left_a@;
    let ghost lb = left_b@;
    let ghost fa = a.functions@;
    let ghost fb = b.functions@;
    let ghost st0 = RoundState {
        matched: d0.matched@,
        changed: d0.changed@,
        provenance: d0.provenance@,
        paired_a: Seq::empty(),
        paired_b: Seq::empty(),
    };
    // The pairs recorded so far, matched then changed.
    let mut all: Vec<(StableId, StableId)> = Vec::new();
    let mut i: usize = 0;
    while i < diff.matched.len()
        invariant
            i <= d0.matched@.len(),
            *diff == d0,
            all@ == d0.matched@.take(i as int),
        decreases d0.matched@.len() - i,
    {
        all.push(diff.matched[i]);
        i += 1;
    }
    let mut j: usize = 0;
    while j < diff.changed.len()
        invariant
            j <= d0.changed@.len(),
            *diff == d0,
            all@ == d0.matched@ + d0.changed@.take(j as int),
        decreases d0.changed@.len() - j,
    {
        all.push(diff.changed[j]);
        j += 1;
    }
    assert(d0.changed@.take(d0.changed@.len() as int) =~= d0.changed@);
    let m = Matching { pairs: all, claimed: Vec::new() };
    let ghost pairs = m.pairs@;
    assert(pairs == diff_pairs(d0));
    let mb = mapped_ids(&m);
    // Every leftover's neighbourhood.
    let mut ka: Vec<NbhdLists> = Vec::new();
    let mut p: usize = 0;
    while p < left_a.len()
        invariant
            p <= la.len(),
            left_a@ == la,
            m.pairs@ == pairs,
            forall|t: int| 0 <= t < la.len() ==> fn_by_id(fa, #[trigger] la[t]) is Some,
            fa == a.functions@,
            ka@.len() == p,
            forall|t: int| 0 <= t < p ==> key_view(#[trigger] ka@[t]) == nbhd_a(fa, pairs, la[t]),
        decreases la.len() - p,
    {
        let key = key_of_a(a, &m, left_a[p]);
        ka.push(key);
        p += 1;
    }
    assert(keys_view(ka@) =~= nbhds_a(fa, pairs, la));
    let mut kb: Vec<NbhdLists> = Vec::new();
    let mut q: usize = 0;
    while q < left_b.len()
        invariant
            q <= lb.len(),
            left_b@ == lb,
            forall|t: int| 0 <= t < lb.len() ==> fn_by_id(fb, #[trigger] lb[t]) is Some,
            fb == b.functions@,
            forall|x: StableId| mb@.contains(x) <==> mapped(pairs).contains(x),
            kb@.len() == q,
            forall|t: int| 0 <= t < q ==> key_view(#[trigger] kb@[t]) == nbhd_b(fb, pairs, lb[t]),
        decreases lb.len() - q,
    {
        let key = key_of_b(b, &mb, left_b[q], Ghost(pairs));
        kb.push(key);
        q += 1;
    }
    assert(keys_view(kb@) =~= nbhds_b(fb, pairs, lb));
    // Pair, in the order of the `a`-side leftovers.
    let mut paired_a: Vec<StableId> = Vec::new();
    let mut paired_b: Vec<StableId> = Vec::new();
    let mut r: usize = 0;
    while r < left_a.len()
        invariant
            r <= la.len(),
            left_a@ == la,
            left_b@ == lb,
            fa == a.functions@,
            fb == b.functions@,
            forall|t: int| 0 <= t < la.len() ==> fn_by_id(fa, #[trigger] la[t]) is Some,
            forall|t: int| 0 <= t < lb.len() ==> fn_by_id(fb, #[trigger] lb[t]) is Some,
            ka@.len() == la.len(),
            kb@.len() == lb.len(),
            keys_view(ka@) == nbhds_a(fa, pairs, la),
            keys_view(kb@) == nbhds_b(fb, pairs, lb),
            diff.matched@ == diff_round(fa, fb, pairs, la, lb, st0, la.take(r as int)).matched,
            diff.changed@ == diff_round(fa, fb, pairs, la, lb, st0, la.take(r as int)).changed,
            diff.provenance@ == diff_round(fa, fb, pairs, la, lb, st0, la.take(r as int)).provenance,
            paired_a@ == diff_round(fa, fb, pairs, la, lb, st0, la.take(r as int)).paired_a,
            paired_b@ == diff_round(fa, fb, pairs, la, lb, st0, la.take(r as int)).paired_b,
            diff.only_a@ == d0.only_a@,
            diff.only_b@ == d0.only_b@,
        decreases la.len() - r,
    {
        assert(la.take(r + 1).drop_last() =~= la.take(r as int));
        assert(la.take(r + 1).last() == la[r as int]);
        let id = left_a[r];
        let k = &ka[r];
        assert(key_view(*k) == keys_view(ka@)[r as int]);
        assert(key_view(*k) == nbhd_a(fa, pairs, id));
        if (k.0.len() > 0 || k.1.len() > 0) && count_key(&ka, k) == 1 && count_key(&kb, k) == 1 {
            proof {
                lemma_last_index(keys_view(kb@), key_view(*k));
            }
            if let Some(jb) = last_key(&kb, k) {
                let ub = left_b[jb];
                assert(fn_by_id(fb, lb[jb as int]) is Some);
                if !contains_id(&paired_b, ub) {
                    record_pair(diff, a, b, id, ub, MatchInfo::certain(MatchMethod::Propagation));
                    paired_a.push(id);
                    paired_b.push(ub);
                }
            }
        }
        r += 1;
    }
    assert(la.take(la.len() as int) =~= la);
    let na = without_ids(left_a, &paired_a);
    let nb = without_ids(left_b, &paired_b);
    *left_a = na;
    *left_b = nb;
    proof {
        assert forall|i: int| 0 <= i < left_a@.len() implies fn_by_id(fa, #[trigger] left_a@[i]) is Some by {
            assert(left_a@.contains(left_a@[i]));
            let t = choose|t: int| 0 <= t < la.len() && la[t] == left_a@[i];
        }
        assert forall|i: int| 0 <= i < left_b@.len() implies fn_by_id(fb, #[trigger] left_b@[i]) is Some by {
            assert(left_b@.contains(left_b@[i]));
            let t = choose|t: int| 0 <= t < lb.len() && lb[t] == left_b@[i];
        }
    }
}

} // verus!

verus! {

// ---------------------------------------------------------------------------------------------
// The scored rungs: who takes part, and the reciprocal unique-best pairing
// ---------------------------------------------------------------------------------------------

/// A BSim vector below this many features is not discriminating enough to anchor an identity.
pub const BSIM_MIN_FEATURES: usize = 4;

/// An anchor needs at least this many distinct architecture-independent features.
pub const ANCHOR_MIN_FEATURES: usize = 2;

/// A function's architecture-independent features, in order: referenced strings, imported
/// names, package-qualified callee names.
pub open spec fn feature_texts(f: Function) -> Seq<Seq<char>> {
    (f.string_refs@ + f.imports@ + f.callee_names@).map_values(|s: String| s@)
}

/// Whether `f` takes part in a scored rung: the anchor rung needs two distinct features, the
/// BSim rung a vector of at least [`BSIM_MIN_FEATURES`] entries, the fuzzy rung some mnemonics.
pub open spec fn rung_eligible(f: Function, method: MatchMethod) -> bool {
    match method {
        MatchMethod::Anchor => exists|i: int, j: int|
            0 <= i < feature_texts(f).len() && 0 <= j < feature_texts(f).len() && feature_texts(f)[i]
                != feature_texts(f)[j],
        MatchMethod::Bsim => f.bsim_vector@.len() >= BSIM_MIN_FEATURES,
        MatchMethod::Fuzzy => f.mnemonics@.len() > 0,
        _ => false,
    }
}

/// Whether some string of `v` differs from `s`.
fn differs_from(v: &Vec<String>, s: &str) -> (r: bool)
    ensures
        r == exists|i: int| 0 <= i < v@.len() && v@[i]@ != s@,
{
    let mut i: usize = 0;
    while i < v.len()
        invariant
            i <= v@.len(),
            forall|t: int| 0 <= t < i ==> v@[t]@ == s@,
        decreases v@.len() - i,
    {
        if compare_text(v[i].as_str(), s) != 0 {
            return true;
        }
        i += 1;
    }
    false
}

/// Whether `f` takes part in the scored rung `method`.
pub fn eligible(f: &Function, method: MatchMethod) -> (r: bool)
    ensures
        r == rung_eligible(*f, method),
{
    match method {
        MatchMethod::Anchor => {
            let ghost t = feature_texts(*f);
            let ghost n1 = f.string_refs@.len();
            let ghost n2 = f.imports@.len();
            assert forall|i: int| 0 <= i < n1 implies t[i] == #[trigger] f.string_refs@[i]@ by {}
            assert forall|i: int| 0 <= i < n2 implies t[n1 + i] == #[trigger] f.imports@[i]@ by {}
            assert forall|i: int| 0 <= i < f.callee_names@.len() implies t[n1 + n2 + i]
                == #[trigger] f.callee_names@[i]@ by {}
            let first: &String = if f.string_refs.len() > 0 {
                &f.string_refs[0]
            } else if f.imports.len() > 0 {
                &f.imports[0]
            } else if f.callee_names.len() > 0 {
                &f.callee_names[0]
            } else {
                assert(t.len() == 0);
                return false;
            };
            assert(t[0] == first@);
            let r = differs_from(&f.string_refs, first.as_str()) || differs_from(&f.imports, first.as_str())
                || differs_from(&f.callee_names, first.as_str());
            proof {
                if r {
                    if exists|i: int| 0 <= i < f.string_refs@.len() && f.string_refs@[i]@ != first@ {
                        let i = choose|i: int| 0 <= i < f.string_refs@.len() && f.string_refs@[i]@ != first@;
                        assert(t[i] != t[0]);
                    } else if exists|i: int| 0 <= i < f.imports@.len() && f.imports@[i]@ != first@ {
                        let i = choose|i: int| 0 <= i < f.imports@.len() && f.imports@[i]@ != first@;
                        assert(t[n1 + i] != t[0]);
                    } else {
                        let i = choose|i: int| 0 <= i < f.callee_names@.len() && f.callee_names@[i]@ != first@;
                        assert(t[n1 + n2 + i] != t[0]);
                    }
                } else {
                    assert forall|i: int| 0 <= i < t.len() implies #[trigger] t[i] == t[0] by {
                        if i < n1 {
                            assert(t[i] == f.string_refs@[i]@);
                        } else if i < n1 + n2 {
                            assert(t[i] == f.imports@[i - n1]@);
                        } else {
                            assert(t[i] == f.callee_names@[i - n1 - n2]@);
                        }
                    }
                }
            }
            r
        },
        MatchMethod::Bsim => f.bsim_vector.len() >= BSIM_MIN_FEATURES,
        MatchMethod::Fuzzy => f.mnemonics.len() > 0,
        _ => false,
    }
}

/// Whether the `a`- or `b`-side function `id` of `fs` takes part in the rung `method`.
pub open spec fn id_eligible(fs: Seq<Function>, method: MatchMethod, id: StableId) -> bool {
    rung_eligible(fn_by_id(fs, id).unwrap(), method)
}

/// The leftovers that take part in the scored rung `method`, in order.
pub fn eligible_ids(p: &Program, left: &Vec<StableId>, method: MatchMethod) -> (r: Vec<StableId>)
    requires
        forall|i: int| 0 <= i < left@.len() ==> fn_by_id(p.functions@, #[trigger] left@[i]) is Some,
    ensures
        r@ == left@.filter(|id: StableId| id_eligible(p.functions@, method, id)),
{
    let ghost keep = |id: StableId| id_eligible(p.functions@, method, id);
    let mut out: Vec<StableId> = Vec::new();
    let mut i: usize = 0;
    while i < left.len()
        invariant
            i <= left@.len(),
            forall|t: int| 0 <= t < left@.len() ==> fn_by_id(p.functions@, #[trigger] left@[t]) is Some,
            keep == (|id: StableId| id_eligible(p.functions@, method, id)),
            out@ == left@.take(i as int).filter(keep),
        decreases left@.len() - i,
    {
        assert(left@.take(i + 1).drop_last() =~= left@.take(i as int));
        let k = match last_by_id(&p.functions, left[i]) {
            Some(k) => k,
            None => {
                assert(fn_by_id(p.functions@, left@[i as int]) is Some);
                0
            },
        };
        let e = eligible(&p.functions[k], method);
        assert(e == keep(left@[i as int]));
        assert(left@.take(i + 1).last() == left@[i as int]);
        let ghost before = out@;
        if e {
            out.push(left[i]);
        }
        proof {
            let s1 = left@.take(i + 1);
            reveal(Seq::filter);
            assert(s1.filter(keep) == (if keep(s1.last()) {
                s1.drop_last().filter(keep).push(s1.last())
            } else {
                s1.drop_last().filter(keep)
            }));
        }
        i += 1;
    }
    assert(left@.take(left@.len() as int) =~= left@);
    out
}

/// Record the pair `(id, ub)` in a round's running result.
pub open spec fn recorded(a: Seq<Function>, b: Seq<Function>, s: RoundState, id: StableId, ub: StableId, info: MatchInfo) -> RoundState {
    let same = sig(fn_by_id(a, id).unwrap()) == sig(fn_by_id(b, ub).unwrap());
    RoundState {
        matched: if same {
            s.matched.push((id, ub))
        } else {
            s.matched
        },
        changed: if same {
            s.changed
        } else {
            s.changed.push((id, ub))
        },
        provenance: s.provenance.push((id, info)),
        paired_a: s.paired_a.push(id),
        paired_b: s.paired_b.push(ub),
    }
}

/// One scored rung over its first `n` `a`-side candidates, in order. `best_of_a[i]` is the
/// unique best `b`-side candidate for `elig_a[i]` (one clearing the rung's threshold and
/// margin), `best_of_b[j]` the same for `elig_b[j]` in the other direction, and `conf[i]` the
/// confidence of `elig_a[i]`'s best. A pair is recorded only when it is reciprocal — each is
/// the other's unique best — and the `b` side is not yet paired this round.
pub open spec fn feature_pairs(
    a: Seq<Function>,
    b: Seq<Function>,
    elig_a: Seq<StableId>,
    best_of_a: Seq<Option<StableId>>,
    conf: Seq<u8>,
    elig_b: Seq<StableId>,
    best_of_b: Seq<Option<StableId>>,
    method: MatchMethod,
    st: RoundState,
    n: nat,
) -> RoundState
    decreases n,
{
    if n == 0 {
        st
    } else {
        let s1 = feature_pairs(a, b, elig_a, best_of_a, conf, elig_b, best_of_b, method, st, (n - 1) as nat);
        let i = n - 1;
        let aid = elig_a[i];
        match best_of_a[i] {
            None => s1,
            Some(bid) => {
                let j = last_index_with(elig_b, bid);
                if s1.paired_b.contains(bid) || j < 0 || best_of_b[j] != Some(aid) {
                    s1
                } else {
                    recorded(a, b, s1, aid, bid, MatchInfo { method, confidence: conf[i] })
                }
            },
        }
    }
}

/// A whole scored rung of `d`, starting from what `d` recorded.
pub open spec fn feature_round_of(
    a: Seq<Function>,
    b: Seq<Function>,
    d: ProgramDiff,
    elig_a: Seq<StableId>,
    best_of_a: Seq<Option<StableId>>,
    conf: Seq<u8>,
    elig_b: Seq<StableId>,
    best_of_b: Seq<Option<StableId>>,
    method: MatchMethod,
) -> RoundState {
    feature_pairs(
        a,
        b,
        elig_a,
        best_of_a,
        conf,
        elig_b,
        best_of_b,
        method,
        RoundState {
            matched: d.matched@,
            changed: d.changed@,
            provenance: d.provenance@,
            paired_a: Seq::empty(),
            paired_b: Seq::empty(),
        },
        elig_a.len(),
    )
}

/// Where `id` last stands in `ids`, if anywhere.
fn last_position(ids: &Vec<StableId>, id: StableId) -> (r: Option<usize>)
    ensures
        match r {
            Some(j) => j < ids@.len() && j == last_index_with(ids@, id),
            None => last_index_with(ids@, id) == -1,
        },
{
    let mut i: usize = ids.len();
    assert(ids@.take(i as int) =~= ids@);
    while i > 0
        invariant
            i <= ids@.len(),
            last_index_with(ids@, id) == last_index_with(ids@.take(i as int), id),
        decreases i,
    {
        assert(ids@.take(i as int).drop_last() =~= ids@.take(i - 1));
        if ids[i - 1] == id {
            return Some(i - 1);
        }
        i -= 1;
    }
    None
}

/// One scored rung (anchor, BSim or fuzzy) over the leftovers: `elig_a` / `elig_b` are the
/// leftovers taking part, `best_of_a` / `best_of_b` each one's unique best on the other side by
/// the rung's score (one clearing its threshold and margin; `None` on a near-tie), `conf` the
/// confidence of each `a`-side best. Only reciprocal bests pair — fail-closed — recorded as
/// `matched` (body unchanged) or `changed`; the paired leftovers leave `left_a` / `left_b`.
pub fn feature_round(
    diff: &mut ProgramDiff,
    a: &Program,
    b: &Program,
    left_a: &mut Vec<StableId>,
    left_b: &mut Vec<StableId>,
    elig_a: &Vec<StableId>,
    best_of_a: &Vec<Option<StableId>>,
    conf: &Vec<u8>,
    elig_b: &Vec<StableId>,
    best_of_b: &Vec<Option<StableId>>,
    method: MatchMethod,
)
    requires
        best_of_a@.len() == elig_a@.len(),
        conf@.len() == elig_a@.len(),
        best_of_b@.len() == elig_b@.len(),
        forall|i: int| 0 <= i < elig_a@.len() ==> fn_by_id(a.functions@, #[trigger] elig_a@[i]) is Some,
        forall|i: int| 0 <= i < elig_b@.len() ==> fn_by_id(b.functions@, #[trigger] elig_b@[i]) is Some,
        forall|i: int| 0 <= i < old(left_a)@.len() ==> fn_by_id(a.functions@, #[trigger] old(left_a)@[i]) is Some,
        forall|i: int| 0 <= i < old(left_b)@.len() ==> fn_by_id(b.functions@, #[trigger] old(left_b)@[i]) is Some,
    ensures
        final(diff).matched@ == feature_round_of(a.functions@, b.functions@, *old(diff), elig_a@, best_of_a@, conf@, elig_b@, best_of_b@, method).matched,
        final(diff).changed@ == feature_round_of(a.functions@, b.functions@, *old(diff), elig_a@, best_of_a@, conf@, elig_b@, best_of_b@, method).changed,
        final(diff).provenance@ == feature_round_of(a.functions@, b.functions@, *old(diff), elig_a@, best_of_a@, conf@, elig_b@, best_of_b@, method).provenance,
        final(diff).only_a@ == old(diff).only_a@,
        final(diff).only_b@ == old(diff).only_b@,
        final(left_a)@ == without(old(left_a)@, feature_round_of(a.functions@, b.functions@, *old(diff), elig_a@, best_of_a@, conf@, elig_b@, best_of_b@, method).paired_a),
        final(left_b)@ == without(old(left_b)@, feature_round_of(a.functions@, b.functions@, *old(diff), elig_a@, best_of_a@, conf@, elig_b@, best_of_b@, method).paired_b),
        forall|i: int| 0 <= i < final(left_a)@.len() ==> fn_by_id(a.functions@, #[trigger] final(left_a)@[i]) is Some,
        forall|i: int| 0 <= i < final(left_b)@.len() ==> fn_by_id(b.functions@, #[trigger] final(left_b)@[i]) is Some,
{
    let ghost d0 = *diff;
    let ghost fa = a.functions@;
    let ghost fb = b.functions@;
    let ghost la = left_a@;
    let ghost lb = left_b@;
    let ghost st0 = RoundState {
        matched: d0.matched@,
        changed: d0.changed@,
        provenance: d0.provenance@,
        paired_a: Seq::empty(),
        paired_b: Seq::empty(),
    };
    let mut paired_a: Vec<StableId> = Vec::new();
    let mut paired_b: Vec<StableId> = Vec::new();
    let mut i: usize = 0;
    while i < elig_a.len()
        invariant
            i <= elig_a@.len(),
            best_of_a@.len() == elig_a@.len(),
            conf@.len() == elig_a@.len(),
            best_of_b@.len() == elig_b@.len(),
            fa == a.functions@,
            fb == b.functions@,
            forall|t: int| 0 <= t < elig_a@.len() ==> fn_by_id(fa, #[trigger] elig_a@[t]) is Some,
            forall|t: int| 0 <= t < elig_b@.len() ==> fn_by_id(fb, #[trigger] elig_b@[t]) is Some,
            diff.matched@ == feature_pairs(fa, fb, elig_a@, best_of_a@, conf@, elig_b@, best_of_b@, method, st0, i as nat).matched,
            diff.changed@ == feature_pairs(fa, fb, elig_a@, best_of_a@, conf@, elig_b@, best_of_b@, method, st0, i as nat).changed,
            diff.provenance@ == feature_pairs(fa, fb, elig_a@, best_of_a@, conf@, elig_b@, best_of_b@, method, st0, i as nat).provenance,
            paired_a@ == feature_pairs(fa, fb, elig_a@, best_of_a@, conf@, elig_b@, best_of_b@, method, st0, i as nat).paired_a,
            paired_b@ == feature_pairs(fa, fb, elig_a@, best_of_a@, conf@, elig_b@, best_of_b@, method, st0, i as nat).paired_b,
            diff.only_a@ == d0.only_a@,
            diff.only_b@ == d0.only_b@,
        decreases elig_a@.len() - i,
    {
        let aid = elig_a[i];
        if let Some(bid) = best_of_a[i] {
            if !contains_id(&paired_b, bid) {
                if let Some(j) = last_position(elig_b, bid) {
                    if best_of_b[j] == Some(aid) {
                        proof {
                            lemma_last_index_hit(elig_b@, bid);
                        }
                        assert(fn_by_id(fb, elig_b@[j as int]) is Some);
                        record_pair(diff, a, b, aid, bid, MatchInfo { method, confidence: conf[i] });
                        paired_a.push(aid);
                        paired_b.push(bid);
                    }
                }
            }
        }
        i += 1;
    }
    let na = without_ids(left_a, &paired_a);
    let nb = without_ids(left_b, &paired_b);
    *left_a = na;
    *left_b = nb;
    proof {
        assert forall|i: int| 0 <= i < left_a@.len() implies fn_by_id(fa, #[trigger] left_a@[i]) is Some by {
            assert(left_a@.contains(left_a@[i]));
            let t = choose|t: int| 0 <= t < la.len() && la[t] == left_a@[i];
        }
        assert forall|i: int| 0 <= i < left_b@.len() implies fn_by_id(fb, #[trigger] left_b@[i]) is Some by {
            assert(left_b@.contains(left_b@[i]));
            let t = choose|t: int| 0 <= t < lb.len() && lb[t] == left_b@[i];
        }
    }
}

} // verus!

verus! {

/// What one propagation pairing rests on: both neighbourhoods agree, are non-empty, and occur
/// exactly once among the leftovers on each side.
pub open spec fn unique_neighbours(
    a: Seq<Function>,
    b: Seq<Function>,
    pairs: Seq<(StableId, StableId)>,
    left_a: Seq<StableId>,
    left_b: Seq<StableId>,
    id: StableId,
    ub: StableId,
) -> bool {
    let k = nbhd_a(a, pairs, id);
    &&& !(k.0.len() == 0 && k.1.len() == 0)
    &&& count_in(nbhds_a(a, pairs, left_a), k) == 1
    &&& count_in(nbhds_b(b, pairs, left_b), k) == 1
    &&& nbhd_b(b, pairs, ub) == k
    &&& left_b.contains(ub)
}

proof fn lemma_round_pairs_unique(
    a: Seq<Function>,
    b: Seq<Function>,
    pairs: Seq<(StableId, StableId)>,
    left_a: Seq<StableId>,
    left_b: Seq<StableId>,
    st: RoundState,
    ids: Seq<StableId>,
)
    requires
        st.paired_a.len() == 0,
        st.paired_b.len() == 0,
    ensures
        diff_round(a, b, pairs, left_a, left_b, st, ids).paired_a.len() == diff_round(
            a,
            b,
            pairs,
            left_a,
            left_b,
            st,
            ids,
        ).paired_b.len(),
        diff_round(a, b, pairs, left_a, left_b, st, ids).paired_b.no_duplicates(),
        forall|k: int|
            0 <= k < diff_round(a, b, pairs, left_a, left_b, st, ids).paired_a.len() ==> unique_neighbours(
                a,
                b,
                pairs,
                left_a,
                left_b,
                #[trigger] diff_round(a, b, pairs, left_a, left_b, st, ids).paired_a[k],
                diff_round(a, b, pairs, left_a, left_b, st, ids).paired_b[k],
            ),
    decreases ids.len(),
{
    if ids.len() > 0 {
        lemma_round_pairs_unique(a, b, pairs, left_a, left_b, st, ids.drop_last());
        let k = nbhd_a(a, pairs, ids.last());
        let kb = nbhds_b(b, pairs, left_b);
        if count_in(kb, k) == 1 {
            lemma_last_index(kb, k);
        }
    }
}

/// A propagation round never guesses: every pair it records joins two leftovers whose
/// non-empty anchored neighbourhoods agree and are each unique among the leftovers on their
/// side, and no `b`-side leftover is paired twice.
pub proof fn law_propagation_pairs_only_unique_neighbourhoods(
    a: Seq<Function>,
    b: Seq<Function>,
    d: ProgramDiff,
    left_a: Seq<StableId>,
    left_b: Seq<StableId>,
)
    ensures
        round_of(a, b, d, left_a, left_b).paired_a.len() == round_of(a, b, d, left_a, left_b).paired_b.len(),
        round_of(a, b, d, left_a, left_b).paired_b.no_duplicates(),
        forall|k: int|
            0 <= k < round_of(a, b, d, left_a, left_b).paired_a.len() ==> unique_neighbours(
                a,
                b,
                diff_pairs(d),
                left_a,
                left_b,
                #[trigger] round_of(a, b, d, left_a, left_b).paired_a[k],
                round_of(a, b, d, left_a, left_b).paired_b[k],
            ),
{
    lemma_round_pairs_unique(
        a,
        b,
        diff_pairs(d),
        left_a,
        left_b,
        RoundState {
            matched: d.matched@,
            changed: d.changed@,
            provenance: d.provenance@,
            paired_a: Seq::empty(),
            paired_b: Seq::empty(),
        },
        left_a,
    );
}

/// What one scored pairing rests on: each side is the other's unique best.
pub open spec fn reciprocal(
    elig_a: Seq<StableId>,
    best_of_a: Seq<Option<StableId>>,
    elig_b: Seq<StableId>,
    best_of_b: Seq<Option<StableId>>,
    aid: StableId,
    bid: StableId,
) -> bool {
    &&& exists|i: int| 0 <= i < elig_a.len() && elig_a[i] == aid && best_of_a[i] == Some(bid)
    &&& exists|j: int| 0 <= j < elig_b.len() && elig_b[j] == bid && best_of_b[j] == Some(aid)
}

proof fn lemma_feature_pairs_reciprocal(
    a: Seq<Function>,
    b: Seq<Function>,
    elig_a: Seq<StableId>,
    best_of_a: Seq<Option<StableId>>,
    conf: Seq<u8>,
    elig_b: Seq<StableId>,
    best_of_b: Seq<Option<StableId>>,
    method: MatchMethod,
    st: RoundState,
    n: nat,
)
    requires
        st.paired_a.len() == 0,
        st.paired_b.len() == 0,
        n <= elig_a.len(),
        best_of_a.len() == elig_a.len(),
        best_of_b.len() == elig_b.len(),
    ensures
        feature_pairs(a, b, elig_a, best_of_a, conf, elig_b, best_of_b, method, st, n).paired_a.len()
            == feature_pairs(a, b, elig_a, best_of_a, conf, elig_b, best_of_b, method, st, n).paired_b.len(),
        feature_pairs(a, b, elig_a, best_of_a, conf, elig_b, best_of_b, method, st, n).paired_b.no_duplicates(),
        forall|k: int|
            0 <= k < feature_pairs(a, b, elig_a, best_of_a, conf, elig_b, best_of_b, method, st, n).paired_a.len()
                ==> reciprocal(
                elig_a,
                best_of_a,
                elig_b,
                best_of_b,
                #[trigger] feature_pairs(a, b, elig_a, best_of_a, conf, elig_b, best_of_b, method, st, n).paired_a[k],
                feature_pairs(a, b, elig_a, best_of_a, conf, elig_b, best_of_b, method, st, n).paired_b[k],
            ),
    decreases n,
{
    if n > 0 {
        lemma_feature_pairs_reciprocal(a, b, elig_a, best_of_a, conf, elig_b, best_of_b, method, st, (n - 1) as nat);
        let i = n - 1;
        if let Some(bid) = best_of_a[i as int] {
            lemma_last_index_hit(elig_b, bid);
        }
    }
}

/// A scored rung never guesses: every pair it records is reciprocal — each side the other's
/// unique best by the rung's score — and no `b`-side leftover is paired twice.
pub proof fn law_feature_pairs_are_reciprocal(
    a: Seq<Function>,
    b: Seq<Function>,
    d: ProgramDiff,
    elig_a: Seq<StableId>,
    best_of_a: Seq<Option<StableId>>,
    conf: Seq<u8>,
    elig_b: Seq<StableId>,
    best_of_b: Seq<Option<StableId>>,
    method: MatchMethod,
)
    requires
        best_of_a.len() == elig_a.len(),
        best_of_b.len() == elig_b.len(),
    ensures
        feature_round_of(a, b, d, elig_a, best_of_a, conf, elig_b, best_of_b, method).paired_a.len()
            == feature_round_of(a, b, d, elig_a, best_of_a, conf, elig_b, best_of_b, method).paired_b.len(),
        feature_round_of(a, b, d, elig_a, best_of_a, conf, elig_b, best_of_b, method).paired_b.no_duplicates(),
        forall|k: int|
            0 <= k < feature_round_of(a, b, d, elig_a, best_of_a, conf, elig_b, best_of_b, method).paired_a.len()
                ==> reciprocal(
                elig_a,
                best_of_a,
                elig_b,
                best_of_b,
                #[trigger] feature_round_of(a, b, d, elig_a, best_of_a, conf, elig_b, best_of_b, method).paired_a[k],
                feature_round_of(a, b, d, elig_a, best_of_a, conf, elig_b, best_of_b, method).paired_b[k],
            ),
{
    lemma_feature_pairs_reciprocal(
        a,
        b,
        elig_a,
        best_of_a,
        conf,
        elig_b,
        best_of_b,
        method,
        RoundState {
            matched: d.matched@,
            changed: d.changed@,
            provenance: d.provenance@,
            paired_a: Seq::empty(),
            paired_b: Seq::empty(),
        },
        elig_a.len(),
    );
}

} // verus!
