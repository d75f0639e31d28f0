//! Materialization from an engine snapshot: the functions an out-of-process analysis reported,
//! turned into the native model — a stable id minted per function by position (never by
//! address), call edges resolved onto those ids through the functions' entry addresses, and an
//! ambiguous or unparseable address resolving to nothing rather than to the wrong function.

use vstd::prelude::*;

use crate::abtest::{parse_hex, parse_hex_u64};
use crate::decomp::{skip_chars, strip_0x_either, trim_chars, trimmed};
use crate::engine::{bsim_pairs, chunk_to_function, minted_id, BsimFeature, FunctionChunk};
use crate::model::{
    copy_strings, fingerprint_of, is_histogram_of, texts, trigram_keys, Function, IdMinter, Program,
    StableId,
};
use crate::text::{chars_of, copy_string, string_from_chars};

verus! {

/// One function of a snapshot, as the engine reported it.
#[derive(Clone, Debug, PartialEq, Eq, Default)]
pub struct SnapFunc {
    /// Entry address in hexadecimal (`0x401156`, `0X401156` or bare).
    pub entry: String,
    pub name: String,
    pub size: u64,
    pub bb_count: u32,
    /// Callee entry addresses, in hexadecimal.
    pub callees: Vec<String>,
    /// The instruction mnemonics, in order.
    pub mnemonics: Vec<String>,
    pub string_refs: Vec<String>,
    pub imports: Vec<String>,
    pub callee_names: Vec<String>,
    /// BSim feature vector: `(feature_hash, f32 weight bits)` pairs.
    pub bsim_vector: Vec<(u32, u32)>,
}

/// A whole snapshot: the program's identity and its functions.
#[derive(Clone, Debug, PartialEq, Eq, Default)]
pub struct Snapshot {
    pub program: String,
    pub language: String,
    pub functions: Vec<SnapFunc>,
}

/// The address hexadecimal text names: trimmed, `0x` or `0X` optional; `None` when it does not
/// parse (never a collapsed `0`).
pub open spec fn addr_of(s: Seq<char>) -> Option<u64> {
    parse_hex(strip_0x_either(trimmed(s)))
}

/// Parse a hexadecimal entry or callee address.
pub fn parse_addr(s: &str) -> (r: Option<u64>)
    ensures
        r == addr_of(s@),
{
    let cs = chars_of(s);
    let t = trim_chars(&cs);
    let digits = if t.len() >= 2 && t[0] == '0' && (t[1] == 'x' || t[1] == 'X') {
        skip_chars(&t, 2)
    } else {
        t
    };
    let text = string_from_chars(&digits);
    match parse_hex_u64(text.as_str()) {
        Ok(v) => Some(v),
        Err(_) => None,
    }
}

/// How many functions of `fs` claim entry address `a`.
pub open spec fn claims(fs: Seq<SnapFunc>, a: u64) -> nat
    decreases fs.len(),
{
    if fs.len() == 0 {
        0
    } else {
        claims(fs.drop_last(), a) + if addr_of(fs.last().entry@) == Some(a) {
            1nat
        } else {
            0nat
        }
    }
}

/// The position of the last function of `fs` claiming `a`, or `-1`.
pub open spec fn last_claim(fs: Seq<SnapFunc>, a: u64) -> int
    decreases fs.len(),
{
    if fs.len() == 0 {
        -1
    } else if addr_of(fs.last().entry@) == Some(a) {
        fs.len() - 1
    } else {
        last_claim(fs.drop_last(), a)
    }
}

/// The id a callee address resolves to: that of the one function claiming it.
pub open spec fn resolve_text(fs: Seq<SnapFunc>, c: Seq<char>) -> Option<StableId> {
    match addr_of(c) {
        Some(a) => if claims(fs, a) == 1 {
            Some(minted_id(last_claim(fs, a)))
        } else {
            None
        },
        None => None,
    }
}

/// The ids a list of callee addresses resolves to, in order, the unresolved dropped.
pub open spec fn resolve_texts(fs: Seq<SnapFunc>, cs: Seq<String>) -> Seq<StableId>
    decreases cs.len(),
{
    if cs.len() == 0 {
        Seq::empty()
    } else {
        let r = resolve_texts(fs, cs.drop_last());
        match resolve_text(fs, cs.last()@) {
            Some(id) => r.push(id),
            None => r,
        }
    }
}

/// `f` is the native function of snapshot function `sf`, minted `id`.
pub open spec fn is_function_of_snap(f: Function, sf: SnapFunc, id: StableId) -> bool {
    &&& f.id == id
    &&& f.addr == match addr_of(sf.entry@) {
        Some(a) => a,
        None => 0,
    }
    &&& f.name == sf.name
    &&& f.size == sf.size
    &&& f.bb_count == sf.bb_count
    &&& f.fingerprint == fingerprint_of(f.mnemonics.deep_view())
    &&& is_histogram_of(f.mnemonics.deep_view(), texts(sf.mnemonics@))
    &&& is_histogram_of(f.trigrams.deep_view(), trigram_keys(texts(sf.mnemonics@)))
    &&& f.string_refs@ == sf.string_refs@
    &&& f.imports@ == sf.imports@
    &&& f.callee_names@ == sf.callee_names@
    &&& f.bsim_vector@ == sf.bsim_vector@
    &&& f.edge_provenance@.len() == 0
}

fn resolve_callee(fs: &Vec<SnapFunc>, entries: &Vec<Option<u64>>, c: &str) -> (r: Option<StableId>)
    requires
        fs@.len() < u64::MAX,
        entries@.len() == fs@.len(),
        forall|k: int| 0 <= k < fs@.len() ==> #[trigger] entries@[k] == addr_of(fs@[k].entry@),
    ensures
        r == resolve_text(fs@, c@),
{
    let a = match parse_addr(c) {
        Some(a) => a,
        None => return None,
    };
    let mut count: usize = 0;
    let mut last: usize = 0;
    let mut i: usize = 0;
    while i < entries.len()
        invariant
            i <= fs@.len(),
            fs@.len() < u64::MAX,
            entries@.len() == fs@.len(),
            forall|k: int| 0 <= k < fs@.len() ==> #[trigger] entries@[k] == addr_of(fs@[k].entry@),
            count == claims(fs@.take(i as int), a),
            count <= i,
            count > 0 ==> last as int == last_claim(fs@.take(i as int), a) && last < i,
            count == 0 ==> last_claim(fs@.take(i as int), a) == -1,
        decreases fs@.len() - i,
    {
        assert(fs@.take(i + 1).drop_last() =~= fs@.take(i as int));
        assert(entries@[i as int] == addr_of(fs@[i as int].entry@));
        if entries[i] == Some(a) {
            count += 1;
            last = i;
        }
        i += 1;
    }
    assert(fs@.take(fs@.len() as int) =~= fs@);
    if count == 1 {
        Some(StableId((last + 1) as u64))
    } else {
        None
    }
}

fn chunk_of(sf: &SnapFunc, entry: u64) -> (c: FunctionChunk)
    ensures
        c.entry == entry,
        c.name == sf.name,
        c.size == sf.size,
        c.bb_count == sf.bb_count,
        c.mnemonics@ == sf.mnemonics@,
        c.string_refs@ == sf.string_refs@,
        c.imports@ == sf.imports@,
        c.callee_names@ == sf.callee_names@,
        bsim_pairs(c.bsim_vector@) == sf.bsim_vector@,
{
    let mut bsim: Vec<BsimFeature> = Vec::new();
    let mut i: usize = 0;
    while i < sf.bsim_vector.len()
        invariant
            i <= sf.bsim_vector@.len(),
            bsim_pairs(bsim@) == sf.bsim_vector@.take(i as int),
        decreases sf.bsim_vector@.len() - i,
    {
        let pair = sf.bsim_vector[i];
        let ghost before = bsim@;
        bsim.push(BsimFeature { hash: pair.0, weight: pair.1 });
        assert(bsim@ == before.push(BsimFeature { hash: pair.0, weight: pair.1 }));
        assert(bsim_pairs(bsim@) =~= bsim_pairs(before).push(pair));
        assert(sf.bsim_vector@.take(i + 1) =~= sf.bsim_vector@.take(i as int).push(pair));
        i += 1;
    }
    assert(sf.bsim_vector@.take(sf.bsim_vector@.len() as int) =~= sf.bsim_vector@);
    FunctionChunk {
        entry,
        name: sf.name.clone(),
        size: sf.size,
        bb_count: sf.bb_count,
        callees: Vec::new(),
        mnemonics: copy_strings(&sf.mnemonics),
        string_refs: copy_strings(&sf.string_refs),
        imports: copy_strings(&sf.imports),
        callee_names: copy_strings(&sf.callee_names),
        bsim_vector: bsim,
    }
}

/// Build the native model from a snapshot: function `i` is minted stable id `i + 1` (so two
/// functions sharing an entry address still get distinct ids), its address is its entry's value
/// (`0` when the entry does not parse), and each callee address resolves to the one function
/// whose entry it is — an unparseable, dangling or ambiguous address resolves to nothing.
pub fn snapshot_program(snap: &Snapshot) -> (p: Program)
    requires
        snap.functions@.len() < u64::MAX,
        forall|i: int| 0 <= i < snap.functions@.len() ==> (#[trigger] snap.functions@[i]).mnemonics@.len() <= u32::MAX,
    ensures
        p.name@ == snap.program@,
        p.language@ == snap.language@,
        p.facts@.len() == 0,
        p.functions@.len() == snap.functions@.len(),
        forall|i: int|
            0 <= i < snap.functions@.len() ==> is_function_of_snap(
                #[trigger] p.functions@[i],
                snap.functions@[i],
                minted_id(i),
            ) && p.functions@[i].callees@ == resolve_texts(snap.functions@, snap.functions@[i].callees@),
        forall|i: int, j: int|
            0 <= i < j < p.functions@.len() ==> (#[trigger] p.functions@[i]).id != (#[trigger] p.functions@[j]).id,
{
    let fs = &snap.functions;
    let mut entries: Vec<Option<u64>> = Vec::new();
    let mut e: usize = 0;
    while e < fs.len()
        invariant
            e <= fs@.len(),
            entries@.len() == e,
            forall|k: int| 0 <= k < e ==> #[trigger] entries@[k] == addr_of(fs@[k].entry@),
        decreases fs@.len() - e,
    {
        entries.push(parse_addr(fs[e].entry.as_str()));
        e += 1;
    }
    let mut minter = IdMinter::new();
    let mut functions: Vec<Function> = Vec::new();
    let mut i: usize = 0;
    while i < fs.len()
        invariant
            i <= fs@.len(),
            fs == &snap.functions,
            fs@.len() < u64::MAX,
            minter@ == i + 1,
            entries@.len() == fs@.len(),
            forall|k: int| 0 <= k < fs@.len() ==> #[trigger] entries@[k] == addr_of(fs@[k].entry@),
            forall|k: int| 0 <= k < fs@.len() ==> (#[trigger] fs@[k]).mnemonics@.len() <= u32::MAX,
            functions@.len() == i,
            forall|k: int|
                0 <= k < i ==> is_function_of_snap(#[trigger] functions@[k], fs@[k], minted_id(k))
                    && functions@[k].callees@ == resolve_texts(fs@, fs@[k].callees@),
        decreases fs@.len() - i,
    {
        let id = minter.mint();
        let sf = &fs[i];
        let entry: u64 = match entries[i] {
            Some(a) => a,
            None => 0,
        };
        let c = chunk_of(sf, entry);
        let mut f = chunk_to_function(&c, id);
        let mut callees: Vec<StableId> = Vec::new();
        let mut j: usize = 0;
        while j < sf.callees.len()
            invariant
                j <= sf.callees@.len(),
                fs@.len() < u64::MAX,
                entries@.len() == fs@.len(),
                forall|k: int| 0 <= k < fs@.len() ==> #[trigger] entries@[k] == addr_of(fs@[k].entry@),
                callees@ == resolve_texts(fs@, sf.callees@.take(j as int)),
            decreases sf.callees@.len() - j,
        {
            assert(sf.callees@.take(j + 1).drop_last() =~= sf.callees@.take(j as int));
            if let Some(t) = resolve_callee(fs, &entries, sf.callees[j].as_str()) {
                callees.push(t);
            }
            j += 1;
        }
        assert(sf.callees@.take(sf.callees@.len() as int) =~= sf.callees@);
        f.callees = callees;
        assert(entries@[i as int] == addr_of(fs@[i as int].entry@));
        functions.push(f);
        i += 1;
    }
    assert forall|a: int, b: int| 0 <= a < b < functions@.len() implies (#[trigger] functions@[a]).id
        != (#[trigger] functions@[b]).id by {
        assert(is_function_of_snap(functions@[a], fs@[a], minted_id(a)));
        assert(is_function_of_snap(functions@[b], fs@[b], minted_id(b)));
    }
    Program { name: copy_string(&snap.program), language: copy_string(&snap.language), functions, facts: Vec::new() }
}

} // verus!
