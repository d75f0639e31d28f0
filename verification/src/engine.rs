//! The engine port's core half: the mapping from streamed wire chunks to the native model, the
//! caps that bound an untrusted engine stream, and the lifecycle of a submitted analyze job.

use vstd::prelude::*;
use vstd::utf8::encode_utf8;

use crate::model::{
    fingerprint_of, histogram_fingerprint, is_histogram_of, mnemonic_histogram, mnemonic_trigrams,
    texts, trigram_keys, copy_strings, Function, IdMinter, Program, StableId,
};

verus! {

/// One BSim feature as streamed: a feature hash and the f32 weight's bit pattern.
#[derive(Clone, Copy, Debug, PartialEq, Eq, Structural)]
pub struct BsimFeature {
    pub hash: u32,
    pub weight: u32,
}

/// One function as the engine streams it. Callees are entry *addresses*; resolving them to stable
/// ids is the core's job.
#[derive(Clone, Debug, PartialEq, Eq, Default)]
pub struct FunctionChunk {
    pub entry: u64,
    pub name: String,
    pub size: u64,
    pub bb_count: u32,
    pub callees: Vec<u64>,
    pub mnemonics: Vec<String>,
    pub string_refs: Vec<String>,
    pub imports: Vec<String>,
    pub callee_names: Vec<String>,
    pub bsim_vector: Vec<BsimFeature>,
}

/// The `(hash, weight bits)` pairs of a streamed BSim vector.
pub open spec fn bsim_pairs(v: Seq<BsimFeature>) -> Seq<(u32, u32)> {
    v.map_values(|f: BsimFeature| (f.hash, f.weight))
}

/// `f` is what chunk `c` maps to under stable id `id`, with no callees resolved yet.
pub open spec fn is_function_of_chunk(f: Function, c: FunctionChunk, id: StableId) -> bool {
    &&& f.id == id
    &&& f.addr == c.entry
    &&& f.name == c.name
    &&& f.size == c.size
    &&& f.bb_count == c.bb_count
    &&& f.fingerprint == fingerprint_of(f.mnemonics.deep_view())
    &&& is_histogram_of(f.mnemonics.deep_view(), texts(c.mnemonics@))
    &&& is_histogram_of(f.trigrams.deep_view(), trigram_keys(texts(c.mnemonics@)))
    &&& f.string_refs@ == c.string_refs@
    &&& f.imports@ == c.imports@
    &&& f.callee_names@ == c.callee_names@
    &&& f.bsim_vector@ == bsim_pairs(c.bsim_vector@)
    &&& f.edge_provenance@.len() == 0
}

/// Map a streamed wire chunk to a model function (callees are left empty: resolving addresses to
/// stable ids happens in [`assemble`]).
pub fn chunk_to_function(chunk: &FunctionChunk, id: StableId) -> (f: Function)
    requires
        chunk.mnemonics@.len() <= u32::MAX,
    ensures
        is_function_of_chunk(f, *chunk, id),
        f.callees@.len() == 0,
{
    let histogram = mnemonic_histogram(chunk.mnemonics.as_slice());
    let fingerprint = histogram_fingerprint(histogram.as_slice());
    let trigrams = mnemonic_trigrams(chunk.mnemonics.as_slice());
    let mut bsim: Vec<(u32, u32)> = Vec::new();
    let mut i: usize = 0;
    while i < chunk.bsim_vector.len()
        invariant
            i <= chunk.bsim_vector@.len(),
            bsim@ == bsim_pairs(chunk.bsim_vector@).take(i as int),
        decreases chunk.bsim_vector@.len() - i,
    {
        let bf = chunk.bsim_vector[i];
        bsim.push((bf.hash, bf.weight));
        assert(bsim@ =~= bsim_pairs(chunk.bsim_vector@).take(i + 1));
        i += 1;
    }
    assert(bsim@ =~= bsim_pairs(chunk.bsim_vector@));
    Function {
        id,
        addr: chunk.entry,
        name: chunk.name.clone(),
        size: chunk.size,
        bb_count: chunk.bb_count,
        callees: Vec::new(),
        fingerprint,
        mnemonics: histogram,
        trigrams,
        string_refs: copy_strings(&chunk.string_refs),
        imports: copy_strings(&chunk.imports),
        callee_names: copy_strings(&chunk.callee_names),
        bsim_vector: bsim,
        edge_provenance: Vec::new(),
    }
}

/// How many chunks stream a function at entry address `a`.
pub open spec fn entry_count(chunks: Seq<FunctionChunk>, a: u64) -> nat
    decreases chunks.len(),
{
    if chunks.len() == 0 {
        0
    } else {
        entry_count(chunks.drop_last(), a) + if chunks.last().entry == a {
            1nat
        } else {
            0nat
        }
    }
}

/// The index of the last chunk at entry address `a` (`-1` when none is).
pub open spec fn last_entry_index(chunks: Seq<FunctionChunk>, a: u64) -> int
    decreases chunks.len(),
{
    if chunks.len() == 0 {
        -1
    } else if chunks.last().entry == a {
        chunks.len() - 1
    } else {
        last_entry_index(chunks.drop_last(), a)
    }
}

/// The stable id chunk `i` is minted: ids are handed out by index, from 1.
pub open spec fn minted_id(i: int) -> StableId {
    StableId((i + 1) as u64)
}

/// What a callee address resolves to: the id of the one chunk at that address, or nothing when
/// no chunk or more than one claims it (an ambiguous address never resolves to a wrong function).
pub open spec fn resolve(chunks: Seq<FunctionChunk>, a: u64) -> Option<StableId> {
    if entry_count(chunks, a) == 1 {
        Some(minted_id(last_entry_index(chunks, a)))
    } else {
        None
    }
}

/// The resolved callees of an address list, unresolvable addresses dropped.
pub open spec fn resolve_all(chunks: Seq<FunctionChunk>, addrs: Seq<u64>) -> Seq<StableId>
    decreases addrs.len(),
{
    if addrs.len() == 0 {
        Seq::empty()
    } else {
        let r = resolve_all(chunks, addrs.drop_last());
        match resolve(chunks, addrs.last()) {
            Some(id) => r.push(id),
            None => r,
        }
    }
}

/// The resolution of one address, at run time.
fn resolve_addr(chunks: &[FunctionChunk], a: u64) -> (r: Option<StableId>)
    requires
        chunks@.len() < u64::MAX,
    ensures
        r == resolve(chunks@, a),
{
    let mut count: usize = 0;
    let mut last: usize = 0;
    let mut i: usize = 0;
    while i < chunks.len()
        invariant
            i <= chunks@.len(),
            chunks@.len() < u64::MAX,
            count == entry_count(chunks@.take(i as int), a),
            count <= i,
            count > 0 ==> last as int == last_entry_index(chunks@.take(i as int), a),
            count > 0 ==> last < i,
            count == 0 ==> last_entry_index(chunks@.take(i as int), a) == -1,
        decreases chunks@.len() - i,
    {
        assert(chunks@.take(i + 1).drop_last() =~= chunks@.take(i as int));
        if chunks[i].entry == a {
            count += 1;
            last = i;
        }
        i += 1;
    }
    assert(chunks@.take(chunks@.len() as int) =~= chunks@);
    if count == 1 {
        Some(StableId((last + 1) as u64))
    } else {
        None
    }
}

/// Assemble streamed chunks into a native model `Program`: chunk `i` is minted stable id `i + 1`
/// (so two chunks sharing an entry address still get distinct ids), and each callee address is
/// resolved to the id of the one chunk at that address — dangling or ambiguous addresses are
/// dropped. `name`/`language` come from the stream's header.
pub fn assemble(name: &str, language: &str, chunks: &[FunctionChunk]) -> (p: Program)
    requires
        chunks@.len() < u64::MAX,
        forall|i: int| 0 <= i < chunks@.len() ==> (#[trigger] chunks@[i]).mnemonics@.len() <= u32::MAX,
    ensures
        p.name@ == name@,
        p.language@ == language@,
        p.facts@.len() == 0,
        p.functions@.len() == chunks@.len(),
        forall|i: int|
            0 <= i < chunks@.len() ==> is_function_of_chunk(
                #[trigger] p.functions@[i],
                chunks@[i],
                minted_id(i),
            ) && p.functions@[i].callees@ == resolve_all(chunks@, chunks@[i].callees@),
{
    let mut minter = IdMinter::new();
    let mut functions: Vec<Function> = Vec::new();
    let mut i: usize = 0;
    while i < chunks.len()
        invariant
            i <= chunks@.len(),
            chunks@.len() < u64::MAX,
            minter@ == i + 1,
            forall|k: int| 0 <= k < chunks@.len() ==> (#[trigger] chunks@[k]).mnemonics@.len() <= u32::MAX,
            functions@.len() == i,
            forall|k: int|
                0 <= k < i ==> is_function_of_chunk(
                    #[trigger] functions@[k],
                    chunks@[k],
                    minted_id(k),
                ) && functions@[k].callees@ == resolve_all(chunks@, chunks@[k].callees@),
        decreases chunks@.len() - i,
    {
        let id = minter.mint();
        let c = &chunks[i];
        let mut f = chunk_to_function(c, id);
        let mut callees: Vec<StableId> = Vec::new();
        let mut j: usize = 0;
        while j < c.callees.len()
            invariant
                j <= c.callees@.len(),
                chunks@.len() < u64::MAX,
                callees@ == resolve_all(chunks@, c.callees@.take(j as int)),
            decreases c.callees@.len() - j,
        {
            assert(c.callees@.take(j + 1).drop_last() =~= c.callees@.take(j as int));
            if let Some(t) = resolve_addr(chunks, c.callees[j]) {
                callees.push(t);
            }
            j += 1;
        }
        assert(c.callees@.take(c.callees@.len() as int) =~= c.callees@);
        f.callees = callees;
        functions.push(f);
        i += 1;
    }
    Program {
        name: name.to_owned(),
        language: language.to_owned(),
        functions,
        facts: Vec::new(),
    }
}

/// The cap on functions an engine stream may carry.
pub const MAX_FUNCTIONS: usize = 1_000_000;

/// The cap on cumulative instructions (mnemonics) across a stream.
pub const MAX_TOTAL_MNEMONICS: usize = 100_000_000;

/// The cap on cumulative retained bytes across a stream (512 MiB).
pub const MAX_TOTAL_BYTES: usize = 536_870_912;

/// Refuse an over-large engine stream: `Err(reason)` when a cap is exceeded, checked in the order
/// functions, instructions, bytes; `Ok` at or under every cap.
pub fn check_stream_caps(n_functions: usize, total_mnemonics: usize, total_bytes: usize) -> (r:
    Result<(), String>)
    ensures
        r is Ok <==> (n_functions <= MAX_FUNCTIONS && total_mnemonics <= MAX_TOTAL_MNEMONICS
            && total_bytes <= MAX_TOTAL_BYTES),
        n_functions > MAX_FUNCTIONS ==> (r matches Err(m) && m@
            == "engine stream exceeded 1000000 functions — refusing (untrusted engine output)"@),
        n_functions <= MAX_FUNCTIONS && total_mnemonics > MAX_TOTAL_MNEMONICS ==> (r matches Err(
            m,
        ) && m@
            == "engine stream exceeded 100000000 instructions — refusing (untrusted engine output)"@),
        n_functions <= MAX_FUNCTIONS && total_mnemonics <= MAX_TOTAL_MNEMONICS && total_bytes
            > MAX_TOTAL_BYTES ==> (r matches Err(m) && m@
            == "engine stream exceeded 536870912 bytes — refusing (untrusted engine output)"@),
{
    if n_functions > MAX_FUNCTIONS {
        return Err(
            String::from_str(
                "engine stream exceeded 1000000 functions — refusing (untrusted engine output)",
            ),
        );
    }
    if total_mnemonics > MAX_TOTAL_MNEMONICS {
        return Err(
            String::from_str(
                "engine stream exceeded 100000000 instructions — refusing (untrusted engine output)",
            ),
        );
    }
    if total_bytes > MAX_TOTAL_BYTES {
        return Err(
            String::from_str(
                "engine stream exceeded 536870912 bytes — refusing (untrusted engine output)",
            ),
        );
    }
    Ok(())
}

/// The retained byte size of a chunk: its texts' UTF-8 lengths plus 8 bytes per BSim feature and
/// per callee.
pub open spec fn chunk_size(c: FunctionChunk) -> nat {
    encode_utf8(c.name@).len() + bytes_of(c.mnemonics@) + bytes_of(c.string_refs@)
        + bytes_of(c.imports@) + bytes_of(c.callee_names@) + c.bsim_vector@.len() * 8
        + c.callees@.len() * 8
}

/// Total UTF-8 byte length of a list of strings.
pub open spec fn bytes_of(v: Seq<String>) -> nat
    decreases v.len(),
{
    if v.len() == 0 {
        0
    } else {
        bytes_of(v.drop_last()) + encode_utf8(v.last()@).len()
    }
}

fn sum_bytes(v: &Vec<String>, acc: u64) -> (r: Option<u64>)
    ensures
        match r {
            Some(n) => n == acc + bytes_of(v@),
            None => acc + bytes_of(v@) > u64::MAX,
        },
{
    let mut total: u64 = acc;
    let mut i: usize = 0;
    while i < v.len()
        invariant
            i <= v@.len(),
            total == acc + bytes_of(v@.take(i as int)),
        decreases v@.len() - i,
    {
        assert(v@.take(i + 1).drop_last() =~= v@.take(i as int));
        let sl = v[i].as_str();
        let n = sl.as_bytes().len() as u64;
        assert(v@.take(i + 1).last() == v@[i as int]);
        assert(n == encode_utf8(v@[i as int]@).len());
        if total > u64::MAX - n {
            proof {
                lemma_bytes_of_prefix(v@, i as int + 1);
            }
            return None;
        }
        total = total + n;
        i += 1;
    }
    assert(v@.take(v@.len() as int) =~= v@);
    Some(total)
}

proof fn lemma_bytes_of_prefix(v: Seq<String>, k: int)
    requires
        0 <= k <= v.len(),
    ensures
        bytes_of(v.take(k)) <= bytes_of(v),
    decreases v.len() - k,
{
    if k < v.len() {
        lemma_bytes_of_prefix(v, k + 1);
        assert(v.take(k + 1).drop_last() =~= v.take(k));
    } else {
        assert(v.take(k) =~= v);
    }
}

/// The retained byte size of a chunk, or `None` when it does not fit in 64 bits.
pub fn chunk_bytes(c: &FunctionChunk) -> (r: Option<u64>)
    ensures
        match r {
            Some(n) => n == chunk_size(*c),
            None => chunk_size(*c) > u64::MAX,
        },
{
    let base = c.name.as_str().as_bytes().len() as u64;
    let a = match sum_bytes(&c.mnemonics, base) { Some(n) => n, None => return None };
    let b = match sum_bytes(&c.string_refs, a) { Some(n) => n, None => return None };
    let d = match sum_bytes(&c.imports, b) { Some(n) => n, None => return None };
    let e = match sum_bytes(&c.callee_names, d) { Some(n) => n, None => return None };
    let nb = c.bsim_vector.len() as u64;
    let nc = c.callees.len() as u64;
    if nb > (u64::MAX - e) / 8 {
        assert(nb * 8 > u64::MAX - e) by (nonlinear_arith)
            requires
                nb > (u64::MAX - e) / 8,
        ;
        return None;
    }
    assert(nb * 8 <= u64::MAX - e) by (nonlinear_arith)
        requires
            nb <= (u64::MAX - e) / 8,
    ;
    let f = e + nb * 8;
    if nc > (u64::MAX - f) / 8 {
        assert(nc * 8 > u64::MAX - f) by (nonlinear_arith)
            requires
                nc > (u64::MAX - f) / 8,
        ;
        return None;
    }
    assert(nc * 8 <= u64::MAX - f) by (nonlinear_arith)
        requires
            nc <= (u64::MAX - f) / 8,
    ;
    Some(f + nc * 8)
}

/// An analyze-job identifier (process-local, monotonic).
#[derive(Clone, Copy, Debug, PartialEq, Eq, Hash, Structural)]
pub struct JobId(pub u64);

/// Lifecycle state of a submitted analyze job.
#[derive(Clone, Copy, Debug, PartialEq, Eq, Structural)]
pub enum JobStatus {
    /// Still analyzing.
    Running,
    /// Finished; a `Program` is ready to take.
    Succeeded,
    /// Finished with an error (take the result for the message).
    Failed,
}

/// The slot a job's outcome is written into. `ok` is retained so the status stays truthful after
/// the one-shot result has been taken.
pub enum JobSlot {
    Running,
    Done { ok: bool, result: Option<Result<Program, String>> },
}

impl JobSlot {
    /// A slot for a job still running.
    pub fn new() -> (s: Self)
        ensures
            s is Running,
    {
        JobSlot::Running
    }

    /// Record a finished job's outcome.
    pub fn finish(&mut self, outcome: Result<Program, String>)
        ensures
            *final(self) == (JobSlot::Done { ok: outcome is Ok, result: Some(outcome) }),
    {
        let ok = outcome.is_ok();
        *self = JobSlot::Done { ok, result: Some(outcome) };
    }

    /// The lifecycle state, without consuming anything.
    pub fn status(&self) -> (st: JobStatus)
        ensures
            st == slot_status(*self),
    {
        match self {
            JobSlot::Running => JobStatus::Running,
            JobSlot::Done { ok, .. } => if *ok {
                JobStatus::Succeeded
            } else {
                JobStatus::Failed
            },
        }
    }

    /// Take the finished result: `None` while running or once it has been taken; the status is
    /// unchanged either way.
    pub fn take(&mut self) -> (r: Option<Result<Program, String>>)
        ensures
            r == taken(*old(self)),
            *final(self) == after_take(*old(self)),
    {
        match self {
            JobSlot::Running => None,
            JobSlot::Done { result, .. } => result.take(),
        }
    }
}

/// The status a slot reports.
pub open spec fn slot_status(s: JobSlot) -> JobStatus {
    match s {
        JobSlot::Running => JobStatus::Running,
        JobSlot::Done { ok, .. } => if ok {
            JobStatus::Succeeded
        } else {
            JobStatus::Failed
        },
    }
}

/// What a take yields from a slot.
pub open spec fn taken(s: JobSlot) -> Option<Result<Program, String>> {
    match s {
        JobSlot::Running => None,
        JobSlot::Done { result, .. } => result,
    }
}

/// The slot after a take.
pub open spec fn after_take(s: JobSlot) -> JobSlot {
    match s {
        JobSlot::Running => JobSlot::Running,
        JobSlot::Done { ok, .. } => JobSlot::Done { ok, result: None },
    }
}

/// A finished job's result is taken exactly once: the first take after `finish` yields the
/// outcome, a second yields nothing, and the status reads the same throughout.
pub proof fn law_take_once(outcome: Result<Program, String>)
    ensures
        ({
            let s = JobSlot::Done { ok: outcome is Ok, result: Some(outcome) };
            &&& taken(s) == Some(outcome)
            &&& taken(after_take(s)) is None
            &&& slot_status(after_take(s)) == slot_status(s)
            &&& slot_status(s) == (if outcome is Ok {
                JobStatus::Succeeded
            } else {
                JobStatus::Failed
            })
        }),
{
}

} // verus!
