//! The domain model: functions, calls and durable user facts, with identity a synthetic stable id
//! minted at first sight — an entity's address is a mutable attribute, never its identity, so
//! facts survive when code moves.

use vstd::prelude::*;
use vstd::string::*;
use vstd::utf8::*;

use crate::text::{text_lt, compare_text, lemma_text_lt_asymmetric, lemma_text_lt_irreflexive, lemma_text_lt_transitive};

verus! {

/// A runtime address — a mutable *attribute* of an entity, not its identity.
pub type Addr = u64;

/// Synthetic stable identity. Minted once, never derived from an address, so a user's facts keep
/// pointing at the right entity after re-analysis shifts the code.
#[derive(Clone, Copy, PartialEq, Eq, Hash, Debug, PartialOrd, Ord, Structural)]
pub struct StableId(pub u64);

/// Mints monotonically increasing stable ids ("at first sight").
#[derive(Debug)]
pub struct IdMinter {
    next: u64,
}

impl View for IdMinter {
    type V = u64;

    /// The id the next `mint` hands out.
    closed spec fn view(&self) -> u64 {
        self.next
    }
}

impl Default for IdMinter {
    fn default() -> (r: Self)
        ensures
            r@ == 0,
    {
        IdMinter { next: 0 }
    }
}

impl IdMinter {
    pub fn new() -> (r: Self)
        ensures
            r@ == 1,
    {
        IdMinter { next: 1 }
    }

    /// Hand out the next id; ids are consecutive, so two mints never collide.
    pub fn mint(&mut self) -> (id: StableId)
        requires
            old(self)@ < u64::MAX,
        ensures
            id.0 == old(self)@,
            final(self)@ == old(self)@ + 1,
    {
        let id = StableId(self.next);
        self.next = self.next + 1;
        id
    }
}

/// Who/what produced a fact and how sure it is: `confidence` is a percentage in `0..=100`.
#[derive(Clone, Debug, PartialEq, Eq, Hash)]
pub struct Provenance {
    pub producer: String,
    pub confidence: u8,
}

impl Provenance {
    /// The default provenance: an analyst's own fact, certain.
    pub open spec fn is_user_default(self) -> bool {
        self.producer@ == "user"@ && self.confidence == 100
    }
}

impl Default for Provenance {
    fn default() -> (r: Self)
        ensures
            r.is_user_default(),
    {
        Provenance { producer: String::from_str("user"), confidence: 100 }
    }
}

/// Provenance of one call edge, keyed by the callee's stable id.
#[derive(Clone, Debug, PartialEq, Eq, Hash)]
pub struct EdgeProvenance {
    pub target: StableId,
    pub provenance: Provenance,
}

/// A function — a machine fact. `name` is the *engine's* symbol; an analyst's rename lives
/// separately as a [`UserFact`] so re-analysis can't clobber it.
#[derive(Clone, Debug, PartialEq, Eq)]
pub struct Function {
    pub id: StableId,
    pub addr: Addr,
    pub name: String,
    pub size: u64,
    pub bb_count: u32,
    pub callees: Vec<StableId>,
    /// FNV-1a hash of `mnemonics` ([`histogram_fingerprint`]); `0` = no mnemonic data.
    pub fingerprint: u64,
    /// The instruction multiset, sorted by mnemonic ([`mnemonic_histogram`]).
    pub mnemonics: Vec<(String, u32)>,
    /// The ordered length-3 instruction windows, as a sorted histogram ([`mnemonic_trigrams`]).
    pub trigrams: Vec<(String, u32)>,
    /// Referenced string literals (architecture-independent).
    pub string_refs: Vec<String>,
    /// Imported call targets by name (architecture-independent).
    pub imports: Vec<String>,
    /// Package-qualified names of called functions (architecture-independent).
    pub callee_names: Vec<String>,
    /// BSim feature vector as `(feature_hash, f32 weight bits)` pairs.
    pub bsim_vector: Vec<(u32, u32)>,
    /// Per-edge provenance, keyed by callee id; empty when the producer recorded none.
    pub edge_provenance: Vec<EdgeProvenance>,
}

/// The kinds of fact an analyst attaches to an entity.
#[derive(Clone, Debug, PartialEq, Eq)]
pub enum FactKind {
    Rename(String),
    Retype(String),
    Comment(String),
}

impl FactKind {
    /// Which of the three kinds this is (`0` rename, `1` retype, `2` comment).
    pub open spec fn tag(self) -> int {
        match self {
            FactKind::Rename(_) => 0,
            FactKind::Retype(_) => 1,
            FactKind::Comment(_) => 2,
        }
    }

    /// The fact's text.
    pub open spec fn text(self) -> Seq<char> {
        match self {
            FactKind::Rename(s) => s@,
            FactKind::Retype(s) => s@,
            FactKind::Comment(s) => s@,
        }
    }

    /// Kind and text together: what two facts must share to say the same thing.
    pub open spec fn same_as(self, other: FactKind) -> bool {
        self.tag() == other.tag() && self.text() == other.text()
    }

    /// The kind tag, at run time.
    pub fn kind_tag(&self) -> (t: u8)
        ensures
            t as int == self.tag(),
    {
        match self {
            FactKind::Rename(_) => 0,
            FactKind::Retype(_) => 1,
            FactKind::Comment(_) => 2,
        }
    }

    /// The fact's text, at run time.
    pub fn value(&self) -> (s: &String)
        ensures
            s@ == self.text(),
    {
        match self {
            FactKind::Rename(s) => s,
            FactKind::Retype(s) => s,
            FactKind::Comment(s) => s,
        }
    }

    /// An equal copy.
    pub fn duplicate(&self) -> (r: FactKind)
        ensures
            r == *self,
    {
        match self {
            FactKind::Rename(s) => FactKind::Rename(s.clone()),
            FactKind::Retype(s) => FactKind::Retype(s.clone()),
            FactKind::Comment(s) => FactKind::Comment(s.clone()),
        }
    }

    /// Whether two facts say the same thing (same kind, same text).
    pub fn same(&self, other: &FactKind) -> (r: bool)
        ensures
            r == self.same_as(*other),
    {
        self.kind_tag() == other.kind_tag() && self.value().eq(other.value())
    }
}

/// Who authored a fact — the identity seam. `None` in single-user / local use.
#[derive(Clone, Debug, PartialEq, Eq, Hash, PartialOrd, Ord)]
pub struct Principal(pub String);

/// A durable user fact: an *edge* onto a stable id. Survives re-analysis because it references
/// the stable id, not an address.
#[derive(Clone, Debug, PartialEq, Eq)]
pub struct UserFact {
    pub target: StableId,
    pub kind: FactKind,
    pub author: Option<Principal>,
    pub provenance: Provenance,
}

/// An equal copy of an optional principal.
pub fn copy_principal(p: &Option<Principal>) -> (r: Option<Principal>)
    ensures
        r == *p,
{
    match p {
        Some(Principal(s)) => Some(Principal(s.clone())),
        None => None,
    }
}

/// An equal copy of a provenance record.
pub fn copy_provenance(p: &Provenance) -> (r: Provenance)
    ensures
        r == *p,
{
    Provenance { producer: p.producer.clone(), confidence: p.confidence }
}

impl UserFact {
    /// A fact with no recorded author, at the default (user, certain) provenance.
    pub fn new(target: StableId, kind: FactKind) -> (r: Self)
        ensures
            r.target == target,
            r.kind == kind,
            r.author.is_none(),
            r.provenance.is_user_default(),
    {
        UserFact { target, kind, author: None, provenance: Provenance::default() }
    }

    /// Stamp the authoring principal.
    pub fn by_author(self, author: Principal) -> (r: Self)
        ensures
            r == (UserFact { author: Some(author), ..self }),
    {
        let mut f = self;
        f.author = Some(author);
        f
    }

    /// Stamp an explicit provenance.
    pub fn with_provenance(self, provenance: Provenance) -> (r: Self)
        ensures
            r == (UserFact { provenance, ..self }),
    {
        let mut f = self;
        f.provenance = provenance;
        f
    }

    /// This fact moved onto a new target, keeping kind, author and provenance.
    pub fn retarget(&self, target: StableId) -> (r: Self)
        ensures
            r == (UserFact { target, ..*self }),
    {
        UserFact {
            target,
            kind: self.kind.duplicate(),
            author: copy_principal(&self.author),
            provenance: copy_provenance(&self.provenance),
        }
    }

    /// An equal copy.
    pub fn duplicate(&self) -> (r: Self)
        ensures
            r == *self,
    {
        self.retarget(self.target)
    }
}

/// The analyzed program — the materialized model.
#[derive(Clone, Debug, PartialEq, Eq, Default)]
pub struct Program {
    pub name: String,
    pub language: String,
    pub functions: Vec<Function>,
    pub facts: Vec<UserFact>,
}

/// The first rename fact on `id`, if any.
pub open spec fn rename_of(facts: Seq<UserFact>, id: StableId) -> Option<String>
    decreases facts.len(),
{
    if facts.len() == 0 {
        None
    } else if facts[0].target == id && facts[0].kind is Rename {
        Some(facts[0].kind->Rename_0)
    } else {
        rename_of(facts.drop_first(), id)
    }
}

/// Index of the first function whose id is `id`, or `-1` when none is.
pub open spec fn index_of(fs: Seq<Function>, id: StableId) -> int
    decreases fs.len(),
{
    if fs.len() == 0 {
        -1
    } else if fs[0].id == id {
        0
    } else {
        let r = index_of(fs.drop_first(), id);
        if r < 0 {
            -1
        } else {
            r + 1
        }
    }
}

pub proof fn lemma_index_of(fs: Seq<Function>, id: StableId)
    ensures
        -1 <= index_of(fs, id) < fs.len(),
        index_of(fs, id) >= 0 ==> fs[index_of(fs, id)].id == id,
        index_of(fs, id) >= 0 ==> forall|j: int| 0 <= j < index_of(fs, id) ==> fs[j].id != id,
        index_of(fs, id) < 0 ==> forall|j: int| 0 <= j < fs.len() ==> fs[j].id != id,
    decreases fs.len(),
{
    if fs.len() > 0 {
        lemma_index_of(fs.drop_first(), id);
        if fs[0].id != id {
            assert forall|j: int| 1 <= j < fs.len() implies fs[j] == fs.drop_first()[j - 1] by {}
        }
    }
}

/// `index_of` restated by its defining property.
pub proof fn lemma_index_of_is(fs: Seq<Function>, id: StableId, k: int)
    requires
        -1 <= k < fs.len(),
        k >= 0 ==> fs[k].id == id,
        forall|j: int| 0 <= j < fs.len() && (k < 0 || j < k) ==> fs[j].id != id,
    ensures
        index_of(fs, id) == k,
{
    lemma_index_of(fs, id);
    let r = index_of(fs, id);
    if r >= 0 && k >= 0 && r != k {
        assert(fs[r].id == id && fs[k].id == id);
    }
}

/// The display name of `id` in `p`: a user rename wins over the engine's symbol.
pub open spec fn display_name_of(p: Program, id: StableId) -> Option<String> {
    match rename_of(p.facts@, id) {
        Some(n) => Some(n),
        None => if index_of(p.functions@, id) >= 0 {
            Some(p.functions@[index_of(p.functions@, id)].name)
        } else {
            None
        },
    }
}

/// Find the first function with id `id` (its index), or `None`.
pub fn find_function(fs: &Vec<Function>, id: StableId) -> (r: Option<usize>)
    ensures
        match r {
            Some(i) => index_of(fs@, id) == i as int,
            None => index_of(fs@, id) == -1,
        },
{
    let mut i: usize = 0;
    while i < fs.len()
        invariant
            i <= fs.len(),
            forall|j: int| 0 <= j < i ==> fs@[j].id != id,
        decreases fs.len() - i,
    {
        if fs[i].id == id {
            proof {
                lemma_index_of_is(fs@, id, i as int);
            }
            return Some(i);
        }
        i += 1;
    }
    proof {
        lemma_index_of_is(fs@, id, -1);
    }
    None
}

impl Program {
    /// The effective display name of a function: a user rename wins over the engine's symbol.
    pub fn display_name(&self, id: StableId) -> (r: Option<String>)
        ensures
            r == display_name_of(*self, id),
    {
        let mut i: usize = 0;
        assert(self.facts@.skip(0) =~= self.facts@);
        while i < self.facts.len()
            invariant
                i <= self.facts.len(),
                rename_of(self.facts@, id) == rename_of(self.facts@.skip(i as int), id),
            decreases self.facts.len() - i,
        {
            assert(self.facts@.skip(i as int).drop_first() =~= self.facts@.skip(i + 1));
            assert(self.facts@.skip(i as int)[0] == self.facts@[i as int]);
            let f = &self.facts[i];
            if f.target == id {
                if let FactKind::Rename(n) = &f.kind {
                    return Some(n.clone());
                }
            }
            i += 1;
        }
        assert(self.facts@.skip(i as int).len() == 0);
        proof {
            lemma_index_of(self.functions@, id);
        }
        match find_function(&self.functions, id) {
            Some(k) => Some(self.functions[k].name.clone()),
            None => None,
        }
    }
}

// ---------------------------------------------------------------------------------------------
// Mnemonic histograms, trigrams and the FNV-1a fingerprint
// ---------------------------------------------------------------------------------------------

/// Text that a histogram can be built from (`String` and `&str`).
pub trait Mnemonic {
    spec fn text_view(&self) -> Seq<char>;

    fn text(&self) -> (r: &str)
        ensures
            r@ == self.text_view(),
    ;
}

impl Mnemonic for String {
    open spec fn text_view(&self) -> Seq<char> {
        self@
    }

    fn text(&self) -> (r: &str) {
        self.as_str()
    }
}

impl<'a> Mnemonic for &'a str {
    open spec fn text_view(&self) -> Seq<char> {
        (*self)@
    }

    fn text(&self) -> (r: &str) {
        *self
    }
}

/// The texts of a list of mnemonics.
pub open spec fn texts<S: Mnemonic>(s: Seq<S>) -> Seq<Seq<char>> {
    s.map_values(|m: S| m.text_view())
}

/// How many times `k` occurs in `s`.
pub open spec fn occurrences(s: Seq<Seq<char>>, k: Seq<char>) -> nat
    decreases s.len(),
{
    if s.len() == 0 {
        0
    } else {
        occurrences(s.drop_last(), k) + if s.last() == k {
            1nat
        } else {
            0nat
        }
    }
}

/// Keys strictly increasing in `str` order.
pub open spec fn keys_sorted(h: Seq<(Seq<char>, u32)>) -> bool {
    forall|i: int, j: int| 0 <= i < j < h.len() ==> text_lt(h[i].0, h[j].0)
}

/// `h` is the histogram of `s`: its keys are exactly the distinct elements of `s`, sorted in
/// `str` order, each paired with its number of occurrences.
pub open spec fn is_histogram_of(h: Seq<(Seq<char>, u32)>, s: Seq<Seq<char>>) -> bool {
    &&& keys_sorted(h)
    &&& forall|i: int| 0 <= i < h.len() ==> #[trigger] h[i].1 == occurrences(s, h[i].0)
    &&& forall|i: int| 0 <= i < h.len() ==> s.contains(#[trigger] h[i].0)
    &&& forall|x: Seq<char>| s.contains(x) ==> has_key(h, x)
}

pub proof fn lemma_occurrences_bound(s: Seq<Seq<char>>, k: Seq<char>)
    ensures
        occurrences(s, k) <= s.len(),
        occurrences(s, k) > 0 ==> s.contains(k),
        s.contains(k) ==> occurrences(s, k) > 0,
    decreases s.len(),
{
    if s.len() > 0 {
        lemma_occurrences_bound(s.drop_last(), k);
        if s.drop_last().contains(k) {
            let j = choose|j: int| 0 <= j < s.drop_last().len() && s.drop_last()[j] == k;
            assert(s[j] == k);
        }
        if s.contains(k) && s.last() != k {
            let j = choose|j: int| 0 <= j < s.len() && s[j] == k;
            assert(s.drop_last()[j] == k);
        }
    }
}

/// Some entry of `h` has key `k`.
pub open spec fn has_key(h: Seq<(Seq<char>, u32)>, k: Seq<char>) -> bool {
    exists|j: int| 0 <= j < h.len() && h[j].0 == k
}

/// Two sorted, duplicate-free key lists with the same key set are the same list of keys.
pub proof fn lemma_sorted_unique(a: Seq<(Seq<char>, u32)>, b: Seq<(Seq<char>, u32)>)
    requires
        keys_sorted(a),
        keys_sorted(b),
        forall|i: int| 0 <= i < a.len() ==> has_key(b, #[trigger] a[i].0),
        forall|j: int| 0 <= j < b.len() ==> has_key(a, #[trigger] b[j].0),
    ensures
        a.len() == b.len(),
        forall|i: int| 0 <= i < a.len() ==> a[i].0 == b[i].0,
    decreases a.len() + b.len(),
{
    if a.len() == 0 {
        if b.len() > 0 {
            assert(has_key(a, b[0].0));
        }
    } else if b.len() == 0 {
        assert(has_key(b, a[0].0));
    } else {
        assert(has_key(b, a[0].0));
        assert(has_key(a, b[0].0));
        let j0 = choose|j: int| 0 <= j < b.len() && b[j].0 == a[0].0;
        let i0 = choose|i: int| 0 <= i < a.len() && a[i].0 == b[0].0;
        if j0 > 0 {
            assert(text_lt(b[0].0, b[j0].0));
            if i0 > 0 {
                assert(text_lt(a[0].0, a[i0].0));
                lemma_text_lt_asymmetric(b[0].0, a[0].0);
            } else {
                lemma_text_lt_irreflexive(a[0].0);
            }
        }
        let a1 = a.drop_first();
        let b1 = b.drop_first();
        assert forall|i: int| 0 <= i < a1.len() implies has_key(b1, #[trigger] a1[i].0) by {
            assert(a1[i] == a[i + 1]);
            assert(has_key(b, a[i + 1].0));
            let j = choose|j: int| 0 <= j < b.len() && b[j].0 == a[i + 1].0;
            if j == 0 {
                assert(text_lt(a[0].0, a[i + 1].0));
                lemma_text_lt_irreflexive(a[0].0);
            }
            assert(b1[j - 1] == b[j]);
        }
        assert forall|j: int| 0 <= j < b1.len() implies has_key(a1, #[trigger] b1[j].0) by {
            assert(b1[j] == b[j + 1]);
            assert(has_key(a, b[j + 1].0));
            let i = choose|i: int| 0 <= i < a.len() && a[i].0 == b[j + 1].0;
            if i == 0 {
                assert(text_lt(b[0].0, b[j + 1].0));
                lemma_text_lt_irreflexive(b[0].0);
            }
            assert(a1[i - 1] == a[i]);
        }
        lemma_sorted_unique(a1, b1);
        assert forall|i: int| 0 <= i < a.len() implies a[i].0 == b[i].0 by {
            if i > 0 {
                assert(a1[i - 1] == a[i]);
                assert(b1[i - 1] == b[i]);
            }
        }
    }
}

/// The histogram of a list is determined by how often each text occurs — so two lists holding the
/// same texts the same number of times (say, one a reordering of the other) have one histogram.
pub proof fn lemma_histogram_determined(
    h1: Seq<(Seq<char>, u32)>,
    s1: Seq<Seq<char>>,
    h2: Seq<(Seq<char>, u32)>,
    s2: Seq<Seq<char>>,
)
    requires
        is_histogram_of(h1, s1),
        is_histogram_of(h2, s2),
        forall|k: Seq<char>| occurrences(s1, k) == occurrences(s2, k),
    ensures
        h1 == h2,
{
    assert forall|i: int| 0 <= i < h1.len() implies has_key(h2, #[trigger] h1[i].0) by {
        lemma_occurrences_bound(s1, h1[i].0);
        lemma_occurrences_bound(s2, h1[i].0);
    }
    assert forall|j: int| 0 <= j < h2.len() implies has_key(h1, #[trigger] h2[j].0) by {
        lemma_occurrences_bound(s1, h2[j].0);
        lemma_occurrences_bound(s2, h2[j].0);
    }
    lemma_sorted_unique(h1, h2);
    assert forall|i: int| 0 <= i < h1.len() implies h1[i] == h2[i] by {
        assert(h1[i].1 == occurrences(s1, h1[i].0));
        assert(h2[i].1 == occurrences(s2, h2[i].0));
    }
    assert(h1 =~= h2);
}

} // verus!

verus! {

proof fn lemma_occurrences_count(s: Seq<Seq<char>>, k: Seq<char>)
    ensures
        occurrences(s, k) == s.to_multiset().count(k),
    decreases s.len(),
{
    broadcast use vstd::seq_lib::group_to_multiset_ensures;
    broadcast use vstd::multiset::group_multiset_axioms;

    if s.len() == 0 {
        assert(s.to_multiset().len() == 0);
        assert(s.to_multiset() =~= vstd::multiset::Multiset::empty());
    } else {
        lemma_occurrences_count(s.drop_last(), k);
        assert(s =~= s.drop_last().push(s.last()));
    }
}

/// A function's histogram — hence its fingerprint — depends only on how often each mnemonic
/// occurs, never on their order: two lists holding the same mnemonics the same number of times
/// have one histogram and one fingerprint.
pub proof fn law_histogram_order_independent(
    s1: Seq<Seq<char>>,
    s2: Seq<Seq<char>>,
    h1: Seq<(Seq<char>, u32)>,
    h2: Seq<(Seq<char>, u32)>,
)
    requires
        s1.to_multiset() == s2.to_multiset(),
        is_histogram_of(h1, s1),
        is_histogram_of(h2, s2),
    ensures
        h1 == h2,
        fingerprint_of(h1) == fingerprint_of(h2),
{
    assert forall|k: Seq<char>| occurrences(s1, k) == occurrences(s2, k) by {
        lemma_occurrences_count(s1, k);
        lemma_occurrences_count(s2, k);
    }
    lemma_histogram_determined(h1, s1, h2, s2);
}

/// The fingerprint reserves zero for "no data": it is zero exactly for the empty histogram.
pub proof fn law_fingerprint_reserves_zero(h: Seq<(Seq<char>, u32)>)
    ensures
        (fingerprint_of(h) == 0) == (h.len() == 0),
{
}

} // verus!

verus! {

/// Key/count columns viewed as histogram entries.
pub open spec fn entries(keys: Seq<String>, counts: Seq<u32>) -> Seq<(Seq<char>, u32)> {
    Seq::new(keys.len(), |i: int| (keys[i]@, counts[i]))
}

/// Where `m` sits among sorted `keys`: the first index whose key is not below `m`, and whether
/// that key equals `m`.
fn locate(keys: &Vec<String>, m: &str) -> (r: (usize, bool))
    ensures
        r.0 <= keys.len(),
        forall|k: int| 0 <= k < r.0 ==> text_lt(#[trigger] keys@[k]@, m@),
        r.1 ==> r.0 < keys.len() && keys@[r.0 as int]@ == m@,
        !r.1 ==> r.0 == keys.len() || text_lt(m@, keys@[r.0 as int]@),
{
    let mut j: usize = 0;
    while j < keys.len()
        invariant
            j <= keys.len(),
            forall|k: int| 0 <= k < j ==> text_lt(#[trigger] keys@[k]@, m@),
        decreases keys.len() - j,
    {
        let c = compare_text(keys[j].as_str(), m);
        if c == 0 {
            return (j, true);
        }
        if c > 0 {
            return (j, false);
        }
        j += 1;
    }
    (j, false)
}

pub(crate) proof fn lemma_occurrences_push(s: Seq<Seq<char>>, x: Seq<char>, k: Seq<char>)
    ensures
        occurrences(s.push(x), k) == occurrences(s, k) + if x == k {
            1nat
        } else {
            0nat
        },
{
    assert(s.push(x).drop_last() =~= s);
}

/// The mnemonic histogram: the instruction multiset, sorted by mnemonic (so it is
/// order-independent and deterministic).
pub fn mnemonic_histogram<S: Mnemonic>(mnemonics: &[S]) -> (h: Vec<(String, u32)>)
    requires
        mnemonics@.len() <= u32::MAX,
    ensures
        is_histogram_of(h.deep_view(), texts(mnemonics@)),
{
    let ghost s = texts(mnemonics@);
    let mut keys: Vec<String> = Vec::new();
    let mut counts: Vec<u32> = Vec::new();
    let mut i: usize = 0;
    while i < mnemonics.len()
        invariant
            s == texts(mnemonics@),
            mnemonics@.len() <= u32::MAX,
            i <= mnemonics@.len(),
            keys@.len() == counts@.len(),
            is_histogram_of(entries(keys@, counts@), s.take(i as int)),
        decreases mnemonics@.len() - i,
    {
        let m = mnemonics[i].text();
        let ghost old_keys = keys@;
        let ghost old_counts = counts@;
        let ghost si = s.take(i as int);
        let ghost x = s[i as int];
        assert(x == m@);
        assert(s.take(i + 1) =~= si.push(x));
        let (j, found) = locate(&keys, m);
        if found {
            proof {
                lemma_occurrences_bound(si, x);
            }
            let c = counts[j];
            assert(entries(old_keys, old_counts)[j as int].1 == occurrences(si, x));
            assert(c == occurrences(si, x));
            counts.set(j, c + 1);
            proof {
                let p = entries(keys@, counts@);
                assert(p[j as int].1 == c + 1);
                assert(forall|t: int| 0 <= t < p.len() && t != j ==> p[t] == entries(old_keys, old_counts)[t]);
                let si1 = si.push(x);
                assert forall|t: int| 0 <= t < p.len() implies #[trigger] p[t].1 == occurrences(si1, p[t].0) by {
                    lemma_occurrences_push(si, x, p[t].0);
                    assert(entries(old_keys, old_counts)[t].1 == occurrences(si, entries(old_keys, old_counts)[t].0));
                    if t != j && p[t].0 == x {
                        if t < j {
                            lemma_text_lt_irreflexive(x);
                        } else {
                            assert(text_lt(entries(old_keys, old_counts)[j as int].0, entries(old_keys, old_counts)[t].0));
                            lemma_text_lt_irreflexive(x);
                        }
                    }
                }
                assert forall|t: int| 0 <= t < p.len() implies si1.contains(#[trigger] p[t].0) by {
                    assert(si.contains(entries(old_keys, old_counts)[t].0));
                    let w = choose|w: int| 0 <= w < si.len() && si[w] == p[t].0;
                    assert(si1[w] == p[t].0);
                }
                assert forall|y: Seq<char>| si1.contains(y) implies has_key(p, y) by {
                    let w = choose|w: int| 0 <= w < si1.len() && si1[w] == y;
                    if w < si.len() {
                        assert(si[w] == y);
                        assert(has_key(entries(old_keys, old_counts), y));
                        let t = choose|t: int| 0 <= t < old_keys.len() && entries(old_keys, old_counts)[t].0 == y;
                        assert(p[t].0 == y);
                    } else {
                        assert(p[j as int].0 == y);
                    }
                }
                assert(s.take(i + 1) == si1);
            }
        } else {
            keys.insert(j, m.to_owned());
            counts.insert(j, 1);
            proof {
                let q = entries(old_keys, old_counts);
                let p = entries(keys@, counts@);
                let si1 = si.push(x);
                assert(forall|t: int| 0 <= t < j ==> p[t] == q[t]);
                assert(forall|t: int| j < t < p.len() ==> p[t] == q[t - 1]);
                assert(p[j as int] == (x, 1u32));
                // x is not yet a key
                assert forall|t: int| 0 <= t < q.len() implies q[t].0 != x by {
                    if t < j {
                        lemma_text_lt_irreflexive(x);
                    } else if q[t].0 == x {
                        if t > j {
                            assert(text_lt(q[j as int].0, q[t].0));
                            lemma_text_lt_asymmetric(x, q[j as int].0);
                        } else {
                            lemma_text_lt_irreflexive(x);
                        }
                    }
                }
                if si.contains(x) {
                    assert(has_key(q, x));
                }
                lemma_occurrences_bound(si, x);
                assert forall|a: int, b: int| 0 <= a < b < p.len() implies text_lt(p[a].0, p[b].0) by {
                    if b < j {
                    } else if b == j {
                    } else if a < j {
                        assert(text_lt(q[a].0, x));
                        if j < q.len() {
                            assert(text_lt(x, q[j as int].0));
                            if b - 1 > j {
                                assert(text_lt(q[j as int].0, q[b - 1].0));
                                lemma_text_lt_transitive(x, q[j as int].0, q[b - 1].0);
                            }
                            lemma_text_lt_transitive(q[a].0, x, q[b - 1].0);
                        }
                    } else if a == j {
                        assert(text_lt(x, q[j as int].0));
                        if b - 1 > j {
                            assert(text_lt(q[j as int].0, q[b - 1].0));
                            lemma_text_lt_transitive(x, q[j as int].0, q[b - 1].0);
                        }
                    } else {
                        assert(text_lt(q[a - 1].0, q[b - 1].0));
                    }
                }
                assert forall|t: int| 0 <= t < p.len() implies #[trigger] p[t].1 == occurrences(si1, p[t].0) by {
                    lemma_occurrences_push(si, x, p[t].0);
                    if t < j {
                        assert(q[t].0 != x);
                    } else if t > j {
                        assert(q[t - 1].0 != x);
                    }
                }
                assert forall|t: int| 0 <= t < p.len() implies si1.contains(#[trigger] p[t].0) by {
                    if t == j {
                        assert(si1[si.len() as int] == x);
                    } else {
                        let u = if t < j { t } else { t - 1 };
                        assert(p[t].0 == q[u].0);
                        assert(si.contains(q[u].0));
                        let w = choose|w: int| 0 <= w < si.len() && si[w] == q[u].0;
                        assert(si1[w] == p[t].0);
                    }
                }
                assert forall|y: Seq<char>| si1.contains(y) implies has_key(p, y) by {
                    let w = choose|w: int| 0 <= w < si1.len() && si1[w] == y;
                    if w < si.len() {
                        assert(si[w] == y);
                        assert(has_key(q, y));
                        let t = choose|t: int| 0 <= t < q.len() && q[t].0 == y;
                        if t < j {
                            assert(p[t].0 == y);
                        } else {
                            assert(p[t + 1].0 == y);
                        }
                    } else {
                        assert(p[j as int].0 == y);
                    }
                }
                assert(s.take(i + 1) == si1);
            }
        }
        i += 1;
    }
    assert(s.take(mnemonics@.len() as int) =~= s);
    let mut h: Vec<(String, u32)> = Vec::new();
    let mut t: usize = 0;
    while t < keys.len()
        invariant
            t <= keys.len(),
            keys@.len() == counts@.len(),
            h.deep_view() =~= entries(keys@, counts@).take(t as int),
        decreases keys.len() - t,
    {
        let ghost before = h.deep_view();
        let k = keys[t].clone();
        h.push((k, counts[t]));
        assert(h.deep_view() =~= before.push((keys@[t as int]@, counts@[t as int])));
        t += 1;
    }
    assert(entries(keys@, counts@).take(keys.len() as int) =~= entries(keys@, counts@));
    h
}

} // verus!

verus! {

/// The length-3 windows of an instruction stream, each rendered `"a b c"`.
pub open spec fn trigram_keys(s: Seq<Seq<char>>) -> Seq<Seq<char>> {
    Seq::new(
        if s.len() >= 3 {
            (s.len() - 2) as nat
        } else {
            0
        },
        |i: int| s[i] + seq![' '] + s[i + 1] + seq![' '] + s[i + 2],
    )
}

/// The ordered mnemonic trigrams as a histogram: every length-3 window of the instruction stream
/// (`"mov add cmp"`), counted and sorted. Fewer than 3 mnemonics → empty.
pub fn mnemonic_trigrams<S: Mnemonic>(mnemonics: &[S]) -> (h: Vec<(String, u32)>)
    requires
        mnemonics@.len() <= u32::MAX,
    ensures
        is_histogram_of(h.deep_view(), trigram_keys(texts(mnemonics@))),
{
    let ghost s = texts(mnemonics@);
    let mut keys: Vec<String> = Vec::new();
    let n = mnemonics.len();
    if n >= 3 {
        let mut w: usize = 0;
        while w + 2 < n
            invariant
                n == mnemonics@.len(),
                s == texts(mnemonics@),
                w <= n - 2,
                texts(keys@) =~= trigram_keys(s).take(w as int),
            decreases n - w,
        {
            let mut key = String::new();
            key.append(mnemonics[w].text());
            key.append(" ");
            key.append(mnemonics[w + 1].text());
            key.append(" ");
            key.append(mnemonics[w + 2].text());
            proof {
                reveal_strlit(" ");
                assert(" "@ =~= seq![' ']);
            }
            let ghost before = texts(keys@);
            keys.push(key);
            assert(texts(keys@) =~= before.push(trigram_keys(s)[w as int]));
            w += 1;
        }
    }
    assert(texts(keys@) =~= trigram_keys(s));
    mnemonic_histogram(&keys)
}

/// The FNV-1a 64-bit prime.
pub const FNV_PRIME: u64 = 0x0000_0100_0000_01b3;

/// The FNV-1a 64-bit offset basis.
pub const FNV_OFFSET: u64 = 0xcbf2_9ce4_8422_2325;

/// One FNV-1a step: xor in a value, multiply by the prime (mod 2^64).
pub open spec fn fnv_mix(h: u64, x: u64) -> u64 {
    (h ^ x).wrapping_mul(FNV_PRIME)
}

/// FNV-1a over a byte string.
pub open spec fn fnv_bytes(h: u64, bytes: Seq<u8>) -> u64
    decreases bytes.len(),
{
    if bytes.len() == 0 {
        h
    } else {
        fnv_bytes(fnv_mix(h, bytes[0] as u64), bytes.drop_first())
    }
}

/// FNV-1a over a histogram: each mnemonic's UTF-8 bytes, then its count.
pub open spec fn fnv_histogram(h: u64, hist: Seq<(Seq<char>, u32)>) -> u64
    decreases hist.len(),
{
    if hist.len() == 0 {
        h
    } else {
        fnv_histogram(fnv_mix(fnv_bytes(h, encode_utf8(hist[0].0)), hist[0].1 as u64), hist.drop_first())
    }
}

/// The fingerprint of a histogram: `0` for no data; otherwise the FNV-1a hash, with a hash of `0`
/// moved to `1` so a non-empty histogram never collides with the no-data sentinel.
pub open spec fn fingerprint_of(hist: Seq<(Seq<char>, u32)>) -> u64 {
    if hist.len() == 0 {
        0
    } else if fnv_histogram(FNV_OFFSET, hist) == 0 {
        1
    } else {
        fnv_histogram(FNV_OFFSET, hist)
    }
}

/// FNV-1a hash of a (sorted) mnemonic histogram; `0` is reserved to mean "no mnemonic data".
pub fn histogram_fingerprint(histogram: &[(String, u32)]) -> (r: u64)
    ensures
        r == fingerprint_of(histogram.deep_view()),
        (r == 0) == (histogram@.len() == 0),
{
    if histogram.len() == 0 {
        return 0;
    }
    let ghost hv = histogram.deep_view();
    let mut h: u64 = FNV_OFFSET;
    let mut i: usize = 0;
    assert(hv.skip(0) =~= hv);
    while i < histogram.len()
        invariant
            hv == histogram.deep_view(),
            i <= histogram@.len(),
            fnv_histogram(FNV_OFFSET, hv) == fnv_histogram(h, hv.skip(i as int)),
        decreases histogram@.len() - i,
    {
        let (mnem, count) = &histogram[i];
        let bytes = mnem.as_str().as_bytes();
        let ghost h0 = h;
        let mut k: usize = 0;
        assert(bytes@.skip(0) =~= bytes@);
        while k < bytes.len()
            invariant
                k <= bytes@.len(),
                fnv_bytes(h0, bytes@) == fnv_bytes(h, bytes@.skip(k as int)),
            decreases bytes@.len() - k,
        {
            assert(bytes@.skip(k as int).drop_first() =~= bytes@.skip(k + 1));
            h = (h ^ (bytes[k] as u64)).wrapping_mul(FNV_PRIME);
            k += 1;
        }
        assert(bytes@.skip(k as int).len() == 0);
        h = (h ^ (*count as u64)).wrapping_mul(FNV_PRIME);
        assert(hv.skip(i as int)[0] == (mnem@, *count));
        assert(hv.skip(i as int).drop_first() =~= hv.skip(i + 1));
        i += 1;
    }
    assert(hv.skip(i as int).len() == 0);
    if h == 0 {
        1
    } else {
        h
    }
}

/// FNV-1a fingerprint of a function's mnemonics, straight from the in-order list: the fingerprint
/// of their histogram. `0` = no data.
pub fn mnemonic_fingerprint<S: Mnemonic>(mnemonics: &[S]) -> (r: u64)
    requires
        mnemonics@.len() <= u32::MAX,
    ensures
        exists|h: Seq<(Seq<char>, u32)>| is_histogram_of(h, texts(mnemonics@)) && r == fingerprint_of(h),
        (r == 0) == (mnemonics@.len() == 0),
{
    let h = mnemonic_histogram(mnemonics);
    proof {
        if mnemonics@.len() > 0 {
            let x = texts(mnemonics@)[0];
            assert(texts(mnemonics@).contains(x));
        }
    }
    histogram_fingerprint(&h)
}

} // verus!

verus! {

/// An element-for-element copy of a vector of plain values.
pub fn copy_vec<T: Copy>(v: &Vec<T>) -> (r: Vec<T>)
    ensures
        r@ == v@,
{
    let mut out: Vec<T> = Vec::new();
    let mut i: usize = 0;
    while i < v.len()
        invariant
            i <= v@.len(),
            out@ == v@.take(i as int),
        decreases v@.len() - i,
    {
        out.push(v[i]);
        assert(out@ =~= v@.take(i + 1));
        i += 1;
    }
    assert(out@ =~= v@);
    out
}

/// An equal copy of a list of strings.
pub fn copy_strings(v: &Vec<String>) -> (r: Vec<String>)
    ensures
        r@ == v@,
        r.deep_view() == v.deep_view(),
{
    let mut out: Vec<String> = Vec::new();
    let mut i: usize = 0;
    while i < v.len()
        invariant
            i <= v@.len(),
            out@ == v@.take(i as int),
        decreases v@.len() - i,
    {
        out.push(v[i].clone());
        assert(out@ =~= v@.take(i + 1));
        i += 1;
    }
    assert(out@ =~= v@);
    out
}

/// An equal copy of a histogram.
pub fn copy_histogram(v: &Vec<(String, u32)>) -> (r: Vec<(String, u32)>)
    ensures
        r@ == v@,
        r.deep_view() == v.deep_view(),
{
    let mut out: Vec<(String, u32)> = Vec::new();
    let mut i: usize = 0;
    while i < v.len()
        invariant
            i <= v@.len(),
            out@ == v@.take(i as int),
        decreases v@.len() - i,
    {
        let (s, c) = &v[i];
        out.push((s.clone(), *c));
        assert(out@ =~= v@.take(i + 1));
        i += 1;
    }
    assert(out@ =~= v@);
    out
}

} // verus!
