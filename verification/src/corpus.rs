//! The small programs of the decompiler A/B corpus — arithmetic (`gcd`, `fib`, `factorial`,
//! `sum_to`) and text handling (`reverse`, vowel count, palindrome test, word histogram, a
//! `Result`-returning argument parser, trait-object scorers) — whose compiled functions the
//! parity checks look for by name.

use vstd::prelude::*;
use vstd::string::*;

use vstd::relations::sorted_by;

use crate::model::{lemma_occurrences_bound, lemma_occurrences_push, occurrences};
use crate::port::{ascii_lower, folded, lower_char};
use crate::render::{debug_escaped, debug_quoted};
use crate::text::{
    chars_of, is_space, is_whitespace, lemma_text_lt_irreflexive, parse_decimal, parse_unsigned, push_char, text_lt,
    text_order, int_error_text, IntError,
};

verus! {

// ---------------------------------------------------------------------------------------------
// Arithmetic
// ---------------------------------------------------------------------------------------------

/// Euclid's greatest common divisor.
pub open spec fn gcd_of(a: nat, b: nat) -> nat
    decreases b,
{
    if b == 0 {
        a
    } else {
        gcd_of(b, a % b)
    }
}

/// The greatest common divisor of `a` and `b`, by Euclid's algorithm.
pub fn gcd(a: u64, b: u64) -> (r: u64)
    ensures
        r == gcd_of(a as nat, b as nat),
{
    let ghost (a0, b0) = (a as nat, b as nat);
    let mut a = a;
    let mut b = b;
    while b != 0
        invariant
            gcd_of(a as nat, b as nat) == gcd_of(a0, b0),
        decreases b,
    {
        let t = b;
        b = a % b;
        a = t;
    }
    a
}

/// The Fibonacci numbers.
pub open spec fn fib_of(n: nat) -> nat
    decreases n,
{
    if n < 2 {
        n
    } else {
        fib_of((n - 1) as nat) + fib_of((n - 2) as nat)
    }
}

/// The `n`th Fibonacci number, by the doubly recursive definition.
pub fn fib(n: u32) -> (r: u64)
    requires
        fib_of(n as nat) <= u64::MAX,
    ensures
        r == fib_of(n as nat),
    decreases n,
{
    if n < 2 {
        return n as u64;
    }
    fib(n - 1) + fib(n - 2)
}

/// `n!` reduced modulo 2^64, as the wrapping product computes it.
pub open spec fn factorial_wrapped(n: nat) -> nat
    decreases n,
{
    if n < 2 {
        1
    } else {
        (factorial_wrapped((n - 1) as nat) * n) % 0x1_0000_0000_0000_0000
    }
}

/// `n!`, wrapping modulo 2^64.
pub fn factorial(n: u32) -> (r: u64)
    ensures
        r == factorial_wrapped(n as nat),
{
    let mut r: u64 = 1;
    let mut i: u64 = 2;
    while i <= n as u64
        invariant
            2 <= i <= n as u64 + 1 || (i == 2 && n < 2),
            r == factorial_wrapped((i - 1) as nat),
        decreases n as u64 + 1 - i,
    {
        r = r.wrapping_mul(i);
        i += 1;
    }
    r
}

/// `1 + 2 + … + n`.
pub fn sum_to(n: u32) -> (r: u64)
    ensures
        r == n as nat * (n as nat + 1) / 2,
{
    let mut s: u64 = 0;
    let mut i: u64 = 0;
    while i < n as u64
        invariant
            i <= n,
            s == i as nat * (i as nat + 1) / 2,
        decreases n as u64 - i,
    {
        assert((i as nat + 1) * (i as nat + 2) / 2 == i as nat * (i as nat + 1) / 2 + i as nat + 1) by (nonlinear_arith);
        assert((i as nat + 1) * (i as nat + 2) / 2 <= 0xffff_ffffu64 as nat * (0xffff_ffffu64 as nat + 1) / 2) by (nonlinear_arith)
            requires
                i < 0xffff_ffff,
        ;
        s += i + 1;
        i += 1;
    }
    s
}

// ---------------------------------------------------------------------------------------------
// Text
// ---------------------------------------------------------------------------------------------

/// The characters of `s` in reverse order.
pub fn reverse(s: &str) -> (r: String)
    ensures
        r@ == s@.reverse(),
{
    let cs = chars_of(s);
    let mut out = String::new();
    let mut i: usize = cs.len();
    while i > 0
        invariant
            i <= cs@.len(),
            cs@ == s@,
            out@ == cs@.subrange(i as int, cs@.len() as int).reverse(),
        decreases i,
    {
        i -= 1;
        push_char(&mut out, cs[i]);
        assert(out@ =~= cs@.subrange(i as int, cs@.len() as int).reverse());
    }
    assert(cs@.subrange(0, cs@.len() as int) =~= cs@);
    out
}

/// An ASCII vowel, either case.
pub open spec fn is_vowel(c: char) -> bool {
    let l = ascii_lower(c);
    l == 'a' || l == 'e' || l == 'i' || l == 'o' || l == 'u'
}

/// How many vowels `s` holds.
pub open spec fn vowels(s: Seq<char>) -> nat
    decreases s.len(),
{
    if s.len() == 0 {
        0
    } else {
        vowels(s.drop_last()) + if is_vowel(s.last()) {
            1nat
        } else {
            0nat
        }
    }
}

/// How many ASCII vowels (either case) `s` holds.
pub fn count_vowels(s: &str) -> (r: usize)
    ensures
        r == vowels(s@),
{
    let cs = chars_of(s);
    let mut n: usize = 0;
    let mut i: usize = 0;
    while i < cs.len()
        invariant
            i <= cs@.len(),
            cs@ == s@,
            n <= i,
            n == vowels(cs@.take(i as int)),
        decreases cs@.len() - i,
    {
        assert(cs@.take(i + 1).drop_last() =~= cs@.take(i as int));
        let l = lower_char(cs[i]);
        if l == 'a' || l == 'e' || l == 'i' || l == 'o' || l == 'u' {
            n += 1;
        }
        i += 1;
    }
    assert(cs@.take(cs@.len() as int) =~= cs@);
    n
}

/// `s` without its white space, ASCII letters lower-cased.
pub open spec fn squeezed(s: Seq<char>) -> Seq<char>
    decreases s.len(),
{
    if s.len() == 0 {
        Seq::empty()
    } else if is_space(s.last()) {
        squeezed(s.drop_last())
    } else {
        squeezed(s.drop_last()).push(ascii_lower(s.last()))
    }
}

/// Whether `s` reads the same both ways, ignoring white space and ASCII case.
pub fn is_palindrome(s: &str) -> (r: bool)
    ensures
        r == (squeezed(s@) == squeezed(s@).reverse()),
{
    let cs = chars_of(s);
    let mut t: Vec<char> = Vec::new();
    let mut i: usize = 0;
    while i < cs.len()
        invariant
            i <= cs@.len(),
            cs@ == s@,
            t@ == squeezed(cs@.take(i as int)),
        decreases cs@.len() - i,
    {
        assert(cs@.take(i + 1).drop_last() =~= cs@.take(i as int));
        if !is_whitespace(cs[i]) {
            t.push(lower_char(cs[i]));
        }
        i += 1;
    }
    assert(cs@.take(cs@.len() as int) =~= cs@);
    let n = t.len();
    let mut k: usize = 0;
    while k < n
        invariant
            n == t@.len(),
            t@ == squeezed(s@),
            k <= n,
            forall|j: int| 0 <= j < k ==> #[trigger] t@[j] == t@[n - 1 - j],
        decreases n - k,
    {
        if t[k] != t[n - 1 - k] {
            assert(t@.reverse()[k as int] != t@[k as int]);
            return false;
        }
        k += 1;
    }
    assert(t@ =~= t@.reverse());
    true
}

/// The repeat count an optional argument asks for: `1` when absent; otherwise a `usize` in
/// `1..=8`. A malformed count is reported with the argument quoted and the parse failure; an
/// out-of-range one as such.
pub open spec fn repeat_of(arg: Option<Seq<char>>) -> Result<nat, Seq<char>> {
    match arg {
        None => Ok(1),
        Some(a) => match parse_unsigned(a, usize::MAX as nat) {
            Err(e) => Err("bad repeat "@ + debug_escaped(a) + ": "@ + int_error_text(e)),
            Ok(n) => if n > 0 && n <= 8 {
                Ok(n)
            } else {
                Err("repeat out of range"@)
            },
        },
    }
}

/// The repeat count an optional argument asks for.
pub fn parse_repeat(arg: Option<&str>) -> (r: Result<usize, String>)
    ensures
        match r {
            Ok(n) => repeat_of(crate::cli::opt_view(arg)) == Ok::<nat, Seq<char>>(n as nat),
            Err(m) => repeat_of(crate::cli::opt_view(arg)) == Err::<nat, Seq<char>>(m@),
        },
{
    match arg {
        None => Ok(1),
        Some(a) => match parse_decimal(a, usize::MAX as u64) {
            Err(e) => {
                let mut m = String::from_str("bad repeat ");
                let q = debug_quoted(a);
                m.append(q.as_str());
                m.append(": ");
                m.append(e.message());
                Err(m)
            },
            Ok(n) => if n > 0 && n <= 8 {
                Ok(n as usize)
            } else {
                Err(String::from_str("repeat out of range"))
            },
        },
    }
}

// ---------------------------------------------------------------------------------------------
// Scorers, dispatched through trait objects
// ---------------------------------------------------------------------------------------------

/// Something that scores a text.
pub trait Scorer {
    /// Whether this scorer can score `s` (its score fits a `usize`).
    spec fn scores(&self, s: Seq<char>) -> bool;

    /// The score of `s`.
    spec fn score_of(&self, s: Seq<char>) -> nat;

    /// Score a text.
    fn score(&self, s: &str) -> (r: usize)
        requires
            self.scores(s@),
        ensures
            r as nat == self.score_of(s@),
    ;
}

/// Scores a text by its length in bytes.
pub struct LenScorer;

/// Scores a text by its vowels, each worth the given weight.
pub struct VowelScorer(pub usize);

impl Scorer for LenScorer {
    open spec fn scores(&self, s: Seq<char>) -> bool {
        true
    }

    open spec fn score_of(&self, s: Seq<char>) -> nat {
        vstd::utf8::encode_utf8(s).len()
    }

    fn score(&self, s: &str) -> (r: usize) {
        s.as_bytes().len()
    }
}

impl Scorer for VowelScorer {
    open spec fn scores(&self, s: Seq<char>) -> bool {
        self.0 * vowels(s) <= usize::MAX
    }

    open spec fn score_of(&self, s: Seq<char>) -> nat {
        self.0 as nat * vowels(s)
    }

    fn score(&self, s: &str) -> (r: usize) {
        let n = count_vowels(s);
        self.0 * n
    }
}

/// The highest score any of `scorers` gives `s`, or `0` when there are none.
pub open spec fn best_score(scorers: Seq<Box<dyn Scorer>>, s: Seq<char>) -> nat
    decreases scorers.len(),
{
    if scorers.len() == 0 {
        0
    } else {
        let r = best_score(scorers.drop_last(), s);
        let x = scorers.last().score_of(s);
        if x > r {
            x
        } else {
            r
        }
    }
}

/// The highest score any of `scorers` gives `s`, or `0` when there are none.
pub fn best(scorers: &[Box<dyn Scorer>], s: &str) -> (r: usize)
    requires
        forall|i: int| 0 <= i < scorers@.len() ==> (#[trigger] scorers@[i]).scores(s@),
    ensures
        r as nat == best_score(scorers@, s@),
{
    let mut m: usize = 0;
    let mut i: usize = 0;
    while i < scorers.len()
        invariant
            i <= scorers@.len(),
            forall|j: int| 0 <= j < scorers@.len() ==> (#[trigger] scorers@[j]).scores(s@),
            m as nat == best_score(scorers@.take(i as int), s@),
        decreases scorers@.len() - i,
    {
        assert(scorers@.take(i + 1).drop_last() =~= scorers@.take(i as int));
        let x = scorers[i].score(s);
        if x > m {
            m = x;
        }
        i += 1;
    }
    assert(scorers@.take(scorers@.len() as int) =~= scorers@);
    m
}

} // verus!

verus! {

// ---------------------------------------------------------------------------------------------
// Word histogram
// ---------------------------------------------------------------------------------------------

/// A left-to-right scan of `s` into words: the finished words and the word being read.
pub open spec fn word_scan(s: Seq<char>) -> (Seq<Seq<char>>, Seq<char>)
    decreases s.len(),
{
    if s.len() == 0 {
        (Seq::empty(), Seq::empty())
    } else {
        let (done, cur) = word_scan(s.drop_last());
        if is_space(s.last()) {
            (
                if cur.len() > 0 {
                    done.push(cur)
                } else {
                    done
                },
                Seq::empty(),
            )
        } else {
            (done, cur.push(s.last()))
        }
    }
}

/// The words of `s` (`split_whitespace`): its maximal runs of non-white-space characters.
pub open spec fn words_of(s: Seq<char>) -> Seq<Seq<char>> {
    let (done, cur) = word_scan(s);
    if cur.len() > 0 {
        done.push(cur)
    } else {
        done
    }
}

/// The words of `s`, each with its ASCII letters lower-cased.
pub open spec fn lowered_words(s: Seq<char>) -> Seq<Seq<char>> {
    words_of(s).map_values(|w: Seq<char>| folded(w))
}

/// `h` counts the words `ws`: its keys are exactly the distinct words, in strictly increasing
/// `str` order, each with its number of occurrences.
pub open spec fn counts_words(h: Seq<(Seq<char>, usize)>, ws: Seq<Seq<char>>) -> bool {
    &&& forall|i: int, j: int| 0 <= i < j < h.len() ==> text_lt(#[trigger] h[i].0, #[trigger] h[j].0)
    &&& forall|i: int| 0 <= i < h.len() ==> #[trigger] h[i].1 == occurrences(ws, h[i].0)
    &&& forall|i: int| 0 <= i < h.len() ==> ws.contains(#[trigger] h[i].0)
    &&& forall|x: Seq<char>| ws.contains(x) ==> exists|j: int| 0 <= j < h.len() && #[trigger] h[j].0 == x
}

fn lowered_word_list(s: &str) -> (r: Vec<String>)
    ensures
        r.deep_view() == lowered_words(s@),
{
    let cs = chars_of(s);
    let mut done: Vec<String> = Vec::new();
    let mut cur: Vec<char> = Vec::new();
    let mut i: usize = 0;
    assert(cs@.take(0) =~= Seq::<char>::empty());
    while i < cs.len()
        invariant
            i <= cs@.len(),
            cs@ == s@,
            done.deep_view() == word_scan(cs@.take(i as int)).0.map_values(|w: Seq<char>| folded(w)),
            cur@ == folded(word_scan(cs@.take(i as int)).1),
        decreases cs@.len() - i,
    {
        assert(cs@.take(i + 1).drop_last() =~= cs@.take(i as int));
        let ghost sc = word_scan(cs@.take(i as int));
        let c = cs[i];
        if is_whitespace(c) {
            if cur.len() > 0 {
                let w = crate::text::string_from_chars(cur.as_slice());
                let ghost before = done.deep_view();
                done.push(w);
                assert(done.deep_view() =~= before.push(cur@));
                assert(sc.0.push(sc.1).map_values(|w: Seq<char>| folded(w)) =~= before.push(folded(sc.1)));
            }
            cur = Vec::new();
            assert(cur@ =~= folded(Seq::<char>::empty()));
        } else {
            cur.push(lower_char(c));
            assert(cur@ =~= folded(sc.1.push(c)));
        }
        i += 1;
    }
    assert(cs@.take(cs@.len() as int) =~= cs@);
    let ghost sc = word_scan(cs@);
    if cur.len() > 0 {
        let w = crate::text::string_from_chars(cur.as_slice());
        let ghost before = done.deep_view();
        done.push(w);
        assert(done.deep_view() =~= before.push(cur@));
        assert(sc.0.push(sc.1).map_values(|w: Seq<char>| folded(w)) =~= before.push(folded(sc.1)));
    } else {
        assert(sc.1.len() == 0);
    }
    done
}

proof fn lemma_occurrences_multiset(s: Seq<Seq<char>>, k: Seq<char>)
    ensures
        occurrences(s, k) == s.to_multiset().count(k),
    decreases s.len(),
{
    broadcast use vstd::multiset::group_multiset_axioms;
    broadcast use vstd::seq_lib::group_to_multiset_ensures;

    if s.len() == 0 {
        assert(s.to_multiset() =~= vstd::multiset::Multiset::<Seq<char>>::empty());
    } else {
        lemma_occurrences_multiset(s.drop_last(), k);
        assert(s =~= s.drop_last().push(s.last()));
    }
}

/// How often each word of `s` occurs, words lower-cased (ASCII) and listed in `str` order.
pub fn word_histogram(s: &str) -> (h: Vec<(String, usize)>)
    ensures
        counts_words(h.deep_view(), lowered_words(s@)),
{
    let words = lowered_word_list(s);
    let ghost ws = words.deep_view();
    let sorted = crate::text::sort_strings(words);
    let ghost ss = sorted.deep_view();
    proof {
        crate::text::lemma_text_order_total();
        ws.lemma_sort_by_ensures(text_order());
    }
    let mut out: Vec<(String, usize)> = Vec::new();
    let mut i: usize = 0;
    assert(ss.take(0) =~= Seq::<Seq<char>>::empty());
    while i < sorted.len()
        invariant
            i <= ss.len(),
            ss == sorted.deep_view(),
            sorted_by(ss, text_order()),
            counts_words(out.deep_view(), ss.take(i as int)),
            i == 0 ==> out@.len() == 0,
            i > 0 ==> out@.len() > 0 && out.deep_view()[out@.len() - 1].0 == ss[i - 1],
        decreases ss.len() - i,
    {
        let ghost t = ss.take(i as int);
        let ghost h0 = out.deep_view();
        let w = &sorted[i];
        assert(ss[i as int] == w@);
        assert(ss.take(i + 1) =~= t.push(w@));
        proof {
            lemma_occurrences_bound(t, w@);
        }
        let n = out.len();
        let same = n > 0 && crate::text::compare_text(out[n - 1].0.as_str(), w.as_str()) == 0;
        if same {
            let c = out[n - 1].1;
            assert(h0[n - 1].1 == occurrences(t, w@));
            let key = crate::text::copy_string(&out[n - 1].0);
            out.set(n - 1, (key, c + 1));
            proof {
                let h1 = out.deep_view();
                let t1 = t.push(w@);
                assert forall|j: int| 0 <= j < h1.len() implies #[trigger] h1[j].1 == occurrences(t1, h1[j].0) by {
                    lemma_occurrences_push(t, w@, h1[j].0);
                    if j < n - 1 {
                        assert(h1[j] == h0[j]);
                        assert(text_lt(h0[j].0, h0[n - 1].0));
                        lemma_text_lt_irreflexive(w@);
                    }
                }
                assert forall|j: int| 0 <= j < h1.len() implies t1.contains(#[trigger] h1[j].0) by {
                    assert(t.contains(h0[j].0));
                    let q = choose|q: int| 0 <= q < t.len() && t[q] == h0[j].0;
                    assert(t1[q] == h1[j].0);
                }
                assert forall|x: Seq<char>| t1.contains(x) implies exists|j: int| 0 <= j < h1.len() && #[trigger] h1[j].0 == x by {
                    let q = choose|q: int| 0 <= q < t1.len() && t1[q] == x;
                    if q < t.len() {
                        assert(t[q] == x);
                        assert(t.contains(x));
                        let j = choose|j: int| 0 <= j < h0.len() && #[trigger] h0[j].0 == x;
                        assert(h1[j].0 == x);
                    } else {
                        assert(h1[n - 1].0 == x);
                    }
                }
                assert forall|a: int, b: int| 0 <= a < b < h1.len() implies text_lt(#[trigger] h1[a].0, #[trigger] h1[b].0) by {
                    assert(h1[a].0 == h0[a].0 && h1[b].0 == h0[b].0);
                }
            }
        } else {
            let key = crate::text::copy_string(w);
            out.push((key, 1));
            proof {
                let h1 = out.deep_view();
                let t1 = t.push(w@);
                assert(h1 =~= h0.push((w@, 1usize)));
                // `w` comes strictly after every key so far
                if n > 0 {
                    let last = h0[n - 1].0;
                    assert(last == ss[i - 1]);
                    assert((text_order())(ss[i - 1], ss[i as int]));
                    assert(last != w@);
                    crate::text::lemma_text_lt_total(last, w@);
                    assert(text_lt(last, w@));
                    assert forall|j: int| 0 <= j < n implies text_lt(#[trigger] h0[j].0, w@) by {
                        if j < n - 1 {
                            crate::text::lemma_text_lt_transitive(h0[j].0, last, w@);
                        }
                    }
                    // so `w` is no word seen so far
                    assert forall|q: int| 0 <= q < t.len() implies t[q] != w@ by {
                        assert(t[q] == ss[q]);
                        if q < i - 1 {
                            assert((text_order())(ss[q], ss[i - 1]));
                        }
                        crate::text::lemma_text_lt_asymmetric(last, w@);
                    }
                }
                assert(!t.contains(w@));
                assert(occurrences(t, w@) == 0);
                assert forall|j: int| 0 <= j < h1.len() implies #[trigger] h1[j].1 == occurrences(t1, h1[j].0) by {
                    lemma_occurrences_push(t, w@, h1[j].0);
                    if j < n {
                        assert(h1[j] == h0[j]);
                        lemma_text_lt_irreflexive(w@);
                    }
                }
                assert forall|j: int| 0 <= j < h1.len() implies t1.contains(#[trigger] h1[j].0) by {
                    if j < n {
                        assert(t.contains(h0[j].0));
                        let q = choose|q: int| 0 <= q < t.len() && t[q] == h0[j].0;
                        assert(t1[q] == h1[j].0);
                    } else {
                        assert(t1[t.len() as int] == w@);
                    }
                }
                assert forall|x: Seq<char>| t1.contains(x) implies exists|j: int| 0 <= j < h1.len() && #[trigger] h1[j].0 == x by {
                    let q = choose|q: int| 0 <= q < t1.len() && t1[q] == x;
                    if q < t.len() {
                        assert(t[q] == x);
                        assert(t.contains(x));
                        let j = choose|j: int| 0 <= j < h0.len() && #[trigger] h0[j].0 == x;
                        assert(h1[j].0 == x);
                    } else {
                        assert(h1[n as int].0 == x);
                    }
                }
                assert forall|a: int, b: int| 0 <= a < b < h1.len() implies text_lt(#[trigger] h1[a].0, #[trigger] h1[b].0) by {
                    if b < n {
                        assert(h1[a].0 == h0[a].0 && h1[b].0 == h0[b].0);
                    } else {
                        assert(h1[a].0 == h0[a].0);
                    }
                }
            }
        }
        i += 1;
    }
    assert(ss.take(ss.len() as int) =~= ss);
    proof {
        let h = out.deep_view();
        assert forall|k: Seq<char>| #[trigger] occurrences(ws, k) == occurrences(ss, k) by {
            lemma_occurrences_multiset(ws, k);
            lemma_occurrences_multiset(ss, k);
        }
        assert forall|k: Seq<char>| ws.contains(k) == ss.contains(k) by {
            lemma_occurrences_bound(ws, k);
            lemma_occurrences_bound(ss, k);
            assert(occurrences(ws, k) == occurrences(ss, k));
        }
        assert forall|j: int| 0 <= j < h.len() implies #[trigger] h[j].1 == occurrences(ws, h[j].0) by {
            assert(occurrences(ws, h[j].0) == occurrences(ss, h[j].0));
        }
        assert forall|j: int| 0 <= j < h.len() implies ws.contains(#[trigger] h[j].0) by {
            assert(ss.contains(h[j].0));
            assert(ws.contains(h[j].0) == ss.contains(h[j].0));
        }
        assert forall|x: Seq<char>| ws.contains(x) implies exists|j: int| 0 <= j < h.len() && #[trigger] h[j].0 == x by {
            assert(ws.contains(x) == ss.contains(x));
        }
    }
    out
}

} // verus!
