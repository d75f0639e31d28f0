//! Text primitives the model is built on: the byte-lexicographic order `str` is sorted by,
//! a three-way comparison over it, and a few small string builders.

use vstd::prelude::*;
use vstd::utf8::*;
use vstd::string::*;
use vstd::std_specs::iter::IteratorSpec;
use vstd::relations::{sorted_by, total_ordering};
use vstd::multiset::Multiset;

verus! {

/// Strict lexicographic order on byte strings (a proper prefix sorts first) — the order of
/// `<[u8] as Ord>`, hence of `<str as Ord>`.
pub open spec fn bytes_lt(a: Seq<u8>, b: Seq<u8>) -> bool
    decreases a.len(),
{
    if b.len() == 0 {
        false
    } else if a.len() == 0 {
        true
    } else if a[0] != b[0] {
        a[0] < b[0]
    } else {
        bytes_lt(a.drop_first(), b.drop_first())
    }
}

/// The order `str` is sorted by: byte-lexicographic over the UTF-8 encoding.
pub open spec fn text_lt(a: Seq<char>, b: Seq<char>) -> bool {
    bytes_lt(encode_utf8(a), encode_utf8(b))
}

pub proof fn lemma_bytes_lt_irreflexive(a: Seq<u8>)
    ensures
        !bytes_lt(a, a),
    decreases a.len(),
{
    if a.len() > 0 {
        lemma_bytes_lt_irreflexive(a.drop_first());
    }
}

pub proof fn lemma_bytes_lt_transitive(a: Seq<u8>, b: Seq<u8>, c: Seq<u8>)
    requires
        bytes_lt(a, b),
        bytes_lt(b, c),
    ensures
        bytes_lt(a, c),
    decreases a.len(),
{
    if a.len() > 0 && b.len() > 0 && c.len() > 0 {
        if a[0] == b[0] && b[0] == c[0] {
            lemma_bytes_lt_transitive(a.drop_first(), b.drop_first(), c.drop_first());
        }
    }
}

pub proof fn lemma_bytes_lt_total(a: Seq<u8>, b: Seq<u8>)
    ensures
        a == b || bytes_lt(a, b) || bytes_lt(b, a),
    decreases a.len(),
{
    if a.len() > 0 && b.len() > 0 && a[0] == b[0] {
        lemma_bytes_lt_total(a.drop_first(), b.drop_first());
        if a.drop_first() == b.drop_first() {
            assert(a =~= seq![a[0]] + a.drop_first());
            assert(b =~= seq![b[0]] + b.drop_first());
        }
    } else if a.len() == 0 && b.len() == 0 {
        assert(a =~= b);
    }
}

pub proof fn lemma_bytes_lt_asymmetric(a: Seq<u8>, b: Seq<u8>)
    requires
        bytes_lt(a, b),
    ensures
        !bytes_lt(b, a),
{
    if bytes_lt(b, a) {
        lemma_bytes_lt_transitive(a, b, a);
        lemma_bytes_lt_irreflexive(a);
    }
}

pub proof fn lemma_text_lt_irreflexive(a: Seq<char>)
    ensures
        !text_lt(a, a),
{
    lemma_bytes_lt_irreflexive(encode_utf8(a));
}

pub proof fn lemma_text_lt_transitive(a: Seq<char>, b: Seq<char>, c: Seq<char>)
    requires
        text_lt(a, b),
        text_lt(b, c),
    ensures
        text_lt(a, c),
{
    lemma_bytes_lt_transitive(encode_utf8(a), encode_utf8(b), encode_utf8(c));
}

pub proof fn lemma_text_lt_total(a: Seq<char>, b: Seq<char>)
    ensures
        a == b || text_lt(a, b) || text_lt(b, a),
{
    lemma_bytes_lt_total(encode_utf8(a), encode_utf8(b));
    if encode_utf8(a) == encode_utf8(b) {
        encode_utf8_decode_utf8(a);
        encode_utf8_decode_utf8(b);
    }
}

pub proof fn lemma_text_lt_asymmetric(a: Seq<char>, b: Seq<char>)
    requires
        text_lt(a, b),
    ensures
        !text_lt(b, a),
{
    lemma_bytes_lt_asymmetric(encode_utf8(a), encode_utf8(b));
}

/// Three-way comparison of two byte strings in [`bytes_lt`] order: negative, zero or positive.
pub fn compare_bytes(a: &[u8], b: &[u8]) -> (r: i8)
    ensures
        (r == 0) == (a@ == b@),
        (r < 0) == bytes_lt(a@, b@),
        (r > 0) == bytes_lt(b@, a@),
{
    let mut i: usize = 0;
    assert(a@.skip(0) =~= a@);
    assert(b@.skip(0) =~= b@);
    while i < a.len() && i < b.len()
        invariant
            i <= a.len(),
            i <= b.len(),
            a@.take(i as int) == b@.take(i as int),
            bytes_lt(a@, b@) == bytes_lt(a@.skip(i as int), b@.skip(i as int)),
            bytes_lt(b@, a@) == bytes_lt(b@.skip(i as int), a@.skip(i as int)),
        decreases a.len() - i,
    {
        assert(a@.skip(i as int)[0] == a[i as int]);
        assert(b@.skip(i as int)[0] == b[i as int]);
        if a[i] != b[i] {
            proof {
                if a@ == b@ {
                    assert(a@[i as int] == b@[i as int]);
                }
                if bytes_lt(a@, b@) {
                    lemma_bytes_lt_asymmetric(a@, b@);
                }
            }
            if a[i] < b[i] {
                return -1;
            } else {
                return 1;
            }
        }
        assert(a@.skip(i as int).drop_first() =~= a@.skip(i + 1));
        assert(b@.skip(i as int).drop_first() =~= b@.skip(i + 1));
        assert(a@.take(i + 1) =~= a@.take(i as int).push(a@[i as int]));
        assert(b@.take(i + 1) =~= b@.take(i as int).push(b@[i as int]));
        i += 1;
    }
    proof {
        lemma_bytes_lt_irreflexive(a@);
    }
    if a.len() == b.len() {
        assert(a@ =~= a@.take(i as int));
        assert(b@ =~= b@.take(i as int));
        0
    } else if a.len() < b.len() {
        assert(a@.skip(i as int).len() == 0);
        proof {
            lemma_bytes_lt_asymmetric(a@, b@);
        }
        -1
    } else {
        assert(b@.skip(i as int).len() == 0);
        proof {
            lemma_bytes_lt_asymmetric(b@, a@);
        }
        1
    }
}

/// Three-way comparison of two strings in `str` order ([`text_lt`]).
pub fn compare_text(a: &str, b: &str) -> (r: i8)
    ensures
        (r == 0) == (a@ == b@),
        (r < 0) == text_lt(a@, b@),
        (r > 0) == text_lt(b@, a@),
{
    let r = compare_bytes(a.as_bytes(), b.as_bytes());
    proof {
        encode_utf8_decode_utf8(a@);
        encode_utf8_decode_utf8(b@);
    }
    r
}

/// A fresh `String` equal to `s` (its view).
pub fn copy_string(s: &String) -> (r: String)
    ensures
        r == *s,
        r@ == s@,
{
    s.clone()
}

} // verus!

verus! {

/// The characters of `s`, in order.
pub fn chars_of(s: &str) -> (v: Vec<char>)
    ensures
        v@ == s@,
{
    broadcast use vstd::string::group_string_axioms;

    let mut v: Vec<char> = Vec::new();
    let mut it = s.chars();
    assert(it.remaining() == s@);
    loop
        invariant
            it.obeys_prophetic_iter_laws(),
            v@ + it.remaining() == s@,
        decreases s@.len() - v@.len(),
    {
        let ghost before = it.remaining();
        match it.next() {
            Some(c) => {
                assert(v@.push(c) + it.remaining() =~= v@ + before);
                v.push(c);
            },
            None => {
                assert(v@ =~= s@);
                return v;
            },
        }
    }
}

} // verus!

verus! {

/// `String::push`. Claimed of it: the string afterwards is the old one followed by `c`.
#[verifier::external_body]
pub(crate) fn push_char(s: &mut String, c: char)
    ensures
        final(s)@ == old(s)@.push(c),
{
    s.push(c);
}

/// A `String` holding exactly the given characters.
pub fn string_from_chars(cs: &[char]) -> (s: String)
    ensures
        s@ == cs@,
{
    let mut s = String::new();
    let mut i: usize = 0;
    while i < cs.len()
        invariant
            i <= cs@.len(),
            s@ == cs@.take(i as int),
        decreases cs@.len() - i,
    {
        push_char(&mut s, cs[i]);
        assert(cs@.take(i + 1) =~= cs@.take(i as int).push(cs@[i as int]));
        i += 1;
    }
    assert(cs@.take(cs@.len() as int) =~= cs@);
    s
}

/// The digit character for `d < 16` (lower-case hex above 9).
pub open spec fn digit_char(d: nat) -> char {
    if d < 10 {
        (('0' as u32) + d) as char
    } else {
        (('a' as u32) + d - 10) as char
    }
}

/// `n` written in base `b` (`2 <= b <= 16`), most significant digit first, no leading zeros
/// (zero is `"0"`).
pub open spec fn digits(n: nat, b: nat) -> Seq<char>
    decreases n,
{
    if b < 2 || n < b {
        seq![digit_char(n)]
    } else {
        proof {
            assert(n / b < n) by (nonlinear_arith)
                requires
                    b >= 2,
                    n >= b,
            ;
        }
        digits(n / b, b).push(digit_char(n % b))
    }
}

/// `n` in decimal, as `u64`'s `Display` writes it.
pub open spec fn decimal(n: nat) -> Seq<char> {
    digits(n, 10)
}

/// `n` in lower-case hexadecimal with a `0x` prefix, as `{:#x}` writes it.
pub open spec fn hex_prefixed(n: nat) -> Seq<char> {
    seq!['0', 'x'] + digits(n, 16)
}

fn digit(d: u64) -> (c: char)
    requires
        d < 16,
    ensures
        c == digit_char(d as nat),
{
    match d {
        0 => '0',
        1 => '1',
        2 => '2',
        3 => '3',
        4 => '4',
        5 => '5',
        6 => '6',
        7 => '7',
        8 => '8',
        9 => '9',
        10 => 'a',
        11 => 'b',
        12 => 'c',
        13 => 'd',
        14 => 'e',
        _ => 'f',
    }
}

/// The base-`b` digits of `n` (`2 <= b <= 16`).
pub fn render_digits(n: u64, b: u64) -> (s: String)
    requires
        2 <= b <= 16,
    ensures
        s@ == digits(n as nat, b as nat),
{
    let mut rev: Vec<char> = Vec::new();
    let mut m = n;
    // rev holds the low digits, least significant first
    while m >= b
        invariant
            2 <= b <= 16,
            digits(n as nat, b as nat) == digits(m as nat, b as nat) + rev@.reverse(),
        decreases m,
    {
        let d = m % b;
        rev.push(digit(d));
        assert(digits(m as nat, b as nat) == digits((m / b) as nat, b as nat).push(digit_char((m % b) as nat)));
        assert(rev@.reverse() =~= seq![digit_char((m % b) as nat)] + rev@.drop_last().reverse());
        m = m / b;
    }
    rev.push(digit(m));
    let mut out: Vec<char> = Vec::new();
    let mut i = rev.len();
    while i > 0
        invariant
            i <= rev@.len(),
            out@ == rev@.subrange(i as int, rev@.len() as int).reverse(),
        decreases i,
    {
        i -= 1;
        out.push(rev[i]);
        assert(out@ =~= rev@.subrange(i as int, rev@.len() as int).reverse());
    }
    assert(out@ =~= digits(n as nat, b as nat));
    string_from_chars(&out)
}

/// `n` in decimal.
pub fn decimal_string(n: u64) -> (s: String)
    ensures
        s@ == decimal(n as nat),
{
    render_digits(n, 10)
}

} // verus!

verus! {

/// Unicode `White_Space`, as `char::is_whitespace` decides it.
pub open spec fn is_space(c: char) -> bool {
    let u = c as u32;
    (0x09 <= u <= 0x0D) || u == 0x20 || u == 0x85 || u == 0xA0 || u == 0x1680 || (0x2000 <= u
        <= 0x200A) || u == 0x2028 || u == 0x2029 || u == 0x202F || u == 0x205F || u == 0x3000
}

/// Whether `c` is Unicode white space.
pub fn is_whitespace(c: char) -> (r: bool)
    ensures
        r == is_space(c),
{
    let u = c as u32;
    (0x09 <= u && u <= 0x0D) || u == 0x20 || u == 0x85 || u == 0xA0 || u == 0x1680 || (0x2000
        <= u && u <= 0x200A) || u == 0x2028 || u == 0x2029 || u == 0x202F || u == 0x205F || u
        == 0x3000
}

/// Nothing but white space (so `trim` leaves it empty).
pub open spec fn is_blank_text(s: Seq<char>) -> bool {
    forall|i: int| 0 <= i < s.len() ==> is_space(#[trigger] s[i])
}

/// Whether `s` is empty once trimmed.
pub fn is_blank(s: &str) -> (r: bool)
    ensures
        r == is_blank_text(s@),
{
    let cs = chars_of(s);
    let mut i: usize = 0;
    while i < cs.len()
        invariant
            cs@ == s@,
            i <= cs@.len(),
            forall|k: int| 0 <= k < i ==> is_space(#[trigger] s@[k]),
        decreases cs@.len() - i,
    {
        if !is_whitespace(cs[i]) {
            return false;
        }
        i += 1;
    }
    true
}

/// `n` in lower-case hexadecimal with a `0x` prefix (`{:#x}`).
pub fn hex_string(n: u64) -> (s: String)
    ensures
        s@ == hex_prefixed(n as nat),
{
    let mut s = String::from_str("0x");
    let d = render_digits(n, 16);
    s.append(d.as_str());
    proof {
        reveal_strlit("0x");
    }
    assert(s@ =~= hex_prefixed(n as nat));
    s
}

} // verus!

verus! {

/// The non-strict order `str` is sorted by.
pub open spec fn text_order() -> spec_fn(Seq<char>, Seq<char>) -> bool {
    |a: Seq<char>, b: Seq<char>| !text_lt(b, a)
}

/// [`text_order`] is a total order.
pub proof fn lemma_text_order_total()
    ensures
        total_ordering(text_order()),
{
    let le = text_order();
    assert forall|a: Seq<char>| #[trigger] le(a, a) by {
        lemma_text_lt_irreflexive(a);
    }
    assert forall|a: Seq<char>, b: Seq<char>| #[trigger] le(a, b) && #[trigger] le(b, a) implies a
        == b by {
        lemma_text_lt_total(a, b);
    }
    assert forall|a: Seq<char>, b: Seq<char>, c: Seq<char>| #[trigger] le(a, b) && #[trigger] le(
        b,
        c,
    ) implies le(a, c) by {
        lemma_text_lt_total(a, b);
        lemma_text_lt_total(b, c);
        if text_lt(c, a) {
            if a == b {
            } else if b == c {
            } else {
                lemma_text_lt_transitive(a, b, c);
                lemma_text_lt_asymmetric(a, c);
            }
        }
    }
    assert forall|a: Seq<char>, b: Seq<char>| #[trigger] le(a, b) || le(b, a) by {
        lemma_text_lt_total(a, b);
        if text_lt(a, b) {
            lemma_text_lt_asymmetric(a, b);
        }
    }
}

/// Inserting `x` after the elements it does not sort before, and before the first one it does,
/// keeps a sorted sequence sorted.
proof fn lemma_insert_sorted(s: Seq<Seq<char>>, k: int, x: Seq<char>)
    requires
        sorted_by(s, text_order()),
        0 <= k <= s.len(),
        forall|j: int| 0 <= j < k ==> (text_order())(#[trigger] s[j], x),
        k < s.len() ==> text_lt(x, s[k]),
    ensures
        sorted_by(s.insert(k, x), text_order()),
{
    lemma_text_order_total();
    let le = text_order();
    let t = s.insert(k, x);
    assert forall|i: int, j: int| 0 <= i < j < t.len() implies #[trigger] le(t[i], t[j]) by {
        if j < k {
            assert(t[i] == s[i] && t[j] == s[j]);
        } else if j == k {
            assert(t[i] == s[i]);
        } else if i == k {
            assert(t[j] == s[j - 1]);
            lemma_text_lt_asymmetric(x, s[k]);
            assert(le(x, s[k]));
            if j - 1 > k {
                assert(le(s[k], s[j - 1]));
            }
        } else if i < k {
            assert(t[i] == s[i] && t[j] == s[j - 1]);
        } else {
            assert(t[i] == s[i - 1] && t[j] == s[j - 1]);
        }
    }
}

/// The strings of `v`, sorted in `str` order (`Vec::sort` on `String`s).
pub fn sort_strings(v: Vec<String>) -> (r: Vec<String>)
    ensures
        r.deep_view() == v.deep_view().sort_by(text_order()),
{
    let ghost orig = v.deep_view();
    let mut src = v;
    let mut out: Vec<String> = Vec::new();
    proof {
        broadcast use vstd::multiset::group_multiset_axioms;
        broadcast use vstd::seq_lib::group_to_multiset_ensures;

        assert(out.deep_view() =~= Seq::<Seq<char>>::empty());
        assert(out.deep_view().to_multiset().len() == 0);
        assert(out.deep_view().to_multiset() =~= Multiset::empty());
        assert(out.deep_view().to_multiset().add(orig.to_multiset()) =~= orig.to_multiset());
    }
    while src.len() > 0
        invariant
            sorted_by(out.deep_view(), text_order()),
            out.deep_view().to_multiset().add(src.deep_view().to_multiset()) == orig.to_multiset(),
        decreases src@.len(),
    {
        broadcast use vstd::seq_lib::group_to_multiset_ensures;

        let ghost before_src = src.deep_view();
        let x = match src.pop() {
            Some(x) => x,
            None => {
                assert(false);
                return out;
            },
        };
        assert(before_src =~= src.deep_view().push(x@));
        let mut k: usize = 0;
        loop
            invariant
                k <= out@.len(),
                forall|j: int| 0 <= j < k ==> (text_order())(#[trigger] out.deep_view()[j], x@),
            ensures
                k <= out@.len(),
                forall|j: int| 0 <= j < k ==> (text_order())(#[trigger] out.deep_view()[j], x@),
                k < out@.len() ==> text_lt(x@, out@[k as int]@),
            decreases out@.len() - k,
        {
            if k >= out.len() {
                break;
            }
            if compare_text(x.as_str(), out[k].as_str()) < 0 {
                break;
            }
            k += 1;
        }
        let ghost before_out = out.deep_view();
        proof {
            lemma_insert_sorted(before_out, k as int, x@);
        }
        out.insert(k, x);
        assert(out.deep_view() =~= before_out.insert(k as int, x@));
        proof {
            vstd::seq_lib::lemma_multiset_commutative(before_out, seq![x@]);
        }
    }
    proof {
        broadcast use vstd::multiset::group_multiset_axioms;
        broadcast use vstd::seq_lib::group_to_multiset_ensures;

        assert(src.deep_view().to_multiset().len() == 0);
        assert(src.deep_view().to_multiset() =~= Multiset::empty());
        assert(out.deep_view().to_multiset() =~= orig.to_multiset());
        lemma_text_order_total();
        orig.lemma_sort_by_ensures(text_order());
        vstd::seq_lib::lemma_sorted_unique(out.deep_view(), orig.sort_by(text_order()), text_order());
    }
    out
}

} // verus!

verus! {

// ---------------------------------------------------------------------------------------------
// Unsigned decimal integers, as `str::parse` reads them
// ---------------------------------------------------------------------------------------------

/// Why text failed to parse as an unsigned integer.
#[derive(Clone, Copy, Debug, PartialEq, Eq, Structural)]
pub enum IntError {
    /// Nothing to parse.
    Empty,
    /// A character that is not a digit (or a lone sign).
    InvalidDigit,
    /// The value does not fit in the target type.
    PosOverflow,
}

/// The text each kind of failure displays.
pub open spec fn int_error_text(e: IntError) -> Seq<char> {
    match e {
        IntError::Empty => "cannot parse integer from empty string"@,
        IntError::InvalidDigit => "invalid digit found in string"@,
        IntError::PosOverflow => "number too large to fit in target type"@,
    }
}

impl IntError {
    /// The message this failure displays.
    pub fn message(&self) -> (s: &'static str)
        ensures
            s@ == int_error_text(*self),
    {
        match self {
            IntError::Empty => "cannot parse integer from empty string",
            IntError::InvalidDigit => "invalid digit found in string",
            IntError::PosOverflow => "number too large to fit in target type",
        }
    }
}

/// The value of a decimal digit, if `c` is one.
pub open spec fn dec_digit(c: char) -> Option<nat> {
    if '0' <= c && c <= '9' {
        Some((c as nat - '0' as nat) as nat)
    } else {
        None
    }
}

/// The number the decimal digits `s` spell.
pub open spec fn dec_value(s: Seq<char>) -> nat
    decreases s.len(),
{
    if s.len() == 0 {
        0
    } else {
        dec_value(s.drop_last()) * 10 + dec_digit(s.last()).unwrap_or(0)
    }
}

/// The digits of an unsigned integer's text: without a leading `+`.
pub open spec fn unsigned_body(s: Seq<char>) -> Seq<char> {
    if s.len() > 0 && s[0] == '+' {
        s.drop_first()
    } else {
        s
    }
}

/// How the character at `i` stops a left-to-right scan of `d`, if it does: it is no digit, or
/// the value so far exceeds `max`.
pub open spec fn dec_bad_at(d: Seq<char>, i: int, max: nat) -> Option<IntError> {
    if dec_digit(d[i]) is None {
        Some(IntError::InvalidDigit)
    } else if dec_value(d.take(i + 1)) > max {
        Some(IntError::PosOverflow)
    } else {
        None
    }
}

/// The first failure of a left-to-right scan of `d` from position `i`.
pub open spec fn dec_first_failure(d: Seq<char>, i: int, max: nat) -> Option<IntError>
    decreases d.len() - i,
{
    if i < 0 || i >= d.len() {
        None
    } else if dec_bad_at(d, i, max) is Some {
        dec_bad_at(d, i, max)
    } else {
        dec_first_failure(d, i + 1, max)
    }
}

/// Unsigned decimal text read into `0..=max` as `str::parse` does: an optional `+`, then at
/// least one digit and nothing else, the first failing character deciding the error.
pub open spec fn parse_unsigned(s: Seq<char>, max: nat) -> Result<nat, IntError> {
    let d = unsigned_body(s);
    if s.len() == 0 {
        Err(IntError::Empty)
    } else if d.len() == 0 {
        Err(IntError::InvalidDigit)
    } else {
        match dec_first_failure(d, 0, max) {
            Some(e) => Err(e),
            None => Ok(dec_value(d)),
        }
    }
}

proof fn lemma_dec_first_failure_skip(d: Seq<char>, i: int, max: nat)
    requires
        0 <= i <= d.len(),
        forall|j: int| 0 <= j < i ==> dec_bad_at(d, j, max) is None,
    ensures
        dec_first_failure(d, 0, max) == dec_first_failure(d, i, max),
    decreases i,
{
    if i > 0 {
        lemma_dec_first_failure_skip(d, i - 1, max);
    }
}

/// Read unsigned decimal text into `0..=max`, the way `str::parse` reads an unsigned integer
/// type whose largest value is `max`.
pub fn parse_decimal(s: &str, max: u64) -> (r: Result<u64, IntError>)
    ensures
        match r {
            Ok(v) => parse_unsigned(s@, max as nat) == Ok::<nat, IntError>(v as nat),
            Err(e) => parse_unsigned(s@, max as nat) == Err::<nat, IntError>(e),
        },
{
    let cs = chars_of(s);
    if cs.len() == 0 {
        return Err(IntError::Empty);
    }
    let start: usize = if cs[0] == '+' {
        1
    } else {
        0
    };
    let ghost d = unsigned_body(s@);
    assert(d =~= cs@.subrange(start as int, cs@.len() as int));
    if start >= cs.len() {
        return Err(IntError::InvalidDigit);
    }
    let mut acc: u64 = 0;
    let mut i: usize = start;
    while i < cs.len()
        invariant
            start <= i <= cs@.len(),
            cs@ == s@,
            s@.len() > 0,
            d == cs@.subrange(start as int, cs@.len() as int),
            d == unsigned_body(s@),
            d.len() > 0,
            acc as nat == dec_value(d.take(i - start)),
            acc <= max,
            forall|j: int| 0 <= j < i - start ==> dec_bad_at(d, j, max as nat) is None,
        decreases cs@.len() - i,
    {
        let ghost k = i - start;
        assert(d.take(k + 1).drop_last() =~= d.take(k));
        assert(d.take(k + 1).last() == cs@[i as int]);
        assert(d[k] == cs@[i as int]);
        let c = cs[i];
        if !('0' <= c && c <= '9') {
            proof {
                lemma_dec_first_failure_skip(d, k, max as nat);
            }
            return Err(IntError::InvalidDigit);
        }
        let v: u64 = (c as u32 - '0' as u32) as u64;
        let next: u128 = acc as u128 * 10 + v as u128;
        if next > max as u128 {
            proof {
                lemma_dec_first_failure_skip(d, k, max as nat);
            }
            return Err(IntError::PosOverflow);
        }
        acc = next as u64;
        i += 1;
    }
    assert(d.take(d.len() as int) =~= d);
    proof {
        lemma_dec_first_failure_skip(d, d.len() as int, max as nat);
    }
    Ok(acc)
}

proof fn lemma_dec_value_grows(s: Seq<char>, k: int)
    requires
        0 <= k <= s.len(),
    ensures
        dec_value(s) >= dec_value(s.take(k)),
    decreases s.len(),
{
    if k < s.len() {
        lemma_dec_value_grows(s.drop_last(), k);
        assert(s.drop_last().take(k) =~= s.take(k));
    } else {
        assert(s.take(k) =~= s);
    }
}

pub(crate) proof fn lemma_decimal_digits(n: nat)
    ensures
        forall|i: int| 0 <= i < decimal(n).len() ==> #[trigger] dec_digit(decimal(n)[i]) is Some,
        dec_value(decimal(n)) == n,
        decimal(n).len() > 0,
        decimal(n)[0] != '+',
    decreases n,
{
    let d = decimal(n);
    if n < 10 {
        assert(d == seq![digit_char(n)]);
        assert(d.drop_last() =~= Seq::<char>::empty());
        assert(dec_digit(digit_char(n)) == Some(n));
        assert(dec_value(d) == dec_value(d.drop_last()) * 10 + n);
    } else {
        let q = n / 10;
        let r = n % 10;
        lemma_decimal_digits(q);
        let dq = decimal(q);
        assert(d == dq.push(digit_char(r)));
        assert(d.drop_last() =~= dq);
        assert(dec_digit(digit_char(r)) == Some(r));
        assert forall|i: int| 0 <= i < d.len() implies #[trigger] dec_digit(d[i]) is Some by {
            if i < dq.len() {
                assert(d[i] == dq[i]);
            }
        }
        assert(d[0] == dq[0]);
        assert(n == q * 10 + r) by (nonlinear_arith)
            requires
                q == n / 10,
                r == n % 10,
        ;
        assert(dec_value(d) == dec_value(dq) * 10 + r);
    }
}

/// A number written in decimal reads back as itself: for every `n` within the limit, parsing
/// `decimal(n)` gives `n`.
pub proof fn law_decimal_round_trip(n: nat, max: nat)
    requires
        n <= max,
    ensures
        parse_unsigned(decimal(n), max) == Ok::<nat, IntError>(n),
{
    let d = decimal(n);
    lemma_decimal_digits(n);
    assert(unsigned_body(d) == d);
    assert forall|j: int| 0 <= j < d.len() implies dec_bad_at(d, j, max) is None by {
        lemma_dec_value_grows(d, j + 1);
    }
    lemma_dec_first_failure_skip(d, d.len() as int, max);
}

} // verus!
