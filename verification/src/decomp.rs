//! The decompilation leg of the A/B: the `decompile` verb's output against the raw engine's own
//! decompiler dump. Both legs reduce to a list of [`DecompFunction`] keyed by entry address, and
//! the decompiled C must match byte for byte.
//!
//! The dump's text format: a `## LANGUAGE` header, then per function
//! `==== FUNCTION <addr> <name> ====`, `PROTO …`, `CCONV …`, `---- DECOMP ----`, the C verbatim,
//! `---- ASM+PCODE ----`, the listing. Only the fields the `decompile` verb carries are compared
//! (name, prototype, calling convention, the C, the failure message).

use std::collections::BTreeMap;

use vstd::prelude::*;
use vstd::string::*;

use crate::abtest::{
    absent_from, addr_lt, field_row, hex_error, hex_error_text, in_order, insert_addr,
    lemma_addr_lt_strict, lemma_in_order_is, lists_in_order, parse_hex, parse_hex_u64,
    FieldMismatch, MismatchRow,
};
use crate::render::{debug_escaped, debug_quoted};
use crate::text::{chars_of, is_space, is_whitespace, string_from_chars};

verus! {

// ---------------------------------------------------------------------------------------------
// Text primitives on character sequences
// ---------------------------------------------------------------------------------------------

/// `s` begins with `p`.
pub open spec fn starts_with(s: Seq<char>, p: Seq<char>) -> bool {
    p.len() <= s.len() && s.take(p.len() as int) == p
}

/// `s` ends with `p`.
pub open spec fn ends_with(s: Seq<char>, p: Seq<char>) -> bool {
    p.len() <= s.len() && s.skip(s.len() - p.len()) == p
}

/// Index of the first `c` in `s`, or `-1`.
pub open spec fn first_index(s: Seq<char>, c: char) -> int
    decreases s.len(),
{
    if s.len() == 0 {
        -1
    } else if s[0] == c {
        0
    } else {
        let r = first_index(s.drop_first(), c);
        if r < 0 {
            -1
        } else {
            r + 1
        }
    }
}

proof fn lemma_first_index(s: Seq<char>, c: char, k: int)
    requires
        -1 <= k <= s.len(),
        forall|j: int| 0 <= j < s.len() && (k < 0 || j < k) ==> s[j] != c,
        0 <= k < s.len() ==> s[k] == c,
        k == s.len() ==> false,
    ensures
        first_index(s, c) == k,
    decreases s.len(),
{
    if s.len() > 0 && s[0] != c {
        let t = s.drop_first();
        assert forall|j: int| 0 <= j < t.len() && (k - 1 < 0 || j < k - 1) implies t[j] != c by {
            assert(t[j] == s[j + 1]);
        }
        if k < 0 {
            lemma_first_index(t, c, -1);
        } else {
            lemma_first_index(t, c, k - 1);
        }
    }
}

/// `s` without its leading white space.
pub open spec fn trim_start(s: Seq<char>) -> Seq<char>
    decreases s.len(),
{
    if s.len() > 0 && is_space(s[0]) {
        trim_start(s.drop_first())
    } else {
        s
    }
}

/// `s` without its trailing white space.
pub open spec fn trim_end(s: Seq<char>) -> Seq<char>
    decreases s.len(),
{
    if s.len() > 0 && is_space(s.last()) {
        trim_end(s.drop_last())
    } else {
        s
    }
}

/// `str::trim`: `s` without leading and trailing white space.
pub open spec fn trimmed(s: Seq<char>) -> Seq<char> {
    trim_end(trim_start(s))
}

/// The text after the last `c` in `s` (all of `s` when it has none).
pub open spec fn after_last(s: Seq<char>, c: char) -> Seq<char>
    decreases s.len(),
{
    if s.len() == 0 {
        s
    } else if s.last() == c {
        Seq::empty()
    } else {
        after_last(s.drop_last(), c).push(s.last())
    }
}

/// The text before the first occurrence of `sep` in `s` (all of `s` when it has none).
pub open spec fn before_first(s: Seq<char>, sep: Seq<char>) -> Seq<char>
    decreases s.len(),
{
    if s.len() == 0 || starts_with(s, sep) {
        Seq::empty()
    } else {
        seq![s[0]] + before_first(s.drop_first(), sep)
    }
}

/// The characters of `s` from `lo` to the end.
pub(crate) fn skip_chars(s: &Vec<char>, lo: usize) -> (r: Vec<char>)
    requires
        lo <= s@.len(),
    ensures
        r@ == s@.skip(lo as int),
{
    let mut out: Vec<char> = Vec::new();
    let mut i: usize = lo;
    while i < s.len()
        invariant
            lo <= i <= s@.len(),
            out@ == s@.subrange(lo as int, i as int),
        decreases s@.len() - i,
    {
        out.push(s[i]);
        assert(out@ =~= s@.subrange(lo as int, i + 1));
        i += 1;
    }
    assert(out@ =~= s@.skip(lo as int));
    out
}

/// The characters of `s` from `lo` up to `hi`.
pub(crate) fn slice_chars(s: &Vec<char>, lo: usize, hi: usize) -> (r: Vec<char>)
    requires
        lo <= hi <= s@.len(),
    ensures
        r@ == s@.subrange(lo as int, hi as int),
{
    let mut out: Vec<char> = Vec::new();
    let mut i: usize = lo;
    while i < hi
        invariant
            lo <= i <= hi,
            hi <= s@.len(),
            out@ == s@.subrange(lo as int, i as int),
        decreases hi - i,
    {
        out.push(s[i]);
        assert(out@ =~= s@.subrange(lo as int, i + 1));
        i += 1;
    }
    out
}

/// Whether `s` begins with the characters of `p`.
pub(crate) fn has_prefix(s: &Vec<char>, p: &str) -> (r: bool)
    ensures
        r == starts_with(s@, p@),
{
    let pc = chars_of(p);
    if pc.len() > s.len() {
        return false;
    }
    let mut i: usize = 0;
    while i < pc.len()
        invariant
            i <= pc@.len(),
            pc@ == p@,
            pc@.len() <= s@.len(),
            forall|j: int| 0 <= j < i ==> s@[j] == pc@[j],
        decreases pc@.len() - i,
    {
        if s[i] != pc[i] {
            assert(s@.take(pc@.len() as int)[i as int] != pc@[i as int]);
            return false;
        }
        i += 1;
    }
    assert(s@.take(pc@.len() as int) =~= pc@);
    true
}

/// Whether `s` ends with the characters of `p`.
fn has_suffix(s: &Vec<char>, p: &str) -> (r: bool)
    ensures
        r == ends_with(s@, p@),
{
    let pc = chars_of(p);
    if pc.len() > s.len() {
        return false;
    }
    let off = s.len() - pc.len();
    let mut i: usize = 0;
    while i < pc.len()
        invariant
            i <= pc@.len(),
            pc@ == p@,
            off + pc@.len() == s@.len(),
            off + pc.len() == s.len(),
            forall|j: int| 0 <= j < i ==> s@[off + j] == pc@[j],
        decreases pc@.len() - i,
    {
        assert(off + i < s@.len());
        if s[off + i] != pc[i] {
            assert(s@.skip(off as int)[i as int] != pc@[i as int]);
            return false;
        }
        i += 1;
    }
    assert(s@.skip(off as int) =~= pc@);
    true
}

/// Whether `s` is exactly the characters of `p`.
fn is_text(s: &Vec<char>, p: &str) -> (r: bool)
    ensures
        r == (s@ == p@),
{
    let pc = chars_of(p);
    if pc.len() != s.len() {
        return false;
    }
    let mut i: usize = 0;
    while i < pc.len()
        invariant
            i <= pc@.len(),
            pc@ == p@,
            pc@.len() == s@.len(),
            forall|j: int| 0 <= j < i ==> s@[j] == pc@[j],
        decreases pc@.len() - i,
    {
        if s[i] != pc[i] {
            return false;
        }
        i += 1;
    }
    assert(s@ =~= pc@);
    true
}

/// The index of the first `c` in `s`, if any.
pub(crate) fn find_char(s: &Vec<char>, c: char) -> (r: Option<usize>)
    ensures
        match r {
            Some(k) => first_index(s@, c) == k as int && k < s@.len(),
            None => first_index(s@, c) == -1,
        },
{
    let mut i: usize = 0;
    while i < s.len()
        invariant
            i <= s@.len(),
            forall|j: int| 0 <= j < i ==> s@[j] != c,
        decreases s@.len() - i,
    {
        if s[i] == c {
            proof {
                lemma_first_index(s@, c, i as int);
            }
            return Some(i);
        }
        i += 1;
    }
    proof {
        lemma_first_index(s@, c, -1);
    }
    None
}

proof fn lemma_trim_start_skip(s: Seq<char>, k: int)
    requires
        0 <= k <= s.len(),
        forall|j: int| 0 <= j < k ==> is_space(s[j]),
    ensures
        trim_start(s) == trim_start(s.skip(k)),
    decreases k,
{
    if k > 0 {
        assert(s.drop_first().skip(k - 1) =~= s.skip(k));
        assert forall|j: int| 0 <= j < k - 1 implies is_space(s.drop_first()[j]) by {
            assert(s.drop_first()[j] == s[j + 1]);
        }
        lemma_trim_start_skip(s.drop_first(), k - 1);
    } else {
        assert(s.skip(0) =~= s);
    }
}

proof fn lemma_trim_end_take(s: Seq<char>, k: int)
    requires
        0 <= k <= s.len(),
        forall|j: int| k <= j < s.len() ==> is_space(s[j]),
    ensures
        trim_end(s) == trim_end(s.take(k)),
    decreases s.len() - k,
{
    if k < s.len() {
        assert(s.drop_last().take(k) =~= s.take(k));
        lemma_trim_end_take(s.drop_last(), k);
    } else {
        assert(s.take(k) =~= s);
    }
}

/// `str::trim` on characters.
pub(crate) fn trim_chars(s: &Vec<char>) -> (r: Vec<char>)
    ensures
        r@ == trimmed(s@),
{
    let mut lo: usize = 0;
    while lo < s.len() && is_whitespace(s[lo])
        invariant
            lo <= s@.len(),
            forall|j: int| 0 <= j < lo ==> is_space(s@[j]),
        decreases s@.len() - lo,
    {
        lo += 1;
    }
    proof {
        lemma_trim_start_skip(s@, lo as int);
    }
    let t = skip_chars(s, lo);
    assert(lo == s@.len() || !is_space(t@[0]));
    assert(trim_start(s@) == t@);
    let mut hi: usize = t.len();
    while hi > 0 && is_whitespace(t[hi - 1])
        invariant
            hi <= t@.len(),
            forall|j: int| hi <= j < t@.len() ==> is_space(t@[j]),
        decreases hi,
    {
        hi -= 1;
    }
    proof {
        lemma_trim_end_take(t@, hi as int);
    }
    let r = slice_chars(&t, 0, hi);
    assert(r@ =~= t@.take(hi as int));
    r
}

/// The text after the last `c` in `s`.
fn after_last_char(s: &Vec<char>, c: char) -> (r: Vec<char>)
    ensures
        r@ == after_last(s@, c),
{
    let mut i: usize = s.len();
    assert(s@.take(i as int) =~= s@);
    assert(s@.skip(i as int) =~= Seq::<char>::empty());
    assert(after_last(s@, c) =~= after_last(s@.take(i as int), c) + s@.skip(i as int));
    while i > 0 && s[i - 1] != c
        invariant
            i <= s@.len(),
            after_last(s@, c) == after_last(s@.take(i as int), c) + s@.skip(i as int),
        decreases i,
    {
        let ghost t = s@.take(i as int);
        assert(t.drop_last() =~= s@.take(i - 1));
        assert(s@.skip(i - 1) =~= seq![s@[i - 1]] + s@.skip(i as int));
        assert(after_last(t, c) == after_last(t.drop_last(), c).push(s@[i - 1]));
        i -= 1;
    }
    if i > 0 {
        assert(after_last(s@.take(i as int), c) =~= Seq::<char>::empty());
    } else {
        assert(after_last(s@.take(0), c) =~= Seq::<char>::empty());
    }
    let r = skip_chars(s, i);
    assert(r@ =~= after_last(s@, c));
    r
}

/// The text before the first `sep` in `s`.
fn before_first_text(s: &Vec<char>, sep: &str) -> (r: Vec<char>)
    requires
        sep@.len() > 0,
    ensures
        r@ == before_first(s@, sep@),
{
    let mut i: usize = 0;
    let mut out: Vec<char> = Vec::new();
    assert(s@.skip(0) =~= s@);
    assert(out@ + before_first(s@.skip(0), sep@) =~= before_first(s@, sep@));
    while i < s.len()
        invariant
            i <= s@.len(),
            sep@.len() > 0,
            before_first(s@, sep@) == out@ + before_first(s@.skip(i as int), sep@),
        decreases s@.len() - i,
    {
        let rest = skip_chars(s, i);
        if has_prefix(&rest, sep) {
            return out;
        }
        assert(rest@.drop_first() =~= s@.skip(i + 1));
        assert(before_first(rest@, sep@) == seq![rest@[0]] + before_first(rest@.drop_first(), sep@));
        assert(out@.push(s[i as int]) + before_first(s@.skip(i + 1), sep@) =~= out@ + (seq![rest@[0]]
            + before_first(rest@.drop_first(), sep@)));
        out.push(s[i]);
        i += 1;
    }
    assert(s@.skip(i as int).len() == 0);
    assert(out@ + Seq::<char>::empty() =~= out@);
    out
}

// ---------------------------------------------------------------------------------------------
// Lines
// ---------------------------------------------------------------------------------------------

/// A line without the `\r` of a `\r\n` ending.
pub open spec fn chomp_cr(line: Seq<char>) -> Seq<char> {
    if line.len() > 0 && line.last() == '\r' {
        line.drop_last()
    } else {
        line
    }
}

/// `str::lines`: the text split at each `\n`, each line without its `\n` or `\r\n`; a final
/// line without a terminator is kept as it is, and no empty line follows a final `\n`.
pub open spec fn lines_of(s: Seq<char>) -> Seq<Seq<char>>
    decreases s.len(),
{
    if s.len() == 0 {
        Seq::empty()
    } else {
        let k = first_index(s, '\n');
        if k < 0 {
            seq![s]
        } else {
            proof {
                lemma_first_index_range(s, '\n');
            }
            seq![chomp_cr(s.take(k))] + lines_of(s.skip(k + 1))
        }
    }
}

pub proof fn lemma_first_index_range(s: Seq<char>, c: char)
    ensures
        -1 <= first_index(s, c) < s.len(),
        first_index(s, c) >= 0 ==> s[first_index(s, c)] == c,
        first_index(s, c) >= 0 ==> forall|j: int| 0 <= j < first_index(s, c) ==> s[j] != c,
        first_index(s, c) < 0 ==> forall|j: int| 0 <= j < s.len() ==> s[j] != c,
    decreases s.len(),
{
    if s.len() > 0 && s[0] != c {
        lemma_first_index_range(s.drop_first(), c);
        assert forall|j: int| 1 <= j < s.len() implies s[j] == s.drop_first()[j - 1] by {}
    }
}

/// The lines of `s`, each as its characters.
fn split_lines(s: &Vec<char>) -> (r: Vec<Vec<char>>)
    ensures
        r.deep_view() == lines_of(s@),
{
    let mut out: Vec<Vec<char>> = Vec::new();
    let mut cur: Vec<char> = Vec::new();
    let mut start: usize = 0;
    let mut i: usize = 0;
    assert(s@.skip(0) =~= s@);
    while i < s.len()
        invariant
            start <= i <= s@.len(),
            cur@ == s@.subrange(start as int, i as int),
            forall|j: int| start <= j < i ==> s@[j] != '\n',
            out.deep_view() + lines_of(s@.skip(start as int)) == lines_of(s@),
        decreases s@.len() - i,
    {
        if s[i] == '\n' {
            let ghost rest = s@.skip(start as int);
            proof {
                assert forall|j: int| 0 <= j < rest.len() && j < i - start implies rest[j] != '\n' by {
                    assert(rest[j] == s@[start + j]);
                }
                lemma_first_index(rest, '\n', i - start);
                assert(rest.take(i - start) =~= cur@);
                assert(rest.skip(i - start + 1) =~= s@.skip(i + 1));
            }
            let mut line = cur;
            if line.len() > 0 && line[line.len() - 1] == '\r' {
                line.pop();
            }
            assert(line@ == chomp_cr(rest.take(i - start)));
            assert(line.deep_view() =~= line@);
            let ghost before = out.deep_view();
            out.push(line);
            assert(out.deep_view() =~= before.push(chomp_cr(rest.take(i - start))));
            assert(out.deep_view() + lines_of(s@.skip(i + 1)) =~= before + lines_of(rest));
            cur = Vec::new();
            start = i + 1;
        } else {
            cur.push(s[i]);
        }
        i += 1;
        assert(cur@ =~= s@.subrange(start as int, i as int));
    }
    if start < s.len() {
        let ghost rest = s@.skip(start as int);
        proof {
            assert forall|j: int| 0 <= j < rest.len() implies rest[j] != '\n' by {
                assert(rest[j] == s@[start + j]);
            }
            lemma_first_index(rest, '\n', -1);
            assert(cur@ =~= rest);
        }
        let ghost before = out.deep_view();
        assert(cur.deep_view() =~= cur@);
        assert(lines_of(rest) == seq![rest]);
        out.push(cur);
        assert(out.deep_view() =~= before + lines_of(rest));
    } else {
        assert(out.deep_view() =~= out.deep_view() + lines_of(s@.skip(start as int)));
    }
    out
}

// ---------------------------------------------------------------------------------------------
// Addresses
// ---------------------------------------------------------------------------------------------

/// `t` without a leading `0x` or `0X`.
pub open spec fn strip_0x_either(t: Seq<char>) -> Seq<char> {
    if t.len() >= 2 && t[0] == '0' && (t[1] == 'x' || t[1] == 'X') {
        t.skip(2)
    } else {
        t
    }
}

/// The hexadecimal digits of an engine address string: the text after the last `:` (a
/// non-default space prints qualified — `ram:00010500`), trimmed, `0x` optional.
pub open spec fn addr_digits(s: Seq<char>) -> Seq<char> {
    strip_0x_either(after_last(trimmed(s), ':'))
}

/// What parsing an address gives: its offset, or the message that names the bad text.
pub open spec fn addr_parse(s: Seq<char>) -> Result<u64, Seq<char>> {
    match parse_hex(addr_digits(s)) {
        Some(v) => Ok(v),
        None => Err(
            "bad address "@ + debug_escaped(s) + ": "@ + hex_error_text(hex_error(addr_digits(s))),
        ),
    }
}

/// Parse an engine address string to its offset.
pub fn parse_addr(s: &str) -> (r: Result<u64, String>)
    ensures
        match (r, addr_parse(s@)) {
            (Ok(v), Ok(w)) => v == w,
            (Err(m), Err(n)) => m@ == n,
            _ => false,
        },
{
    let cs = chars_of(s);
    let t = trim_chars(&cs);
    let t = after_last_char(&t, ':');
    let digits = if t.len() >= 2 && t[0] == '0' && (t[1] == 'x' || t[1] == 'X') {
        skip_chars(&t, 2)
    } else {
        t
    };
    let text = string_from_chars(&digits);
    match parse_hex_u64(text.as_str()) {
        Ok(v) => Ok(v),
        Err(e) => {
            let mut m = String::from_str("bad address ");
            let q = debug_quoted(s);
            m.append(q.as_str());
            m.append(": ");
            m.append(e.message());
            Err(m)
        },
    }
}

} // verus!

verus! {

// ---------------------------------------------------------------------------------------------
// The two legs and the report
// ---------------------------------------------------------------------------------------------

/// One function's decompilation on either leg. Field names are the `decompile` verb's keys.
#[derive(Debug, Clone, Default, PartialEq, Eq)]
pub struct DecompFunction {
    pub entry: u64,
    pub name: String,
    pub prototype: String,
    pub calling_convention: String,
    /// The decompiler's C text verbatim (empty when `error` is set).
    pub c: String,
    /// The decompiler's failure message; empty on success.
    pub error: String,
}

/// A decompiled function as plain values: entry, name, prototype, calling convention, C, error.
pub type DecompView = (u64, Seq<char>, Seq<char>, Seq<char>, Seq<char>, Seq<char>);

impl DeepView for DecompFunction {
    type V = DecompView;

    open spec fn deep_view(&self) -> DecompView {
        (self.entry, self.name@, self.prototype@, self.calling_convention@, self.c@, self.error@)
    }
}

/// The outside leg: the dumper's header plus its functions.
#[derive(Debug, Clone, Default, PartialEq, Eq)]
pub struct DecompBaseline {
    /// The `## LANGUAGE <id> / <cspec>` header line's `<id>`.
    pub language: String,
    pub functions: Vec<DecompFunction>,
}

/// The parity report for one binary's decompilation. Empty vectors everywhere = parity.
#[derive(Debug, Clone, Default, PartialEq, Eq)]
pub struct DecompReport {
    pub functions_inside: usize,
    pub functions_outside: usize,
    /// Entry addresses the `decompile` verb returned that the raw dump lacks.
    pub only_inside: Vec<u64>,
    /// Entry addresses the raw dump has that the `decompile` verb did not return.
    pub only_outside: Vec<u64>,
    /// Per-field disagreements on functions both legs have.
    pub field_mismatches: Vec<FieldMismatch>,
}

/// Both legs decompiled the same functions to the same text.
pub open spec fn decomp_parity(r: DecompReport) -> bool {
    r.only_inside@.len() == 0 && r.only_outside@.len() == 0 && r.field_mismatches@.len() == 0
}

impl DecompReport {
    /// True only when both legs decompiled the same functions to the same text.
    pub fn is_parity(&self) -> (r: bool)
        ensures
            r == decomp_parity(*self),
    {
        self.only_inside.len() == 0 && self.only_outside.len() == 0
            && self.field_mismatches.len() == 0
    }
}

// ---------------------------------------------------------------------------------------------
// The dump's grammar, line by line
// ---------------------------------------------------------------------------------------------

/// Where in a function block the parser is.
#[derive(Clone, Copy, Debug, PartialEq, Eq, Structural)]
pub enum At {
    Head,
    Decomp,
    Asm,
}

/// The parser's state between lines: the header's language, the finished functions, the
/// function being read with its C lines so far, and the section it is in.
pub struct DumpState {
    pub language: Seq<char>,
    pub functions: Seq<DecompView>,
    pub cur: Option<DecompView>,
    pub c_lines: Seq<Seq<char>>,
    pub at: At,
}

/// The lines of a C section, each re-terminated with `\n`.
pub open spec fn c_text(lines: Seq<Seq<char>>) -> Seq<char>
    decreases lines.len(),
{
    if lines.len() == 0 {
        Seq::empty()
    } else {
        c_text(lines.drop_last()) + lines.last().push('\n')
    }
}

/// `s` without its trailing newlines.
pub open spec fn trim_end_nl(s: Seq<char>) -> Seq<char>
    decreases s.len(),
{
    if s.len() > 0 && s.last() == '\n' {
        trim_end_nl(s.drop_last())
    } else {
        s
    }
}

/// A failed decompilation is one line `<decompile-failed: msg>`: its message.
pub open spec fn failed_message(c: Seq<char>) -> Option<Seq<char>> {
    let t = trim_end_nl(c);
    let p = "<decompile-failed: "@;
    if starts_with(t, p) && t.skip(p.len() as int).len() > 0 && t.last() == '>' && first_index(
        t,
        '\n',
    ) < 0 {
        Some(t.skip(p.len() as int).drop_last())
    } else {
        None
    }
}

/// Close the function being read, if any: its C is its section's lines, unless the section is
/// a failure line, whose message becomes the error.
pub open spec fn finish(st: DumpState) -> DumpState {
    match st.cur {
        None => st,
        Some(f) => {
            let c = c_text(st.c_lines);
            let done = match failed_message(c) {
                Some(m) => (f.0, f.1, f.2, f.3, Seq::empty(), m),
                None => (f.0, f.1, f.2, f.3, c, f.5),
            };
            DumpState {
                functions: st.functions.push(done),
                cur: None,
                c_lines: Seq::empty(),
                ..st
            }
        },
    }
}

/// The message for a function header that does not parse.
pub open spec fn header_error(line: Seq<char>) -> Seq<char> {
    "malformed function header: "@ + debug_escaped(line)
}

/// Read a `==== FUNCTION <addr> <name> ====` header (`line` starts with the marker).
pub open spec fn header_step(st: DumpState, line: Seq<char>) -> Result<DumpState, Seq<char>> {
    let st1 = finish(st);
    let rest = line.skip("==== FUNCTION "@.len() as int);
    let tail = " ===="@;
    if !ends_with(rest, tail) {
        Err(header_error(line))
    } else {
        let body = rest.take(rest.len() - tail.len());
        let k = first_index(body, ' ');
        if k < 0 {
            Err(header_error(line))
        } else {
            match addr_parse(body.take(k)) {
                Err(m) => Err(m),
                Ok(v) => Ok(
                    DumpState {
                        cur: Some(
                            (v, body.skip(k + 1), Seq::empty(), Seq::empty(), Seq::empty(), Seq::empty()),
                        ),
                        at: At::Head,
                        ..st1
                    },
                ),
            }
        }
    }
}

/// Read one line of the dump.
pub open spec fn step(st: DumpState, line: Seq<char>) -> Result<DumpState, Seq<char>> {
    if starts_with(line, "==== FUNCTION "@) {
        header_step(st, line)
    } else {
        match st.cur {
            None => if starts_with(line, "## LANGUAGE "@) {
                Ok(
                    DumpState {
                        language: trimmed(
                            before_first(line.skip("## LANGUAGE "@.len() as int), " / "@),
                        ),
                        ..st
                    },
                )
            } else {
                Ok(st)
            },
            Some(f) => match st.at {
                At::Head => if starts_with(line, "PROTO "@) {
                    Ok(
                        DumpState {
                            cur: Some((f.0, f.1, line.skip("PROTO "@.len() as int), f.3, f.4, f.5)),
                            ..st
                        },
                    )
                } else if starts_with(line, "CCONV "@) {
                    Ok(
                        DumpState {
                            cur: Some((f.0, f.1, f.2, line.skip("CCONV "@.len() as int), f.4, f.5)),
                            ..st
                        },
                    )
                } else if line == "---- DECOMP ----"@ {
                    Ok(DumpState { at: At::Decomp, ..st })
                } else {
                    Ok(st)
                },
                At::Decomp => if line == "---- ASM+PCODE ----"@ {
                    Ok(DumpState { at: At::Asm, ..st })
                } else {
                    Ok(DumpState { c_lines: st.c_lines.push(line), ..st })
                },
                At::Asm => Ok(st),
            },
        }
    }
}

/// Read lines in order, stopping at the first error.
pub open spec fn run_lines(st: DumpState, lines: Seq<Seq<char>>) -> Result<DumpState, Seq<char>>
    decreases lines.len(),
{
    if lines.len() == 0 {
        Ok(st)
    } else {
        match run_lines(st, lines.drop_last()) {
            Err(e) => Err(e),
            Ok(s1) => step(s1, lines.last()),
        }
    }
}

/// The parser's starting state.
pub open spec fn initial_state() -> DumpState {
    DumpState {
        language: Seq::empty(),
        functions: Seq::empty(),
        cur: None,
        c_lines: Seq::empty(),
        at: At::Asm,
    }
}

/// What the dump `text` holds: its language and functions, or the first error.
pub open spec fn baseline_of(text: Seq<char>) -> Result<(Seq<char>, Seq<DecompView>), Seq<char>> {
    match run_lines(initial_state(), lines_of(text)) {
        Err(e) => Err(e),
        Ok(st) => {
            let fin = finish(st);
            Ok((fin.language, fin.functions))
        },
    }
}

} // verus!

verus! {

/// The dump parser's running state.
struct Parser {
    language: String,
    functions: Vec<DecompFunction>,
    cur: Option<DecompFunction>,
    c_lines: Vec<Vec<char>>,
    at: At,
}

impl Parser {
    spec fn state(&self) -> DumpState {
        DumpState {
            language: self.language@,
            functions: self.functions.deep_view(),
            cur: self.cur.deep_view(),
            c_lines: self.c_lines.deep_view(),
            at: self.at,
        }
    }

    /// Close the function being read, if any.
    fn finish(&mut self)
        ensures
            final(self).state() == finish(old(self).state()),
    {
        match self.cur.take() {
            None => {},
            Some(f) => {
                let mut c: Vec<char> = Vec::new();
                let mut i: usize = 0;
                while i < self.c_lines.len()
                    invariant
                        i <= self.c_lines@.len(),
                        c@ == c_text(self.c_lines.deep_view().take(i as int)),
                    decreases self.c_lines@.len() - i,
                {
                    let ghost t = self.c_lines.deep_view().take(i + 1);
                    assert(t.drop_last() =~= self.c_lines.deep_view().take(i as int));
                    assert(t.last() == self.c_lines@[i as int]@);
                    let l = &self.c_lines[i];
                    let mut j: usize = 0;
                    let ghost c0 = c@;
                    while j < l.len()
                        invariant
                            j <= l@.len(),
                            c@ == c0 + l@.take(j as int),
                        decreases l@.len() - j,
                    {
                        c.push(l[j]);
                        assert(c@ =~= c0 + l@.take(j + 1));
                        j += 1;
                    }
                    c.push('\n');
                    assert(c@ =~= c0 + l@.push('\n'));
                    i += 1;
                }
                assert(self.c_lines.deep_view().take(self.c_lines@.len() as int) =~= self.c_lines.deep_view());
                let done = match failure_of(&c) {
                    Some(m) => DecompFunction {
                        entry: f.entry,
                        name: f.name,
                        prototype: f.prototype,
                        calling_convention: f.calling_convention,
                        c: String::new(),
                        error: string_from_chars(&m),
                    },
                    None => DecompFunction {
                        entry: f.entry,
                        name: f.name,
                        prototype: f.prototype,
                        calling_convention: f.calling_convention,
                        c: string_from_chars(&c),
                        error: f.error,
                    },
                };
                let ghost before = self.functions.deep_view();
                self.functions.push(done);
                assert(self.functions.deep_view() =~= before.push(done.deep_view()));
                self.c_lines = Vec::new();
                assert(self.c_lines.deep_view() =~= Seq::<Seq<char>>::empty());
            },
        }
    }

    /// Read one line of the dump.
    fn step(&mut self, line: &Vec<char>) -> (r: Result<(), String>)
        ensures
            match step(old(self).state(), line@) {
                Ok(st) => r is Ok && final(self).state() == st,
                Err(e) => r matches Err(m) && m@ == e,
            },
    {
        if has_prefix(line, "==== FUNCTION ") {
            return self.header(line);
        }
        if self.cur.is_none() {
            if has_prefix(line, "## LANGUAGE ") {
                let n = chars_of("## LANGUAGE ").len();
                let rest = skip_chars(line, n);
                proof {
                    reveal_strlit(" / ");
                }
                let first = before_first_text(&rest, " / ");
                let lang = trim_chars(&first);
                self.language = string_from_chars(&lang);
            }
            return Ok(());
        }
        match self.at {
            At::Head => {
                if has_prefix(line, "PROTO ") {
                    let n = chars_of("PROTO ").len();
                    let v = string_from_chars(&skip_chars(line, n));
                    match self.cur.take() {
                        Some(f) => {
                            self.cur = Some(DecompFunction { prototype: v, ..f });
                        },
                        None => {},
                    }
                } else if has_prefix(line, "CCONV ") {
                    let n = chars_of("CCONV ").len();
                    let v = string_from_chars(&skip_chars(line, n));
                    match self.cur.take() {
                        Some(f) => {
                            self.cur = Some(DecompFunction { calling_convention: v, ..f });
                        },
                        None => {},
                    }
                } else if is_text(line, "---- DECOMP ----") {
                    self.at = At::Decomp;
                }
            },
            At::Decomp => {
                if is_text(line, "---- ASM+PCODE ----") {
                    self.at = At::Asm;
                } else {
                    let l = crate::model::copy_vec(line);
                    let ghost before = self.c_lines.deep_view();
                    self.c_lines.push(l);
                    assert(l.deep_view() =~= line@);
                    assert(self.c_lines.deep_view() =~= before.push(line@));
                }
            },
            At::Asm => {},
        }
        Ok(())
    }

    /// Read a function header line.
    fn header(&mut self, line: &Vec<char>) -> (r: Result<(), String>)
        requires
            starts_with(line@, "==== FUNCTION "@),
        ensures
            match header_step(old(self).state(), line@) {
                Ok(st) => r is Ok && final(self).state() == st,
                Err(e) => r matches Err(m) && m@ == e,
            },
    {
        self.finish();
        let n = chars_of("==== FUNCTION ").len();
        let rest = skip_chars(line, n);
        if !has_suffix(&rest, " ====") {
            return Err(header_message(line));
        }
        let t = chars_of(" ====").len();
        let body = slice_chars(&rest, 0, rest.len() - t);
        assert(body@ =~= rest@.take(rest@.len() - t));
        match find_char(&body, ' ') {
            None => Err(header_message(line)),
            Some(k) => {
                let addr = string_from_chars(&slice_chars(&body, 0, k));
                assert(addr@ =~= body@.take(k as int));
                match parse_addr(addr.as_str()) {
                    Err(m) => Err(m),
                    Ok(v) => {
                        let name = string_from_chars(&skip_chars(&body, k + 1));
                        self.cur = Some(
                            DecompFunction {
                                entry: v,
                                name,
                                prototype: String::new(),
                                calling_convention: String::new(),
                                c: String::new(),
                                error: String::new(),
                            },
                        );
                        self.at = At::Head;
                        Ok(())
                    },
                }
            },
        }
    }
}

/// The message for a malformed function header.
fn header_message(line: &Vec<char>) -> (r: String)
    ensures
        r@ == header_error(line@),
{
    let mut m = String::from_str("malformed function header: ");
    let text = string_from_chars(line);
    let q = debug_quoted(text.as_str());
    m.append(q.as_str());
    m
}

/// The message of a failed decompilation, if the C section is one.
fn failure_of(c: &Vec<char>) -> (r: Option<Vec<char>>)
    ensures
        match (r, failed_message(c@)) {
            (Some(m), Some(n)) => m@ == n,
            (None, None) => true,
            _ => false,
        },
{
    let mut hi: usize = c.len();
    assert(c@.take(hi as int) =~= c@);
    while hi > 0 && c[hi - 1] == '\n'
        invariant
            hi <= c@.len(),
            trim_end_nl(c@) == trim_end_nl(c@.take(hi as int)),
        decreases hi,
    {
        assert(c@.take(hi as int).drop_last() =~= c@.take(hi - 1));
        hi -= 1;
    }
    let t = slice_chars(c, 0, hi);
    assert(t@ =~= c@.take(hi as int));
    assert(trim_end_nl(c@) == t@);
    if !has_prefix(&t, "<decompile-failed: ") {
        return None;
    }
    let n = chars_of("<decompile-failed: ").len();
    let rest = skip_chars(&t, n);
    if rest.len() == 0 || rest[rest.len() - 1] != '>' {
        return None;
    }
    if find_char(&t, '\n').is_some() {
        return None;
    }
    let m = slice_chars(&rest, 0, rest.len() - 1);
    assert(m@ =~= rest@.drop_last());
    Some(m)
}

/// Parse the outside leg — the decompiler dump text. The C section is reconstructed byte for
/// byte: its lines, each re-terminated, are the C verbatim.
pub fn parse_baseline(text: &str) -> (r: Result<DecompBaseline, String>)
    ensures
        match (r, baseline_of(text@)) {
            (Ok(b), Ok(v)) => b.language@ == v.0 && b.functions.deep_view() == v.1,
            (Err(m), Err(e)) => m@ == e,
            _ => false,
        },
{
    let cs = chars_of(text);
    let lines = split_lines(&cs);
    let mut p = Parser {
        language: String::new(),
        functions: Vec::new(),
        cur: None,
        c_lines: Vec::new(),
        at: At::Asm,
    };
    assert(p.functions.deep_view() =~= Seq::<DecompView>::empty());
    assert(p.c_lines.deep_view() =~= Seq::<Seq<char>>::empty());
    assert(p.language@ =~= Seq::<char>::empty());
    assert(p.state() == initial_state());
    let mut i: usize = 0;
    while i < lines.len()
        invariant
            i <= lines@.len(),
            lines.deep_view() == lines_of(text@),
            run_lines(initial_state(), lines.deep_view().take(i as int)) == Ok::<DumpState, Seq<char>>(p.state()),
        decreases lines@.len() - i,
    {
        let ghost t = lines.deep_view().take(i + 1);
        assert(t.drop_last() =~= lines.deep_view().take(i as int));
        assert(t.last() == lines@[i as int]@) by {
            assert(lines@[i as int].deep_view() =~= lines@[i as int]@);
        }
        match p.step(&lines[i]) {
            Ok(()) => {},
            Err(m) => {
                proof {
                    lemma_run_lines_err(initial_state(), lines.deep_view(), i + 1);
                }
                return Err(m);
            },
        }
        i += 1;
    }
    assert(lines.deep_view().take(lines@.len() as int) =~= lines.deep_view());
    p.finish();
    Ok(DecompBaseline { language: p.language, functions: p.functions })
}

/// An error on a prefix of the lines is the error of the whole.
proof fn lemma_run_lines_err(st: DumpState, lines: Seq<Seq<char>>, k: int)
    requires
        0 <= k <= lines.len(),
        run_lines(st, lines.take(k)) is Err,
    ensures
        run_lines(st, lines) == run_lines(st, lines.take(k)),
    decreases lines.len() - k,
{
    if k < lines.len() {
        assert(lines.take(k + 1).drop_last() =~= lines.take(k));
        lemma_run_lines_err(st, lines, k + 1);
    } else {
        assert(lines.take(k) =~= lines);
    }
}

} // verus!

verus! {

// ---------------------------------------------------------------------------------------------
// Comparing the legs
// ---------------------------------------------------------------------------------------------

/// The entry addresses of a list of functions.
pub open spec fn entries(fs: Seq<DecompFunction>) -> Set<u64> {
    Set::new(|a: u64| exists|i: int| 0 <= i < fs.len() && fs[i].entry == a)
}

/// Index of the last function of `fs` at entry `a` (a later duplicate wins), or `-1`.
pub open spec fn last_entry(fs: Seq<DecompFunction>, a: u64) -> int
    decreases fs.len(),
{
    if fs.len() == 0 {
        -1
    } else if fs.last().entry == a {
        fs.len() - 1
    } else {
        last_entry(fs.drop_last(), a)
    }
}

/// The function a leg has at entry `a`.
pub open spec fn at_entry(fs: Seq<DecompFunction>, a: u64) -> DecompFunction {
    fs[last_entry(fs, a)]
}

/// The row for one text field: present exactly when the two texts differ, showing them raw.
pub open spec fn text_row(addr: u64, name: Seq<char>, field: Seq<char>, a: Seq<char>, b: Seq<char>) -> Seq<
    MismatchRow,
> {
    field_row(addr, name, field, a != b, a, b)
}

/// `acc` followed by a row for each field on which `x` and `y` disagree.
pub open spec fn add_decomp_mismatches(
    acc: Seq<MismatchRow>,
    addr: u64,
    x: DecompFunction,
    y: DecompFunction,
) -> Seq<MismatchRow> {
    let n = x.name@;
    acc + text_row(addr, n, "name"@, x.name@, y.name@) + text_row(
        addr,
        n,
        "prototype"@,
        x.prototype@,
        y.prototype@,
    ) + text_row(addr, n, "calling_convention"@, x.calling_convention@, y.calling_convention@)
        + text_row(addr, n, "c"@, x.c@, y.c@) + text_row(addr, n, "error"@, x.error@, y.error@)
}

/// The mismatch rows of the entries of `keys` both legs have, in order.
pub open spec fn decomp_rows(
    keys: Seq<u64>,
    xs: Seq<DecompFunction>,
    ys: Seq<DecompFunction>,
) -> Seq<MismatchRow>
    decreases keys.len(),
{
    if keys.len() == 0 {
        Seq::empty()
    } else {
        let r = decomp_rows(keys.drop_last(), xs, ys);
        let k = keys.last();
        if entries(ys).contains(k) {
            add_decomp_mismatches(r, k, at_entry(xs, k), at_entry(ys, k))
        } else {
            r
        }
    }
}

/// The entry addresses of a leg, increasing.
pub open spec fn entry_keys(fs: Seq<DecompFunction>) -> Seq<u64> {
    in_order(entries(fs), addr_lt())
}

proof fn lemma_last_entry(fs: Seq<DecompFunction>, a: u64)
    ensures
        -1 <= last_entry(fs, a) < fs.len(),
        last_entry(fs, a) >= 0 ==> fs[last_entry(fs, a)].entry == a,
        last_entry(fs, a) < 0 ==> !entries(fs).contains(a),
    decreases fs.len(),
{
    if fs.len() > 0 {
        lemma_last_entry(fs.drop_last(), a);
        if last_entry(fs, a) < 0 {
            assert forall|i: int| 0 <= i < fs.len() implies fs[i].entry != a by {
                if i < fs.len() - 1 {
                    assert(fs.drop_last()[i] == fs[i]);
                    assert(!entries(fs.drop_last()).contains(a));
                }
            }
        }
    }
}

/// The index of the function a leg has at entry `a`, if any.
fn find_entry(fs: &[DecompFunction], a: u64) -> (r: Option<usize>)
    ensures
        match r {
            Some(i) => last_entry(fs@, a) == i as int,
            None => last_entry(fs@, a) == -1,
        },
{
    let mut i: usize = fs.len();
    assert(fs@.take(i as int) =~= fs@);
    while i > 0
        invariant
            i <= fs@.len(),
            last_entry(fs@, a) == last_entry(fs@.take(i as int), a),
        decreases i,
    {
        assert(fs@.take(i as int).drop_last() =~= fs@.take(i - 1));
        if fs[i - 1].entry == a {
            return Some(i - 1);
        }
        i -= 1;
    }
    None
}

/// The entries of a leg, each once, increasing.
fn sorted_entries(fs: &[DecompFunction]) -> (r: Vec<u64>)
    ensures
        lists_in_order(r@, entries(fs@), addr_lt()),
{
    let mut out: Vec<u64> = Vec::new();
    let mut i: usize = 0;
    while i < fs.len()
        invariant
            i <= fs@.len(),
            vstd::relations::sorted_by(out@, addr_lt()),
            out@.to_set() == entries(fs@.take(i as int)),
        decreases fs@.len() - i,
    {
        insert_addr(&mut out, fs[i].entry);
        proof {
            let t0 = fs@.take(i as int);
            let t1 = fs@.take(i + 1);
            assert(out@.to_set() =~= entries(t1)) by {
                assert forall|a: u64| entries(t1).contains(a) implies #[trigger] out@.to_set().contains(a) by {
                    let q = choose|q: int| 0 <= q < t1.len() && t1[q].entry == a;
                    if q < i {
                        assert(t0[q].entry == a);
                    }
                }
                assert forall|a: u64| out@.to_set().contains(a) implies #[trigger] entries(t1).contains(a) by {
                    if a == fs@[i as int].entry {
                        assert(t1[i as int].entry == a);
                    } else {
                        let q = choose|q: int| 0 <= q < t0.len() && t0[q].entry == a;
                        assert(t1[q].entry == a);
                    }
                }
            }
        }
        i += 1;
    }
    assert(fs@.take(fs@.len() as int) =~= fs@);
    out
}

/// Record a mismatch on a text field when the texts differ.
fn push_text_if_ne(out: &mut Vec<FieldMismatch>, addr: u64, name: &String, field: &'static str, a: &String, b: &String)
    ensures
        final(out).deep_view() == old(out).deep_view() + text_row(addr, name@, field@, a@, b@),
{
    let ghost before = out.deep_view();
    if !a.eq(b) {
        let m = FieldMismatch {
            addr,
            name: name.clone(),
            field,
            inside: a.clone(),
            outside: b.clone(),
        };
        out.push(m);
        assert(out.deep_view() =~= before + seq![m.deep_view()]);
    } else {
        assert(out.deep_view() =~= before);
    }
}

/// The two dumps agree at entry `a` on every compared field.
pub open spec fn dumps_agree_at(xs: Seq<DecompFunction>, ys: Seq<DecompFunction>, a: u64) -> bool {
    let x = at_entry(xs, a);
    let y = at_entry(ys, a);
    &&& x.name@ == y.name@
    &&& x.prototype@ == y.prototype@
    &&& x.calling_convention@ == y.calling_convention@
    &&& x.c@ == y.c@
    &&& x.error@ == y.error@
}

/// What parity means of two dumps: the same entries, and the same text of every field at each.
pub open spec fn dumps_agree(xs: Seq<DecompFunction>, ys: Seq<DecompFunction>) -> bool {
    &&& entries(xs) == entries(ys)
    &&& forall|a: u64| entries(xs).contains(a) ==> #[trigger] dumps_agree_at(xs, ys, a)
}

proof fn lemma_no_decomp_rows_agree(keys: Seq<u64>, xs: Seq<DecompFunction>, ys: Seq<DecompFunction>)
    requires
        decomp_rows(keys, xs, ys).len() == 0,
    ensures
        forall|i: int|
            0 <= i < keys.len() && entries(ys).contains(keys[i]) ==> dumps_agree_at(xs, ys, #[trigger] keys[i]),
    decreases keys.len(),
{
    if keys.len() > 0 {
        let r = decomp_rows(keys.drop_last(), xs, ys);
        let k = keys.last();
        if entries(ys).contains(k) {
            let e = Seq::<MismatchRow>::empty();
            let (x, y) = (at_entry(xs, k), at_entry(ys, k));
            assert(add_decomp_mismatches(r, k, x, y) =~= r + add_decomp_mismatches(e, k, x, y));
            assert(r.len() == 0);
            assert(add_decomp_mismatches(e, k, x, y).len() == 0);
        }
        lemma_no_decomp_rows_agree(keys.drop_last(), xs, ys);
        assert forall|i: int|
            0 <= i < keys.len() && entries(ys).contains(keys[i]) implies dumps_agree_at(xs, ys, #[trigger] keys[i]) by {
            if i < keys.len() - 1 {
                assert(keys.drop_last()[i] == keys[i]);
            }
        }
    }
}

proof fn lemma_decomp_parity_agree(r: DecompReport, xs: Seq<DecompFunction>, ys: Seq<DecompFunction>, ka: Seq<u64>, kb: Seq<u64>)
    requires
        decomp_parity(r),
        ka.to_set() == entries(xs),
        kb.to_set() == entries(ys),
        r.only_inside@ == absent_from(ka, entries(ys)),
        r.only_outside@ == absent_from(kb, entries(xs)),
        r.field_mismatches.deep_view() == decomp_rows(ka, xs, ys),
    ensures
        dumps_agree(xs, ys),
{
    crate::abtest::lemma_absent_empty(ka, entries(ys));
    crate::abtest::lemma_absent_empty(kb, entries(xs));
    assert(r.field_mismatches.deep_view().len() == r.field_mismatches@.len());
    lemma_no_decomp_rows_agree(ka, xs, ys);
    assert forall|a: u64| entries(xs).contains(a) implies entries(ys).contains(a) by {
        assert(ka.to_set().contains(a));
        let i = choose|i: int| 0 <= i < ka.len() && ka[i] == a;
        assert(entries(ys).contains(ka[i]));
    }
    assert forall|a: u64| entries(ys).contains(a) implies entries(xs).contains(a) by {
        assert(kb.to_set().contains(a));
        let i = choose|i: int| 0 <= i < kb.len() && kb[i] == a;
        assert(entries(xs).contains(kb[i]));
    }
    assert(entries(xs) =~= entries(ys));
    assert forall|a: u64| entries(xs).contains(a) implies #[trigger] dumps_agree_at(xs, ys, a) by {
        assert(ka.to_set().contains(a));
        let i = choose|i: int| 0 <= i < ka.len() && ka[i] == a;
        assert(entries(ys).contains(ka[i]));
    }
}

proof fn lemma_agree_no_decomp_rows(keys: Seq<u64>, xs: Seq<DecompFunction>, ys: Seq<DecompFunction>)
    requires
        forall|i: int| 0 <= i < keys.len() && entries(ys).contains(keys[i]) ==> dumps_agree_at(xs, ys, #[trigger] keys[i]),
    ensures
        decomp_rows(keys, xs, ys) == Seq::<MismatchRow>::empty(),
    decreases keys.len(),
{
    if keys.len() > 0 {
        assert forall|i: int| 0 <= i < keys.drop_last().len() && entries(ys).contains(keys.drop_last()[i]) implies dumps_agree_at(
            xs,
            ys,
            #[trigger] keys.drop_last()[i],
        ) by {
            assert(keys.drop_last()[i] == keys[i]);
        }
        lemma_agree_no_decomp_rows(keys.drop_last(), xs, ys);
        let k = keys.last();
        if entries(ys).contains(k) {
            assert(dumps_agree_at(xs, ys, keys[keys.len() - 1]));
            let e = Seq::<MismatchRow>::empty();
            assert(add_decomp_mismatches(e, k, at_entry(xs, k), at_entry(ys, k)) =~= e);
        }
    }
}

proof fn lemma_agree_decomp_parity(r: DecompReport, xs: Seq<DecompFunction>, ys: Seq<DecompFunction>, ka: Seq<u64>, kb: Seq<u64>)
    requires
        dumps_agree(xs, ys),
        ka.to_set() == entries(xs),
        kb.to_set() == entries(ys),
        r.only_inside@ == absent_from(ka, entries(ys)),
        r.only_outside@ == absent_from(kb, entries(xs)),
        r.field_mismatches.deep_view() == decomp_rows(ka, xs, ys),
    ensures
        decomp_parity(r),
{
    assert forall|i: int| 0 <= i < ka.len() implies entries(ys).contains(#[trigger] ka[i]) by {
        assert(ka.to_set().contains(ka[i]));
    }
    assert forall|i: int| 0 <= i < kb.len() implies entries(xs).contains(#[trigger] kb[i]) by {
        assert(kb.to_set().contains(kb[i]));
    }
    crate::abtest::lemma_absent_none(ka, entries(ys));
    crate::abtest::lemma_absent_none(kb, entries(xs));
    assert forall|i: int| 0 <= i < ka.len() && entries(ys).contains(ka[i]) implies dumps_agree_at(xs, ys, #[trigger] ka[i]) by {
        assert(ka.to_set().contains(ka[i]));
    }
    lemma_agree_no_decomp_rows(ka, xs, ys);
    assert(r.field_mismatches.deep_view().len() == r.field_mismatches@.len());
}

proof fn lemma_no_decomp_rows(keys: Seq<u64>, xs: Seq<DecompFunction>)
    ensures
        decomp_rows(keys, xs, xs) == Seq::<MismatchRow>::empty(),
    decreases keys.len(),
{
    if keys.len() > 0 {
        lemma_no_decomp_rows(keys.drop_last(), xs);
        let k = keys.last();
        let e = Seq::<MismatchRow>::empty();
        assert(add_decomp_mismatches(e, k, at_entry(xs, k), at_entry(xs, k)) =~= e);
    }
}

proof fn lemma_same_dump_parity(r: DecompReport, xs: Seq<DecompFunction>, ka: Seq<u64>)
    requires
        ka == entry_keys(xs),
        ka.to_set() == entries(xs),
        r.only_inside@ == absent_from(ka, entries(xs)),
        r.only_outside@ == absent_from(ka, entries(xs)),
        r.field_mismatches.deep_view() == decomp_rows(ka, xs, xs),
    ensures
        decomp_parity(r),
{
    assert forall|i: int| 0 <= i < ka.len() implies entries(xs).contains(#[trigger] ka[i]) by {
        assert(ka.to_set().contains(ka[i]));
    }
    crate::abtest::lemma_absent_none(ka, entries(xs));
    lemma_no_decomp_rows(ka, xs);
    assert(r.field_mismatches.deep_view().len() == 0);
    assert(r.field_mismatches@.len() == 0);
}

/// Compare the two legs: the entries only one has, and every field that differs on the entries
/// both have, in address order. Pure: no I/O. The legs are at parity exactly when they hold the
/// same entries with the same text in every field (a dump compared with itself is at parity).
pub fn compare_decomp(inside: &[DecompFunction], outside: &[DecompFunction]) -> (r: DecompReport)
    ensures
        r.functions_inside == inside@.len(),
        r.functions_outside == outside@.len(),
        r.only_inside@ == absent_from(entry_keys(inside@), entries(outside@)),
        r.only_outside@ == absent_from(entry_keys(outside@), entries(inside@)),
        r.field_mismatches.deep_view() == decomp_rows(entry_keys(inside@), inside@, outside@),
        inside@ == outside@ ==> decomp_parity(r),
        decomp_parity(r) <==> dumps_agree(inside@, outside@),
{
    let ka = sorted_entries(inside);
    let kb = sorted_entries(outside);
    proof {
        lemma_addr_lt_strict();
        lemma_in_order_is(ka@, entries(inside@), addr_lt());
        lemma_in_order_is(kb@, entries(outside@), addr_lt());
    }
    let mut only_inside: Vec<u64> = Vec::new();
    let mut field_mismatches: Vec<FieldMismatch> = Vec::new();
    let mut i: usize = 0;
    while i < ka.len()
        invariant
            i <= ka@.len(),
            ka@.to_set() == entries(inside@),
            only_inside@ == absent_from(ka@.take(i as int), entries(outside@)),
            field_mismatches.deep_view() == decomp_rows(ka@.take(i as int), inside@, outside@),
        decreases ka@.len() - i,
    {
        let addr = ka[i];
        assert(ka@.take(i + 1).drop_last() =~= ka@.take(i as int));
        assert(ka@.to_set().contains(addr));
        proof {
            lemma_last_entry(inside@, addr);
            lemma_last_entry(outside@, addr);
        }
        match find_entry(outside, addr) {
            None => {
                only_inside.push(addr);
            },
            Some(j) => {
                proof {
                    assert(entries(outside@).contains(addr));
                }
                match find_entry(inside, addr) {
                    None => {
                        assert(false);
                    },
                    Some(k) => {
                        let x = &inside[k];
                        let y = &outside[j];
                        let m = &mut field_mismatches;
                        push_text_if_ne(m, addr, &x.name, "name", &x.name, &y.name);
                        push_text_if_ne(m, addr, &x.name, "prototype", &x.prototype, &y.prototype);
                        push_text_if_ne(
                            m,
                            addr,
                            &x.name,
                            "calling_convention",
                            &x.calling_convention,
                            &y.calling_convention,
                        );
                        push_text_if_ne(m, addr, &x.name, "c", &x.c, &y.c);
                        push_text_if_ne(m, addr, &x.name, "error", &x.error, &y.error);
                    },
                }
            },
        }
        i += 1;
    }
    assert(ka@.take(ka@.len() as int) =~= ka@);
    let mut only_outside: Vec<u64> = Vec::new();
    let mut t: usize = 0;
    while t < kb.len()
        invariant
            t <= kb@.len(),
            only_outside@ == absent_from(kb@.take(t as int), entries(inside@)),
        decreases kb@.len() - t,
    {
        assert(kb@.take(t + 1).drop_last() =~= kb@.take(t as int));
        proof {
            lemma_last_entry(inside@, kb@[t as int]);
        }
        if find_entry(inside, kb[t]).is_none() {
            only_outside.push(kb[t]);
        } else {
            assert(entries(inside@).contains(kb@[t as int])) by {
                let q = last_entry(inside@, kb@[t as int]);
                assert(inside@[q].entry == kb@[t as int]);
            }
        }
        t += 1;
    }
    assert(kb@.take(kb@.len() as int) =~= kb@);
    let r = DecompReport {
        functions_inside: inside.len(),
        functions_outside: outside.len(),
        only_inside,
        only_outside,
        field_mismatches,
    };
    proof {
        if inside@ == outside@ {
            lemma_same_dump_parity(r, inside@, ka@);
        }
        if decomp_parity(r) {
            lemma_decomp_parity_agree(r, inside@, outside@, ka@, kb@);
        }
        if dumps_agree(inside@, outside@) {
            lemma_agree_decomp_parity(r, inside@, outside@, ka@, kb@);
        }
    }
    r
}

} // verus!

verus! {

/// A function header line the dump cannot read: it starts with the header marker, and its
/// `<addr> <name> ====` remainder is malformed or its address does not parse.
pub open spec fn header_fails(line: Seq<char>) -> bool {
    starts_with(line, "==== FUNCTION "@) && header_step(initial_state(), line) is Err
}

/// The position of the first unreadable header among `lines`, or `-1`.
pub open spec fn first_bad_header(lines: Seq<Seq<char>>) -> int
    decreases lines.len(),
{
    if lines.len() == 0 {
        -1
    } else if first_bad_header(lines.drop_last()) >= 0 {
        first_bad_header(lines.drop_last())
    } else if header_fails(lines.last()) {
        lines.len() - 1
    } else {
        -1
    }
}

proof fn lemma_run_lines_fails(st: DumpState, lines: Seq<Seq<char>>)
    ensures
        -1 <= first_bad_header(lines) < lines.len(),
        first_bad_header(lines) < 0 <==> run_lines(st, lines) is Ok,
        first_bad_header(lines) >= 0 ==> run_lines(st, lines) == header_step(
            initial_state(),
            lines[first_bad_header(lines)],
        ),
        first_bad_header(lines) >= 0 ==> header_fails(lines[first_bad_header(lines)]),
        forall|i: int| 0 <= i < first_bad_header(lines) ==> !header_fails(#[trigger] lines[i]),
        first_bad_header(lines) < 0 ==> forall|i: int| 0 <= i < lines.len() ==> !header_fails(#[trigger] lines[i]),
    decreases lines.len(),
{
    if lines.len() > 0 {
        let d = lines.drop_last();
        let l = lines.last();
        lemma_run_lines_fails(st, d);
        assert forall|i: int| 0 <= i < d.len() implies d[i] == lines[i] by {}
        if first_bad_header(d) < 0 {
            let s1 = run_lines(st, d)->Ok_0;
            if starts_with(l, "==== FUNCTION "@) {
                assert(header_step(s1, l) is Err <==> header_step(initial_state(), l) is Err);
                if header_step(s1, l) is Err {
                    assert(header_step(s1, l) == header_step(initial_state(), l));
                }
            }
            assert(lines[lines.len() - 1] == l);
        }
    }
}

/// A dump fails to read exactly when one of its lines is an unreadable function header, and the
/// error is the first such line's (no other line can fail: unknown lines are skipped).
pub proof fn law_baseline_fails_only_on_a_bad_header(text: Seq<char>)
    ensures
        baseline_of(text) is Err <==> exists|i: int| 0 <= i < lines_of(text).len() && #[trigger] header_fails(lines_of(text)[i]),
        baseline_of(text) is Err ==> ({
            let k = first_bad_header(lines_of(text));
            &&& 0 <= k < lines_of(text).len()
            &&& header_fails(lines_of(text)[k])
            &&& baseline_of(text) matches Err(e) && header_step(initial_state(), lines_of(text)[k]) == Err::<DumpState, Seq<char>>(e)
        }),
{
    let lines = lines_of(text);
    lemma_run_lines_fails(initial_state(), lines);
}

} // verus!
