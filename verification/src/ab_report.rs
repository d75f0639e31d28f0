//! The A/B harness's human-readable reports: what `compare` and `decomp` print for a report —
//! the two legs, the function counts, every difference, and PARITY or DIFFERS.

use vstd::prelude::*;
use vstd::string::*;

use crate::abtest::{parity, FieldMismatch, Report};
use crate::decomp::{DecompReport, decomp_parity};
use crate::render::{debug_escaped, debug_quoted};
use crate::text::{decimal, decimal_string, hex_prefixed, hex_string};

verus! {

/// One line per address, each `label` followed by the address in `0x` hexadecimal.
pub open spec fn addr_lines(label: Seq<char>, addrs: Seq<u64>) -> Seq<Seq<char>> {
    addrs.map_values(|a: u64| label + hex_prefixed(a as nat))
}

/// A field mismatch as `compare` prints it: address, name, field, both renderings.
pub open spec fn field_line(m: (u64, Seq<char>, Seq<char>, Seq<char>, Seq<char>)) -> Seq<char> {
    "  "@ + hex_prefixed(m.0 as nat) + " "@ + m.1 + " ."@ + m.2 + ": inside "@ + m.3 + " | outside "@ + m.4
}

/// A field mismatch as `decomp` prints it: address, name, field.
pub open spec fn differs_line(m: (u64, Seq<char>, Seq<char>, Seq<char>, Seq<char>)) -> Seq<char> {
    "  "@ + hex_prefixed(m.0 as nat) + " "@ + m.1 + " ."@ + m.2 + ": differs"@
}

/// A field mismatch as `compare` (`full`) or `decomp` prints it.
pub open spec fn mismatch_line(m: (u64, Seq<char>, Seq<char>, Seq<char>, Seq<char>), full: bool) -> Seq<char> {
    if full {
        field_line(m)
    } else {
        differs_line(m)
    }
}

/// The field mismatches as `compare` (`full`) or `decomp` prints them.
pub open spec fn mismatch_lines(ms: Seq<(u64, Seq<char>, Seq<char>, Seq<char>, Seq<char>)>, full: bool) -> Seq<Seq<char>> {
    ms.map_values(|m: (u64, Seq<char>, Seq<char>, Seq<char>, Seq<char>)| mismatch_line(m, full))
}

/// The closing line: PARITY or DIFFERS.
pub open spec fn outcome_line(same: bool) -> Seq<char> {
    "  result: "@ + if same {
        "PARITY"@
    } else {
        "DIFFERS"@
    }
}

/// The header and function-count lines both reports open with.
pub open spec fn opening(title: Seq<char>, inside: Seq<char>, outside: Seq<char>, ni: nat, no: nat) -> Seq<Seq<char>> {
    seq![
        title + inside + "  vs  "@ + outside,
        "  functions: inside "@ + decimal(ni) + "  outside "@ + decimal(no),
    ]
}

/// The language-mismatch line, when the legs' languages differ.
pub open spec fn language_lines(r: Report) -> Seq<Seq<char>> {
    match r.language_mismatch {
        Some(p) => seq!["  LANGUAGE MISMATCH: inside "@ + debug_escaped(p.0@) + " outside "@ + debug_escaped(p.1@)],
        None => Seq::empty(),
    }
}

/// What `compare` prints for a report of legs `inside` and `outside`.
pub open spec fn compare_lines(inside: Seq<char>, outside: Seq<char>, r: Report) -> Seq<Seq<char>> {
    opening("scylla-abtest: "@, inside, outside, r.functions_inside as nat, r.functions_outside as nat)
        + language_lines(r) + addr_lines("  only inside:  "@, r.only_inside@) + addr_lines("  only outside: "@, r.only_outside@)
        + mismatch_lines(r.field_mismatches.deep_view(), true) + r.projection_mismatches.deep_view().map_values(|p: Seq<char>| "  projection: "@ + p) + seq![
        outcome_line(parity(r)),
    ]
}

/// What `decomp` prints for a report of legs `inside` and `outside`.
pub open spec fn decomp_lines(inside: Seq<char>, outside: Seq<char>, r: DecompReport) -> Seq<Seq<char>> {
    opening("scylla-abtest decomp: "@, inside, outside, r.functions_inside as nat, r.functions_outside as nat)
        + addr_lines("  only inside:  "@, r.only_inside@) + addr_lines("  only outside: "@, r.only_outside@)
        + mismatch_lines(r.field_mismatches.deep_view(), false) + seq![outcome_line(decomp_parity(r))]
}

fn joined3(a: &str, b: &str, c: &str) -> (r: String)
    ensures
        r@ == a@ + b@ + c@,
{
    let mut s = String::from_str(a);
    s.append(b);
    s.append(c);
    s
}

fn push_opening(out: &mut Vec<String>, title: &str, inside: &str, outside: &str, ni: usize, no: usize)
    ensures
        final(out).deep_view() == old(out).deep_view() + opening(title@, inside@, outside@, ni as nat, no as nat),
{
    let ghost start = out.deep_view();
    let mut h = joined3(title, inside, "  vs  ");
    h.append(outside);
    out.push(h);
    let a = decimal_string(ni as u64);
    let b = decimal_string(no as u64);
    let mut c = joined3("  functions: inside ", a.as_str(), "  outside ");
    c.append(b.as_str());
    out.push(c);
    assert(out.deep_view() =~= start + opening(title@, inside@, outside@, ni as nat, no as nat));
}

fn push_addrs(out: &mut Vec<String>, label: &str, addrs: &Vec<u64>)
    ensures
        final(out).deep_view() == old(out).deep_view() + addr_lines(label@, addrs@),
{
    let ghost start = out.deep_view();
    let mut i: usize = 0;
    while i < addrs.len()
        invariant
            i <= addrs@.len(),
            out.deep_view() == start + addr_lines(label@, addrs@.take(i as int)),
        decreases addrs@.len() - i,
    {
        let h = hex_string(addrs[i]);
        let mut s = String::from_str(label);
        s.append(h.as_str());
        let ghost before = out.deep_view();
        out.push(s);
        assert(addr_lines(label@, addrs@.take(i + 1)) =~= addr_lines(label@, addrs@.take(i as int)).push(
            label@ + hex_prefixed(addrs@[i as int] as nat),
        ));
        assert(out.deep_view() =~= before.push(label@ + hex_prefixed(addrs@[i as int] as nat)));
        i += 1;
    }
    assert(addrs@.take(addrs@.len() as int) =~= addrs@);
}

fn mismatch_text(m: &FieldMismatch, full: bool) -> (r: String)
    ensures
        r@ == (if full {
            field_line(m.deep_view())
        } else {
            differs_line(m.deep_view())
        }),
{
    let h = hex_string(m.addr);
    let mut s = joined3("  ", h.as_str(), " ");
    s.append(m.name.as_str());
    s.append(" .");
    s.append(m.field);
    if full {
        s.append(": inside ");
        s.append(m.inside.as_str());
        s.append(" | outside ");
        s.append(m.outside.as_str());
    } else {
        s.append(": differs");
    }
    s
}

fn push_mismatches(out: &mut Vec<String>, ms: &Vec<FieldMismatch>, full: bool)
    ensures
        final(out).deep_view() == old(out).deep_view() + mismatch_lines(ms.deep_view(), full),
{
    let ghost start = out.deep_view();
    let mut i: usize = 0;
    while i < ms.len()
        invariant
            i <= ms@.len(),
            out.deep_view() == start + mismatch_lines(ms.deep_view().take(i as int), full),
        decreases ms@.len() - i,
    {
        let s = mismatch_text(&ms[i], full);
        let ghost before = out.deep_view();
        out.push(s);
        assert(ms.deep_view()[i as int] == ms@[i as int].deep_view());
        assert(mismatch_lines(ms.deep_view().take(i + 1), full) =~= mismatch_lines(ms.deep_view().take(i as int), full).push(
            mismatch_line(ms.deep_view()[i as int], full),
        ));
        assert(out.deep_view() =~= before.push(mismatch_line(ms.deep_view()[i as int], full)));
        i += 1;
    }
    assert(ms.deep_view().take(ms@.len() as int) =~= ms.deep_view());
}

/// The lines `compare` prints for a report of legs `inside` and `outside`.
pub fn compare_text(inside: &str, outside: &str, r: &Report) -> (lines: Vec<String>)
    ensures
        lines.deep_view() == compare_lines(inside@, outside@, *r),
{
    let mut out: Vec<String> = Vec::new();
    push_opening(&mut out, "scylla-abtest: ", inside, outside, r.functions_inside, r.functions_outside);
    let ghost l0 = out.deep_view();
    if let Some((a, b)) = &r.language_mismatch {
        let qa = debug_quoted(a.as_str());
        let qb = debug_quoted(b.as_str());
        let mut s = joined3("  LANGUAGE MISMATCH: inside ", qa.as_str(), " outside ");
        s.append(qb.as_str());
        out.push(s);
    }
    let ghost lang = language_lines(*r);
    assert(out.deep_view() =~= l0 + lang);
    let ghost l1 = out.deep_view();
    push_addrs(&mut out, "  only inside:  ", &r.only_inside);
    push_addrs(&mut out, "  only outside: ", &r.only_outside);
    let ghost l2 = out.deep_view();
    assert(l2 =~= l0 + lang + addr_lines("  only inside:  "@, r.only_inside@) + addr_lines("  only outside: "@, r.only_outside@));
    push_mismatches(&mut out, &r.field_mismatches, true);
    let ghost l3 = out.deep_view();
    let mut i: usize = 0;
    while i < r.projection_mismatches.len()
        invariant
            i <= r.projection_mismatches@.len(),
            out.deep_view() == l3 + r.projection_mismatches.deep_view().take(i as int).map_values(
                |p: Seq<char>| "  projection: "@ + p,
            ),
        decreases r.projection_mismatches@.len() - i,
    {
        let mut s = String::from_str("  projection: ");
        s.append(r.projection_mismatches[i].as_str());
        let ghost before = out.deep_view();
        out.push(s);
        assert(r.projection_mismatches.deep_view().take(i + 1).map_values(|p: Seq<char>| "  projection: "@ + p)
            =~= r.projection_mismatches.deep_view().take(i as int).map_values(|p: Seq<char>| "  projection: "@ + p).push(
            "  projection: "@ + r.projection_mismatches@[i as int]@,
        ));
        assert(out.deep_view() =~= before.push("  projection: "@ + r.projection_mismatches@[i as int]@));
        i += 1;
    }
    assert(r.projection_mismatches.deep_view().take(r.projection_mismatches@.len() as int)
        =~= r.projection_mismatches.deep_view());
    let v = if r.is_parity() {
        String::from_str("  result: PARITY")
    } else {
        String::from_str("  result: DIFFERS")
    };
    proof {
        reveal_strlit("  result: PARITY");
        reveal_strlit("  result: DIFFERS");
        reveal_strlit("  result: ");
        reveal_strlit("PARITY");
        reveal_strlit("DIFFERS");
    }
    assert(v@ =~= outcome_line(parity(*r)));
    out.push(v);
    assert(out.deep_view() =~= compare_lines(inside@, outside@, *r));
    out
}

/// The lines `decomp` prints for a report of legs `inside` and `outside`.
pub fn decomp_text(inside: &str, outside: &str, r: &DecompReport) -> (lines: Vec<String>)
    ensures
        lines.deep_view() == decomp_lines(inside@, outside@, *r),
{
    let mut out: Vec<String> = Vec::new();
    push_opening(&mut out, "scylla-abtest decomp: ", inside, outside, r.functions_inside, r.functions_outside);
    push_addrs(&mut out, "  only inside:  ", &r.only_inside);
    push_addrs(&mut out, "  only outside: ", &r.only_outside);
    push_mismatches(&mut out, &r.field_mismatches, false);
    let v = if r.is_parity() {
        String::from_str("  result: PARITY")
    } else {
        String::from_str("  result: DIFFERS")
    };
    proof {
        reveal_strlit("  result: PARITY");
        reveal_strlit("  result: DIFFERS");
        reveal_strlit("  result: ");
        reveal_strlit("PARITY");
        reveal_strlit("DIFFERS");
    }
    assert(v@ =~= outcome_line(decomp_parity(*r)));
    out.push(v);
    assert(out.deep_view() =~= decomp_lines(inside@, outside@, *r));
    out
}

} // verus!
