//! The command-line head's output: the text each verb prints, computed from the session, and
//! the argument checks that refuse a bad zoom or id. The program around it reads the artifacts
//! and prints.

use vstd::prelude::*;
use vstd::string::*;

use crate::graphql::id_named;
use crate::lsp::join_names;
use crate::model::{Program, StableId};
use crate::port::{name_in, name_text, FunctionView, SessionDiff, Zoom};
use crate::render::{debug_escaped, debug_quoted, joined};
use crate::text::{compare_text, copy_string, decimal, decimal_string, digits, parse_decimal, render_digits, text_lt};

verus! {

/// The zoom an argument names: none or `domain`, `intent`, `detail`; anything else is refused.
pub open spec fn zoom_arg(arg: Option<Seq<char>>) -> Result<Zoom, Seq<char>> {
    match arg {
        None => Ok(Zoom::Domain),
        Some(s) => if s == "domain"@ {
            Ok(Zoom::Domain)
        } else if s == "intent"@ {
            Ok(Zoom::Intent)
        } else if s == "detail"@ {
            Ok(Zoom::Detail)
        } else {
            Err("error: unknown zoom "@ + debug_escaped(s) + " (want intent|domain|detail)"@)
        },
    }
}

/// An optional argument's text.
pub open spec fn opt_view(arg: Option<&str>) -> Option<Seq<char>> {
    match arg {
        Some(s) => Some(s@),
        None => None,
    }
}

/// Parse a zoom-altitude argument, defaulting to `Domain`; the error is the message to print.
pub fn parse_zoom(arg: Option<&str>) -> (r: Result<Zoom, String>)
    ensures
        match r {
            Ok(z) => zoom_arg(opt_view(arg)) == Ok::<Zoom, Seq<char>>(z),
            Err(m) => zoom_arg(opt_view(arg)) == Err::<Zoom, Seq<char>>(m@),
        },
{
    match arg {
        None => Ok(Zoom::Domain),
        Some(s) => {
            if compare_text(s, "domain") == 0 {
                Ok(Zoom::Domain)
            } else if compare_text(s, "intent") == 0 {
                Ok(Zoom::Intent)
            } else if compare_text(s, "detail") == 0 {
                Ok(Zoom::Detail)
            } else {
                let mut m = String::from_str("error: unknown zoom ");
                let q = debug_quoted(s);
                m.append(q.as_str());
                m.append(" (want intent|domain|detail)");
                Err(m)
            }
        },
    }
}

/// The message a malformed id argument gets.
pub open spec fn bad_id_message(s: Seq<char>) -> Seq<char> {
    "error: id must be an integer, got "@ + debug_escaped(s)
}

/// Parse a stable-id argument; the error is the message to print.
pub fn parse_id(s: &str) -> (r: Result<StableId, String>)
    ensures
        match r {
            Ok(id) => id_named(s@) == Some(id),
            Err(m) => id_named(s@) is None && m@ == bad_id_message(s@),
        },
{
    match parse_decimal(s, u64::MAX) {
        Ok(n) => Ok(StableId(n)),
        Err(_) => {
            let mut m = String::from_str("error: id must be an integer, got ");
            let q = debug_quoted(s);
            m.append(q.as_str());
            Err(m)
        },
    }
}

/// The lines `info` prints: name, language, function count.
pub open spec fn info_lines(p: Program) -> Seq<Seq<char>> {
    seq![
        "name:      "@ + p.name@,
        "language:  "@ + p.language@,
        "functions: "@ + decimal(p.functions@.len() as nat),
    ]
}

fn prefixed(prefix: &str, s: &str) -> (r: String)
    ensures
        r@ == prefix@ + s@,
{
    let mut m = String::from_str(prefix);
    m.append(s);
    m
}

/// The lines `info` prints.
pub fn info_text(p: &Program) -> (r: Vec<String>)
    ensures
        r.deep_view() == info_lines(*p),
{
    let n = decimal_string(p.functions.len() as u64);
    let mut out: Vec<String> = Vec::new();
    out.push(prefixed("name:      ", p.name.as_str()));
    out.push(prefixed("language:  ", p.language.as_str()));
    out.push(prefixed("functions: ", n.as_str()));
    assert(out.deep_view() =~= info_lines(*p));
    out
}

/// The listing line of a view: `id`, tab, name, tab, summary.
pub open spec fn listing_line(v: FunctionView) -> Seq<char> {
    decimal(v.id.0 as nat) + "\t"@ + v.name@ + "\t"@ + v.summary@
}

/// The lines `functions` prints for views already sorted by name.
pub fn listing_text(vs: &Vec<FunctionView>) -> (r: Vec<String>)
    ensures
        r.deep_view() == vs@.map_values(|v: FunctionView| listing_line(v)),
{
    let mut out: Vec<String> = Vec::new();
    let mut i: usize = 0;
    while i < vs.len()
        invariant
            i <= vs@.len(),
            out.deep_view() == vs@.take(i as int).map_values(|v: FunctionView| listing_line(v)),
        decreases vs@.len() - i,
    {
        let mut s = decimal_string(vs[i].id.0);
        s.append("\t");
        s.append(vs[i].name.as_str());
        s.append("\t");
        s.append(vs[i].summary.as_str());
        let ghost before = out.deep_view();
        out.push(s);
        assert(out.deep_view() =~= before.push(listing_line(vs@[i as int])));
        assert(vs@.take(i + 1).map_values(|v: FunctionView| listing_line(v)) =~= vs@.take(
            i as int,
        ).map_values(|v: FunctionView| listing_line(v)).push(listing_line(vs@[i as int])));
        i += 1;
    }
    assert(vs@.take(vs@.len() as int) =~= vs@);
    out
}

/// A list of names for `view`: joined by `", "`, or `(none)` when empty.
pub open spec fn name_list(xs: Seq<Seq<char>>) -> Seq<char> {
    if xs.len() == 0 {
        "(none)"@
    } else {
        joined(xs)
    }
}

/// The lines `view` prints for a function's view: name and summary, then one line for each
/// field the view carries.
pub open spec fn view_lines(v: FunctionView) -> Seq<Seq<char>> {
    seq!["name:    "@ + v.name@, "summary: "@ + v.summary@] + match v.addr {
        Some(a) => seq!["address: 0x"@ + digits(a as nat, 16)],
        None => Seq::empty(),
    } + match v.bb_count {
        Some(b) => seq!["blocks:  "@ + decimal(b as nat)],
        None => Seq::empty(),
    } + match v.size {
        Some(s) => seq!["size:    "@ + decimal(s as nat) + " bytes"@],
        None => Seq::empty(),
    } + match v.callees {
        Some(c) => seq!["calls:   "@ + name_list(c.deep_view())],
        None => Seq::empty(),
    } + match v.callers {
        Some(c) => seq!["callers: "@ + name_list(c.deep_view())],
        None => Seq::empty(),
    }
}

fn list_text(xs: &Vec<String>) -> (r: String)
    ensures
        r@ == name_list(xs.deep_view()),
{
    if xs.len() == 0 {
        String::from_str("(none)")
    } else {
        join_names(xs)
    }
}

/// The lines `view` prints.
pub fn view_text(v: &FunctionView) -> (r: Vec<String>)
    ensures
        r.deep_view() == view_lines(*v),
{
    let mut out: Vec<String> = Vec::new();
    out.push(prefixed("name:    ", v.name.as_str()));
    out.push(prefixed("summary: ", v.summary.as_str()));
    let ghost l0 = out.deep_view();
    if let Some(a) = v.addr {
        let h = render_digits(a, 16);
        out.push(prefixed("address: 0x", h.as_str()));
    }
    let ghost l1 = out.deep_view();
    if let Some(b) = v.bb_count {
        let d = decimal_string(b as u64);
        out.push(prefixed("blocks:  ", d.as_str()));
    }
    let ghost l2 = out.deep_view();
    if let Some(s) = v.size {
        let d = decimal_string(s);
        let mut t = prefixed("size:    ", d.as_str());
        t.append(" bytes");
        out.push(t);
    }
    let ghost l3 = out.deep_view();
    if let Some(c) = &v.callees {
        let t = list_text(c);
        out.push(prefixed("calls:   ", t.as_str()));
    }
    let ghost l4 = out.deep_view();
    if let Some(c) = &v.callers {
        let t = list_text(c);
        out.push(prefixed("callers: ", t.as_str()));
    }
    assert(out.deep_view() =~= view_lines(*v));
    out
}

// ---------------------------------------------------------------------------------------------
// callers: sorted by name
// ---------------------------------------------------------------------------------------------

/// `x` inserted into `s` after every entry whose name does not sort after its own.
pub open spec fn insert_named(s: Seq<(u64, Seq<char>)>, x: (u64, Seq<char>)) -> Seq<(u64, Seq<char>)>
    decreases s.len(),
{
    if s.len() == 0 {
        seq![x]
    } else if text_lt(x.1, s.last().1) {
        insert_named(s.drop_last(), x).push(s.last())
    } else {
        s.push(x)
    }
}

/// `s` stably sorted by name.
pub open spec fn sorted_named(s: Seq<(u64, Seq<char>)>) -> Seq<(u64, Seq<char>)>
    decreases s.len(),
{
    if s.len() == 0 {
        Seq::empty()
    } else {
        insert_named(sorted_named(s.drop_last()), s.last())
    }
}

fn insert_entry(out: &mut Vec<(u64, String)>, x: (u64, String))
    ensures
        final(out).deep_view() == insert_named(old(out).deep_view(), x.deep_view()),
{
    let ghost xv = x.deep_view();
    let mut k: usize = out.len();
    assert(out.deep_view().take(k as int) =~= out.deep_view());
    assert(out.deep_view().skip(k as int) =~= Seq::<(u64, Seq<char>)>::empty());
    assert(xv.1 == x.1@ && xv.0 == x.0);
    loop
        invariant
            k <= out@.len(),
            xv.1 == x.1@,
            out.deep_view() == old(out).deep_view(),
            insert_named(out.deep_view(), xv) == insert_named(out.deep_view().take(k as int), xv)
                + out.deep_view().skip(k as int),
        ensures
            k <= out@.len(),
            out.deep_view() == old(out).deep_view(),
            insert_named(out.deep_view(), xv) == insert_named(out.deep_view().take(k as int), xv)
                + out.deep_view().skip(k as int),
            k == 0 || !text_lt(xv.1, out.deep_view()[k - 1].1),
        decreases k,
    {
        if k == 0 {
            break;
        }
        assert(out.deep_view()[k - 1].1 == out@[k - 1].1@);
        assert(xv.1 == x.1@);
        if compare_text(x.1.as_str(), out[k - 1].1.as_str()) >= 0 {
            break;
        }
        let ghost o = out.deep_view();
        let ghost t = o.take(k as int);
        assert(t.drop_last() =~= o.take(k - 1));
        assert(o.skip(k - 1) =~= seq![o[k - 1]] + o.skip(k as int));
        assert(insert_named(t, xv) == insert_named(t.drop_last(), xv).push(t.last()));
        assert(insert_named(o.take(k - 1), xv).push(o[k - 1]) + o.skip(k as int) =~= insert_named(
            o.take(k - 1),
            xv,
        ) + o.skip(k - 1));
        k -= 1;
    }
    let ghost before = out.deep_view();
    if k > 0 {
        assert(insert_named(before.take(k as int), xv) == before.take(k as int).push(xv));
    } else {
        assert(insert_named(before.take(0), xv) =~= seq![xv]);
    }
    out.insert(k, x);
    assert(out.deep_view() =~= insert_named(before.take(k as int), xv) + before.skip(k as int));
}

/// The callers of a function by id and display name, stably sorted by name.
pub fn callers_by_name(p: &Program, ids: &Vec<StableId>) -> (r: Vec<(u64, String)>)
    ensures
        r.deep_view() == sorted_named(ids@.map_values(|c: StableId| (c.0, name_text(*p, c)))),
{
    let ghost entries = ids@.map_values(|c: StableId| (c.0, name_text(*p, c)));
    let mut out: Vec<(u64, String)> = Vec::new();
    let mut i: usize = 0;
    while i < ids.len()
        invariant
            i <= ids@.len(),
            entries == ids@.map_values(|c: StableId| (c.0, name_text(*p, c))),
            out.deep_view() == sorted_named(entries.take(i as int)),
        decreases ids@.len() - i,
    {
        assert(entries.take(i + 1).drop_last() =~= entries.take(i as int));
        let e = (ids[i].0, name_in(p, ids[i]));
        insert_entry(&mut out, e);
        i += 1;
    }
    assert(entries.take(ids@.len() as int) =~= entries);
    out
}

/// The line `callers` prints for an entry: id, tab, name.
pub open spec fn caller_line(e: (u64, Seq<char>)) -> Seq<char> {
    decimal(e.0 as nat) + "\t"@ + e.1
}

/// The lines `callers` prints for its sorted entries.
pub fn caller_text(es: &Vec<(u64, String)>) -> (r: Vec<String>)
    ensures
        r.deep_view() == es.deep_view().map_values(|e: (u64, Seq<char>)| caller_line(e)),
{
    let mut out: Vec<String> = Vec::new();
    let mut i: usize = 0;
    while i < es.len()
        invariant
            i <= es@.len(),
            out.deep_view() == es.deep_view().take(i as int).map_values(|e: (u64, Seq<char>)| caller_line(e)),
        decreases es@.len() - i,
    {
        let mut s = decimal_string(es[i].0);
        s.append("\t");
        s.append(es[i].1.as_str());
        let ghost before = out.deep_view();
        out.push(s);
        assert(out.deep_view() =~= before.push(caller_line(es.deep_view()[i as int])));
        assert(es.deep_view().take(i + 1).map_values(|e: (u64, Seq<char>)| caller_line(e))
            =~= es.deep_view().take(i as int).map_values(|e: (u64, Seq<char>)| caller_line(e)).push(
            caller_line(es.deep_view()[i as int]),
        ));
        i += 1;
    }
    assert(es.deep_view().take(es@.len() as int) =~= es.deep_view());
    out
}

// ---------------------------------------------------------------------------------------------
// diff: the report of two artifacts
// ---------------------------------------------------------------------------------------------

/// A titled section of the diff report: a blank line and the title, then each line indented;
/// nothing when there are no lines.
pub open spec fn section(title: Seq<char>, lines: Seq<Seq<char>>) -> Seq<Seq<char>> {
    if lines.len() == 0 {
        Seq::empty()
    } else {
        seq!["\n"@ + title + ":"@] + lines.map_values(|l: Seq<char>| "  "@ + l)
    }
}

/// A renamed pair's line.
pub open spec fn arrow(p: (Seq<char>, Seq<char>)) -> Seq<char> {
    p.0 + " -> "@ + p.1
}

/// A modified pair's line: the name, or both names when it changed too.
pub open spec fn modified_line(p: (Seq<char>, Seq<char>)) -> Seq<char> {
    if p.0 == p.1 {
        p.0
    } else {
        arrow(p)
    }
}

/// Whether two artifacts differ: something renamed, modified, added or removed.
pub open spec fn differs(d: SessionDiff) -> bool {
    crate::graphql::renamed_of(d.matched.deep_view()).len() > 0 || d.changed@.len() > 0
        || d.only_here@.len() > 0 || d.only_there@.len() > 0
}

/// The counts line of the diff report.
pub open spec fn counts_line(d: SessionDiff) -> Seq<char> {
    let renamed = crate::graphql::renamed_of(d.matched.deep_view());
    "  "@ + decimal((d.matched@.len() - renamed.len()) as nat) + " unchanged · "@ + decimal(renamed.len())
        + " renamed · "@ + decimal(d.changed@.len()) + " modified · "@ + decimal(d.only_there@.len())
        + " added · "@ + decimal(d.only_here@.len()) + " removed"@
}

/// The lines `diff` prints for artifacts `a` and `b`: a header, the counts, the renamed,
/// modified, added and removed sections, and `no differences` when there are none.
pub open spec fn diff_lines(a: Seq<char>, b: Seq<char>, d: SessionDiff) -> Seq<Seq<char>> {
    let renamed = crate::graphql::renamed_of(d.matched.deep_view());
    seq!["scylla diff: "@ + a + "  vs  "@ + b, counts_line(d)]
        + section("renamed"@, renamed.map_values(|p: (Seq<char>, Seq<char>)| arrow(p)))
        + section("modified"@, d.changed.deep_view().map_values(|p: (Seq<char>, Seq<char>)| modified_line(p)))
        + section("added (only in "@ + b + ")"@, d.only_there.deep_view())
        + section("removed (only in "@ + a + ")"@, d.only_here.deep_view())
        + if differs(d) {
        Seq::<Seq<char>>::empty()
    } else {
        seq!["\nno differences"@]
    }
}

fn push_section(out: &mut Vec<String>, title: &str, lines: &Vec<String>)
    ensures
        final(out).deep_view() == old(out).deep_view() + section(title@, lines.deep_view()),
{
    if lines.len() == 0 {
        assert(old(out).deep_view() + section(title@, lines.deep_view()) =~= old(out).deep_view());
        return;
    }
    let ghost start = out.deep_view();
    let mut head = String::from_str("\n");
    head.append(title);
    head.append(":");
    out.push(head);
    let mut i: usize = 0;
    while i < lines.len()
        invariant
            i <= lines@.len(),
            out.deep_view() == start + seq!["\n"@ + title@ + ":"@] + lines.deep_view().take(i as int).map_values(
                |l: Seq<char>| "  "@ + l,
            ),
        decreases lines@.len() - i,
    {
        let ghost before = out.deep_view();
        out.push(prefixed("  ", lines[i].as_str()));
        assert(lines.deep_view().take(i + 1).map_values(|l: Seq<char>| "  "@ + l) =~= lines.deep_view().take(
            i as int,
        ).map_values(|l: Seq<char>| "  "@ + l).push("  "@ + lines@[i as int]@));
        assert(out.deep_view() =~= before.push("  "@ + lines@[i as int]@));
        i += 1;
    }
    assert(lines.deep_view().take(lines@.len() as int) =~= lines.deep_view());
    assert(out.deep_view() =~= start + section(title@, lines.deep_view()));
}

/// The lines of the report of two artifacts' diff, and whether they differ (the exit status).
pub fn diff_text(a_path: &str, b_path: &str, d: &SessionDiff) -> (r: (Vec<String>, bool))
    ensures
        r.0.deep_view() == diff_lines(a_path@, b_path@, *d),
        r.1 == differs(*d),
{
    let ghost renamed = crate::graphql::renamed_of(d.matched.deep_view());
    // renamed and modified lines
    let mut ren: Vec<String> = Vec::new();
    let mut n_ren: usize = 0;
    let mut i: usize = 0;
    while i < d.matched.len()
        invariant
            i <= d.matched@.len(),
            ren.deep_view() == crate::graphql::renamed_of(d.matched.deep_view().take(i as int)).map_values(
                |p: (Seq<char>, Seq<char>)| arrow(p),
            ),
            n_ren == ren@.len(),
            n_ren <= i,
        decreases d.matched@.len() - i,
    {
        let ghost m = d.matched.deep_view();
        assert(m.take(i + 1).drop_last() =~= m.take(i as int));
        assert(m.take(i + 1).last() == (d.matched@[i as int].0@, d.matched@[i as int].1@));
        let (x, y) = (&d.matched[i].0, &d.matched[i].1);
        let ghost before = ren.deep_view();
        if !x.eq(y) {
            let mut t = copy_string(x);
            t.append(" -> ");
            t.append(y.as_str());
            ren.push(t);
            n_ren += 1;
            assert(ren.deep_view() =~= before.push(arrow((x@, y@))));
        }
        assert(ren.deep_view() =~= crate::graphql::renamed_of(m.take(i + 1)).map_values(
            |p: (Seq<char>, Seq<char>)| arrow(p),
        ));
        i += 1;
    }
    assert(d.matched.deep_view().take(d.matched@.len() as int) =~= d.matched.deep_view());
    let mut modl: Vec<String> = Vec::new();
    let mut j: usize = 0;
    while j < d.changed.len()
        invariant
            j <= d.changed@.len(),
            modl.deep_view() == d.changed.deep_view().take(j as int).map_values(
                |p: (Seq<char>, Seq<char>)| modified_line(p),
            ),
        decreases d.changed@.len() - j,
    {
        let ghost c = d.changed.deep_view();
        let (x, y) = (&d.changed[j].0, &d.changed[j].1);
        assert(c[j as int] == (x@, y@));
        let t = if x.eq(y) {
            copy_string(x)
        } else {
            let mut t = copy_string(x);
            t.append(" -> ");
            t.append(y.as_str());
            t
        };
        let ghost before = modl.deep_view();
        modl.push(t);
        assert(modl.deep_view() =~= before.push(modified_line(c[j as int])));
        assert(c.take(j + 1).map_values(|p: (Seq<char>, Seq<char>)| modified_line(p)) =~= c.take(
            j as int,
        ).map_values(|p: (Seq<char>, Seq<char>)| modified_line(p)).push(modified_line(c[j as int])));
        j += 1;
    }
    assert(d.changed.deep_view().take(d.changed@.len() as int) =~= d.changed.deep_view());
    let unchanged = d.matched.len() - n_ren;
    // header and counts
    let mut out: Vec<String> = Vec::new();
    let mut h = prefixed("scylla diff: ", a_path);
    h.append("  vs  ");
    h.append(b_path);
    out.push(h);
    let mut c = String::from_str("  ");
    c.append(decimal_string(unchanged as u64).as_str());
    c.append(" unchanged · ");
    c.append(decimal_string(n_ren as u64).as_str());
    c.append(" renamed · ");
    c.append(decimal_string(d.changed.len() as u64).as_str());
    c.append(" modified · ");
    c.append(decimal_string(d.only_there.len() as u64).as_str());
    c.append(" added · ");
    c.append(decimal_string(d.only_here.len() as u64).as_str());
    c.append(" removed");
    out.push(c);
    assert(out.deep_view() =~= seq!["scylla diff: "@ + a_path@ + "  vs  "@ + b_path@, counts_line(*d)]);
    push_section(&mut out, "renamed", &ren);
    push_section(&mut out, "modified", &modl);
    let mut added_title = String::from_str("added (only in ");
    added_title.append(b_path);
    added_title.append(")");
    push_section(&mut out, added_title.as_str(), &d.only_there);
    let mut removed_title = String::from_str("removed (only in ");
    removed_title.append(a_path);
    removed_title.append(")");
    push_section(&mut out, removed_title.as_str(), &d.only_here);
    let differ = n_ren > 0 || d.changed.len() > 0 || d.only_here.len() > 0 || d.only_there.len() > 0;
    let ghost before = out.deep_view();
    if !differ {
        out.push(String::from_str("\nno differences"));
    }
    assert(out.deep_view() =~= diff_lines(a_path@, b_path@, *d));
    (out, differ)
}

} // verus!
