//! The terminal head's state: the resident session plus the interaction state, and nothing about
//! terminals. Every method that returns data is a projection of a client-port verb — the browse
//! list is `Session::functions`, a live filter is `Session::search`, the detail pane is
//! `Session::view` at `Detail`, the callers line is `Session::callers`, and the diff pane folds a
//! `SessionDiff`. The key layer only ever calls the mutators below.

use vstd::prelude::*;
use vstd::string::*;

use crate::merge::{method_tag, MatchInfo};
use crate::model::{display_name_of, index_of, Program, StableId};
use crate::port::{
    callers_of, is_view_of, search_ids, FunctionView, PortError, Session, SessionDiff, Zoom,
};
use crate::lsp::dashed;
use crate::render::joined;
use crate::text::{compare_text, copy_string, decimal, decimal_string, digits, text_lt};

verus! {

/// What the keystrokes mean right now: navigating the list, or typing into the search filter.
#[derive(Clone, Copy, Debug, PartialEq, Eq, Structural)]
pub enum Mode {
    Browse,
    Search,
}

/// Which pane is up: the function navigator, or the structural diff (only reachable when a
/// second artifact was loaded).
#[derive(Clone, Copy, Debug, PartialEq, Eq, Structural)]
pub enum Screen {
    Functions,
    Diff,
}

/// The classification of one diff row.
#[derive(Clone, Copy, Debug, PartialEq, Eq, Structural)]
pub enum DiffKind {
    Renamed,
    Modified,
    Added,
    Removed,
}

/// One renderable diff row: a kind, the function name, and a trailing annotation (the new name
/// and/or the recovery rung + confidence).
#[derive(Clone, Debug, PartialEq, Eq)]
pub struct DiffRow {
    pub kind: DiffKind,
    pub name: String,
    pub detail: String,
}

impl DeepView for DiffRow {
    type V = (DiffKind, Seq<char>, Seq<char>);

    open spec fn deep_view(&self) -> Self::V {
        (self.kind, self.name@, self.detail@)
    }
}

/// The precomputed structural diff: the interesting rows (renamed / modified / added / removed)
/// plus the summary counts. Matched-but-unchanged pairs are a count, not rows.
#[derive(Clone, Debug, Default, PartialEq, Eq)]
pub struct DiffData {
    pub rows: Vec<DiffRow>,
    pub matched: usize,
    pub renamed: usize,
    pub modified: usize,
    pub added: usize,
    pub removed: usize,
}

// ---------------------------------------------------------------------------------------------
// Sorting the browse list by name
// ---------------------------------------------------------------------------------------------

/// `x` inserted into `s` after every element whose name does not sort after its own.
pub open spec fn insert_by_name(s: Seq<FunctionView>, x: FunctionView) -> Seq<FunctionView>
    decreases s.len(),
{
    if s.len() == 0 {
        seq![x]
    } else if text_lt(x.name@, s.last().name@) {
        insert_by_name(s.drop_last(), x).push(s.last())
    } else {
        s.push(x)
    }
}

/// `s` stably sorted by name.
pub open spec fn sorted_by_name(s: Seq<FunctionView>) -> Seq<FunctionView>
    decreases s.len(),
{
    if s.len() == 0 {
        Seq::empty()
    } else {
        insert_by_name(sorted_by_name(s.drop_last()), s.last())
    }
}

/// Insert `x` into a list by name, after the elements it does not sort before.
fn insert_view(out: &mut Vec<FunctionView>, x: FunctionView)
    ensures
        final(out)@ == insert_by_name(old(out)@, x),
{
    let mut k: usize = out.len();
    assert(out@.take(k as int) =~= out@);
    assert(out@.skip(k as int) =~= Seq::<FunctionView>::empty());
    loop
        invariant
            k <= out@.len(),
            out@ == old(out)@,
            insert_by_name(out@, x) == insert_by_name(out@.take(k as int), x) + out@.skip(k as int),
        ensures
            k <= out@.len(),
            out@ == old(out)@,
            insert_by_name(out@, x) == insert_by_name(out@.take(k as int), x) + out@.skip(k as int),
            k == 0 || !text_lt(x.name@, out@[k - 1].name@),
        decreases k,
    {
        if k == 0 {
            break;
        }
        if compare_text(x.name.as_str(), out[k - 1].name.as_str()) >= 0 {
            break;
        }
        let ghost t = out@.take(k as int);
        assert(t.drop_last() =~= out@.take(k - 1));
        assert(out@.skip(k - 1) =~= seq![out@[k - 1]] + out@.skip(k as int));
        assert(insert_by_name(t, x) == insert_by_name(t.drop_last(), x).push(t.last()));
        assert(insert_by_name(out@.take(k - 1), x).push(out@[k - 1]) + out@.skip(k as int)
            =~= insert_by_name(out@.take(k - 1), x) + out@.skip(k - 1));
        k -= 1;
    }
    let ghost before = out@;
    if k > 0 {
        assert(insert_by_name(before.take(k as int), x) == before.take(k as int).push(x));
    } else {
        assert(insert_by_name(before.take(0), x) =~= seq![x]);
    }
    out.insert(k, x);
    assert(out@ =~= insert_by_name(before.take(k as int), x) + before.skip(k as int));
}

/// A list of views stably sorted by name.
pub fn sort_by_name(v: Vec<FunctionView>) -> (r: Vec<FunctionView>)
    ensures
        r@ == sorted_by_name(v@),
{
    let ghost orig = v@;
    let total = v.len();
    // Reverse once so the views can be taken out front to back.
    let mut src = v;
    let mut rev: Vec<FunctionView> = Vec::new();
    while src.len() > 0
        invariant
            orig == src@ + rev@.reverse(),
        decreases src@.len(),
    {
        let ghost s0 = src@;
        let ghost r0 = rev@;
        match src.pop() {
            Some(x) => {
                rev.push(x);
                assert(rev@.reverse() =~= seq![x] + r0.reverse());
                assert(s0 =~= src@.push(x));
                assert(orig =~= src@ + rev@.reverse());
            },
            None => {},
        }
    }
    assert(src@ + rev@.reverse() =~= rev@.reverse());
    assert(orig.skip(0) =~= orig);
    let mut out: Vec<FunctionView> = Vec::new();
    let mut n: usize = 0;
    while rev.len() > 0
        invariant
            n <= orig.len(),
            orig.len() == total,
            orig.skip(n as int) == rev@.reverse(),
            out@ == sorted_by_name(orig.take(n as int)),
        decreases rev@.len(),
    {
        let ghost r0 = rev@;
        match rev.pop() {
            Some(x) => {
                assert(r0 =~= rev@.push(x));
                assert(r0.reverse() =~= seq![x] + rev@.reverse());
                assert(orig.skip(n as int)[0] == x);
                assert(orig[n as int] == x);
                assert(orig.take(n + 1).drop_last() =~= orig.take(n as int));
                assert(orig.take(n + 1).last() == x);
                insert_view(&mut out, x);
                assert(orig.skip(n + 1) =~= orig.skip(n as int).drop_first());
                n += 1;
            },
            None => {},
        }
    }
    assert(rev@.reverse().len() == 0);
    assert(orig.take(n as int) =~= orig);
    out
}

// ---------------------------------------------------------------------------------------------
// The diff pane
// ---------------------------------------------------------------------------------------------

/// The recovery recorded for display name `name` (the last entry, should names repeat).
pub open spec fn prov_of(prov: Seq<(String, MatchInfo)>, name: Seq<char>) -> Option<MatchInfo>
    decreases prov.len(),
{
    if prov.len() == 0 {
        None
    } else if prov.last().0@ == name {
        Some(prov.last().1)
    } else {
        prov_of(prov.drop_last(), name)
    }
}

/// `"(<rung> <confidence>%)"`.
pub open spec fn rung_text(i: MatchInfo) -> Seq<char> {
    "("@ + method_tag(i.method) + " "@ + decimal(i.confidence as nat) + "%)"@
}

/// The renamed rows of the matched pairs, in order (unchanged names are only counted).
pub open spec fn renamed_rows(pairs: Seq<(String, String)>, prov: Seq<(String, MatchInfo)>) -> Seq<
    (DiffKind, Seq<char>, Seq<char>),
>
    decreases pairs.len(),
{
    if pairs.len() == 0 {
        Seq::empty()
    } else {
        let r = renamed_rows(pairs.drop_last(), prov);
        let (a, b) = pairs.last();
        if a@ == b@ {
            r
        } else {
            let detail = match prov_of(prov, a@) {
                Some(i) => "→ "@ + b@ + "  "@ + rung_text(i),
                None => "→ "@ + b@,
            };
            r.push((DiffKind::Renamed, a@, detail))
        }
    }
}

/// How many matched pairs kept their name.
pub open spec fn unchanged_count(pairs: Seq<(String, String)>) -> nat
    decreases pairs.len(),
{
    if pairs.len() == 0 {
        0
    } else {
        unchanged_count(pairs.drop_last()) + if pairs.last().0@ == pairs.last().1@ {
            1nat
        } else {
            0nat
        }
    }
}

/// The modified rows of the changed pairs, in order.
pub open spec fn modified_rows(pairs: Seq<(String, String)>, prov: Seq<(String, MatchInfo)>) -> Seq<
    (DiffKind, Seq<char>, Seq<char>),
> {
    pairs.map_values(
        |p: (String, String)|
            (
                DiffKind::Modified,
                if p.0@ == p.1@ {
                    p.0@
                } else {
                    p.0@ + " → "@ + p.1@
                },
                match prov_of(prov, p.0@) {
                    Some(i) => rung_text(i),
                    None => Seq::empty(),
                },
            ),
    )
}

/// Rows of one kind for a list of names, with no annotation.
pub open spec fn plain_rows(kind: DiffKind, names: Seq<String>) -> Seq<(DiffKind, Seq<char>, Seq<char>)> {
    names.map_values(|n: String| (kind, n@, Seq::empty()))
}

/// The diff pane a [`SessionDiff`] folds to.
pub open spec fn is_diff_data(data: DiffData, d: SessionDiff) -> bool {
    let prov = d.provenance@;
    &&& data.rows.deep_view() == renamed_rows(d.matched@, prov) + modified_rows(d.changed@, prov)
        + plain_rows(DiffKind::Added, d.only_there@) + plain_rows(DiffKind::Removed, d.only_here@)
    &&& data.matched == unchanged_count(d.matched@)
    &&& data.renamed + data.matched == d.matched@.len()
    &&& data.modified == d.changed@.len()
    &&& data.added == d.only_there@.len()
    &&& data.removed == d.only_here@.len()
}

/// The recovery recorded for `name`.
fn find_prov(prov: &Vec<(String, MatchInfo)>, name: &String) -> (r: Option<MatchInfo>)
    ensures
        r == prov_of(prov@, name@),
{
    let mut i: usize = prov.len();
    assert(prov@.take(i as int) =~= prov@);
    while i > 0
        invariant
            i <= prov@.len(),
            prov_of(prov@, name@) == prov_of(prov@.take(i as int), name@),
        decreases i,
    {
        assert(prov@.take(i as int).drop_last() =~= prov@.take(i - 1));
        if prov[i - 1].0.eq(name) {
            return Some(prov[i - 1].1);
        }
        i -= 1;
    }
    None
}

fn rung(i: MatchInfo) -> (r: String)
    ensures
        r@ == rung_text(i),
{
    let mut s = String::from_str("(");
    s.append(i.method.as_str());
    s.append(" ");
    let c = decimal_string(i.confidence as u64);
    s.append(c.as_str());
    s.append("%)");
    s
}

/// Fold a session diff into renderable rows + summary counts. Matched-but-unchanged pairs are
/// counted, not listed; renamed/modified pairs carry their recovery rung + confidence.
pub fn build_diff(d: &SessionDiff) -> (data: DiffData)
    ensures
        is_diff_data(data, *d),
{
    let prov = &d.provenance;
    let mut rows: Vec<DiffRow> = Vec::new();
    let mut matched: usize = 0;
    let mut renamed: usize = 0;
    let mut i: usize = 0;
    while i < d.matched.len()
        invariant
            i <= d.matched@.len(),
            prov == &d.provenance,
            rows.deep_view() == renamed_rows(d.matched@.take(i as int), prov@),
            matched == unchanged_count(d.matched@.take(i as int)),
            matched + renamed == i,
        decreases d.matched@.len() - i,
    {
        assert(d.matched@.take(i + 1).drop_last() =~= d.matched@.take(i as int));
        let (a, b) = &d.matched[i];
        if a.eq(b) {
            matched += 1;
        } else {
            renamed += 1;
            let mut detail = String::from_str("→ ");
            detail.append(b.as_str());
            match find_prov(prov, a) {
                Some(info) => {
                    detail.append("  ");
                    let t = rung(info);
                    detail.append(t.as_str());
                },
                None => {},
            }
            let ghost before = rows.deep_view();
            let row = DiffRow { kind: DiffKind::Renamed, name: a.clone(), detail };
            rows.push(row);
            assert(rows.deep_view() =~= before.push(row.deep_view()));
        }
        i += 1;
    }
    assert(d.matched@.take(d.matched@.len() as int) =~= d.matched@);
    let ghost head = rows.deep_view();
    let mut j: usize = 0;
    while j < d.changed.len()
        invariant
            j <= d.changed@.len(),
            prov == &d.provenance,
            rows.deep_view() == head + modified_rows(d.changed@, prov@).take(j as int),
        decreases d.changed@.len() - j,
    {
        let (a, b) = &d.changed[j];
        let name = if a.eq(b) {
            a.clone()
        } else {
            let mut n = a.clone();
            n.append(" → ");
            n.append(b.as_str());
            n
        };
        let detail = match find_prov(prov, a) {
            Some(info) => rung(info),
            None => String::new(),
        };
        let ghost before = rows.deep_view();
        let row = DiffRow { kind: DiffKind::Modified, name, detail };
        assert(row.deep_view() == modified_rows(d.changed@, prov@)[j as int]);
        rows.push(row);
        assert(rows.deep_view() =~= before.push(row.deep_view()));
        assert(modified_rows(d.changed@, prov@).take(j + 1) =~= modified_rows(d.changed@, prov@).take(
            j as int,
        ).push(modified_rows(d.changed@, prov@)[j as int]));
        j += 1;
    }
    let ghost mid = rows.deep_view();
    push_plain(&mut rows, DiffKind::Added, &d.only_there);
    push_plain(&mut rows, DiffKind::Removed, &d.only_here);
    assert(rows.deep_view() =~= renamed_rows(d.matched@, prov@) + modified_rows(d.changed@, prov@)
        + plain_rows(DiffKind::Added, d.only_there@) + plain_rows(DiffKind::Removed, d.only_here@));
    DiffData {
        rows,
        matched,
        renamed,
        modified: d.changed.len(),
        added: d.only_there.len(),
        removed: d.only_here.len(),
    }
}

/// Append a row of `kind` for each name.
fn push_plain(rows: &mut Vec<DiffRow>, kind: DiffKind, names: &Vec<String>)
    ensures
        final(rows).deep_view() == old(rows).deep_view() + plain_rows(kind, names@),
{
    let ghost start = rows.deep_view();
    let mut i: usize = 0;
    while i < names.len()
        invariant
            i <= names@.len(),
            rows.deep_view() == start + plain_rows(kind, names@).take(i as int),
        decreases names@.len() - i,
    {
        let ghost before = rows.deep_view();
        let row = DiffRow { kind, name: names[i].clone(), detail: String::new() };
        assert(row.deep_view() == plain_rows(kind, names@)[i as int]);
        rows.push(row);
        assert(rows.deep_view() =~= before.push(row.deep_view()));
        assert(plain_rows(kind, names@).take(i + 1) =~= plain_rows(kind, names@).take(i as int).push(
            plain_rows(kind, names@)[i as int],
        ));
        i += 1;
    }
    assert(plain_rows(kind, names@).take(names@.len() as int) =~= plain_rows(kind, names@));
}

} // verus!

verus! {

// ---------------------------------------------------------------------------------------------
// The application state
// ---------------------------------------------------------------------------------------------

/// The ids the browse list shows for `filter`: every function, or the search hits.
pub open spec fn listed_ids(p: Program, filter: Seq<char>) -> Seq<StableId> {
    if filter.len() == 0 {
        p.functions@.map_values(|f: crate::model::Function| f.id)
    } else {
        search_ids(p, p.functions@, filter)
    }
}

/// `vs` are the `Domain` views of `ids`, in order.
pub open spec fn views_of(vs: Seq<FunctionView>, p: Program, ids: Seq<StableId>) -> bool {
    &&& vs.len() == ids.len()
    &&& forall|i: int| 0 <= i < vs.len() ==> is_view_of(#[trigger] vs[i], p, ids[i], Zoom::Domain)
}

/// `vis` is the browse list of `p` under `filter`: the views of the listed functions, stably
/// sorted by name.
pub open spec fn shows(vis: Seq<FunctionView>, p: Program, filter: Seq<char>) -> bool {
    exists|vs: Seq<FunctionView>| #[trigger] views_of(vs, p, listed_ids(p, filter)) && vis == sorted_by_name(vs)
}

/// A selection pulled back into a list of `n` rows (to the last row, or 0 when empty).
pub open spec fn clamped(sel: usize, n: nat) -> usize {
    if sel < n {
        sel
    } else if n == 0 {
        0
    } else {
        (n - 1) as usize
    }
}

/// The names of `ids` that have one, in order.
pub open spec fn known_names(p: Program, ids: Seq<StableId>) -> Seq<Seq<char>>
    decreases ids.len(),
{
    if ids.len() == 0 {
        Seq::empty()
    } else {
        let r = known_names(p, ids.drop_last());
        match display_name_of(p, ids.last()) {
            Some(n) => r.push(n@),
            None => r,
        }
    }
}

/// The terminal head's state.
pub struct App {
    session: Session,
    /// The currently-visible function list (all functions, or the search hits), sorted by name.
    visible: Vec<FunctionView>,
    /// Index into the visible list of the highlighted function.
    pub selected: usize,
    pub mode: Mode,
    /// The live search query; empty means "show everything".
    pub filter: String,
    pub should_quit: bool,
    /// The structural diff against a second artifact, if one was loaded.
    diff: Option<DiffData>,
    /// Which pane is showing.
    screen: Screen,
    /// Selection within the diff pane.
    diff_selected: usize,
}

impl App {
    /// The model the session serves.
    pub closed spec fn model(&self) -> Program {
        self.session.model()
    }

    /// The rows of the browse list.
    pub closed spec fn rows(&self) -> Seq<FunctionView> {
        self.visible@
    }

    /// The loaded diff, if any.
    pub closed spec fn diff_spec(&self) -> Option<DiffData> {
        self.diff
    }

    /// The pane showing.
    pub closed spec fn screen_spec(&self) -> Screen {
        self.screen
    }

    /// The selection in the diff pane.
    pub closed spec fn diff_sel(&self) -> usize {
        self.diff_selected
    }

    /// The highlighted row of the browse list.
    pub closed spec fn sel(&self) -> usize {
        self.selected
    }

    /// What the keystrokes mean.
    pub closed spec fn mode_spec(&self) -> Mode {
        self.mode
    }

    /// The live search query.
    pub closed spec fn filter_text(&self) -> Seq<char> {
        self.filter@
    }

    /// Whether the event loop was asked to stop.
    pub closed spec fn quitting(&self) -> bool {
        self.should_quit
    }

    /// How many rows the diff pane has.
    pub closed spec fn diff_len(&self) -> nat {
        match self.diff {
            Some(d) => d.rows@.len(),
            None => 0,
        }
    }

    /// A fresh head over `session`: the full list, sorted by name, the first row highlighted.
    pub fn new(session: Session) -> (app: Self)
        ensures
            app.model() == session.model(),
            shows(app.rows(), app.model(), Seq::empty()),
            app.sel() == 0,
            app.mode_spec() == Mode::Browse,
            app.filter_text() == Seq::<char>::empty(),
            !app.quitting(),
            app.diff_spec() is None,
            app.screen_spec() == Screen::Functions,
            app.diff_sel() == 0,
    {
        let mut app = App {
            session,
            visible: Vec::new(),
            selected: 0,
            mode: Mode::Browse,
            filter: String::new(),
            should_quit: false,
            diff: None,
            screen: Screen::Functions,
            diff_selected: 0,
        };
        app.recompute();
        app
    }

    /// A head with a structural diff loaded: the navigator as in [`App::new`], plus the diff pane
    /// folded from `diff`.
    pub fn with_diff(session: Session, diff: &SessionDiff) -> (app: Self)
        ensures
            app.model() == session.model(),
            shows(app.rows(), app.model(), Seq::empty()),
            app.sel() == 0,
            app.mode_spec() == Mode::Browse,
            app.filter_text() == Seq::<char>::empty(),
            !app.quitting(),
            app.diff_spec() matches Some(d) && is_diff_data(d, *diff),
            app.screen_spec() == Screen::Functions,
            app.diff_sel() == 0,
    {
        let mut app = App::new(session);
        app.diff = Some(build_diff(diff));
        app
    }

    /// Rebuild the visible list from the current filter, sorted by name, clamping the selection
    /// back into range.
    fn recompute(&mut self)
        ensures
            final(self).session == old(self).session,
            shows(final(self).visible@, final(self).model(), final(self).filter_text()),
            final(self).sel() == clamped(old(self).sel(), final(self).visible@.len()),
            final(self).mode_spec() == old(self).mode_spec(),
            final(self).filter_text() == old(self).filter_text(),
            final(self).quitting() == old(self).quitting(),
            final(self).diff == old(self).diff,
            final(self).screen == old(self).screen,
            final(self).diff_selected == old(self).diff_selected,
    {
        let ghost p = self.session.model();
        let ghost ids = listed_ids(p, self.filter@);
        let v = if self.filter.as_str().is_empty() {
            self.session.functions(Zoom::Domain)
        } else {
            self.session.search(self.filter.as_str(), Zoom::Domain)
        };
        proof {
            if self.filter@.len() == 0 {
                assert forall|i: int| 0 <= i < v@.len() implies is_view_of(
                    #[trigger] v@[i],
                    p,
                    ids[i],
                    Zoom::Domain,
                ) by {
                    assert(ids[i] == p.functions@[i].id);
                }
            }
            assert(views_of(v@, p, ids));
        }
        let ghost unsorted = v@;
        let sorted = sort_by_name(v);
        self.visible = sorted;
        assert(views_of(unsorted, p, ids) && self.visible@ == sorted_by_name(unsorted));
        if self.selected >= self.visible.len() {
            self.selected = if self.visible.len() == 0 {
                0
            } else {
                self.visible.len() - 1
            };
        }
    }

    // --- reads (the projection the renderer paints) ---

    /// The browse list.
    pub fn visible(&self) -> (r: &[FunctionView])
        ensures
            r@ == self.rows(),
    {
        self.visible.as_slice()
    }

    /// The program's name.
    pub fn program_name(&self) -> (r: &str)
        ensures
            r@ == self.model().name@,
    {
        self.session.program().name.as_str()
    }

    /// The program's language id.
    pub fn language(&self) -> (r: &str)
        ensures
            r@ == self.model().language@,
    {
        self.session.program().language.as_str()
    }

    /// How many functions the model holds.
    pub fn function_count(&self) -> (r: usize)
        ensures
            r == self.model().functions@.len(),
    {
        self.session.program().functions.len()
    }

    /// The id of the highlighted function, if the selection is on a row.
    fn selected_id(&self) -> (r: Option<StableId>)
        ensures
            match r {
                Some(id) => self.sel() < self.rows().len() && id == self.rows()[self.sel() as int].id,
                None => self.sel() >= self.rows().len(),
            },
    {
        if self.selected < self.visible.len() {
            Some(self.visible[self.selected].id)
        } else {
            None
        }
    }

    /// The highlighted function's full view at `Detail` zoom — the detail pane's data.
    pub fn selected_view(&self) -> (r: Option<FunctionView>)
        ensures
            match r {
                Some(v) => self.sel() < self.rows().len() && is_view_of(
                    v,
                    self.model(),
                    self.rows()[self.sel() as int].id,
                    Zoom::Detail,
                ),
                None => self.sel() >= self.rows().len() || index_of(
                    self.model().functions@,
                    self.rows()[self.sel() as int].id,
                ) < 0,
            },
    {
        match self.selected_id() {
            None => None,
            Some(id) => match self.session.view(id, Zoom::Detail) {
                Ok(v) => Some(v),
                Err(_) => None,
            },
        }
    }

    /// The display names of the functions that call the highlighted one.
    pub fn selected_callers(&self) -> (r: Vec<String>)
        ensures
            self.sel() < self.rows().len() ==> r.deep_view() == known_names(
                self.model(),
                callers_of(self.model().functions@, self.rows()[self.sel() as int].id),
            ),
            self.sel() >= self.rows().len() ==> r@.len() == 0,
    {
        let id = match self.selected_id() {
            None => return Vec::new(),
            Some(id) => id,
        };
        let callers = self.session.callers(id);
        let prog = self.session.program();
        let mut out: Vec<String> = Vec::new();
        let mut i: usize = 0;
        while i < callers.len()
            invariant
                i <= callers@.len(),
                *prog == self.model(),
                out.deep_view() == known_names(self.model(), callers@.take(i as int)),
            decreases callers@.len() - i,
        {
            assert(callers@.take(i + 1).drop_last() =~= callers@.take(i as int));
            let ghost before = out.deep_view();
            match prog.display_name(callers[i]) {
                Some(n) => {
                    out.push(n);
                    assert(out.deep_view() =~= before.push(out@[out@.len() - 1]@));
                },
                None => {},
            }
            i += 1;
        }
        assert(callers@.take(callers@.len() as int) =~= callers@);
        out
    }

    // --- diff pane ---

    /// Whether a second artifact was loaded.
    pub fn has_diff(&self) -> (r: bool)
        ensures
            r == self.diff_spec() is Some,
    {
        self.diff.is_some()
    }

    /// The pane showing.
    pub fn screen(&self) -> (r: Screen)
        ensures
            r == self.screen_spec(),
    {
        self.screen
    }

    /// The diff pane's data, if a second artifact was loaded.
    pub fn diff_data(&self) -> (r: Option<&DiffData>)
        ensures
            match (r, self.diff_spec()) {
                (Some(a), Some(b)) => *a == b,
                (None, None) => true,
                _ => false,
            },
    {
        match &self.diff {
            Some(d) => Some(d),
            None => None,
        }
    }

    /// The selection in the diff pane.
    pub fn diff_selected(&self) -> (r: usize)
        ensures
            r == self.diff_sel(),
    {
        self.diff_selected
    }

    fn diff_rows_len(&self) -> (r: usize)
        ensures
            r == self.diff_len(),
    {
        match &self.diff {
            Some(d) => d.rows.len(),
            None => 0,
        }
    }

    /// Flip between the navigator and the diff pane (a no-op without a loaded diff).
    pub fn toggle_screen(&mut self)
        ensures
            final(self).screen_spec() == (if old(self).diff_spec() is None {
                old(self).screen_spec()
            } else if old(self).screen_spec() == Screen::Functions {
                Screen::Diff
            } else {
                Screen::Functions
            }),
            final(self).diff_sel() == old(self).diff_sel(),
            final(self).diff_spec() == old(self).diff_spec(),
            final(self).model() == old(self).model(),
            final(self).rows() == old(self).rows(),
            final(self).sel() == old(self).sel(),
            final(self).mode_spec() == old(self).mode_spec(),
            final(self).filter_text() == old(self).filter_text(),
            final(self).quitting() == old(self).quitting(),
    {
        if !self.has_diff() {
            return;
        }
        self.screen = match self.screen {
            Screen::Functions => Screen::Diff,
            Screen::Diff => Screen::Functions,
        };
    }

    // --- mutators (what the key layer drives; navigation follows the active screen) ---

    /// Move the selection down one row, stopping at the last.
    pub fn down(&mut self)
        ensures
            old(self).screen_spec() == Screen::Functions ==> final(self).sel() == (if old(self).sel() + 1 < old(self).rows().len() {
                (old(self).sel() + 1) as usize
            } else {
                old(self).sel()
            }) && final(self).diff_sel() == old(self).diff_sel(),
            old(self).screen_spec() == Screen::Diff ==> final(self).diff_sel() == (if old(self).diff_sel() + 1 < old(self).diff_len() {
                (old(self).diff_sel() + 1) as usize
            } else {
                old(self).diff_sel()
            }) && final(self).sel() == old(self).sel(),
            final(self).screen_spec() == old(self).screen_spec(),
            final(self).diff_spec() == old(self).diff_spec(),
            final(self).model() == old(self).model(),
            final(self).rows() == old(self).rows(),
            final(self).mode_spec() == old(self).mode_spec(),
            final(self).filter_text() == old(self).filter_text(),
            final(self).quitting() == old(self).quitting(),
    {
        match self.screen {
            Screen::Functions => {
                if self.selected < self.visible.len() && self.selected + 1 < self.visible.len() {
                    self.selected += 1;
                }
            },
            Screen::Diff => {
                let n = self.diff_rows_len();
                if self.diff_selected < n && self.diff_selected + 1 < n {
                    self.diff_selected += 1;
                }
            },
        }
    }

    /// Move the selection up one row, stopping at the first.
    pub fn up(&mut self)
        ensures
            old(self).screen_spec() == Screen::Functions ==> final(self).sel() == (if old(self).sel() > 0 {
                (old(self).sel() - 1) as usize
            } else {
                0
            }) && final(self).diff_sel() == old(self).diff_sel(),
            old(self).screen_spec() == Screen::Diff ==> final(self).diff_sel() == (if old(self).diff_sel() > 0 {
                (old(self).diff_sel() - 1) as usize
            } else {
                0
            }) && final(self).sel() == old(self).sel(),
            final(self).screen_spec() == old(self).screen_spec(),
            final(self).diff_spec() == old(self).diff_spec(),
            final(self).model() == old(self).model(),
            final(self).rows() == old(self).rows(),
            final(self).mode_spec() == old(self).mode_spec(),
            final(self).filter_text() == old(self).filter_text(),
            final(self).quitting() == old(self).quitting(),
    {
        match self.screen {
            Screen::Functions => {
                self.selected = if self.selected > 0 {
                    self.selected - 1
                } else {
                    0
                };
            },
            Screen::Diff => {
                self.diff_selected = if self.diff_selected > 0 {
                    self.diff_selected - 1
                } else {
                    0
                };
            },
        }
    }

    /// Jump to the first row.
    pub fn top(&mut self)
        ensures
            old(self).screen_spec() == Screen::Functions ==> final(self).sel() == 0
                && final(self).diff_sel() == old(self).diff_sel(),
            old(self).screen_spec() == Screen::Diff ==> final(self).diff_sel() == 0
                && final(self).sel() == old(self).sel(),
            final(self).screen_spec() == old(self).screen_spec(),
            final(self).diff_spec() == old(self).diff_spec(),
            final(self).model() == old(self).model(),
            final(self).rows() == old(self).rows(),
            final(self).mode_spec() == old(self).mode_spec(),
            final(self).filter_text() == old(self).filter_text(),
            final(self).quitting() == old(self).quitting(),
    {
        match self.screen {
            Screen::Functions => self.selected = 0,
            Screen::Diff => self.diff_selected = 0,
        }
    }

    /// Jump to the last row (the first, when empty).
    pub fn bottom(&mut self)
        ensures
            old(self).screen_spec() == Screen::Functions ==> final(self).sel() == (if old(
                self,
            ).rows().len() > 0 {
                (old(self).rows().len() - 1) as usize
            } else {
                0
            }) && final(self).diff_sel() == old(self).diff_sel(),
            old(self).screen_spec() == Screen::Diff ==> final(self).diff_sel() == (if old(
                self,
            ).diff_len() > 0 {
                (old(self).diff_len() - 1) as usize
            } else {
                0
            }) && final(self).sel() == old(self).sel(),
            final(self).screen_spec() == old(self).screen_spec(),
            final(self).diff_spec() == old(self).diff_spec(),
            final(self).model() == old(self).model(),
            final(self).rows() == old(self).rows(),
            final(self).mode_spec() == old(self).mode_spec(),
            final(self).filter_text() == old(self).filter_text(),
            final(self).quitting() == old(self).quitting(),
    {
        match self.screen {
            Screen::Functions => {
                self.selected = if self.visible.len() > 0 {
                    self.visible.len() - 1
                } else {
                    0
                };
            },
            Screen::Diff => {
                let n = self.diff_rows_len();
                self.diff_selected = if n > 0 {
                    n - 1
                } else {
                    0
                };
            },
        }
    }

    /// Start typing a search filter.
    pub fn enter_search(&mut self)
        ensures
            final(self).mode_spec() == Mode::Search,
            final(self).sel() == old(self).sel(),
            final(self).filter_text() == old(self).filter_text(),
            final(self).quitting() == old(self).quitting(),
            final(self).screen_spec() == old(self).screen_spec(),
            final(self).diff_sel() == old(self).diff_sel(),
            final(self).diff_spec() == old(self).diff_spec(),
            final(self).model() == old(self).model(),
            final(self).rows() == old(self).rows(),
    {
        self.mode = Mode::Search;
    }

    /// Stop typing the filter (it stays applied).
    pub fn leave_search(&mut self)
        ensures
            final(self).mode_spec() == Mode::Browse,
            final(self).sel() == old(self).sel(),
            final(self).filter_text() == old(self).filter_text(),
            final(self).quitting() == old(self).quitting(),
            final(self).screen_spec() == old(self).screen_spec(),
            final(self).diff_sel() == old(self).diff_sel(),
            final(self).diff_spec() == old(self).diff_spec(),
            final(self).model() == old(self).model(),
            final(self).rows() == old(self).rows(),
    {
        self.mode = Mode::Browse;
    }

    /// Extend the filter by one character and re-run the search from the top.
    pub fn push_filter(&mut self, c: char)
        ensures
            final(self).filter_text() == old(self).filter_text().push(c),
            shows(final(self).rows(), final(self).model(), final(self).filter_text()),
            final(self).sel() == 0,
            final(self).model() == old(self).model(),
            final(self).mode_spec() == old(self).mode_spec(),
            final(self).quitting() == old(self).quitting(),
            final(self).screen_spec() == old(self).screen_spec(),
            final(self).diff_sel() == old(self).diff_sel(),
            final(self).diff_spec() == old(self).diff_spec(),
    {
        crate::text::push_char(&mut self.filter, c);
        self.selected = 0;
        self.recompute();
    }

    /// Drop the filter's last character and re-run the search from the top.
    pub fn pop_filter(&mut self)
        ensures
            final(self).filter_text() == (if old(self).filter_text().len() > 0 {
                old(self).filter_text().drop_last()
            } else {
                old(self).filter_text()
            }),
            shows(final(self).rows(), final(self).model(), final(self).filter_text()),
            final(self).sel() == 0,
            final(self).model() == old(self).model(),
            final(self).mode_spec() == old(self).mode_spec(),
            final(self).quitting() == old(self).quitting(),
            final(self).screen_spec() == old(self).screen_spec(),
            final(self).diff_sel() == old(self).diff_sel(),
            final(self).diff_spec() == old(self).diff_spec(),
    {
        let cs = crate::text::chars_of(self.filter.as_str());
        if cs.len() > 0 {
            let mut kept: Vec<char> = Vec::new();
            let mut i: usize = 0;
            while i < cs.len() - 1
                invariant
                    cs@.len() > 0,
                    i <= cs@.len() - 1,
                    kept@ == cs@.take(i as int),
                decreases cs@.len() - i,
            {
                kept.push(cs[i]);
                assert(kept@ =~= cs@.take(i + 1));
                i += 1;
            }
            assert(kept@ =~= cs@.drop_last());
            self.filter = crate::text::string_from_chars(&kept);
        }
        self.selected = 0;
        self.recompute();
    }

    /// Clear the filter and show everything again, from the top.
    pub fn clear_filter(&mut self)
        ensures
            final(self).filter_text() == Seq::<char>::empty(),
            shows(final(self).rows(), final(self).model(), Seq::empty()),
            final(self).sel() == 0,
            final(self).model() == old(self).model(),
            final(self).mode_spec() == old(self).mode_spec(),
            final(self).quitting() == old(self).quitting(),
            final(self).screen_spec() == old(self).screen_spec(),
            final(self).diff_sel() == old(self).diff_sel(),
            final(self).diff_spec() == old(self).diff_spec(),
    {
        self.filter = String::new();
        self.selected = 0;
        self.recompute();
    }

    /// Ask the event loop to stop.
    pub fn quit(&mut self)
        ensures
            final(self).quitting(),
            final(self).mode_spec() == old(self).mode_spec(),
            final(self).sel() == old(self).sel(),
            final(self).filter_text() == old(self).filter_text(),
            final(self).screen_spec() == old(self).screen_spec(),
            final(self).diff_sel() == old(self).diff_sel(),
            final(self).diff_spec() == old(self).diff_spec(),
            final(self).model() == old(self).model(),
            final(self).rows() == old(self).rows(),
    {
        self.should_quit = true;
    }
}

// ---------------------------------------------------------------------------------------------
// Keys
// ---------------------------------------------------------------------------------------------

/// A key the terminal head reacts to.
#[derive(Clone, Copy, Debug, PartialEq, Eq, Structural)]
pub enum Key {
    Char(char),
    Up,
    Down,
    Home,
    End,
    Tab,
    Esc,
    Enter,
    Backspace,
    Other,
}

/// What a keypress asks of the app.
#[derive(Clone, Copy, Debug, PartialEq, Eq, Structural)]
pub enum Action {
    Quit,
    Down,
    Up,
    Top,
    Bottom,
    ToggleScreen,
    EnterSearch,
    /// Clear the filter and stop typing it.
    Cancel,
    /// Stop typing the filter, keeping it.
    Accept,
    Pop,
    Push(char),
    Nothing,
}

/// The action a key asks for in a mode, on a screen: when browsing, `q` quits, `j`/Down and
/// `k`/Up move, `g`/Home and `G`/End jump, `d`/Tab switch panes and `/` starts a search on the
/// function list; when searching, Esc cancels, Enter accepts, Backspace deletes and any other
/// character extends the filter.
pub open spec fn action_of(mode: Mode, screen: Screen, key: Key) -> Action {
    match mode {
        Mode::Browse => match key {
            Key::Char('q') => Action::Quit,
            Key::Char('j') | Key::Down => Action::Down,
            Key::Char('k') | Key::Up => Action::Up,
            Key::Char('g') | Key::Home => Action::Top,
            Key::Char('G') | Key::End => Action::Bottom,
            Key::Char('d') | Key::Tab => Action::ToggleScreen,
            Key::Char('/') => if screen == Screen::Functions {
                Action::EnterSearch
            } else {
                Action::Nothing
            },
            _ => Action::Nothing,
        },
        Mode::Search => match key {
            Key::Esc => Action::Cancel,
            Key::Enter => Action::Accept,
            Key::Backspace => Action::Pop,
            Key::Char(c) => Action::Push(c),
            _ => Action::Nothing,
        },
    }
}

/// The action a key asks for.
pub fn key_action(mode: Mode, screen: Screen, key: Key) -> (a: Action)
    ensures
        a == action_of(mode, screen, key),
{
    match mode {
        Mode::Browse => match key {
            Key::Char('q') => Action::Quit,
            Key::Char('j') | Key::Down => Action::Down,
            Key::Char('k') | Key::Up => Action::Up,
            Key::Char('g') | Key::Home => Action::Top,
            Key::Char('G') | Key::End => Action::Bottom,
            Key::Char('d') | Key::Tab => Action::ToggleScreen,
            Key::Char('/') => if screen == Screen::Functions {
                Action::EnterSearch
            } else {
                Action::Nothing
            },
            _ => Action::Nothing,
        },
        Mode::Search => match key {
            Key::Esc => Action::Cancel,
            Key::Enter => Action::Accept,
            Key::Backspace => Action::Pop,
            Key::Char(c) => Action::Push(c),
            _ => Action::Nothing,
        },
    }
}

impl App {
    /// Translate one keypress into the app call its action names.
    pub fn handle_key(&mut self, key: Key)
        ensures
            final(self).model() == old(self).model(),
            match action_of(old(self).mode_spec(), old(self).screen_spec(), key) {
                Action::Quit => final(self).quitting() && final(self).mode_spec() == old(self).mode_spec()
                    && final(self).filter_text() == old(self).filter_text(),
                Action::EnterSearch => final(self).mode_spec() == Mode::Search && final(self).filter_text()
                    == old(self).filter_text(),
                Action::Cancel => final(self).mode_spec() == Mode::Browse && final(self).filter_text()
                    == Seq::<char>::empty() && final(self).sel() == 0,
                Action::Accept => final(self).mode_spec() == Mode::Browse && final(self).filter_text()
                    == old(self).filter_text(),
                Action::Pop => final(self).filter_text() == (if old(self).filter_text().len() > 0 {
                    old(self).filter_text().drop_last()
                } else {
                    old(self).filter_text()
                }) && final(self).sel() == 0 && final(self).mode_spec() == old(self).mode_spec(),
                Action::Push(c) => final(self).filter_text() == old(self).filter_text().push(c)
                    && final(self).sel() == 0 && final(self).mode_spec() == old(self).mode_spec(),
                Action::Nothing => final(self).mode_spec() == old(self).mode_spec() && final(self).sel()
                    == old(self).sel() && final(self).filter_text() == old(self).filter_text()
                    && final(self).quitting() == old(self).quitting() && final(self).screen_spec()
                    == old(self).screen_spec() && final(self).diff_sel() == old(self).diff_sel()
                    && final(self).rows() == old(self).rows(),
                _ => final(self).mode_spec() == old(self).mode_spec() && final(self).filter_text()
                    == old(self).filter_text() && final(self).quitting() == old(self).quitting(),
            },
    {
        match key_action(self.mode, self.screen, key) {
            Action::Quit => self.quit(),
            Action::Down => self.down(),
            Action::Up => self.up(),
            Action::Top => self.top(),
            Action::Bottom => self.bottom(),
            Action::ToggleScreen => self.toggle_screen(),
            Action::EnterSearch => self.enter_search(),
            Action::Cancel => {
                self.clear_filter();
                self.leave_search();
            },
            Action::Accept => self.leave_search(),
            Action::Pop => self.pop_filter(),
            Action::Push(c) => self.push_filter(c),
            Action::Nothing => {},
        }
    }
}

} // verus!

verus! {

// ---------------------------------------------------------------------------------------------
// The screen's text: title bar, list title, detail pane, key bar
// ---------------------------------------------------------------------------------------------

/// The title bar after the head's own name: the program, its language and its function count.
pub open spec fn title_text(name: Seq<char>, language: Seq<char>, count: nat) -> Seq<char> {
    "  "@ + name + " ["@ + language + "] \u{2014} "@ + decimal(count) + " functions"@
}

/// The list pane's title: the row count, and the live query when there is one.
pub open spec fn list_title_text(filter: Seq<char>, rows: nat) -> Seq<char> {
    if filter.len() == 0 {
        "functions ("@ + decimal(rows) + ")"@
    } else {
        "functions  /"@ + filter + " ("@ + decimal(rows) + ")"@
    }
}

/// The key bar for a mode.
pub open spec fn status_text(mode: Mode) -> Seq<char> {
    match mode {
        Mode::Browse => "  j/k or \u{2191}/\u{2193} move \u{b7} g/G top/bottom \u{b7} / search \u{b7} q quit  "@,
        Mode::Search => "  type to filter \u{b7} Enter apply \u{b7} Esc clear & exit search  "@,
    }
}

/// The line for an optional number: `prefix`, the number in `base`, `suffix`.
pub open spec fn number_line(x: Option<u64>, prefix: Seq<char>, base: nat, suffix: Seq<char>) -> Seq<Seq<char>> {
    match x {
        Some(n) => seq![prefix + digits(n as nat, base) + suffix],
        None => Seq::empty(),
    }
}

/// The detail pane for the highlighted function's view at `Detail` zoom and its callers' names:
/// name, summary, a blank line, then address, blocks, size and callees when the view has them,
/// and always the callers (a dash for none).
pub open spec fn detail_text(v: Option<FunctionView>, callers: Seq<Seq<char>>) -> Seq<Seq<char>> {
    match v {
        None => seq!["  (no function selected)"@],
        Some(v) => seq![v.name@, v.summary@, Seq::empty()] + number_line(v.addr, "addr     0x"@, 16, Seq::empty())
            + number_line(
            match v.bb_count {
                Some(b) => Some(b as u64),
                None => None,
            },
            "blocks   "@,
            10,
            Seq::empty(),
        ) + number_line(v.size, "size     "@, 10, " bytes"@) + match v.callees {
            Some(c) => seq!["callees  "@ + dashed(joined(c.deep_view()))],
            None => Seq::empty(),
        } + seq!["callers  "@ + dashed(joined(callers))],
    }
}

/// The title bar text.
pub fn title_line(app: &App) -> (r: String)
    ensures
        r@ == title_text(app.model().name@, app.model().language@, app.model().functions@.len()),
{
    let mut s = String::from_str("  ");
    s.append(app.program_name());
    s.append(" [");
    s.append(app.language());
    s.append("] \u{2014} ");
    let n = decimal_string(app.function_count() as u64);
    s.append(n.as_str());
    s.append(" functions");
    proof {
        reveal_strlit("  ");
        reveal_strlit(" [");
        reveal_strlit("] \u{2014} ");
        reveal_strlit(" functions");
    }
    assert(s@ =~= title_text(app.model().name@, app.model().language@, app.model().functions@.len()));
    s
}

/// The list pane's title.
pub fn list_title(app: &App) -> (r: String)
    ensures
        r@ == list_title_text(app.filter_text(), app.rows().len()),
{
    let n = decimal_string(app.visible().len() as u64);
    let f = app.filter.as_str();
    let mut s = String::new();
    if f.is_empty() {
        s.append("functions (");
    } else {
        s.append("functions  /");
        s.append(f);
        s.append(" (");
    }
    s.append(n.as_str());
    s.append(")");
    proof {
        reveal_strlit("functions (");
        reveal_strlit("functions  /");
        reveal_strlit(" (");
        reveal_strlit(")");
    }
    assert(s@ =~= list_title_text(app.filter_text(), app.rows().len()));
    s
}

/// The key bar.
pub fn status_line(mode: Mode) -> (r: &'static str)
    ensures
        r@ == status_text(mode),
{
    match mode {
        Mode::Browse => "  j/k or \u{2191}/\u{2193} move \u{b7} g/G top/bottom \u{b7} / search \u{b7} q quit  ",
        Mode::Search => "  type to filter \u{b7} Enter apply \u{b7} Esc clear & exit search  ",
    }
}

/// The detail pane's lines for a view and its callers' names.
pub fn detail_lines(v: &Option<FunctionView>, callers: &Vec<String>) -> (r: Vec<String>)
    ensures
        r.deep_view() == detail_text(*v, callers.deep_view()),
{
    let mut out: Vec<String> = Vec::new();
    match v {
        None => {
            out.push(String::from_str("  (no function selected)"));
            assert(out.deep_view() =~= detail_text(*v, callers.deep_view()));
            return out;
        },
        Some(v) => {
            out.push(copy_string(&v.name));
            out.push(copy_string(&v.summary));
            out.push(String::new());
            let ghost head = out.deep_view();
            if let Some(a) = v.addr {
                out.push(crate::lsp::bullet_text(Some(a), "addr     0x", 16, ""));
            }
            let ghost l1 = out.deep_view();
            if let Some(b) = v.bb_count {
                out.push(crate::lsp::bullet_text(Some(b as u64), "blocks   ", 10, ""));
            }
            let ghost l2 = out.deep_view();
            if let Some(s) = v.size {
                out.push(crate::lsp::bullet_text(Some(s), "size     ", 10, " bytes"));
            }
            let ghost l3 = out.deep_view();
            if let Some(c) = &v.callees {
                let j = crate::lsp::dash_of(crate::lsp::join_names(c));
                let mut line = String::from_str("callees  ");
                line.append(j.as_str());
                out.push(line);
            }
            let ghost l4 = out.deep_view();
            let j = crate::lsp::dash_of(crate::lsp::join_names(callers));
            let mut line = String::from_str("callers  ");
            line.append(j.as_str());
            out.push(line);
            proof {
                reveal_strlit("");
                assert(l1 =~= head + number_line(v.addr, "addr     0x"@, 16, Seq::empty()));
                assert(l2 =~= l1 + number_line(
                    match v.bb_count {
                        Some(b) => Some(b as u64),
                        None => None,
                    },
                    "blocks   "@,
                    10,
                    Seq::empty(),
                ));
                assert(l3 =~= l2 + number_line(v.size, "size     "@, 10, " bytes"@));
                assert(l4 =~= l3 + match v.callees {
                    Some(c) => seq!["callees  "@ + dashed(joined(c.deep_view()))],
                    None => Seq::empty(),
                });
            }
            assert(out.deep_view() =~= detail_text(Some(*v), callers.deep_view()));
            out
        },
    }
}

} // verus!

verus! {

/// A row of the browse list as plain values: id, name, summary, address, block count, callee
/// and caller names, size.
pub open spec fn row_values(v: FunctionView) -> (
    StableId,
    Seq<char>,
    Seq<char>,
    Option<u64>,
    Option<u32>,
    Option<Seq<Seq<char>>>,
    Option<Seq<Seq<char>>>,
    Option<u64>,
) {
    (
        v.id,
        v.name@,
        v.summary@,
        v.addr,
        v.bb_count,
        match v.callees {
            Some(c) => Some(c.deep_view()),
            None => None,
        },
        match v.callers {
            Some(c) => Some(c.deep_view()),
            None => None,
        },
        v.size,
    )
}

/// Two lists show the same rows, in the same order.
pub open spec fn same_rows(a: Seq<FunctionView>, b: Seq<FunctionView>) -> bool {
    a.len() == b.len() && forall|i: int| 0 <= i < a.len() ==> #[trigger] row_values(a[i]) == row_values(b[i])
}

proof fn lemma_insert_same_rows(a: Seq<FunctionView>, b: Seq<FunctionView>, x: FunctionView, y: FunctionView)
    requires
        same_rows(a, b),
        row_values(x) == row_values(y),
    ensures
        same_rows(insert_by_name(a, x), insert_by_name(b, y)),
    decreases a.len(),
{
    if a.len() > 0 {
        assert(row_values(a[a.len() - 1]) == row_values(b[b.len() - 1]));
        assert(same_rows(a.drop_last(), b.drop_last())) by {
            assert forall|i: int| 0 <= i < a.drop_last().len() implies #[trigger] row_values(a.drop_last()[i])
                == row_values(b.drop_last()[i]) by {
                assert(row_values(a[i]) == row_values(b[i]));
            }
        }
        if text_lt(x.name@, a.last().name@) {
            lemma_insert_same_rows(a.drop_last(), b.drop_last(), x, y);
            let ia = insert_by_name(a.drop_last(), x);
            let ib = insert_by_name(b.drop_last(), y);
            assert forall|i: int| 0 <= i < ia.push(a.last()).len() implies #[trigger] row_values(ia.push(a.last())[i])
                == row_values(ib.push(b.last())[i]) by {
                if i < ia.len() {
                    assert(row_values(ia[i]) == row_values(ib[i]));
                }
            }
        } else {
            assert forall|i: int| 0 <= i < a.push(x).len() implies #[trigger] row_values(a.push(x)[i]) == row_values(
                b.push(y)[i],
            ) by {
                if i < a.len() {
                    assert(row_values(a[i]) == row_values(b[i]));
                }
            }
        }
    }
}

proof fn lemma_sorted_same_rows(a: Seq<FunctionView>, b: Seq<FunctionView>)
    requires
        same_rows(a, b),
    ensures
        same_rows(sorted_by_name(a), sorted_by_name(b)),
    decreases a.len(),
{
    if a.len() > 0 {
        assert(same_rows(a.drop_last(), b.drop_last())) by {
            assert forall|i: int| 0 <= i < a.drop_last().len() implies #[trigger] row_values(a.drop_last()[i])
                == row_values(b.drop_last()[i]) by {
                assert(row_values(a[i]) == row_values(b[i]));
            }
        }
        lemma_sorted_same_rows(a.drop_last(), b.drop_last());
        assert(row_values(a[a.len() - 1]) == row_values(b[b.len() - 1]));
        lemma_insert_same_rows(sorted_by_name(a.drop_last()), sorted_by_name(b.drop_last()), a.last(), b.last());
    }
}

/// The browse list is a function of the model and the filter alone. Every operation of the head
/// keeps the model and ends with the list it shows for its filter (`App::new`, `push_filter`,
/// `pop_filter` and `clear_filter` all state it), so clearing the filter after any sequence of
/// edits restores exactly the unfiltered list the head opened with.
pub proof fn law_the_list_is_determined(p: Program, filter: Seq<char>, a: Seq<FunctionView>, b: Seq<FunctionView>)
    requires
        shows(a, p, filter),
        shows(b, p, filter),
    ensures
        same_rows(a, b),
{
    let va = choose|vs: Seq<FunctionView>| #[trigger] views_of(vs, p, listed_ids(p, filter)) && a == sorted_by_name(vs);
    let vb = choose|vs: Seq<FunctionView>| #[trigger] views_of(vs, p, listed_ids(p, filter)) && b == sorted_by_name(vs);
    assert forall|i: int| 0 <= i < va.len() implies #[trigger] row_values(va[i]) == row_values(vb[i]) by {
        assert(is_view_of(va[i], p, listed_ids(p, filter)[i], Zoom::Domain));
        assert(is_view_of(vb[i], p, listed_ids(p, filter)[i], Zoom::Domain));
    }
    lemma_sorted_same_rows(va, vb);
}

} // verus!
