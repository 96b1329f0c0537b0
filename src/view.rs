//! The view model: the flat sequence of section headers and entries, the
//! scroll offset and the selection, and the navigation over them.

use vstd::prelude::*;
use crate::ranking::{
    is_idle, is_ranking, lemma_ranking_distinct, precedes, query_is_idle, rank, sorted_by, AppEntry,
    Ranked,
};
use crate::usage::{UsageEntry, UsageMap};

verus! {

/// Most entries visible at once; headers do not count.
pub const MAX_RESULTS: usize = 10;

/// Most entries in the "Frequently Used" section.
pub const MAX_FREQUENT: usize = 5;

/// The two sections of the idle view.
#[derive(Clone, Copy, Debug, PartialEq, Eq, Structural)]
pub enum Section {
    Frequent,
    All,
}

impl Section {
    /// The title shown in the section's header row.
    pub fn title(&self) -> (r: &'static str)
        ensures
            r@ == (match self {
                Section::Frequent => "Frequently Used"@,
                Section::All => "All Apps"@,
            }),
    {
        match self {
            Section::Frequent => "Frequently Used",
            Section::All => "All Apps",
        }
    }
}

/// One row of the view: a header, which cannot be selected, or the catalog
/// entry at the given position.
#[derive(Clone, Copy, Debug, PartialEq, Eq, Structural)]
pub enum ViewItem {
    Header(Section),
    App(usize),
}

/// The rows, the first visible row, and the selected row.
#[derive(Debug)]
pub struct ViewState {
    pub items: Vec<ViewItem>,
    pub offset: usize,
    pub selected_index: Option<usize>,
}

/// Number of entries among the rows `lo..hi`.
pub open spec fn count_apps(items: Seq<ViewItem>, lo: int, hi: int) -> int
    decreases hi - lo,
{
    if hi <= lo {
        0
    } else {
        count_apps(items, lo, hi - 1) + if items[hi - 1] is App {
            1int
        } else {
            0int
        }
    }
}

/// Row `s` is visible when the rows start at `o`: it is at or after `o`,
/// and at most `MAX_RESULTS` entries run from `o` through `s`.
pub open spec fn shows(items: Seq<ViewItem>, o: int, s: int) -> bool {
    o <= s && count_apps(items, o, s + 1) <= MAX_RESULTS
}

/// A selection, if present, is an entry row.
pub open spec fn selects_entry(items: Seq<ViewItem>, sel: Option<usize>) -> bool {
    sel matches Some(s) ==> s < items.len() && items[s as int] is App
}

/// The offset that scrolling leaves for selection `sel`, coming from `old`.
pub open spec fn scrolled(items: Seq<ViewItem>, sel: Option<usize>, old: usize, new: usize) -> bool {
    match sel {
        None => new == 0,
        Some(s) => if items.len() <= MAX_RESULTS {
            new == 0
        } else if s < old {
            new == s
        } else {
            &&& old <= new
            &&& shows(items, new as int, s as int)
            &&& forall|o: int| old <= o < new ==> !shows(items, o, s as int)
        },
    }
}

/// `r` is the first entry row, if any.
pub open spec fn is_first_app(items: Seq<ViewItem>, r: Option<usize>) -> bool {
    match r {
        None => forall|k: int| 0 <= k < items.len() ==> !(#[trigger] items[k] is App),
        Some(i) => i < items.len() && items[i as int] is App && forall|k: int|
            0 <= k < i ==> !(#[trigger] items[k] is App),
    }
}

/// `r` is the nearest entry row after `start`, if any.
pub open spec fn is_app_after(items: Seq<ViewItem>, start: int, r: Option<usize>) -> bool {
    if r is Some {
        let i = r->0 as int;
        &&& start < i < items.len()
        &&& items[i] is App
        &&& forall|k: int| start < k < i ==> !(#[trigger] items[k] is App)
    } else {
        forall|k: int| start < k < items.len() ==> !(#[trigger] items[k] is App)
    }
}

/// `r` is the nearest entry row before `start`, if any.
pub open spec fn is_app_before(items: Seq<ViewItem>, start: int, r: Option<usize>) -> bool {
    if r is Some {
        let i = r->0 as int;
        &&& 0 <= i < start
        &&& i < items.len()
        &&& items[i] is App
        &&& forall|k: int| i < k < start && k < items.len() ==> !(#[trigger] items[k] is App)
    } else {
        forall|k: int| 0 <= k < start && k < items.len() ==> !(#[trigger] items[k] is App)
    }
}

/// `r` is the nearest entry row after `start` (direction 1) or before it
/// (direction -1), if any.
pub open spec fn is_next_app(items: Seq<ViewItem>, start: int, direction: i32, r: Option<usize>) -> bool {
    if direction > 0 {
        is_app_after(items, start, r)
    } else {
        is_app_before(items, start, r)
    }
}

pub proof fn lemma_count_bounds(items: Seq<ViewItem>, lo: int, hi: int)
    ensures
        lo <= hi ==> 0 <= count_apps(items, lo, hi) <= hi - lo,
    decreases hi - lo,
{
    if lo < hi {
        lemma_count_bounds(items, lo, hi - 1);
    }
}

/// Number of entries among the rows `lo..hi`.
pub fn count_entries(items: &Vec<ViewItem>, lo: usize, hi: usize) -> (r: usize)
    requires
        lo <= hi <= items@.len(),
    ensures
        r == count_apps(items@, lo as int, hi as int),
{
    let mut k: usize = lo;
    let mut n: usize = 0;
    while k < hi
        invariant
            lo <= k <= hi,
            hi <= items@.len(),
            n == count_apps(items@, lo as int, k as int),
            n <= k - lo,
        decreases hi - k,
    {
        if let ViewItem::App(_) = items[k] {
            n += 1;
        }
        k += 1;
    }
    n
}

/// The first entry row, if any.
pub fn first_selectable_index(items: &Vec<ViewItem>) -> (r: Option<usize>)
    ensures
        is_first_app(items@, r),
{
    let mut i: usize = 0;
    while i < items.len()
        invariant
            i <= items@.len(),
            forall|k: int| 0 <= k < i ==> !(#[trigger] items@[k] is App),
        decreases items.len() - i,
    {
        if let ViewItem::App(_) = items[i] {
            return Some(i);
        }
        i += 1;
    }
    None
}

/// The nearest entry row after `start` (direction 1) or before it
/// (direction -1), if any; headers are skipped.
pub fn next_selectable_index(items: &Vec<ViewItem>, start: usize, direction: i32) -> (r: Option<usize>)
    requires
        direction == 1 || direction == -1,
    ensures
        is_next_app(items@, start as int, direction, r),
{
    if direction > 0 {
        if start >= items.len() {
            return None;
        }
        let mut k: usize = start + 1;
        while k < items.len()
            invariant
                start < k <= items@.len(),
                direction == 1,
                forall|j: int| start < j < k ==> !(#[trigger] items@[j] is App),
            decreases items.len() - k,
        {
            if let ViewItem::App(_) = items[k] {
                return Some(k);
            }
            k += 1;
        }
        None
    } else {
        let mut i: usize = if start < items.len() {
            start
        } else {
            items.len()
        };
        while i > 0
            invariant
                i <= start,
                i <= items@.len(),
                direction == -1,
                forall|k: int| i <= k < start && k < items@.len() ==> !(#[trigger] items@[k] is App),
            decreases i,
        {
            if let ViewItem::App(_) = items[i - 1] {
                assert(items@[i - 1] is App);
                return Some(i - 1);
            }
            i -= 1;
        }
        None
    }
}

impl ViewState {
    /// The selection, if present, is an entry row.
    pub open spec fn wf(&self) -> bool {
        selects_entry(self.items@, self.selected_index)
    }

    /// An empty view.
    pub fn new() -> (r: ViewState)
        ensures
            r.wf(),
            r.items@.len() == 0,
            r.offset == 0,
            r.selected_index.is_none(),
    {
        ViewState { items: Vec::new(), offset: 0, selected_index: None }
    }
}

/// Scrolls just enough that the selected entry is visible: to the top when
/// everything fits or nothing is selected, up to the selection when it lies
/// above, and otherwise down one row at a time until at most `MAX_RESULTS`
/// entries run from the first visible row through the selection.
pub fn ensure_visible(view_state: &mut ViewState)
    requires
        old(view_state).wf(),
    ensures
        final(view_state).wf(),
        final(view_state).items@ == old(view_state).items@,
        final(view_state).selected_index == old(view_state).selected_index,
        scrolled(old(view_state).items@, old(view_state).selected_index, old(view_state).offset, final(view_state).offset),
        final(view_state).selected_index matches Some(s) ==> shows(
            final(view_state).items@,
            final(view_state).offset as int,
            s as int,
        ),
{
    let selected = match view_state.selected_index {
        Some(s) => s,
        None => {
            view_state.offset = 0;
            return;
        },
    };
    if view_state.items.len() <= MAX_RESULTS {
        view_state.offset = 0;
        proof {
            lemma_count_bounds(view_state.items@, 0, selected + 1);
        }
        return;
    }
    if selected < view_state.offset {
        view_state.offset = selected;
        proof {
            reveal_with_fuel(count_apps, 2);
        }
        return;
    }
    let n: usize = view_state.items.len();
    proof {
        reveal_with_fuel(count_apps, 2);
        assert(shows(view_state.items@, selected as int, selected as int));
    }
    while count_entries(&view_state.items, view_state.offset, selected + 1) > MAX_RESULTS
        invariant
            view_state.wf(),
            view_state.items@ == old(view_state).items@,
            view_state.selected_index == Some(selected),
            old(view_state).offset <= view_state.offset <= selected,
            selected < n,
            n == view_state.items@.len(),
            shows(view_state.items@, selected as int, selected as int),
            forall|o: int| old(view_state).offset <= o < view_state.offset ==> !shows(view_state.items@, o, selected as int),
        decreases selected - view_state.offset,
    {
        view_state.offset = view_state.offset + 1;
    }
}

/// End of the visible rows that start at `offset`: rows run until the last
/// one, or until `MAX_RESULTS` entries have been included.
pub fn visible_end(items: &Vec<ViewItem>, offset: usize) -> (r: usize)
    requires
        offset <= items@.len(),
    ensures
        offset <= r <= items@.len(),
        r == items@.len() || count_apps(items@, offset as int, r as int) == MAX_RESULTS,
        forall|e: int| offset <= e < r ==> count_apps(items@, offset as int, e) < MAX_RESULTS,
{
    let mut e: usize = offset;
    let mut n: usize = 0;
    while e < items.len() && n < MAX_RESULTS
        invariant
            offset <= e <= items@.len(),
            n == count_apps(items@, offset as int, e as int),
            n <= MAX_RESULTS,
            forall|k: int| offset <= k < e ==> count_apps(items@, offset as int, k) < MAX_RESULTS,
        decreases items.len() - e,
    {
        if let ViewItem::App(_) = items[e] {
            n += 1;
        }
        e += 1;
    }
    e
}

/// The catalog position of the entry shown at rendered row `row`, if that
/// row is visible and holds an entry.
pub fn entry_at_row(view_state: &ViewState, row: i32) -> (r: Option<usize>)
    ensures
        r matches Some(i) ==> 0 <= row && view_state.offset + row < view_state.items@.len()
            && view_state.items@[view_state.offset + row] == ViewItem::App(i)
            && view_state.offset <= view_state.items@.len()
            && count_apps(view_state.items@, view_state.offset as int, view_state.offset + row) < MAX_RESULTS,
        ({
            let a = view_state.offset + row;
            let n = view_state.items@.len();
            (0 <= row && a < n && view_state.items@[a] is App && view_state.offset <= n
                && count_apps(view_state.items@, view_state.offset as int, a) < MAX_RESULTS)
                ==> r is Some
        }),
{
    if row < 0 || view_state.offset > view_state.items.len() {
        return None;
    }
    let end = visible_end(&view_state.items, view_state.offset);
    let r = row as usize;
    if r >= end - view_state.offset {
        proof {
            let a = view_state.offset + row;
            if a < view_state.items@.len() && view_state.items@[a] is App && end < view_state.items@.len() {
                assert(count_apps(view_state.items@, view_state.offset as int, end as int) == MAX_RESULTS);
                lemma_count_monotone(view_state.items@, view_state.offset as int, end as int, a);
            }
        }
        return None;
    }
    match view_state.items[view_state.offset + r] {
        ViewItem::App(i) => Some(i),
        ViewItem::Header(_) => None,
    }
}

pub proof fn lemma_count_monotone(items: Seq<ViewItem>, lo: int, a: int, b: int)
    requires
        lo <= a <= b,
    ensures
        count_apps(items, lo, a) <= count_apps(items, lo, b),
    decreases b - a,
{
    if a < b {
        lemma_count_monotone(items, lo, a, b - 1);
    }
}

/// Moves the selection one entry down (1) or up (-1), skipping headers; with
/// nothing selected, selects the first entry. At either end nothing changes.
pub fn move_selection(view_state: &mut ViewState, direction: i32)
    requires
        old(view_state).wf(),
        direction == 1 || direction == -1,
    ensures
        final(view_state).wf(),
        final(view_state).items@ == old(view_state).items@,
        match old(view_state).selected_index {
            None => is_first_app(old(view_state).items@, final(view_state).selected_index)
                && scrolled(old(view_state).items@, final(view_state).selected_index, old(view_state).offset, final(view_state).offset),
            Some(cur) => if is_next_app(old(view_state).items@, cur as int, direction, None) {
                final(view_state).selected_index == old(view_state).selected_index
                    && final(view_state).offset == old(view_state).offset
            } else {
                final(view_state).selected_index is Some
                    && is_next_app(old(view_state).items@, cur as int, direction, final(view_state).selected_index)
                    && scrolled(old(view_state).items@, final(view_state).selected_index, old(view_state).offset, final(view_state).offset)
            },
        },
{
    match view_state.selected_index {
        None => {
            view_state.selected_index = first_selectable_index(&view_state.items);
            ensure_visible(view_state);
        },
        Some(current) => {
            match next_selectable_index(&view_state.items, current, direction) {
                Some(next) => {
                    view_state.selected_index = Some(next);
                    ensure_visible(view_state);
                },
                None => {},
            }
        },
    }
}

/// One entry row per ranked item, in order.
pub open spec fn app_items(r: Seq<Ranked>) -> Seq<ViewItem> {
    r.map_values(|x: Ranked| ViewItem::App(x.index))
}

/// The ranked items that the "Frequently Used" section shows.
pub open spec fn frequent_part(r: Seq<Ranked>) -> Seq<Ranked> {
    if r.len() <= MAX_FREQUENT {
        r
    } else {
        r.take(MAX_FREQUENT as int)
    }
}

/// Catalog position `j` is among the ranked items of `f`.
pub open spec fn in_ranked(f: Seq<Ranked>, j: int) -> bool {
    exists|k: int| 0 <= k < f.len() && #[trigger] f[k].index == j
}

/// Entry rows for the first `n` catalog positions that `f` does not hold,
/// in catalog order.
pub open spec fn rest_items(f: Seq<Ranked>, n: nat) -> Seq<ViewItem>
    decreases n,
{
    if n == 0 {
        seq![]
    } else {
        let p = rest_items(f, (n - 1) as nat);
        if in_ranked(f, n - 1) {
            p
        } else {
            p.push(ViewItem::App((n - 1) as usize))
        }
    }
}

/// The rows for ranking `r` of a catalog of `n` entries: in query mode the
/// ranked entries; in idle mode a "Frequently Used" section (when any entry
/// has a record) and an "All Apps" section with every other entry.
pub open spec fn layout(q: Seq<char>, r: Seq<Ranked>, n: nat) -> Seq<ViewItem> {
    if !is_idle(q) {
        app_items(r)
    } else {
        let f = frequent_part(r);
        let top = if f.len() > 0 {
            seq![ViewItem::Header(Section::Frequent)] + app_items(f)
        } else {
            seq![]
        };
        top + seq![ViewItem::Header(Section::All)] + rest_items(f, n)
    }
}

/// Whether catalog position `j` is among the first `upto` ranked items.
fn among(r: &Vec<Ranked>, upto: usize, j: usize) -> (b: bool)
    requires
        upto <= r@.len(),
    ensures
        b == in_ranked(r@.take(upto as int), j as int),
{
    let ghost f = r@.take(upto as int);
    let mut k: usize = 0;
    while k < upto
        invariant
            k <= upto <= r@.len(),
            f == r@.take(upto as int),
            forall|m: int| 0 <= m < k ==> (#[trigger] f[m]).index != j,
        decreases upto - k,
    {
        if r[k].index == j {
            assert(f[k as int].index == j);
            return true;
        }
        k += 1;
    }
    false
}

/// Appends an entry row for each of the first `upto` ranked items.
fn push_ranked(items: &mut Vec<ViewItem>, r: &Vec<Ranked>, upto: usize)
    requires
        upto <= r@.len(),
    ensures
        final(items)@ == old(items)@ + app_items(r@.take(upto as int)),
{
    let mut k: usize = 0;
    while k < upto
        invariant
            k <= upto <= r@.len(),
            items@ == old(items)@ + app_items(r@.take(k as int)),
        decreases upto - k,
    {
        items.push(ViewItem::App(r[k].index));
        assert(r@.take(k + 1) == r@.take(k as int).push(r@[k as int]));
        assert(app_items(r@.take(k + 1)) =~= app_items(r@.take(k as int)).push(ViewItem::App(r@[k as int].index)));
        k += 1;
    }
}

/// The rows for a query: the ranked entries in query mode; in idle mode the
/// "Frequently Used" section, then "All Apps" with every other entry.
pub fn build_view_items(apps: &Vec<AppEntry>, query: &str, usage: &UsageMap) -> (items: Vec<ViewItem>)
    requires
        usage.wf(),
    ensures
        exists|r: Seq<Ranked>|
            is_ranking(apps@, query@, usage@, r) && items@ == #[trigger] layout(query@, r, apps@.len()),
{
    let ranked = rank(apps, query, usage);
    let mut items: Vec<ViewItem> = Vec::new();
    if !query_is_idle(query) {
        push_ranked(&mut items, &ranked, ranked.len());
        assert(ranked@.take(ranked@.len() as int) =~= ranked@);
        assert(items@ =~= layout(query@, ranked@, apps@.len()));
        return items;
    }
    let nf: usize = if ranked.len() <= MAX_FREQUENT {
        ranked.len()
    } else {
        MAX_FREQUENT
    };
    let ghost f = frequent_part(ranked@);
    assert(f =~= ranked@.take(nf as int));
    if nf > 0 {
        items.push(ViewItem::Header(Section::Frequent));
        push_ranked(&mut items, &ranked, nf);
    }
    items.push(ViewItem::Header(Section::All));
    let ghost head = items@;
    let mut j: usize = 0;
    while j < apps.len()
        invariant
            j <= apps@.len(),
            nf <= ranked@.len(),
            f == ranked@.take(nf as int),
            items@ == head + rest_items(f, j as nat),
        decreases apps.len() - j,
    {
        if !among(&ranked, nf, j) {
            items.push(ViewItem::App(j));
        }
        j += 1;
    }
    assert(items@ =~= layout(query@, ranked@, apps@.len()));
    items
}

/// Rebuilds the rows for a new query, scrolls to the top and selects the
/// first entry.
pub fn update_results(view_state: &mut ViewState, apps: &Vec<AppEntry>, query: &str, usage: &UsageMap)
    requires
        usage.wf(),
    ensures
        final(view_state).wf(),
        exists|r: Seq<Ranked>|
            is_ranking(apps@, query@, usage@, r) && final(view_state).items@ == #[trigger] layout(query@, r, apps@.len()),
        final(view_state).offset == 0,
        is_first_app(final(view_state).items@, final(view_state).selected_index),
{
    view_state.items = build_view_items(apps, query, usage);
    view_state.offset = 0;
    view_state.selected_index = first_selectable_index(&view_state.items);
}

/// In idle mode the "Frequently Used" section holds at most
/// `MAX_FREQUENT` entries, the first ones of the ranking: each has a usage
/// record and scores `count * 1000 + last_used`; they come in ranked order
/// (score descending, then folded name ascending), and every ranked entry
/// left out of the section comes after all of them.
pub proof fn lemma_frequent_section(c: Seq<AppEntry>, q: Seq<char>, u: Map<Seq<char>, UsageEntry>, r: Seq<Ranked>)
    requires
        is_ranking(c, q, u, r),
        is_idle(q),
        c.len() <= usize::MAX,
    ensures
        frequent_part(r).len() <= MAX_FREQUENT,
        frequent_part(r).len() == (if r.len() <= MAX_FREQUENT { r.len() } else { MAX_FREQUENT as nat }),
        forall|i: int| 0 <= i < frequent_part(r).len() ==> {
            let e = c[(#[trigger] frequent_part(r)[i]).index as int];
            &&& u.contains_key(e.key@)
            &&& frequent_part(r)[i].score == u[e.key@].count * 1000 + u[e.key@].last_used
        },
        sorted_by(c, frequent_part(r)),
        forall|i: int, k: int|
            0 <= i < frequent_part(r).len() <= k < r.len() ==> precedes(c, #[trigger] frequent_part(r)[i], #[trigger] r[k]),
{
    lemma_ranking_distinct(c, q, u, r);
    let f = frequent_part(r);
    assert forall|i: int| 0 <= i < f.len() implies f[i] == r[i] by {}
}

/// Some row shows catalog position `j`.
pub open spec fn has_row(items: Seq<ViewItem>, j: int) -> bool {
    exists|p: int| 0 <= p < items.len() && #[trigger] items[p] == ViewItem::App(j as usize)
}

proof fn lemma_rest_items(f: Seq<Ranked>, n: nat)
    requires
        n <= usize::MAX,
    ensures
        forall|p: int| 0 <= p < rest_items(f, n).len() ==> {
            let it = #[trigger] rest_items(f, n)[p];
            &&& it is App
            &&& (it->App_0 as int) < n
            &&& !in_ranked(f, it->App_0 as int)
        },
        forall|pa: int, pb: int|
            0 <= pa < pb < rest_items(f, n).len() ==> (#[trigger] rest_items(f, n)[pa])->App_0
                < (#[trigger] rest_items(f, n)[pb])->App_0,
        forall|j: int|
            0 <= j < n && !in_ranked(f, j) ==> exists|p: int|
                0 <= p < rest_items(f, n).len() && #[trigger] rest_items(f, n)[p] == ViewItem::App(j as usize),
    decreases n,
{
    if n > 0 {
        lemma_rest_items(f, (n - 1) as nat);
        let p = rest_items(f, (n - 1) as nat);
        if !in_ranked(f, n - 1) {
            assert(rest_items(f, n) == p.push(ViewItem::App((n - 1) as usize)));
            assert forall|j: int|
                0 <= j < n && !in_ranked(f, j) implies exists|k: int|
                    0 <= k < rest_items(f, n).len() && #[trigger] rest_items(f, n)[k] == ViewItem::App(j as usize) by {
                if j == n - 1 {
                    assert(rest_items(f, n)[p.len() as int] == ViewItem::App(j as usize));
                } else {
                    let k = choose|k: int| 0 <= k < p.len() && #[trigger] p[k] == ViewItem::App(j as usize);
                    assert(rest_items(f, n)[k] == ViewItem::App(j as usize));
                }
            }
        } else {
            assert(rest_items(f, n) == p);
        }
    }
}

/// In idle mode every catalog entry has exactly one row, and every entry
/// row stands for a catalog entry: the two sections together cover the
/// catalog once.
pub proof fn lemma_idle_rows_cover_catalog(c: Seq<AppEntry>, q: Seq<char>, u: Map<Seq<char>, UsageEntry>, r: Seq<Ranked>)
    requires
        is_ranking(c, q, u, r),
        is_idle(q),
        c.len() <= usize::MAX,
    ensures
        forall|j: int| 0 <= j < c.len() ==> #[trigger] has_row(layout(q, r, c.len()), j),
        forall|pa: int, pb: int|
            0 <= pa < pb < layout(q, r, c.len()).len() && (#[trigger] layout(q, r, c.len())[pa]) is App
                ==> layout(q, r, c.len())[pa] != #[trigger] layout(q, r, c.len())[pb],
        forall|p: int|
            0 <= p < layout(q, r, c.len()).len() && (#[trigger] layout(q, r, c.len())[p]) is App
                ==> (layout(q, r, c.len())[p]->App_0 as int) < c.len(),
{
    lemma_ranking_distinct(c, q, u, r);
    let n = c.len();
    let f = frequent_part(r);
    lemma_rest_items(f, n);
    let rest = rest_items(f, n);
    let items = layout(q, r, n);
    let top = if f.len() > 0 {
        seq![ViewItem::Header(Section::Frequent)] + app_items(f)
    } else {
        seq![]
    };
    let t = top.len() as int;
    assert(items == top + seq![ViewItem::Header(Section::All)] + rest);
    assert forall|i: int| 0 <= i < f.len() implies f[i] == r[i] by {}
    assert forall|p: int| 0 <= p < t implies (#[trigger] items[p] is App <==> p >= 1) && (p >= 1 ==> items[p] == ViewItem::App(f[p - 1].index)) by {
        assert(items[p] == top[p]);
    }
    assert(items[t] == ViewItem::Header(Section::All));
    assert forall|p: int| t < p < items.len() implies #[trigger] items[p] == rest[p - t - 1] by {}
    assert forall|j: int| 0 <= j < n implies #[trigger] has_row(items, j) by {
        if in_ranked(f, j) {
            let k = choose|k: int| 0 <= k < f.len() && #[trigger] f[k].index == j;
            assert(items[k + 1] == ViewItem::App(j as usize));
        } else {
            let k = choose|k: int| 0 <= k < rest.len() && #[trigger] rest[k] == ViewItem::App(j as usize);
            assert(items[t + 1 + k] == ViewItem::App(j as usize));
        }
    }
    assert forall|pa: int, pb: int|
        0 <= pa < pb < items.len() && (#[trigger] items[pa]) is App implies items[pa] != #[trigger] items[pb] by {
        if pb < t {
            assert(f[pa - 1].index != f[pb - 1].index);
        } else if pa < t && pb > t {
            let j = f[pa - 1].index as int;
            assert(in_ranked(f, j));
            assert(!in_ranked(f, rest[pb - t - 1]->App_0 as int));
        } else if pa > t {
            assert(rest[pa - t - 1]->App_0 < rest[pb - t - 1]->App_0);
        }
    }
    assert forall|p: int|
        0 <= p < items.len() && (#[trigger] items[p]) is App implies (items[p]->App_0 as int) < n by {
        if p < t {
            assert(r[p - 1].index < n);
        } else if p > t {
            assert(rest[p - t - 1]->App_0 < n);
        }
    }
}

/// Number of catalog positions below `n` that `f` holds.
pub open spec fn ranked_below(f: Seq<Ranked>, n: nat) -> nat
    decreases n,
{
    if n == 0 {
        0
    } else {
        ranked_below(f, (n - 1) as nat) + if in_ranked(f, n - 1) {
            1nat
        } else {
            0nat
        }
    }
}

proof fn lemma_count_prefix(a: Seq<ViewItem>, b: Seq<ViewItem>, hi: int)
    requires
        0 <= hi <= a.len(),
        hi <= b.len(),
        forall|i: int| 0 <= i < hi ==> a[i] == b[i],
    ensures
        count_apps(a, 0, hi) == count_apps(b, 0, hi),
    decreases hi,
{
    if hi > 0 {
        lemma_count_prefix(a, b, hi - 1);
    }
}

proof fn lemma_count_concat(a: Seq<ViewItem>, b: Seq<ViewItem>, k: int)
    requires
        0 <= k <= b.len(),
    ensures
        count_apps(a + b, 0, a.len() + k) == count_apps(a, 0, a.len() as int) + count_apps(b, 0, k),
    decreases k,
{
    if k == 0 {
        lemma_count_prefix(a + b, a, a.len() as int);
    } else {
        lemma_count_concat(a, b, k - 1);
        assert((a + b)[a.len() + k - 1] == b[k - 1]);
    }
}

proof fn lemma_count_all_apps(items: Seq<ViewItem>, k: int)
    requires
        0 <= k <= items.len(),
        forall|i: int| 0 <= i < items.len() ==> (#[trigger] items[i]) is App,
    ensures
        count_apps(items, 0, k) == k,
    decreases k,
{
    if k > 0 {
        lemma_count_all_apps(items, k - 1);
    }
}

proof fn lemma_count_rest(f: Seq<Ranked>, n: nat)
    ensures
        count_apps(rest_items(f, n), 0, rest_items(f, n).len() as int) == n - ranked_below(f, n),
        ranked_below(f, n) <= n,
    decreases n,
{
    if n > 0 {
        lemma_count_rest(f, (n - 1) as nat);
        let p = rest_items(f, (n - 1) as nat);
        if !in_ranked(f, n - 1) {
            let q = p.push(ViewItem::App((n - 1) as usize));
            assert(rest_items(f, n) == q);
            lemma_count_prefix(q, p, p.len() as int);
        }
    }
}

proof fn lemma_below_push(f: Seq<Ranked>, x: Ranked, n: nat)
    requires
        !in_ranked(f, x.index as int),
    ensures
        ranked_below(f.push(x), n) == ranked_below(f, n) + if (x.index as int) < n {
            1nat
        } else {
            0nat
        },
    decreases n,
{
    if n > 0 {
        lemma_below_push(f, x, (n - 1) as nat);
        let g = f.push(x);
        let j = n - 1;
        if in_ranked(g, j) {
            let k = choose|k: int| 0 <= k < g.len() && #[trigger] g[k].index == j;
            if k < f.len() {
                assert(f[k].index == j);
            }
        }
        if in_ranked(f, j) {
            let k = choose|k: int| 0 <= k < f.len() && #[trigger] f[k].index == j;
            assert(g[k].index == j);
        }
        if j == x.index {
            assert(g[f.len() as int].index == j);
        }
    }
}

proof fn lemma_below_len(f: Seq<Ranked>, n: nat)
    requires
        forall|i: int| 0 <= i < f.len() ==> (#[trigger] f[i]).index < n,
        forall|i: int, k: int| 0 <= i < k < f.len() ==> (#[trigger] f[i]).index != (#[trigger] f[k]).index,
    ensures
        ranked_below(f, n) == f.len(),
    decreases f.len(),
{
    if f.len() == 0 {
        lemma_below_empty(f, n);
    } else {
        let g = f.drop_last();
        let x = f.last();
        lemma_below_len(g, n);
        if in_ranked(g, x.index as int) {
            let k = choose|k: int| 0 <= k < g.len() && #[trigger] g[k].index == x.index;
            assert(f[k].index != f[f.len() - 1].index);
        }
        lemma_below_push(g, x, n);
        assert(g.push(x) =~= f);
    }
}

proof fn lemma_below_empty(f: Seq<Ranked>, n: nat)
    requires
        f.len() == 0,
    ensures
        ranked_below(f, n) == 0,
    decreases n,
{
    if n > 0 {
        lemma_below_empty(f, (n - 1) as nat);
    }
}

/// In idle mode the rows hold exactly as many entries as the catalog.
pub proof fn lemma_idle_entry_count(c: Seq<AppEntry>, q: Seq<char>, u: Map<Seq<char>, UsageEntry>, r: Seq<Ranked>)
    requires
        is_ranking(c, q, u, r),
        is_idle(q),
        c.len() <= usize::MAX,
    ensures
        count_apps(layout(q, r, c.len()), 0, layout(q, r, c.len()).len() as int) == c.len(),
{
    lemma_ranking_distinct(c, q, u, r);
    let n = c.len();
    let f = frequent_part(r);
    assert forall|i: int| 0 <= i < f.len() implies f[i] == r[i] by {}
    lemma_below_len(f, n);
    lemma_count_rest(f, n);
    let rest = rest_items(f, n);
    let apps = app_items(f);
    assert forall|i: int| 0 <= i < apps.len() implies (#[trigger] apps[i]) is App by {}
    lemma_count_all_apps(apps, apps.len() as int);
    let top = if f.len() > 0 {
        seq![ViewItem::Header(Section::Frequent)] + apps
    } else {
        seq![]
    };
    let hd = seq![ViewItem::Header(Section::All)];
    if f.len() > 0 {
        let h = seq![ViewItem::Header(Section::Frequent)];
        lemma_count_concat(h, apps, apps.len() as int);
        reveal_with_fuel(count_apps, 2);
    }
    assert(count_apps(top, 0, top.len() as int) == f.len());
    lemma_count_concat(top, hd, 1);
    reveal_with_fuel(count_apps, 2);
    lemma_count_concat(top + hd, rest, rest.len() as int);
    assert(layout(q, r, n) == top + hd + rest);
}

} // verus!
