//! Assembling the catalog from what the application registry reports.

use vstd::prelude::*;
use crate::ranking::{fold_names, sort_ranked, sorted_by, AppEntry, Ranked};
use crate::text::{trim, trim_of};
use crate::usage::UsageMap;
use vstd::string::StringExecFns;

verus! {

/// Positions among the first `n` of `found` whose names are not blank, in
/// order, each with score 0.
pub open spec fn named(found: Seq<AppEntry>, n: nat) -> Seq<Ranked>
    decreases n,
{
    if n == 0 || n > found.len() {
        seq![]
    } else {
        let p = named(found, (n - 1) as nat);
        if trim_of(found[n - 1].name@).len() > 0 {
            p.push(Ranked { score: 0, index: (n - 1) as usize })
        } else {
            p
        }
    }
}

/// `order` lists the entries of `found` with a non-blank name, sorted by
/// folded name, equal names in the order found.
pub open spec fn is_catalog_order(found: Seq<AppEntry>, order: Seq<Ranked>) -> bool {
    let s = named(found, found.len());
    &&& order.len() == s.len()
    &&& forall|x: Ranked| order.contains(x) <==> s.contains(x)
    &&& sorted_by(found, order)
}

/// The entries of `found` at the positions that `order` lists.
pub open spec fn entries_in(found: Seq<AppEntry>, order: Seq<Ranked>) -> Seq<AppEntry> {
    order.map_values(|x: Ranked| found[x.index as int])
}

proof fn lemma_named(found: Seq<AppEntry>, n: nat)
    requires
        n <= found.len() <= usize::MAX,
    ensures
        forall|i: int| 0 <= i < named(found, n).len() ==> (#[trigger] named(found, n)[i]).index < n,
        forall|i: int, j: int|
            0 <= i < j < named(found, n).len() ==> #[trigger] named(found, n)[i].index
                < #[trigger] named(found, n)[j].index,
    decreases n,
{
    if n > 0 {
        lemma_named(found, (n - 1) as nat);
        let p = named(found, (n - 1) as nat);
        if trim_of(found[n - 1].name@).len() > 0 {
            assert(named(found, n) == p.push(Ranked { score: 0, index: (n - 1) as usize }));
        } else {
            assert(named(found, n) == p);
        }
    }
}

/// A copy of `e`.
fn copy_entry(e: &AppEntry) -> (r: AppEntry)
    ensures
        r == *e,
{
    AppEntry { key: e.key.clone(), name: e.name.clone(), slot: e.slot }
}

/// The catalog: the entries found, less those whose name is blank, sorted
/// by case-folded name; entries with equal folded names keep their order.
pub fn build_catalog(found: &Vec<AppEntry>) -> (r: Vec<AppEntry>)
    ensures
        exists|order: Seq<Ranked>|
            is_catalog_order(found@, order) && r@ == #[trigger] entries_in(found@, order),
{
    let mut kept: Vec<Ranked> = Vec::new();
    let mut i: usize = 0;
    while i < found.len()
        invariant
            i <= found@.len(),
            kept@ == named(found@, i as nat),
        decreases found.len() - i,
    {
        if !trim(found[i].name.as_str()).is_empty() {
            kept.push(Ranked { score: 0, index: i });
        }
        i += 1;
    }
    proof {
        lemma_named(found@, found@.len());
    }
    let folds = fold_names(found);
    let order = sort_ranked(&kept, &folds, Ghost(found@));
    assert forall|m: int| 0 <= m < order@.len() implies (#[trigger] order@[m]).index < found@.len() by {
        assert(order@.contains(order@[m]));
        let j = choose|j: int| 0 <= j < kept@.len() && kept@[j] == order@[m];
    }
    let mut r: Vec<AppEntry> = Vec::new();
    let mut k: usize = 0;
    while k < order.len()
        invariant
            k <= order@.len(),
            forall|m: int| 0 <= m < order@.len() ==> (#[trigger] order@[m]).index < found@.len(),
            r@ == entries_in(found@, order@.take(k as int)),
        decreases order.len() - k,
    {
        r.push(copy_entry(&found[order[k].index]));
        assert(entries_in(found@, order@.take(k + 1)) =~= entries_in(found@, order@.take(k as int)).push(
            found@[order@[k as int].index as int],
        ));
        k += 1;
    }
    assert(order@.take(k as int) =~= order@);
    r
}

/// The decimal digits of `n`, most significant first.
pub open spec fn decimal(n: nat) -> Seq<char>
    decreases n,
{
    let digits = seq!['0', '1', '2', '3', '4', '5', '6', '7', '8', '9'];
    if n < 10 {
        seq![digits[n as int]]
    } else {
        decimal(n / 10).push(digits[(n % 10) as int])
    }
}

/// Relies on `ToString` through `Display` for `u64`: the count in decimal.
#[verifier::external_body]
fn decimal_text(count: u64) -> (r: String)
    ensures
        r@ == decimal(count as nat),
{
    count.to_string()
}

/// The identity of an application: the registry's id where it has one,
/// else its display name.
pub fn usage_key(id: Option<String>, name: &String) -> (r: String)
    ensures
        r@ == (match id {
            Some(i) => i@,
            None => name@,
        }),
{
    match id {
        Some(i) => i,
        None => name.clone(),
    }
}

/// The text of an entry's row: its name, followed by its launch count when
/// counts are shown (0 without a record).
pub fn usage_label_text(app: &AppEntry, usage: &UsageMap, show_usage: bool) -> (r: String)
    requires
        usage.wf(),
    ensures
        !show_usage ==> r@ == app.name@,
        show_usage ==> r@ == app.name@ + "  ("@ + decimal(
            if usage@.contains_key(app.key@) {
                usage@[app.key@].count as nat
            } else {
                0
            },
        ) + " uses)"@,
{
    if !show_usage {
        return app.name.clone();
    }
    let count: u64 = match usage.get(&app.key) {
        Some(entry) => entry.count,
        None => 0,
    };
    let digits = decimal_text(count);
    app.name.clone().concat("  (").concat(digits.as_str()).concat(" uses)")
}

} // verus!
