//! The ranking engine: match scores in query mode, frequency scores in idle
//! mode, and a stable order by descending score, then folded name.

use vstd::prelude::*;
use vstd::utf8::encode_utf8;
use crate::similarity::{similarity_points, similarity_score};
use crate::text::{
    chars_of, contains_chars, contains_text, jaro_winkler_bits, lemma_lex_asymmetric,
    lemma_lex_total, lemma_lex_transitive, lex_lt, lower_of, lowercase, similarity_bits, text_lt,
    trim, trim_of,
};
use crate::usage::{UsageEntry, UsageMap};

verus! {

/// One launchable program of the catalog.
#[derive(Debug)]
pub struct AppEntry {
    /// Stable identity used for usage lookups.
    pub key: String,
    /// Human-readable name; the catalog holds no blank ones.
    pub name: String,
    /// Slot of the opaque launch handle and icon kept by the registry side.
    pub slot: usize,
}

/// A scored catalog entry: its score and its position in the catalog.
#[derive(Clone, Copy, Debug, PartialEq, Eq, Structural)]
pub struct Ranked {
    pub score: i128,
    pub index: usize,
}

/// The query holds nothing but whitespace: idle mode.
pub open spec fn is_idle(query: Seq<char>) -> bool {
    trim_of(query).len() == 0
}

/// What a usage record adds to a match score.
pub open spec fn usage_nudge(u: Map<Seq<char>, UsageEntry>, key: Seq<char>) -> int {
    if u.contains_key(key) {
        u[key].count * 10
    } else {
        0
    }
}

/// Length in bytes of the UTF-8 encoding, as `str::len` reports it.
pub open spec fn byte_len(s: Seq<char>) -> int {
    encode_utf8(s).len() as usize as int
}

/// Match score of a folded name against a folded query, given the bit
/// pattern of their similarity: a substring scores 1000 less the surplus of
/// the name's UTF-8 length over the query's; otherwise the similarity
/// decides.
pub open spec fn folded_match(name_l: Seq<char>, query_l: Seq<char>, bits: u64) -> Option<int> {
    if contains_text(name_l, query_l) {
        let d = byte_len(name_l) - byte_len(query_l);
        Some(1000 - if d > 0 {
            d
        } else {
            0
        })
    } else {
        similarity_points(bits)
    }
}

/// Match score of a display name against a query (0 for an idle query).
pub open spec fn match_points(name: Seq<char>, query: Seq<char>) -> Option<int> {
    let nl = lower_of(name);
    let ql = lower_of(trim_of(query));
    if is_idle(query) {
        Some(0)
    } else {
        folded_match(nl, ql, jaro_winkler_bits(nl, ql))
    }
}

/// Score of a catalog entry, or none where the entry is left out.
pub open spec fn entry_points(e: AppEntry, query: Seq<char>, u: Map<Seq<char>, UsageEntry>) -> Option<int> {
    if is_idle(query) {
        if u.contains_key(e.key@) {
            Some(u[e.key@].count * 1000 + u[e.key@].last_used)
        } else {
            None
        }
    } else {
        match match_points(e.name@, query) {
            Some(s) => Some(s + usage_nudge(u, e.key@)),
            None => None,
        }
    }
}

/// The scored entries among the first `n` of the catalog, in catalog order.
pub open spec fn scored(c: Seq<AppEntry>, q: Seq<char>, u: Map<Seq<char>, UsageEntry>, n: nat) -> Seq<Ranked>
    decreases n,
{
    if n == 0 || n > c.len() {
        seq![]
    } else {
        let p = scored(c, q, u, (n - 1) as nat);
        match entry_points(c[n - 1], q, u) {
            Some(s) => p.push(Ranked { score: s as i128, index: (n - 1) as usize }),
            None => p,
        }
    }
}

/// The folded display name of the catalog entry at `i`.
pub open spec fn folded_name(c: Seq<AppEntry>, i: int) -> Seq<char> {
    lower_of(c[i].name@)
}

/// `a` comes before `b`: higher score first, then folded name ascending,
/// then catalog position.
pub open spec fn precedes(c: Seq<AppEntry>, a: Ranked, b: Ranked) -> bool {
    let fa = folded_name(c, a.index as int);
    let fb = folded_name(c, b.index as int);
    a.score > b.score || (a.score == b.score && (lex_lt(fa, fb) || (fa == fb && a.index < b.index)))
}

/// Every item comes before every later one.
pub open spec fn sorted_by(c: Seq<AppEntry>, r: Seq<Ranked>) -> bool {
    forall|i: int, j: int| 0 <= i < j < r.len() ==> precedes(c, #[trigger] r[i], #[trigger] r[j])
}

/// `r` holds exactly the scored entries, in ranked order.
pub open spec fn is_ranking(c: Seq<AppEntry>, q: Seq<char>, u: Map<Seq<char>, UsageEntry>, r: Seq<Ranked>) -> bool {
    let s = scored(c, q, u, c.len());
    &&& r.len() == s.len()
    &&& forall|x: Ranked| r.contains(x) <==> s.contains(x)
    &&& sorted_by(c, r)
}

/// The folded names of a whole catalog.
pub open spec fn folds_match(c: Seq<AppEntry>, folds: Seq<Vec<char>>) -> bool {
    folds.len() == c.len() && forall|i: int| 0 <= i < c.len() ==> (#[trigger] folds[i])@ == folded_name(c, i)
}

pub proof fn lemma_scored(c: Seq<AppEntry>, q: Seq<char>, u: Map<Seq<char>, UsageEntry>, n: nat)
    requires
        n <= c.len() <= usize::MAX,
    ensures
        forall|i: int| 0 <= i < scored(c, q, u, n).len() ==> {
            let x = #[trigger] scored(c, q, u, n)[i];
            &&& x.index < n
            &&& entry_points(c[x.index as int], q, u) == Some(x.score as int)
        },
        forall|i: int, j: int|
            0 <= i < j < scored(c, q, u, n).len() ==> #[trigger] scored(c, q, u, n)[i].index
                < #[trigger] scored(c, q, u, n)[j].index,
        forall|j: int|
            0 <= j < n && (#[trigger] entry_points(c[j], q, u)) is Some ==> exists|i: int|
                0 <= i < scored(c, q, u, n).len() && scored(c, q, u, n)[i].index == j,
    decreases n,
{
    if n > 0 {
        lemma_scored(c, q, u, (n - 1) as nat);
        let p = scored(c, q, u, (n - 1) as nat);
        match entry_points(c[n - 1], q, u) {
            Some(s) => {
                assert(scored(c, q, u, n) == p.push(Ranked { score: s as i128, index: (n - 1) as usize }));
                lemma_points_bounded(c[n - 1], q, u);
                assert forall|j: int|
                    0 <= j < n && (#[trigger] entry_points(c[j], q, u)) is Some implies exists|i: int|
                        0 <= i < scored(c, q, u, n).len() && scored(c, q, u, n)[i].index == j by {
                    if j == n - 1 {
                        assert(scored(c, q, u, n)[p.len() as int].index == j);
                    } else {
                        let i = choose|i: int| 0 <= i < p.len() && p[i].index == j;
                        assert(scored(c, q, u, n)[i].index == j);
                    }
                }
            },
            None => {
                assert forall|j: int|
                    0 <= j < n && (#[trigger] entry_points(c[j], q, u)) is Some implies exists|i: int|
                        0 <= i < scored(c, q, u, n).len() && scored(c, q, u, n)[i].index == j by {
                    let i = choose|i: int| 0 <= i < p.len() && p[i].index == j;
                }
            },
        }
    }
}

/// Every score fits in an `i128`.
pub proof fn lemma_points_bounded(e: AppEntry, q: Seq<char>, u: Map<Seq<char>, UsageEntry>)
    ensures
        entry_points(e, q, u) matches Some(s) ==> i128::MIN <= s <= i128::MAX,
{
    if !is_idle(q) {
        let nl = lower_of(e.name@);
        let ql = lower_of(trim_of(q));
        let bits = jaro_winkler_bits(nl, ql);
        if !contains_text(nl, ql) {
            if similarity_points(bits) is Some {
                lemma_similarity_points_bounded(bits);
            }
        }
    }
}

proof fn lemma_similarity_points_bounded(b: u64)
    ensures
        similarity_points(b) matches Some(v) ==> 750 <= v <= 1000,
{
    if similarity_points(b) is Some {
        crate::similarity::lemma_thousandfold_range(b);
    }
}

pub proof fn lemma_precedes_irreflexive(c: Seq<AppEntry>, a: Ranked)
    ensures
        !precedes(c, a, a),
{
    let f = folded_name(c, a.index as int);
    lemma_lex_asymmetric(f, f);
}

pub proof fn lemma_precedes_asymmetric(c: Seq<AppEntry>, a: Ranked, b: Ranked)
    requires
        precedes(c, a, b),
    ensures
        !precedes(c, b, a),
{
    lemma_lex_asymmetric(folded_name(c, a.index as int), folded_name(c, b.index as int));
    lemma_lex_asymmetric(folded_name(c, b.index as int), folded_name(c, a.index as int));
    let f = folded_name(c, a.index as int);
    lemma_lex_asymmetric(f, f);
}

pub proof fn lemma_precedes_total(c: Seq<AppEntry>, a: Ranked, b: Ranked)
    requires
        a.index != b.index,
    ensures
        precedes(c, a, b) || precedes(c, b, a),
{
    let fa = folded_name(c, a.index as int);
    let fb = folded_name(c, b.index as int);
    if fa != fb {
        lemma_lex_total(fa, fb);
    }
}

pub proof fn lemma_precedes_transitive(c: Seq<AppEntry>, a: Ranked, b: Ranked, x: Ranked)
    requires
        precedes(c, a, b),
        precedes(c, b, x),
    ensures
        precedes(c, a, x),
{
    let fa = folded_name(c, a.index as int);
    let fb = folded_name(c, b.index as int);
    let fx = folded_name(c, x.index as int);
    if a.score == b.score && b.score == x.score && lex_lt(fa, fb) && lex_lt(fb, fx) {
        lemma_lex_transitive(fa, fb, fx);
    }
}

/// Whether `a` comes before `b` in ranked order.
fn precedes_exec(a: Ranked, b: Ranked, folds: &Vec<Vec<char>>, Ghost(c): Ghost<Seq<AppEntry>>) -> (r: bool)
    requires
        folds_match(c, folds@),
        a.index < c.len(),
        b.index < c.len(),
    ensures
        r == precedes(c, a, b),
{
    if a.score != b.score {
        return a.score > b.score;
    }
    let fa = &folds[a.index];
    let fb = &folds[b.index];
    proof {
        lemma_lex_asymmetric(fa@, fa@);
    }
    if text_lt(fa, fb) {
        return true;
    }
    if text_lt(fb, fa) {
        return false;
    }
    proof {
        if fa@ != fb@ {
            lemma_lex_total(fa@, fb@);
        }
    }
    a.index < b.index
}

/// The folded display names of the catalog.
pub(crate) fn fold_names(catalog: &Vec<AppEntry>) -> (r: Vec<Vec<char>>)
    ensures
        folds_match(catalog@, r@),
{
    let mut r: Vec<Vec<char>> = Vec::new();
    let mut i: usize = 0;
    while i < catalog.len()
        invariant
            i <= catalog@.len(),
            r@.len() == i,
            forall|k: int| 0 <= k < i ==> (#[trigger] r@[k])@ == folded_name(catalog@, k),
        decreases catalog.len() - i,
    {
        let lower = lowercase(catalog[i].name.as_str());
        r.push(chars_of(lower.as_str()));
        i += 1;
    }
    r
}

/// Sorts scored entries, given in increasing catalog position, into ranked
/// order.
pub(crate) fn sort_ranked(list: &Vec<Ranked>, folds: &Vec<Vec<char>>, Ghost(c): Ghost<Seq<AppEntry>>) -> (r: Vec<Ranked>)
    requires
        folds_match(c, folds@),
        forall|i: int| 0 <= i < list@.len() ==> (#[trigger] list@[i]).index < c.len(),
        forall|i: int, j: int| 0 <= i < j < list@.len() ==> (#[trigger] list@[i]).index < (#[trigger] list@[j]).index,
    ensures
        r@.len() == list@.len(),
        forall|x: Ranked| r@.contains(x) <==> list@.contains(x),
        sorted_by(c, r@),
{
    let mut res: Vec<Ranked> = Vec::new();
    let mut i: usize = 0;
    while i < list.len()
        invariant
            i <= list@.len(),
            folds_match(c, folds@),
            forall|k: int| 0 <= k < list@.len() ==> (#[trigger] list@[k]).index < c.len(),
            forall|k: int, j: int| 0 <= k < j < list@.len() ==> (#[trigger] list@[k]).index < (#[trigger] list@[j]).index,
            res@.len() == i,
            forall|x: Ranked| res@.contains(x) <==> list@.subrange(0, i as int).contains(x),
            sorted_by(c, res@),
        decreases list.len() - i,
    {
        let item = list[i];
        assert forall|k: int| 0 <= k < res@.len() implies (#[trigger] res@[k]).index < item.index
            && res@[k].index < c.len() by {
            assert(res@.contains(res@[k]));
            let j = choose|j: int| 0 <= j < i && list@.subrange(0, i as int)[j] == res@[k];
            assert(list@[j] == res@[k]);
        }
        let mut p: usize = 0;
        while p < res.len() && precedes_exec(res[p], item, folds, Ghost(c))
            invariant
                p <= res@.len(),
                folds_match(c, folds@),
                item.index < c.len(),
                forall|k: int| 0 <= k < res@.len() ==> (#[trigger] res@[k]).index < item.index && res@[k].index < c.len(),
                forall|k: int| 0 <= k < p ==> precedes(c, #[trigger] res@[k], item),
            decreases res.len() - p,
        {
            p += 1;
        }
        let ghost old_res = res@;
        proof {
            if p < old_res.len() {
                lemma_precedes_total(c, old_res[p as int], item);
                assert forall|k: int| p <= k < old_res.len() implies precedes(c, item, #[trigger] old_res[k]) by {
                    if k > p {
                        lemma_precedes_transitive(c, item, old_res[p as int], old_res[k]);
                    }
                }
            }
        }
        res.insert(p, item);
        proof {
            let n = res@;
            let sub1 = list@.subrange(0, i + 1);
            assert(n == old_res.insert(p as int, item));
            assert forall|a: int, b: int| 0 <= a < b < n.len() implies precedes(c, #[trigger] n[a], #[trigger] n[b]) by {
                if b < p {
                } else if a < p && b == p {
                } else if a < p {
                    assert(n[b] == old_res[b - 1]);
                } else if a == p {
                    assert(n[b] == old_res[b - 1]);
                } else {
                    assert(n[a] == old_res[a - 1]);
                    assert(n[b] == old_res[b - 1]);
                }
            }
            assert forall|x: Ranked| n.contains(x) <==> list@.subrange(0, i + 1).contains(x) by {
                if n.contains(x) {
                    let k = choose|k: int| 0 <= k < n.len() && n[k] == x;
                    if k < p {
                        assert(old_res[k] == x);
                        assert(old_res.contains(x));
                        let j = choose|j: int| 0 <= j < i && list@.subrange(0, i as int)[j] == x;
                        assert(list@.subrange(0, i + 1)[j] == x);
                    } else if k == p {
                        assert(list@.subrange(0, i + 1)[i as int] == x);
                    } else {
                        assert(old_res[k - 1] == x);
                        assert(old_res.contains(x));
                        let j = choose|j: int| 0 <= j < i && list@.subrange(0, i as int)[j] == x;
                        assert(list@.subrange(0, i + 1)[j] == x);
                    }
                }
                if list@.subrange(0, i + 1).contains(x) {
                    let j = choose|j: int| 0 <= j < i + 1 && sub1[j] == x;
                    if j == i {
                        assert(n[p as int] == x);
                    } else {
                        assert(list@.subrange(0, i as int)[j] == x);
                        assert(old_res.contains(x));
                        let k = choose|k: int| 0 <= k < old_res.len() && old_res[k] == x;
                        if k < p {
                            assert(n[k] == x);
                        } else {
                            assert(n[k + 1] == x);
                        }
                    }
                }
            }
        }
        i += 1;
    }
    assert(list@.subrange(0, i as int) =~= list@);
    res
}

/// Match score of a folded name against a folded query, given the bit
/// pattern of their Jaro-Winkler similarity.
pub fn score_folded(name_l: &str, query_l: &str, bits: u64) -> (r: Option<i128>)
    ensures
        r == (match folded_match(name_l@, query_l@, bits) {
            Some(v) => Some(v as i128),
            None => None,
        }),
{
    let nc = chars_of(name_l);
    let qc = chars_of(query_l);
    if contains_chars(&nc, &qc) {
        let nb: i128 = name_l.len() as i128;
        let qb: i128 = query_l.len() as i128;
        let d: i128 = nb - qb;
        let penalty: i128 = if d > 0 {
            d
        } else {
            0
        };
        Some(1000 - penalty)
    } else {
        similarity_score(bits)
    }
}

/// Match score of a display name against a query, case-insensitive; `Some(0)`
/// for a query of whitespace alone, none where the name is left out.
pub fn score_match(name: &str, query: &str) -> (r: Option<i128>)
    ensures
        r == (match match_points(name@, query@) {
            Some(v) => Some(v as i128),
            None => None,
        }),
{
    let q = trim(query);
    if q.is_empty() {
        return Some(0);
    }
    let name_l = lowercase(name);
    let query_l = lowercase(q);
    let bits = similarity_bits(name_l.as_str(), query_l.as_str());
    score_folded(name_l.as_str(), query_l.as_str(), bits)
}

/// Whether the query holds nothing but whitespace.
pub fn query_is_idle(query: &str) -> (r: bool)
    ensures
        r == is_idle(query@),
{
    trim(query).is_empty()
}

/// Scores every catalog entry; keeps the scored ones, in catalog order.
pub fn score_apps(catalog: &Vec<AppEntry>, query: &str, usage: &UsageMap) -> (r: Vec<Ranked>)
    requires
        usage.wf(),
    ensures
        r@ == scored(catalog@, query@, usage@, catalog@.len()),
{
    let idle = query_is_idle(query);
    let mut r: Vec<Ranked> = Vec::new();
    let mut i: usize = 0;
    while i < catalog.len()
        invariant
            i <= catalog@.len(),
            usage.wf(),
            idle == is_idle(query@),
            r@ == scored(catalog@, query@, usage@, i as nat),
        decreases catalog.len() - i,
    {
        let app = &catalog[i];
        proof {
            lemma_points_bounded(catalog@[i as int], query@, usage@);
        }
        let points: Option<i128> = if idle {
            match usage.get(&app.key) {
                Some(e) => Some(e.count as i128 * 1000 + e.last_used as i128),
                None => None,
            }
        } else {
            match score_match(app.name.as_str(), query) {
                Some(s) => {
                    proof {
                        let nl = lower_of(app.name@);
                        let ql = lower_of(trim_of(query@));
                        if !contains_text(nl, ql) {
                            lemma_similarity_points_bounded(jaro_winkler_bits(nl, ql));
                        }
                    }
                    match usage.get(&app.key) {
                        Some(e) => Some(s + e.count as i128 * 10),
                        None => Some(s),
                    }
                },
                None => None,
            }
        };
        if let Some(score) = points {
            r.push(Ranked { score, index: i });
        }
        i += 1;
    }
    r
}

/// The scored catalog entries in ranked order: descending score, then
/// ascending folded name, then catalog position.
pub fn rank(catalog: &Vec<AppEntry>, query: &str, usage: &UsageMap) -> (r: Vec<Ranked>)
    requires
        usage.wf(),
    ensures
        is_ranking(catalog@, query@, usage@, r@),
{
    let list = score_apps(catalog, query, usage);
    let count: usize = catalog.len();
    proof {
        assert(catalog@.len() == count as nat);
        lemma_scored(catalog@, query@, usage@, catalog@.len());
    }
    let folds = fold_names(catalog);
    sort_ranked(&list, &folds, Ghost(catalog@))
}

/// The folded name contains the folded, trimmed query, or their similarity
/// lies between three quarters and one.
pub open spec fn admitted(name: Seq<char>, q: Seq<char>) -> bool {
    let nl = lower_of(name);
    let ql = lower_of(trim_of(q));
    contains_text(nl, ql) || (crate::similarity::THRESHOLD_BITS <= jaro_winkler_bits(nl, ql)
        <= crate::similarity::ONE_BITS)
}

/// Catalog position `j` is among the ranked items.
pub open spec fn ranks(r: Seq<Ranked>, j: int) -> bool {
    exists|i: int| 0 <= i < r.len() && #[trigger] r[i].index == j
}

/// In query mode an entry is ranked exactly when its folded name contains
/// the folded query or the two are similar enough; every other entry is
/// left out.
pub proof fn lemma_query_mode_filter(c: Seq<AppEntry>, q: Seq<char>, u: Map<Seq<char>, UsageEntry>, r: Seq<Ranked>)
    requires
        is_ranking(c, q, u, r),
        !is_idle(q),
        c.len() <= usize::MAX,
    ensures
        forall|j: int| 0 <= j < c.len() ==> (ranks(r, j) <==> admitted(#[trigger] c[j].name@, q)),
{
    let s = scored(c, q, u, c.len());
    lemma_scored(c, q, u, c.len());
    assert forall|j: int| 0 <= j < c.len() implies (ranks(r, j) <==> admitted(#[trigger] c[j].name@, q)) by {
        if ranks(r, j) {
            let i = choose|i: int| 0 <= i < r.len() && #[trigger] r[i].index == j;
            assert(r.contains(r[i]));
            let k = choose|k: int| 0 <= k < s.len() && s[k] == r[i];
            assert(entry_points(c[j], q, u) is Some);
        }
        if admitted(c[j].name@, q) {
            assert(entry_points(c[j], q, u) is Some);
            let k = choose|k: int| 0 <= k < s.len() && s[k].index == j;
            assert(s.contains(s[k]));
            let i = choose|i: int| 0 <= i < r.len() && r[i] == s[k];
            assert(r[i].index == j);
        }
    }
}

proof fn lemma_sorted_unique(c: Seq<AppEntry>, a: Seq<Ranked>, b: Seq<Ranked>)
    requires
        sorted_by(c, a),
        sorted_by(c, b),
        a.len() == b.len(),
        forall|x: Ranked| a.contains(x) <==> b.contains(x),
    ensures
        a == b,
    decreases a.len(),
{
    if a.len() > 0 {
        assert(a.contains(a[0]));
        assert(b.contains(b[0]));
        let kb = choose|k: int| 0 <= k < b.len() && b[k] == a[0];
        let ka = choose|k: int| 0 <= k < a.len() && a[k] == b[0];
        if a[0] != b[0] {
            assert(precedes(c, b[0], b[kb]));
            assert(precedes(c, a[0], a[ka]));
            lemma_precedes_asymmetric(c, a[0], b[0]);
        }
        let a1 = a.drop_first();
        let b1 = b.drop_first();
        assert forall|x: Ranked| a1.contains(x) <==> b1.contains(x) by {
            if a1.contains(x) {
                let i = choose|i: int| 0 <= i < a1.len() && a1[i] == x;
                assert(precedes(c, a[0], a[i + 1]));
                lemma_precedes_irreflexive(c, a[0]);
                assert(a.contains(x));
                let k = choose|k: int| 0 <= k < b.len() && b[k] == x;
                assert(k != 0);
                assert(b1[k - 1] == x);
            }
            if b1.contains(x) {
                let i = choose|i: int| 0 <= i < b1.len() && b1[i] == x;
                assert(precedes(c, b[0], b[i + 1]));
                lemma_precedes_irreflexive(c, b[0]);
                assert(b.contains(x));
                let k = choose|k: int| 0 <= k < a.len() && a[k] == x;
                assert(k != 0);
                assert(a1[k - 1] == x);
            }
        }
        assert(sorted_by(c, a1)) by {
            assert forall|i: int, j: int| 0 <= i < j < a1.len() implies precedes(c, #[trigger] a1[i], #[trigger] a1[j]) by {
                assert(precedes(c, a[i + 1], a[j + 1]));
            }
        }
        assert(sorted_by(c, b1)) by {
            assert forall|i: int, j: int| 0 <= i < j < b1.len() implies precedes(c, #[trigger] b1[i], #[trigger] b1[j]) by {
                assert(precedes(c, b[i + 1], b[j + 1]));
            }
        }
        lemma_sorted_unique(c, a1, b1);
        assert(a =~= seq![a[0]] + a1);
        assert(b =~= seq![b[0]] + b1);
    } else {
        assert(a =~= b);
    }
}

/// Ranking is deterministic: for the same catalog, query and usage there
/// is exactly one ranked order.
pub proof fn lemma_ranking_unique(
    c: Seq<AppEntry>,
    q: Seq<char>,
    u: Map<Seq<char>, UsageEntry>,
    r1: Seq<Ranked>,
    r2: Seq<Ranked>,
)
    requires
        is_ranking(c, q, u, r1),
        is_ranking(c, q, u, r2),
    ensures
        r1 == r2,
{
    lemma_sorted_unique(c, r1, r2);
}

/// The ranked items name distinct catalog positions, each in the catalog.
pub proof fn lemma_ranking_distinct(c: Seq<AppEntry>, q: Seq<char>, u: Map<Seq<char>, UsageEntry>, r: Seq<Ranked>)
    requires
        is_ranking(c, q, u, r),
        c.len() <= usize::MAX,
    ensures
        forall|i: int| 0 <= i < r.len() ==> (#[trigger] r[i]).index < c.len()
            && entry_points(c[r[i].index as int], q, u) == Some(r[i].score as int),
        forall|i: int, j: int| 0 <= i < j < r.len() ==> (#[trigger] r[i]).index != (#[trigger] r[j]).index,
{
    let s = scored(c, q, u, c.len());
    lemma_scored(c, q, u, c.len());
    assert forall|i: int| 0 <= i < r.len() implies (#[trigger] r[i]).index < c.len()
        && entry_points(c[r[i].index as int], q, u) == Some(r[i].score as int) by {
        assert(r.contains(r[i]));
        let k = choose|k: int| 0 <= k < s.len() && s[k] == r[i];
    }
    assert forall|i: int, j: int| 0 <= i < j < r.len() implies (#[trigger] r[i]).index != (#[trigger] r[j]).index by {
        assert(r.contains(r[i]));
        assert(r.contains(r[j]));
        let ki = choose|k: int| 0 <= k < s.len() && s[k] == r[i];
        let kj = choose|k: int| 0 <= k < s.len() && s[k] == r[j];
        if r[i].index == r[j].index {
            if ki < kj {
                assert(s[ki].index < s[kj].index);
            } else if kj < ki {
                assert(s[kj].index < s[ki].index);
            }
            assert(r[i] == r[j]);
            assert(precedes(c, r[i], r[j]));
            lemma_precedes_irreflexive(c, r[i]);
        }
    }
}

} // verus!
