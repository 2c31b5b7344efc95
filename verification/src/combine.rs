//! How the matches of several queries are combined: a match of one query is shown
//! where it goes together with matches of the others.

use std::sync::Arc;
use vstd::prelude::*;

use crate::constraints::values;
use crate::order::{in_order, lemma_filter_in_order, lemma_in_order_self, lemma_in_order_trans};
use crate::report::{views, Match, MatchView};
use crate::table::Table;

verus! {

/// A match of one of several queries, with the file in which it was found.
pub struct ResultsCtx {
    pub query_index: usize,
    pub path: String,
    pub source: Arc<String>,
    pub result: Match,
}

/// What a [`ResultsCtx`] says, with its texts as character sequences.
pub struct ContextView {
    pub query_index: nat,
    pub path: Seq<char>,
    pub source: Seq<char>,
    pub result: MatchView,
}

impl ResultsCtx {
    pub open spec fn view(&self) -> ContextView {
        ContextView {
            query_index: self.query_index as nat,
            path: self.path@,
            source: (*self.source)@,
            result: self.result.view(),
        }
    }
}

/// What the results say.
pub open spec fn context_views(results: Seq<ResultsCtx>) -> Seq<ContextView> {
    results.map_values(|r: ResultsCtx| r.view())
}

/// The matches that one query has in one file, each with the query and the file.
pub open spec fn placed(
    matches: Seq<MatchView>,
    query_index: nat,
    path: Seq<char>,
    source: Seq<char>,
) -> Seq<ContextView> {
    matches.map_values(|m: MatchView| ContextView { query_index, path, source, result: m })
}

/// The matches of all queries in one file, query by query.
pub open spec fn all_placed(
    reports: Seq<Vec<Match>>,
    path: Seq<char>,
    source: Seq<char>,
) -> Seq<ContextView>
    decreases reports.len(),
{
    if reports.len() == 0 {
        Seq::empty()
    } else {
        all_placed(reports.drop_last(), path, source) + placed(
            views(reports.last()@),
            (reports.len() - 1) as nat,
            path,
            source,
        )
    }
}

/// `Arc::clone`: another pointer to the same text.
#[verifier::external_body]
fn share(source: &Arc<String>) -> (shared: Arc<String>)
    ensures
        shared == *source,
{
    Arc::clone(source)
}

/// Gives every match that was reported in one file its query and its file.
pub fn place_results(reports: Vec<Vec<Match>>, path: &String, source: &Arc<String>) -> (results:
    Vec<ResultsCtx>)
    ensures
        context_views(results@) == all_placed(reports@, path@, (**source)@),
        forall|i: int|
            0 <= i < results@.len() ==> (#[trigger] results@[i]).query_index < reports@.len(),
{
    let ghost all = reports@;
    let mut results: Vec<ResultsCtx> = Vec::new();
    let mut query_index: usize = 0;
    let n: usize = reports.len();
    assert(all.take(0) =~= Seq::empty());
    assert(context_views(results@) =~= Seq::empty());
    for report in it: reports
        invariant
            it.seq() == all,
            n == all.len(),
            query_index == it.index(),
            context_views(results@) == all_placed(
                all.take(query_index as int),
                path@,
                (**source)@,
            ),
            forall|i: int| 0 <= i < results@.len() ==> (#[trigger] results@[i]).query_index < n,
    {
        let ghost matches = report@;
        let ghost before = context_views(results@);
        proof {
            let k = query_index as int;
            assert(report == all[k]);
            assert(all.take(k + 1).drop_last() =~= all.take(k));
            assert(all.take(k + 1).last() == report);
        }
        assert(before + placed(
            views(matches.take(0)),
            query_index as nat,
            path@,
            (**source)@,
        ) =~= before);
        for m in inner: report
            invariant
                inner.seq() == matches,
                query_index < n,
                context_views(results@) == before + placed(
                    views(matches.take(inner.index() as int)),
                    query_index as nat,
                    path@,
                    (**source)@,
                ),
                forall|i: int| 0 <= i < results@.len() ==> (#[trigger] results@[i]).query_index < n,
        {
            let ghost k = inner.index() as int;
            let ghost seen = results@;
            assert(m == matches[k]);
            let ctx = ResultsCtx {
                query_index,
                path: path.clone(),
                source: share(source),
                result: m,
            };
            results.push(ctx);
            assert(context_views(results@) =~= context_views(seen).push(ctx.view()));
            assert(context_views(results@) =~= before + placed(
                views(matches.take(k + 1)),
                query_index as nat,
                path@,
                (**source)@,
            ));
        }
        assert(matches.take(matches.len() as int) =~= matches);
        query_index = query_index + 1;
    }
    assert(all.take(all.len() as int) =~= all);
    results
}

/// Two assignments of values to variables agree on the variables that both have.
pub open spec fn agree(
    a: Map<Seq<char>, Seq<char>>,
    b: Map<Seq<char>, Seq<char>>,
) -> bool {
    forall|var: Seq<char>|
        #![trigger a.dom().contains(var)]
        #![trigger b.dom().contains(var)]
        a.dom().contains(var) && b.dom().contains(var) ==> a[var] == b[var]
}

/// Two matches go together: they agree on the variables that both have.
pub open spec fn chain(a: ResultsCtx, b: ResultsCtx) -> bool {
    agree(values(a.result.bindings), values(b.result.bindings))
}

/// Whether two assignments agree on the variables that both have.
pub fn chainable(a: &Table<String>, b: &Table<String>) -> (ok: bool)
    ensures
        ok == agree(values(*a), values(*b)),
        ok == forall|var: Seq<char>|
            a.view().dom().contains(var) && b.view().dom().contains(var) ==> (
            #[trigger] a.view()[var])@ == (#[trigger] b.view()[var])@,
{
    let n: usize = b.len();
    for i in 0..n
        invariant
            n == b.names().len(),
            forall|j: int|
                0 <= j < i && values(*a).dom().contains(#[trigger] b.names()[j]) ==> values(
                    *a,
                )[b.names()[j]] == values(*b)[b.names()[j]],
    {
        let (var, other) = b.entry(i);
        match a.get(var) {
            Some(value) => {
                if *value != *other {
                    assert(values(*a).dom().contains(var@) && values(*b).dom().contains(var@));
                    assert(values(*a)[var@] == value@ && values(*b)[var@] == other@);
                    return false;
                }
            },
            None => {},
        }
    }
    proof {
        assert forall|var: Seq<char>|
            #![trigger values(*a).dom().contains(var)]
            #![trigger values(*b).dom().contains(var)]
            values(*a).dom().contains(var) && values(*b).dom().contains(var) implies values(*a)[var]
            == values(*b)[var] by {
            assert(b.view().dom().contains(var));
            assert(b.names().contains(var));
        }
    }
    true
}

/// A match goes together with at least one of `others`.
pub open spec fn has_partner(r: ResultsCtx, others: Seq<ResultsCtx>) -> bool {
    exists|j: int| 0 <= j < others.len() && chain(r, #[trigger] others[j])
}

/// Whether a match goes together with at least one of `others`.
fn finds_partner(r: &ResultsCtx, others: &Vec<ResultsCtx>) -> (found: bool)
    ensures
        found == has_partner(*r, others@),
{
    for j in 0..others.len()
        invariant
            forall|k: int| 0 <= k < j ==> !chain(*r, #[trigger] others@[k]),
    {
        if chainable(&r.result.bindings, &others[j].result.bindings) {
            assert(chain(*r, others@[j as int]));
            return true;
        }
    }
    false
}

/// Those of `results` that go together with at least one of `others`.
pub open spec fn with_partner(results: Seq<ResultsCtx>, others: Seq<ResultsCtx>) -> Seq<
    ResultsCtx,
> {
    results.filter(|r: ResultsCtx| has_partner(r, others))
}

/// Keeps those of `results` that go together with at least one of `others`.
fn keep_partnered(results: Vec<ResultsCtx>, others: &Vec<ResultsCtx>) -> (kept: Vec<ResultsCtx>)
    ensures
        kept@ == with_partner(results@, others@),
{
    let ghost all = results@;
    let ghost pred = |r: ResultsCtx| has_partner(r, others@);
    let mut kept: Vec<ResultsCtx> = Vec::new();
    reveal(Seq::filter);
    assert(all.take(0) =~= Seq::empty());
    for r in it: results
        invariant
            it.seq() == all,
            pred == (|r: ResultsCtx| has_partner(r, others@)),
            kept@ == all.take(it.index() as int).filter(pred),
    {
        proof {
            let k = it.index() as int;
            reveal(Seq::filter);
            assert(all.take(k + 1).drop_last() =~= all.take(k));
            assert(all.take(k + 1).last() == r);
        }
        if finds_partner(&r, others) {
            kept.push(r);
        }
    }
    assert(all.take(all.len() as int) =~= all);
    kept
}

/// The results of each query.
pub open spec fn lists(groups: Seq<Vec<ResultsCtx>>) -> Seq<Seq<ResultsCtx>> {
    groups.map_values(|g: Vec<ResultsCtx>| g@)
}

/// The results of queries `i` and `j` are held against each other: first those of `i`
/// against those of `j`, then those of `j` against what is left of `i`.
pub open spec fn match_pair(groups: Seq<Seq<ResultsCtx>>, i: int, j: int) -> Seq<Seq<ResultsCtx>> {
    let a = with_partner(groups[i], groups[j]);
    let b = with_partner(groups[j], a);
    groups.update(i, a).update(j, b)
}

/// The results of query `i` are held against those of the queries after it, up to
/// but not including query `j`.
pub open spec fn match_row(groups: Seq<Seq<ResultsCtx>>, i: int, j: int) -> Seq<Seq<ResultsCtx>>
    decreases j - i,
{
    if j <= i + 1 {
        groups
    } else {
        match_pair(match_row(groups, i, j - 1), i, j - 1)
    }
}

/// The results of the first `i` queries are held against those of all queries after
/// them.
pub open spec fn match_rows(groups: Seq<Seq<ResultsCtx>>, i: int) -> Seq<Seq<ResultsCtx>>
    decreases i,
{
    if i <= 0 {
        groups
    } else {
        match_row(match_rows(groups, i - 1), i - 1, groups.len() as int)
    }
}

/// The results that are shown of those that were collected for each query.
pub open spec fn combined(groups: Seq<Seq<ResultsCtx>>) -> Seq<Seq<ResultsCtx>> {
    match_rows(groups, groups.len() as int)
}

/// Sorts results by the query that found them.
pub fn group_results(results: Vec<ResultsCtx>, num_queries: usize) -> (groups: Vec<
    Vec<ResultsCtx>,
>)
    requires
        forall|i: int|
            0 <= i < results@.len() ==> (#[trigger] results@[i]).query_index < num_queries,
    ensures
        groups@.len() == num_queries,
        forall|q: int|
            0 <= q < num_queries ==> (#[trigger] groups@[q])@ == results@.filter(
                |r: ResultsCtx| r.query_index == q,
            ),
{
    let ghost all = results@;
    let mut groups: Vec<Vec<ResultsCtx>> = Vec::new();
    reveal(Seq::filter);
    assert(all.take(0) =~= Seq::empty());
    for q in 0..num_queries
        invariant
            groups@.len() == q,
            forall|p: int| 0 <= p < q ==> (#[trigger] groups@[p])@ == Seq::<ResultsCtx>::empty(),
    {
        groups.push(Vec::new());
    }
    for r in it: results
        invariant
            it.seq() == all,
            forall|i: int| 0 <= i < all.len() ==> (#[trigger] all[i]).query_index < num_queries,
            groups@.len() == num_queries,
            forall|q: int|
                0 <= q < num_queries ==> (#[trigger] groups@[q])@ == all.take(
                    it.index() as int,
                ).filter(|r: ResultsCtx| r.query_index == q),
    {
        let q: usize = r.query_index;
        let ghost k = it.index() as int;
        let ghost before = groups@;
        assert(r == all[k]);
        groups[q].push(r);
        proof {
            reveal(Seq::filter);
            assert(all.take(k + 1).drop_last() =~= all.take(k));
            assert forall|p: int| 0 <= p < num_queries implies (#[trigger] groups@[p])@
                == all.take(k + 1).filter(|r: ResultsCtx| r.query_index == p) by {
                assert(before[p]@ == all.take(k).filter(|r: ResultsCtx| r.query_index == p));
            }
        }
    }
    assert(all.take(all.len() as int) =~= all);
    groups
}

/// Holds the results of queries `i` and `j` against each other.
fn filter_pair(groups: Vec<Vec<ResultsCtx>>, i: usize, j: usize) -> (left: Vec<Vec<ResultsCtx>>)
    requires
        i < j < groups@.len(),
    ensures
        lists(left@) == match_pair(lists(groups@), i as int, j as int),
{
    let ghost before = groups@;
    let mut left = groups;
    let mut a: Vec<ResultsCtx> = Vec::new();
    let mut b: Vec<ResultsCtx> = Vec::new();
    std::mem::swap(&mut left[i], &mut a);
    std::mem::swap(&mut left[j], &mut b);
    let a = keep_partnered(a, &b);
    let b = keep_partnered(b, &a);
    left.set(i, a);
    left.set(j, b);
    assert(lists(left@) =~= match_pair(lists(before), i as int, j as int));
    left
}

/// The results that are shown of those that were collected for each query: only
/// results of one query that can be combined with results of the others.
pub fn combine_results(groups: Vec<Vec<ResultsCtx>>) -> (shown: Vec<Vec<ResultsCtx>>)
    ensures
        lists(shown@) == combined(lists(groups@)),
        shown@.len() == groups@.len(),
{
    let ghost all = lists(groups@);
    let n: usize = groups.len();
    let mut left = groups;
    for i in 0..n
        invariant
            left@.len() == n,
            all.len() == n,
            lists(left@) == match_rows(all, i as int),
    {
        let mut j: usize = i + 1;
        while j < n
            invariant
                i < j <= n,
                left@.len() == n,
                all.len() == n,
                lists(left@) == match_row(match_rows(all, i as int), i as int, j as int),
            decreases n - j,
        {
            left = filter_pair(left, i, j);
            assert(lists(left@).len() == left@.len());
            j = j + 1;
        }
    }
    left
}

/// Two matches go together whichever of them is asked.
pub proof fn chain_is_symmetric(a: ResultsCtx, b: ResultsCtx)
    ensures
        chain(a, b) == chain(b, a),
{
    let x = values(a.result.bindings);
    let y = values(b.result.bindings);
    assert(agree(x, y) ==> agree(y, x));
    assert(agree(y, x) ==> agree(x, y));
}

/// Matches without a variable in common go together.
pub proof fn disjoint_matches_chain(a: ResultsCtx, b: ResultsCtx)
    requires
        values(a.result.bindings).dom().disjoint(values(b.result.bindings).dom()),
    ensures
        chain(a, b),
{
}

/// What holding results against others keeps is among the results, and has a partner.
proof fn lemma_with_partner(results: Seq<ResultsCtx>, others: Seq<ResultsCtx>, r: ResultsCtx)
    ensures
        with_partner(results, others).contains(r) <==> results.contains(r) && has_partner(r, others),
{
    let pred = |r: ResultsCtx| has_partner(r, others);
    let kept = results.filter(pred);
    if kept.contains(r) {
        let k = choose|k: int| 0 <= k < kept.len() && kept[k] == r;
        results.lemma_filter_pred(pred, k);
        results.lemma_filter_contains_rev(pred, r);
    }
    if results.contains(r) && has_partner(r, others) {
        let k = choose|k: int| 0 <= k < results.len() && results[k] == r;
        results.lemma_filter_contains(pred, k);
    }
}

/// A partner among some results is one among any that hold them.
proof fn lemma_partner_widens(r: ResultsCtx, some: Seq<ResultsCtx>, more: Seq<ResultsCtx>)
    requires
        has_partner(r, some),
        forall|x: ResultsCtx| some.contains(x) ==> more.contains(x),
    ensures
        has_partner(r, more),
{
    let j = choose|j: int| 0 <= j < some.len() && chain(r, #[trigger] some[j]);
    assert(some.contains(some[j]));
    let k = choose|k: int| 0 <= k < more.len() && more[k] == some[j];
    assert(chain(r, more[k]));
}

/// The pair of queries `p`, `q` has been held against each other.
spec fn pair_done(p: int, q: int, i: int, j: int) -> bool {
    (p < i && p < q) || (p == i && p < q < j)
}

/// Row `i` up to column `j` of `groups`: what has been left of the results, and what
/// is known of them.
spec fn partners_so_far(
    groups: Seq<Seq<ResultsCtx>>,
    left: Seq<Seq<ResultsCtx>>,
    i: int,
    j: int,
) -> bool {
    &&& left.len() == groups.len()
    &&& forall|q: int, r: ResultsCtx|
        0 <= q < groups.len() && #[trigger] left[q].contains(r) ==> groups[q].contains(r)
    &&& forall|p: int, q: int, r: ResultsCtx|
        #![trigger left[p].contains(r), groups[q]]
        0 <= p < groups.len() && 0 <= q < groups.len() && (pair_done(p, q, i, j) || pair_done(
            q,
            p,
            i,
            j,
        )) && left[p].contains(r) ==> has_partner(r, groups[q])
}

proof fn lemma_pair_partners(
    groups: Seq<Seq<ResultsCtx>>,
    left: Seq<Seq<ResultsCtx>>,
    i: int,
    j: int,
)
    requires
        0 <= i < j < groups.len(),
        partners_so_far(groups, left, i, j),
    ensures
        partners_so_far(groups, match_pair(left, i, j), i, j + 1),
{
    let next = match_pair(left, i, j);
    let a = with_partner(left[i], left[j]);
    let b = with_partner(left[j], a);
    assert forall|q: int, r: ResultsCtx| 0 <= q < groups.len() && #[trigger] next[q].contains(
        r,
    ) implies left[q].contains(r) by {
        if q == i {
            lemma_with_partner(left[i], left[j], r);
        } else if q == j {
            lemma_with_partner(left[j], a, r);
        }
    }
    assert forall|p: int, q: int, r: ResultsCtx|
        #![trigger next[p].contains(r), groups[q]]
        0 <= p < groups.len() && 0 <= q < groups.len() && (pair_done(p, q, i, j + 1) || pair_done(
            q,
            p,
            i,
            j + 1,
        )) && next[p].contains(r) implies has_partner(r, groups[q]) by {
        assert(left[p].contains(r));
        if p == i && q == j {
            lemma_with_partner(left[i], left[j], r);
            lemma_partner_widens(r, left[j], groups[j]);
        } else if p == j && q == i {
            lemma_with_partner(left[j], a, r);
            assert forall|x: ResultsCtx| a.contains(x) implies groups[i].contains(x) by {
                lemma_with_partner(left[i], left[j], x);
                assert(left[i].contains(x));
            }
            lemma_partner_widens(r, a, groups[i]);
        } else {
            assert(pair_done(p, q, i, j) || pair_done(q, p, i, j));
        }
    }
}

proof fn lemma_row_partners(
    groups: Seq<Seq<ResultsCtx>>,
    left: Seq<Seq<ResultsCtx>>,
    i: int,
    j: int,
)
    requires
        0 <= i < j <= groups.len(),
        partners_so_far(groups, left, i, i + 1),
    ensures
        partners_so_far(groups, match_row(left, i, j), i, j),
    decreases j,
{
    if j > i + 1 {
        lemma_row_partners(groups, left, i, j - 1);
        lemma_pair_partners(groups, match_row(left, i, j - 1), i, j - 1);
    }
}

proof fn lemma_rows_partners(groups: Seq<Seq<ResultsCtx>>, i: int)
    requires
        0 <= i <= groups.len(),
    ensures
        partners_so_far(groups, match_rows(groups, i), i, i + 1),
    decreases i,
{
    if i > 0 {
        lemma_rows_partners(groups, i - 1);
        lemma_row_partners(groups, match_rows(groups, i - 1), i - 1, groups.len() as int);
        let left = match_rows(groups, i);
        assert forall|p: int, q: int, r: ResultsCtx|
            #![trigger left[p].contains(r), groups[q]]
            0 <= p < groups.len() && 0 <= q < groups.len() && (pair_done(p, q, i, i + 1)
                || pair_done(q, p, i, i + 1)) && left[p].contains(r) implies has_partner(
            r,
            groups[q],
        ) by {
            assert(pair_done(p, q, i - 1, groups.len() as int) || pair_done(
                q,
                p,
                i - 1,
                groups.len() as int,
            ));
        }
    }
}

/// Combining keeps the number of queries.
pub proof fn every_query_is_shown(groups: Seq<Seq<ResultsCtx>>)
    ensures
        combined(groups).len() == groups.len(),
{
    lemma_rows_partners(groups, groups.len() as int);
}

/// A result of one query that is shown was collected for that query, and can be
/// combined with at least one of the results that were collected for every other.
pub proof fn shown_results_have_partners(
    groups: Seq<Seq<ResultsCtx>>,
    p: int,
    q: int,
    r: ResultsCtx,
)
    requires
        0 <= p < groups.len(),
        0 <= q < groups.len(),
        p != q,
        combined(groups)[p].contains(r),
    ensures
        groups[p].contains(r),
        has_partner(r, groups[q]),
{
    let n = groups.len() as int;
    lemma_rows_partners(groups, n);
    assert(pair_done(p, q, n, n + 1) || pair_done(q, p, n, n + 1));
}

/// Where combining what is shown once more takes nothing away, each shown result can be
/// combined with at least one of the results that are shown of every other query.
pub proof fn settled_results_have_shown_partners(
    groups: Seq<Seq<ResultsCtx>>,
    p: int,
    q: int,
    r: ResultsCtx,
)
    requires
        combined(combined(groups)) == combined(groups),
        0 <= p < groups.len(),
        0 <= q < groups.len(),
        p != q,
        combined(groups)[p].contains(r),
    ensures
        has_partner(r, combined(groups)[q]),
{
    every_query_is_shown(groups);
    shown_results_have_partners(combined(groups), p, q, r);
}

/// What is shown of the last two queries can be combined with each other, and so all
/// that is shown of two queries.
pub proof fn last_queries_have_shown_partners(groups: Seq<Seq<ResultsCtx>>, r: ResultsCtx)
    requires
        groups.len() >= 2,
    ensures
        combined(groups)[groups.len() - 2].contains(r) ==> has_partner(
            r,
            combined(groups)[groups.len() - 1],
        ),
        combined(groups)[groups.len() - 1].contains(r) ==> has_partner(
            r,
            combined(groups)[groups.len() - 2],
        ),
{
    let n = groups.len() as int;
    let left = match_rows(groups, n - 2);
    lemma_rows_partners(groups, n - 2);
    let a = with_partner(left[n - 2], left[n - 1]);
    let b = with_partner(left[n - 1], a);
    assert(match_row(left, n - 2, n - 1) == left);
    assert(match_row(left, n - 2, n) == match_pair(left, n - 2, n - 1));
    assert(match_rows(groups, n - 1) == match_pair(left, n - 2, n - 1));
    assert(combined(groups) == match_pair(left, n - 2, n - 1));
    lemma_with_partner(left[n - 2], left[n - 1], r);
    lemma_with_partner(left[n - 1], a, r);
    if a.contains(r) {
        let k = choose|k: int| 0 <= k < left[n - 1].len() && chain(r, #[trigger] left[n - 1][k]);
        let f = left[n - 1][k];
        chain_is_symmetric(r, f);
        let m = choose|m: int| 0 <= m < a.len() && a[m] == r;
        assert(chain(f, a[m]));
        assert(left[n - 1].contains(f));
        lemma_with_partner(left[n - 1], a, f);
        let l = choose|l: int| 0 <= l < b.len() && b[l] == f;
        assert(chain(r, b[l]));
    }
}

/// One result per query, each of them among the results of its query, and all of them
/// going together.
pub open spec fn is_combination(groups: Seq<Seq<ResultsCtx>>, family: Seq<ResultsCtx>) -> bool {
    &&& family.len() == groups.len()
    &&& forall|q: int| 0 <= q < groups.len() ==> groups[q].contains(#[trigger] family[q])
    &&& forall|p: int, q: int|
        0 <= p < q < groups.len() ==> chain(#[trigger] family[p], #[trigger] family[q])
}

proof fn lemma_pair_keeps(groups: Seq<Seq<ResultsCtx>>, family: Seq<ResultsCtx>, i: int, j: int)
    requires
        0 <= i < j < groups.len(),
        is_combination(groups, family),
    ensures
        is_combination(match_pair(groups, i, j), family),
{
    let a = with_partner(groups[i], groups[j]);
    let next = match_pair(groups, i, j);
    chain_is_symmetric(family[i], family[j]);
    let k = choose|k: int| 0 <= k < groups[j].len() && groups[j][k] == family[j];
    assert(groups[j].contains(family[j]));
    assert(chain(family[i], groups[j][k]));
    assert(groups[i].contains(family[i]));
    lemma_with_partner(groups[i], groups[j], family[i]);
    let m = choose|m: int| 0 <= m < a.len() && a[m] == family[i];
    assert(chain(family[j], a[m]));
    lemma_with_partner(groups[j], a, family[j]);
    assert forall|q: int| 0 <= q < groups.len() implies next[q].contains(#[trigger] family[q]) by {
        assert(groups[q].contains(family[q]));
    }
}

proof fn lemma_row_keeps(groups: Seq<Seq<ResultsCtx>>, family: Seq<ResultsCtx>, i: int, j: int)
    requires
        0 <= i < j <= groups.len(),
        is_combination(groups, family),
    ensures
        is_combination(match_row(groups, i, j), family),
    decreases j,
{
    if j > i + 1 {
        lemma_row_keeps(groups, family, i, j - 1);
        lemma_pair_keeps(match_row(groups, i, j - 1), family, i, j - 1);
    }
}

proof fn lemma_rows_keep(groups: Seq<Seq<ResultsCtx>>, family: Seq<ResultsCtx>, i: int)
    requires
        0 <= i <= groups.len(),
        is_combination(groups, family),
    ensures
        is_combination(match_rows(groups, i), family),
    decreases i,
{
    if i > 0 {
        lemma_rows_keep(groups, family, i - 1);
        lemma_row_keeps(match_rows(groups, i - 1), family, i - 1, groups.len() as int);
    }
}

/// No combination is lost: results, one for each query, that all go together are all
/// shown.
pub proof fn combinations_are_shown(groups: Seq<Seq<ResultsCtx>>, family: Seq<ResultsCtx>)
    requires
        is_combination(groups, family),
    ensures
        is_combination(combined(groups), family),
{
    lemma_rows_keep(groups, family, groups.len() as int);
}

/// A single query is shown as it was collected.
pub proof fn single_query_is_unfiltered(groups: Seq<Seq<ResultsCtx>>)
    requires
        groups.len() == 1,
    ensures
        combined(groups) == groups,
{
    assert(match_rows(groups, 0) == groups);
    assert(match_row(groups, 0, 1) == groups);
}

/// If one query has no results, nothing is shown of any.
pub proof fn nothing_without_every_query(groups: Seq<Seq<ResultsCtx>>, p: int, q: int)
    requires
        0 <= p < groups.len(),
        0 <= q < groups.len(),
        groups[q].len() == 0,
    ensures
        combined(groups)[p].len() == 0,
{
    if combined(groups)[p].len() > 0 {
        let r = combined(groups)[p][0];
        assert(combined(groups)[p].contains(r));
        if p == q {
            lemma_rows_partners(groups, groups.len() as int);
            assert(groups[p].contains(r));
        } else {
            shown_results_have_partners(groups, p, q, r);
        }
    }
}

/// Each of `part` is the list at its place in `whole` with some results left out.
spec fn lists_in_order(part: Seq<Seq<ResultsCtx>>, whole: Seq<Seq<ResultsCtx>>) -> bool {
    &&& part.len() == whole.len()
    &&& forall|q: int| 0 <= q < whole.len() ==> in_order(#[trigger] part[q], whole[q])
}

proof fn lemma_pair_in_order(
    groups: Seq<Seq<ResultsCtx>>,
    left: Seq<Seq<ResultsCtx>>,
    i: int,
    j: int,
)
    requires
        0 <= i < j < groups.len(),
        lists_in_order(left, groups),
    ensures
        lists_in_order(match_pair(left, i, j), groups),
{
    let a = with_partner(left[i], left[j]);
    let next = match_pair(left, i, j);
    assert forall|q: int| 0 <= q < groups.len() implies in_order(
        #[trigger] next[q],
        groups[q],
    ) by {
        assert(in_order(left[q], groups[q]));
        if q == i {
            lemma_filter_in_order(left[i], |r: ResultsCtx| has_partner(r, left[j]));
            lemma_in_order_trans(a, left[i], groups[i]);
        } else if q == j {
            lemma_filter_in_order(left[j], |r: ResultsCtx| has_partner(r, a));
            lemma_in_order_trans(next[j], left[j], groups[j]);
        }
    }
}

proof fn lemma_row_in_order(
    groups: Seq<Seq<ResultsCtx>>,
    left: Seq<Seq<ResultsCtx>>,
    i: int,
    j: int,
)
    requires
        0 <= i < j <= groups.len(),
        lists_in_order(left, groups),
    ensures
        lists_in_order(match_row(left, i, j), groups),
    decreases j,
{
    if j > i + 1 {
        lemma_row_in_order(groups, left, i, j - 1);
        lemma_pair_in_order(groups, match_row(left, i, j - 1), i, j - 1);
    }
}

proof fn lemma_rows_in_order(groups: Seq<Seq<ResultsCtx>>, i: int)
    requires
        0 <= i <= groups.len(),
    ensures
        lists_in_order(match_rows(groups, i), groups),
    decreases i,
{
    if i > 0 {
        lemma_rows_in_order(groups, i - 1);
        lemma_row_in_order(groups, match_rows(groups, i - 1), i - 1, groups.len() as int);
    } else {
        assert forall|q: int| 0 <= q < groups.len() implies in_order(
            #[trigger] groups[q],
            groups[q],
        ) by {
            lemma_in_order_self(groups[q]);
        }
    }
}

/// The results of a query are shown in the order in which they were collected.
pub proof fn shown_results_keep_their_order(groups: Seq<Seq<ResultsCtx>>, q: int)
    requires
        0 <= q < groups.len(),
    ensures
        in_order(combined(groups)[q], groups[q]),
{
    lemma_rows_in_order(groups, groups.len() as int);
}

/// Every result that is collected stands in the group of the query that found it, and
/// in no other.
pub proof fn results_stand_in_their_group(results: Seq<ResultsCtx>, q: int, r: ResultsCtx)
    ensures
        results.filter(|r: ResultsCtx| r.query_index == q).contains(r) <==> results.contains(r)
            && r.query_index == q,
{
    let pred = |r: ResultsCtx| r.query_index == q;
    let group = results.filter(pred);
    if group.contains(r) {
        let k = choose|k: int| 0 <= k < group.len() && group[k] == r;
        results.lemma_filter_pred(pred, k);
        results.lemma_filter_contains_rev(pred, r);
    }
    if results.contains(r) && r.query_index == q {
        let k = choose|k: int| 0 <= k < results.len() && results[k] == r;
        results.lemma_filter_contains(pred, k);
    }
}

/// Matches of one query are kept or left out together by a choice of the query.
proof fn lemma_filter_placed(
    matches: Seq<MatchView>,
    query_index: nat,
    path: Seq<char>,
    source: Seq<char>,
    q: nat,
)
    ensures
        placed(matches, query_index, path, source).filter(|c: ContextView| c.query_index == q) == (
        if query_index == q {
            placed(matches, query_index, path, source)
        } else {
            Seq::empty()
        }),
    decreases matches.len(),
{
    reveal(Seq::filter);
    let all = placed(matches, query_index, path, source);
    if matches.len() > 0 {
        lemma_filter_placed(matches.drop_last(), query_index, path, source, q);
        assert(all.drop_last() =~= placed(matches.drop_last(), query_index, path, source));
        assert(all.drop_last().push(all.last()) =~= all);
    } else {
        assert(all =~= Seq::empty());
    }
}

/// Of the results of a file, those of one query are what is reported for that query.
pub proof fn placed_results_are_those_reported(
    reports: Seq<Vec<Match>>,
    path: Seq<char>,
    source: Seq<char>,
    q: nat,
)
    ensures
        all_placed(reports, path, source).filter(|c: ContextView| c.query_index == q) == (if q
            < reports.len() {
            placed(views(reports[q as int]@), q, path, source)
        } else {
            Seq::empty()
        }),
    decreases reports.len(),
{
    let pred = |c: ContextView| c.query_index == q;
    if reports.len() == 0 {
        reveal(Seq::filter);
    } else {
        let before = all_placed(reports.drop_last(), path, source);
        let last = placed(views(reports.last()@), (reports.len() - 1) as nat, path, source);
        placed_results_are_those_reported(reports.drop_last(), path, source, q);
        lemma_filter_placed(
            views(reports.last()@),
            (reports.len() - 1) as nat,
            path,
            source,
            q,
        );
        Seq::filter_distributes_over_add(before, last, pred);
        if q < reports.len() - 1 {
            assert(before.filter(pred) + Seq::empty() =~= before.filter(pred));
        } else {
            assert(Seq::empty() + last.filter(pred) =~= last.filter(pred));
        }
    }
}

} // verus!
