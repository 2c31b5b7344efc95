//! Which matches of a query are reported.

use vstd::prelude::*;
use vstd::utf8::*;
use weggli::query::QueryTree;
use weggli::result::QueryResult;

use crate::constraints::{all_bound, allows, values, Constraint, RegexMap};
use crate::engine::{
    belongs_to, captured_text, captured_value, captured_variables, found_matches, parsed, query_matches,
    result_start, result_vars, start_offset,
};
use crate::files::WorkItem;
use crate::order::{
    in_order, lemma_filter_in_order, lemma_in_order_keep, lemma_in_order_self,
    lemma_in_order_skip, lemma_in_order_trans,
};
use crate::pattern::{fits_parser, SourceTree};
use crate::table::Table;
use crate::text::{line_at, line_number, texts};

verus! {

/// A match of a query, with what decides on it spelled out.
pub struct Match {
    /// The texts that the variables captured.
    pub bindings: Table<String>,
    /// The byte offset at which the match starts.
    pub start_offset: usize,
    /// The number of the line on which the match starts.
    pub line: usize,
    /// The match itself.
    pub result: QueryResult,
}

/// What a [`Match`] says.
pub struct MatchView {
    pub bindings: Map<Seq<char>, Seq<char>>,
    pub start_offset: nat,
    pub line: nat,
    pub result: QueryResult,
}

impl Match {
    pub open spec fn view(&self) -> MatchView {
        MatchView {
            bindings: values(self.bindings),
            start_offset: self.start_offset as nat,
            line: self.line as nat,
            result: self.result,
        }
    }
}

/// The texts that the variables of a match captured in `source`.
pub open spec fn bindings_of(result: QueryResult, source: Seq<char>) -> Map<Seq<char>, Seq<char>> {
    Map::new(
        |var: Seq<char>| result_vars(result).dom().contains(var),
        |var: Seq<char>| captured_text(result, source, var),
    )
}

/// A match in `source`, spelled out.
pub open spec fn match_of(result: QueryResult, source: Seq<char>) -> MatchView {
    MatchView {
        bindings: bindings_of(result, source),
        start_offset: result_start(result),
        line: line_at(source, result_start(result) as int),
        result,
    }
}

/// What the matches say.
pub open spec fn views(matches: Seq<Match>) -> Seq<MatchView> {
    matches.map_values(|m: Match| m.view())
}

/// Reads the texts that the variables of a match captured.
fn read_bindings(result: &QueryResult, source: &str) -> (bindings: Table<String>)
    requires
        belongs_to(*result, source@),
    ensures
        values(bindings) == bindings_of(*result, source@),
{
    let names = captured_variables(result);
    let mut bindings: Table<String> = Table::new();
    let ghost vars = texts(names@);
    for i in 0..names.len()
        invariant
            vars == texts(names@),
            vars.to_set() == result_vars(*result).dom(),
            belongs_to(*result, source@),
            forall|v: Seq<char>|
                #[trigger] values(bindings).dom().contains(v) <==> vars.take(i as int).contains(v),
            forall|v: Seq<char>| #[trigger]
                values(bindings).dom().contains(v) ==> values(bindings)[v] == captured_text(
                    *result,
                    source@,
                    v,
                ),
    {
        let ghost var = names@[i as int]@;
        assert(vars[i as int] == var);
        assert(vars.to_set().contains(var));
        assert(vars.take(i + 1) =~= vars.take(i as int).push(var));
        match captured_value(result, names[i].as_str(), source) {
            Some(text) => {
                let ghost before = bindings;
                bindings = bindings.insert(names[i].clone(), text.to_owned());
                proof {
                    assert forall|v: Seq<char>| #[trigger]
                        values(bindings).dom().contains(v) <==> vars.take(i + 1).contains(v) by {
                        assert(values(bindings).dom().contains(v) <==> v == var || values(
                            before,
                        ).dom().contains(v));
                        vstd::seq_lib::lemma_seq_contains_after_push(vars.take(i as int), var, v);
                    }
                    assert forall|v: Seq<char>| #[trigger]
                        values(bindings).dom().contains(v) implies values(bindings)[v]
                        == captured_text(*result, source@, v) by {
                        if v != var {
                            assert(values(before).dom().contains(v));
                        }
                    }
                }
            },
            None => {},
        }
    }
    proof {
        assert(vars.take(names@.len() as int) =~= vars);
        assert forall|v: Seq<char>| #[trigger]
            values(bindings).dom().contains(v) <==> bindings_of(
                *result,
                source@,
            ).dom().contains(v) by {
            assert(vars.contains(v) <==> vars.to_set().contains(v));
        }
        assert(values(bindings) =~= bindings_of(*result, source@));
    }
    bindings
}

/// Spells out a match in `source`.
fn read_match(result: QueryResult, source: &str) -> (m: Match)
    requires
        belongs_to(result, source@),
        fits_parser(source@),
    ensures
        m.view() == match_of(result, source@),
{
    let bindings = read_bindings(&result, source);
    let start_offset = start_offset(&result);
    let line = line_number(source, start_offset);
    Match { bindings, start_offset, line, result }
}

/// No two variables have the same value.
pub open spec fn distinct_values(bindings: Map<Seq<char>, Seq<char>>) -> bool {
    forall|v: Seq<char>, w: Seq<char>|
        #![trigger bindings.dom().contains(v), bindings.dom().contains(w)]
        bindings.dom().contains(v) && bindings.dom().contains(w) && v != w ==> bindings[v]
            != bindings[w]
}

/// Whether no two variables have the same value.
pub fn is_unique(bindings: &Table<String>) -> (unique: bool)
    ensures
        unique == distinct_values(values(*bindings)),
{
    let n: usize = bindings.len();
    let ghost map = values(*bindings);
    let ghost names = bindings.names();
    for i in 0..n
        invariant
            n == names.len(),
            names == bindings.names(),
            names.no_duplicates(),
            map == values(*bindings),
            forall|a: int, b: int|
                0 <= a < b < i ==> map[#[trigger] names[a]] != map[#[trigger] names[b]],
    {
        for j in 0..i
            invariant
                i < n,
                n == names.len(),
                names == bindings.names(),
                names.no_duplicates(),
                map == values(*bindings),
                forall|a: int| 0 <= a < j ==> map[#[trigger] names[a]] != map[names[i as int]],
        {
            let (first, x) = bindings.entry(j);
            let (second, y) = bindings.entry(i);
            if *x == *y {
                proof {
                    assert(map.dom().contains(first@) && map.dom().contains(second@));
                    assert(map[first@] == x@ && map[second@] == y@);
                }
                return false;
            }
        }
    }
    proof {
        assert forall|v: Seq<char>, w: Seq<char>|
            #![trigger map.dom().contains(v), map.dom().contains(w)]
            map.dom().contains(v) && map.dom().contains(w) && v != w implies map[v] != map[w] by {
            assert(bindings.view().dom().contains(v) && bindings.view().dom().contains(w));
            let a = choose|a: int| 0 <= a < names.len() && names[a] == v;
            let b = choose|b: int| 0 <= b < names.len() && names[b] == w;
            assert(names.contains(v) && names.contains(w));
            if a < b {
                assert(map[names[a]] != map[names[b]]);
            } else {
                assert(map[names[b]] != map[names[a]]);
            }
        }
    }
    true
}

/// A match passes: it meets the constraints and, if that is asked for, its variables
/// have different values.
pub open spec fn passes(
    constraints: Map<Seq<char>, Constraint>,
    unique: bool,
    m: MatchView,
) -> bool {
    allows(constraints, m.bindings) && (unique ==> distinct_values(m.bindings))
}

/// One of `matches` starts at `offset`.
pub open spec fn starts_in(matches: Seq<MatchView>, offset: nat) -> bool {
    exists|i: int| 0 <= i < matches.len() && (#[trigger] matches[i]).start_offset == offset
}

/// Of the matches that start at the same offset, the first.
pub open spec fn first_per_offset(matches: Seq<MatchView>) -> Seq<MatchView>
    decreases matches.len(),
{
    if matches.len() == 0 {
        matches
    } else {
        let earlier = first_per_offset(matches.drop_last());
        if starts_in(matches.drop_last(), matches.last().start_offset) {
            earlier
        } else {
            earlier.push(matches.last())
        }
    }
}

/// The matches that are reported, in the order in which they were found: those that
/// pass and, with a limit, only the first that starts at an offset.
pub open spec fn selected(
    constraints: Map<Seq<char>, Constraint>,
    unique: bool,
    limit: bool,
    matches: Seq<MatchView>,
) -> Seq<MatchView> {
    let passing = matches.filter(|m: MatchView| passes(constraints, unique, m));
    if limit {
        first_per_offset(passing)
    } else {
        passing
    }
}

/// Keeping the first match per offset loses no offset and adds none.
proof fn lemma_same_offsets(matches: Seq<MatchView>, offset: nat)
    ensures
        starts_in(first_per_offset(matches), offset) <==> starts_in(matches, offset),
    decreases matches.len(),
{
    if matches.len() > 0 {
        let before = matches.drop_last();
        let last = matches.last();
        let kept = first_per_offset(before);
        lemma_same_offsets(before, offset);
        if starts_in(before, offset) {
            let i = choose|i: int| 0 <= i < before.len() && (#[trigger] before[i]).start_offset
                == offset;
            assert(matches[i].start_offset == offset);
        }
        if starts_in(matches, offset) && last.start_offset != offset {
            let i = choose|i: int| 0 <= i < matches.len() && (#[trigger] matches[i]).start_offset
                == offset;
            assert(before[i].start_offset == offset);
        }
        if last.start_offset == offset {
            assert(matches[matches.len() - 1].start_offset == offset);
        }
        if starts_in(kept, offset) {
            let i = choose|i: int| 0 <= i < kept.len() && (#[trigger] kept[i]).start_offset
                == offset;
            assert(kept.push(last)[i].start_offset == offset);
        }
        if starts_in(kept.push(last), offset) && last.start_offset != offset {
            let i = choose|i: int| 0 <= i < kept.push(last).len() && (#[trigger] kept.push(
                last,
            )[i]).start_offset == offset;
            assert(kept[i].start_offset == offset);
        }
        if last.start_offset == offset {
            assert(kept.push(last)[kept.len() as int].start_offset == offset);
        }
    }
}

/// One more match is reported where it passes and, with a limit, no match that is
/// already reported starts where it does.
pub proof fn lemma_selected_push(
    constraints: Map<Seq<char>, Constraint>,
    unique: bool,
    limit: bool,
    matches: Seq<MatchView>,
    m: MatchView,
)
    ensures
        selected(constraints, unique, limit, matches.push(m)) == (if passes(constraints, unique, m)
            && !(limit && starts_in(
            selected(constraints, unique, limit, matches),
            m.start_offset,
        )) {
            selected(constraints, unique, limit, matches).push(m)
        } else {
            selected(constraints, unique, limit, matches)
        }),
{
    let pred = |m: MatchView| passes(constraints, unique, m);
    let passing = matches.filter(pred);
    reveal(Seq::filter);
    assert(matches.push(m).drop_last() =~= matches);
    if limit && pred(m) {
        assert(passing.push(m).drop_last() =~= passing);
        lemma_same_offsets(passing, m.start_offset);
    }
}

/// Whether one of `kept` starts at `offset`.
fn has_start(kept: &Vec<Match>, offset: usize) -> (found: bool)
    ensures
        found == starts_in(views(kept@), offset as nat),
{
    for i in 0..kept.len()
        invariant
            forall|j: int| 0 <= j < i ==> (#[trigger] views(kept@)[j]).start_offset != offset,
    {
        if kept[i].start_offset == offset {
            assert(views(kept@)[i as int].start_offset == offset);
            return true;
        }
    }
    false
}

/// The matches that are reported of those that were found.
pub fn filter_matches(
    matches: Vec<Match>,
    constraints: &RegexMap,
    unique: bool,
    limit: bool,
) -> (kept: Vec<Match>)
    requires
        forall|i: int|
            0 <= i < matches@.len() ==> all_bound(
                constraints.view(),
                (#[trigger] matches@[i]).view().bindings,
            ),
    ensures
        views(kept@) == selected(constraints.view(), unique, limit, views(matches@)),
{
    let ghost all = matches@;
    let mut kept: Vec<Match> = Vec::new();
    proof {
        reveal(Seq::filter);
        assert(views(all.take(0)) =~= Seq::empty());
        assert(views(kept@) =~= Seq::empty());
    }
    for m in it: matches
        invariant
            it.seq() == all,
            forall|i: int|
                0 <= i < all.len() ==> all_bound(
                    constraints.view(),
                    (#[trigger] all[i]).view().bindings,
                ),
            views(kept@) == selected(
                constraints.view(),
                unique,
                limit,
                views(all.take(it.index() as int)),
            ),
    {
        let ghost k = it.index() as int;
        proof {
            assert(m == all[k]);
            assert(views(all.take(k + 1)) =~= views(all.take(k)).push(m.view()));
            lemma_selected_push(
                constraints.view(),
                unique,
                limit,
                views(all.take(k)),
                m.view(),
            );
            assert(views(kept@.push(m)) =~= views(kept@).push(m.view()));
        }
        if constraints.include_match(&m.bindings) && (!unique || is_unique(&m.bindings)) && !(limit
            && has_start(&kept, m.start_offset)) {
            kept.push(m);
        }
    }
    assert(all.take(all.len() as int) =~= all);
    kept
}

/// A match does not say what a constrained variable captured.
pub open spec fn lacks_variable(
    constraints: Map<Seq<char>, Constraint>,
    m: MatchView,
    var: Seq<char>,
) -> bool {
    constraints.dom().contains(var) && !m.bindings.dom().contains(var)
}

/// Every match says what every constrained variable captured.
pub open spec fn all_checkable(
    constraints: Map<Seq<char>, Constraint>,
    matches: Seq<MatchView>,
) -> bool {
    forall|i: int| 0 <= i < matches.len() ==> all_bound(constraints, (#[trigger] matches[i]).bindings)
}

/// The matches that are reported of those that were found, or a constrained variable
/// that one of them did not capture.
pub fn report_matches(
    matches: Vec<Match>,
    constraints: &RegexMap,
    unique: bool,
    limit: bool,
) -> (report: Result<Vec<Match>, String>)
    ensures
        match report {
            Ok(kept) => {
                &&& all_checkable(constraints.view(), views(matches@))
                &&& views(kept@) == selected(constraints.view(), unique, limit, views(matches@))
            },
            Err(var) => exists|i: int|
                0 <= i < matches@.len() && lacks_variable(
                    constraints.view(),
                    #[trigger] views(matches@)[i],
                    var@,
                ),
        },
{
    for i in 0..matches.len()
        invariant
            forall|j: int|
                0 <= j < i ==> all_bound(
                    constraints.view(),
                    (#[trigger] matches@[j]).view().bindings,
                ),
    {
        match constraints.unbound_variable(&matches[i].bindings) {
            Some(var) => {
                assert(lacks_variable(constraints.view(), views(matches@)[i as int], var@));
                return Err(var);
            },
            None => {},
        }
    }
    assert forall|i: int| 0 <= i < views(matches@).len() implies all_bound(
        constraints.view(),
        (#[trigger] views(matches@)[i]).bindings,
    ) by {
        assert(matches@[i].view() == views(matches@)[i]);
    }
    Ok(filter_matches(matches, constraints, unique, limit))
}

/// The matches of a query in a text, spelled out.
pub open spec fn matches_in(query: QueryTree, source: Seq<char>, cpp: bool) -> Seq<MatchView> {
    found_matches(query, parsed(source, cpp), source).map_values(
        |r: QueryResult| match_of(r, source),
    )
}

/// Searches for one query in one file.
fn find_matches(file: &SourceTree, item: &WorkItem) -> (all: Vec<Match>)
    ensures
        views(all@) == matches_in(item.query(), file.text(), file.is_cpp()),
        all@.len() == found_matches(
            item.query(),
            parsed(file.text(), file.is_cpp()),
            file.text(),
        ).len(),
        forall|i: int|
            0 <= i < all@.len() ==> (#[trigger] all@[i]).view().result == found_matches(
                item.query(),
                parsed(file.text(), file.is_cpp()),
                file.text(),
            )[i],
{
    let source = file.source();
    let tree = file.tree();
    let results = query_matches(item.query_tree(), tree, source);
    let ghost found = results@;
    let mut all: Vec<Match> = Vec::new();
    for result in it: results
        invariant
            it.seq() == found,
            fits_parser(source@),
            forall|i: int| 0 <= i < found.len() ==> belongs_to(#[trigger] found[i], source@),
            all@.len() == it.index(),
            forall|i: int|
                0 <= i < all@.len() ==> (#[trigger] all@[i]).view() == match_of(found[i], source@),
    {
        assert(result == found[it.index() as int]);
        all.push(read_match(result, source));
    }
    assert(views(all@) =~= matches_in(item.query(), file.text(), file.is_cpp()));
    all
}

/// What is reported of the matches of one query in one file.
pub open spec fn query_report(
    query: QueryTree,
    file: SourceTree,
    constraints: Map<Seq<char>, Constraint>,
    unique: bool,
    limit: bool,
    report: Seq<MatchView>,
) -> bool {
    let all = matches_in(query, file.text(), file.is_cpp());
    all_checkable(constraints, all) && report == selected(constraints, unique, limit, all)
}

/// Searches for the queries in one file, one after the other, and reports the matches
/// of each; or a constrained variable that a match did not capture.
pub fn execute_queries(
    file: &SourceTree,
    work: &Vec<WorkItem>,
    constraints: &RegexMap,
    unique: bool,
    limit: bool,
) -> (reports: Result<Vec<Vec<Match>>, String>)
    ensures
        match reports {
            Ok(rs) => {
                &&& rs@.len() == work@.len()
                &&& forall|q: int|
                    0 <= q < work@.len() ==> query_report(
                        work@[q].query(),
                        *file,
                        constraints.view(),
                        unique,
                        limit,
                        views((#[trigger] rs@[q])@),
                    )
            },
            Err(var) => exists|q: int, i: int|
                0 <= q < work@.len() && 0 <= i < matches_in(
                    work@[q].query(),
                    file.text(),
                    file.is_cpp(),
                ).len() && lacks_variable(
                    constraints.view(),
                    #[trigger] matches_in(work@[q].query(), file.text(), file.is_cpp())[i],
                    var@,
                ),
        },
{
    let mut reports: Vec<Vec<Match>> = Vec::new();
    for q in 0..work.len()
        invariant
            reports@.len() == q,
            forall|p: int|
                0 <= p < q ==> query_report(
                    work@[p].query(),
                    *file,
                    constraints.view(),
                    unique,
                    limit,
                    views((#[trigger] reports@[p])@),
                ),
    {
        let all = find_matches(file, &work[q]);
        match report_matches(all, constraints, unique, limit) {
            Ok(kept) => reports.push(kept),
            Err(var) => {
                return Err(var);
            },
        }
    }
    Ok(reports)
}

proof fn lemma_first_per_offset_in_order(matches: Seq<MatchView>)
    ensures
        in_order(first_per_offset(matches), matches),
    decreases matches.len(),
{
    if matches.len() == 0 {
        lemma_in_order_self(matches);
    } else {
        let before = matches.drop_last();
        lemma_first_per_offset_in_order(before);
        if starts_in(before, matches.last().start_offset) {
            lemma_in_order_skip(first_per_offset(before), matches);
        } else {
            lemma_in_order_keep(first_per_offset(before), matches);
        }
    }
}

/// Matches are reported in the order in which they were found.
pub proof fn reported_matches_keep_their_order(
    constraints: Map<Seq<char>, Constraint>,
    unique: bool,
    limit: bool,
    matches: Seq<MatchView>,
)
    ensures
        in_order(selected(constraints, unique, limit, matches), matches),
{
    let pred = |m: MatchView| passes(constraints, unique, m);
    let passing = matches.filter(pred);
    lemma_filter_in_order(matches, pred);
    if limit {
        lemma_first_per_offset_in_order(passing);
        lemma_in_order_trans(first_per_offset(passing), passing, matches);
    }
}

proof fn lemma_first_per_offset_contains(matches: Seq<MatchView>, m: MatchView)
    requires
        first_per_offset(matches).contains(m),
    ensures
        matches.contains(m),
    decreases matches.len(),
{
    if matches.len() > 0 {
        let before = matches.drop_last();
        let kept = first_per_offset(before);
        if kept.contains(m) {
            lemma_first_per_offset_contains(before, m);
            let k = choose|k: int| 0 <= k < before.len() && before[k] == m;
            assert(matches[k] == m);
        } else {
            let k = choose|k: int|
                0 <= k < first_per_offset(matches).len() && first_per_offset(matches)[k] == m;
            assert(k < kept.len() ==> kept[k] == m);
            assert(matches[matches.len() - 1] == m);
        }
    }
}

/// Every match that is reported was found, meets all constraints and, where that is
/// asked for, gives no two variables the same value.
pub proof fn reported_matches_pass(
    constraints: Map<Seq<char>, Constraint>,
    unique: bool,
    limit: bool,
    matches: Seq<MatchView>,
    m: MatchView,
)
    requires
        selected(constraints, unique, limit, matches).contains(m),
    ensures
        matches.contains(m),
        allows(constraints, m.bindings),
        unique ==> distinct_values(m.bindings),
{
    let pred = |m: MatchView| passes(constraints, unique, m);
    let passing = matches.filter(pred);
    if limit {
        lemma_first_per_offset_contains(passing, m);
    }
    let k = choose|k: int| 0 <= k < passing.len() && passing[k] == m;
    matches.lemma_filter_pred(pred, k);
    matches.lemma_filter_contains_rev(pred, m);
}

/// Without a limit, every match that passes is reported.
pub proof fn passing_matches_are_reported(
    constraints: Map<Seq<char>, Constraint>,
    unique: bool,
    matches: Seq<MatchView>,
    m: MatchView,
)
    requires
        matches.contains(m),
        passes(constraints, unique, m),
    ensures
        selected(constraints, unique, false, matches).contains(m),
{
    let pred = |m: MatchView| passes(constraints, unique, m);
    let k = choose|k: int| 0 <= k < matches.len() && matches[k] == m;
    matches.lemma_filter_contains(pred, k);
}

/// With a limit, something is still reported at every offset at which a match passes.
pub proof fn limit_keeps_every_offset(
    constraints: Map<Seq<char>, Constraint>,
    unique: bool,
    matches: Seq<MatchView>,
    m: MatchView,
)
    requires
        matches.contains(m),
        passes(constraints, unique, m),
    ensures
        starts_in(selected(constraints, unique, true, matches), m.start_offset),
{
    let passing = matches.filter(|m: MatchView| passes(constraints, unique, m));
    passing_matches_are_reported(constraints, unique, matches, m);
    let k = choose|k: int| 0 <= k < passing.len() && passing[k] == m;
    assert(passing[k].start_offset == m.start_offset);
    lemma_same_offsets(passing, m.start_offset);
}

proof fn lemma_offsets_differ(matches: Seq<MatchView>, a: int, b: int)
    requires
        0 <= a < b < first_per_offset(matches).len(),
    ensures
        first_per_offset(matches)[a].start_offset != first_per_offset(matches)[b].start_offset,
    decreases matches.len(),
{
    let before = matches.drop_last();
    let kept = first_per_offset(before);
    if b < kept.len() {
        lemma_offsets_differ(before, a, b);
    } else {
        lemma_same_offsets(before, matches.last().start_offset);
        assert(kept[a].start_offset != matches.last().start_offset);
    }
}

/// With a limit, no two reported matches start at the same offset.
pub proof fn limit_reports_an_offset_once(
    constraints: Map<Seq<char>, Constraint>,
    unique: bool,
    matches: Seq<MatchView>,
    a: int,
    b: int,
)
    requires
        0 <= a < b < selected(constraints, unique, true, matches).len(),
    ensures
        selected(constraints, unique, true, matches)[a].start_offset != selected(
            constraints,
            unique,
            true,
            matches,
        )[b].start_offset,
{
    lemma_offsets_differ(matches.filter(|m: MatchView| passes(constraints, unique, m)), a, b);
}

proof fn lemma_first_is_kept(matches: Seq<MatchView>, i: int)
    requires
        0 <= i < matches.len(),
        !starts_in(matches.take(i), matches[i].start_offset),
    ensures
        first_per_offset(matches).contains(matches[i]),
    decreases matches.len(),
{
    let before = matches.drop_last();
    let kept = first_per_offset(before);
    if i == matches.len() - 1 {
        assert(matches.take(i) =~= before);
        assert(kept.push(matches[i])[kept.len() as int] == matches[i]);
    } else {
        assert(before.take(i) =~= matches.take(i));
        lemma_first_is_kept(before, i);
        let k = choose|k: int| 0 <= k < kept.len() && kept[k] == matches[i];
        assert(first_per_offset(matches)[k] == matches[i]);
    }
}

/// With a limit, the match that is reported at an offset is the first that passes there.
pub proof fn limit_reports_the_first(
    constraints: Map<Seq<char>, Constraint>,
    unique: bool,
    matches: Seq<MatchView>,
    i: int,
)
    requires
        0 <= i < selected(constraints, unique, false, matches).len(),
        !starts_in(
            selected(constraints, unique, false, matches).take(i),
            selected(constraints, unique, false, matches)[i].start_offset,
        ),
    ensures
        selected(constraints, unique, true, matches).contains(
            selected(constraints, unique, false, matches)[i],
        ),
{
    lemma_first_is_kept(selected(constraints, unique, false, matches), i);
}

/// Without constraints, uniqueness and limit, every match is reported.
pub proof fn nothing_is_filtered_unasked(matches: Seq<MatchView>)
    ensures
        selected(Map::empty(), false, false, matches) == matches,
    decreases matches.len(),
{
    reveal(Seq::filter);
    if matches.len() > 0 {
        nothing_is_filtered_unasked(matches.drop_last());
        assert(matches.drop_last().push(matches.last()) =~= matches);
    }
}

} // verus!
