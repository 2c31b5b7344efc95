//! What comes back from the operations of the library, whatever is handed to them: each law
//! speaks of the arguments of a call and of its result, or of several calls together.

use regex::Regex;
use std::sync::Arc;
use tree_sitter::Tree;
use vstd::prelude::*;
use vstd::utf8::*;
use weggli::query::QueryTree;

use crate::combine::{
    chain, chainable, combine_results, context_views, group_results, lists, place_results,
    results_stand_in_their_group, single_query_is_unfiltered, ResultsCtx,
};
use crate::constraints::{
    make_constraint, meets_demand, process_regexes, read_arguments, read_variable, split_argument,
    values, variable_name, Constraint, RegexError, RegexMap,
};
use crate::engine::{
    compiled, found_matches, parsed, query_identifiers, query_variables, regex_matches,
    tree_syntax,
};
use crate::files::{
    any_match, compile_regexes, decide_path, fails_at, is_hidden, is_potential_match, is_wanted,
    keeps_path, parse_content, prepare_work, worth_parsing, Extension, WorkItem,
};
use crate::laws::{
    arguments_are_variable_and_expression, arguments_need_a_separator,
    checkable_matches_lack_nothing, distinct_values_are_injective, every_constraint_has_a_say,
    missing_identifiers_rule_a_source_out, names_and_signs_make_the_variable,
    one_possible_query_is_enough, other_patterns_get_no_braces, queries_are_placed_one_by_one,
    queries_have_six_kinds_of_root, span_text_has_the_bytes_between,
    syntax_nodes_say_what_they_hold, two_queries_show_what_goes_together,
    unasked_reports_hold_every_match, unsupported_patterns_get_braces,
    variables_come_from_the_queries,
};
use crate::pattern::{check_pattern, parse_search_pattern, QueryError, SourceTree};
use crate::report::{
    execute_queries, filter_matches, is_unique, lacks_variable, nothing_is_filtered_unasked,
    report_matches, views, Match,
};
use crate::syntax::{
    is_valid_node_kind, valid_node_kind, validate_query, wants_braces, QueryFault, SyntaxNode,
};
use crate::table::Table;
use crate::text::{
    cut_parts_make_the_text, cut_text, decode_text, is_among, is_span, line_number,
    lines_are_counted_by_line_feeds, occurs_in, span_parts_make_the_text, split_span,
    text_begins_on_line_one, texts,
};

verus! {

/// An entry is passed over exactly where its name is Unicode and starts with a dot.
pub proof fn hidden_names_start_with_a_dot(name: Option<&str>, hidden: bool)
    requires
        call_ensures(is_hidden, (name,), hidden),
    ensures
        name is None ==> !hidden,
        name is Some ==> (hidden <==> exists|rest: Seq<char>|
            (name->0)@ == #[trigger] (seq!['.'] + rest)),
{
    if hidden {
        let s = (name->0)@;
        assert(s =~= seq!['.'] + s.drop_first());
    }
}

/// A file with an extension is searched exactly where that extension is among the wanted
/// ones, letter for letter, and a directory never.
pub proof fn files_are_wanted_by_their_extension(
    is_dir: bool,
    text: String,
    extensions: Vec<String>,
    wanted: bool,
)
    requires
        call_ensures(is_wanted, (is_dir, &Extension::Text(text), &extensions), wanted),
    ensures
        wanted <==> !is_dir && exists|i: int|
            0 <= i < extensions@.len() && (#[trigger] extensions@[i])@ == text@,
{
}

/// A file without an extension is never searched; one whose extension is not Unicode is
/// where the empty extension is wanted.
pub proof fn odd_extensions_are_wanted_as_empty(
    is_dir: bool,
    extensions: Vec<String>,
    absent: bool,
    odd: bool,
)
    requires
        call_ensures(is_wanted, (is_dir, &Extension::Absent, &extensions), absent),
        call_ensures(is_wanted, (is_dir, &Extension::NotUnicode, &extensions), odd),
    ensures
        !absent,
        odd <==> !is_dir && exists|i: int|
            0 <= i < extensions@.len() && (#[trigger] extensions@[i])@.len() == 0,
{
    assert forall|i: int| 0 <= i < extensions@.len() implies ((#[trigger] extensions@[i])@.len()
        == 0) == (extensions@[i]@ == Seq::<char>::empty()) by {
        assert(extensions@[i]@.len() == 0 ==> extensions@[i]@ =~= Seq::<char>::empty());
    }
}

/// A name is among others exactly where one of them has the same text.
pub proof fn names_are_found_by_their_text(name: String, names: Vec<String>, found: bool)
    requires
        call_ensures(is_among, (&name, &names), found),
    ensures
        found <==> exists|i: int| 0 <= i < names@.len() && (#[trigger] names@[i])@ == name@,
{
}

/// A path stays exactly where no excluding expression matches it and, if there are
/// including ones, one of those does.
pub proof fn paths_are_kept_by_both_lists(
    excluded: Vec<Regex>,
    included: Vec<Regex>,
    path: &str,
    keeps: bool,
)
    requires
        call_ensures(keeps_path, (&excluded, &included, path), keeps),
    ensures
        keeps <==> (forall|i: int|
            0 <= i < excluded@.len() ==> !regex_matches(#[trigger] excluded@[i], path@)) && (
        included@.len() > 0 ==> exists|i: int|
            0 <= i < included@.len() && regex_matches(#[trigger] included@[i], path@)),
{
}

/// Some expression of a list matches exactly where the path would be left out by that list.
pub proof fn excluded_paths_match_something(
    excluded: Vec<Regex>,
    included: Vec<Regex>,
    path: &str,
    found: bool,
    keeps: bool,
)
    requires
        included@.len() == 0,
        call_ensures(any_match, (&excluded, path), found),
        call_ensures(keeps_path, (&excluded, &included, path), keeps),
    ensures
        keeps == !found,
        found <==> exists|i: int|
            0 <= i < excluded@.len() && regex_matches(#[trigger] excluded@[i], path@),
{
}

/// Exclusion decides alone; else a restriction lets through what is included, and without
/// one everything is let through.
pub proof fn exclusion_is_decided_first(
    restricted: bool,
    included: bool,
    left_out: bool,
    limited: bool,
    free: bool,
)
    requires
        call_ensures(decide_path, (true, restricted, included), left_out),
        call_ensures(decide_path, (false, true, included), limited),
        call_ensures(decide_path, (false, false, included), free),
    ensures
        !left_out,
        limited == included,
        free,
{
}

/// A positive demand is met by a match and a negative one by its absence.
pub proof fn demands_are_opposites(matched: bool, positive: bool, negative: bool)
    requires
        call_ensures(meets_demand, (false, matched), positive),
        call_ensures(meets_demand, (true, matched), negative),
    ensures
        positive == matched,
        negative == !matched,
{
}

/// Expressions are compiled where every pattern compiles, each to its own expression;
/// else the error is that of the first that does not.
pub proof fn expressions_are_compiled_in_order(
    patterns: Vec<String>,
    regexes: Result<Vec<Regex>, RegexError>,
    i: int,
)
    requires
        call_ensures(compile_regexes, (&patterns,), regexes),
        0 <= i < patterns@.len(),
        forall|j: int| 0 <= j < i ==> compiled((#[trigger] patterns@[j])@) is Ok,
    ensures
        compiled(patterns@[i]@) is Err ==> regexes is Err && regexes->Err_0
            == RegexError::InvalidRegex(compiled(patterns@[i]@)->Err_0),
        regexes is Ok ==> regexes->Ok_0@.len() == patterns@.len() && compiled(patterns@[i]@)
            == Ok::<_, regex::Error>(regexes->Ok_0@[i]),
{
    let wanted = texts(patterns@);
    assert(wanted[i] == patterns@[i]@);
    assert forall|j: int| 0 <= j < i implies #[trigger] compiled(wanted[j]) is Ok by {
        assert(compiled(patterns@[j]@) is Ok);
    }
    match regexes {
        Ok(rs) => {
            assert(compiled(wanted[i]) == Ok::<_, regex::Error>(rs@[i]));
        },
        Err(e) => {
            let k = choose|k: int| #[trigger] fails_at(wanted, k, e->InvalidRegex_0);
            assert(fails_at(wanted, k, e->InvalidRegex_0));
            if compiled(wanted[i]) is Err {
                if i < k {
                    assert(compiled(wanted[i]) is Ok);
                } else if k < i {
                    assert(compiled(wanted[k]) is Ok);
                }
            }
        },
    }
}

/// The name of a variable starts with `$`, and the name and the sign make up what was read,
/// with the `$` that may be left out.
pub proof fn variables_are_read_whole(var: &str, read: (String, bool))
    requires
        call_ensures(read_variable, (var,), read),
    ensures
        ({
            let full = if var@.len() > 0 && var@[0] == '$' {
                var@
            } else {
                seq!['$'] + var@
            };
            full == if read.1 {
                read.0@ + seq!['!']
            } else {
                read.0@
            }
        }),
        read.1 <==> var@.len() > 0 && var@.last() == '!',
{
    names_and_signs_make_the_variable(var@);
    assert(read.0@ + Seq::empty() =~= read.0@);
}

/// A text is cut at its first separator, and only where it has one.
pub proof fn texts_are_cut_at_the_first(s: &str, c: char, parts: Option<(&str, &str)>)
    requires
        call_ensures(cut_text, (s, c), parts),
    ensures
        parts is Some <==> s@.contains(c),
        parts is Some ==> s@ == ((parts->0).0)@ + seq![c] + ((parts->0).1)@ && !((
        parts->0).0)@.contains(c),
{
    cut_parts_make_the_text(s@, c);
}

/// What one argument gives: `name` and `negative` are those of the variable before the
/// first `=`, and the expression is compiled from the text behind it and nothing else.
pub proof fn one_argument_makes_one_constraint(
    variables: Vec<String>,
    args: Vec<String>,
    var: Seq<char>,
    pattern: Seq<char>,
    constraints: Result<RegexMap, RegexError>,
)
    requires
        args@.len() == 1,
        !var.contains('='),
        args@[0]@ == var + seq!['='] + pattern,
        call_ensures(process_regexes, (&variables, &args), constraints),
    ensures
        ({
            let full = if var.len() > 0 && var[0] == '$' {
                var
            } else {
                seq!['$'] + var
            };
            let negative = full[full.len() - 1] == '!';
            let name = if negative {
                full.take(full.len() - 1)
            } else {
                full
            };
            let known = exists|i: int|
                0 <= i < variables@.len() && (#[trigger] variables@[i])@ == name;
            match constraints {
                Ok(map) => {
                    &&& known
                    &&& compiled(pattern) is Ok
                    &&& map.view() == Map::<Seq<char>, Constraint>::empty().insert(
                        name,
                        (negative, compiled(pattern)->Ok_0),
                    )
                },
                Err(RegexError::InvalidVariable(v)) => !known && v@ == var,
                Err(RegexError::InvalidRegex(e)) => known && compiled(pattern) == Err::<Regex, _>(
                    e,
                ),
                Err(RegexError::InvalidArg(_)) => false,
            }
        }),
{
    let names = texts(variables@).to_set();
    let list = texts(args@);
    let arg = args@[0]@;
    names_and_signs_make_the_variable(var);
    arguments_are_variable_and_expression(names, var, pattern);
    let full = if var.len() > 0 && var[0] == '$' {
        var
    } else {
        seq!['$'] + var
    };
    let name = variable_name(var);
    assert(full[full.len() - 1] == '!' ==> name =~= full.take(full.len() - 1));
    assert(full[full.len() - 1] != '!' ==> name =~= full);
    assert(names.contains(name) <==> exists|i: int|
        0 <= i < variables@.len() && (#[trigger] variables@[i])@ == name) by {
        if names.contains(name) {
            let i = choose|i: int| 0 <= i < texts(variables@).len() && texts(variables@)[i] == name;
            assert(variables@[i]@ == name);
        }
        if exists|i: int| 0 <= i < variables@.len() && (#[trigger] variables@[i])@ == name {
            let i = choose|i: int|
                0 <= i < variables@.len() && (#[trigger] variables@[i])@ == name;
            assert(texts(variables@)[i] == name);
        }
    }
    assert(list.drop_last() =~= Seq::empty());
    assert(list.last() == arg);
    reveal_with_fuel(read_arguments, 2);
}

/// An argument without `=` is refused, and named in the error.
pub proof fn arguments_without_separator_are_refused(
    variables: Vec<String>,
    args: Vec<String>,
    constraints: Result<RegexMap, RegexError>,
)
    requires
        args@.len() == 1,
        !args@[0]@.contains('='),
        call_ensures(process_regexes, (&variables, &args), constraints),
    ensures
        constraints is Err,
        constraints->Err_0 is InvalidArg,
        (constraints->Err_0->InvalidArg_0)@ == args@[0]@,
{
    let names = texts(variables@).to_set();
    let list = texts(args@);
    arguments_need_a_separator(names, args@[0]@);
    assert(list.drop_last() =~= Seq::empty());
    assert(list.last() == args@[0]@);
    reveal_with_fuel(read_arguments, 2);
}

/// A match is allowed exactly where every constrained variable has a value that its
/// expression matches, or does not, as the sign asks.
pub proof fn matches_are_allowed_by_every_constraint(
    constraints: RegexMap,
    bindings: Table<String>,
    included: bool,
)
    requires
        forall|var: Seq<char>| #[trigger]
            constraints.view().dom().contains(var) ==> bindings.view().dom().contains(var),
        call_ensures(RegexMap::include_match, (&constraints, &bindings), included),
    ensures
        included <==> forall|var: Seq<char>| #[trigger]
            constraints.view().dom().contains(var) ==> (regex_matches(
                constraints.view()[var].1,
                bindings.view()[var]@,
            ) != constraints.view()[var].0),
{
    every_constraint_has_a_say(constraints.view(), values(bindings));
    assert forall|var: Seq<char>| #[trigger] constraints.view().dom().contains(
        var,
    ) implies values(bindings)[var] == bindings.view()[var]@ by {
        assert(bindings.view().dom().contains(var));
    }
}

/// Bindings are unique exactly where no two variables have the same text.
pub proof fn unique_bindings_have_no_text_twice(bindings: Table<String>, unique: bool)
    requires
        call_ensures(is_unique, (&bindings,), unique),
    ensures
        unique <==> forall|v: Seq<char>, w: Seq<char>|
            bindings.view().dom().contains(v) && bindings.view().dom().contains(w) && v != w ==> (
            #[trigger] bindings.view()[v])@ != (#[trigger] bindings.view()[w])@,
{
    let map = values(bindings);
    distinct_values_are_injective(map);
    if unique {
        assert forall|v: Seq<char>, w: Seq<char>|
            bindings.view().dom().contains(v) && bindings.view().dom().contains(w) && v
                != w implies (#[trigger] bindings.view()[v])@ != (#[trigger] bindings.view()[w])@ by {
            assert(map[v] != map[w]);
        }
    } else {
        let (v, w) = choose|v: Seq<char>, w: Seq<char>|
            v != w && map.dom().contains(v) && map.dom().contains(w) && #[trigger] map[v]
                == #[trigger] map[w];
        assert(bindings.view()[v]@ == bindings.view()[w]@);
    }
}

/// Without constraints, uniqueness and limit, as many matches are kept as there were, each
/// as it was and in its place.
pub proof fn matches_are_kept_unasked(
    matches: Vec<Match>,
    constraints: RegexMap,
    kept: Vec<Match>,
)
    requires
        constraints.view() == Map::<Seq<char>, Constraint>::empty(),
        call_ensures(filter_matches, (matches, &constraints, false, false), kept),
    ensures
        kept@.len() == matches@.len(),
        forall|i: int|
            0 <= i < kept@.len() ==> (#[trigger] kept@[i]).result == matches@[i].result
                && kept@[i].start_offset == matches@[i].start_offset && kept@[i].line
                == matches@[i].line,
{
    nothing_is_filtered_unasked(views(matches@));
    assert(views(kept@) == views(matches@));
    assert(views(kept@).len() == kept@.len());
    assert forall|i: int| 0 <= i < kept@.len() implies (#[trigger] kept@[i]).result
        == matches@[i].result && kept@[i].start_offset == matches@[i].start_offset
        && kept@[i].line == matches@[i].line by {
        assert(views(kept@)[i] == kept@[i].view());
        assert(views(matches@)[i] == matches@[i].view());
    }
}

/// Without constraints, uniqueness and limit, a search succeeds, and reports for each query
/// as many matches as are found in the file, each in its place.
pub proof fn searches_report_every_match_unasked(
    file: SourceTree,
    work: Vec<WorkItem>,
    constraints: RegexMap,
    reports: Result<Vec<Vec<Match>>, String>,
    q: int,
)
    requires
        constraints.view() == Map::<Seq<char>, Constraint>::empty(),
        call_ensures(execute_queries, (&file, &work, &constraints, false, false), reports),
        0 <= q < work@.len(),
    ensures
        reports is Ok,
        reports->Ok_0@.len() == work@.len(),
        ({
            let found = found_matches(
                work@[q].query(),
                parsed(file.text(), file.is_cpp()),
                file.text(),
            );
            let report = reports->Ok_0@[q]@;
            &&& report.len() == found.len()
            &&& forall|i: int| 0 <= i < report.len() ==> (#[trigger] report[i]).result == found[i]
        }),
{
    let rs = reports->Ok_0;
    let report = rs@[q]@;
    let none = Map::<Seq<char>, Constraint>::empty();
    assert(reports is Ok);
    unasked_reports_hold_every_match(work@[q].query(), file, views(report), 0);
    assert(views(report).len() == report.len());
    assert forall|i: int| 0 <= i < report.len() implies (#[trigger] report[i]).result
        == found_matches(
        work@[q].query(),
        parsed(file.text(), file.is_cpp()),
        file.text(),
    )[i] by {
        unasked_reports_hold_every_match(work@[q].query(), file, views(report), i);
        assert(views(report)[i] == report[i].view());
    }
}

/// Two assignments can be chained exactly where every variable that both have has the same
/// text in both.
pub proof fn assignments_are_chained_by_common_variables(
    a: Table<String>,
    b: Table<String>,
    ok: bool,
    swapped: bool,
)
    requires
        call_ensures(chainable, (&a, &b), ok),
        call_ensures(chainable, (&b, &a), swapped),
    ensures
        ok == swapped,
        ok <==> forall|var: Seq<char>|
            a.view().dom().contains(var) && b.view().dom().contains(var) ==> (
            #[trigger] a.view()[var])@ == (#[trigger] b.view()[var])@,
{
    if ok {
        assert forall|var: Seq<char>|
            b.view().dom().contains(var) && a.view().dom().contains(var) implies (
        #[trigger] b.view()[var])@ == (#[trigger] a.view()[var])@ by {}
    }
    if swapped {
        assert forall|var: Seq<char>|
            a.view().dom().contains(var) && b.view().dom().contains(var) implies (
        #[trigger] a.view()[var])@ == (#[trigger] b.view()[var])@ by {}
    }
}

/// Of the results of two queries, those are shown that go together with one of the other,
/// whatever their files.
pub proof fn two_queries_are_combined(groups: Vec<Vec<ResultsCtx>>, shown: Vec<Vec<ResultsCtx>>)
    requires
        groups@.len() == 2,
        call_ensures(combine_results, (groups,), shown),
    ensures
        shown@.len() == 2,
        shown@[0]@ == groups@[0]@.filter(
            |r: ResultsCtx|
                exists|l: int| 0 <= l < groups@[1]@.len() && chain(r, #[trigger] groups@[1]@[l]),
        ),
        shown@[1]@ == groups@[1]@.filter(
            |f: ResultsCtx|
                exists|l: int| 0 <= l < groups@[0]@.len() && chain(#[trigger] groups@[0]@[l], f),
        ),
{
    let all = lists(groups@);
    assert(all =~= seq![groups@[0]@, groups@[1]@]);
    two_queries_show_what_goes_together(groups@[0]@, groups@[1]@);
    assert(lists(shown@)[0] == shown@[0]@ && lists(shown@)[1] == shown@[1]@);
}

/// Where only one query is searched for, all its results are shown.
pub proof fn one_query_is_shown_whole(groups: Vec<Vec<ResultsCtx>>, shown: Vec<Vec<ResultsCtx>>)
    requires
        groups@.len() == 1,
        call_ensures(combine_results, (groups,), shown),
    ensures
        shown@.len() == 1,
        shown@[0]@ == groups@[0]@,
{
    single_query_is_unfiltered(lists(groups@));
    assert(lists(shown@)[0] == shown@[0]@);
    assert(lists(groups@)[0] == groups@[0]@);
}

/// The results of one file are as many as its matches, query by query: of a single query,
/// each stands in its place, with the query and the file.
pub proof fn results_are_placed_with_their_file(
    reports: Vec<Vec<Match>>,
    path: String,
    source: Arc<String>,
    results: Vec<ResultsCtx>,
    i: int,
)
    requires
        reports@.len() == 1,
        call_ensures(place_results, (reports, &path, &source), results),
    ensures
        results@.len() == reports@[0]@.len(),
        0 <= i < results@.len() ==> {
            &&& results@[i].query_index == 0
            &&& results@[i].path@ == path@
            &&& (*results@[i].source)@ == (*source)@
            &&& results@[i].result.view() == reports@[0]@[i].view()
        },
{
    queries_are_placed_one_by_one(Seq::empty(), reports@[0], path@, (*source)@, i);
    assert(Seq::empty().push(reports@[0]) =~= reports@);
    assert(context_views(results@).len() == results@.len());
    if 0 <= i < results@.len() {
        assert(context_views(results@)[i] == results@[i].view());
    }
}

/// Every result goes to the group of its query, behind those that came before it, and no
/// group holds anything else.
pub proof fn results_are_grouped_by_query(
    results: Vec<ResultsCtx>,
    num_queries: usize,
    groups: Vec<Vec<ResultsCtx>>,
    q: int,
    r: ResultsCtx,
)
    requires
        call_ensures(group_results, (results, num_queries), groups),
        0 <= q < num_queries,
    ensures
        groups@.len() == num_queries,
        groups@[q]@ == results@.filter(|x: ResultsCtx| x.query_index == q),
        groups@[q]@.contains(r) <==> results@.contains(r) && r.query_index == q,
{
    results_stand_in_their_group(results@, q, r);
}

/// A kind of node is supported exactly where it is one of six.
pub proof fn node_kinds_are_looked_up(kind: String, ok: bool)
    requires
        call_ensures(is_valid_node_kind, (&kind,), ok),
    ensures
        ok <==> seq![
            "compound_statement"@,
            "function_definition"@,
            "struct_specifier"@,
            "enum_specifier"@,
            "union_specifier"@,
            "class_specifier"@,
        ].contains(kind@),
{
    queries_have_six_kinds_of_root(kind@);
}

/// Braces are wanted exactly for a tree without errors whose first node is of an
/// unsupported kind.
pub proof fn braces_are_wanted_by_the_first_node(root: SyntaxNode, wanted: bool)
    requires
        call_ensures(wants_braces, (&root,), wanted),
    ensures
        wanted <==> !root.has_error && root.children@.len() > 0 && !valid_node_kind(
            root.children@[0].kind@,
        ),
{
}

/// A query is accepted exactly where it has no errors, or those are let pass, at most one
/// named node at its top, and a supported kind of first node.
pub proof fn queries_are_validated_by_their_top(
    root: SyntaxNode,
    force: bool,
    answer: Result<(), QueryFault>,
)
    requires
        root.children@.len() > 0,
        call_ensures(validate_query, (&root, force), answer),
    ensures
        answer is Ok <==> (force || !root.has_error) && root.named_child_count <= 1
            && valid_node_kind(root.children@[0].kind@),
        answer is Err ==> (answer->Err_0 is Syntax <==> root.has_error && !force),
        answer is Err ==> (answer->Err_0 is MultipleRoots <==> (force || !root.has_error)
            && root.named_child_count > 1),
{
    syntax_nodes_say_what_they_hold(&root, 0);
    syntax_nodes_say_what_they_hold(&root.children@[0], 0);
}

/// The query that comes of a pattern is the pattern inside braces exactly where it parses
/// without errors, starts with an unsupported node, and parses without errors inside
/// braces; else it is the pattern itself.
pub proof fn patterns_are_searched_for_as_they_parse(
    pattern: &str,
    cpp: bool,
    force: bool,
    query: Result<SourceTree, QueryError>,
)
    requires
        call_ensures(parse_search_pattern, (pattern, cpp, force), query),
    ensures
        ({
            let plain = tree_syntax(parsed(pattern@, cpp));
            let braced = tree_syntax(parsed(seq!['{'] + pattern@ + seq!['}'], cpp));
            let text = match query {
                Ok(q) => q.text(),
                Err(e) => e.query@,
            };
            if !plain.has_error && plain.children.len() > 0 && !valid_node_kind(
                plain.children[0].kind,
            ) && !braced.has_error {
                text == seq!['{'] + pattern@ + seq!['}']
            } else {
                text == pattern@
            }
        }),
        query is Ok ==> query->Ok_0.is_cpp() == cpp,
{
    let plain = tree_syntax(parsed(pattern@, cpp));
    let braced = tree_syntax(parsed(seq!['{'] + pattern@ + seq!['}'], cpp));
    if !plain.has_error && plain.children.len() > 0 && !valid_node_kind(plain.children[0].kind)
        && !braced.has_error {
        unsupported_patterns_get_braces(pattern@, cpp);
    } else {
        other_patterns_get_no_braces(pattern@, cpp);
    }
}

/// A source may match where one query has all its identifiers in it.
pub proof fn sources_may_match_one_query(
    work: Vec<WorkItem>,
    source: &str,
    potential: bool,
    q: int,
)
    requires
        call_ensures(is_potential_match, (&work, source), potential),
        0 <= q < work@.len(),
        forall|i: int|
            0 <= i < query_identifiers(work@[q].query()).len() ==> occurs_in(
                #[trigger] query_identifiers(work@[q].query())[i],
                source@,
            ),
    ensures
        potential,
{
    one_possible_query_is_enough(work@, q, source@);
}

/// A source cannot match where every query lacks an identifier in it.
pub proof fn sources_cannot_match_without_identifiers(
    work: Vec<WorkItem>,
    source: &str,
    potential: bool,
    missing: spec_fn(int) -> int,
)
    requires
        call_ensures(is_potential_match, (&work, source), potential),
        forall|q: int|
            0 <= q < work@.len() ==> 0 <= #[trigger] missing(q) && missing(q) < query_identifiers(
                work@[q].query(),
            ).len() && !occurs_in(query_identifiers(work@[q].query())[missing(q)], source@),
    ensures
        !potential,
{
    missing_identifiers_rule_a_source_out(work@, source@, missing);
}

/// Content is parsed exactly where it is UTF-8 and may match, as the text that it encodes
/// and in the language that is asked for.
pub proof fn contents_are_parsed_as_they_are(
    content: &[u8],
    work: Vec<WorkItem>,
    cpp: bool,
    file: Option<SourceTree>,
)
    requires
        call_ensures(parse_content, (content, &work, cpp), file),
    ensures
        file is Some <==> valid_utf8(content@) && worth_parsing(work@, decode_utf8(content@)),
        file is Some ==> encode_utf8(file->0.text()) == content@ && file->0.is_cpp() == cpp,
{
    if file is Some {
        decode_utf8_encode_utf8(content@);
    }
}

/// Every query is prepared, and a variable is collected exactly where one of the queries
/// mentions it, and no variable twice.
pub proof fn queries_are_prepared_with_their_variables(
    queries: Vec<QueryTree>,
    prepared: (Vec<WorkItem>, Vec<String>),
    var: Seq<char>,
)
    requires
        call_ensures(prepare_work, (queries,), prepared),
    ensures
        prepared.0@.len() == queries@.len(),
        (exists|i: int| 0 <= i < prepared.1@.len() && (#[trigger] prepared.1@[i])@ == var)
            <==> exists|i: int|
            0 <= i < queries@.len() && query_variables(#[trigger] queries@[i]).contains(var),
{
    variables_come_from_the_queries(queries@, var);
    let names = texts(prepared.1@);
    assert(names.to_set().contains(var) <==> names.contains(var));
    if names.contains(var) {
        let i = choose|i: int| 0 <= i < names.len() && names[i] == var;
        assert(prepared.1@[i]@ == var);
    }
    if exists|i: int| 0 <= i < prepared.1@.len() && (#[trigger] prepared.1@[i])@ == var {
        let i = choose|i: int| 0 <= i < prepared.1@.len() && (#[trigger] prepared.1@[i])@ == var;
        assert(names[i] == var);
    }
}

/// Bytes are text exactly where they are UTF-8, and the text is made of those bytes.
pub proof fn texts_are_made_of_their_bytes(content: &[u8], text: Option<&str>)
    requires
        call_ensures(decode_text, (content,), text),
    ensures
        text is Some <==> valid_utf8(content@),
        text is Some ==> encode_utf8((text->0)@) == content@,
{
}

/// The line number of an offset is that of the start of the text where no line feed comes
/// before the offset, and one more behind a line feed.
pub proof fn line_numbers_count_line_feeds(
    source: &str,
    offset: usize,
    next: usize,
    line: usize,
    next_line: usize,
)
    requires
        call_ensures(line_number, (source, offset), line),
        call_ensures(line_number, (source, next), next_line),
        next == offset + 1,
        next <= encode_utf8(source@).len(),
    ensures
        offset == 0 ==> line == 1,
        next_line == line + if encode_utf8(source@)[offset as int] == 0x0a {
            1int
        } else {
            0int
        },
{
    text_begins_on_line_one(source@);
    lines_are_counted_by_line_feeds(source@, offset as int);
}

/// A table gives back what was inserted last for a name, and for every other name what it
/// gave before.
pub proof fn tables_give_back_what_was_inserted<V>(
    table: Table<V>,
    name: String,
    value: V,
    after: Table<V>,
    other: String,
    was: Option<&V>,
    is: Option<&V>,
)
    requires
        call_ensures(Table::<V>::insert, (table, name, value), after),
        call_ensures(Table::<V>::get, (&table, &other), was),
        call_ensures(Table::<V>::get, (&after, &other), is),
    ensures
        other@ == name@ ==> is == Some(&value),
        other@ != name@ ==> is == was,
{
}

/// A text is parsed whole and as it is, in the language that is asked for.
pub proof fn texts_are_parsed_whole(source: String, cpp: bool, file: SourceTree, text: &str)
    requires
        call_ensures(SourceTree::parse, (source, cpp), file),
        call_ensures(SourceTree::source, (&file,), text),
    ensures
        text@ == source@,
        file.is_cpp() == cpp,
{
}

/// An argument is taken apart at its first `=`: the expression is all that stands behind
/// it, and the name is one of the variables.
pub proof fn arguments_are_taken_apart(
    variables: Vec<String>,
    arg: String,
    var: Seq<char>,
    pattern: Seq<char>,
    parts: Result<(String, bool, String), RegexError>,
)
    requires
        !var.contains('='),
        arg@ == var + seq!['='] + pattern,
        call_ensures(split_argument, (&variables, &arg), parts),
    ensures
        parts is Ok ==> {
            let (name, negative, rest) = parts->Ok_0;
            &&& rest@ == pattern
            &&& texts(variables@).contains(name@)
            &&& (if var.len() > 0 && var[0] == '$' {
                var
            } else {
                seq!['$'] + var
            }) == name@ + (if negative {
                seq!['!']
            } else {
                Seq::empty()
            })
            &&& negative <==> var.len() > 0 && var[var.len() - 1] == '!'
        },
        parts is Err ==> parts->Err_0 is InvalidVariable && (parts->Err_0->InvalidVariable_0)@
            == var,
{
    let names = texts(variables@);
    names_and_signs_make_the_variable(var);
    arguments_are_variable_and_expression(names.to_set(), var, pattern);
    match parts {
        Ok((name, _, _)) => {
            assert(names.to_set().contains(name@) <==> names.contains(name@));
        },
        Err(_) => {},
    }
}

/// A compiled expression becomes the constraint as it is, and an error stays that error.
pub proof fn constraints_take_over_what_was_compiled(
    name: String,
    negative: bool,
    regex: Result<Regex, regex::Error>,
    constraint: Result<(String, Constraint), RegexError>,
)
    requires
        call_ensures(make_constraint, (name, negative, regex), constraint),
    ensures
        constraint is Ok <==> regex is Ok,
        constraint is Ok ==> ((constraint->Ok_0).0)@ == name@ && (constraint->Ok_0).1 == (
            negative,
            regex->Ok_0,
        ),
        constraint is Err ==> constraint->Err_0 == RegexError::InvalidRegex(regex->Err_0),
{
}

/// A variable is said to be unbound exactly where there is a constraint on one that has no
/// value, and the one that is named is such a variable.
pub proof fn unbound_variables_are_constrained(
    constraints: RegexMap,
    bindings: Table<String>,
    var: Option<String>,
)
    requires
        call_ensures(RegexMap::unbound_variable, (&constraints, &bindings), var),
    ensures
        var is Some ==> constraints.view().dom().contains((var->0)@)
            && !bindings.view().dom().contains((var->0)@),
        var is None ==> constraints.view().dom().subset_of(bindings.view().dom()),
{
    if var is None {
        assert forall|v: Seq<char>| #[trigger] constraints.view().dom().contains(
            v,
        ) implies bindings.view().dom().contains(v) by {
            assert(values(bindings).dom().contains(v));
        }
    }
}

/// A report comes of matches exactly where each of them has a value for every constrained
/// variable, and what is reported then is what filtering them gives.
pub proof fn reports_are_refused_for_unbound_variables(
    matches: Vec<Match>,
    constraints: RegexMap,
    unique: bool,
    limit: bool,
    report: Result<Vec<Match>, String>,
    kept: Vec<Match>,
)
    requires
        call_ensures(report_matches, (matches, &constraints, unique, limit), report),
        call_ensures(filter_matches, (matches, &constraints, unique, limit), kept),
    ensures
        report is Ok <==> forall|i: int, var: Seq<char>|
            0 <= i < matches@.len() && #[trigger] constraints.view().dom().contains(var) ==> (
            #[trigger] matches@[i]).bindings.view().dom().contains(var),
        report is Ok ==> views(report->Ok_0@) == views(kept@),
{
    let all = views(matches@);
    assert(all.len() == matches@.len());
    checkable_matches_lack_nothing(constraints.view(), all);
    if report is Ok {
        assert forall|i: int, var: Seq<char>|
            0 <= i < matches@.len() && #[trigger] constraints.view().dom().contains(var) implies (
        #[trigger] matches@[i]).bindings.view().dom().contains(var) by {
            assert(all[i].bindings.dom().contains(var));
        }
    } else {
        let var = (report->Err_0)@;
        let i = choose|i: int|
            0 <= i < matches@.len() && lacks_variable(constraints.view(), #[trigger] all[i], var);
        assert(!matches@[i].bindings.view().dom().contains(var));
    }
}

/// A query may match a source exactly where all its identifiers occur there.
pub proof fn queries_may_match_by_identifiers(item: WorkItem, source: &str, may: bool)
    requires
        call_ensures(WorkItem::may_match, (&item, source), may),
    ensures
        may <==> forall|i: int|
            0 <= i < query_identifiers(item.query()).len() ==> occurs_in(
                #[trigger] query_identifiers(item.query())[i],
                source@,
            ),
{
}

/// A span and what stands before and behind it make up the source again, and the span is
/// made of the bytes between its offsets.
pub proof fn spans_split_the_source(
    source: &str,
    start: usize,
    end: usize,
    parts: (&str, &str, &str),
)
    requires
        is_span(source@, start as int, end as int),
        call_ensures(split_span, (source, start, end), parts),
    ensures
        source@ == parts.0@ + parts.1@ + parts.2@,
        encode_utf8(parts.1@) == encode_utf8(source@).subrange(start as int, end as int),
{
    span_parts_make_the_text(source@, start as int, end as int);
    span_text_has_the_bytes_between(source@, start as int, end as int);
}

/// The tree of a file is the one that parsing its text in its language gives.
pub proof fn trees_belong_to_their_text(file: SourceTree, tree: &Tree, root: SyntaxNode)
    requires
        call_ensures(SourceTree::tree, (&file,), tree),
        call_ensures(SourceTree::syntax, (&file,), root),
    ensures
        *tree == parsed(file.text(), file.is_cpp()),
        root.view() == tree_syntax(*tree),
{
}

/// Braces stay exactly where the tree inside them has no errors, and the tree that stays is
/// the one that is validated.
pub proof fn braces_stay_without_errors(
    root: SyntaxNode,
    braced: SyntaxNode,
    force: bool,
    decision: (bool, Result<(), QueryFault>),
)
    requires
        !root.has_error,
        root.children@.len() > 0,
        !valid_node_kind(root.children@[0].kind@),
        braced.children@.len() > 0,
        call_ensures(check_pattern, (&root, &Some(braced), force), decision),
    ensures
        decision.0 == !braced.has_error,
        decision.0 ==> (decision.1 is Ok <==> braced.named_child_count <= 1 && valid_node_kind(
            braced.children@[0].kind@,
        )),
        !decision.0 ==> decision.1 is Err,
{
    syntax_nodes_say_what_they_hold(&root, 0);
    syntax_nodes_say_what_they_hold(&root.children@[0], 0);
    syntax_nodes_say_what_they_hold(&braced, 0);
    syntax_nodes_say_what_they_hold(&braced.children@[0], 0);
}

} // verus!
