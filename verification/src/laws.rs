//! What the specifications of the library mean, in terms of what goes in and what comes
//! out. Each law speaks of every input.

use regex::Regex;
use vstd::prelude::*;
use vstd::std_specs::convert::FromSpec;
use vstd::utf8::*;
use weggli::query::QueryTree;
use weggli::result::QueryResult;

use crate::combine::{
    agree, all_placed, chain, chain_is_symmetric, combined, context_views, has_partner, lists,
    match_pair, match_row, match_rows, placed, with_partner, ContextView, ResultsCtx,
};
use crate::constraints::{
    all_bound, allows, argument_parts, constraint_on, is_negative, meets, read_argument,
    read_arguments, values, variable_name, with_dollar, Constraint, RegexError, RegexErrorView,
};
use crate::engine::{
    belongs_to, captured_text, compiled, found_matches, parsed, query_identifiers,
    query_variables, regex_matches, result_captures, result_start, result_vars, tree_syntax,
};
use crate::files::{
    all_variables, any_matches, compile_to, extension_text, fails_at, holds_all, path_stays,
    worth_parsing, Extension, WorkItem,
};
use crate::pattern::{
    chosen_root, fits_parser, in_braces, normalized, syntax_of, SourceTree,
};
use crate::report::{
    all_checkable, bindings_of, distinct_values, lacks_variable, lemma_selected_push, match_of,
    matches_in, nothing_is_filtered_unasked, passes, query_report, selected, starts_in, views,
    Match, MatchView,
};
use crate::syntax::{
    braces_wanted, first_error, first_with_error, valid_node_kind, validation,
    ErrorSpan, QueryFault, SyntaxNode, SyntaxView,
};
use crate::table::Table;
use crate::text::{
    cut, cut_parts_make_the_text, is_span, line_at, occurs_at, occurs_in, span_text,
    texts,
};

verus! {

/// The texts of strings are their characters, one text per string.
pub proof fn texts_are_those_of_the_strings(strings: Seq<String>, i: int)
    requires
        0 <= i < strings.len(),
    ensures
        texts(strings).len() == strings.len(),
        texts(strings)[i] == strings[i]@,
{
}

/// A needle occurs in a text exactly where the text is something, then the needle, then
/// something.
pub proof fn occurrence_splits_the_text(needle: Seq<char>, text: Seq<char>)
    ensures
        occurs_in(needle, text) <==> exists|before: Seq<char>, after: Seq<char>|
            text == #[trigger] (before + needle + after),
{
    if occurs_in(needle, text) {
        let k = choose|k: int| #[trigger] occurs_at(needle, text, k);
        let before = text.subrange(0, k);
        let after = text.subrange(k + needle.len(), text.len() as int);
        assert(text =~= before + needle + after);
    }
    if exists|before: Seq<char>, after: Seq<char>| text == #[trigger] (before + needle + after) {
        let (before, after) = choose|before: Seq<char>, after: Seq<char>|
            text == #[trigger] (before + needle + after);
        let k = before.len() as int;
        assert(text.subrange(k, k + needle.len()) =~= needle);
        assert(occurs_at(needle, text, k));
    }
}

/// Two offsets bound a text of their own exactly where they are in order, within the
/// bytes, and both between characters.
pub proof fn spans_lie_between_characters(source: Seq<char>, start: int, end: int)
    ensures
        is_span(source, start, end) <==> 0 <= start && start <= end && end <= encode_utf8(
            source,
        ).len() && is_char_boundary(encode_utf8(source), start) && is_char_boundary(
            encode_utf8(source),
            end,
        ),
{
}

/// The text of a span is made of the bytes between its offsets.
pub proof fn span_text_has_the_bytes_between(source: Seq<char>, start: int, end: int)
    requires
        0 <= start <= end <= encode_utf8(source).len(),
        is_char_boundary(encode_utf8(source), start),
        is_char_boundary(encode_utf8(source), end),
    ensures
        encode_utf8(span_text(source, start, end)) == encode_utf8(source).subrange(start, end),
{
    let bytes = encode_utf8(source);
    let head = bytes.subrange(0, end);
    encode_utf8_valid_utf8(source);
    valid_utf8_split(bytes, end);
    assert(is_char_boundary(head, start)) by {
        if start == end {
            is_char_boundary_start_end_of_seq(head);
        } else {
            is_char_boundary_iff_not_is_continuation_byte(bytes, start);
            is_char_boundary_iff_not_is_continuation_byte(head, start);
            assert(head[start] == bytes[start]);
        }
    }
    valid_utf8_split(head, start);
    assert(head.subrange(start, head.len() as int) =~= bytes.subrange(start, end));
    decode_utf8_encode_utf8(bytes.subrange(start, end));
}

/// A syntax node says what its fields hold, and what its children say, each in its place.
pub proof fn syntax_nodes_say_what_they_hold(node: &SyntaxNode, i: int)
    ensures
        node.view().kind == node.kind@,
        node.view().has_error == node.has_error,
        node.view().is_error == node.is_error,
        node.view().is_missing == node.is_missing,
        node.view().named_child_count == node.named_child_count,
        node.view().start_byte == node.start_byte,
        node.view().end_byte == node.end_byte,
        node.view().children.len() == node.children@.len(),
        0 <= i < node.children@.len() ==> node.view().children[i] == node.children@[i].view(),
{
    reveal_with_fuel(SyntaxNode::view, 2);
}

/// A query can be rooted in a block, a function, a struct, an enum, a union or a class,
/// and in nothing else.
pub proof fn queries_have_six_kinds_of_root(kind: Seq<char>)
    ensures
        valid_node_kind(kind) <==> seq![
            "compound_statement"@,
            "function_definition"@,
            "struct_specifier"@,
            "enum_specifier"@,
            "union_specifier"@,
            "class_specifier"@,
        ].contains(kind),
{
    let kinds = seq![
        "compound_statement"@,
        "function_definition"@,
        "struct_specifier"@,
        "enum_specifier"@,
        "union_specifier"@,
        "class_specifier"@,
    ];
    assert(kinds[0] == "compound_statement"@);
    assert(kinds[1] == "function_definition"@);
    assert(kinds[2] == "struct_specifier"@);
    assert(kinds[3] == "enum_specifier"@);
    assert(kinds[4] == "union_specifier"@);
    assert(kinds[5] == "class_specifier"@);
}

/// A node without an error below it has none to report.
pub proof fn clean_nodes_have_no_error(node: SyntaxView)
    requires
        !node.has_error,
    ensures
        first_error(node) is None,
{
}

/// A node that is itself an error, or missing, is the one that is reported.
pub proof fn errors_report_themselves(node: SyntaxView)
    requires
        node.has_error,
        node.is_error || node.is_missing,
    ensures
        first_error(node) == Some(node),
{
}

/// For a node that only has errors below it, the first child with an error decides,
/// whatever the other children hold.
pub proof fn first_faulty_child_decides(node: SyntaxView, i: int)
    requires
        node.has_error,
        !node.is_error,
        !node.is_missing,
        0 <= i < node.children.len(),
        node.children[i].has_error,
        forall|j: int| 0 <= j < i ==> !(#[trigger] node.children[j]).has_error,
    ensures
        first_error(node) == first_error(node.children[i]),
{
    assert(first_with_error(node.children, i));
    let k = choose|k: int| #[trigger] first_with_error(node.children, k);
    assert(first_with_error(node.children, k));
    assert(k == i) by {
        if k < i {
            assert(!node.children[k].has_error);
        } else if i < k {
            assert(!node.children[i].has_error);
        }
    }
}

/// A node with an error that no child has, and that is not one itself, points at nothing.
pub proof fn errors_without_a_place_are_not_reported(node: SyntaxView)
    requires
        !node.is_error,
        !node.is_missing,
        forall|j: int| 0 <= j < node.children.len() ==> !(#[trigger] node.children[j]).has_error,
    ensures
        first_error(node) is None,
{
    assert(forall|i: int| !#[trigger] first_with_error(node.children, i));
}

/// A query is accepted exactly where it has no syntax errors, unless they are let pass,
/// at most one named node at its top, and a supported kind of first node; without any
/// node, the root of the tree itself counts.
pub proof fn acceptance_of_queries(root: SyntaxView, force: bool)
    ensures
        root.children.len() > 0 ==> (validation(root, force, None) <==> (force || !root.has_error)
            && root.named_child_count <= 1 && valid_node_kind(root.children[0].kind)),
        root.children.len() == 0 ==> (validation(root, force, None) <==> (force
            || !root.has_error) && root.named_child_count <= 1 && valid_node_kind(root.kind)),
{
}

/// A query is refused for its syntax errors exactly where it has some and they are not
/// let pass, and what is pointed at is the reported error, with the kind of what is
/// missing there if something is.
pub proof fn refusal_for_syntax_errors(root: SyntaxView, force: bool, span: ErrorSpan)
    ensures
        validation(root, force, Some(QueryFault::Syntax(None))) <==> root.has_error && !force
            && first_error(root) is None,
        validation(root, force, Some(QueryFault::Syntax(Some(span)))) <==> root.has_error && !force
            && first_error(root) is Some && span.start_byte == first_error(root)->0.start_byte
            && span.end_byte == first_error(root)->0.end_byte && (span.missing is Some
            <==> first_error(root)->0.is_missing) && (span.missing is Some ==> (
        span.missing->0)@ == first_error(root)->0.kind),
{
}

/// Past its syntax, a query is refused for more than one named node at its top, and only
/// then for the kind of its first node.
pub proof fn refusal_for_the_root(root: SyntaxView, force: bool)
    ensures
        validation(root, force, Some(QueryFault::MultipleRoots)) <==> (force || !root.has_error)
            && root.named_child_count > 1,
        root.children.len() > 0 ==> (validation(root, force, Some(QueryFault::UnsupportedRoot))
            <==> (force || !root.has_error) && root.named_child_count <= 1 && !valid_node_kind(
            root.children[0].kind,
        )),
        root.children.len() == 0 ==> (validation(root, force, Some(QueryFault::UnsupportedRoot))
            <==> (force || !root.has_error) && root.named_child_count <= 1 && !valid_node_kind(
            root.kind,
        )),
{
}

/// Braces are tried exactly for a pattern that parses without errors and whose first node
/// is of an unsupported kind, however many nodes follow.
pub proof fn braces_depend_on_errors_and_first_kind(root: SyntaxView)
    ensures
        root.children.len() == 0 ==> !braces_wanted(root),
        root.has_error ==> !braces_wanted(root),
        root.children.len() > 0 && !root.has_error ==> (braces_wanted(root) <==> !valid_node_kind(
            root.children[0].kind,
        )),
{
}

/// Two trees that agree on their errors and on the kind of their first nodes are treated
/// alike, whatever else they hold.
pub proof fn braces_depend_on_nothing_else(a: SyntaxView, b: SyntaxView)
    requires
        a.has_error == b.has_error,
        a.children.len() > 0,
        b.children.len() > 0,
        a.children[0].kind == b.children[0].kind,
    ensures
        braces_wanted(a) == braces_wanted(b),
{
}

/// The form inside braces is the pattern between one brace before it and one behind it.
pub proof fn braces_go_round_the_pattern(pattern: Seq<char>)
    ensures
        in_braces(pattern).len() == pattern.len() + 2,
        in_braces(pattern)[0] == '{',
        in_braces(pattern)[pattern.len() as int + 1] == '}',
        in_braces(pattern).subrange(1, pattern.len() as int + 1) == pattern,
{
    assert(in_braces(pattern).subrange(1, pattern.len() as int + 1) =~= pattern);
}

/// The parser takes every text of fewer than `u32::MAX` bytes.
pub proof fn parser_takes_texts_by_their_length(source: Seq<char>)
    ensures
        fits_parser(source) <==> encode_utf8(source).len() < u32::MAX,
{
}

/// The syntax of a text is that of the tree that is parsed from it in its mode.
pub proof fn syntax_comes_from_the_parser(source: Seq<char>, cpp: bool)
    ensures
        syntax_of(source, cpp) == tree_syntax(parsed(source, cpp)),
{
}

/// A pattern that parses without errors, has a first node of an unsupported kind and
/// parses without errors inside braces is searched for inside braces, however many nodes
/// stand at its top.
pub proof fn unsupported_patterns_get_braces(pattern: Seq<char>, cpp: bool)
    requires
        !tree_syntax(parsed(pattern, cpp)).has_error,
        tree_syntax(parsed(pattern, cpp)).children.len() > 0,
        !valid_node_kind(tree_syntax(parsed(pattern, cpp)).children[0].kind),
        !tree_syntax(parsed(seq!['{'] + pattern + seq!['}'], cpp)).has_error,
    ensures
        normalized(pattern, cpp) == seq!['{'] + pattern + seq!['}'],
{
}

/// Any other pattern is searched for as it is.
pub proof fn other_patterns_get_no_braces(pattern: Seq<char>, cpp: bool)
    requires
        tree_syntax(parsed(pattern, cpp)).has_error || tree_syntax(
            parsed(pattern, cpp),
        ).children.len() == 0 || valid_node_kind(
            tree_syntax(parsed(pattern, cpp)).children[0].kind,
        ) || tree_syntax(parsed(seq!['{'] + pattern + seq!['}'], cpp)).has_error,
    ensures
        normalized(pattern, cpp) == pattern,
{
}

/// The tree inside braces is the one that counts exactly where braces are tried and it has
/// no errors; else the tree of the pattern counts.
pub proof fn faultless_braces_count(root: SyntaxView, braced: SyntaxView)
    ensures
        !root.has_error && root.children.len() > 0 && !valid_node_kind(root.children[0].kind)
            && !braced.has_error ==> chosen_root(root, braced) == braced,
        root.has_error || root.children.len() == 0 || valid_node_kind(root.children[0].kind)
            || braced.has_error ==> chosen_root(root, braced) == root,
{
}

/// An error about a regular expression says what it holds.
pub proof fn regex_errors_say_what_they_hold(text: String, err: regex::Error)
    ensures
        RegexError::InvalidArg(text).view() == RegexErrorView::InvalidArg(text@),
        RegexError::InvalidVariable(text).view() == RegexErrorView::InvalidVariable(text@),
        RegexError::InvalidRegex(err).view() == RegexErrorView::InvalidRegex(err),
{
}

/// An error of the regular expressions becomes one about an invalid expression, unchanged.
pub proof fn regex_errors_are_passed_on(err: regex::Error)
    ensures
        <RegexError as FromSpec<regex::Error>>::obeys_from_spec(),
        <RegexError as FromSpec<regex::Error>>::from_spec(err) == RegexError::InvalidRegex(err),
{
}

/// The values of variables are the texts that the table holds for them, and no others.
pub proof fn values_are_those_of_the_table(bindings: Table<String>, var: Seq<char>)
    ensures
        values(bindings).dom().contains(var) <==> bindings.view().dom().contains(var),
        bindings.view().dom().contains(var) ==> values(bindings)[var] == bindings.view()[var]@,
{
}

/// A positive constraint is met by the values that its expression matches, a negative one
/// by all others.
pub proof fn constraints_follow_their_sign(regex: Regex, value: Seq<char>)
    ensures
        meets((false, regex), value) <==> regex_matches(regex, value),
        meets((true, regex), value) <==> !regex_matches(regex, value),
{
}

/// A match is checkable exactly where it has a value for every constrained variable.
pub proof fn constrained_variables_need_values(
    constraints: Map<Seq<char>, Constraint>,
    bindings: Map<Seq<char>, Seq<char>>,
)
    ensures
        all_bound(constraints, bindings) <==> forall|var: Seq<char>| #[trigger]
            constraints.dom().contains(var) ==> bindings.dom().contains(var),
{
}

/// A match is allowed exactly where, for every constrained variable, the expression
/// matches the value or not as the sign asks.
pub proof fn every_constraint_has_a_say(
    constraints: Map<Seq<char>, Constraint>,
    bindings: Map<Seq<char>, Seq<char>>,
)
    ensures
        allows(constraints, bindings) <==> forall|var: Seq<char>| #[trigger]
            constraints.dom().contains(var) ==> (if constraints[var].0 {
                !regex_matches(constraints[var].1, bindings[var])
            } else {
                regex_matches(constraints[var].1, bindings[var])
            }),
{
    if allows(constraints, bindings) {
        assert forall|var: Seq<char>| #[trigger] constraints.dom().contains(var) implies (
        if constraints[var].0 {
            !regex_matches(constraints[var].1, bindings[var])
        } else {
            regex_matches(constraints[var].1, bindings[var])
        }) by {
            assert(meets(constraints[var], bindings[var]));
        }
    }
}

/// What stands before the `=`, with its `$`, is the variable's name and then the `!`, if
/// the constraint is negative; a positive one has no `!` at its end.
pub proof fn names_and_signs_make_the_variable(var: Seq<char>)
    ensures
        var.len() > 0 && var[0] == '$' ==> var == variable_name(var) + (if is_negative(var) {
            seq!['!']
        } else {
            Seq::empty()
        }),
        var.len() == 0 || var[0] != '$' ==> seq!['$'] + var == variable_name(var) + (
        if is_negative(var) {
            seq!['!']
        } else {
            Seq::empty()
        }),
        is_negative(var) <==> var.len() > 0 && var[var.len() - 1] == '!',
        with_dollar(var) == variable_name(var) + (if is_negative(var) {
            seq!['!']
        } else {
            Seq::empty()
        }),
{
    let full = with_dollar(var);
    let sign = if is_negative(var) {
        seq!['!']
    } else {
        Seq::<char>::empty()
    };
    assert(full =~= variable_name(var) + sign);
    if var.len() > 0 && var[0] != '$' {
        assert(full.last() == var[var.len() - 1]);
    }
}

/// An argument without `=` is refused as it is.
pub proof fn arguments_need_a_separator(variables: Set<Seq<char>>, arg: Seq<char>)
    requires
        !arg.contains('='),
    ensures
        argument_parts(variables, arg) == Err::<(Seq<char>, bool, Seq<char>), _>(
            RegexErrorView::InvalidArg(arg),
        ),
        read_argument(variables, arg) == Err::<(Seq<char>, Constraint), _>(
            RegexErrorView::InvalidArg(arg),
        ),
{
    cut_parts_make_the_text(arg, '=');
}

/// The cut of `before`, a first separator, and `after` gives these two back.
proof fn lemma_cut_of_parts(before: Seq<char>, c: char, after: Seq<char>)
    requires
        !before.contains(c),
    ensures
        cut(before + seq![c] + after, c) == Some((before, after)),
{
    let s = before + seq![c] + after;
    assert(s[before.len() as int] == c);
    assert(s.contains(c));
    cut_parts_make_the_text(s, c);
    let (b, a) = cut(s, c)->0;
    if b.len() < before.len() {
        assert(s[b.len() as int] == (b + seq![c] + a)[b.len() as int]);
        assert(before[b.len() as int] == c);
        assert(before.contains(c));
    } else if before.len() < b.len() {
        assert(b[before.len() as int] == s[before.len() as int]);
        assert(b.contains(c));
    }
    assert(b =~= before) by {
        assert forall|i: int| 0 <= i < b.len() implies b[i] == before[i] by {
            assert(s[i] == (b + seq![c] + a)[i]);
        }
    }
    assert(a =~= after) by {
        assert(a.len() == after.len());
        assert forall|i: int| 0 <= i < a.len() implies a[i] == after[i] by {
            assert(s[b.len() + 1 + i] == (b + seq![c] + a)[b.len() + 1 + i]);
        }
    }
}

/// An argument is the variable, the first `=`, and the expression. It is refused for a
/// variable that no query has, whatever the expression; else its expression is compiled
/// just as it stands, and the constraint on the variable is that expression with the sign
/// of the variable.
pub proof fn arguments_are_variable_and_expression(
    variables: Set<Seq<char>>,
    var: Seq<char>,
    pattern: Seq<char>,
)
    requires
        !var.contains('='),
    ensures
        ({
            let arg = var + seq!['='] + pattern;
            let read = read_argument(variables, arg);
            let parts = argument_parts(variables, arg);
            if !variables.contains(variable_name(var)) {
                &&& read == Err::<(Seq<char>, Constraint), _>(RegexErrorView::InvalidVariable(var))
                &&& parts == Err::<(Seq<char>, bool, Seq<char>), _>(
                    RegexErrorView::InvalidVariable(var),
                )
            } else {
                &&& parts == Ok::<_, RegexErrorView>(
                    (variable_name(var), is_negative(var), pattern),
                )
                &&& compiled(pattern) is Err ==> read == Err::<(Seq<char>, Constraint), _>(
                    RegexErrorView::InvalidRegex(compiled(pattern)->Err_0),
                )
                &&& compiled(pattern) is Ok ==> read == Ok::<_, RegexErrorView>(
                    (variable_name(var), (is_negative(var), compiled(pattern)->Ok_0)),
                )
            }
        }),
{
    lemma_cut_of_parts(var, '=', pattern);
}

/// What compiling gave goes into the constraint, or into the error, unchanged.
pub proof fn compiled_expressions_are_taken_over(
    name: Seq<char>,
    negative: bool,
    regex: Regex,
    err: regex::Error,
)
    ensures
        constraint_on(name, negative, Ok(regex)) == Ok::<_, RegexErrorView>(
            (name, (negative, regex)),
        ),
        constraint_on(name, negative, Err(err)) == Err::<(Seq<char>, Constraint), _>(
            RegexErrorView::InvalidRegex(err),
        ),
{
}

/// An argument that is accepted holds the expression compiled from exactly the text behind
/// the first `=`: a value passes the constraint as that expression and the sign say.
pub proof fn accepted_arguments_mean_their_expression(
    variables: Set<Seq<char>>,
    var: Seq<char>,
    pattern: Seq<char>,
    bindings: Map<Seq<char>, Seq<char>>,
)
    requires
        !var.contains('='),
        read_arguments(variables, seq![var + seq!['='] + pattern]) is Ok,
    ensures
        compiled(pattern) is Ok,
        variables.contains(variable_name(var)),
        allows(read_arguments(variables, seq![var + seq!['='] + pattern])->Ok_0, bindings) <==> (
        regex_matches(compiled(pattern)->Ok_0, bindings[variable_name(var)]) != is_negative(var)),
{
    let arg = var + seq!['='] + pattern;
    let args = seq![arg];
    arguments_are_variable_and_expression(variables, var, pattern);
    assert(args.drop_last() =~= Seq::empty());
    assert(args.last() == arg);
    reveal_with_fuel(read_arguments, 2);
    let map = read_arguments(variables, args)->Ok_0;
    every_constraint_has_a_say(map, bindings);
    assert(map.dom().contains(variable_name(var)));
}

/// No arguments make no constraints, and one more argument adds its constraint to those of
/// the arguments before it, or is refused where those were accepted.
pub proof fn arguments_add_up(variables: Set<Seq<char>>, args: Seq<Seq<char>>, arg: Seq<char>)
    ensures
        read_arguments(variables, Seq::empty()) == Ok::<_, RegexErrorView>(
            Map::<Seq<char>, Constraint>::empty(),
        ),
        read_arguments(variables, args) is Err ==> read_arguments(variables, args.push(arg))
            == read_arguments(variables, args),
        read_arguments(variables, args) is Ok && read_argument(variables, arg) is Err
            ==> read_arguments(variables, args.push(arg)) == Err::<Map<Seq<char>, Constraint>, _>(
            read_argument(variables, arg)->Err_0,
        ),
        read_arguments(variables, args) is Ok && read_argument(variables, arg) is Ok
            ==> read_arguments(variables, args.push(arg)) == Ok::<_, RegexErrorView>(
            read_arguments(variables, args)->Ok_0.insert(
                (read_argument(variables, arg)->Ok_0).0,
                (read_argument(variables, arg)->Ok_0).1,
            ),
        ),
{
    assert(args.push(arg).drop_last() =~= args);
}

/// An extension is looked up as it is, whatever its text; one that is not Unicode as the
/// empty text; and a missing one not at all.
pub proof fn extensions_are_looked_up_as_they_are(text: String)
    ensures
        extension_text(Extension::Text(text)) == Some(text@),
        extension_text(Extension::NotUnicode) == Some(Seq::<char>::empty()),
        extension_text(Extension::Absent) is None,
{
}

/// Patterns compile to the expressions that each of them compiles to, in their order.
pub proof fn patterns_compile_one_by_one(patterns: Seq<Seq<char>>, regexes: Seq<Regex>)
    ensures
        compile_to(patterns, regexes) <==> patterns.len() == regexes.len() && forall|i: int|
            0 <= i < patterns.len() ==> compiled(#[trigger] patterns[i]) is Ok && compiled(
                patterns[i],
            )->Ok_0 == regexes[i],
{
    if compile_to(patterns, regexes) {
        assert forall|i: int| 0 <= i < patterns.len() implies compiled(
            #[trigger] patterns[i],
        ) is Ok && compiled(patterns[i])->Ok_0 == regexes[i] by {
            assert(compiled(patterns[i]) == Ok::<_, regex::Error>(regexes[i]));
        }
    }
    if patterns.len() == regexes.len() && forall|i: int|
        0 <= i < patterns.len() ==> compiled(#[trigger] patterns[i]) is Ok && compiled(
            patterns[i],
        )->Ok_0 == regexes[i] {
        assert forall|i: int| 0 <= i < patterns.len() implies #[trigger] compiled(patterns[i])
            == Ok::<_, regex::Error>(regexes[i]) by {}
    }
}

/// The error for patterns is that of a pattern all before which compile.
pub proof fn first_uncompilable_pattern_fails(
    patterns: Seq<Seq<char>>,
    i: int,
    err: regex::Error,
)
    ensures
        fails_at(patterns, i, err) <==> 0 <= i < patterns.len() && compiled(patterns[i]) is Err
            && compiled(patterns[i])->Err_0 == err && forall|j: int|
            0 <= j < i ==> compiled(#[trigger] patterns[j]) is Ok,
{
    if fails_at(patterns, i, err) {
        assert forall|j: int| 0 <= j < i implies compiled(#[trigger] patterns[j]) is Ok by {
            assert(compiled(patterns[j]) is Ok);
        }
    }
}

/// A path is searched exactly where no excluding expression matches it and, if there are
/// including ones, some of those does.
pub proof fn paths_are_searched_by_both_lists(
    excluded: Seq<Regex>,
    included: Seq<Regex>,
    path: Seq<char>,
)
    ensures
        path_stays(excluded, included, path) <==> (forall|i: int|
            0 <= i < excluded.len() ==> !regex_matches(#[trigger] excluded[i], path)) && (
        included.len() > 0 ==> exists|i: int|
            0 <= i < included.len() && regex_matches(#[trigger] included[i], path)),
        any_matches(excluded, path) <==> exists|i: int|
            0 <= i < excluded.len() && regex_matches(#[trigger] excluded[i], path),
{
}

/// A source holds names where each stands somewhere in it, between something before and
/// something behind.
pub proof fn sources_hold_what_stands_in_them(
    source: Seq<char>,
    names: Seq<Seq<char>>,
    before: spec_fn(int) -> Seq<char>,
    after: spec_fn(int) -> Seq<char>,
)
    requires
        forall|i: int|
            0 <= i < names.len() ==> source == before(i) + #[trigger] names[i] + after(i),
    ensures
        holds_all(source, names),
{
    assert forall|i: int| 0 <= i < names.len() implies occurs_in(#[trigger] names[i], source) by {
        assert(source == before(i) + names[i] + after(i));
        occurrence_splits_the_text(names[i], source);
    }
}

/// Each of the names that a source holds stands somewhere in it.
pub proof fn held_names_stand_in_the_source(source: Seq<char>, names: Seq<Seq<char>>, i: int)
    requires
        holds_all(source, names),
        0 <= i < names.len(),
    ensures
        exists|before: Seq<char>, after: Seq<char>|
            source == #[trigger] (before + names[i] + after),
{
    assert(occurs_in(names[i], source));
    occurrence_splits_the_text(names[i], source);
}

/// A source is worth parsing where all identifiers of one query stand in it, whatever the
/// other queries mention.
pub proof fn one_possible_query_is_enough(work: Seq<WorkItem>, q: int, source: Seq<char>)
    requires
        0 <= q < work.len(),
        forall|i: int|
            0 <= i < query_identifiers(work[q].query()).len() ==> occurs_in(
                #[trigger] query_identifiers(work[q].query())[i],
                source,
            ),
    ensures
        worth_parsing(work, source),
{
    assert(holds_all(source, query_identifiers(work[q].query())));
}

/// A source is not worth parsing where every query mentions an identifier that does not
/// stand in it.
pub proof fn missing_identifiers_rule_a_source_out(
    work: Seq<WorkItem>,
    source: Seq<char>,
    missing: spec_fn(int) -> int,
)
    requires
        forall|q: int|
            0 <= q < work.len() ==> 0 <= #[trigger] missing(q) && missing(q) < query_identifiers(
                work[q].query(),
            ).len() && !occurs_in(query_identifiers(work[q].query())[missing(q)], source),
    ensures
        !worth_parsing(work, source),
{
    assert forall|q: int| 0 <= q < work.len() implies !holds_all(
        source,
        query_identifiers((#[trigger] work[q]).query()),
    ) by {
        assert(!occurs_in(query_identifiers(work[q].query())[missing(q)], source));
    }
}

/// A variable can be constrained exactly where one of the queries mentions it.
pub proof fn variables_come_from_the_queries(queries: Seq<QueryTree>, var: Seq<char>)
    ensures
        all_variables(queries).contains(var) <==> exists|i: int|
            0 <= i < queries.len() && query_variables(#[trigger] queries[i]).contains(var),
    decreases queries.len(),
{
    if queries.len() > 0 {
        let before = queries.drop_last();
        variables_come_from_the_queries(before, var);
        if all_variables(before).contains(var) {
            let i = choose|i: int|
                0 <= i < before.len() && query_variables(#[trigger] before[i]).contains(var);
            assert(query_variables(queries[i]).contains(var));
        }
        if query_variables(queries.last()).contains(var) {
            assert(query_variables(queries[queries.len() - 1]).contains(var));
        }
        if exists|i: int|
            0 <= i < queries.len() && query_variables(#[trigger] queries[i]).contains(var) {
            let i = choose|i: int|
                0 <= i < queries.len() && query_variables(#[trigger] queries[i]).contains(var);
            if i < before.len() {
                assert(query_variables(before[i]).contains(var));
            }
        }
    }
}

/// A match of a query belongs to a text exactly where every variable has a capture, and
/// every capture, and what stands before the match, is a text of its own.
pub proof fn matches_belong_by_their_captures(result: QueryResult, source: Seq<char>)
    ensures
        belongs_to(result, source) <==> {
            &&& is_span(source, 0, result_start(result) as int)
            &&& forall|var: Seq<char>|
                result_vars(result).dom().contains(var) ==> 0 <= #[trigger] result_vars(result)[var]
                    < result_captures(result).len()
            &&& forall|i: int|
                0 <= i < result_captures(result).len() ==> is_span(
                    source,
                    (#[trigger] result_captures(result)[i]).0 as int,
                    result_captures(result)[i].1 as int,
                )
        },
{
}

/// What a variable captured is the text between the two offsets that the match gives for
/// it.
pub proof fn captures_are_read_between_their_offsets(
    result: QueryResult,
    source: Seq<char>,
    var: Seq<char>,
    start: nat,
    end: nat,
)
    requires
        result_captures(result)[result_vars(result)[var] as int] == (start, end),
    ensures
        captured_text(result, source, var) == decode_utf8(
            encode_utf8(source).subrange(start as int, end as int),
        ),
{
}

/// A match says what its fields hold.
pub proof fn matches_say_what_they_hold(m: Match, var: Seq<char>)
    ensures
        m.view().bindings.dom().contains(var) <==> m.bindings.view().dom().contains(var),
        m.bindings.view().dom().contains(var) ==> m.view().bindings[var]
            == m.bindings.view()[var]@,
        m.view().start_offset == m.start_offset,
        m.view().line == m.line,
        m.view().result == m.result,
{
}

/// The matches in a list are looked at one by one, in their order.
pub proof fn match_lists_say_what_they_hold(matches: Seq<Match>, i: int)
    requires
        0 <= i < matches.len(),
    ensures
        views(matches).len() == matches.len(),
        views(matches)[i] == matches[i].view(),
{
}

/// A match is spelled out with a value for each variable that it captured and for no
/// other, the text between the offsets of that capture; with the offset at which it
/// starts; and with the line of that offset.
pub proof fn matches_are_spelled_out(result: QueryResult, source: Seq<char>, var: Seq<char>)
    ensures
        ({
            let m = match_of(result, source);
            let range = result_captures(result)[result_vars(result)[var] as int];
            &&& m.result == result
            &&& m.start_offset == result_start(result)
            &&& m.line == line_at(source, result_start(result) as int)
            &&& m.bindings == bindings_of(result, source)
            &&& m.bindings.dom() == result_vars(result).dom()
            &&& result_vars(result).dom().contains(var) ==> m.bindings[var] == decode_utf8(
                encode_utf8(source).subrange(range.0 as int, range.1 as int),
            )
        }),
{
    assert(match_of(result, source).bindings.dom() =~= result_vars(result).dom());
}

/// Every match that is found in a text is spelled out, in the order in which they are
/// found, and nothing else is.
pub proof fn all_found_matches_are_spelled_out(
    query: QueryTree,
    source: Seq<char>,
    cpp: bool,
    i: int,
)
    ensures
        matches_in(query, source, cpp).len() == found_matches(
            query,
            parsed(source, cpp),
            source,
        ).len(),
        0 <= i < matches_in(query, source, cpp).len() ==> {
            let found = found_matches(query, parsed(source, cpp), source)[i];
            let m = matches_in(query, source, cpp)[i];
            &&& m == match_of(found, source)
            &&& m.result == found
            &&& m.start_offset == result_start(found)
            &&& m.line == line_at(source, result_start(found) as int)
            &&& m.bindings.dom() =~= result_vars(found).dom()
        },
{
}

/// Where no constraint, no uniqueness and no limit is asked for, as many matches are
/// reported of a query in a file as were found there, each in its place.
pub proof fn unasked_reports_hold_every_match(
    query: QueryTree,
    file: SourceTree,
    report: Seq<MatchView>,
    i: int,
)
    requires
        query_report(query, file, Map::empty(), false, false, report),
    ensures
        report.len() == found_matches(
            query,
            parsed(file.text(), file.is_cpp()),
            file.text(),
        ).len(),
        0 <= i < report.len() ==> report[i].result == found_matches(
            query,
            parsed(file.text(), file.is_cpp()),
            file.text(),
        )[i],
{
    nothing_is_filtered_unasked(matches_in(query, file.text(), file.is_cpp()));
}

/// Values are distinct exactly where the assignment of values to variables is injective.
pub proof fn distinct_values_are_injective(bindings: Map<Seq<char>, Seq<char>>)
    ensures
        distinct_values(bindings) <==> bindings.is_injective(),
{
    if distinct_values(bindings) {
        assert forall|v: Seq<char>, w: Seq<char>|
            v != w && bindings.dom().contains(v) && bindings.dom().contains(
                w,
            ) implies #[trigger] bindings[v] != #[trigger] bindings[w] by {}
    }
    if bindings.is_injective() {
        assert forall|v: Seq<char>, w: Seq<char>|
            #![trigger bindings.dom().contains(v), bindings.dom().contains(w)]
            bindings.dom().contains(v) && bindings.dom().contains(w) && v
                != w implies bindings[v] != bindings[w] by {}
    }
}

/// A match starts at an offset in a list exactly where the offset is among those of the
/// list.
pub proof fn starts_are_the_offsets_of_the_list(matches: Seq<MatchView>, offset: nat)
    ensures
        starts_in(matches, offset) <==> matches.map_values(
            |m: MatchView| m.start_offset,
        ).contains(offset),
{
    let offsets = matches.map_values(|m: MatchView| m.start_offset);
    if starts_in(matches, offset) {
        let i = choose|i: int| 0 <= i < matches.len() && (#[trigger] matches[i]).start_offset
            == offset;
        assert(offsets[i] == offset);
    }
    if offsets.contains(offset) {
        let i = choose|i: int| 0 <= i < offsets.len() && offsets[i] == offset;
        assert(matches[i].start_offset == offset);
    }
}

/// A match passes exactly where the expression of every constrained variable matches its
/// value or not, as the sign asks, and, if distinct values are asked for, no two variables
/// have the same.
pub proof fn passing_needs_constraints_and_uniqueness(
    constraints: Map<Seq<char>, Constraint>,
    unique: bool,
    m: MatchView,
)
    ensures
        passes(constraints, unique, m) <==> (forall|var: Seq<char>| #[trigger]
            constraints.dom().contains(var) ==> regex_matches(
                constraints[var].1,
                m.bindings[var],
            ) != constraints[var].0) && (unique ==> m.bindings.is_injective()),
{
    every_constraint_has_a_say(constraints, m.bindings);
    distinct_values_are_injective(m.bindings);
}

/// Of no matches none is reported. One more match is reported behind those before it
/// exactly where it meets every constraint, has distinct values if those are asked for,
/// and, with a limit, starts where none of the reported ones does; else nothing changes.
pub proof fn matches_are_selected_one_by_one(
    constraints: Map<Seq<char>, Constraint>,
    unique: bool,
    limit: bool,
    matches: Seq<MatchView>,
    m: MatchView,
)
    ensures
        selected(constraints, unique, limit, Seq::empty()) == Seq::<MatchView>::empty(),
        ({
            let before = selected(constraints, unique, limit, matches);
            let wanted = {
                &&& forall|var: Seq<char>| #[trigger]
                    constraints.dom().contains(var) ==> regex_matches(
                        constraints[var].1,
                        m.bindings[var],
                    ) != constraints[var].0
                &&& unique ==> m.bindings.is_injective()
                &&& limit ==> forall|i: int|
                    0 <= i < before.len() ==> (#[trigger] before[i]).start_offset != m.start_offset
            };
            selected(constraints, unique, limit, matches.push(m)) == if wanted {
                before.push(m)
            } else {
                before
            }
        }),
{
    reveal(Seq::filter);
    lemma_selected_push(constraints, unique, limit, matches, m);
    passing_needs_constraints_and_uniqueness(constraints, unique, m);
}

/// A match lacks a variable exactly where that is constrained and has no value.
pub proof fn lacking_is_a_constraint_without_a_value(
    constraints: Map<Seq<char>, Constraint>,
    m: MatchView,
    var: Seq<char>,
)
    ensures
        lacks_variable(constraints, m, var) <==> constraints.dom().difference(
            m.bindings.dom(),
        ).contains(var),
{
}

/// Matches can be checked exactly where none of them lacks a variable.
pub proof fn checkable_matches_lack_nothing(
    constraints: Map<Seq<char>, Constraint>,
    matches: Seq<MatchView>,
)
    ensures
        all_checkable(constraints, matches) <==> forall|i: int, var: Seq<char>|
            0 <= i < matches.len() && #[trigger] constraints.dom().contains(var) ==> (
            #[trigger] matches[i]).bindings.dom().contains(var),
{
    if all_checkable(constraints, matches) {
        assert forall|i: int, var: Seq<char>|
            0 <= i < matches.len() && #[trigger] constraints.dom().contains(var) implies (
        #[trigger] matches[i]).bindings.dom().contains(var) by {
            assert(all_bound(constraints, matches[i].bindings));
        }
    }
}

/// What is reported of a query in a file is what is selected of the matches found in its
/// text, in the language of the file, where all of them can be checked.
pub proof fn reports_are_selected_from_the_file(
    query: QueryTree,
    file: SourceTree,
    constraints: Map<Seq<char>, Constraint>,
    unique: bool,
    limit: bool,
    report: Seq<MatchView>,
)
    ensures
        query_report(query, file, constraints, unique, limit, report) <==> all_checkable(
            constraints,
            matches_in(query, file.text(), file.is_cpp()),
        ) && report == selected(
            constraints,
            unique,
            limit,
            matches_in(query, file.text(), file.is_cpp()),
        ),
{
}

/// A result says what its fields hold.
pub proof fn results_say_what_they_hold(r: ResultsCtx)
    ensures
        r.view().query_index == r.query_index,
        r.view().path == r.path@,
        r.view().source == (*r.source)@,
        r.view().result == r.result.view(),
{
}

/// The results in a list are looked at one by one, in their order.
pub proof fn result_lists_say_what_they_hold(results: Seq<ResultsCtx>, i: int)
    requires
        0 <= i < results.len(),
    ensures
        context_views(results).len() == results.len(),
        context_views(results)[i] == results[i].view(),
{
}

/// Every match of a query in a file becomes one result of that query in that file.
pub proof fn matches_are_placed_one_by_one(
    matches: Seq<MatchView>,
    query_index: nat,
    path: Seq<char>,
    source: Seq<char>,
    i: int,
)
    requires
        0 <= i < matches.len(),
    ensures
        placed(matches, query_index, path, source).len() == matches.len(),
        placed(matches, query_index, path, source)[i].query_index == query_index,
        placed(matches, query_index, path, source)[i].path == path,
        placed(matches, query_index, path, source)[i].source == source,
        placed(matches, query_index, path, source)[i].result == matches[i],
{
}

/// The results of one more query stand behind those of the queries before it, one for
/// each of its matches, in their order, with the number of that query.
pub proof fn queries_are_placed_one_by_one(
    reports: Seq<Vec<Match>>,
    report: Vec<Match>,
    path: Seq<char>,
    source: Seq<char>,
    i: int,
)
    ensures
        all_placed(Seq::empty(), path, source) == Seq::<ContextView>::empty(),
        ({
            let before = all_placed(reports, path, source);
            let after = all_placed(reports.push(report), path, source);
            &&& after.len() == before.len() + report@.len()
            &&& 0 <= i < before.len() ==> after[i] == before[i]
            &&& before.len() <= i < after.len() ==> {
                &&& after[i].query_index == reports.len()
                &&& after[i].path == path
                &&& after[i].source == source
                &&& after[i].result == report@[i - before.len()].view()
            }
        }),
{
    assert(reports.push(report).drop_last() =~= reports);
}

/// Two assignments agree exactly where no variable that both have has two values.
pub proof fn agreement_is_on_common_variables(
    a: Map<Seq<char>, Seq<char>>,
    b: Map<Seq<char>, Seq<char>>,
)
    ensures
        agree(a, b) <==> forall|var: Seq<char>| #[trigger]
            a.dom().intersect(b.dom()).contains(var) ==> a[var] == b[var],
{
    if agree(a, b) {
        assert forall|var: Seq<char>| #[trigger] a.dom().intersect(b.dom()).contains(
            var,
        ) implies a[var] == b[var] by {
            assert(a.dom().contains(var));
        }
    }
    if forall|var: Seq<char>| #[trigger]
        a.dom().intersect(b.dom()).contains(var) ==> a[var] == b[var] {
        assert forall|var: Seq<char>|
            #![trigger a.dom().contains(var)]
            #![trigger b.dom().contains(var)]
            a.dom().contains(var) && b.dom().contains(var) implies a[var] == b[var] by {
            assert(a.dom().intersect(b.dom()).contains(var));
        }
    }
}

/// Two results go together exactly where every variable that both bind has the same text
/// in both, whatever the files in which they were found and the queries that found them.
pub proof fn results_go_together_by_their_variables(a: ResultsCtx, b: ResultsCtx)
    ensures
        chain(a, b) <==> forall|var: Seq<char>|
            #![trigger a.result.bindings.view().dom().contains(var)]
            #![trigger b.result.bindings.view().dom().contains(var)]
            a.result.bindings.view().dom().contains(var) && b.result.bindings.view().dom().contains(
                var,
            ) ==> a.result.bindings.view()[var]@ == b.result.bindings.view()[var]@,
{
    let x = values(a.result.bindings);
    let y = values(b.result.bindings);
    if chain(a, b) {
        assert forall|var: Seq<char>|
            #![trigger a.result.bindings.view().dom().contains(var)]
            #![trigger b.result.bindings.view().dom().contains(var)]
            a.result.bindings.view().dom().contains(var) && b.result.bindings.view().dom().contains(
                var,
            ) implies a.result.bindings.view()[var]@ == b.result.bindings.view()[var]@ by {
            assert(x.dom().contains(var) && y.dom().contains(var));
        }
    } else {
        let var = choose|var: Seq<char>|
            x.dom().contains(var) && y.dom().contains(var) && x[var] != y[var];
        assert(a.result.bindings.view().dom().contains(var));
        assert(b.result.bindings.view().dom().contains(var));
    }
}

/// The two assignments of texts give every variable that both have the same text.
pub open spec fn same_on_common_variables(
    a: Map<Seq<char>, String>,
    b: Map<Seq<char>, String>,
) -> bool {
    forall|var: Seq<char>|
        a.dom().contains(var) && b.dom().contains(var) ==> (#[trigger] a[var])@ == (
        #[trigger] b[var])@
}

/// A result has a partner exactly where one of the others gives every variable that both
/// bind the same text.
pub proof fn partners_share_their_variables(r: ResultsCtx, others: Seq<ResultsCtx>)
    ensures
        has_partner(r, others) <==> exists|j: int|
            0 <= j < others.len() && same_on_common_variables(
                r.result.bindings.view(),
                (#[trigger] others[j]).result.bindings.view(),
            ),
{
    assert forall|j: int| 0 <= j < others.len() implies chain(r, #[trigger] others[j])
        == same_on_common_variables(
        r.result.bindings.view(),
        others[j].result.bindings.view(),
    ) by {
        results_go_together_by_their_variables(r, others[j]);
    }
}

/// Whether a result has a partner does not change with the query, the file, the place or
/// the rest of the matches: results with the same values for their variables have partners
/// in lists of results with the same values for theirs.
pub proof fn partners_depend_on_values_alone(
    r: ResultsCtx,
    others: Seq<ResultsCtx>,
    s: ResultsCtx,
    more: Seq<ResultsCtx>,
)
    requires
        r.result.bindings.view() == s.result.bindings.view(),
        others.len() == more.len(),
        forall|j: int|
            0 <= j < others.len() ==> (#[trigger] others[j]).result.bindings.view()
                == more[j].result.bindings.view(),
    ensures
        has_partner(r, others) == has_partner(s, more),
{
    assert forall|j: int| 0 <= j < others.len() implies chain(r, #[trigger] others[j]) == chain(
        s,
        more[j],
    ) by {
        assert(others[j].result.bindings.view() == more[j].result.bindings.view());
    }
    if has_partner(r, others) {
        let j = choose|j: int| 0 <= j < others.len() && chain(r, #[trigger] others[j]);
        assert(chain(s, more[j]));
    }
    if has_partner(s, more) {
        let j = choose|j: int| 0 <= j < more.len() && chain(s, #[trigger] more[j]);
        assert(chain(r, others[j]));
    }
}

/// Of no results none has a partner, and one more result is kept behind those before it
/// exactly where it has one.
pub proof fn partners_are_kept_one_by_one(
    results: Seq<ResultsCtx>,
    r: ResultsCtx,
    others: Seq<ResultsCtx>,
)
    ensures
        with_partner(Seq::empty(), others) == Seq::<ResultsCtx>::empty(),
        with_partner(results.push(r), others) == (if exists|j: int|
            0 <= j < others.len() && chain(r, #[trigger] others[j]) {
            with_partner(results, others).push(r)
        } else {
            with_partner(results, others)
        }),
{
    reveal(Seq::filter);
    assert(results.push(r).drop_last() =~= results);
}

/// The lists of the queries are the results that were collected for each.
pub proof fn lists_are_those_of_the_groups(groups: Seq<Vec<ResultsCtx>>, q: int)
    requires
        0 <= q < groups.len(),
    ensures
        lists(groups).len() == groups.len(),
        lists(groups)[q] == groups[q]@,
{
}

/// Those of `results` that have a partner in each of the groups from 1 up to, but not
/// including, `j`.
pub open spec fn with_partners_up_to(
    results: Seq<ResultsCtx>,
    groups: Seq<Seq<ResultsCtx>>,
    j: int,
) -> Seq<ResultsCtx> {
    results.filter(
        |r: ResultsCtx|
            forall|k: int| 1 <= k < j ==> has_partner(r, #[trigger] groups[k]),
    )
}

/// Two choices, one after the other.
proof fn lemma_filter_twice<T>(
    s: Seq<T>,
    p: spec_fn(T) -> bool,
    q: spec_fn(T) -> bool,
    both: spec_fn(T) -> bool,
)
    requires
        forall|x: T| #[trigger] both(x) == (p(x) && q(x)),
    ensures
        s.filter(p).filter(q) == s.filter(both),
    decreases s.len(),
{
    reveal(Seq::filter);
    if s.len() > 0 {
        lemma_filter_twice(s.drop_last(), p, q, both);
        assert(both(s.last()) == (p(s.last()) && q(s.last())));
        let kept = s.drop_last().filter(p);
        assert(kept.push(s.last()).drop_last() =~= kept);
    }
}

/// Choices that agree on the elements of a sequence.
proof fn lemma_same_filter<T>(s: Seq<T>, p: spec_fn(T) -> bool, q: spec_fn(T) -> bool)
    requires
        forall|i: int| 0 <= i < s.len() ==> p(#[trigger] s[i]) == q(s[i]),
    ensures
        s.filter(p) == s.filter(q),
    decreases s.len(),
{
    reveal(Seq::filter);
    if s.len() > 0 {
        let before = s.drop_last();
        assert forall|i: int| 0 <= i < before.len() implies p(#[trigger] before[i]) == q(
            before[i],
        ) by {
            assert(before[i] == s[i]);
        }
        lemma_same_filter(before, p, q);
        assert(p(s[s.len() - 1]) == q(s[s.len() - 1]));
    }
}

/// A choice that leaves nothing out.
proof fn lemma_filter_all<T>(s: Seq<T>, p: spec_fn(T) -> bool)
    requires
        forall|x: T| #[trigger] p(x),
    ensures
        s.filter(p) == s,
    decreases s.len(),
{
    reveal(Seq::filter);
    if s.len() > 0 {
        lemma_filter_all(s.drop_last(), p);
        assert(p(s.last()));
        assert(s.drop_last().push(s.last()) =~= s);
    }
}

/// What is left when the results of the first query have been held against those of the
/// queries before `j`.
proof fn lemma_first_row(groups: Seq<Seq<ResultsCtx>>, j: int)
    requires
        1 <= j <= groups.len(),
    ensures
        ({
            let row = match_row(groups, 0, j);
            &&& row.len() == groups.len()
            &&& row[0] == with_partners_up_to(groups[0], groups, j)
            &&& forall|k: int|
                1 <= k < j ==> #[trigger] row[k] == with_partner(
                    groups[k],
                    with_partners_up_to(groups[0], groups, k + 1),
                )
            &&& forall|k: int| j <= k < groups.len() ==> #[trigger] row[k] == groups[k]
        }),
    decreases j,
{
    if j == 1 {
        let p = |r: ResultsCtx|
            forall|k: int| 1 <= k < 1 ==> has_partner(r, #[trigger] groups[k]);
        lemma_filter_all(groups[0], p);
        assert(groups[0].filter(p) == with_partners_up_to(groups[0], groups, 1));
    } else {
        lemma_first_row(groups, j - 1);
        let row = match_row(groups, 0, j - 1);
        let p = |r: ResultsCtx|
            forall|k: int| 1 <= k < j - 1 ==> has_partner(r, #[trigger] groups[k]);
        let q = |r: ResultsCtx| has_partner(r, row[j - 1]);
        let both = |r: ResultsCtx|
            forall|k: int| 1 <= k < j ==> has_partner(r, #[trigger] groups[k]);
        assert(row[j - 1] == groups[j - 1]);
        assert forall|r: ResultsCtx| #[trigger] both(r) == (p(r) && q(r)) by {
            if both(r) {
                assert(has_partner(r, groups[j - 1]));
            }
        }
        lemma_filter_twice(groups[0], p, q, both);
        assert(with_partner(row[0], row[j - 1]) == with_partners_up_to(groups[0], groups, j));
    }
}

/// Holding two later queries against each other leaves the first one out of it.
proof fn lemma_pair_behind_first(groups: Seq<Seq<ResultsCtx>>, i: int, j: int)
    requires
        1 <= i < j < groups.len(),
    ensures
        match_pair(groups, i, j) == seq![groups[0]] + match_pair(groups.skip(1), i - 1, j - 1),
        match_pair(groups, i, j).skip(1) == match_pair(groups.skip(1), i - 1, j - 1),
        match_pair(groups, i, j).len() == groups.len(),
        match_pair(groups, i, j)[0] == groups[0],
{
    let rest = groups.skip(1);
    assert(rest[i - 1] == groups[i] && rest[j - 1] == groups[j]);
    let after = match_pair(groups, i, j);
    assert(after =~= seq![groups[0]] + match_pair(rest, i - 1, j - 1));
    assert(after.skip(1) =~= match_pair(rest, i - 1, j - 1));
}

proof fn lemma_row_behind_first(groups: Seq<Seq<ResultsCtx>>, i: int, j: int)
    requires
        1 <= i < j <= groups.len(),
    ensures
        match_row(groups, i, j).skip(1) == match_row(groups.skip(1), i - 1, j - 1),
        match_row(groups, i, j).len() == groups.len(),
        match_row(groups, i, j)[0] == groups[0],
    decreases j,
{
    if j > i + 1 {
        lemma_row_behind_first(groups, i, j - 1);
        lemma_pair_behind_first(match_row(groups, i, j - 1), i, j - 1);
    }
}

proof fn lemma_rows_behind_first(groups: Seq<Seq<ResultsCtx>>, i: int)
    requires
        1 <= i <= groups.len(),
    ensures
        ({
            let row = match_row(groups, 0, groups.len() as int);
            &&& match_rows(groups, i).len() == groups.len()
            &&& match_rows(groups, i)[0] == row[0]
            &&& match_rows(groups, i).skip(1) == match_rows(row.skip(1), i - 1)
        }),
    decreases i,
{
    let n = groups.len() as int;
    let row = match_row(groups, 0, n);
    lemma_first_row(groups, n);
    if i == 1 {
        reveal_with_fuel(match_rows, 2);
        assert(match_rows(groups, 0) == groups);
        assert(match_rows(groups, 1) == row);
        assert(match_rows(row.skip(1), 0) == row.skip(1));
    } else {
        lemma_rows_behind_first(groups, i - 1);
        lemma_row_behind_first(match_rows(groups, i - 1), i - 1, n);
    }
}

/// How the results of several queries are combined, from the first query on. Shown of the
/// first query are the results that have a partner in the list of every other query. Shown
/// of the others is what combining them gives, once each of their lists has been cut down
/// to the results with a partner among those of the first query that have one in this list
/// and in every list before it.
pub proof fn queries_are_combined_from_the_first_on(groups: Seq<Seq<ResultsCtx>>)
    requires
        groups.len() > 0,
    ensures
        combined(groups).len() == groups.len(),
        combined(groups)[0] == with_partners_up_to(groups[0], groups, groups.len() as int),
        combined(groups).skip(1) == combined(
            Seq::new(
                (groups.len() - 1) as nat,
                |k: int|
                    with_partner(
                        groups[k + 1],
                        with_partners_up_to(groups[0], groups, k + 2),
                    ),
            ),
        ),
{
    let n = groups.len() as int;
    let row = match_row(groups, 0, n);
    let rest = Seq::new(
        (groups.len() - 1) as nat,
        |k: int| with_partner(groups[k + 1], with_partners_up_to(groups[0], groups, k + 2)),
    );
    lemma_first_row(groups, n);
    lemma_rows_behind_first(groups, n);
    assert(row.skip(1) =~= rest) by {
        assert forall|k: int| 0 <= k < rest.len() implies row.skip(1)[k] == #[trigger] rest[k] by {
            assert(row[k + 1] == with_partner(
                groups[k + 1],
                with_partners_up_to(groups[0], groups, k + 2),
            ));
        }
    }
}

/// Of two queries, exactly the results are shown that go together with a result of the
/// other, in the order in which they were collected.
pub proof fn two_queries_show_what_goes_together(a: Seq<ResultsCtx>, b: Seq<ResultsCtx>)
    ensures
        combined(seq![a, b]).len() == 2,
        combined(seq![a, b])[0] == a.filter(
            |r: ResultsCtx| exists|l: int| 0 <= l < b.len() && chain(r, #[trigger] b[l]),
        ),
        combined(seq![a, b])[1] == b.filter(
            |f: ResultsCtx| exists|l: int| 0 <= l < a.len() && chain(#[trigger] a[l], f),
        ),
{
    let groups = seq![a, b];
    queries_are_combined_from_the_first_on(groups);
    let p = |r: ResultsCtx| exists|l: int| 0 <= l < b.len() && chain(r, #[trigger] b[l]);
    let p2 = |r: ResultsCtx|
        forall|k: int| 1 <= k < 2 ==> has_partner(r, #[trigger] groups[k]);
    assert forall|i: int| 0 <= i < a.len() implies p(#[trigger] a[i]) == p2(a[i]) by {
        assert(groups[1] == b);
        if p2(a[i]) {
            assert(has_partner(a[i], groups[1]));
        }
    }
    lemma_same_filter(a, p, p2);
    let left = with_partners_up_to(a, groups, 2);
    assert(left == a.filter(p2));
    let rest = combined(groups).skip(1);
    let lone = seq![with_partner(b, left)];
    let cut_down = Seq::new(
        (groups.len() - 1) as nat,
        |k: int| with_partner(groups[k + 1], with_partners_up_to(groups[0], groups, k + 2)),
    );
    assert(cut_down =~= lone);
    queries_are_combined_from_the_first_on(lone);
    let all = |r: ResultsCtx|
        forall|k: int| 1 <= k < 1 ==> has_partner(r, #[trigger] lone[k]);
    lemma_filter_all(lone[0], all);
    assert(lone[0].filter(all) == with_partners_up_to(lone[0], lone, 1));
    assert(combined(groups)[1] == rest[0]);
    let q = |f: ResultsCtx| exists|l: int| 0 <= l < a.len() && chain(#[trigger] a[l], f);
    let q2 = |f: ResultsCtx| has_partner(f, left);
    assert forall|i: int| 0 <= i < b.len() implies q(#[trigger] b[i]) == q2(b[i]) by {
        if q(b[i]) {
            let l = choose|l: int| 0 <= l < a.len() && chain(#[trigger] a[l], b[i]);
            assert(p(a[l]));
            assert(p2(a[l]));
            a.lemma_filter_contains(p2, l);
            let m = choose|m: int| 0 <= m < left.len() && left[m] == a[l];
            chain_is_symmetric(a[l], b[i]);
            assert(chain(b[i], left[m]));
        }
        if q2(b[i]) {
            let m = choose|m: int| 0 <= m < left.len() && chain(b[i], #[trigger] left[m]);
            a.lemma_filter_contains_rev(p2, left[m]);
            let l = choose|l: int| 0 <= l < a.len() && a[l] == left[m];
            chain_is_symmetric(b[i], a[l]);
            assert(chain(a[l], b[i]));
        }
    }
    lemma_same_filter(b, q, q2);
}

} // verus!
