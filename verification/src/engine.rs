//! The outside crates that the search rests on, and what is taken on trust of
//! each function that the library calls: parsing and matching (`weggli`), the
//! syntax trees (`tree_sitter`), and regular expressions (`regex`).

use regex::Regex;
use tree_sitter::{Node, Tree};
use vstd::prelude::*;
use vstd::string::*;
use vstd::utf8::*;
use weggli::query::QueryTree;
use weggli::result::QueryResult;

use crate::syntax::SyntaxView;
use crate::text::{is_span, span_text, texts};

verus! {

/// The syntax tree of a parsed text.
#[verifier::external_type_specification]
#[verifier::external_body]
pub struct ExTree(Tree);

/// One node of a syntax tree.
#[verifier::external_type_specification]
#[verifier::external_body]
pub struct ExNode<'tree>(Node<'tree>);

/// The syntax tree that `weggli::parse` builds for a text, in C++ mode or in C mode.
pub uninterp spec fn parsed(source: Seq<char>, cpp: bool) -> Tree;

/// What the nodes of a syntax tree hold, from its root down.
pub uninterp spec fn tree_syntax(tree: Tree) -> SyntaxView;

/// What a node and the nodes below it hold.
pub uninterp spec fn node_syntax(node: Node<'_>) -> SyntaxView;

/// `weggli::parse` builds a tree for every text, with or without errors in it,
/// and always the same one for the same text and mode. The parser counts bytes
/// in 32 bits, hence the bound.
pub assume_specification[ weggli::parse ](source: &str, cpp: bool) -> (tree: Tree)
    requires
        encode_utf8(source@).len() < u32::MAX,
    ensures
        tree == parsed(source@, cpp),
;

/// `Tree::root_node`: the root holds what the tree holds.
pub assume_specification[ Tree::root_node ](tree: &Tree) -> (node: Node<'_>)
    ensures
        node_syntax(node) == tree_syntax(*tree),
;

/// `Node::kind`: the node's type, as a string.
pub assume_specification<'tree>[ Node::<'tree>::kind ](node: &Node<'tree>) -> (kind: &'static str)
    ensures
        kind@ == node_syntax(*node).kind,
;

/// `Node::has_error`: whether the node is a syntax error or has one below it.
pub assume_specification<'tree>[ Node::<'tree>::has_error ](node: &Node<'tree>) -> (b: bool)
    ensures
        b == node_syntax(*node).has_error,
;

/// `Node::is_error`: whether the node itself is a syntax error.
pub assume_specification<'tree>[ Node::<'tree>::is_error ](node: &Node<'tree>) -> (b: bool)
    ensures
        b == node_syntax(*node).is_error,
;

/// `Node::is_missing`: whether the parser inserted the node to recover from an error.
pub assume_specification<'tree>[ Node::<'tree>::is_missing ](node: &Node<'tree>) -> (b: bool)
    ensures
        b == node_syntax(*node).is_missing,
;

/// `Node::named_child_count`: the number of the node's named children.
pub assume_specification<'tree>[ Node::<'tree>::named_child_count ](
    node: &Node<'tree>,
) -> (n: usize)
    ensures
        n == node_syntax(*node).named_child_count,
;

/// `Node::start_byte`: the byte offset at which the node starts.
pub assume_specification<'tree>[ Node::<'tree>::start_byte ](node: &Node<'tree>) -> (n: usize)
    ensures
        n == node_syntax(*node).start_byte,
;

/// `Node::end_byte`: the byte offset at which the node ends.
pub assume_specification<'tree>[ Node::<'tree>::end_byte ](node: &Node<'tree>) -> (n: usize)
    ensures
        n == node_syntax(*node).end_byte,
;

/// `Node::child_count`: the number of the node's children, which fits in 32 bits.
pub assume_specification<'tree>[ Node::<'tree>::child_count ](node: &Node<'tree>) -> (n: usize)
    ensures
        n == node_syntax(*node).children.len(),
        n <= u32::MAX,
;

/// `Node::child`: the child at index `i`, or `None` past the last one. The
/// index is taken modulo 2^32, so it has to fit in 32 bits.
pub assume_specification<'tree>[ Node::<'tree>::child ](node: &Node<'tree>, i: usize) -> (child:
    Option<Node<'tree>>)
    requires
        i <= u32::MAX,
    ensures
        match child {
            Some(c) => i < node_syntax(*node).children.len() && node_syntax(c) == node_syntax(
                *node,
            ).children[i as int],
            None => i >= node_syntax(*node).children.len(),
        },
;

/// A compiled regular expression.
#[verifier::external_type_specification]
#[verifier::external_body]
pub struct ExRegex(Regex);

/// Why a regular expression does not compile.
#[verifier::external_type_specification]
#[verifier::external_body]
pub struct ExRegexError(regex::Error);

/// What compiling a regular expression gives.
pub uninterp spec fn compiled(pattern: Seq<char>) -> Result<Regex, regex::Error>;

/// A regular expression matches somewhere in a text.
pub uninterp spec fn regex_matches(regex: Regex, text: Seq<char>) -> bool;

/// `Regex::new` compiles a pattern with the default settings, or gives the error
/// for it: the same for the same pattern.
pub assume_specification[ Regex::new ](re: &str) -> (regex: Result<Regex, regex::Error>)
    ensures
        regex == compiled(re@),
;

/// `Regex::is_match`: whether the expression matches anywhere in the text, which
/// depends on the two alone.
pub assume_specification[ Regex::is_match ](regex: &Regex, haystack: &str) -> (found: bool)
    ensures
        found == regex_matches(*regex, haystack@),
;

/// A query that is ready to be searched for.
#[verifier::external_type_specification]
#[verifier::external_body]
pub struct ExQueryTree(QueryTree);

/// One match of a query: byte ranges of the source, some of them named by variables.
#[verifier::external_type_specification]
#[verifier::external_body]
pub struct ExQueryResult(QueryResult);

/// The identifiers that a query mentions, in the order of the query.
pub uninterp spec fn query_identifiers(query: QueryTree) -> Seq<Seq<char>>;

/// The variables that a query mentions.
pub uninterp spec fn query_variables(query: QueryTree) -> Set<Seq<char>>;

/// The matches of a query in a source with this syntax tree.
pub uninterp spec fn found_matches(query: QueryTree, tree: Tree, source: Seq<char>) -> Seq<QueryResult>;

/// The variables of a match, each with the index of what it captured.
pub uninterp spec fn result_vars(result: QueryResult) -> Map<Seq<char>, nat>;

/// The byte ranges that a match captured: where each starts and where it ends.
pub uninterp spec fn result_captures(result: QueryResult) -> Seq<(nat, nat)>;

/// The byte offset at which a match starts.
pub uninterp spec fn result_start(result: QueryResult) -> nat;

/// A match belongs to `source`: each variable captured something, and all offsets
/// are character boundaries of the source.
pub open spec fn belongs_to(result: QueryResult, source: Seq<char>) -> bool {
    &&& forall|var: Seq<char>| #[trigger]
        result_vars(result).dom().contains(var) ==> result_vars(result)[var] < result_captures(
            result,
        ).len()
    &&& forall|i: int|
        0 <= i < result_captures(result).len() ==> is_span(
            source,
            (#[trigger] result_captures(result)[i]).0 as int,
            result_captures(result)[i].1 as int,
        )
    &&& is_span(source, 0, result_start(result) as int)
}

/// The text that a variable of a match captured in `source`.
pub open spec fn captured_text(result: QueryResult, source: Seq<char>, var: Seq<char>) -> Seq<
    char,
> {
    let range = result_captures(result)[result_vars(result)[var] as int];
    span_text(source, range.0 as int, range.1 as int)
}

/// `QueryTree::identifiers`: the identifiers of the query and of its subqueries.
#[verifier::external_body]
pub(crate) fn identifiers(query: &QueryTree) -> (names: Vec<String>)
    ensures
        texts(names@) == query_identifiers(*query),
{
    query.identifiers()
}

/// `QueryTree::variables`: the set of the variables of the query and of its
/// subqueries, here in no particular order.
#[verifier::external_body]
pub(crate) fn variables(query: &QueryTree) -> (names: Vec<String>)
    ensures
        texts(names@).no_duplicates(),
        texts(names@).to_set() == query_variables(*query),
{
    query.variables().into_iter().collect()
}

/// `QueryTree::matches` on the root of a tree: the matches depend on the query, the
/// tree and the source alone. Each capture is the byte range of a node of the tree,
/// each variable is given the index of a capture, and the match starts where its
/// first capture does, or at 0 without one; the nodes of a tree that was parsed from
/// the source start and end between its characters.
#[verifier::external_body]
pub(crate) fn query_matches(query: &QueryTree, tree: &Tree, source: &str) -> (results: Vec<QueryResult>)
    requires
        encode_utf8(source@).len() < u32::MAX,
        exists|cpp: bool| *tree == #[trigger] parsed(source@, cpp),
    ensures
        results@ == found_matches(*query, *tree, source@),
        forall|i: int|
            0 <= i < results@.len() ==> belongs_to(#[trigger] results@[i], source@),
{
    query.matches(tree.root_node(), source)
}

/// The keys of `QueryResult::vars`, in no particular order.
#[verifier::external_body]
pub(crate) fn captured_variables(result: &QueryResult) -> (names: Vec<String>)
    ensures
        texts(names@).no_duplicates(),
        texts(names@).to_set() == result_vars(*result).dom(),
{
    result.vars.keys().cloned().collect()
}

/// `QueryResult::value`: the text that a variable captured, or `None` for a variable
/// that the match does not have.
#[verifier::external_body]
pub(crate) fn captured_value<'a>(result: &QueryResult, var: &str, source: &'a str) -> (value:
    Option<&'a str>)
    requires
        belongs_to(*result, source@),
    ensures
        match value {
            Some(text) => result_vars(*result).dom().contains(var@) && text@ == span_text(
                source@,
                result_captures(*result)[result_vars(*result)[var@] as int].0 as int,
                result_captures(*result)[result_vars(*result)[var@] as int].1 as int,
            ),
            None => !result_vars(*result).dom().contains(var@),
        },
{
    result.value(var, source)
}

/// `QueryResult::start_offset`: the byte offset at which the match starts.
#[verifier::external_body]
pub(crate) fn start_offset(result: &QueryResult) -> (offset: usize)
    ensures
        offset == result_start(*result),
{
    result.start_offset()
}

} // verus!
