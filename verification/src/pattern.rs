//! Search patterns: how a query is parsed, completed and checked.

use tree_sitter::Tree;
use vstd::prelude::*;
use vstd::string::*;
use vstd::utf8::*;

use crate::engine::{parsed, tree_syntax};
use crate::syntax::{
    braces_wanted, read_node, validate_query, validation, wants_braces, QueryFault, SyntaxNode,
    SyntaxView,
};
use crate::text::lemma_encode_concat;

verus! {

/// A text together with its syntax tree.
pub struct SourceTree {
    source: String,
    tree: Tree,
    cpp: bool,
}

/// The parser counts the bytes of a text in 32 bits.
pub open spec fn fits_parser(source: Seq<char>) -> bool {
    encode_utf8(source).len() < u32::MAX
}

impl SourceTree {
    #[verifier::type_invariant]
    spec fn inv(self) -> bool {
        self.tree == parsed(self.source@, self.cpp) && fits_parser(self.source@)
    }

    /// The text.
    pub closed spec fn text(self) -> Seq<char> {
        self.source@
    }

    /// The text was read as C++.
    pub closed spec fn is_cpp(self) -> bool {
        self.cpp
    }

    /// Parses `source`, as C++ or as C.
    pub fn parse(source: String, cpp: bool) -> (parsed_source: SourceTree)
        requires
            fits_parser(source@),
        ensures
            parsed_source.text() == source@,
            parsed_source.is_cpp() == cpp,
    {
        let tree = weggli::parse(source.as_str(), cpp);
        SourceTree { source, tree, cpp }
    }

    /// The text.
    pub fn source(&self) -> (source: &str)
        ensures
            source@ == self.text(),
            fits_parser(source@),
    {
        proof {
            use_type_invariant(self);
        }
        self.source.as_str()
    }

    /// The syntax tree of the text.
    pub fn tree(&self) -> (tree: &Tree)
        ensures
            *tree == parsed(self.text(), self.is_cpp()),
    {
        proof {
            use_type_invariant(self);
        }
        &self.tree
    }

    /// Gives up the tree for the text.
    pub fn into_source(self) -> (source: String)
        ensures
            source@ == self.text(),
    {
        self.source
    }

    /// Reads the syntax tree of the text.
    pub fn syntax(&self) -> (root: SyntaxNode)
        ensures
            root.view() == syntax_of(self.text(), self.is_cpp()),
    {
        read_node(&self.tree().root_node())
    }
}

/// The syntax tree of a text, from its root down.
pub open spec fn syntax_of(source: Seq<char>, cpp: bool) -> SyntaxView {
    tree_syntax(parsed(source, cpp))
}

/// `pattern` inside braces.
pub open spec fn in_braces(pattern: Seq<char>) -> Seq<char> {
    seq!['{'] + pattern + seq!['}']
}

/// The form in which a pattern is searched for: inside braces where it is not
/// rooted in a supported node and parses there without errors, else as it is.
pub open spec fn normalized(pattern: Seq<char>, cpp: bool) -> Seq<char> {
    if braces_wanted(syntax_of(pattern, cpp)) && !syntax_of(in_braces(pattern), cpp).has_error {
        in_braces(pattern)
    } else {
        pattern
    }
}

/// Why a pattern is refused, and the form in which it was checked.
#[derive(Debug)]
pub struct QueryError {
    pub query: String,
    pub fault: QueryFault,
}

/// Writes `pattern` inside braces.
fn add_braces(pattern: &str) -> (braced: String)
    ensures
        braced@ == in_braces(pattern@),
{
    proof {
        reveal_strlit("{");
        reveal_strlit("}");
    }
    let braced = "{".to_owned().concat(pattern).concat("}");
    assert(braced@ =~= in_braces(pattern@));
    braced
}

/// Braces add two bytes to a pattern.
proof fn lemma_braces_len(pattern: Seq<char>)
    ensures
        encode_utf8(in_braces(pattern)).len() == encode_utf8(pattern).len() + 2,
{
    lemma_encode_concat(seq!['{'] + pattern, seq!['}']);
    lemma_encode_concat(seq!['{'], pattern);
    is_ascii_chars_encode_utf8(seq!['{']);
    is_ascii_chars_encode_utf8(seq!['}']);
}

/// The root of the tree that is searched for: the one of the pattern inside braces
/// where those are wanted and it has no errors there, else the one of the pattern.
pub open spec fn chosen_root(root: SyntaxView, braced: SyntaxView) -> SyntaxView {
    if braces_wanted(root) && !braced.has_error {
        braced
    } else {
        root
    }
}

/// Decides on a pattern by its syntax tree and, where braces are wanted, by its
/// syntax tree inside braces: whether the braces stay, and whether the query is accepted.
pub fn check_pattern(root: &SyntaxNode, braced: &Option<SyntaxNode>, force: bool) -> (decision: (
    bool,
    Result<(), QueryFault>,
))
    requires
        braced is Some <==> braces_wanted(root.view()),
    ensures
        decision.0 == (braced matches Some(b) && !b.has_error),
        validation(
            match *braced {
                Some(b) => chosen_root(root.view(), b.view()),
                None => root.view(),
            },
            force,
            match decision.1 {
                Ok(()) => None,
                Err(fault) => Some(fault),
            },
        ),
{
    match braced {
        Some(b) => if b.has_error {
            (false, validate_query(root, force))
        } else {
            (true, validate_query(b, force))
        },
        None => (false, validate_query(root, force)),
    }
}

/// Parses a search pattern. Missing braces around it are added, and the result is
/// checked: `force` lets syntax errors pass.
pub fn parse_search_pattern(pattern: &str, cpp: bool, force: bool) -> (query: Result<
    SourceTree,
    QueryError,
>)
    requires
        encode_utf8(pattern@).len() + 2 < u32::MAX,
    ensures
        match query {
            Ok(q) => {
                &&& q.text() == normalized(pattern@, cpp)
                &&& q.is_cpp() == cpp
                &&& validation(syntax_of(q.text(), cpp), force, None)
            },
            Err(e) => {
                &&& e.query@ == normalized(pattern@, cpp)
                &&& validation(syntax_of(e.query@, cpp), force, Some(e.fault))
            },
        },
{
    let plain = SourceTree::parse(pattern.to_owned(), cpp);
    let root = plain.syntax();
    let mut braced: Option<SourceTree> = None;
    let mut braced_root: Option<SyntaxNode> = None;
    if wants_braces(&root) {
        proof {
            lemma_braces_len(pattern@);
        }
        let tree = SourceTree::parse(add_braces(pattern), cpp);
        braced_root = Some(tree.syntax());
        braced = Some(tree);
    }
    let (keep_braces, answer) = check_pattern(&root, &braced_root, force);
    let query = match braced {
        Some(tree) => if keep_braces {
            tree
        } else {
            plain
        },
        None => plain,
    };
    match answer {
        Ok(()) => Ok(query),
        Err(fault) => Err(QueryError { query: query.into_source(), fault }),
    }
}

/// A pattern is searched for as it is or inside braces.
pub proof fn only_braces_are_added(pattern: Seq<char>, cpp: bool)
    ensures
        normalized(pattern, cpp) == pattern || normalized(pattern, cpp) == in_braces(pattern),
{
}

/// A pattern that is accepted as it is is searched for as it is.
pub proof fn accepted_patterns_stay_as_they_are(pattern: Seq<char>, cpp: bool, force: bool)
    requires
        validation(syntax_of(pattern, cpp), force, None),
    ensures
        normalized(pattern, cpp) == pattern,
{
}

/// A pattern with syntax errors is searched for as it is, if at all.
pub proof fn faulty_patterns_stay_as_they_are(pattern: Seq<char>, cpp: bool)
    requires
        syntax_of(pattern, cpp).has_error,
    ensures
        normalized(pattern, cpp) == pattern,
{
}

/// Adding braces never turns a pattern without syntax errors into one with them.
pub proof fn braces_add_no_errors(pattern: Seq<char>, cpp: bool)
    requires
        !syntax_of(pattern, cpp).has_error,
    ensures
        !syntax_of(normalized(pattern, cpp), cpp).has_error,
{
}

} // verus!
