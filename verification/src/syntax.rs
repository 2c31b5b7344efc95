//! The part of a syntax tree that decides whether a search query is accepted.

use tree_sitter::Node;
use vstd::prelude::*;

use crate::engine::node_syntax;

verus! {

/// A node of a syntax tree with the nodes below it.
#[derive(Debug)]
pub struct SyntaxNode {
    /// The type of the node.
    pub kind: String,
    /// The node is a syntax error or has one below it.
    pub has_error: bool,
    /// The node itself is a syntax error.
    pub is_error: bool,
    /// The node stands for something that the text lacks.
    pub is_missing: bool,
    /// How many of the children are named.
    pub named_child_count: usize,
    /// The byte offset at which the node starts.
    pub start_byte: usize,
    /// The byte offset at which the node ends.
    pub end_byte: usize,
    /// All children, in the order of the text.
    pub children: Vec<SyntaxNode>,
}

/// What a [`SyntaxNode`] says, with the texts as character sequences.
pub struct SyntaxView {
    pub kind: Seq<char>,
    pub has_error: bool,
    pub is_error: bool,
    pub is_missing: bool,
    pub named_child_count: nat,
    pub start_byte: nat,
    pub end_byte: nat,
    pub children: Seq<SyntaxView>,
}

impl SyntaxNode {
    pub open spec fn view(&self) -> SyntaxView
        decreases self,
    {
        SyntaxView {
            kind: self.kind@,
            has_error: self.has_error,
            is_error: self.is_error,
            is_missing: self.is_missing,
            named_child_count: self.named_child_count as nat,
            start_byte: self.start_byte as nat,
            end_byte: self.end_byte as nat,
            children: Seq::new(
                self.children@.len(),
                |i: int|
                    if 0 <= i < self.children@.len() {
                        self.children@[i].view()
                    } else {
                        arbitrary()
                    },
            ),
        }
    }
}

/// The view of a child, spelled out.
proof fn lemma_child_view(node: &SyntaxNode, i: int)
    requires
        0 <= i < node.children@.len(),
    ensures
        node.view().children[i] == node.children@[i].view(),
        node.view().children[i].has_error == node.children@[i].has_error,
        node.view().children[i].kind == node.children@[i].kind@,
{
    reveal_with_fuel(SyntaxNode::view, 2);
}

/// Copies a node of a parsed tree, with all that is below it.
pub fn read_node(node: &Node) -> (copy: SyntaxNode)
    ensures
        copy.view() == node_syntax(*node),
    decreases node_syntax(*node),
{
    let count: usize = node.child_count();
    let mut children: Vec<SyntaxNode> = Vec::new();
    let mut i: usize = 0;
    while i < count
        invariant
            i <= count,
            count == node_syntax(*node).children.len(),
            count <= u32::MAX,
            children.len() == i,
            forall|j: int|
                0 <= j < i ==> (#[trigger] children@[j]).view() == node_syntax(*node).children[j],
        decreases count - i,
    {
        match node.child(i) {
            Some(child) => {
                children.push(read_node(&child));
            },
            None => {},
        }
        i = i + 1;
    }
    let copy = SyntaxNode {
        kind: node.kind().to_owned(),
        has_error: node.has_error(),
        is_error: node.is_error(),
        is_missing: node.is_missing(),
        named_child_count: node.named_child_count(),
        start_byte: node.start_byte(),
        end_byte: node.end_byte(),
        children,
    };
    assert(copy.view().children =~= node_syntax(*node).children);
    copy
}

/// The node kinds in which a search query can be rooted.
pub open spec fn valid_node_kind(kind: Seq<char>) -> bool {
    ||| kind == "compound_statement"@
    ||| kind == "function_definition"@
    ||| kind == "struct_specifier"@
    ||| kind == "enum_specifier"@
    ||| kind == "union_specifier"@
    ||| kind == "class_specifier"@
}

/// Whether a search query can be rooted in a node of this kind.
pub fn is_valid_node_kind(kind: &String) -> (valid: bool)
    ensures
        valid == valid_node_kind(kind@),
{
    *kind == "compound_statement".to_owned() || *kind == "function_definition".to_owned() || *kind
        == "struct_specifier".to_owned() || *kind == "enum_specifier".to_owned() || *kind
        == "union_specifier".to_owned() || *kind == "class_specifier".to_owned()
}

/// Position `i` holds the first of `nodes` with an error in it.
pub open spec fn first_with_error(nodes: Seq<SyntaxView>, i: int) -> bool {
    &&& 0 <= i < nodes.len()
    &&& nodes[i].has_error
    &&& forall|j: int| 0 <= j < i ==> !(#[trigger] nodes[j]).has_error
}

/// The error that is reported for a tree: from the root, the walk goes into the
/// first child with an error in it, until a node is itself an error or missing.
pub open spec fn first_error(node: SyntaxView) -> Option<SyntaxView>
    decreases node,
{
    if !node.has_error {
        None
    } else if node.is_error || node.is_missing {
        Some(node)
    } else if exists|i: int| #[trigger] first_with_error(node.children, i) {
        let i = choose|i: int| #[trigger] first_with_error(node.children, i);
        first_error(node.children[i])
    } else {
        None
    }
}

/// The walk into the children of a node goes on in the first one with an error.
proof fn lemma_first_error_child(node: SyntaxView, i: int)
    requires
        node.has_error,
        !node.is_error,
        !node.is_missing,
        first_with_error(node.children, i),
    ensures
        first_error(node) == first_error(node.children[i]),
{
    let k = choose|k: int| #[trigger] first_with_error(node.children, k);
    assert(first_with_error(node.children, k));
    assert(k == i) by {
        if k < i {
            assert(!node.children[k].has_error);
        } else if i < k {
            assert(!node.children[i].has_error);
        }
    }
}

/// Finds the error that is reported for the tree below `node`.
pub fn find_first_error(node: &SyntaxNode) -> (error: Option<&SyntaxNode>)
    ensures
        match error {
            Some(e) => first_error(node.view()) == Some(e.view()),
            None => first_error(node.view()) is None,
        },
    decreases node,
{
    if !node.has_error {
        return None;
    }
    if node.is_error || node.is_missing {
        return Some(node);
    }
    let mut i: usize = 0;
    while i < node.children.len()
        invariant
            i <= node.children.len(),
            node.has_error,
            !node.is_error,
            !node.is_missing,
            forall|j: int| 0 <= j < i ==> !(#[trigger] node.children@[j]).has_error,
        decreases node.children.len() - i,
    {
        if node.children[i].has_error {
            proof {
                let children = node.view().children;
                assert forall|j: int| 0 <= j < i implies !(#[trigger] children[j]).has_error by {
                    lemma_child_view(node, j);
                }
                lemma_child_view(node, i as int);
                lemma_first_error_child(node.view(), i as int);
            }
            return find_first_error(&node.children[i]);
        }
        i = i + 1;
    }
    proof {
        let children = node.view().children;
        assert forall|k: int| !#[trigger] first_with_error(children, k) by {
            if 0 <= k < children.len() {
                lemma_child_view(node, k);
            }
        }
    }
    None
}

/// Where a query has its first syntax error.
#[derive(Debug)]
pub struct ErrorSpan {
    /// The byte offset at which the error starts.
    pub start_byte: usize,
    /// The byte offset at which the error ends.
    pub end_byte: usize,
    /// What is missing there, where the error is that something is.
    pub missing: Option<String>,
}

impl ErrorSpan {
    /// The span is the one of the node `error`.
    pub open spec fn marks(&self, error: SyntaxView) -> bool {
        &&& self.start_byte == error.start_byte
        &&& self.end_byte == error.end_byte
        &&& match self.missing {
            Some(kind) => error.is_missing && kind@ == error.kind,
            None => !error.is_missing,
        }
    }
}

/// Why a query is refused.
#[derive(Debug)]
pub enum QueryFault {
    /// The query has syntax errors; the first one that can be pointed at, if any.
    Syntax(Option<ErrorSpan>),
    /// The query has more than one root node.
    MultipleRoots,
    /// The query is not rooted in a supported node.
    UnsupportedRoot,
}

/// The kind of the node in which a query is rooted: the first child of the tree's
/// root, or that root where it has no children.
pub open spec fn query_root_kind(root: SyntaxView) -> Seq<char> {
    if root.children.len() > 0 {
        root.children[0].kind
    } else {
        root.kind
    }
}

/// A query whose syntax tree has this root is refused for its syntax errors.
pub open spec fn refused_for_syntax(root: SyntaxView, force: bool) -> bool {
    root.has_error && !force
}

/// A query whose syntax tree has this root is refused for its many roots.
pub open spec fn refused_for_roots(root: SyntaxView, force: bool) -> bool {
    !refused_for_syntax(root, force) && root.named_child_count > 1
}

/// A query whose syntax tree has this root is refused for the kind of its root.
pub open spec fn refused_for_kind(root: SyntaxView, force: bool) -> bool {
    &&& !refused_for_syntax(root, force)
    &&& !refused_for_roots(root, force)
    &&& !valid_node_kind(query_root_kind(root))
}

/// The answer to a query whose syntax tree has this root.
pub open spec fn validation(root: SyntaxView, force: bool, fault: Option<QueryFault>) -> bool {
    match fault {
        Some(QueryFault::Syntax(span)) => {
            &&& refused_for_syntax(root, force)
            &&& match span {
                Some(s) => first_error(root) matches Some(e) && s.marks(e),
                None => first_error(root) is None,
            }
        },
        Some(QueryFault::MultipleRoots) => refused_for_roots(root, force),
        Some(QueryFault::UnsupportedRoot) => refused_for_kind(root, force),
        None => {
            &&& !refused_for_syntax(root, force)
            &&& !refused_for_roots(root, force)
            &&& !refused_for_kind(root, force)
        },
    }
}

/// Checks the syntax tree of a query: it has no syntax errors, unless `force`
/// lets them pass, a single root node, and a supported kind of root node.
pub fn validate_query(root: &SyntaxNode, force: bool) -> (answer: Result<(), QueryFault>)
    ensures
        match answer {
            Ok(()) => validation(root.view(), force, None),
            Err(fault) => validation(root.view(), force, Some(fault)),
        },
{
    if root.has_error && !force {
        let span = match find_first_error(root) {
            Some(e) => Some(
                ErrorSpan {
                    start_byte: e.start_byte,
                    end_byte: e.end_byte,
                    missing: if e.is_missing {
                        Some(e.kind.clone())
                    } else {
                        None
                    },
                },
            ),
            None => None,
        };
        return Err(QueryFault::Syntax(span));
    }
    if root.named_child_count > 1 {
        return Err(QueryFault::MultipleRoots);
    }
    let supported = if root.children.len() > 0 {
        proof {
            lemma_child_view(root, 0);
        }
        is_valid_node_kind(&root.children[0].kind)
    } else {
        is_valid_node_kind(&root.kind)
    };
    if supported {
        Ok(())
    } else {
        Err(QueryFault::UnsupportedRoot)
    }
}

/// A query is tried again inside braces where it parses without errors but its
/// first node is not of a supported kind.
pub open spec fn braces_wanted(root: SyntaxView) -> bool {
    !root.has_error && root.children.len() > 0 && !valid_node_kind(root.children[0].kind)
}

/// Whether a query is to be tried again inside braces.
pub fn wants_braces(root: &SyntaxNode) -> (wanted: bool)
    ensures
        wanted == braces_wanted(root.view()),
        wanted == (!root.has_error && root.children@.len() > 0 && !valid_node_kind(
            root.children@[0].kind@,
        )),
{
    proof {
        if root.children@.len() > 0 {
            lemma_child_view(root, 0);
        }
    }
    !root.has_error && root.children.len() > 0 && !is_valid_node_kind(&root.children[0].kind)
}

/// An accepted query has a single root of a supported kind, and no syntax errors unless
/// those were let pass.
pub proof fn accepted_queries_are_supported(root: SyntaxView, force: bool)
    requires
        validation(root, force, None),
    ensures
        root.named_child_count <= 1,
        valid_node_kind(query_root_kind(root)),
        root.has_error ==> force,
{
}

/// A query gets exactly one answer: it is accepted, or refused for one reason.
pub proof fn queries_get_one_answer(root: SyntaxView, force: bool)
    ensures
        validation(root, force, None) <==> !refused_for_syntax(root, force) && !refused_for_roots(
            root,
            force,
        ) && !refused_for_kind(root, force),
        !(refused_for_syntax(root, force) && refused_for_roots(root, force)),
        !(refused_for_syntax(root, force) && refused_for_kind(root, force)),
        !(refused_for_roots(root, force) && refused_for_kind(root, force)),
{
}

/// Forcing lets syntax errors pass and changes nothing else.
pub proof fn force_only_lifts_syntax_errors(root: SyntaxView)
    ensures
        !refused_for_syntax(root, true),
        validation(root, false, None) ==> validation(root, true, None),
        !root.has_error ==> (validation(root, false, None) <==> validation(root, true, None)),
        root.has_error ==> !validation(root, false, None),
{
}

/// `node` is `top` or stands somewhere below it.
pub open spec fn is_within(node: SyntaxView, top: SyntaxView) -> bool
    decreases top,
{
    node == top || exists|i: int|
        0 <= i < top.children.len() && is_within(node, #[trigger] top.children[i])
}

/// The error that is reported is a node of the tree that is an error or missing.
pub proof fn reported_error_is_one(root: SyntaxView)
    requires
        first_error(root) is Some,
    ensures
        is_within(first_error(root)->0, root),
        first_error(root)->0.has_error,
        first_error(root)->0.is_error || first_error(root)->0.is_missing,
    decreases root,
{
    if !(root.is_error || root.is_missing) {
        let i = choose|i: int| #[trigger] first_with_error(root.children, i);
        assert(first_with_error(root.children, i));
        reported_error_is_one(root.children[i]);
        assert(is_within(first_error(root)->0, root.children[i]));
    }
}

} // verus!
