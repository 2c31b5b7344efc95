use weggli_search::pattern::{check_pattern, parse_search_pattern, SourceTree};
use weggli_search::syntax::{
    find_first_error, is_valid_node_kind, validate_query, wants_braces, QueryFault, SyntaxNode,
};
use weggli_search::text::split_span;

fn node(kind: &str, children: Vec<SyntaxNode>) -> SyntaxNode {
    let has_error = children.iter().any(|c| c.has_error);
    SyntaxNode {
        kind: kind.to_string(),
        has_error,
        is_error: false,
        is_missing: false,
        named_child_count: children.len(),
        start_byte: 0,
        end_byte: 0,
        children,
    }
}

fn error(start_byte: usize, end_byte: usize) -> SyntaxNode {
    SyntaxNode {
        kind: "ERROR".to_string(),
        has_error: true,
        is_error: true,
        is_missing: false,
        named_child_count: 0,
        start_byte,
        end_byte,
        children: Vec::new(),
    }
}

fn missing(kind: &str, at: usize) -> SyntaxNode {
    SyntaxNode {
        kind: kind.to_string(),
        has_error: true,
        is_error: false,
        is_missing: true,
        named_child_count: 0,
        start_byte: at,
        end_byte: at,
        children: Vec::new(),
    }
}

#[test]
fn supported_kinds() {
    for kind in [
        "compound_statement",
        "function_definition",
        "struct_specifier",
        "enum_specifier",
        "union_specifier",
        "class_specifier",
    ] {
        assert!(is_valid_node_kind(&kind.to_string()));
    }
    for kind in ["", "translation_unit", "expression_statement", "compound_statements"] {
        assert!(!is_valid_node_kind(&kind.to_string()));
    }
}

#[test]
fn statement_gets_braces() {
    let query = parse_search_pattern("memcpy(_);", false, false).unwrap();
    assert_eq!(query.source(), "{memcpy(_);}");
    assert!(!query.tree().root_node().has_error());
}

#[test]
fn block_stays_as_it_is() {
    let pattern = "{\n    _ $buf[_];\n    memcpy($buf,_,_);\n}";
    let query = parse_search_pattern(pattern, false, false).unwrap();
    assert_eq!(query.source(), pattern);
}

#[test]
fn definitions_stay_as_they_are() {
    let query = parse_search_pattern("void $f() {}", false, false).unwrap();
    assert_eq!(query.source(), "void $f() {}");
    let query = parse_search_pattern("class $c { int x; };", true, false).unwrap();
    assert_eq!(query.source(), "class $c { int x; };");
}

#[test]
fn non_ascii_pattern_keeps_its_text() {
    let query = parse_search_pattern("f(\"\u{e9}\u{1f600}\");", false, false).unwrap();
    assert_eq!(query.source(), "{f(\"\u{e9}\u{1f600}\");}");
}

#[test]
fn syntax_error_is_refused_and_located() {
    let pattern = "{ memcpy(a,; }";
    let refused = match parse_search_pattern(pattern, false, false) {
        Ok(_) => panic!("accepted"),
        Err(e) => e,
    };
    assert_eq!(refused.query, pattern);
    let span = match refused.fault {
        QueryFault::Syntax(Some(span)) => span,
        other => panic!("{:?}", other),
    };
    let (before, inside, after) = split_span(&refused.query, span.start_byte, span.end_byte);
    assert_eq!(format!("{}{}{}", before, inside, after), pattern);
}

#[test]
fn missing_token_is_named() {
    let refused = match parse_search_pattern("{ memcpy(a,b) }", false, false) {
        Ok(_) => panic!("accepted"),
        Err(e) => e,
    };
    match refused.fault {
        QueryFault::Syntax(Some(span)) => {
            assert_eq!(span.missing, Some(";".to_string()));
            assert_eq!(span.start_byte, span.end_byte);
        }
        other => panic!("{:?}", other),
    }
}

#[test]
fn force_lets_syntax_errors_pass() {
    let query = parse_search_pattern("{ memcpy(a,b) }", false, true).unwrap();
    assert_eq!(query.source(), "{ memcpy(a,b) }");
    assert!(query.tree().root_node().has_error());
}

#[test]
fn several_roots_are_refused() {
    let refused = match parse_search_pattern("void f() {} void g() {}", false, false) {
        Ok(_) => panic!("accepted"),
        Err(e) => e,
    };
    assert_eq!(refused.query, "void f() {} void g() {}");
    assert!(matches!(refused.fault, QueryFault::MultipleRoots));
}

#[test]
fn empty_pattern_has_no_supported_root() {
    let refused = match parse_search_pattern("", false, false) {
        Ok(_) => panic!("accepted"),
        Err(e) => e,
    };
    assert_eq!(refused.query, "");
    assert!(matches!(refused.fault, QueryFault::UnsupportedRoot));
}

#[test]
fn syntax_is_read_from_the_tree() {
    let tree = SourceTree::parse("int x;\nint y;".to_string(), false);
    let root = tree.syntax();
    assert_eq!(root.kind, "translation_unit");
    assert_eq!(root.named_child_count, 2);
    assert_eq!(root.children.len(), 2);
    assert_eq!(root.children[1].kind, "declaration");
    assert_eq!(root.children[1].start_byte, 7);
    assert_eq!(root.children[1].end_byte, 13);
    assert_eq!(root.children[1].children.len(), 3);
    assert_eq!(root.children[1].named_child_count, 2);
    assert!(!root.has_error && !root.is_error && !root.is_missing);
    assert_eq!(tree.into_source(), "int x;\nint y;");
}

#[test]
fn error_walk_takes_the_first_child_with_an_error() {
    let root = node(
        "translation_unit",
        vec![
            node("declaration", vec![]),
            node("compound_statement", vec![node("x", vec![]), missing(";", 3), error(4, 9)]),
            error(9, 12),
        ],
    );
    let found = find_first_error(&root).unwrap();
    assert!(found.is_missing);
    assert_eq!(found.start_byte, 3);
}

#[test]
fn error_walk_does_not_turn_back() {
    let mut blind = node("compound_statement", vec![]);
    blind.has_error = true;
    let root = node("translation_unit", vec![blind, error(1, 2)]);
    assert!(find_first_error(&root).is_none());
    assert!(matches!(validate_query(&root, false), Err(QueryFault::Syntax(None))));
}

#[test]
fn clean_tree_has_no_error() {
    assert!(find_first_error(&node("translation_unit", vec![error(0, 1)]).children[0]).is_some());
    assert!(find_first_error(&node("translation_unit", vec![])).is_none());
}

#[test]
fn faults_come_in_order() {
    let two = |first: SyntaxNode, second: SyntaxNode| node("translation_unit", vec![first, second]);
    let root = two(error(2, 5), node("compound_statement", vec![]));
    match validate_query(&root, false) {
        Err(QueryFault::Syntax(Some(span))) => {
            assert_eq!((span.start_byte, span.end_byte), (2, 5));
            assert_eq!(span.missing, None);
        }
        other => panic!("{:?}", other),
    }
    assert!(matches!(validate_query(&root, true), Err(QueryFault::MultipleRoots)));
    let root = two(node("declaration", vec![]), node("declaration", vec![]));
    assert!(matches!(validate_query(&root, false), Err(QueryFault::MultipleRoots)));
    let root = node("translation_unit", vec![node("declaration", vec![])]);
    assert!(matches!(validate_query(&root, false), Err(QueryFault::UnsupportedRoot)));
    let root = node("translation_unit", vec![node("compound_statement", vec![])]);
    assert!(validate_query(&root, false).is_ok());
}

#[test]
fn only_clean_unsupported_roots_want_braces() {
    assert!(wants_braces(&node("translation_unit", vec![node("declaration", vec![])])));
    assert!(!wants_braces(&node("translation_unit", vec![node("enum_specifier", vec![])])));
    assert!(!wants_braces(&node("translation_unit", vec![])));
    assert!(!wants_braces(&node("translation_unit", vec![error(0, 1)])));
}

#[test]
fn braces_stay_only_without_errors() {
    let root = node("translation_unit", vec![node("declaration", vec![])]);
    let clean = node("translation_unit", vec![node("compound_statement", vec![])]);
    let (kept, answer) = check_pattern(&root, &Some(clean), false);
    assert!(kept && answer.is_ok());
    let faulty = node("translation_unit", vec![error(0, 1)]);
    let (kept, answer) = check_pattern(&root, &Some(faulty), false);
    assert!(!kept);
    assert!(matches!(answer, Err(QueryFault::UnsupportedRoot)));
    let block = node("translation_unit", vec![node("compound_statement", vec![])]);
    let (kept, answer) = check_pattern(&block, &None, false);
    assert!(!kept && answer.is_ok());
}
