use weggli::builder::build_query_tree;
use weggli::query::QueryTree;
use weggli_search::constraints::RegexError;
use weggli_search::files::{
    any_match, compile_regexes, decide_path, is_hidden, is_potential_match, is_wanted, keeps_path,
    parse_content, prepare_work, Extension, WorkItem,
};
use weggli_search::pattern::parse_search_pattern;

fn strings(list: &[&str]) -> Vec<String> {
    list.iter().map(|s| s.to_string()).collect()
}

fn query(pattern: &str) -> QueryTree {
    let parsed = parse_search_pattern(pattern, false, false).unwrap();
    let mut cursor = parsed.tree().walk();
    cursor.goto_first_child();
    build_query_tree(parsed.source(), &mut cursor, false, None)
}

#[test]
fn dot_files_are_hidden() {
    assert!(is_hidden(Some(".git")));
    assert!(is_hidden(Some(".")));
    assert!(!is_hidden(Some("main.c")));
    assert!(!is_hidden(Some("")));
    assert!(!is_hidden(None));
}

#[test]
fn files_are_wanted_by_extension() {
    let wanted = strings(&["c", "h"]);
    assert!(is_wanted(false, &Extension::Text("c".to_string()), &wanted));
    assert!(!is_wanted(true, &Extension::Text("c".to_string()), &wanted));
    assert!(!is_wanted(false, &Extension::Text("cc".to_string()), &wanted));
    assert!(!is_wanted(false, &Extension::Absent, &wanted));
    assert!(!is_wanted(false, &Extension::NotUnicode, &wanted));
    assert!(is_wanted(false, &Extension::NotUnicode, &strings(&[""])));
    assert!(!is_wanted(false, &Extension::Absent, &strings(&[""])));
}

#[test]
fn exclusion_wins_over_inclusion() {
    let excluded = compile_regexes(&strings(&["test", "third_party/"])).unwrap();
    let included = compile_regexes(&strings(&["net", "fs"])).unwrap();
    assert!(keeps_path(&excluded, &included, "linux/net/core.c"));
    assert!(!keeps_path(&excluded, &included, "linux/net/test.c"));
    assert!(!keeps_path(&excluded, &included, "linux/mm/core.c"));
    assert!(keeps_path(&excluded, &Vec::new(), "linux/mm/core.c"));
    assert!(!keeps_path(&excluded, &Vec::new(), "third_party/a.c"));
    assert!(keeps_path(&Vec::new(), &Vec::new(), "third_party/a.c"));
    assert!(any_match(&included, "fs"));
    assert!(!any_match(&Vec::new(), "fs"));
}

#[test]
fn first_invalid_regex_is_reported() {
    match compile_regexes(&strings(&["a", "(", "["])) {
        Err(RegexError::InvalidRegex(err)) => {
            assert_eq!(err, regex::Regex::new("(").unwrap_err())
        }
        _ => panic!("accepted"),
    }
}

#[test]
fn identifiers_decide_what_is_parsed() {
    let (work, variables) = prepare_work(vec![
        query("{_ $buf[_]; memcpy($buf,_,$len);}"),
        query("{strcpy($dst, $len);}"),
    ]);
    assert_eq!(work.len(), 2);
    let mut sorted = variables.clone();
    sorted.sort();
    assert_eq!(sorted, strings(&["$buf", "$dst", "$len"]));
    assert!(work[0].may_match("x memcpy y"));
    assert!(!work[0].may_match("x strcpy y"));
    assert!(is_potential_match(&work, "x strcpy y"));
    assert!(!is_potential_match(&work, "x strlcpy y"));
    assert!(!is_potential_match(&Vec::new(), "x strcpy y"));
}

#[test]
fn every_identifier_of_a_query_is_needed() {
    let work = vec![WorkItem::new(query("{foo(); bar();}"))];
    assert!(is_potential_match(&work, "bar foo"));
    assert!(!is_potential_match(&work, "foo"));
    assert_eq!(work[0].query_tree().identifiers(), strings(&["foo", "bar"]));
}

#[test]
fn query_without_identifiers_reads_everything() {
    let (work, _) = prepare_work(vec![query("{$x = _;}")]);
    assert!(is_potential_match(&work, ""));
}

#[test]
fn content_is_parsed_where_it_can_match() {
    let (work, _) = prepare_work(vec![query("{memcpy(_,_,_);}")]);
    let source = "void f() { memcpy(a,b,c); } // \u{e9}";
    let file = parse_content(source.as_bytes(), &work, false).unwrap();
    assert_eq!(file.source(), source);
    assert_eq!(file.tree().root_node().child(0).unwrap().kind(), "function_definition");
    assert!(parse_content(b"void f() { memmove(a,b,c); }", &work, false).is_none());
    assert!(parse_content(b"memcpy \xff", &work, false).is_none());
}

#[test]
fn mode_decides_how_content_is_read() {
    let (work, _) = prepare_work(vec![query("{$x = _;}")]);
    let source = b"class A { int x; };";
    let c = parse_content(source, &work, false).unwrap();
    let cpp = parse_content(source, &work, true).unwrap();
    assert_ne!(c.syntax().children[0].kind, "class_specifier");
    assert_eq!(cpp.syntax().children[0].kind, "class_specifier");
}

#[test]
fn path_is_decided_by_both_lists() {
    assert!(decide_path(false, false, false));
    assert!(decide_path(false, true, true));
    assert!(!decide_path(false, true, false));
    assert!(!decide_path(true, false, false));
    assert!(!decide_path(true, true, true));
}
