use weggli::builder::build_query_tree;
use weggli::result::{CaptureResult, QueryResult};
use weggli_search::constraints::{process_regexes, RegexMap};
use weggli_search::files::{prepare_work, WorkItem};
use weggli_search::pattern::{parse_search_pattern, SourceTree};
use weggli_search::report::{
    execute_queries, filter_matches, is_unique, report_matches, Match,
};
use weggli_search::table::Table;

fn strings(list: &[&str]) -> Vec<String> {
    list.iter().map(|s| s.to_string()).collect()
}

fn bindings(list: &[(&str, &str)]) -> Table<String> {
    let mut table = Table::new();
    for (name, value) in list {
        table = table.insert(name.to_string(), value.to_string());
    }
    table
}

fn found(start: usize, values: &[(&str, &str)]) -> Match {
    let captures = vec![CaptureResult { range: start..start, query_id: 0, capture_idx: 0 }];
    Match {
        bindings: bindings(values),
        start_offset: start,
        line: 1,
        result: QueryResult::new(captures, Default::default(), start..start),
    }
}

fn constraints(variables: &[&str], regexes: &[&str]) -> RegexMap {
    process_regexes(&strings(variables), &strings(regexes)).unwrap()
}

fn work(patterns: &[&str]) -> (Vec<WorkItem>, Vec<String>) {
    let queries = patterns.iter().map(|p| {
        let parsed = parse_search_pattern(p, false, false).unwrap();
        let mut cursor = parsed.tree().walk();
        cursor.goto_first_child();
        build_query_tree(parsed.source(), &mut cursor, false, None)
    });
    prepare_work(queries.collect())
}

fn starts(matches: &[Match]) -> Vec<usize> {
    matches.iter().map(|m| m.start_offset).collect()
}

fn values(matches: &[Match], var: &str) -> Vec<String> {
    matches.iter().map(|m| m.bindings.get(&var.to_string()).unwrap().clone()).collect()
}

#[test]
fn uniqueness_compares_all_values() {
    assert!(is_unique(&bindings(&[("$a", "x"), ("$b", "y"), ("$c", "z")])));
    assert!(!is_unique(&bindings(&[("$a", "x"), ("$b", "y"), ("$c", "x")])));
    assert!(is_unique(&bindings(&[("$a", "x")])));
    assert!(is_unique(&bindings(&[])));
}

#[test]
fn nothing_is_filtered_unless_asked() {
    let all = vec![found(3, &[("$a", "x"), ("$b", "x")]), found(3, &[])];
    let kept = filter_matches(all, &constraints(&[], &[]), false, false);
    assert_eq!(starts(&kept), vec![3, 3]);
}

#[test]
fn limit_keeps_the_first_match_per_start() {
    let all = vec![
        found(3, &[("$a", "1")]),
        found(5, &[("$a", "2")]),
        found(3, &[("$a", "3")]),
        found(1, &[("$a", "4")]),
        found(5, &[("$a", "5")]),
    ];
    let kept = filter_matches(all, &constraints(&[], &[]), false, true);
    assert_eq!(starts(&kept), vec![3, 5, 1]);
    assert_eq!(values(&kept, "$a"), strings(&["1", "2", "4"]));
}

#[test]
fn limit_counts_only_matches_that_pass() {
    let all = vec![
        found(3, &[("$a", "x"), ("$b", "x")]),
        found(3, &[("$a", "n"), ("$b", "y")]),
        found(3, &[("$a", "y"), ("$b", "z")]),
    ];
    let kept = filter_matches(all, &constraints(&["$a"], &["a!=n"]), true, true);
    assert_eq!(values(&kept, "$a"), strings(&["y"]));
}

#[test]
fn unbound_constrained_variable_is_reported() {
    let map = constraints(&["$a", "$b"], &["b=x"]);
    let all = vec![found(0, &[("$b", "x")]), found(1, &[("$a", "x")])];
    assert_eq!(report_matches(all, &map, false, false).err(), Some("$b".to_string()));
    let all = vec![found(0, &[("$b", "x")]), found(1, &[("$b", "y")])];
    match report_matches(all, &map, false, false) {
        Ok(kept) => assert_eq!(starts(&kept), vec![0]),
        Err(var) => panic!("{}", var),
    }
}

const SOURCE: &str = "\n// \u{e9}\nvoid f(char *src, int size) {\n  char buf[10];\n  \
                      memcpy(buf, src, size);\n  memcpy(buf, size, size);\n}\n";

fn search(patterns: &[&str], regexes: &[&str], unique: bool, limit: bool) -> Vec<Vec<Match>> {
    let (items, variables) = work(patterns);
    let map = process_regexes(&variables, &strings(regexes)).unwrap();
    let file = SourceTree::parse(SOURCE.to_string(), false);
    execute_queries(&file, &items, &map, unique, limit).unwrap()
}

#[test]
fn matches_are_found_with_their_values() {
    let reports = search(&["{_ $buf[_]; memcpy($buf,$src,$len);}"], &[], false, false);
    assert_eq!(reports.len(), 1);
    assert_eq!(values(&reports[0], "$buf"), strings(&["buf", "buf"]));
    assert_eq!(values(&reports[0], "$src"), strings(&["src", "size"]));
    assert_eq!(values(&reports[0], "$len"), strings(&["size", "size"]));
    let start = SOURCE.find("void").unwrap();
    assert_eq!(starts(&reports[0]), vec![start, start]);
    assert_eq!(reports[0][0].line, 3);
    assert_eq!(reports[0][0].result.start_offset(), start);
}

#[test]
fn options_narrow_what_is_found() {
    let pattern = "{_ $buf[_]; memcpy($buf,$src,$len);}";
    let reports = search(&[pattern], &[], true, false);
    assert_eq!(values(&reports[0], "$src"), strings(&["src"]));
    let reports = search(&[pattern], &[], false, true);
    assert_eq!(values(&reports[0], "$src"), strings(&["src"]));
    let reports = search(&[pattern], &["src!=^src$"], false, true);
    assert_eq!(values(&reports[0], "$src"), strings(&["size"]));
    let reports = search(&[pattern], &["src=^nothing$"], false, false);
    assert!(reports[0].is_empty());
}

#[test]
fn queries_are_reported_one_by_one() {
    let reports = search(&["{strcpy($a,$b);}", "{char $b[_];}"], &[], false, false);
    assert_eq!(reports.len(), 2);
    assert!(reports[0].is_empty());
    assert_eq!(values(&reports[1], "$b"), strings(&["buf"]));
}

#[test]
fn variable_of_another_query_is_unbound() {
    let (items, variables) = work(&["{char $b[_];}", "{memcpy($a,_,_);}"]);
    let map = process_regexes(&variables, &strings(&["a=buf"])).unwrap();
    let file = SourceTree::parse(SOURCE.to_string(), false);
    match execute_queries(&file, &items, &map, false, false) {
        Ok(_) => panic!("reported"),
        Err(var) => assert_eq!(var, "$a"),
    }
}
