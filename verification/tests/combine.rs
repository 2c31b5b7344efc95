use std::sync::Arc;
use weggli::result::{CaptureResult, QueryResult};
use weggli_search::combine::{
    chainable, combine_results, group_results, place_results, ResultsCtx,
};
use weggli_search::report::Match;
use weggli_search::table::Table;

fn bindings(list: &[(&str, &str)]) -> Table<String> {
    let mut table = Table::new();
    for (name, value) in list {
        table = table.insert(name.to_string(), value.to_string());
    }
    table
}

fn found(start: usize, values: &[(&str, &str)]) -> Match {
    let captures = vec![CaptureResult { range: start..start, query_id: 0, capture_idx: 0 }];
    Match {
        bindings: bindings(values),
        start_offset: start,
        line: 1,
        result: QueryResult::new(captures, Default::default(), start..start),
    }
}

fn result(query_index: usize, start: usize, values: &[(&str, &str)]) -> ResultsCtx {
    ResultsCtx {
        query_index,
        path: "a.c".to_string(),
        source: Arc::new(String::new()),
        result: found(start, values),
    }
}

fn starts(groups: &[Vec<ResultsCtx>]) -> Vec<Vec<usize>> {
    groups.iter().map(|g| g.iter().map(|r| r.result.start_offset).collect()).collect()
}

#[test]
fn matches_chain_by_their_common_variables() {
    let a = bindings(&[("$x", "1"), ("$y", "2")]);
    assert!(chainable(&a, &bindings(&[("$y", "2"), ("$z", "3")])));
    assert!(!chainable(&a, &bindings(&[("$y", "3")])));
    assert!(!chainable(&bindings(&[("$y", "3")]), &a));
    assert!(chainable(&a, &bindings(&[("$z", "1")])));
    assert!(chainable(&a, &bindings(&[])));
}

#[test]
fn chaining_agrees_with_the_matches_themselves() {
    let source = "foo bar";
    let make = |list: &[(&str, usize)]| {
        let captures = vec![
            CaptureResult { range: 0..3, query_id: 0, capture_idx: 0 },
            CaptureResult { range: 4..7, query_id: 0, capture_idx: 1 },
        ];
        let mut r = QueryResult::new(captures, Default::default(), 0..7);
        for (name, index) in list {
            r.vars.insert(name.to_string(), *index);
        }
        r
    };
    let texts = ["foo", "bar"];
    let cases: Vec<Vec<(&str, usize)>> = vec![
        vec![],
        vec![("$a", 0)],
        vec![("$a", 1)],
        vec![("$a", 0), ("$b", 1)],
        vec![("$b", 0)],
    ];
    for x in &cases {
        for y in &cases {
            let to_table = |list: &Vec<(&str, usize)>| {
                let pairs: Vec<(&str, &str)> = list.iter().map(|(n, i)| (*n, texts[*i])).collect();
                bindings(&pairs)
            };
            assert_eq!(
                make(x).chainable(source, &make(y), source),
                chainable(&to_table(x), &to_table(y))
            );
        }
    }
}

#[test]
fn results_are_grouped_by_query_in_order() {
    let groups = group_results(
        vec![result(1, 10, &[]), result(0, 11, &[]), result(1, 12, &[])],
        3,
    );
    assert_eq!(starts(&groups), vec![vec![11], vec![10, 12], vec![]]);
}

#[test]
fn matches_are_placed_query_by_query() {
    let source = Arc::new("text".to_string());
    let reports = vec![vec![], vec![found(4, &[]), found(5, &[])], vec![found(6, &[])]];
    let placed = place_results(reports, &"b.c".to_string(), &source);
    let summary: Vec<(usize, usize)> =
        placed.iter().map(|r| (r.query_index, r.result.start_offset)).collect();
    assert_eq!(summary, vec![(1, 4), (1, 5), (2, 6)]);
    assert!(placed.iter().all(|r| r.path == "b.c" && Arc::ptr_eq(&r.source, &source)));
}

#[test]
fn two_queries_keep_what_goes_together() {
    let shown = combine_results(vec![
        vec![result(0, 1, &[("$f", "a")]), result(0, 2, &[("$f", "b")]), result(0, 3, &[("$f", "c")])],
        vec![result(1, 4, &[("$f", "c")]), result(1, 5, &[("$f", "d")]), result(1, 6, &[("$f", "a")])],
    ]);
    assert_eq!(starts(&shown), vec![vec![1, 3], vec![4, 6]]);
}

#[test]
fn single_query_is_not_filtered() {
    let shown = combine_results(vec![vec![result(0, 1, &[("$f", "a")]), result(0, 2, &[])]]);
    assert_eq!(starts(&shown), vec![vec![1, 2]]);
}

#[test]
fn query_without_results_empties_the_others() {
    let shown = combine_results(vec![
        vec![result(0, 1, &[])],
        vec![],
        vec![result(2, 2, &[])],
    ]);
    assert_eq!(starts(&shown), vec![Vec::<usize>::new(), vec![], vec![]]);
}

#[test]
fn three_queries_keep_a_full_combination() {
    let shown = combine_results(vec![
        vec![result(0, 1, &[("$a", "1"), ("$b", "1")]), result(0, 2, &[("$a", "2"), ("$b", "2")])],
        vec![result(1, 3, &[("$a", "1")]), result(1, 4, &[("$a", "3")])],
        vec![result(2, 5, &[("$b", "1")]), result(2, 6, &[("$b", "2")])],
    ]);
    assert_eq!(starts(&shown), vec![vec![1], vec![3], vec![5]]);
}

#[test]
fn later_pairs_can_leave_a_result_behind() {
    let shown = combine_results(vec![
        vec![result(0, 1, &[("$a", "1"), ("$b", "1")]), result(0, 2, &[("$a", "2"), ("$b", "2")])],
        vec![result(1, 3, &[("$a", "1")]), result(1, 4, &[("$a", "2")])],
        vec![result(2, 5, &[("$b", "1")])],
    ]);
    assert_eq!(starts(&shown), vec![vec![1], vec![3, 4], vec![5]]);
}
