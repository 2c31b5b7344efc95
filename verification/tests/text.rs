use weggli_search::table::Table;
use weggli_search::text::{
    contains_all, cut_text, decode_text, is_among, line_number, split_span,
};

#[test]
fn cut_is_at_the_first_occurrence() {
    assert_eq!(cut_text("func=^mem=x", '='), Some(("func", "^mem=x")));
    assert_eq!(cut_text("=", '='), Some(("", "")));
    assert_eq!(cut_text("\u{e9}=\u{e8}", '='), Some(("\u{e9}", "\u{e8}")));
    assert_eq!(cut_text("func", '='), None);
    assert_eq!(cut_text("", '='), None);
}

#[test]
fn all_needles_have_to_occur() {
    let needles = |list: &[&str]| list.iter().map(|s| s.to_string()).collect::<Vec<String>>();
    assert!(contains_all("memcpy(buf, src)", &needles(&["memcpy", "src", "(b"])));
    assert!(!contains_all("memcpy(buf, src)", &needles(&["memcpy", "dst"])));
    assert!(contains_all("", &needles(&[])));
    assert!(contains_all("", &needles(&[""])));
    assert!(!contains_all("", &needles(&["a"])));
}

#[test]
fn only_utf8_is_decoded() {
    assert_eq!(decode_text("a\u{e9}".as_bytes()), Some("a\u{e9}"));
    assert_eq!(decode_text(&[]), Some(""));
    assert_eq!(decode_text(&[0x61, 0xff]), None);
    assert_eq!(decode_text(&[0xc3]), None);
}

#[test]
fn lines_are_counted_from_one() {
    let source = "a\nb\n\n\u{e9}x";
    assert_eq!(line_number(source, 0), 1);
    assert_eq!(line_number(source, 1), 1);
    assert_eq!(line_number(source, 2), 2);
    assert_eq!(line_number(source, 4), 3);
    assert_eq!(line_number(source, 5), 4);
    assert_eq!(line_number(source, source.len()), 4);
}

#[test]
fn spans_cut_a_text_in_three() {
    assert_eq!(split_span("a\u{e9}bc", 1, 3), ("a", "\u{e9}", "bc"));
    assert_eq!(split_span("abc", 0, 3), ("", "abc", ""));
    assert_eq!(split_span("abc", 2, 2), ("ab", "", "c"));
}

#[test]
fn names_are_looked_up_whole() {
    let names = vec!["c".to_string(), "h".to_string()];
    assert!(is_among(&"h".to_string(), &names));
    assert!(!is_among(&"hh".to_string(), &names));
    assert!(!is_among(&"h".to_string(), &Vec::new()));
}

#[test]
fn table_keeps_one_value_per_name() {
    let table = Table::new()
        .insert("x".to_string(), 1)
        .insert("y".to_string(), 2)
        .insert("x".to_string(), 3);
    assert_eq!(table.len(), 2);
    assert_eq!(table.get(&"x".to_string()), Some(&3));
    assert_eq!(table.get(&"y".to_string()), Some(&2));
    assert_eq!(table.get(&"z".to_string()), None);
    assert_eq!(table.entry(0), (&"x".to_string(), &3));
    assert_eq!(table.entry(1), (&"y".to_string(), &2));
}
