use weggli_search::constraints::{
    make_constraint, meets_demand, process_regexes, read_variable, split_argument, RegexError,
    RegexMap,
};
use weggli_search::table::Table;

fn strings(list: &[&str]) -> Vec<String> {
    list.iter().map(|s| s.to_string()).collect()
}

fn bindings(list: &[(&str, &str)]) -> Table<String> {
    let mut table = Table::new();
    for (name, value) in list {
        table = table.insert(name.to_string(), value.to_string());
    }
    table
}

fn constraints(variables: &[&str], regexes: &[&str]) -> RegexMap {
    process_regexes(&strings(variables), &strings(regexes)).unwrap()
}

fn refusal(variables: &[&str], regexes: &[&str]) -> RegexError {
    match process_regexes(&strings(variables), &strings(regexes)) {
        Ok(_) => panic!("accepted"),
        Err(e) => e,
    }
}

#[test]
fn variables_are_normalized() {
    assert_eq!(read_variable("func"), ("$func".to_string(), false));
    assert_eq!(read_variable("$func"), ("$func".to_string(), false));
    assert_eq!(read_variable("func!"), ("$func".to_string(), true));
    assert_eq!(read_variable("$func!"), ("$func".to_string(), true));
    assert_eq!(read_variable(""), ("$".to_string(), false));
    assert_eq!(read_variable("!"), ("$".to_string(), true));
    assert_eq!(read_variable("a!!"), ("$a!".to_string(), true));
}

#[test]
fn positive_constraint_has_to_match() {
    let map = constraints(&["$func"], &["func=^mem"]);
    assert!(map.include_match(&bindings(&[("$func", "memcpy")])));
    assert!(!map.include_match(&bindings(&[("$func", "strcpy")])));
}

#[test]
fn negative_constraint_must_not_match() {
    let map = constraints(&["$s"], &["$s!=^size$"]);
    assert!(!map.include_match(&bindings(&[("$s", "size")])));
    assert!(map.include_match(&bindings(&[("$s", "size_t")])));
}

#[test]
fn all_constraints_have_to_be_met() {
    let map = constraints(&["$a", "$b"], &["a=x", "b!=y"]);
    assert!(map.include_match(&bindings(&[("$a", "x"), ("$b", "x"), ("$c", "")])));
    assert!(!map.include_match(&bindings(&[("$a", "x"), ("$b", "y")])));
    assert!(!map.include_match(&bindings(&[("$a", "y"), ("$b", "x")])));
}

#[test]
fn no_constraints_include_everything() {
    let map = constraints(&["$a"], &[]);
    assert!(map.include_match(&bindings(&[])));
    assert!(map.unbound_variable(&bindings(&[])).is_none());
}

#[test]
fn later_constraint_replaces_an_earlier_one() {
    let map = constraints(&["$a"], &["a=x", "$a!=x"]);
    assert!(!map.include_match(&bindings(&[("$a", "x")])));
    assert!(map.include_match(&bindings(&[("$a", "y")])));
}

#[test]
fn regex_may_hold_the_separator() {
    let map = constraints(&["$a"], &["a=b=c"]);
    assert!(map.include_match(&bindings(&[("$a", "b=c")])));
    assert!(!map.include_match(&bindings(&[("$a", "b")])));
}

#[test]
fn unbound_variable_is_named() {
    let map = constraints(&["$a", "$b"], &["a=x", "b=y"]);
    assert_eq!(map.unbound_variable(&bindings(&[("$a", "x")])), Some("$b".to_string()));
}

#[test]
fn argument_without_separator_is_refused() {
    match refusal(&["$a"], &["a"]) {
        RegexError::InvalidArg(arg) => assert_eq!(arg, "a"),
        other => panic!("{:?}", other),
    }
}

#[test]
fn unknown_variable_is_refused() {
    match refusal(&["$a"], &["b!=x"]) {
        RegexError::InvalidVariable(var) => assert_eq!(var, "b!"),
        other => panic!("{:?}", other),
    }
    match refusal(&["$a"], &["=x"]) {
        RegexError::InvalidVariable(var) => assert_eq!(var, ""),
        other => panic!("{:?}", other),
    }
}

#[test]
fn invalid_regex_is_refused() {
    match refusal(&["$a"], &["a=("]) {
        RegexError::InvalidRegex(err) => {
            assert_eq!(err, regex::Regex::new("(").unwrap_err())
        }
        other => panic!("{:?}", other),
    }
}

#[test]
fn first_refused_argument_is_reported() {
    match refusal(&["$a"], &["a=x", "b=(", "nothing"]) {
        RegexError::InvalidVariable(var) => assert_eq!(var, "b"),
        other => panic!("{:?}", other),
    }
    match refusal(&["$a"], &["nothing", "b=("]) {
        RegexError::InvalidArg(arg) => assert_eq!(arg, "nothing"),
        other => panic!("{:?}", other),
    }
}

#[test]
fn regex_errors_convert() {
    let err = regex::Regex::new("[").unwrap_err();
    assert!(matches!(RegexError::from(err), RegexError::InvalidRegex(_)));
}

#[test]
fn arguments_are_taken_apart() {
    let variables = strings(&["$a"]);
    match split_argument(&variables, &"a!=x=(".to_string()) {
        Ok(parts) => assert_eq!(parts, ("$a".to_string(), true, "x=(".to_string())),
        Err(e) => panic!("{:?}", e),
    }
    assert!(matches!(
        split_argument(&variables, &"$b=x".to_string()),
        Err(RegexError::InvalidVariable(var)) if var == "$b"
    ));
    assert!(matches!(
        split_argument(&variables, &"$a".to_string()),
        Err(RegexError::InvalidArg(arg)) if arg == "$a"
    ));
}

#[test]
fn constraint_takes_what_was_compiled() {
    match make_constraint("$a".to_string(), true, regex::Regex::new("x+")) {
        Ok((name, (negative, regex))) => {
            assert_eq!((name.as_str(), negative, regex.as_str()), ("$a", true, "x+"))
        }
        Err(e) => panic!("{:?}", e),
    }
    let failed = make_constraint("$a".to_string(), true, regex::Regex::new("("));
    assert!(matches!(failed, Err(RegexError::InvalidRegex(_))));
}

#[test]
fn demand_is_turned_round_by_the_sign() {
    assert!(meets_demand(false, true));
    assert!(!meets_demand(false, false));
    assert!(meets_demand(true, false));
    assert!(!meets_demand(true, true));
}
