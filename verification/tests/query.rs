//! Scenarios for the query language.
use cassettedb::error::CassetteError;
use cassettedb::query::{Literal, ParseError, Query};

fn err_text(q: &str) -> String {
    Query::parse(q).unwrap_err().to_text()
}

#[test]
fn test_parse_error_messages() {
    let err = err_text("");
    assert!(err.contains("Empty query string"), "Expected 'Empty query string' in: {}", err);

    let err = err_text("search(");
    assert!(err.contains("Unclosed search(...)"), "Expected 'Unclosed search(...)' in: {}", err);

    let err = err_text("and foo");
    assert!(err.contains("Unable to parse query"), "Expected 'Unable to parse query' in: {}", err);

    let err = err_text("age > ");
    assert!(err.contains("Missing right-hand side"), "Expected 'Missing right-hand side' in: {}", err);

    let err = err_text("age > abc");
    assert!(err.contains("Expected numeric value"), "Expected 'Expected numeric value' in: {}", err);
}

#[test]
fn test_valid_queries_still_work() {
    let q = Query::parse("*").unwrap();
    assert_eq!(q, Query::All);

    let q = Query::parse("search(\"hello\")").unwrap();
    assert_eq!(q, Query::Search("hello".to_string()));

    let q = Query::parse("age > 25").unwrap();
    assert!(matches!(q, Query::Gt { path, value } if path == vec!["age"] && value.parse::<f64>() == Ok(25.0)));

    let q = Query::parse("age >= 25 and search(\"test\")").unwrap();
    assert!(matches!(q, Query::And(_, _)));
}

#[test]
fn error_texts_carry_position_and_context() {
    assert_eq!(err_text("   "), "Invalid query: Empty query string at position 0");
    assert_eq!(
        err_text("age > "),
        "Invalid query: Missing right-hand side of '>' comparison at position 5 near 'age >'"
    );
    assert_eq!(
        err_text("x and "),
        "Invalid query: Unable to parse query: 'x and' at position 0 near 'x and'"
    );
    assert_eq!(
        err_text("a and  "),
        "Invalid query: Unable to parse query: 'a and' at position 0 near 'a and'"
    );
    assert_eq!(
        err_text(" and b"),
        "Invalid query: Unable to parse query: 'and b' at position 0 near 'and b'"
    );
    assert_eq!(
        err_text("search()"),
        "Invalid query: Empty search term in search(...) at position 7 near 'search()'"
    );
    assert_eq!(err_text("$ == 1"), "Invalid query: Empty field path at position 0");
    assert_eq!(
        err_text("== 1"),
        "Invalid query: Missing left-hand side of '==' comparison at position 0 near '== 1'"
    );
}

#[test]
fn long_unparsable_queries_are_cut_in_the_context() {
    let q = "this query has no operator at all but is rather long";
    let e = Query::parse(q).unwrap_err();
    match e {
        CassetteError::InvalidQuery(m) => {
            assert!(m.ends_with("near 'this query has no operator at all but is...'"), "{}", m);
        }
        _ => panic!("wrong error"),
    }
}

#[test]
fn comparisons_and_literals() {
    assert_eq!(
        Query::parse("$.a.b == \"x y\"").unwrap(),
        Query::Eq { path: vec!["a".to_string(), "b".to_string()], value: Literal::Str("x y".to_string()) }
    );
    assert_eq!(
        Query::parse("n == -42").unwrap(),
        Query::Eq { path: vec!["n".to_string()], value: Literal::Int(-42) }
    );
    assert_eq!(
        Query::parse("n == 2.5e3").unwrap(),
        Query::Eq { path: vec!["n".to_string()], value: Literal::Float("2.5e3".to_string()) }
    );
    assert_eq!(
        Query::parse("f == true").unwrap(),
        Query::Eq { path: vec!["f".to_string()], value: Literal::Bool(true) }
    );
    assert_eq!(
        Query::parse("f == null").unwrap(),
        Query::Eq { path: vec!["f".to_string()], value: Literal::Null }
    );
    assert_eq!(
        Query::parse("f == bare").unwrap(),
        Query::Eq { path: vec!["f".to_string()], value: Literal::Str("bare".to_string()) }
    );
    assert_eq!(
        Query::parse("x <= .5").unwrap(),
        Query::Lte { path: vec!["x".to_string()], value: ".5".to_string() }
    );
    assert_eq!(
        Query::parse("x < -inf").unwrap(),
        Query::Lt { path: vec!["x".to_string()], value: "-inf".to_string() }
    );
    assert!(Query::parse("x > 1.2.3").is_err());
    assert_eq!(
        Query::parse("n == 9223372036854775808").unwrap(),
        Query::Eq { path: vec!["n".to_string()], value: Literal::Float("9223372036854775808".to_string()) }
    );
}

#[test]
fn and_binds_before_or_and_parentheses_hide_operators() {
    let q = Query::parse("a == 1 or b == 2 and c == 3").unwrap();
    match q {
        Query::And(l, r) => {
            assert!(matches!(*l, Query::Or(_, _)));
            assert_eq!(*r, Query::Eq { path: vec!["c".to_string()], value: Literal::Int(3) });
        }
        _ => panic!("expected and"),
    }
    assert_eq!(Query::parse("search(\"a and b\")").unwrap(), Query::Search("a and b".to_string()));
    assert_eq!(Query::parse(" $ ").unwrap(), Query::All);
}

#[test]
fn search_terms_lose_quotes() {
    assert_eq!(Query::parse("search('hi')").unwrap(), Query::Search("hi".to_string()));
    assert_eq!(Query::parse("search( plain )").unwrap(), Query::Search("plain".to_string()));
}

#[test]
fn panicking_inputs_are_reported() {
    assert!(Query::try_parse("f == \"").is_none());
    assert!(Query::try_parse("f == 1").is_some());
}

#[test]
fn parse_error_text() {
    let e = ParseError { message: "m".to_string(), position: Some(3), context: "c".to_string() };
    assert_eq!(e.to_text(), "m at position 3 near 'c'");
    let e = ParseError { message: "m".to_string(), position: None, context: String::new() };
    assert_eq!(e.to_text(), "m");
}

#[test]
fn leaves_come_left_to_right_and_combine_by_and_or() {
    let q = Query::parse("a > 1 and b < 2 or search(\"x\")").unwrap();
    let leaves = q.leaves();
    assert_eq!(leaves.len(), 3);
    assert!(matches!(leaves[0], Query::Gt { .. }));
    assert!(matches!(leaves[1], Query::Lt { .. }));
    assert!(matches!(leaves[2], Query::Search(_)));
    // Split at the first `and`: a > 1 and (b < 2 or search("x")).
    assert!(q.matches_with(&[true, true, false]));
    assert!(q.matches_with(&[true, false, true]));
    assert!(!q.matches_with(&[true, false, false]));
    assert!(!q.matches_with(&[false, true, true]));

    let all = Query::parse("*").unwrap();
    assert!(all.leaves().is_empty());
    assert!(all.matches_with(&[]));

    let either = Query::parse("a == 1 or a == 2").unwrap();
    assert!(either.matches_with(&[false, true]));
    assert!(!either.matches_with(&[false, false]));
}
