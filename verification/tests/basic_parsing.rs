//! Basic parsing tests for the primitive parsers.

use simons_parser::Fail;
use simons_parser::ParseError;
use simons_parser::Parser;
use simons_parser::fail;
use simons_parser::item;
use simons_parser::pure;
use simons_parser::satisfy;
use simons_parser::token;

#[test]
fn test_item_parser() {
    let parser = item();
    let result = parser.parse("hello");
    assert_eq!(result, Ok(('h', "ello")));
}

#[test]
fn test_item_parser_empty() {
    let parser = item();
    let result = parser.parse("");
    assert_eq!(result, Err(ParseError::UnexpectedEof));
}

#[test]
fn test_satisfy_success() {
    let parser = satisfy(|c: &char| c.is_alphabetic());
    let result = parser.parse("hello");
    assert_eq!(result, Ok(('h', "ello")));
}

#[test]
fn test_satisfy_failure() {
    let parser = satisfy(|c: &char| c.is_numeric());
    let result = parser.parse("hello");
    assert_eq!(
        result,
        Err(ParseError::Expected {
            expected: "item satisfying predicate".to_string(),
            found: Some("different item".to_string()),
            input: "hello",
        })
    );
}

#[test]
fn test_token_success() {
    let parser = token('h');
    let result = parser.parse("hello");
    assert_eq!(result, Ok(('h', "ello")));
}

#[test]
fn test_token_failure() {
    let parser = token('x');
    let result = parser.parse("hello");
    assert_eq!(
        result,
        Err(ParseError::Expected {
            expected: "'x'".to_string(),
            found: Some("'h'".to_string()),
            input: "hello",
        })
    );
}

#[test]
fn test_pure_parser() {
    let parser = pure(42);
    let result = parser.parse("hello");
    assert_eq!(result, Ok((42, "hello")));
}

#[test]
fn test_fail_parser() {
    let parser: Fail<&str, char> = fail("test error");
    let result = parser.parse("hello");
    assert_eq!(
        result,
        Err(ParseError::Message { message: "test error".to_string(), input: "hello" })
    );
}
