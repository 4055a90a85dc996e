//! Tests for the sequencing, alternation and repetition combinators.

use simons_parser::ParseError;
use simons_parser::Parser;
use simons_parser::between;
use simons_parser::choice;
use simons_parser::item;
use simons_parser::sep_by;
use simons_parser::sep_by1;
use simons_parser::token;

#[test]
fn test_map_combinator() {
    let parser = item().map(|c: char| c.to_ascii_uppercase());
    let result = parser.parse("hello");
    assert_eq!(result, Ok(('H', "ello")));
}

#[test]
fn test_and_combinator() {
    let parser = item().and(item());
    let result = parser.parse("hello");
    assert_eq!(result, Ok((('h', 'e'), "llo")));
}

#[test]
fn test_skip_combinator() {
    let parser = item().skip(item());
    let result = parser.parse("hello");
    assert_eq!(result, Ok(('h', "llo")));
}

#[test]
fn test_preceded_by_combinator() {
    let parser = item().preceded_by(item());
    let result = parser.parse("hello");
    assert_eq!(result, Ok(('e', "llo")));
}

#[test]
fn test_or_combinator_first_succeeds() {
    let parser = token('h').or(token('x'));
    let result = parser.parse("hello");
    assert_eq!(result, Ok(('h', "ello")));
}

#[test]
fn test_or_combinator_second_succeeds() {
    let parser = token('x').or(token('h'));
    let result = parser.parse("hello");
    assert_eq!(result, Ok(('h', "ello")));
}

#[test]
fn test_or_combinator_both_fail() {
    let parser = token('x').or(token('y'));
    let result = parser.parse("hello");
    assert_eq!(
        result,
        Err(ParseError::Many(vec![
            ParseError::Expected {
                expected: "'x'".to_string(),
                found: Some("'h'".to_string()),
                input: "hello",
            },
            ParseError::Expected {
                expected: "'y'".to_string(),
                found: Some("'h'".to_string()),
                input: "hello",
            },
        ]))
    );
}

#[test]
fn test_optional_success() {
    let parser = token('h').optional();
    let result = parser.parse("hello");
    assert_eq!(result, Ok((Some('h'), "ello")));
}

#[test]
fn test_optional_failure() {
    let parser = token('x').optional();
    let result = parser.parse("hello");
    assert_eq!(result, Ok((None, "hello")));
}

#[test]
fn test_many_success() {
    let parser = token('l').many();
    let result = parser.parse("lllhello");
    assert_eq!(result, Ok((vec!['l', 'l', 'l'], "hello")));
}

#[test]
fn test_many_zero_matches() {
    let parser = token('x').many();
    let result = parser.parse("hello");
    assert_eq!(result, Ok((vec![], "hello")));
}

#[test]
fn test_many1_success() {
    let parser = token('l').many1();
    let result = parser.parse("lllhello");
    assert_eq!(result, Ok((vec!['l', 'l', 'l'], "hello")));
}

#[test]
fn test_many1_failure() {
    let parser = token('x').many1();
    let result = parser.parse("hello");
    assert_eq!(
        result,
        Err(ParseError::Expected {
            expected: "'x'".to_string(),
            found: Some("'h'".to_string()),
            input: "hello",
        })
    );
}

#[test]
fn test_between() {
    let parser = between(token('('), item(), token(')'));
    let result = parser.parse("(x)");
    assert_eq!(result, Ok(('x', "")));
}

#[test]
fn test_choice() {
    let parsers = vec![token('a'), token('b'), token('c')];
    let parser = choice(parsers);
    let result = parser.parse("b");
    assert_eq!(result, Ok(('b', "")));
}

#[test]
fn test_sep_by_empty() {
    let parser = sep_by(item(), token(','));
    let result = parser.parse("");
    assert_eq!(result, Ok((vec![], "")));
}

#[test]
fn test_sep_by_single() {
    let parser = sep_by(item(), token(','));
    let result = parser.parse("a");
    assert_eq!(result, Ok((vec!['a'], "")));
}

#[test]
fn test_sep_by_multiple() {
    let parser = sep_by(item(), token(','));
    let result = parser.parse("a,b,c");
    assert_eq!(result, Ok((vec!['a', 'b', 'c'], "")));
}

#[test]
fn test_sep_by1_success() {
    let parser = sep_by1(item(), token(','));
    let result = parser.parse("a,b,c");
    assert_eq!(result, Ok((vec!['a', 'b', 'c'], "")));
}

#[test]
fn test_sep_by1_failure() {
    let parser = sep_by1(item(), token(','));
    let result = parser.parse("");
    assert_eq!(result, Err(ParseError::UnexpectedEof));
}
