//! Tests for the text-oriented parsers over string input.

use simons_parser::ParseError;
use simons_parser::Parser;
use simons_parser::alpha;
use simons_parser::alphanumeric;
use simons_parser::char;
use simons_parser::digit;
use simons_parser::integer;
use simons_parser::newline;
use simons_parser::none_of;
use simons_parser::not_char;
use simons_parser::one_of;
use simons_parser::space;
use simons_parser::spaces;
use simons_parser::spaces1;
use simons_parser::string;
use simons_parser::tab;
use simons_parser::unsigned;

#[test]
fn test_char_parser() {
    let parser = char('h');
    let result = parser.parse("hello");
    assert_eq!(result, Ok(('h', "ello")));
}

#[test]
fn test_string_parser() {
    let parser = string("hello");
    let result = parser.parse("hello world");
    assert_eq!(result, Ok(("hello".to_string(), " world")));
}

#[test]
fn test_string_parser_failure() {
    let parser = string("goodbye");
    let result = parser.parse("hello world");
    assert_eq!(
        result,
        Err(ParseError::Expected {
            expected: "string 'goodbye'".to_string(),
            found: Some("character 'h'".to_string()),
            input: "hello world",
        })
    );
}

#[test]
fn test_alpha_parser() {
    let parser = alpha();
    let result = parser.parse("hello123");
    assert_eq!(result, Ok(('h', "ello123")));
}

#[test]
fn test_digit_parser() {
    let parser = digit();
    let result = parser.parse("123abc");
    assert_eq!(result, Ok(('1', "23abc")));
}

#[test]
fn test_alphanumeric_parser() {
    let parser = alphanumeric();
    let result = parser.parse("a1b2c3");
    assert_eq!(result, Ok(('a', "1b2c3")));
}

#[test]
fn test_space_parser() {
    let parser = space();
    let result = parser.parse(" hello");
    assert_eq!(result, Ok((' ', "hello")));
}

#[test]
fn test_spaces_parser() {
    let parser = spaces();
    let result = parser.parse("   hello");
    assert_eq!(result, Ok(("   ".to_string(), "hello")));
}

#[test]
fn test_spaces1_parser() {
    let parser = spaces1();
    let result = parser.parse("   hello");
    assert_eq!(result, Ok(("   ".to_string(), "hello")));
}

#[test]
fn test_spaces1_failure() {
    let parser = spaces1();
    let result = parser.parse("hello");
    assert_eq!(
        result,
        Err(ParseError::Expected {
            expected: "item satisfying predicate".to_string(),
            found: Some("different item".to_string()),
            input: "hello",
        })
    );
}

#[test]
fn test_newline_parser() {
    let parser = newline();
    let result = parser.parse("\nhello");
    assert_eq!(result, Ok(('\n', "hello")));
}

#[test]
fn test_tab_parser() {
    let parser = tab();
    let result = parser.parse("\thello");
    assert_eq!(result, Ok(('\t', "hello")));
}

#[test]
fn test_unsigned_parser() {
    let parser = unsigned();
    let result = parser.parse("12345abc");
    assert_eq!(result, Ok((12345, "abc")));
}

#[test]
fn test_integer_positive() {
    let parser = integer();
    let result = parser.parse("12345abc");
    assert_eq!(result, Ok((12345, "abc")));
}

#[test]
fn test_integer_negative() {
    let parser = integer();
    let result = parser.parse("-12345abc");
    assert_eq!(result, Ok((-12345, "abc")));
}

#[test]
fn test_one_of_parser() {
    let parser = one_of("aeiou");
    let result = parser.parse("hello");
    assert_eq!(
        result,
        Err(ParseError::Expected {
            expected: "item satisfying predicate".to_string(),
            found: Some("different item".to_string()),
            input: "hello",
        })
    );

    let result2 = parser.parse("apple");
    assert_eq!(result2, Ok(('a', "pple")));
}

#[test]
fn test_none_of_parser() {
    let parser = none_of("aeiou");
    let result = parser.parse("hello");
    assert_eq!(result, Ok(('h', "ello")));
}

#[test]
fn test_not_char_parser() {
    let parser = not_char('x');
    let result = parser.parse("hello");
    assert_eq!(result, Ok(('h', "ello")));

    let result2 = parser.parse("xhello");
    assert_eq!(
        result2,
        Err(ParseError::Expected {
            expected: "item satisfying predicate".to_string(),
            found: Some("different item".to_string()),
            input: "xhello",
        })
    );
}
