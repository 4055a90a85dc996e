//! Scenario tests for the algebraic laws and the edges of the combinators.

use simons_parser::ParseError;
use simons_parser::Parser;
use simons_parser::empty;
use simons_parser::eof;
use simons_parser::fail;
use simons_parser::integer;
use simons_parser::item;
use simons_parser::map2;
use simons_parser::map3;
use simons_parser::pure;
use simons_parser::sep_by;
use simons_parser::string;
use simons_parser::token;
use simons_parser::tuple2;
use simons_parser::tuple3;
use simons_parser::unsigned;

// A dangling separator with no following element is not consumed.
#[test]
fn test_sep_by_trailing_separator() {
    let parser = sep_by(item(), token(','));
    let result = parser.parse("a,");
    assert_eq!(result, Ok((vec!['a'], ",")));
}

// A failing one-or-more repetition reports the very error its element
// parser reports on the same input.
#[test]
fn test_many1_error_matches_element() {
    let alone = token('x').parse("hello").unwrap_err();
    let repeated = token('x').many1().parse("hello").unwrap_err();
    assert_eq!(alone, repeated);
}

// When the left alternative fails, the alternation behaves as the right
// alternative run on the original input.
#[test]
fn test_or_independence() {
    let through_or = token('x').or(token('h')).parse("hello").unwrap();
    let direct = token('h').parse("hello").unwrap();
    assert_eq!(through_or, direct);
}

// Zero-or-more repetition consumes the maximal matching prefix.
#[test]
fn test_many_maximal_prefix() {
    let parser = token('l').many();
    let result = parser.parse("llll");
    assert_eq!(result, Ok((vec!['l', 'l', 'l', 'l'], "")));
}

// Mapping twice behaves as one map with the composed function.
#[test]
fn test_map_fusion() {
    let twice = item().map(|c: char| c as u32).map(|u| u + 1).parse("abc");
    let once = item().map(|c: char| (c as u32) + 1).parse("abc");
    assert_eq!(twice, once);
    assert_eq!(twice, Ok(('a' as u32 + 1, "bc")));
}

// `pure` consumes nothing and duplicates its value.
#[test]
fn test_pure_no_consumption() {
    let result = pure(7u32).parse("abc");
    assert_eq!(result, Ok((7, "abc")));
}

// `empty` is an alias for `pure`.
#[test]
fn test_empty_parser() {
    let result = empty(7u32).parse("abc");
    assert_eq!(result, Ok((7, "abc")));
}

// `fail` consumes nothing: its error carries the whole input.
#[test]
fn test_fail_no_consumption() {
    let parser: simons_parser::Fail<&str, u8> = fail("boom");
    let result = parser.parse("abc");
    assert_eq!(result, Err(ParseError::Message { message: "boom".to_string(), input: "abc" }));
}

#[test]
fn test_eof_on_empty() {
    let result = eof().parse("");
    assert_eq!(result, Ok(((), "")));
}

#[test]
fn test_eof_on_more_input() {
    let result = eof().parse("x");
    assert_eq!(
        result,
        Err(ParseError::Expected {
            expected: "end of input".to_string(),
            found: Some("more input".to_string()),
            input: "x",
        })
    );
}

// The chosen parser's identity can depend on the first parsed value.
#[test]
fn test_bind_combinator() {
    let parser = item().bind(|c: char| token(c));
    assert_eq!(parser.parse("aab"), Ok(('a', "b")));
    let failing = item().bind(|c: char| token(c));
    assert_eq!(
        failing.parse("ab"),
        Err(ParseError::Expected {
            expected: "'a'".to_string(),
            found: Some("'b'".to_string()),
            input: "b",
        })
    );
}

#[test]
fn test_fold_many0() {
    let parser = token('x').fold_many0(0u32, |acc, _| acc + 1);
    assert_eq!(parser.parse("xxxy"), Ok((3, "y")));
    let parser = token('x').fold_many0(0u32, |acc, _| acc + 1);
    assert_eq!(parser.parse("y"), Ok((0, "y")));
}

#[test]
fn test_fold_many1() {
    let parser = token('x').fold_many1(0u32, |acc, _| acc + 1);
    assert_eq!(parser.parse("xxxy"), Ok((3, "y")));
    let parser = token('x').fold_many1(0u32, |acc, _| acc + 1);
    assert_eq!(
        parser.parse("y"),
        Err(ParseError::Expected {
            expected: "'x'".to_string(),
            found: Some("'y'".to_string()),
            input: "y",
        })
    );
}

#[test]
fn test_map2_combinator() {
    let parser = map2(token('a'), token('b'), |x: char, y: char| (y, x));
    assert_eq!(parser.parse("abz"), Ok((('b', 'a'), "z")));
}

#[test]
fn test_map3_combinator() {
    let parser = map3(token('a'), token('b'), token('c'), |x: char, y: char, z: char| {
        format!("{}{}{}", x, y, z)
    });
    assert_eq!(parser.parse("abcz"), Ok(("abc".to_string(), "z")));
}

#[test]
fn test_tuple2_combinator() {
    let parser = tuple2(token('a'), token('b'));
    assert_eq!(parser.parse("abz"), Ok((('a', 'b'), "z")));
}

#[test]
fn test_tuple3_combinator() {
    let parser = tuple3(token('a'), token('b'), token('c'));
    assert_eq!(parser.parse("abcz"), Ok((('a', 'b', 'c'), "z")));
}

// A digit run whose value does not fit in 32 bits is a semantic failure.
#[test]
fn test_unsigned_overflow() {
    let result = unsigned().parse("99999999999xyz");
    assert_eq!(
        result,
        Err(ParseError::Message {
            message: "invalid number".to_string(),
            input: "99999999999xyz",
        })
    );
}

#[test]
fn test_integer_negative_overflow() {
    let result = integer().parse("-99999999999");
    assert_eq!(
        result,
        Err(ParseError::Message { message: "invalid number".to_string(), input: "99999999999" })
    );
}

// A minus sign with no digits after it fails where the digits were
// expected, past the consumed sign.
#[test]
fn test_integer_sign_without_digits() {
    let result = integer().parse("-abc");
    assert_eq!(
        result,
        Err(ParseError::Expected {
            expected: "item satisfying predicate".to_string(),
            found: Some("different item".to_string()),
            input: "abc",
        })
    );
}

// The one-or-more separated list backtracks past a dangling separator too.
#[test]
fn test_sep_by1_trailing_separator() {
    let parser = simons_parser::sep_by1(item(), token(','));
    let result = parser.parse("a,");
    assert_eq!(result, Ok((vec!['a'], ",")));
}

// A string parser that runs out of input names the exhaustion, not a
// character.
#[test]
fn test_string_parser_end_of_input() {
    let result = string("hello").parse("he");
    assert_eq!(
        result,
        Err(ParseError::Expected {
            expected: "string 'hello'".to_string(),
            found: Some("end of input".to_string()),
            input: "he",
        })
    );
}

// Multi-byte characters are consumed one whole character at a time.
#[test]
fn test_item_multibyte() {
    let result = item().parse("\u{e9}x");
    assert_eq!(result, Ok(('\u{e9}', "x")));
}

// Byte slices are inputs too.
#[test]
fn test_byte_slice_input() {
    let bytes: &[u8] = b"hi";
    assert_eq!(item().parse(bytes), Ok((b'h', &b"i"[..])));
    assert_eq!(token(b'h').parse(bytes), Ok((b'h', &b"i"[..])));
    assert_eq!(
        token(b'x').parse(bytes),
        Err(ParseError::Expected {
            expected: "120".to_string(),
            found: Some("104".to_string()),
            input: bytes,
        })
    );
}

// Vectors of plain values are inputs too.
#[test]
fn test_vec_input() {
    let parser = token(3u8);
    assert_eq!(parser.parse(vec![3, 4, 5]), Ok((3, vec![4, 5])));
    let many = token(7u8).many();
    assert_eq!(many.parse(vec![7, 7, 9]), Ok((vec![7, 7], vec![9])));
}

#[test]
fn test_render_unexpected_eof() {
    let e: ParseError<&str> = ParseError::UnexpectedEof;
    assert_eq!(e.render(), "unexpected end of input");
}

#[test]
fn test_render_expected() {
    let e = ParseError::Expected {
        expected: "'x'".to_string(),
        found: Some("'h'".to_string()),
        input: "hello",
    };
    assert_eq!(e.render(), "expected 'x', found 'h' at \"hello\"");
}

#[test]
fn test_render_message() {
    let e = ParseError::Message { message: "invalid number".to_string(), input: "abc" };
    assert_eq!(e.render(), "invalid number at \"abc\"");
}

// Aggregated errors render as a flattened, semicolon-joined list.
#[test]
fn test_render_many() {
    let e = ParseError::Many(vec![
        ParseError::Message { message: "first".to_string(), input: "a" },
        ParseError::Many(vec![ParseError::Message {
            message: "second".to_string(),
            input: "b",
        }]),
    ]);
    assert_eq!(
        e.render(),
        "multiple errors: first at \"a\"; multiple errors: second at \"b\""
    );
}

// The largest representable values sit exactly on the boundary.
#[test]
fn test_unsigned_at_limit() {
    assert_eq!(unsigned().parse("4294967295x"), Ok((4294967295, "x")));
    assert_eq!(
        unsigned().parse("4294967296x"),
        Err(ParseError::Message {
            message: "invalid number".to_string(),
            input: "4294967296x",
        })
    );
}

#[test]
fn test_integer_at_limits() {
    assert_eq!(integer().parse("2147483647"), Ok((2147483647, "")));
    assert_eq!(
        integer().parse("2147483648"),
        Err(ParseError::Message { message: "invalid number".to_string(), input: "2147483648" })
    );
    assert_eq!(integer().parse("-2147483648"), Ok((-2147483648, "")));
    assert_eq!(
        integer().parse("-2147483649"),
        Err(ParseError::Message { message: "invalid number".to_string(), input: "2147483649" })
    );
}

// Whitespace of every kind is collected by `spaces`.
#[test]
fn test_spaces_mixed_whitespace() {
    let result = simons_parser::spaces().parse("\t\n x");
    assert_eq!(result, Ok(("\t\n ".to_string(), "x")));
}
