//! Error values reported by failing parsers.

use vstd::prelude::*;

verus! {

/// Result type used throughout the parser library: a success value together
/// with the remaining input, or a structured error.
pub type ParseResult<I, T> = Result<(T, I), ParseError<I>>;

/// Error type representing parsing failures.
///
/// Errors are plain data: they are compared for equality in tests and carry
/// the input at the point of failure for diagnostics.
#[derive(Debug, PartialEq)]
pub enum ParseError<I> {
    /// Unexpected end of input.
    UnexpectedEof,
    /// Expected something but found something else.
    Expected {
        /// Description of what the parser was looking for.
        expected: String,
        /// Description of what was actually found, if anything.
        found: Option<String>,
        /// The input at the point of failure.
        input: I,
    },
    /// Custom error with a message.
    Message {
        /// The message describing the failure.
        message: String,
        /// The input at the point of failure.
        input: I,
    },
    /// Multiple errors, one per alternative tried, in try-order.
    Many(Vec<ParseError<I>>),
}

/// Relies on core::fmt's `Debug` formatting to render a value for a
/// diagnostic message. What it renders depends on the type's `Debug`
/// implementation, so nothing is promised of the result.
#[verifier::external_body]
pub(crate) fn debug_string<T: core::fmt::Debug>(x: &T) -> String {
    format!("{:?}", x)
}

impl<I> ParseError<I> {
    /// Create a new expected error.
    pub fn expected(expected: String, found: Option<String>, input: I) -> (r: Self)
        ensures
            r == (ParseError::Expected { expected, found, input }),
    {
        ParseError::Expected { expected, found, input }
    }

    /// Create a new message error.
    pub fn message(message: String, input: I) -> (r: Self)
        ensures
            r == (ParseError::Message { message, input }),
    {
        ParseError::Message { message, input }
    }

    /// Create a new aggregate of several errors.
    pub fn many(errors: Vec<ParseError<I>>) -> (r: Self)
        ensures
            r == ParseError::Many(errors),
    {
        ParseError::Many(errors)
    }
}

impl<I: core::fmt::Debug> ParseError<I> {
    /// Render the error as one line of text; an aggregate of alternatives
    /// becomes a semicolon-joined list of its children's renderings, each
    /// carrying its captured input position.
    ///
    /// The captured inputs are rendered through their `Debug` form, so only
    /// the leading part of the text is pinned down here.
    pub fn render(&self) -> (r: String)
        ensures
            self is UnexpectedEof ==> r@ == "unexpected end of input"@,
            self matches ParseError::Expected { expected, found, input } ==> r@.len()
                >= "expected "@.len() + expected@.len() && r@.take(
                ("expected "@.len() + expected@.len()) as int,
            ) == "expected "@ + expected@,
            self matches ParseError::Message { message, input } ==> r@.len() >= message@.len()
                && r@.take(message@.len() as int) == message@,
            self is Many ==> r@.len() >= "multiple errors: "@.len() && r@.take(
                "multiple errors: "@.len() as int,
            ) == "multiple errors: "@,
        decreases *self,
    {
        broadcast use vstd::std_specs::vec::axiom_vec_index_decreases;

        match self {
            ParseError::UnexpectedEof => "unexpected end of input".to_owned(),
            ParseError::Expected { expected, found, input } => {
                let mut out = String::from_str("expected ");
                out.append(expected.as_str());
                let ghost head = out@;
                match found {
                    Some(f) => {
                        out.append(", found ");
                        out.append(f.as_str());
                    },
                    None => {},
                }
                out.append(" at ");
                let shown = debug_string(input);
                out.append(shown.as_str());
                proof {
                    assert(out@.take(head.len() as int) =~= head);
                }
                out
            },
            ParseError::Message { message, input } => {
                let mut out = message.clone();
                out.append(" at ");
                let shown = debug_string(input);
                out.append(shown.as_str());
                proof {
                    assert(out@.take(message@.len() as int) =~= message@);
                }
                out
            },
            ParseError::Many(errors) => {
                let mut out = String::from_str("multiple errors: ");
                let ghost head = out@;
                let mut i: usize = 0;
                while i < errors.len()
                    invariant
                        i <= errors@.len(),
                        out@.len() >= head.len(),
                        out@.take(head.len() as int) == head,
                        *self == ParseError::Many(*errors),
                    decreases errors@.len() - i,
                {
                    if i > 0 {
                        out.append("; ");
                    }
                    proof {
                        assert(decreases_to!(*self => self->Many_0));
                        assert(self->Many_0 == *errors);
                        assert(decreases_to!(*errors => errors[i as int]));
                    }
                    let piece = errors[i].render();
                    out.append(piece.as_str());
                    proof {
                        assert(out@.take(head.len() as int) =~= head);
                    }
                    i += 1;
                }
                out
            },
        }
    }
}

} // verus!
