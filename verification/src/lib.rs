//! A parser combinator library in the style of Parsec.
//!
//! Parsers work over any input type that implements the [`input::Input`]
//! capability: an immutable, cheaply duplicated stream of items. The core
//! algebra lives in [`parser`]; primitive parsers and utility combinators in
//! [`combinators`]; text-oriented sugar in [`text`].
//!
//! Every parser carries a relational specification: which `(value, remainder)`
//! pairs it may succeed with, which errors it may fail with, and on which
//! inputs success or failure is guaranteed. The executable `parse` methods are
//! verified against those specifications.

pub mod combinators;
pub mod error;
pub mod input;
pub mod laws;
pub mod parser;
pub mod text;

pub use combinators::Choice;
pub use combinators::Eof;
pub use combinators::Item;
pub use combinators::Satisfy;
pub use combinators::SepBy;
pub use combinators::SepBy1;
pub use combinators::Token;
pub use combinators::between;
pub use combinators::choice;
pub use combinators::empty;
pub use combinators::eof;
pub use combinators::item;
pub use combinators::satisfy;
pub use combinators::sep_by;
pub use combinators::sep_by1;
pub use combinators::token;
pub use error::ParseError;
pub use error::ParseResult;
pub use input::Input;
pub use parser::And;
pub use parser::Bind;
pub use parser::Fail;
pub use parser::FoldMany0;
pub use parser::FoldMany1;
pub use parser::Many;
pub use parser::Many1;
pub use parser::Map2;
pub use parser::Map3;
pub use parser::Mapped;
pub use parser::Optional;
pub use parser::Or;
pub use parser::Parser;
pub use parser::PrecededBy;
pub use parser::Pure;
pub use parser::Skip;
pub use parser::fail;
pub use parser::map2;
pub use parser::map3;
pub use parser::tuple2;
pub use parser::tuple3;
pub use text::Integer;
pub use text::String_;
pub use text::Unsigned;
pub use text::alpha;
pub use text::alphanumeric;
pub use text::char;
pub use text::digit;
pub use text::integer;
pub use text::newline;
pub use text::none_of;
pub use text::not_char;
pub use text::one_of;
pub use text::space;
pub use text::spaces;
pub use text::spaces1;
pub use text::string;
pub use text::tab;
pub use text::unsigned;
pub use parser::pure;
