//! Recognizers for the literals of the PHP language (null, booleans, integers in four bases,
//! exponential numbers, strings and identifiers), written as functions on bytes with
//! contracts over mathematical models of their input.
pub mod result;
pub mod lexeme;
pub mod numbers;
pub mod identifier;
pub mod strings;
pub mod laws;
pub mod lexical_laws;

pub use identifier::identifier;
pub use numbers::{binary, boolean, decimal, exponential_literal, hexadecimal, null, octal};
pub use result::{ErrorKind, Needed, ParseError, ParseResult, StringError};
pub use strings::{nowdoc_stays_in_input, string, string_nowdoc, string_single_quoted};
