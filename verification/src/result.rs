//! Outcome of a parser: the values a parser hands back and their mathematical models.
use vstd::prelude::*;

verus! {

/// The kind of a parse error: which step of a recognizer rejected the input.
#[derive(Debug, Clone, Copy, PartialEq, Eq)]
pub enum ErrorKind {
    /// A custom error code; for strings, the code of a [`StringError`].
    Custom(u32),
    /// A fixed tag did not match.
    Tag,
    /// A recognized lexeme could not be converted into a value.
    MapRes,
    /// None of several alternatives matched.
    Alt,
    /// No byte of the expected set was found.
    IsA,
    /// No hexadecimal digit was found.
    HexDigit,
    /// No octal digit was found.
    OctDigit,
    /// The lexical pattern did not match at the start of the input.
    RegexpFind,
}

/// How much input a parser needs before it can decide.
#[derive(Debug, Clone, Copy, PartialEq, Eq)]
pub enum Needed {
    /// More input is needed, of unknown size.
    Unknown,
    /// The total input size that is needed.
    Size(usize),
}

/// A parse error: a kind, possibly with the input position (the unparsed suffix) at which it
/// occurred.
#[derive(Debug, PartialEq, Eq)]
pub enum ParseError<'a> {
    Code(ErrorKind),
    Position(ErrorKind, &'a [u8]),
}

/// The outcome of a parser on a byte slice.
#[derive(Debug, PartialEq, Eq)]
pub enum ParseResult<'a, O> {
    /// Success: the unconsumed rest of the input, and the value.
    Done(&'a [u8], O),
    /// Failure.
    Error(ParseError<'a>),
    /// The input ended before the parser could decide.
    Incomplete(Needed),
}

/// String errors.
#[derive(Debug, Clone, Copy, PartialEq, Eq)]
pub enum StringError {
    /// The datum starts as a string but is too short to be a string.
    TooShort,
    /// The string open character is not correct.
    InvalidOpeningCharacter,
    /// The string close character is not correct.
    InvalidClosingCharacter,
    /// The string is not correctly encoded (expect UTF-8).
    InvalidEncoding,
}

impl StringError {
    /// The numeric code of the error: its position in the declaration, from 0.
    pub open spec fn spec_code(self) -> u32 {
        match self {
            StringError::TooShort => 0,
            StringError::InvalidOpeningCharacter => 1,
            StringError::InvalidClosingCharacter => 2,
            StringError::InvalidEncoding => 3,
        }
    }

    /// The numeric code of the error, as carried by [`ErrorKind::Custom`].
    #[verifier::when_used_as_spec(spec_code)]
    pub fn code(self) -> (c: u32)
        ensures
            c == self.spec_code(),
    {
        match self {
            StringError::TooShort => 0,
            StringError::InvalidOpeningCharacter => 1,
            StringError::InvalidClosingCharacter => 2,
            StringError::InvalidEncoding => 3,
        }
    }
}

/// Model of [`ParseError`]: positions are the byte sequences of the unparsed suffixes.
pub enum SpecError {
    Code(ErrorKind),
    Position(ErrorKind, Seq<u8>),
}

/// Model of [`ParseResult`].
pub enum SpecResult<O> {
    Done(Seq<u8>, O),
    Error(SpecError),
    Incomplete(Needed),
}

impl<'a> View for ParseError<'a> {
    type V = SpecError;

    open spec fn view(&self) -> SpecError {
        match self {
            ParseError::Code(k) => SpecError::Code(*k),
            ParseError::Position(k, p) => SpecError::Position(*k, p@),
        }
    }
}

impl<'a, O: View> View for ParseResult<'a, O> {
    type V = SpecResult<O::V>;

    open spec fn view(&self) -> SpecResult<O::V> {
        match self {
            ParseResult::Done(rest, o) => SpecResult::Done(rest@, o@),
            ParseResult::Error(e) => SpecResult::Error(e@),
            ParseResult::Incomplete(n) => SpecResult::Incomplete(*n),
        }
    }
}

/// The error that a string parser reports for `e`.
pub open spec fn string_error<O>(e: StringError) -> SpecResult<O> {
    SpecResult::Error(SpecError::Code(ErrorKind::Custom(e.spec_code())))
}

} // verus!
