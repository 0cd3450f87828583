//! The keyword literals `null`, `true`, `false`, and the numeric literals: integers in
//! binary, octal, decimal and hexadecimal notation, and the lexemes of exponential numbers.
use vstd::prelude::*;
use vstd::slice::slice_subrange;
use crate::lexeme::{
    ByteClass, digits_to_u64, parse_digits, run, run_end, tag, tag_result,
};
use crate::result::{ErrorKind, Needed, ParseError, ParseResult, SpecError, SpecResult};

verus! {

/// The bytes of `null`.
pub open spec fn null_word() -> Seq<u8> {
    seq![0x6eu8, 0x75, 0x6c, 0x6c]
}

/// The bytes of `true`.
pub open spec fn true_word() -> Seq<u8> {
    seq![0x74u8, 0x72, 0x75, 0x65]
}

/// The bytes of `false`.
pub open spec fn false_word() -> Seq<u8> {
    seq![0x66u8, 0x61, 0x6c, 0x73, 0x65]
}

/// `null`: the tag `null`, whose value is `None`.
pub open spec fn null_result(input: Seq<u8>) -> SpecResult<Option<()>> {
    match tag_result(input, null_word()) {
        SpecResult::Done(rest, _) => SpecResult::Done(rest, None),
        SpecResult::Error(e) => SpecResult::Error(e),
        SpecResult::Incomplete(n) => SpecResult::Incomplete(n),
    }
}

/// `true` or `false`, tried in this order; an input that may still become `true` waits
/// for more bytes.
pub open spec fn boolean_result(input: Seq<u8>) -> SpecResult<bool> {
    match tag_result(input, true_word()) {
        SpecResult::Done(rest, _) => SpecResult::Done(rest, true),
        SpecResult::Incomplete(n) => SpecResult::Incomplete(n),
        SpecResult::Error(_) => match tag_result(input, false_word()) {
            SpecResult::Done(rest, _) => SpecResult::Done(rest, false),
            SpecResult::Incomplete(n) => SpecResult::Incomplete(n),
            SpecResult::Error(_) => SpecResult::Error(SpecError::Position(ErrorKind::Alt, input)),
        },
    }
}

/// The digits that follow the first `skip` bytes of `input`: the longest run of class `c`.
pub open spec fn digits_after(input: Seq<u8>, skip: int, c: ByteClass) -> Seq<u8> {
    input.skip(skip).take(run(input.skip(skip), c) as int)
}

/// A digit run after `skip` bytes of prefix, converted in base `radix`: the value and the
/// rest after the run, or a conversion error reported at the start of the input.
pub open spec fn converted(input: Seq<u8>, skip: int, c: ByteClass, radix: nat) -> SpecResult<
    u64,
> {
    let digits = digits_after(input, skip, c);
    match digits_to_u64(digits, radix) {
        Some(v) => SpecResult::Done(input.skip(skip + digits.len()), v),
        None => SpecResult::Error(SpecError::Position(ErrorKind::MapRes, input)),
    }
}

/// `0` followed by the base letter `lower` or `upper`: what is reported before the digits
/// are read, if anything.
pub open spec fn based_prefix(input: Seq<u8>, lower: u8, upper: u8) -> Option<SpecResult<u64>> {
    if input.len() == 0 {
        Some(SpecResult::Incomplete(Needed::Size(1)))
    } else if input[0] != 0x30 {
        Some(SpecResult::Error(SpecError::Position(ErrorKind::Tag, input)))
    } else if input.len() == 1 {
        Some(SpecResult::Incomplete(Needed::Size(2)))
    } else if input[1] != lower && input[1] != upper {
        Some(SpecResult::Error(SpecError::Position(ErrorKind::Alt, input.skip(1))))
    } else {
        None
    }
}

/// `0b` or `0B` followed by binary digits. An empty run after the prefix is a conversion
/// error when the input ends there, and an `IsA` error otherwise.
pub open spec fn binary_result(input: Seq<u8>) -> SpecResult<u64> {
    match based_prefix(input, 0x62, 0x42) {
        Some(r) => r,
        None => if run(input.skip(2), ByteClass::Binary) == 0 && input.len() > 2 {
            SpecResult::Error(SpecError::Position(ErrorKind::IsA, input.skip(2)))
        } else {
            converted(input, 2, ByteClass::Binary, 2)
        },
    }
}

/// `0` followed by at least one octal digit.
pub open spec fn octal_result(input: Seq<u8>) -> SpecResult<u64> {
    if input.len() == 0 {
        SpecResult::Incomplete(Needed::Size(1))
    } else if input[0] != 0x30 {
        SpecResult::Error(SpecError::Position(ErrorKind::Tag, input))
    } else if run(input.skip(1), ByteClass::Octal) == 0 {
        SpecResult::Error(SpecError::Position(ErrorKind::OctDigit, input.skip(1)))
    } else {
        converted(input, 1, ByteClass::Octal, 8)
    }
}

/// `0x` or `0X` followed by at least one hexadecimal digit.
pub open spec fn hexadecimal_result(input: Seq<u8>) -> SpecResult<u64> {
    match based_prefix(input, 0x78, 0x58) {
        Some(r) => r,
        None => if run(input.skip(2), ByteClass::Hexadecimal) == 0 {
            SpecResult::Error(SpecError::Position(ErrorKind::HexDigit, input.skip(2)))
        } else {
            converted(input, 2, ByteClass::Hexadecimal, 16)
        },
    }
}

/// A digit `1` to `9` followed by the longest run of decimal digits.
pub open spec fn decimal_result(input: Seq<u8>) -> SpecResult<u64> {
    if input.len() > 0 && 0x31 <= input[0] <= 0x39 {
        converted(input, 0, ByteClass::Decimal, 10)
    } else {
        SpecResult::Error(SpecError::Code(ErrorKind::RegexpFind))
    }
}

/// Length of the mantissa of an exponential number at the start of `s`: digits, a dot and
/// at least one digit; failing that, at least one digit and a dot.
pub open spec fn mantissa_len(s: Seq<u8>) -> Option<int> {
    let d = run(s, ByteClass::Decimal) as int;
    if d < s.len() && s[d] == 0x2e {
        let f = run(s.skip(d + 1), ByteClass::Decimal) as int;
        if f > 0 {
            Some(d + 1 + f)
        } else if d > 0 {
            Some(d + 1)
        } else {
            None
        }
    } else {
        None
    }
}

/// Length of the optional exponent at the start of `s`: `e` or `E`, an optional sign and at
/// least one digit; 0 where there is none.
pub open spec fn exponent_len(s: Seq<u8>) -> int {
    if s.len() > 0 && (s[0] == 0x65 || s[0] == 0x45) {
        let sign: int = if s.len() > 1 && (s[1] == 0x2b || s[1] == 0x2d) {
            1
        } else {
            0
        };
        let n = run(s.skip(1 + sign), ByteClass::Decimal) as int;
        if n > 0 {
            1 + sign + n
        } else {
            0
        }
    } else {
        0
    }
}

/// The lexeme of an exponential number, `([0-9]*\.[0-9]+|[0-9]+\.)([eE][+-]?[0-9]+)?` at the
/// start of the input.
pub open spec fn exponential_literal_result(input: Seq<u8>) -> SpecResult<Seq<u8>> {
    match mantissa_len(input) {
        Some(m) => {
            let len = m + exponent_len(input.skip(m));
            SpecResult::Done(input.skip(len), input.take(len))
        },
        None => SpecResult::Error(SpecError::Code(ErrorKind::RegexpFind)),
    }
}

/// Recognizes `null`.
pub fn null<'a>(input: &'a [u8]) -> (r: ParseResult<'a, Option<()>>)
    ensures
        r@ == null_result(input@),
{
    let word: [u8; 4] = [0x6e, 0x75, 0x6c, 0x6c];
    assert(word@ =~= null_word());
    match tag(input, &word) {
        ParseResult::Done(rest, _) => ParseResult::Done(rest, None),
        ParseResult::Error(e) => ParseResult::Error(e),
        ParseResult::Incomplete(n) => ParseResult::Incomplete(n),
    }
}

/// Recognizes `true` or `false`.
pub fn boolean<'a>(input: &'a [u8]) -> (r: ParseResult<'a, bool>)
    ensures
        r@ == boolean_result(input@),
{
    let t: [u8; 4] = [0x74, 0x72, 0x75, 0x65];
    let f: [u8; 5] = [0x66, 0x61, 0x6c, 0x73, 0x65];
    assert(t@ =~= true_word());
    assert(f@ =~= false_word());
    match tag(input, &t) {
        ParseResult::Done(rest, _) => ParseResult::Done(rest, true),
        ParseResult::Incomplete(n) => ParseResult::Incomplete(n),
        ParseResult::Error(_) => match tag(input, &f) {
            ParseResult::Done(rest, _) => ParseResult::Done(rest, false),
            ParseResult::Incomplete(n) => ParseResult::Incomplete(n),
            ParseResult::Error(_) => ParseResult::Error(ParseError::Position(ErrorKind::Alt, input)),
        },
    }
}

/// Executable [`converted`].
fn convert_run<'a>(input: &'a [u8], skip: usize, c: ByteClass, radix: u64) -> (r: ParseResult<
    'a,
    u64,
>)
    requires
        skip <= input@.len(),
        2 <= radix <= 16,
    ensures
        r@ == converted(input@, skip as int, c, radix as nat),
{
    let end = run_end(input, skip, c);
    assert(digits_after(input@, skip as int, c) =~= input@.subrange(skip as int, end as int));
    match parse_digits(input, skip, end, radix) {
        Some(v) => {
            let rest = slice_subrange(input, end, input.len());
            assert(rest@ =~= input@.skip(end as int));
            ParseResult::Done(rest, v)
        },
        None => ParseResult::Error(ParseError::Position(ErrorKind::MapRes, input)),
    }
}

/// Executable [`based_prefix`].
fn check_based_prefix<'a>(input: &'a [u8], lower: u8, upper: u8) -> (r: Option<
    ParseResult<'a, u64>,
>)
    ensures
        r is None <==> based_prefix(input@, lower, upper) is None,
        r matches Some(x) ==> based_prefix(input@, lower, upper) == Some(x@),
        r is None ==> input@.len() >= 2,
{
    if input.len() == 0 {
        Some(ParseResult::Incomplete(Needed::Size(1)))
    } else if input[0] != 0x30 {
        Some(ParseResult::Error(ParseError::Position(ErrorKind::Tag, input)))
    } else if input.len() == 1 {
        Some(ParseResult::Incomplete(Needed::Size(2)))
    } else if input[1] != lower && input[1] != upper {
        let rest = slice_subrange(input, 1, input.len());
        assert(rest@ =~= input@.skip(1));
        Some(ParseResult::Error(ParseError::Position(ErrorKind::Alt, rest)))
    } else {
        None
    }
}

/// Recognizes a binary integer such as `0b101010`.
pub fn binary<'a>(input: &'a [u8]) -> (r: ParseResult<'a, u64>)
    ensures
        r@ == binary_result(input@),
{
    if let Some(r) = check_based_prefix(input, 0x62, 0x42) {
        return r;
    }
    let end = run_end(input, 2, ByteClass::Binary);
    if end == 2 && input.len() > 2 {
        let rest = slice_subrange(input, 2, input.len());
        assert(rest@ =~= input@.skip(2));
        return ParseResult::Error(ParseError::Position(ErrorKind::IsA, rest));
    }
    convert_run(input, 2, ByteClass::Binary, 2)
}

/// Recognizes an octal integer such as `052`.
pub fn octal<'a>(input: &'a [u8]) -> (r: ParseResult<'a, u64>)
    ensures
        r@ == octal_result(input@),
{
    if input.len() == 0 {
        return ParseResult::Incomplete(Needed::Size(1));
    }
    if input[0] != 0x30 {
        return ParseResult::Error(ParseError::Position(ErrorKind::Tag, input));
    }
    let end = run_end(input, 1, ByteClass::Octal);
    if end == 1 {
        let rest = slice_subrange(input, 1, input.len());
        assert(rest@ =~= input@.skip(1));
        return ParseResult::Error(ParseError::Position(ErrorKind::OctDigit, rest));
    }
    convert_run(input, 1, ByteClass::Octal, 8)
}

/// Recognizes a hexadecimal integer such as `0x2a`.
pub fn hexadecimal<'a>(input: &'a [u8]) -> (r: ParseResult<'a, u64>)
    ensures
        r@ == hexadecimal_result(input@),
{
    if let Some(r) = check_based_prefix(input, 0x78, 0x58) {
        return r;
    }
    let end = run_end(input, 2, ByteClass::Hexadecimal);
    if end == 2 {
        let rest = slice_subrange(input, 2, input.len());
        assert(rest@ =~= input@.skip(2));
        return ParseResult::Error(ParseError::Position(ErrorKind::HexDigit, rest));
    }
    convert_run(input, 2, ByteClass::Hexadecimal, 16)
}

/// Recognizes a decimal integer such as `42`: no leading zero.
pub fn decimal<'a>(input: &'a [u8]) -> (r: ParseResult<'a, u64>)
    ensures
        r@ == decimal_result(input@),
{
    if input.len() > 0 && 0x31 <= input[0] && input[0] <= 0x39 {
        convert_run(input, 0, ByteClass::Decimal, 10)
    } else {
        ParseResult::Error(ParseError::Code(ErrorKind::RegexpFind))
    }
}

/// Executable [`exponent_len`] of `input@.skip(start)`, as an end index.
fn exponent_end(input: &[u8], start: usize) -> (end: usize)
    requires
        start <= input@.len(),
    ensures
        end == start + exponent_len(input@.skip(start as int)),
        end <= input@.len(),
{
    let ghost s = input@.skip(start as int);
    if start < input.len() && (input[start] == 0x65 || input[start] == 0x45) {
        let sign: usize = if start + 1 < input.len() && (input[start + 1] == 0x2b || input[start
            + 1] == 0x2d) {
            1
        } else {
            0
        };
        let digits_end = run_end(input, start + 1 + sign, ByteClass::Decimal);
        assert(s.skip(1 + sign as int) =~= input@.skip(start + 1 + sign));
        if digits_end > start + 1 + sign {
            digits_end
        } else {
            start
        }
    } else {
        start
    }
}

/// Recognizes the lexeme of an exponential number such as `123.456e+78`; its value is read
/// from the lexeme by a floating-point conversion.
pub fn exponential_literal<'a>(input: &'a [u8]) -> (r: ParseResult<'a, &'a [u8]>)
    ensures
        r@ == exponential_literal_result(input@),
{
    let d = run_end(input, 0, ByteClass::Decimal);
    assert(input@.skip(0) =~= input@);
    if d < input.len() && input[d] == 0x2e {
        let f = run_end(input, d + 1, ByteClass::Decimal);
        let m = if f > d + 1 {
            f
        } else if d > 0 {
            d + 1
        } else {
            return ParseResult::Error(ParseError::Code(ErrorKind::RegexpFind));
        };
        let end = exponent_end(input, m);
        let lexeme = slice_subrange(input, 0, end);
        let rest = slice_subrange(input, end, input.len());
        assert(lexeme@ =~= input@.take(end as int));
        assert(rest@ =~= input@.skip(end as int));
        ParseResult::Done(rest, lexeme)
    } else {
        ParseResult::Error(ParseError::Code(ErrorKind::RegexpFind))
    }
}

} // verus!
