use tagua_literals::ParseError::{Code, Position};
use tagua_literals::ParseResult::{self, Done, Error};
use tagua_literals::{
    ErrorKind, StringError, binary, boolean, decimal, exponential_literal, hexadecimal, identifier,
    null, octal, string, string_nowdoc, string_single_quoted,
};

/// An exponential number: its lexeme, read as a double.
fn exponential(input: &[u8]) -> ParseResult<'_, f64> {
    match exponential_literal(input) {
        Done(rest, lexeme) => match std::str::from_utf8(lexeme).ok().and_then(|s| s.parse::<f64>().ok()) {
            Some(value) => Done(rest, value),
            None => Error(Position(ErrorKind::MapRes, input)),
        },
        Error(e) => Error(e),
        ParseResult::Incomplete(n) => ParseResult::Incomplete(n),
    }
}

#[test]
fn case_null() {
    assert_eq!(null(b"null"), Done(&b""[..], None));
}

#[test]
fn case_boolean_true() {
    assert_eq!(boolean(b"true"), Done(&b""[..], true));
}

#[test]
fn case_boolean_false() {
    assert_eq!(boolean(b"false"), Done(&b""[..], false));
}

#[test]
fn case_binary_lowercase_b() {
    assert_eq!(binary(b"0b101010"), Done(&b""[..], 42u64));
}

#[test]
fn case_binary_uppercase_b() {
    assert_eq!(binary(b"0B101010"), Done(&b""[..], 42u64));
}

#[test]
fn case_invalid_binary_no_number() {
    assert_eq!(binary(b"0b"), Error(Position(ErrorKind::MapRes, &b"0b"[..])));
}

#[test]
fn case_octal() {
    assert_eq!(octal(b"052"), Done(&b""[..], 42u64));
}

#[test]
fn case_invalid_octal_not_starting_by_zero() {
    assert_eq!(octal(b"7"), Error(Position(ErrorKind::Tag, &b"7"[..])));
}

#[test]
fn case_invalid_octal_not_in_base() {
    assert_eq!(octal(b"8"), Error(Position(ErrorKind::Tag, &b"8"[..])));
}

#[test]
fn case_decimal_one_digit() {
    assert_eq!(decimal(b"7"), Done(&b""[..], 7u64));
}

#[test]
fn case_decimal_many_digits() {
    assert_eq!(decimal(b"42"), Done(&b""[..], 42u64));
}

#[test]
fn case_decimal_plus() {
    assert_eq!(decimal(b"42+"), Done(&b"+"[..], 42u64));
}

#[test]
fn case_hexadecimal_lowercase_x() {
    assert_eq!(hexadecimal(b"0x2a"), Done(&b""[..], 42u64));
}

#[test]
fn case_hexadecimal_uppercase_x() {
    assert_eq!(hexadecimal(b"0X2a"), Done(&b""[..], 42u64));
}

#[test]
fn case_hexadecimal_uppercase_alpha() {
    assert_eq!(hexadecimal(b"0x2A"), Done(&b""[..], 42u64));
}

#[test]
fn case_invalid_hexadecimal_no_number() {
    assert_eq!(hexadecimal(b"0x"), Error(Position(ErrorKind::HexDigit, &b""[..])));
}

#[test]
fn case_invalid_hexadecimal_not_in_base() {
    assert_eq!(hexadecimal(b"0xg"), Error(Position(ErrorKind::HexDigit, &b"g"[..])));
}

#[test]
fn case_exponential() {
    assert_eq!(exponential(b"123.456e+78"), Done(&b""[..], 123.456e78f64));
}

#[test]
fn case_exponential_only_with_rational_and_fractional_part() {
    assert_eq!(exponential(b"123.456"), Done(&b""[..], 123.456f64));
}

#[test]
fn case_exponential_only_with_rational_part() {
    assert_eq!(exponential(b"123."), Done(&b""[..], 123.0f64));
}

#[test]
fn case_exponential_only_with_fractional_part() {
    assert_eq!(exponential(b".456"), Done(&b""[..], 0.456f64));
}

#[test]
fn case_exponential_only_with_rational_and_exponent_part_with_lowercase_e() {
    assert_eq!(exponential(b"123.e78"), Done(&b""[..], 123e78f64));
}

#[test]
fn case_exponential_only_with_rational_and_exponent_part_with_uppercase_e() {
    assert_eq!(exponential(b"123.E78"), Done(&b""[..], 123e78f64));
}

#[test]
fn case_exponential_only_with_rational_and_unsigned_exponent_part() {
    assert_eq!(exponential(b"123.e78"), Done(&b""[..], 123e78f64));
}

#[test]
fn case_exponential_only_with_rational_and_positive_exponent_part() {
    assert_eq!(exponential(b"123.e+78"), Done(&b""[..], 123e78f64));
}

#[test]
fn case_exponential_only_with_rational_and_negative_exponent_part() {
    assert_eq!(exponential(b"123.e-78"), Done(&b""[..], 123e-78f64));
}

#[test]
fn case_exponential_only_with_rational_and_negative_zero_exponent_part() {
    assert_eq!(exponential(b"123.e-0"), Done(&b""[..], 123f64));
}

#[test]
fn case_exponential_missing_exponent_part() {
    assert_eq!(exponential(b".7e"), Done(&b"e"[..], 0.7f64));
}

#[test]
fn case_invalid_exponential_only_the_dot() {
    assert_eq!(exponential(b"."), Error(Code(ErrorKind::RegexpFind)));
}

#[test]
fn case_string_single_quoted() {
    let input  = b"'foobar'";
    let output = Done(&b""[..], String::from("foobar"));

    assert_eq!(string_single_quoted(input), output);
    assert_eq!(string(input), output);
}

#[test]
fn case_string_double_quoted() {
    assert_eq!(string(b"\"foobar\""), Done(&b""[..], String::from("foobar")));
}

#[test]
fn case_string_double_quoted_single_quite() {
    assert_eq!(string(b"\"foo'bar\""), Done(&b""[..], String::from("foo'bar")));
}

#[test]
fn case_string_double_quoted_escaped_quote() {
    assert_eq!(string(b"\"foo\\\"bar\""), Done(&b""[..], String::from("foo\"bar")));
}

#[test]
fn case_string_single_quoted_escaped_quote() {
    let input  = b"'foo\\'bar'";
    let output = Done(&b""[..], String::from("foo'bar"));

    assert_eq!(string_single_quoted(input), output);
    assert_eq!(string(input), output);
}

#[test]
fn case_string_single_quoted_escaped_backslash() {
    let input  = b"'foo\\\\bar'";
    let output = Done(&b""[..], String::from("foo\\bar"));

    assert_eq!(string_single_quoted(input), output);
    assert_eq!(string(input), output);
}

#[test]
fn case_string_single_quoted_escaped_any() {
    let input  = b"'foo\\nbar'";
    let output = Done(&b""[..], String::from("foo\\nbar"));

    assert_eq!(string_single_quoted(input), output);
    assert_eq!(string(input), output);
}

#[test]
fn case_string_single_quoted_escaped_many() {
    let input  = b"'\\'f\\oo\\\\bar\\\\'";
    let output = Done(&b""[..], String::from("'f\\oo\\bar\\"));

    assert_eq!(string_single_quoted(input), output);
    assert_eq!(string(input), output);
}

#[test]
fn case_string_single_quoted_empty() {
    let input  = b"''";
    let output = Done(&b""[..], String::new());

    assert_eq!(string_single_quoted(input), output);
    assert_eq!(string(input), output);
}

#[test]
fn case_string_binary_single_quoted() {
    let input  = b"b'foobar'";
    let output = Done(&b""[..], String::from("foobar"));

    assert_eq!(string_single_quoted(input), output);
    assert_eq!(string(input), output);
}

#[test]
fn case_string_binary_single_quoted_escaped_many() {
    let input  = b"b'\\'f\\oo\\\\bar'";
    let output = Done(&b""[..], String::from("'f\\oo\\bar"));

    assert_eq!(string_single_quoted(input), output);
    assert_eq!(string(input), output);
}

#[test]
fn case_invalid_string_single_quoted_too_short() {
    let input = b"'";

    assert_eq!(string_single_quoted(input), Error(Code(ErrorKind::Custom(StringError::TooShort as u32))));
    assert_eq!(string(input), Error(Position(ErrorKind::Alt, &input[..])));
}

#[test]
fn case_invalid_string_double_quoted_too_short() {
    assert_eq!(string(b"\""), Error(Code(ErrorKind::Custom(StringError::TooShort as u32))));
}

#[test]
fn case_invalid_string_single_quoted_opening_character() {
    let input = b"foobar'";

    assert_eq!(string_single_quoted(input), Error(Code(ErrorKind::Custom(StringError::InvalidOpeningCharacter as u32))));
    assert_eq!(string(input), Error(Position(ErrorKind::Alt, &input[..])));
}

#[test]
fn case_invalid_string_single_quoted_closing_character() {
    let input = b"'foobar";

    assert_eq!(string_single_quoted(input), Error(Code(ErrorKind::Custom(StringError::InvalidClosingCharacter as u32))));
    assert_eq!(string(input), Error(Position(ErrorKind::Alt, &input[..])));
}

#[test]
fn case_invalid_string_double_quoted_closing_character() {
    assert_eq!(string(b"\"foobar'"), Error(Code(ErrorKind::Custom(StringError::InvalidClosingCharacter as u32))));
}

#[test]
fn case_invalid_string_single_quoted_closing_character_is_a_backslash() {
    let input = b"'foobar\\";

    assert_eq!(string_single_quoted(input), Error(Code(ErrorKind::Custom(StringError::InvalidClosingCharacter as u32))));
    assert_eq!(string(input), Error(Position(ErrorKind::Alt, &input[..])));
}

#[test]
fn case_invalid_string_binary_single_quoted_too_short() {
    let input = b"b'";

    assert_eq!(string_single_quoted(input), Error(Code(ErrorKind::Custom(StringError::TooShort as u32))));
    assert_eq!(string(input), Error(Position(ErrorKind::Alt, &input[..])));
}

#[test]
fn case_invalid_string_binary_single_quoted_opening_character() {
    let input = b"bb'";

    assert_eq!(string_single_quoted(input), Error(Code(ErrorKind::Custom(StringError::InvalidOpeningCharacter as u32))));
    assert_eq!(string(input), Error(Position(ErrorKind::Alt, &input[..])));
}

#[test]
fn case_string_nowdoc() {
    let input  = b"<<<'FOO'\nhello \n  world \nFOO;\n";
    let output = Done(&b""[..], String::from("hello \n  world "));

    assert_eq!(string_nowdoc(input), output);
    assert_eq!(string(input), output);
}

#[test]
fn case_string_nowdoc_without_semi_colon() {
    let input  = b"<<<'FOO'\nhello \n  world \nFOO\n";
    let output = Done(&b""[..], String::from("hello \n  world "));

    assert_eq!(string_nowdoc(input), output);
    assert_eq!(string(input), output);
}

#[test]
fn case_string_nowdoc_empty() {
    let input  = b"<<<'FOO'\n\nFOO\n";
    let output = Done(&b""[..], String::from(""));

    assert_eq!(string_nowdoc(input), output);
    assert_eq!(string(input), output);
}

#[test]
fn case_invalid_string_nowdoc_too_short() {
    let input = b"<<<'A'\nA";

    assert_eq!(string_nowdoc(input), Error(Code(ErrorKind::Custom(StringError::TooShort as u32))));
    assert_eq!(string(input), Error(Position(ErrorKind::Alt, &input[..])));
}

#[test]
fn case_invalid_string_nowdoc_opening_character_missing_first_quote() {
    let input = b"<<<FOO'\nhello \n  world \nFOO\n";

    assert_eq!(string_nowdoc(input), Error(Code(ErrorKind::Custom(StringError::InvalidOpeningCharacter as u32))));
    assert_eq!(string(input), Error(Position(ErrorKind::Alt, &input[..])));
}

#[test]
fn case_invalid_string_nowdoc_opening_character_missing_second_quote() {
    let input = b"<<<'FOO\nhello \n  world \nFOO\n";

    assert_eq!(string_nowdoc(input), Error(Code(ErrorKind::Custom(StringError::InvalidOpeningCharacter as u32))));
    assert_eq!(string(input), Error(Position(ErrorKind::Alt, &input[..])));
}

#[test]
fn case_invalid_string_nowdoc_opening_character_missing_newline() {
    let input = b"<<<'FOO'hello \n  world \nFOO\n";

    assert_eq!(string_nowdoc(input), Error(Code(ErrorKind::Custom(StringError::InvalidOpeningCharacter as u32))));
    assert_eq!(string(input), Error(Position(ErrorKind::Alt, &input[..])));
}

#[test]
fn case_invalid_string_nowdoc_closing_character() {
    let input = b"<<<'FOO'\nhello \n  world \nFO;\n";

    assert_eq!(string_nowdoc(input), Error(Code(ErrorKind::Custom(StringError::InvalidClosingCharacter as u32))));
    assert_eq!(string(input), Error(Position(ErrorKind::Alt, &input[..])));
}

#[test]
fn case_identifier() {
    assert_eq!(identifier(b"_fooBar42"), Done(&b""[..], &b"_fooBar42"[..]));
}

#[test]
fn case_identifier_shortest() {
    assert_eq!(identifier(b"x"), Done(&b""[..], &b"x"[..]));
}

#[test]
fn case_identifier_only_head() {
    assert_eq!(identifier(b"aB_\x80"), Done(&b""[..], &b"aB_\x80"[..]));
}

#[test]
fn case_identifier_head_and_tail() {
    assert_eq!(identifier(b"aB_\x80aB7\xff"), Done(&b""[..], &b"aB_\x80aB7\xff"[..]));
}

#[test]
fn case_identifier_copyright() {
    // © = 0xa9
    assert_eq!(identifier(b"\xa9"), Done(&b""[..], &b"\xa9"[..]));
}

#[test]
fn case_identifier_non_breaking_space() {
    //   = 0xa0
    assert_eq!(identifier(b"\xa0"), Done(&b""[..], &b"\xa0"[..]));
}

#[test]
fn case_identifier_invalid() {
    assert_eq!(identifier(b"0x"), Error(Code(ErrorKind::RegexpFind)));
}
