use tagua_literals::Needed::Size;
use tagua_literals::ParseError::{Code, Position};
use tagua_literals::ParseResult::{Done, Error, Incomplete};
use tagua_literals::{
    ErrorKind, StringError, binary, boolean, decimal, exponential_literal, hexadecimal, identifier,
    nowdoc_stays_in_input, null, octal, string, string_nowdoc, string_single_quoted,
};

fn custom(e: StringError) -> ErrorKind {
    ErrorKind::Custom(e.code())
}

#[test]
fn keyword_prefixes_wait_for_more_input() {
    assert_eq!(null(b""), Incomplete(Size(4)));
    assert_eq!(null(b"nu"), Incomplete(Size(4)));
    assert_eq!(boolean(b"t"), Incomplete(Size(4)));
    assert_eq!(boolean(b"fa"), Incomplete(Size(5)));
}

#[test]
fn keyword_mismatches() {
    assert_eq!(null(b"nx"), Error(Position(ErrorKind::Tag, &b"nx"[..])));
    assert_eq!(null(b"nullx"), Done(&b"x"[..], None));
    assert_eq!(boolean(b"xyz"), Error(Position(ErrorKind::Alt, &b"xyz"[..])));
    assert_eq!(boolean(b"trueish"), Done(&b"ish"[..], true));
}

#[test]
fn binary_edges() {
    assert_eq!(binary(b""), Incomplete(Size(1)));
    assert_eq!(binary(b"0"), Incomplete(Size(2)));
    assert_eq!(binary(b"1"), Error(Position(ErrorKind::Tag, &b"1"[..])));
    assert_eq!(binary(b"0x1"), Error(Position(ErrorKind::Alt, &b"x1"[..])));
    assert_eq!(binary(b"0b2"), Error(Position(ErrorKind::IsA, &b"2"[..])));
    assert_eq!(binary(b"0b1012"), Done(&b"2"[..], 5u64));
}

#[test]
fn binary_overflow() {
    let mut max = b"0b".to_vec();
    max.extend(std::iter::repeat(b'1').take(64));
    assert_eq!(binary(&max), Done(&b""[..], u64::MAX));
    let mut over = max.clone();
    over.push(b'0');
    assert_eq!(binary(&over), Error(Position(ErrorKind::MapRes, &over[..])));
}

#[test]
fn octal_edges() {
    assert_eq!(octal(b""), Incomplete(Size(1)));
    assert_eq!(octal(b"0"), Error(Position(ErrorKind::OctDigit, &b""[..])));
    assert_eq!(octal(b"09"), Error(Position(ErrorKind::OctDigit, &b"9"[..])));
    assert_eq!(octal(b"0777;"), Done(&b";"[..], 511u64));
    assert_eq!(octal(b"01777777777777777777777"), Done(&b""[..], u64::MAX));
    let over = b"02000000000000000000000";
    assert_eq!(octal(over), Error(Position(ErrorKind::MapRes, &over[..])));
}

#[test]
fn hexadecimal_edges() {
    assert_eq!(hexadecimal(b"0"), Incomplete(Size(2)));
    assert_eq!(hexadecimal(b"0xffffffffffffffff"), Done(&b""[..], u64::MAX));
    let over = b"0x10000000000000000";
    assert_eq!(hexadecimal(over), Error(Position(ErrorKind::MapRes, &over[..])));
    assert_eq!(hexadecimal(b"0XaBcDeFg"), Done(&b"g"[..], 0xabcdefu64));
}

#[test]
fn decimal_edges() {
    assert_eq!(decimal(b"18446744073709551615"), Done(&b""[..], u64::MAX));
    let over = b"18446744073709551616";
    assert_eq!(decimal(over), Error(Position(ErrorKind::MapRes, &over[..])));
    assert_eq!(decimal(b"0"), Error(Code(ErrorKind::RegexpFind)));
    assert_eq!(decimal(b""), Error(Code(ErrorKind::RegexpFind)));
    assert_eq!(decimal(b"10"), Done(&b""[..], 10u64));
}

#[test]
fn exponential_lexemes() {
    assert_eq!(exponential_literal(b"1e5"), Error(Code(ErrorKind::RegexpFind)));
    assert_eq!(exponential_literal(b"1.5E-"), Done(&b"E-"[..], &b"1.5"[..]));
    assert_eq!(exponential_literal(b".5e+3x"), Done(&b"x"[..], &b".5e+3"[..]));
    assert_eq!(exponential_literal(b"12.e"), Done(&b"e"[..], &b"12."[..]));
    assert_eq!(exponential_literal(b"12.34.5"), Done(&b".5"[..], &b"12.34"[..]));
}

#[test]
fn identifier_edges() {
    assert_eq!(identifier(b"9abc"), Error(Code(ErrorKind::RegexpFind)));
    assert_eq!(identifier(b""), Error(Code(ErrorKind::RegexpFind)));
    assert_eq!(identifier(b"a b"), Done(&b" b"[..], &b"a"[..]));
    assert_eq!(identifier(b"\x7fz9-"), Done(&b"-"[..], &b"\x7fz9"[..]));
}

#[test]
fn string_error_codes() {
    assert_eq!(StringError::TooShort.code(), 0);
    assert_eq!(StringError::InvalidOpeningCharacter.code(), 1);
    assert_eq!(StringError::InvalidClosingCharacter.code(), 2);
    assert_eq!(StringError::InvalidEncoding.code(), 3);
}

#[test]
fn quoted_string_encoding() {
    assert_eq!(string_single_quoted(b"'\xc3\xa9t\xc3\xa9'"), Done(&b""[..], String::from("\u{e9}t\u{e9}")));
    assert_eq!(
        string_single_quoted(b"'a\xffb'"),
        Error(Code(custom(StringError::InvalidEncoding)))
    );
    assert_eq!(
        string_single_quoted(b"'a\xff\\'b'"),
        Error(Code(custom(StringError::InvalidEncoding)))
    );
    assert_eq!(string(b"'a\xffb'"), Error(Position(ErrorKind::Alt, &b"'a\xffb'"[..])));
}

#[test]
fn quoted_string_edges() {
    assert_eq!(
        string_single_quoted(b"b\"x\""),
        Error(Code(custom(StringError::InvalidOpeningCharacter)))
    );
    assert_eq!(string_single_quoted(b"'a\\\"b' rest"), Done(&b" rest"[..], String::from("a\\\"b")));
    assert_eq!(string_single_quoted(b"\"a\\\"b\""), Done(&b""[..], String::from("a\"b")));
    assert_eq!(string(b"\"x"), Error(Code(custom(StringError::InvalidClosingCharacter))));
}

#[test]
fn quoted_round_trip_example() {
    // The content `it's \ ok`, escaped and quoted, reads back unchanged.
    assert_eq!(string(b"'it\\'s \\\\ ok';"), Done(&b";"[..], String::from("it's \\ ok")));
    assert_eq!(string(b"b'it\\'s \\\\ ok';"), Done(&b";"[..], String::from("it's \\ ok")));
}

#[test]
fn nowdoc_edges() {
    assert_eq!(string_nowdoc(b"<<<'A'\nx\nA;\nrest"), Done(&b"rest"[..], String::from("x")));
    assert_eq!(string_nowdoc(b"<<<'A'\nA\nA\n"), Done(&b""[..], String::from("A")));
    assert_eq!(
        string_nowdoc(b"<<<'FOO'\n\xff\nFOO\n"),
        Error(Code(custom(StringError::InvalidEncoding)))
    );
    assert_eq!(
        string(b"<<<'FOO'\n\xff\nFOO\n"),
        Error(Position(ErrorKind::Alt, &b"<<<'FOO'\n\xff\nFOO\n"[..]))
    );
    assert_eq!(
        string_nowdoc(b"<<<'FOO'\nno quote at all"),
        Error(Code(custom(StringError::InvalidClosingCharacter)))
    );
    assert_eq!(
        string_nowdoc(b"<<<FOO\nbar\nFOO\n"),
        Error(Code(custom(StringError::InvalidOpeningCharacter)))
    );
}

#[test]
fn nowdoc_round_trip_example() {
    // Lines of the body that merely contain the name do not close the nowdoc.
    assert_eq!(
        string(b"<<<'END'\nan END here\n END\nEND;\n;"),
        Done(&b";"[..], String::from("an END here\n END"))
    );
}

#[test]
fn nowdoc_bounds() {
    assert!(!nowdoc_stays_in_input(b"<<<'AAAA'"));
    assert!(!nowdoc_stays_in_input(b"<<<'A'\nxx\nA"));
    assert!(!nowdoc_stays_in_input(b"<<<'A'\nxx\nA;"));
    assert!(nowdoc_stays_in_input(b"<<<'A'\nxx\nA;\n"));
    assert!(nowdoc_stays_in_input(b"<<<'A'xx\nA"));
    assert!(nowdoc_stays_in_input(b"'foobar'"));
    assert!(nowdoc_stays_in_input(b"<<<'A'\nxx\nAB"));
}

#[test]
fn numbers_round_trip_examples() {
    for &v in &[0u64, 1, 7, 8, 42, 255, 1 << 40, u64::MAX - 1, u64::MAX] {
        let text = format!("0b{:b};", v);
        assert_eq!(binary(text.as_bytes()), Done(&b";"[..], v));
        let text = format!("0{:o};", v);
        assert_eq!(octal(text.as_bytes()), Done(&b";"[..], v));
        let text = format!("0x{:x};", v);
        assert_eq!(hexadecimal(text.as_bytes()), Done(&b";"[..], v));
        if v != 0 {
            let text = format!("{};", v);
            assert_eq!(decimal(text.as_bytes()), Done(&b";"[..], v));
        }
    }
}

#[test]
fn parsers_make_progress() {
    assert_eq!(null(b"null;"), Done(&b";"[..], None));
    assert_eq!(boolean(b"true!"), Done(&b"!"[..], true));
    assert_eq!(binary(b"0b1 "), Done(&b" "[..], 1u64));
    let input = b"7.5e3x";
    match exponential_literal(input) {
        Done(rest, lexeme) => {
            assert!(rest.len() < input.len());
            assert_eq!([lexeme, rest].concat(), input.to_vec());
        }
        other => panic!("unexpected {:?}", other),
    }
    assert_eq!(string(b"'a'b"), Done(&b"b"[..], String::from("a")));
    let input = b"x1 y";
    match identifier(input) {
        Done(rest, name) => {
            assert!(rest.len() < input.len());
            assert_eq!([name, rest].concat(), input.to_vec());
        }
        other => panic!("unexpected {:?}", other),
    }
}

#[test]
fn nowdoc_round_trip_wider_examples() {
    assert_eq!(string_nowdoc(b"<<<'A\nB'\nx\nA\nB\n"), Done(&b""[..], String::from("x")));
    assert_eq!(string_nowdoc(b"<<<''\n\n\n;"), Done(&b";"[..], String::from("")));
    assert_eq!(
        string(b"<<<'END'\na\nENDING\nEND\n"),
        Done(&b""[..], String::from("a\nENDING"))
    );
}

#[test]
fn quoted_string_closes_after_even_backslash_run() {
    assert_eq!(string_single_quoted(b"'x\\\\\\'y'z"), Done(&b"z"[..], String::from("x\\'y")));
    assert_eq!(string_single_quoted(b"'x\\\\'y'z"), Done(&b"y'z"[..], String::from("x\\")));
}
