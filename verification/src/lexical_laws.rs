//! The lexical grammar of each literal, stated by byte ranges and word bytes of its own: each
//! law says which inputs a recognizer accepts, how much it consumes and what value it gives.
use vstd::prelude::*;
use crate::identifier::identifier_result;
use crate::lexeme::{
    ByteClass, digit_value, digits_to_u64, digits_value, lemma_run_unique, run, tag_result,
};
use crate::numbers::{
    binary_result, boolean_result, decimal_result, digits_after, exponent_len,
    exponential_literal_result, hexadecimal_result, mantissa_len, null_result, octal_result,
};
use crate::result::{ErrorKind, Needed, SpecError, SpecResult};

verus! {

/// `a-z`, `A-Z`, `_` and `0x7f..=0xff`: the bytes that may start an identifier.
pub open spec fn identifier_start_byte(b: u8) -> bool {
    (0x61 <= b <= 0x7a) || (0x41 <= b <= 0x5a) || b == 0x5f || (0x7f <= b <= 0xff)
}

/// The bytes that may continue an identifier: those that may start one, and `0-9`.
pub open spec fn identifier_byte(b: u8) -> bool {
    identifier_start_byte(b) || (0x30 <= b <= 0x39)
}

/// A byte `0-9`.
pub open spec fn decimal_digit(b: u8) -> bool {
    0x30 <= b <= 0x39
}

/// The keywords are tags: `null`, `true` and `false` are recognized before any rest and leave
/// it, with the values `None`, `true` and `false`.
pub proof fn lemma_keywords_are_tags(rest: Seq<u8>)
    ensures
        null_result(seq![0x6eu8, 0x75, 0x6c, 0x6c] + rest) == SpecResult::Done(rest, None::<()>),
        boolean_result(seq![0x74u8, 0x72, 0x75, 0x65] + rest) == SpecResult::Done(rest, true),
        boolean_result(seq![0x66u8, 0x61, 0x6c, 0x73, 0x65] + rest) == SpecResult::Done(rest, false),
{
    let n = seq![0x6eu8, 0x75, 0x6c, 0x6c];
    let t = seq![0x74u8, 0x72, 0x75, 0x65];
    let f = seq![0x66u8, 0x61, 0x6c, 0x73, 0x65];
    assert((n + rest).take(4) =~= n);
    assert((n + rest).skip(4) =~= rest);
    assert(n.take(4) =~= n);
    assert((t + rest).take(4) =~= t);
    assert((t + rest).skip(4) =~= rest);
    assert(t.take(4) =~= t);
    assert((f + rest).take(5) =~= f);
    assert((f + rest).skip(5) =~= rest);
    assert(f.take(5) =~= f);
    assert((f + rest).take(4) =~= seq![0x66u8, 0x61, 0x6c, 0x73]);
    assert(t.take(4) != seq![0x66u8, 0x61, 0x6c, 0x73]) by {
        assert(t.take(4)[0] != seq![0x66u8, 0x61, 0x6c, 0x73][0]);
    }
    assert(tag_result(f + rest, t) is Error);
}

/// A proper prefix of a keyword waits for the whole keyword: `null` and `true` need four
/// bytes and `false` five; and an input whose first byte starts no keyword is refused.
pub proof fn lemma_keyword_prefixes(k: int, input: Seq<u8>)
    requires
        0 <= k < 4,
    ensures
        null_result(seq![0x6eu8, 0x75, 0x6c, 0x6c].take(k)) == SpecResult::<Option<()>>::Incomplete(
            Needed::Size(4),
        ),
        boolean_result(seq![0x74u8, 0x72, 0x75, 0x65].take(k)) == SpecResult::<bool>::Incomplete(
            Needed::Size(4),
        ),
        k >= 1 ==> boolean_result(seq![0x66u8, 0x61, 0x6c, 0x73, 0x65].take(k))
            == SpecResult::<bool>::Incomplete(Needed::Size(5)),
        boolean_result(seq![0x66u8, 0x61, 0x6c, 0x73]) == SpecResult::<bool>::Incomplete(
            Needed::Size(5),
        ),
        (input.len() > 0 && input[0] != 0x6e) ==> null_result(input)
            == SpecResult::<Option<()>>::Error(SpecError::Position(ErrorKind::Tag, input)),
        (input.len() > 0 && input[0] != 0x74 && input[0] != 0x66) ==> boolean_result(input)
            == SpecResult::<bool>::Error(SpecError::Position(ErrorKind::Alt, input)),
{
    let n = seq![0x6eu8, 0x75, 0x6c, 0x6c];
    let t = seq![0x74u8, 0x72, 0x75, 0x65];
    let f = seq![0x66u8, 0x61, 0x6c, 0x73, 0x65];
    assert(n.take(k).take(k) =~= n.take(k));
    assert(t.take(k).take(k) =~= t.take(k));
    assert(f.take(k).take(k) =~= f.take(k));
    if k >= 1 {
        assert(f.take(k).take(1) != t.take(1)) by {
            assert(f.take(k).take(1)[0] != t.take(1)[0]);
        }
        assert(f.take(k).take(k) != t.take(k)) by {
            assert(f.take(k).take(k)[0] != t.take(k)[0]);
        }
    }
    let f4 = seq![0x66u8, 0x61, 0x6c, 0x73];
    assert(f4.take(4) != t.take(4)) by {
        assert(f4.take(4)[0] != t.take(4)[0]);
    }
    assert(f4.take(4) =~= f.take(4));
    if input.len() > 0 {
        let m4 = if input.len() < 4 { input.len() as int } else { 4 };
        let m5 = if input.len() < 5 { input.len() as int } else { 5 };
        if input[0] != 0x6e {
            assert(input.take(m4)[0] != n.take(m4)[0]);
        }
        if input[0] != 0x74 && input[0] != 0x66 {
            assert(input.take(m4)[0] != t.take(m4)[0]);
            assert(input.take(m5)[0] != f.take(m5)[0]);
        }
    }
}

/// Identifiers are `[a-zA-Z_\x7f-\xff][a-zA-Z0-9_\x7f-\xff]*`: an input whose first byte may
/// start an identifier, followed by identifier bytes up to index `k` and then a byte that is
/// none or the end, is an identifier of `k` bytes.
pub proof fn lemma_identifier_is_longest_match(input: Seq<u8>, k: int)
    requires
        1 <= k <= input.len(),
        identifier_start_byte(input[0]),
        forall|i: int| 1 <= i < k ==> identifier_byte(#[trigger] input[i]),
        k < input.len() ==> !identifier_byte(input[k]),
    ensures
        identifier_result(input) == SpecResult::Done(input.skip(k), input.take(k)),
{
    let s = input.skip(1);
    assert forall|j: int| 0 <= j < k - 1 implies ByteClass::IdentifierTail.contains(#[trigger] s[j]) by {
        assert(s[j] == input[j + 1]);
        assert(identifier_byte(input[j + 1]));
    }
    if k - 1 < s.len() {
        assert(s[k - 1] == input[k]);
    }
    lemma_run_unique(s, ByteClass::IdentifierTail, k - 1);
}

/// An input that is empty or whose first byte may not start an identifier is no identifier.
pub proof fn lemma_identifier_rejects(input: Seq<u8>)
    requires
        input.len() == 0 || !identifier_start_byte(input[0]),
    ensures
        identifier_result(input) == SpecResult::<Seq<u8>>::Error(SpecError::Code(ErrorKind::RegexpFind)),
{
}

/// A byte `0-9`, `a-f` or `A-F`.
pub open spec fn hexadecimal_digit(b: u8) -> bool {
    decimal_digit(b) || (0x61 <= b <= 0x66) || (0x41 <= b <= 0x46)
}

/// A byte `0-7`.
pub open spec fn octal_digit(b: u8) -> bool {
    0x30 <= b <= 0x37
}

/// A byte `0` or `1`.
pub open spec fn binary_digit(b: u8) -> bool {
    b == 0x30 || b == 0x31
}

/// The number a digit byte stands for: `0-9` for 0 to 9, `a-f` and `A-F` for 10 to 15.
pub open spec fn digit_number(b: u8) -> int {
    if 0x30 <= b <= 0x39 {
        b - 0x30
    } else if 0x61 <= b <= 0x66 {
        b - 0x61 + 10
    } else {
        b - 0x41 + 10
    }
}

/// The number a run of digits denotes in base `radix`: the first digit is the most
/// significant.
pub open spec fn numeral(d: Seq<u8>, radix: int) -> int
    decreases d.len(),
{
    if d.len() == 0 {
        0
    } else {
        numeral(d.drop_last(), radix) * radix + digit_number(d.last())
    }
}

/// Zeros in front of a run of digits do not change the number it denotes.
pub proof fn lemma_leading_zero(d: Seq<u8>, radix: int)
    ensures
        numeral(seq![0x30u8] + d, radix) == numeral(d, radix),
    decreases d.len(),
{
    let z = seq![0x30u8] + d;
    if d.len() == 0 {
        assert(z.drop_last() =~= Seq::<u8>::empty());
        assert(numeral(z.drop_last(), radix) == 0);
        assert(digit_number(z.last()) == 0);
    } else {
        assert(z.drop_last() =~= seq![0x30u8] + d.drop_last());
        assert(z.last() == d.last());
        lemma_leading_zero(d.drop_last(), radix);
    }
}

/// The recognizers' digit value agrees with [`numeral`] on runs of hexadecimal digits.
proof fn lemma_numeral_is_digits_value(d: Seq<u8>, radix: int)
    requires
        radix >= 0,
        forall|i: int| 0 <= i < d.len() ==> hexadecimal_digit(#[trigger] d[i]),
    ensures
        digits_value(d, radix as nat) == numeral(d, radix),
    decreases d.len(),
{
    if d.len() > 0 {
        lemma_numeral_is_digits_value(d.drop_last(), radix);
        assert(hexadecimal_digit(d[d.len() - 1]));
        assert(digit_value(d.last()) == digit_number(d.last()));
    }
}

/// `prefix + d + rest`, where `d` is a run of class `c` that `rest` does not continue: the run
/// after the prefix is `d`, with value `numeral(d, radix)`, and the rest follows it.
proof fn lemma_run_after(
    prefix: Seq<u8>,
    d: Seq<u8>,
    rest: Seq<u8>,
    c: ByteClass,
    radix: int,
)
    requires
        2 <= radix <= 16,
        forall|i: int| 0 <= i < d.len() ==> c.contains(#[trigger] d[i]) && hexadecimal_digit(d[i]),
        rest.len() > 0 ==> !c.contains(rest[0]),
    ensures
        ({
            let input = prefix + d + rest;
            &&& input.skip(prefix.len() as int) == d + rest
            &&& run(input.skip(prefix.len() as int), c) == d.len()
            &&& digits_after(input, prefix.len() as int, c) == d
            &&& input.skip((prefix.len() + d.len()) as int) == rest
            &&& digits_to_u64(d, radix as nat) == if d.len() == 0 || numeral(d, radix) > u64::MAX {
                None
            } else {
                Some(numeral(d, radix) as u64)
            }
        }),
{
    let input = prefix + d + rest;
    let t = d + rest;
    assert(input.skip(prefix.len() as int) =~= t);
    assert(input.skip((prefix.len() + d.len()) as int) =~= rest);
    assert forall|j: int| 0 <= j < d.len() implies c.contains(#[trigger] t[j]) by {
        assert(t[j] == d[j]);
    }
    if d.len() < t.len() {
        assert(t[d.len() as int] == rest[0]);
    }
    lemma_run_unique(t, c, d.len() as int);
    assert(t.take(d.len() as int) =~= d);
    lemma_numeral_is_digits_value(d, radix);
}

/// Hexadecimal integers: `0x` or `0X` and any run of hexadecimal digits, leading zeros
/// included, that the rest does not continue, read as the number the run denotes in base 16,
/// or as a conversion error at the input when that number exceeds `u64::MAX`.
pub proof fn lemma_hexadecimal_reads_run(x: u8, d: Seq<u8>, rest: Seq<u8>)
    requires
        x == 0x78 || x == 0x58,
        d.len() >= 1,
        forall|i: int| 0 <= i < d.len() ==> hexadecimal_digit(#[trigger] d[i]),
        rest.len() > 0 ==> !hexadecimal_digit(rest[0]),
    ensures
        ({
            let input = seq![0x30u8, x] + d + rest;
            hexadecimal_result(input) == if numeral(d, 16) <= u64::MAX {
                SpecResult::Done(rest, numeral(d, 16) as u64)
            } else {
                SpecResult::Error(SpecError::Position(ErrorKind::MapRes, input))
            }
        }),
{
    let prefix = seq![0x30u8, x];
    lemma_run_after(prefix, d, rest, ByteClass::Hexadecimal, 16);
    let input = prefix + d + rest;
    assert(input[0] == 0x30 && input[1] == x);
}

/// Binary integers: `0b` or `0B` and any run of binary digits, leading zeros included, that
/// the rest does not continue, read as the number the run denotes in base 2, or as a
/// conversion error at the input when that number exceeds `u64::MAX`.
pub proof fn lemma_binary_reads_run(b: u8, d: Seq<u8>, rest: Seq<u8>)
    requires
        b == 0x62 || b == 0x42,
        d.len() >= 1,
        forall|i: int| 0 <= i < d.len() ==> binary_digit(#[trigger] d[i]),
        rest.len() > 0 ==> !binary_digit(rest[0]),
    ensures
        ({
            let input = seq![0x30u8, b] + d + rest;
            binary_result(input) == if numeral(d, 2) <= u64::MAX {
                SpecResult::Done(rest, numeral(d, 2) as u64)
            } else {
                SpecResult::Error(SpecError::Position(ErrorKind::MapRes, input))
            }
        }),
{
    let prefix = seq![0x30u8, b];
    lemma_run_after(prefix, d, rest, ByteClass::Binary, 2);
    let input = prefix + d + rest;
    assert(input[0] == 0x30 && input[1] == b);
}

/// Octal integers: `0` and any run of octal digits, leading zeros included, that the rest
/// does not continue, read as the number the run denotes in base 8, or as a conversion error
/// at the input when that number exceeds `u64::MAX`.
pub proof fn lemma_octal_reads_run(d: Seq<u8>, rest: Seq<u8>)
    requires
        d.len() >= 1,
        forall|i: int| 0 <= i < d.len() ==> octal_digit(#[trigger] d[i]),
        rest.len() > 0 ==> !octal_digit(rest[0]),
    ensures
        ({
            let input = seq![0x30u8] + d + rest;
            octal_result(input) == if numeral(d, 8) <= u64::MAX {
                SpecResult::Done(rest, numeral(d, 8) as u64)
            } else {
                SpecResult::Error(SpecError::Position(ErrorKind::MapRes, input))
            }
        }),
{
    let prefix = seq![0x30u8];
    lemma_run_after(prefix, d, rest, ByteClass::Octal, 8);
    let input = prefix + d + rest;
    assert(input[0] == 0x30);
}

/// Decimal integers: a run of decimal digits whose first digit is `1-9`, that the rest does
/// not continue, read as the number the run denotes in base 10, or as a conversion error at
/// the input when that number exceeds `u64::MAX`.
pub proof fn lemma_decimal_reads_run(d: Seq<u8>, rest: Seq<u8>)
    requires
        d.len() >= 1,
        0x31 <= d[0] <= 0x39,
        forall|i: int| 0 <= i < d.len() ==> decimal_digit(#[trigger] d[i]),
        rest.len() > 0 ==> !decimal_digit(rest[0]),
    ensures
        ({
            let input = d + rest;
            decimal_result(input) == if numeral(d, 10) <= u64::MAX {
                SpecResult::Done(rest, numeral(d, 10) as u64)
            } else {
                SpecResult::Error(SpecError::Position(ErrorKind::MapRes, input))
            }
        }),
{
    let prefix = Seq::<u8>::empty();
    lemma_run_after(prefix, d, rest, ByteClass::Decimal, 10);
    assert(prefix + d + rest =~= d + rest);
    assert((d + rest)[0] == d[0]);
}

/// Where an integer literal fails before or at its digits: an empty input waits for the `0`,
/// another first byte is a tag error, a lone `0` waits for the base letter (octal: has no
/// digit), a wrong base letter is an alternative error after the `0`, and a missing digit run
/// is reported where the digits should start (for binary at the end of the input: a
/// conversion error at the input). Decimal integers need a first digit `1-9`.
pub proof fn lemma_integer_errors(input: Seq<u8>)
    ensures
        input.len() == 0 ==> binary_result(input) == SpecResult::<u64>::Incomplete(Needed::Size(1))
            && octal_result(input) == SpecResult::<u64>::Incomplete(Needed::Size(1))
            && hexadecimal_result(input) == SpecResult::<u64>::Incomplete(Needed::Size(1)),
        input.len() > 0 && input[0] != 0x30 ==> {
            let e = SpecResult::<u64>::Error(SpecError::Position(ErrorKind::Tag, input));
            binary_result(input) == e && octal_result(input) == e && hexadecimal_result(input) == e
        },
        input == seq![0x30u8] ==> binary_result(input) == SpecResult::<u64>::Incomplete(
            Needed::Size(2),
        ) && hexadecimal_result(input) == SpecResult::<u64>::Incomplete(Needed::Size(2)),
        (input.len() >= 1 && input[0] == 0x30 && (input.len() == 1 || !octal_digit(input[1])))
            ==> octal_result(input) == SpecResult::<u64>::Error(
            SpecError::Position(ErrorKind::OctDigit, input.skip(1)),
        ),
        (input.len() >= 2 && input[0] == 0x30 && input[1] != 0x62 && input[1] != 0x42)
            ==> binary_result(input) == SpecResult::<u64>::Error(
            SpecError::Position(ErrorKind::Alt, input.skip(1)),
        ),
        (input.len() >= 2 && input[0] == 0x30 && input[1] != 0x78 && input[1] != 0x58)
            ==> hexadecimal_result(input) == SpecResult::<u64>::Error(
            SpecError::Position(ErrorKind::Alt, input.skip(1)),
        ),
        (input.len() == 2 && input[0] == 0x30 && (input[1] == 0x62 || input[1] == 0x42))
            ==> binary_result(input) == SpecResult::<u64>::Error(
            SpecError::Position(ErrorKind::MapRes, input),
        ),
        (input.len() > 2 && input[0] == 0x30 && (input[1] == 0x62 || input[1] == 0x42)
            && !binary_digit(input[2])) ==> binary_result(input) == SpecResult::<u64>::Error(
            SpecError::Position(ErrorKind::IsA, input.skip(2)),
        ),
        (input.len() >= 2 && input[0] == 0x30 && (input[1] == 0x78 || input[1] == 0x58) && (
        input.len() == 2 || !hexadecimal_digit(input[2]))) ==> hexadecimal_result(input)
            == SpecResult::<u64>::Error(SpecError::Position(ErrorKind::HexDigit, input.skip(2))),
        (input.len() == 0 || !(0x31 <= input[0] <= 0x39)) ==> decimal_result(input)
            == SpecResult::<u64>::Error(SpecError::Code(ErrorKind::RegexpFind)),
{
    if input.len() >= 2 {
        let t = input.skip(2);
        if t.len() > 0 {
            assert(t[0] == input[2]);
        }
        assert(run(t, ByteClass::Binary) == 0 <==> (t.len() == 0 || !binary_digit(t[0])));
        assert(t.len() == 0 ==> digits_after(input, 2, ByteClass::Binary).len() == 0);
    }
    if input.len() >= 1 {
        let t = input.skip(1);
        if t.len() > 0 {
            assert(t[0] == input[1]);
        }
    }
}

/// Every byte of `d` is a decimal digit.
pub open spec fn all_decimal(d: Seq<u8>) -> bool {
    forall|i: int| 0 <= i < d.len() ==> decimal_digit(#[trigger] d[i])
}

/// Whether `s` starts an exponent: `e` or `E`, an optional `+` or `-`, and a digit.
pub open spec fn starts_exponent(s: Seq<u8>) -> bool {
    &&& s.len() >= 2
    &&& (s[0] == 0x65 || s[0] == 0x45)
    &&& (decimal_digit(s[1]) || ((s[1] == 0x2b || s[1] == 0x2d) && s.len() >= 3 && decimal_digit(
        s[2],
    )))
}

/// The run of decimal digits at the start of `d + rest` is `d` when `rest` does not continue
/// it.
proof fn lemma_decimal_run(d: Seq<u8>, rest: Seq<u8>)
    requires
        all_decimal(d),
        rest.len() > 0 ==> !decimal_digit(rest[0]),
    ensures
        run(d + rest, ByteClass::Decimal) == d.len(),
{
    let t = d + rest;
    assert forall|j: int| 0 <= j < d.len() implies ByteClass::Decimal.contains(#[trigger] t[j]) by {
        assert(t[j] == d[j]);
    }
    if d.len() < t.len() {
        assert(t[d.len() as int] == rest[0]);
    }
    lemma_run_unique(t, ByteClass::Decimal, d.len() as int);
}

/// The mantissa `d1 . d2` (digits, a dot and digits, not both runs empty) at the start of an
/// input is the whole of it that `mantissa_len` measures.
proof fn lemma_mantissa(d1: Seq<u8>, d2: Seq<u8>, tail: Seq<u8>)
    requires
        all_decimal(d1),
        all_decimal(d2),
        d1.len() + d2.len() >= 1,
        tail.len() > 0 ==> !decimal_digit(tail[0]),
    ensures
        mantissa_len(d1 + seq![0x2eu8] + d2 + tail) == Some((d1.len() + 1 + d2.len()) as int),
        (d1 + seq![0x2eu8] + d2 + tail).skip((d1.len() + 1 + d2.len()) as int) == tail,
{
    let input = d1 + seq![0x2eu8] + d2 + tail;
    let after_dot = seq![0x2eu8] + d2 + tail;
    assert(input =~= d1 + after_dot);
    assert(!decimal_digit(after_dot[0]));
    lemma_decimal_run(d1, after_dot);
    assert(input[d1.len() as int] == 0x2e);
    assert(input.skip((d1.len() + 1) as int) =~= d2 + tail);
    lemma_decimal_run(d2, tail);
    assert(input.skip((d1.len() + 1 + d2.len()) as int) =~= tail);
}

/// Exponential numbers with an exponent: digits, a dot, digits (not both runs empty), `e` or
/// `E`, an optional sign and at least one digit, followed by a rest that does not continue the
/// digits: the lexeme is all of it, and the rest is left.
pub proof fn lemma_exponential_with_exponent(
    d1: Seq<u8>,
    d2: Seq<u8>,
    e: u8,
    sign: Seq<u8>,
    d3: Seq<u8>,
    rest: Seq<u8>,
)
    requires
        all_decimal(d1),
        all_decimal(d2),
        all_decimal(d3),
        d1.len() + d2.len() >= 1,
        d3.len() >= 1,
        e == 0x65 || e == 0x45,
        sign == Seq::<u8>::empty() || sign == seq![0x2bu8] || sign == seq![0x2du8],
        rest.len() > 0 ==> !decimal_digit(rest[0]),
    ensures
        ({
            let lexeme = d1 + seq![0x2eu8] + d2 + seq![e] + sign + d3;
            exponential_literal_result(lexeme + rest) == SpecResult::Done(rest, lexeme)
        }),
{
    let lexeme = d1 + seq![0x2eu8] + d2 + seq![e] + sign + d3;
    let input = lexeme + rest;
    let tail = seq![e] + sign + d3 + rest;
    assert(input =~= d1 + seq![0x2eu8] + d2 + tail);
    lemma_mantissa(d1, d2, tail);
    let m = (d1.len() + 1 + d2.len()) as int;
    assert(tail[0] == e);
    let sl = sign.len() as int;
    if sl == 1 {
        assert(tail[1] == sign[0]);
    } else {
        assert(tail[1] == d3[0]);
    }
    assert(tail.skip(1 + sl) =~= d3 + rest);
    lemma_decimal_run(d3, rest);
    assert(exponent_len(tail) == 1 + sl + d3.len());
    assert(input.take(m + 1 + sl + d3.len()) =~= lexeme);
    assert(input.skip(m + 1 + sl + d3.len()) =~= rest);
}

/// Exponential numbers without an exponent: digits, a dot and digits (not both runs empty),
/// followed by a rest that neither continues the digits nor starts an exponent: the lexeme is
/// the mantissa, and the rest is left.
pub proof fn lemma_exponential_without_exponent(d1: Seq<u8>, d2: Seq<u8>, rest: Seq<u8>)
    requires
        all_decimal(d1),
        all_decimal(d2),
        d1.len() + d2.len() >= 1,
        rest.len() > 0 ==> !decimal_digit(rest[0]),
        !starts_exponent(rest),
    ensures
        ({
            let lexeme = d1 + seq![0x2eu8] + d2;
            exponential_literal_result(lexeme + rest) == SpecResult::Done(rest, lexeme)
        }),
{
    let lexeme = d1 + seq![0x2eu8] + d2;
    let input = lexeme + rest;
    lemma_mantissa(d1, d2, rest);
    let m = (d1.len() + 1 + d2.len()) as int;
    if rest.len() > 0 && (rest[0] == 0x65 || rest[0] == 0x45) {
        let sign: int = if rest.len() > 1 && (rest[1] == 0x2b || rest[1] == 0x2d) {
            1
        } else {
            0
        };
        let t = rest.skip(1 + sign);
        if t.len() > 0 {
            assert(t[0] == rest[1 + sign]);
        }
        assert(run(t, ByteClass::Decimal) == 0);
    }
    assert(exponent_len(rest) == 0);
    assert(input.take(m) =~= lexeme);
}

/// An input without a mantissa is no exponential number: after its leading digits `d` there is
/// no dot, or there are no digits before or after the dot.
pub proof fn lemma_exponential_rejects(d: Seq<u8>, rest: Seq<u8>)
    requires
        all_decimal(d),
        rest.len() > 0 ==> !decimal_digit(rest[0]),
        (rest.len() == 0 || rest[0] != 0x2e) || (d.len() == 0 && (rest.len() == 1
            || !decimal_digit(rest[1]))),
    ensures
        exponential_literal_result(d + rest) == SpecResult::<Seq<u8>>::Error(
            SpecError::Code(ErrorKind::RegexpFind),
        ),
{
    let input = d + rest;
    lemma_decimal_run(d, rest);
    if rest.len() > 0 {
        assert(input[d.len() as int] == rest[0]);
    }
    if d.len() == 0 && rest.len() > 0 && rest[0] == 0x2e {
        let t = input.skip(1);
        if t.len() > 0 {
            assert(t[0] == rest[1]);
        }
        assert(run(t, ByteClass::Decimal) == 0);
    }
}

} // verus!
