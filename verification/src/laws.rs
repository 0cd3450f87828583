//! Properties that hold of every parser of the library.
use vstd::prelude::*;
use crate::identifier::identifier_result;
use crate::lexeme::{
    ByteClass, digit_value, digits_value, lemma_digits_value_prefix, lemma_run, lemma_run_unique,
    run,
};
use crate::lexeme::digits_to_u64;
use crate::numbers::{
    digits_after,
    binary_result, boolean_result, decimal_result, exponential_literal_result, hexadecimal_result,
    null_result, octal_result, exponent_len, mantissa_len,
};
use crate::result::{Needed, SpecResult, StringError};
use vstd::utf8::{
    decode_utf8, decode_utf8_split, is_char_boundary_iff_not_is_continuation_byte, valid_utf8,
    valid_utf8_concat, valid_utf8_split,
};
use crate::strings::{
    Terminator, find_quote, find_terminator, nowdoc_in_bounds, nowdoc_opening, nowdoc_result,
    failed, quoted_scan, single_quoted_result, starts_with, string_result,
};

verus! {

/// A result that is `Done` leaves a proper suffix of the input unparsed, and one that is
/// `Incomplete` asks for more bytes than the input holds.
pub open spec fn consumes<O>(input: Seq<u8>, r: SpecResult<O>) -> bool {
    match r {
        SpecResult::Done(rest, _) => rest.len() < input.len() && rest == input.skip(
            input.len() - rest.len(),
        ),
        SpecResult::Incomplete(n) => n matches Needed::Size(k) && input.len() < k,
        SpecResult::Error(_) => true,
    }
}

proof fn lemma_quoted_scan_consumes(
    input: Seq<u8>,
    quote: u8,
    pos: int,
    offset: int,
    text: Seq<char>,
)
    requires
        0 <= pos,
    ensures
        quoted_scan(input, quote, pos, offset, text) matches SpecResult::Done(rest, _) ==> (
        rest.len() + pos < input.len() && rest == input.skip(input.len() - rest.len())),
        !(quoted_scan(input, quote, pos, offset, text) is Incomplete),
    decreases input.len() - pos,
{
    if pos < input.len() {
        if input[pos] == 0x5c {
            if pos + 1 < input.len() {
                let segment = input.subrange(offset, pos);
                lemma_quoted_scan_consumes(
                    input,
                    quote,
                    pos + 2,
                    pos + 1,
                    text + vstd::utf8::decode_utf8(segment),
                );
                lemma_quoted_scan_consumes(input, quote, pos + 2, offset, text);
            }
        } else if input[pos] == quote {
            assert(input.skip(pos + 1) =~= input.skip(input.len() - input.skip(pos + 1).len()));
        } else {
            lemma_quoted_scan_consumes(input, quote, pos + 1, offset, text);
        }
    }
}

proof fn lemma_single_quoted_consumes(input: Seq<u8>)
    ensures
        consumes(input, single_quoted_result(input)),
        !(single_quoted_result(input) is Incomplete),
    decreases input.len(),
{
    if input.len() >= 3 && input[0] == 0x62 && input[1] == 0x27 {
        let tail = input.skip(1);
        assert(single_quoted_result(input) == single_quoted_result(tail));
        lemma_single_quoted_consumes(tail);
        match single_quoted_result(tail) {
            SpecResult::Done(rest, _) => {
                assert(tail.skip(tail.len() - rest.len()) =~= input.skip(
                    input.len() - rest.len(),
                ));
                assert(consumes(input, single_quoted_result(input)));
            },
            _ => {},
        }
    } else if input.len() >= 2 {
        lemma_quoted_scan_consumes(input, input[0], 1, 1, Seq::empty());
    }
}

proof fn lemma_find_terminator_bounds(input: Seq<u8>, name: Seq<u8>, pos: int)
    ensures
        find_terminator(input, name, pos) matches Terminator::Found(p, r) ==> pos <= p < r
            <= input.len(),
    decreases input.len() - pos,
{
    if 0 <= pos < input.len() {
        lemma_find_terminator_bounds(input, name, pos + 1);
    }
}

proof fn lemma_nowdoc_consumes(input: Seq<u8>)
    ensures
        consumes(input, nowdoc_result(input)),
{
    if input.len() >= 9 {
        if let Some(q) = find_quote(input, 4) {
            lemma_find_terminator_bounds(input, input.subrange(4, q), q + 2);
        }
    }
}

proof fn lemma_digits_consume(input: Seq<u8>, skip: int, c: ByteClass)
    requires
        0 <= skip <= input.len(),
    ensures
        run(input.skip(skip), c) + skip <= input.len(),
{
    lemma_run(input.skip(skip), c);
}

proof fn lemma_numbers_consume(input: Seq<u8>)
    ensures
        consumes(input, null_result(input)),
        consumes(input, boolean_result(input)),
        consumes(input, binary_result(input)),
        consumes(input, octal_result(input)),
        consumes(input, decimal_result(input)),
        consumes(input, hexadecimal_result(input)),
{
    if input.len() >= 2 {
        lemma_digits_consume(input, 2, ByteClass::Binary);
        lemma_digits_consume(input, 2, ByteClass::Hexadecimal);
    }
    if input.len() >= 1 {
        lemma_digits_consume(input, 1, ByteClass::Octal);
    }
    lemma_digits_consume(input, 0, ByteClass::Decimal);
    assert(input.skip(0) =~= input);
}

/// The lexeme of an exponential number lies within the input.
proof fn lemma_exponential_lexeme_len(input: Seq<u8>)
    ensures
        mantissa_len(input) matches Some(m) ==> 1 <= m && m + exponent_len(input.skip(m))
            <= input.len(),
{
    if let Some(m) = mantissa_len(input) {
        let d = run(input, ByteClass::Decimal) as int;
        lemma_run(input, ByteClass::Decimal);
        lemma_run(input.skip(d + 1), ByteClass::Decimal);
        let s = input.skip(m);
        if s.len() > 0 && (s[0] == 0x65 || s[0] == 0x45) {
            let sign: int = if s.len() > 1 && (s[1] == 0x2b || s[1] == 0x2d) {
                1
            } else {
                0
            };
            lemma_run(s.skip(1 + sign), ByteClass::Decimal);
        }
        assert(exponent_len(s) <= s.len());
    }
}

proof fn lemma_lexemes_consume(input: Seq<u8>)
    ensures
        consumes(input, exponential_literal_result(input)),
        consumes(input, identifier_result(input)),
{
    if input.len() >= 1 {
        lemma_digits_consume(input, 1, ByteClass::IdentifierTail);
    }
    lemma_exponential_lexeme_len(input);
}

/// Every parser leaves a proper suffix of its input when it succeeds, and asks for more bytes
/// than it was given when it cannot decide yet: a parser that succeeds always makes progress.
pub proof fn lemma_parsers_consume(input: Seq<u8>)
    ensures
        consumes(input, null_result(input)),
        consumes(input, boolean_result(input)),
        consumes(input, binary_result(input)),
        consumes(input, octal_result(input)),
        consumes(input, decimal_result(input)),
        consumes(input, hexadecimal_result(input)),
        consumes(input, exponential_literal_result(input)),
        consumes(input, identifier_result(input)),
        consumes(input, single_quoted_result(input)),
        consumes(input, nowdoc_result(input)),
        consumes(input, string_result(input)),
{
    lemma_numbers_consume(input);
    lemma_lexemes_consume(input);
    lemma_single_quoted_consumes(input);
    lemma_nowdoc_consumes(input);
}

/// A valid UTF-8 sequence splits at an ASCII byte into two valid sequences whose texts
/// concatenate to its text.
proof fn lemma_split_at_ascii(bytes: Seq<u8>, index: int)
    requires
        valid_utf8(bytes),
        0 <= index < bytes.len(),
        bytes[index] < 0x80,
    ensures
        valid_utf8(bytes.take(index)),
        valid_utf8(bytes.skip(index)),
        decode_utf8(bytes) == decode_utf8(bytes.take(index)) + decode_utf8(bytes.skip(index)),
{
    is_char_boundary_iff_not_is_continuation_byte(bytes, index);
    valid_utf8_split(bytes, index);
    decode_utf8_split(bytes, index);
    assert(bytes.take(index) =~= bytes.subrange(0, index));
    assert(bytes.skip(index) =~= bytes.subrange(index, bytes.len() as int));
}

/// The body of a quoted string whose text is `content`: a backslash before each `quote`
/// byte and each backslash.
pub open spec fn escape(content: Seq<u8>, quote: u8) -> Seq<u8>
    decreases content.len(),
{
    if content.len() == 0 {
        Seq::empty()
    } else {
        let b = content[0];
        (if b == quote || b == 0x5c {
            seq![0x5cu8, b]
        } else {
            seq![b]
        }) + escape(content.drop_first(), quote)
    }
}

/// The scan of an escaped body reads back the pending segment followed by the content.
proof fn lemma_scan_escaped(
    input: Seq<u8>,
    quote: u8,
    pos: int,
    offset: int,
    text: Seq<char>,
    pending: Seq<u8>,
    content: Seq<u8>,
    rest: Seq<u8>,
)
    requires
        quote == 0x27 || quote == 0x22,
        0 <= offset <= pos <= input.len(),
        input.skip(pos) == escape(content, quote) + seq![quote] + rest,
        input.subrange(offset, pos) == pending,
        valid_utf8(pending + content),
    ensures
        quoted_scan(input, quote, pos, offset, text) == SpecResult::Done(
            rest,
            text + decode_utf8(pending + content),
        ),
    decreases content.len(),
{
    let tail = input.skip(pos);
    assert(tail.len() == escape(content, quote).len() + 1 + rest.len());
    assert(tail.len() == input.len() - pos);
    if content.len() == 0 {
        assert(pending + content =~= pending);
        assert(tail[0] == quote);
        assert(input[pos] == tail[0]);
        assert(input.skip(pos + 1) =~= tail.skip(1));
        assert(tail.skip(1) =~= rest);
    } else {
        let b = content[0];
        let more = content.drop_first();
        assert(content =~= seq![b] + more);
        let whole = pending + content;
        assert(whole[pending.len() as int] == b);
        if b == quote || b == 0x5c {
            assert(escape(content, quote) == seq![0x5cu8, b] + escape(more, quote));
            assert(escape(content, quote).len() >= 2);
            assert(input[pos] == tail[0]);
            assert(input[pos + 1] == tail[1]);
            assert(tail[0] == 0x5c);
            assert(tail[1] == b);
            lemma_split_at_ascii(whole, pending.len() as int);
            assert(whole.take(pending.len() as int) =~= pending);
            assert(whole.skip(pending.len() as int) =~= content);
            assert(input.subrange(pos + 1, pos + 2) =~= seq![b]);
            assert(input.skip(pos + 2) =~= escape(more, quote) + seq![quote] + rest) by {
                assert(input.skip(pos + 2) =~= tail.skip(2));
            }
            assert(seq![b] + more =~= content);
            lemma_scan_escaped(
                input,
                quote,
                pos + 2,
                pos + 1,
                text + decode_utf8(pending),
                seq![b],
                more,
                rest,
            );
            assert(text + decode_utf8(pending) + decode_utf8(content) =~= text + decode_utf8(whole));
        } else {
            assert(escape(content, quote) == seq![b] + escape(more, quote));
            assert(input[pos] == tail[0]);
            assert(tail[0] == b);
            assert(input.subrange(offset, pos + 1) =~= pending + seq![b]);
            assert(input.skip(pos + 1) =~= escape(more, quote) + seq![quote] + rest) by {
                assert(input.skip(pos + 1) =~= tail.skip(1));
            }
            assert(pending + seq![b] + more =~= whole);
            lemma_scan_escaped(input, quote, pos + 1, offset, text, pending + seq![b], more, rest);
        }
    }
}

/// Quoting reads back: a quote, the escaped content, the same quote and any rest parse as a
/// quoted string whose text is the content decoded as UTF-8, and leave the rest; a `b`
/// before a single quote changes nothing.
pub proof fn lemma_quoted_round_trip(content: Seq<u8>, quote: u8, rest: Seq<u8>)
    requires
        valid_utf8(content),
        quote == 0x27 || quote == 0x22,
    ensures
        ({
            let input = seq![quote] + escape(content, quote) + seq![quote] + rest;
            &&& single_quoted_result(input) == SpecResult::Done(rest, decode_utf8(content))
            &&& string_result(input) == SpecResult::Done(rest, decode_utf8(content))
            &&& quote == 0x27 ==> single_quoted_result(seq![0x62u8] + input) == SpecResult::Done(
                rest,
                decode_utf8(content),
            )
        }),
{
    let input = seq![quote] + escape(content, quote) + seq![quote] + rest;
    assert(input.skip(1) =~= escape(content, quote) + seq![quote] + rest);
    assert(input.subrange(1, 1) =~= Seq::<u8>::empty());
    assert(Seq::<u8>::empty() + content =~= content);
    lemma_scan_escaped(input, quote, 1, 1, Seq::empty(), Seq::empty(), content, rest);
    assert(Seq::<char>::empty() + decode_utf8(content) =~= decode_utf8(content));
    assert(input[0] == quote);
    let binput = seq![0x62u8] + input;
    assert(binput.skip(1) =~= input);
}

/// A nowdoc named `name` with the given body, closed by the name on a line of its own, with
/// or without a `;`.
pub open spec fn nowdoc_text(name: Seq<u8>, body: Seq<u8>, semicolon: bool) -> Seq<u8> {
    seq![0x3cu8, 0x3c, 0x3c, 0x27] + name + seq![0x27u8, 0x0a] + body + seq![0x0au8] + name + (if semicolon {
        seq![0x3bu8]
    } else {
        Seq::empty()
    }) + seq![0x0au8]
}

proof fn lemma_find_quote_at(input: Seq<u8>, from: int, q: int)
    requires
        0 <= from <= q < input.len(),
        input[q] == 0x27,
        forall|i: int| from <= i < q ==> input[i] != 0x27,
    ensures
        find_quote(input, from) == Some(q),
    decreases q - from,
{
    if from < q {
        lemma_find_quote_at(input, from + 1, q);
    }
}

/// Whether `s` begins with a closing line of a nowdoc named `name`: a newline, the name, an
/// optional `;` and a newline.
pub open spec fn begins_closing_line(s: Seq<u8>, name: Seq<u8>) -> bool {
    &&& s.len() > 0
    &&& s[0] == 0x0a
    &&& 1 + name.len() <= s.len()
    &&& s.subrange(1, 1 + name.len() as int) == name
    &&& {
        let a = 1 + name.len() as int;
        ||| (a < s.len() && s[a] == 0x0a)
        ||| (a + 1 < s.len() && s[a] == 0x3b && s[a + 1] == 0x0a)
    }
}

/// The search for the closing line moves past a position where no closing line begins.
proof fn lemma_find_terminator_step(input: Seq<u8>, name: Seq<u8>, p: int)
    requires
        0 <= p,
        p + name.len() + 2 < input.len(),
        !begins_closing_line(input.skip(p), name),
    ensures
        find_terminator(input, name, p) == find_terminator(input, name, p + 1),
{
    let s = input.skip(p);
    let a = 1 + name.len() as int;
    assert(s.skip(1) =~= input.skip(p + 1));
    if a <= s.len() {
        assert(s.skip(1).take(name.len() as int) =~= s.subrange(1, a));
    }
    assert(s[0] == input[p]);
    assert(s[a] == input[p + a]);
    assert(s[a + 1] == input[p + a + 1]);
}

proof fn lemma_find_terminator_skips(input: Seq<u8>, name: Seq<u8>, from: int, t: int)
    requires
        0 <= from <= t,
        t + name.len() + 1 < input.len(),
        forall|p: int| from <= p < t ==> !#[trigger] begins_closing_line(input.skip(p), name),
    ensures
        find_terminator(input, name, from) == find_terminator(input, name, t),
    decreases t - from,
{
    if from < t {
        lemma_find_terminator_skips(input, name, from + 1, t);
        lemma_find_terminator_step(input, name, from);
    }
}

/// Where the parts of a nowdoc text stand.
proof fn lemma_nowdoc_layout(name: Seq<u8>, body: Seq<u8>, semicolon: bool, rest: Seq<u8>)
    ensures
        ({
            let input = nowdoc_text(name, body, semicolon) + rest;
            let n = name.len() as int;
            let q = 4 + n;
            let t = q + 2 + body.len();
            let end = t + 1 + n + (if semicolon { 1int } else { 0int });
            &&& input.len() == end + 1 + rest.len()
            &&& input.take(4) == nowdoc_opening()
            &&& input.subrange(4, q) == name
            &&& input[q] == 0x27
            &&& input[q + 1] == 0x0a
            &&& input.subrange(q + 2, t) == body
            &&& input[t] == 0x0a
            &&& input.subrange(t + 1, t + 1 + n) == name
            &&& (semicolon ==> input[t + 1 + n] == 0x3b)
            &&& input[end] == 0x0a
            &&& input.skip(end + 1) == rest
        }),
{
    let term: Seq<u8> = if semicolon {
        seq![0x3bu8]
    } else {
        Seq::empty()
    };
    let n = name.len() as int;
    let q = 4 + n;
    let t = q + 2 + body.len();
    let end = t + 1 + n + term.len();
    let p1 = nowdoc_opening() + name + seq![0x27u8, 0x0a];
    let p2 = p1 + body;
    let p3 = p2 + seq![0x0au8] + name + term + seq![0x0au8];
    let input = p3 + rest;
    assert(nowdoc_text(name, body, semicolon) == p3);
    assert(p1.len() == q + 2);
    assert(p2.len() == t);
    assert(p3.len() == end + 1);
    assert(input.take(end + 1) =~= p3);
    assert(input.skip(end + 1) =~= rest);
    assert(p3.take(t) =~= p2);
    assert(p2.take(q + 2) =~= p1);
    assert(p1.take(4) =~= nowdoc_opening());
    assert(p1.subrange(4, q) =~= name);
    assert(p1[q] == 0x27);
    assert(p1[q + 1] == 0x0a);
    assert(p2.subrange(q + 2, t) =~= body);
    assert(p3.subrange(t + 1, t + 1 + n) =~= name);
    assert(p3[t] == 0x0a);
    assert(p3[end] == 0x0a);
    assert(semicolon ==> p3[t + 1 + n] == 0x3b);
    assert(input.take(4) =~= p3.take(4));
    assert(p3.take(4) =~= p2.take(4));
    assert(p2.take(4) =~= p1.take(4));
    assert(input.subrange(4, q) =~= p1.subrange(4, q));
    assert(input[q] == p1[q]);
    assert(input[q + 1] == p1[q + 1]);
    assert(input.subrange(q + 2, t) =~= p2.subrange(q + 2, t));
    assert(input[t] == p3[t]);
    assert(input.subrange(t + 1, t + 1 + n) =~= p3.subrange(t + 1, t + 1 + n));
    assert(input[end] == p3[end]);
    assert(semicolon ==> input[t + 1 + n] == p3[t + 1 + n]);
}

/// A nowdoc reads back its body: when the name holds no quote, and no newline of the body is
/// followed by the name, an optional `;` and a newline, the nowdoc followed by any rest parses
/// as the body decoded as UTF-8 and leaves the rest. (Only a nowdoc with an empty name, an
/// empty body, no `;` and no rest is too short to be read.)
pub proof fn lemma_nowdoc_round_trip(name: Seq<u8>, body: Seq<u8>, semicolon: bool, rest: Seq<u8>)
    requires
        valid_utf8(body),
        forall|i: int| 0 <= i < name.len() ==> name[i] != 0x27,
        forall|p: int|
            0 <= p < body.len() ==> !#[trigger] begins_closing_line(
                (nowdoc_text(name, body, semicolon) + rest).skip(6 + name.len() + p),
                name,
            ),
        name.len() > 0 || body.len() > 0 || semicolon || rest.len() > 0,
    ensures
        ({
            let input = nowdoc_text(name, body, semicolon) + rest;
            &&& nowdoc_in_bounds(input)
            &&& nowdoc_result(input) == SpecResult::Done(rest, decode_utf8(body))
            &&& string_result(input) == SpecResult::Done(rest, decode_utf8(body))
        }),
{
    let input = nowdoc_text(name, body, semicolon) + rest;
    let n = name.len() as int;
    let q = 4 + n;
    let start = q + 2;
    let t = start + body.len();
    let after = t + 1 + n;
    let end = after + (if semicolon { 1int } else { 0int });
    lemma_nowdoc_layout(name, body, semicolon, rest);
    assert forall|i: int| 4 <= i < q implies input[i] != 0x27 by {
        assert(input[i] == input.subrange(4, q)[i - 4]);
    }
    lemma_find_quote_at(input, 4, q);
    assert forall|p: int| start <= p < t implies !#[trigger] begins_closing_line(
        input.skip(p),
        name,
    ) by {
        assert(!begins_closing_line(input.skip(6 + n + (p - start)), name));
    }
    lemma_find_terminator_skips(input, name, start, t);
    assert(input.skip(t + 1).take(n) =~= input.subrange(t + 1, t + 1 + n));
    assert(starts_with(input.skip(t + 1), name));
    assert(find_terminator(input, name, t) == Terminator::Found(t, end + 1));
    assert(input[0] == input.take(4)[0]);
}

/// A decimal literal never denotes zero: it starts with a digit from 1 to 9.
pub proof fn lemma_decimal_nonzero(input: Seq<u8>)
    ensures
        decimal_result(input) matches SpecResult::Done(_, v) ==> v >= 1,
{
    if input.len() > 0 && 0x31 <= input[0] <= 0x39 {
        let digits = digits_after(input, 0, ByteClass::Decimal);
        assert(input.skip(0) =~= input);
        lemma_run(input, ByteClass::Decimal);
        assert(digits.len() >= 1);
        lemma_digits_value_prefix(digits, 10, 1, digits.len() as int);
        assert(digits.take(1).drop_last() =~= Seq::<u8>::empty());
        assert(digits.take(1).last() == input[0]);
        assert(digits.take(digits.len() as int) =~= digits);
        assert(digits_value(digits.take(1), 10) >= 1);
    }
}

/// The recognizers that hand back bytes hand back exactly the bytes they consumed: the
/// lexeme followed by the rest is the input.
pub proof fn lemma_lexeme_then_rest(input: Seq<u8>)
    ensures
        identifier_result(input) matches SpecResult::Done(rest, name) ==> name + rest == input,
        exponential_literal_result(input) matches SpecResult::Done(rest, lexeme) ==> lexeme + rest
            == input,
{
    if input.len() > 0 {
        lemma_run(input.skip(1), ByteClass::IdentifierTail);
        let k = 1 + run(input.skip(1), ByteClass::IdentifierTail) as int;
        assert(input.take(k) + input.skip(k) =~= input);
    }
    lemma_exponential_lexeme_len(input);
    if let Some(m) = mantissa_len(input) {
        let k = m + exponent_len(input.skip(m));
        assert(input.take(k) + input.skip(k) =~= input);
    }
}

/// The digit byte of `d` (lowercase letters above nine).
pub open spec fn digit_byte(d: nat) -> u8 {
    if d < 10 {
        (0x30 + d) as u8
    } else {
        (0x61 + d - 10) as u8
    }
}

/// The digits of `v` in base `radix`, most significant first, without leading zeros (zero
/// is the single digit `0`).
pub open spec fn radix_digits(v: nat, radix: nat) -> Seq<u8>
    decreases v,
    via radix_digits_decreases
{
    if radix < 2 || v < radix {
        seq![digit_byte(v)]
    } else {
        radix_digits(v / radix, radix) + seq![digit_byte(v % radix)]
    }
}

#[via_fn]
proof fn radix_digits_decreases(v: nat, radix: nat) {
    if !(radix < 2 || v < radix) {
        assert(v / radix < v) by (nonlinear_arith)
            requires
                radix >= 2,
                v >= radix,
        ;
    }
}

/// The class of the digits of base `radix`.
pub open spec fn digit_class(radix: nat) -> ByteClass {
    if radix == 2 {
        ByteClass::Binary
    } else if radix == 8 {
        ByteClass::Octal
    } else if radix == 10 {
        ByteClass::Decimal
    } else {
        ByteClass::Hexadecimal
    }
}

proof fn lemma_digit_byte(d: nat, radix: nat)
    requires
        radix == 2 || radix == 8 || radix == 10 || radix == 16,
        d < radix,
    ensures
        digit_class(radix).contains(digit_byte(d)),
        digit_value(digit_byte(d)) == d,
        d != 0 ==> digit_byte(d) != 0x30,
{
}

/// The digits of a number denote it, belong to the base's class, and start with a nonzero
/// digit unless the number is zero.
proof fn lemma_radix_digits(v: nat, radix: nat)
    requires
        radix == 2 || radix == 8 || radix == 10 || radix == 16,
    ensures
        radix_digits(v, radix).len() >= 1,
        digits_value(radix_digits(v, radix), radix) == v,
        forall|i: int|
            0 <= i < radix_digits(v, radix).len() ==> digit_class(radix).contains(
                #[trigger] radix_digits(v, radix)[i],
            ),
        v != 0 ==> radix_digits(v, radix)[0] != 0x30,
    decreases v,
{
    let s = radix_digits(v, radix);
    if v < radix {
        lemma_digit_byte(v, radix);
        assert(s.drop_last() =~= Seq::<u8>::empty());
        assert(digits_value(s.drop_last(), radix) == 0);
    } else {
        let q = v / radix;
        let m = v % radix;
        vstd::arithmetic::div_mod::lemma_fundamental_div_mod(v as int, radix as int);
        assert(q < v) by (nonlinear_arith)
            requires
                radix >= 2,
                v >= radix,
                q == v / radix,
        ;
        assert(q >= 1) by (nonlinear_arith)
            requires
                radix >= 2,
                v >= radix,
                q == v / radix,
        ;
        lemma_radix_digits(q, radix);
        lemma_digit_byte(m, radix);
        let p = radix_digits(q, radix);
        assert(s == p + seq![digit_byte(m)]);
        assert(s.drop_last() =~= p);
        assert(s.last() == digit_byte(m));
        assert(q * radix + m == v) by (nonlinear_arith)
            requires
                v == radix * q + m,
        ;
        assert(s[0] == p[0]);
        assert forall|i: int| 0 <= i < s.len() implies digit_class(radix).contains(#[trigger] s[i]) by {
            if i < p.len() {
                assert(s[i] == p[i]);
            }
        }
    }
}

/// The run of the base's digits at the start of `digits + rest` is `digits`, when `rest` does
/// not start with such a digit.
proof fn lemma_run_of_digits(digits: Seq<u8>, rest: Seq<u8>, c: ByteClass)
    requires
        forall|i: int| 0 <= i < digits.len() ==> c.contains(#[trigger] digits[i]),
        rest.len() > 0 ==> !c.contains(rest[0]),
    ensures
        run(digits + rest, c) == digits.len(),
        (digits + rest).take(digits.len() as int) == digits,
        (digits + rest).skip(digits.len() as int) == rest,
{
    let s = digits + rest;
    assert forall|j: int| 0 <= j < digits.len() implies c.contains(#[trigger] s[j]) by {
        assert(s[j] == digits[j]);
    }
    if digits.len() < s.len() {
        assert(s[digits.len() as int] == rest[0]);
    }
    lemma_run_unique(s, c, digits.len() as int);
    assert(s.take(digits.len() as int) =~= digits);
    assert(s.skip(digits.len() as int) =~= rest);
}

proof fn lemma_binary_round_trip(v: u64, rest: Seq<u8>)
    requires
        rest.len() > 0 ==> !ByteClass::Binary.contains(rest[0]),
    ensures
        binary_result(seq![0x30u8, 0x62] + radix_digits(v as nat, 2) + rest) == SpecResult::Done(
            rest,
            v,
        ),
{
    let prefix = seq![0x30u8, 0x62];
    lemma_based_round_trip(v, rest, 2, prefix);
    let input = prefix + radix_digits(v as nat, 2) + rest;
    assert(input[0] == prefix[0] && input[1] == prefix[1]);
}

proof fn lemma_octal_round_trip(v: u64, rest: Seq<u8>)
    requires
        rest.len() > 0 ==> !ByteClass::Octal.contains(rest[0]),
    ensures
        octal_result(seq![0x30u8] + radix_digits(v as nat, 8) + rest) == SpecResult::Done(rest, v),
{
    let prefix = seq![0x30u8];
    lemma_based_round_trip(v, rest, 8, prefix);
    let input = prefix + radix_digits(v as nat, 8) + rest;
    assert(input[0] == prefix[0]);
}

proof fn lemma_hexadecimal_round_trip(v: u64, rest: Seq<u8>)
    requires
        rest.len() > 0 ==> !ByteClass::Hexadecimal.contains(rest[0]),
    ensures
        hexadecimal_result(seq![0x30u8, 0x78] + radix_digits(v as nat, 16) + rest)
            == SpecResult::Done(rest, v),
{
    let prefix = seq![0x30u8, 0x78];
    lemma_based_round_trip(v, rest, 16, prefix);
    let input = prefix + radix_digits(v as nat, 16) + rest;
    assert(input[0] == prefix[0] && input[1] == prefix[1]);
}

proof fn lemma_decimal_round_trip(v: u64, rest: Seq<u8>)
    requires
        v != 0,
        rest.len() > 0 ==> !ByteClass::Decimal.contains(rest[0]),
    ensures
        decimal_result(radix_digits(v as nat, 10) + rest) == SpecResult::Done(rest, v),
{
    let prefix = Seq::<u8>::empty();
    lemma_based_round_trip(v, rest, 10, prefix);
    let digits = radix_digits(v as nat, 10);
    assert(prefix + digits + rest =~= digits + rest);
    assert((digits + rest)[0] == digits[0]);
}

/// Numbers read back: every `u64`, written with the digits of a base after that base's
/// prefix (`0b`, `0`, none, `0x`), and followed by anything that does not continue the
/// digits, is read back by the recognizer of that base. Decimal notation has no zero.
pub proof fn lemma_numbers_round_trip(v: u64, rest: Seq<u8>)
    ensures
        (rest.len() > 0 ==> !ByteClass::Binary.contains(rest[0])) ==> binary_result(
            seq![0x30u8, 0x62] + radix_digits(v as nat, 2) + rest,
        ) == SpecResult::Done(rest, v),
        (rest.len() > 0 ==> !ByteClass::Octal.contains(rest[0])) ==> octal_result(
            seq![0x30u8] + radix_digits(v as nat, 8) + rest,
        ) == SpecResult::Done(rest, v),
        (v != 0 && (rest.len() > 0 ==> !ByteClass::Decimal.contains(rest[0]))) ==> decimal_result(
            radix_digits(v as nat, 10) + rest,
        ) == SpecResult::Done(rest, v),
        (rest.len() > 0 ==> !ByteClass::Hexadecimal.contains(rest[0])) ==> hexadecimal_result(
            seq![0x30u8, 0x78] + radix_digits(v as nat, 16) + rest,
        ) == SpecResult::Done(rest, v),
{
    if rest.len() > 0 ==> !ByteClass::Binary.contains(rest[0]) {
        lemma_binary_round_trip(v, rest);
    }
    if rest.len() > 0 ==> !ByteClass::Octal.contains(rest[0]) {
        lemma_octal_round_trip(v, rest);
    }
    if rest.len() > 0 ==> !ByteClass::Hexadecimal.contains(rest[0]) {
        lemma_hexadecimal_round_trip(v, rest);
    }
    if v != 0 && (rest.len() > 0 ==> !ByteClass::Decimal.contains(rest[0])) {
        lemma_decimal_round_trip(v, rest);
    }
}

/// The digits of `v` after `prefix`, followed by `rest`: the digit run and its value.
proof fn lemma_based_round_trip(v: u64, rest: Seq<u8>, radix: nat, prefix: Seq<u8>)
    requires
        radix == 2 || radix == 8 || radix == 10 || radix == 16,
        rest.len() > 0 ==> !digit_class(radix).contains(rest[0]),
    ensures
        ({
            let digits = radix_digits(v as nat, radix);
            let input = prefix + digits + rest;
            &&& input.skip(prefix.len() as int) == digits + rest
            &&& digits_after(input, prefix.len() as int, digit_class(radix)) == digits
            &&& run(input.skip(prefix.len() as int), digit_class(radix)) == digits.len()
            &&& digits.len() >= 1
            &&& digits_to_u64(digits, radix) == Some(v)
            &&& input.skip((prefix.len() + digits.len()) as int) == rest
            &&& input.take(prefix.len() as int) == prefix
            &&& (v != 0 ==> digits[0] != 0x30)
        }),
{
    let digits = radix_digits(v as nat, radix);
    let input = prefix + digits + rest;
    lemma_radix_digits(v as nat, radix);
    lemma_run_of_digits(digits, rest, digit_class(radix));
    assert(input.skip(prefix.len() as int) =~= digits + rest);
    assert(input.skip((prefix.len() + digits.len()) as int) =~= rest);
    assert(input.take(prefix.len() as int) =~= prefix);
}

/// A sequence followed by one that starts with an ASCII byte is valid UTF-8 exactly when both
/// are, and then its text is theirs, concatenated.
proof fn lemma_concat_at_ascii(a: Seq<u8>, b: Seq<u8>)
    requires
        b.len() > 0,
        b[0] < 0x80,
    ensures
        valid_utf8(a + b) <==> valid_utf8(a) && valid_utf8(b),
        valid_utf8(a + b) ==> decode_utf8(a + b) == decode_utf8(a) + decode_utf8(b),
{
    let ab = a + b;
    assert(ab[a.len() as int] == b[0]);
    assert(ab.take(a.len() as int) =~= a);
    assert(ab.skip(a.len() as int) =~= b);
    if valid_utf8(ab) {
        lemma_split_at_ascii(ab, a.len() as int);
    }
    if valid_utf8(a) && valid_utf8(b) {
        valid_utf8_concat(a, b);
    }
}

/// The number of backslashes that stand right before index `i` of `body`.
pub open spec fn backslash_run(body: Seq<u8>, i: int) -> nat
    decreases i,
{
    if 0 < i <= body.len() && body[i - 1] == 0x5c {
        1 + backslash_run(body, i - 1)
    } else {
        0
    }
}

/// The first index at or after `i` in `body` that holds `quote` after an even run of
/// backslashes.
pub open spec fn closing_from(body: Seq<u8>, quote: u8, i: int) -> Option<int>
    decreases body.len() - i,
{
    if i < 0 || i >= body.len() {
        None
    } else if body[i] == quote && backslash_run(body, i) % 2 == 0 {
        Some(i)
    } else {
        closing_from(body, quote, i + 1)
    }
}

proof fn lemma_closing_from_bounds(body: Seq<u8>, quote: u8, i: int)
    ensures
        closing_from(body, quote, i) matches Some(c) ==> 0 <= i <= c < body.len(),
    decreases body.len() - i,
{
    if 0 <= i < body.len() {
        lemma_closing_from_bounds(body, quote, i + 1);
    }
}

/// The index in the body of a quoted string (what follows the opening quote) of its closing
/// quote: the first quote that follows an even run of backslashes.
pub open spec fn closing_index(body: Seq<u8>, quote: u8) -> Option<int> {
    closing_from(body, quote, 0)
}

/// The bytes of a quoted string's body with the backslash of each escaped quote or backslash
/// removed, pairs taken from left to right.
pub open spec fn unescape(x: Seq<u8>, quote: u8) -> Seq<u8>
    decreases x.len(),
{
    if x.len() == 0 {
        Seq::empty()
    } else if x.len() >= 2 && x[0] == 0x5c && (x[1] == quote || x[1] == 0x5c) {
        seq![x[1]] + unescape(x.skip(2), quote)
    } else {
        seq![x[0]] + unescape(x.skip(1), quote)
    }
}

/// The scan of a quoted string's body from an index `i` that no backslash escapes, with the
/// bytes from `j` to `i` pending: it ends at the closing quote with the pending bytes and the
/// unescaped bytes up to the quote, decoded, or with an encoding error; where there is no
/// closing quote and the bytes from `j` on are valid UTF-8, it reports the missing close.
proof fn lemma_scan_characterized(s: Seq<u8>, quote: u8, i: int, j: int, text: Seq<char>)
    requires
        quote == 0x27 || quote == 0x22,
        s.len() >= 1,
        0 <= j <= i <= s.len() - 1,
        backslash_run(s.skip(1), i) % 2 == 0,
    ensures
        ({
            let body = s.skip(1);
            match closing_from(body, quote, i) {
                Some(c) => {
                    let bytes = body.subrange(j, i) + unescape(body.subrange(i, c), quote);
                    quoted_scan(s, quote, i + 1, j + 1, text) == if valid_utf8(bytes) {
                        SpecResult::Done(body.skip(c + 1), text + decode_utf8(bytes))
                    } else {
                        failed(StringError::InvalidEncoding)
                    }
                },
                None => valid_utf8(body.subrange(j, body.len() as int)) ==> quoted_scan(
                    s,
                    quote,
                    i + 1,
                    j + 1,
                    text,
                ) == failed(StringError::InvalidClosingCharacter),
            }
        }),
    decreases s.len() - i,
{
    let body = s.skip(1);
    let n = body.len() as int;
    let pending = body.subrange(j, i);
    assert(s.subrange(j + 1, i + 1) =~= pending);
    if i == n {
    } else if body[i] == 0x5c {
        assert(s[i + 1] == body[i]);
        assert(closing_from(body, quote, i) == closing_from(body, quote, i + 1));
        if i + 1 < n {
            let y = body[i + 1];
            assert(s[i + 2] == y);
            assert(backslash_run(body, i + 1) == 1 + backslash_run(body, i));
            assert(closing_from(body, quote, i + 1) == closing_from(body, quote, i + 2));
            lemma_closing_from_bounds(body, quote, i + 2);
            if y == 0x5c {
                assert(backslash_run(body, i + 2) == 1 + backslash_run(body, i + 1));
            } else {
                assert(backslash_run(body, i + 2) == 0);
            }
            if y == quote || y == 0x5c {
                let text2 = text + decode_utf8(pending);
                if valid_utf8(pending) {
                    lemma_scan_characterized(s, quote, i + 2, i + 1, text2);
                }
                assert(body.subrange(i + 1, i + 2) =~= seq![y]);
                match closing_from(body, quote, i) {
                    Some(c) => {
                        let u = unescape(body.subrange(i, c), quote);
                        let u2 = unescape(body.subrange(i + 2, c), quote);
                        assert(body.subrange(i, c).skip(2) =~= body.subrange(i + 2, c));
                        assert(u == seq![y] + u2);
                        lemma_concat_at_ascii(pending, u);
                        assert(seq![y] + u2 =~= body.subrange(i + 1, i + 2) + u2);
                        if valid_utf8(pending + u) {
                            assert(text2 + decode_utf8(u) =~= text + decode_utf8(pending + u));
                        }
                    },
                    None => {
                        let tail = body.subrange(j, n);
                        assert(tail[i - j] == 0x5c);
                        assert(tail.take(i - j) =~= pending);
                        assert(tail.skip(i - j) =~= body.subrange(i, n));
                        let t2 = body.subrange(i, n);
                        assert(t2[1] == y);
                        assert(t2.skip(1) =~= body.subrange(i + 1, n));
                        if valid_utf8(tail) {
                            lemma_split_at_ascii(tail, i - j);
                            lemma_split_at_ascii(t2, 1);
                        }
                    },
                }
            } else {
                lemma_scan_characterized(s, quote, i + 2, j, text);
                assert(body.subrange(j, i + 2) =~= pending + seq![0x5cu8, y]);
                match closing_from(body, quote, i) {
                    Some(c) => {
                        let x = body.subrange(i, c);
                        assert(x.skip(1).skip(1) =~= body.subrange(i + 2, c));
                        assert(x.skip(1)[0] == y);
                        assert(unescape(x, quote) == seq![0x5cu8] + unescape(x.skip(1), quote));
                        assert(unescape(x.skip(1), quote) == seq![y] + unescape(
                            x.skip(1).skip(1),
                            quote,
                        ));
                        assert(pending + unescape(x, quote) =~= body.subrange(j, i + 2)
                            + unescape(body.subrange(i + 2, c), quote));
                    },
                    None => {},
                }
            }
        }
    } else if body[i] == quote {
        assert(s[i + 1] == body[i]);
        assert(closing_from(body, quote, i) == Some(i));
        assert(body.subrange(i, i) =~= Seq::<u8>::empty());
        assert(pending + Seq::<u8>::empty() =~= pending);
        assert(s.skip(i + 2) =~= body.skip(i + 1));
    } else {
        assert(s[i + 1] == body[i]);
        assert(backslash_run(body, i + 1) == 0);
        assert(closing_from(body, quote, i) == closing_from(body, quote, i + 1));
        lemma_closing_from_bounds(body, quote, i + 1);
        lemma_scan_characterized(s, quote, i + 1, j, text);
        assert(body.subrange(j, i + 1) =~= pending + seq![body[i]]);
        match closing_from(body, quote, i) {
            Some(c) => {
                let x = body.subrange(i, c);
                assert(x.skip(1) =~= body.subrange(i + 1, c));
                assert(x[0] == body[i]);
                assert(unescape(x, quote) == seq![body[i]] + unescape(x.skip(1), quote));
                assert(pending + unescape(x, quote) =~= body.subrange(j, i + 1) + unescape(
                    body.subrange(i + 1, c),
                    quote,
                ));
            },
            None => {},
        }
    }
}

/// Where the opening quote of a quoted string stands: after a leading `b`, if any.
pub open spec fn quote_offset(input: Seq<u8>) -> int {
    if input.len() >= 1 && input[0] == 0x62 {
        1
    } else {
        0
    }
}

/// A quoted string, said directly: with `o` the offset of the opening quote `q` and `body`
/// what follows it, an input shorter than `o + 2` is too short; an opening byte other than a
/// single quote (or, without `b`, a double quote) is invalid; otherwise the string closes at
/// the first `q` after an even run of backslashes, its text is the body up to there with the
/// backslash of each escaped quote or backslash removed, decoded as UTF-8 (an encoding error
/// if that is not valid UTF-8), and the rest follows the closing quote. Without such a quote,
/// a body that is valid UTF-8 is reported as missing its close.
pub proof fn lemma_quoted_string_characterized(input: Seq<u8>)
    ensures
        ({
            let o = quote_offset(input);
            let q = input[o];
            let body = input.skip(o + 1);
            let opens = q == 0x27 || (o == 0 && q == 0x22);
            &&& input.len() < o + 2 ==> single_quoted_result(input) == failed(StringError::TooShort)
            &&& (input.len() >= o + 2 && !opens) ==> single_quoted_result(input) == failed(
                StringError::InvalidOpeningCharacter,
            )
            &&& (input.len() >= o + 2 && opens) ==> match closing_index(body, q) {
                Some(c) => {
                    let bytes = unescape(body.take(c), q);
                    single_quoted_result(input) == if valid_utf8(bytes) {
                        SpecResult::Done(body.skip(c + 1), decode_utf8(bytes))
                    } else {
                        failed(StringError::InvalidEncoding)
                    }
                },
                None => valid_utf8(body) ==> single_quoted_result(input) == failed(
                    StringError::InvalidClosingCharacter,
                ),
            }
        }),
{
    let o = quote_offset(input);
    let q = input[o];
    let body = input.skip(o + 1);
    if input.len() >= o + 2 && (q == 0x27 || (o == 0 && q == 0x22)) {
        let s = input.skip(o);
        assert(s.skip(1) =~= body);
        assert(s[0] == q);
        if o == 1 {
            assert(single_quoted_result(input) == single_quoted_result(s));
        }
        assert(single_quoted_result(s) == quoted_scan(s, q, 1, 1, Seq::empty()));
        assert(backslash_run(body, 0) == 0);
        lemma_scan_characterized(s, q, 0, 0, Seq::empty());
        assert(body.subrange(0, 0) =~= Seq::<u8>::empty());
        assert(body.subrange(0, body.len() as int) =~= body);
        lemma_closing_from_bounds(body, q, 0);
        if let Some(c) = closing_index(body, q) {
            assert(body.subrange(0, c) =~= body.take(c));
            let bytes = unescape(body.take(c), q);
            assert(Seq::<u8>::empty() + bytes =~= bytes);
            assert(Seq::<char>::empty() + decode_utf8(bytes) =~= decode_utf8(bytes));
        }
        if o == 0 {
            assert(s =~= input);
        }
    }
}

} // verus!
