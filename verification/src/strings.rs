//! String literals: quoted strings (`'...'`, `"..."`, `b'...'`) and nowdocs
//! (`<<<'NAME'\n...\nNAME;\n`), decoded as UTF-8.
use vstd::prelude::*;
use vstd::slice::slice_subrange;
use vstd::utf8::{decode_utf8, encode_utf8, encode_utf8_decode_utf8, valid_utf8};
use crate::result::{ErrorKind, ParseError, ParseResult, SpecError, SpecResult, StringError, string_error};

verus! {

/// `std::str::from_utf8`: its documentation promises a string slice over exactly the given
/// bytes when they are valid UTF-8, and an error otherwise; `valid_utf8` is vstd's statement
/// of that validity.
#[verifier::external_body]
fn utf8_text(bytes: &[u8]) -> (r: Option<&str>)
    ensures
        r is Some <==> valid_utf8(bytes@),
        r matches Some(s) ==> encode_utf8(s@) == bytes@,
{
    std::str::from_utf8(bytes).ok()
}

/// Appends the UTF-8 text of `input[start..end]` to `output`, or reports that it is not
/// valid UTF-8 (and leaves `output` unchanged).
fn append_text(output: &mut String, input: &[u8], start: usize, end: usize) -> (ok: bool)
    requires
        start <= end <= input@.len(),
    ensures
        ok == valid_utf8(input@.subrange(start as int, end as int)),
        ok ==> final(output)@ == old(output)@ + decode_utf8(input@.subrange(start as int, end as int)),
        !ok ==> final(output)@ == old(output)@,
{
    let segment = slice_subrange(input, start, end);
    match utf8_text(segment) {
        Some(text) => {
            proof {
                encode_utf8_decode_utf8(text@);
            }
            output.append(text);
            true
        },
        None => false,
    }
}

/// The error that a string parser reports, as a result.
pub open spec fn failed(e: StringError) -> SpecResult<Seq<char>> {
    string_error(e)
}

/// Scanning the body of a quoted string at `pos`, where `offset` starts the segment not yet
/// decoded and `text` is the text decoded so far. A backslash before the quote or before a
/// backslash is dropped and the escaped byte kept; a backslash before any other byte is kept
/// with that byte. Each segment is decoded when it ends.
pub open spec fn quoted_scan(input: Seq<u8>, quote: u8, pos: int, offset: int, text: Seq<char>) -> SpecResult<Seq<char>>
    decreases input.len() - pos,
{
    if pos >= input.len() {
        failed(StringError::InvalidClosingCharacter)
    } else if input[pos] == 0x5c {
        if pos + 1 >= input.len() {
            failed(StringError::InvalidClosingCharacter)
        } else if input[pos + 1] == quote || input[pos + 1] == 0x5c {
            let segment = input.subrange(offset, pos);
            if valid_utf8(segment) {
                quoted_scan(input, quote, pos + 2, pos + 1, text + decode_utf8(segment))
            } else {
                failed(StringError::InvalidEncoding)
            }
        } else {
            quoted_scan(input, quote, pos + 2, offset, text)
        }
    } else if input[pos] == quote {
        let segment = input.subrange(offset, pos);
        if valid_utf8(segment) {
            SpecResult::Done(input.skip(pos + 1), text + decode_utf8(segment))
        } else {
            failed(StringError::InvalidEncoding)
        }
    } else {
        quoted_scan(input, quote, pos + 1, offset, text)
    }
}

/// A quoted string: `'` or `"` opens it and the same byte closes it; a `b` before a `'`
/// is skipped.
pub open spec fn single_quoted_result(input: Seq<u8>) -> SpecResult<Seq<char>>
    decreases input.len(),
{
    if input.len() < 2 {
        failed(StringError::TooShort)
    } else if input[0] == 0x62 {
        if input.len() < 3 {
            failed(StringError::TooShort)
        } else if input[1] != 0x27 {
            failed(StringError::InvalidOpeningCharacter)
        } else {
            single_quoted_result(input.skip(1))
        }
    } else if input[0] != 0x27 && input[0] != 0x22 {
        failed(StringError::InvalidOpeningCharacter)
    } else {
        quoted_scan(input, input[0], 1, 1, Seq::empty())
    }
}

/// Recognizes a quoted string such as `'foo\'bar'`, `"foobar"` or `b'foobar'`.
pub fn string_single_quoted<'a>(input: &'a [u8]) -> (r: ParseResult<'a, String>)
    ensures
        r@ == single_quoted_result(input@),
    decreases input@.len(),
{
    let len = input.len();
    if len < 2 {
        return ParseResult::Error(ParseError::Code(ErrorKind::Custom(StringError::TooShort.code())));
    }
    if input[0] == 0x62 {
        if len < 3 {
            return ParseResult::Error(ParseError::Code(ErrorKind::Custom(StringError::TooShort.code())));
        } else if input[1] != 0x27 {
            return ParseResult::Error(
                ParseError::Code(ErrorKind::Custom(StringError::InvalidOpeningCharacter.code())),
            );
        } else {
            let tail = slice_subrange(input, 1, len);
            assert(tail@ =~= input@.skip(1));
            return string_single_quoted(tail);
        }
    } else if input[0] != 0x27 && input[0] != 0x22 {
        return ParseResult::Error(
            ParseError::Code(ErrorKind::Custom(StringError::InvalidOpeningCharacter.code())),
        );
    }
    let quote = input[0];
    let mut output = String::new();
    let mut offset: usize = 1;
    let mut pos: usize = 1;
    while pos < len
        invariant
            len == input@.len(),
            1 <= offset <= pos <= len,
            quote == input@[0],
            quoted_scan(input@, quote, pos as int, offset as int, output@) == single_quoted_result(input@),
        decreases len - pos,
    {
        let item = input[pos];
        if item == 0x5c {
            if pos + 1 >= len {
                return ParseResult::Error(
                    ParseError::Code(ErrorKind::Custom(StringError::InvalidClosingCharacter.code())),
                );
            }
            let next = input[pos + 1];
            if next == quote || next == 0x5c {
                if !append_text(&mut output, input, offset, pos) {
                    return ParseResult::Error(
                        ParseError::Code(ErrorKind::Custom(StringError::InvalidEncoding.code())),
                    );
                }
                offset = pos + 1;
            }
            pos = pos + 2;
        } else if item == quote {
            if !append_text(&mut output, input, offset, pos) {
                return ParseResult::Error(
                    ParseError::Code(ErrorKind::Custom(StringError::InvalidEncoding.code())),
                );
            }
            let rest = slice_subrange(input, pos + 1, len);
            assert(rest@ =~= input@.skip(pos + 1));
            return ParseResult::Done(rest, output);
        } else {
            pos = pos + 1;
        }
    }
    ParseResult::Error(ParseError::Code(ErrorKind::Custom(StringError::InvalidClosingCharacter.code())))
}

/// The bytes that open a nowdoc: `<<<'`.
pub open spec fn nowdoc_opening() -> Seq<u8> {
    seq![0x3cu8, 0x3c, 0x3c, 0x27]
}

/// Whether `s` begins with `prefix`.
pub open spec fn starts_with(s: Seq<u8>, prefix: Seq<u8>) -> bool {
    prefix.len() <= s.len() && s.take(prefix.len() as int) == prefix
}

/// The first position at or after `from` that holds a single quote.
pub open spec fn find_quote(input: Seq<u8>, from: int) -> Option<int>
    decreases input.len() - from,
{
    if from >= input.len() {
        None
    } else if input[from] == 0x27 {
        Some(from)
    } else {
        find_quote(input, from + 1)
    }
}

/// Where the search for the closing line of a nowdoc ends.
pub enum Terminator {
    /// A newline at the first field's position is followed by the name, an optional `;`
    /// and a newline; the rest of the input starts at the second field.
    Found(int, int),
    /// No closing line.
    Missing,
    /// A newline followed by the name runs into the end of the input where a `;` or a
    /// newline is to be read.
    OutOfBounds,
}

/// The search, from `pos` on, for a newline followed by `name`, an optional `;` and a
/// newline.
pub open spec fn find_terminator(input: Seq<u8>, name: Seq<u8>, pos: int) -> Terminator
    decreases input.len() - pos,
{
    if pos < 0 || pos >= input.len() {
        Terminator::Missing
    } else if input[pos] == 0x0a && starts_with(input.skip(pos + 1), name) {
        let after = pos + 1 + name.len();
        if after >= input.len() {
            Terminator::OutOfBounds
        } else {
            let end = if input[after] == 0x3b {
                after + 1
            } else {
                after
            };
            if end >= input.len() {
                Terminator::OutOfBounds
            } else if input[end] == 0x0a {
                Terminator::Found(pos, end + 1)
            } else {
                find_terminator(input, name, pos + 1)
            }
        }
    } else {
        find_terminator(input, name, pos + 1)
    }
}

/// Whether the nowdoc reader reads only within the input: the name's closing quote is not
/// the last byte, and no closing line candidate runs into the end of the input.
pub open spec fn nowdoc_in_bounds(input: Seq<u8>) -> bool {
    (input.len() >= 9 && input.take(4) == nowdoc_opening()) ==> match find_quote(input, 4) {
        Some(q) => q + 1 < input.len() && (input[q + 1] == 0x0a ==> find_terminator(
            input,
            input.subrange(4, q),
            q + 2,
        ) !is OutOfBounds),
        None => true,
    }
}

/// A nowdoc: `<<<'`, a name, `'` and a newline, then the body up to a newline that is
/// followed by the name, an optional `;` and a newline. The name is what stands between the
/// quotes; the first line of the body is never taken for the closing line.
pub open spec fn nowdoc_result(input: Seq<u8>) -> SpecResult<Seq<char>> {
    if input.len() < 9 {
        failed(StringError::TooShort)
    } else if input.take(4) != nowdoc_opening() {
        failed(StringError::InvalidOpeningCharacter)
    } else {
        match find_quote(input, 4) {
            None => failed(StringError::InvalidOpeningCharacter),
            Some(q) => if input[q + 1] != 0x0a {
                failed(StringError::InvalidOpeningCharacter)
            } else {
                match find_terminator(input, input.subrange(4, q), q + 2) {
                    Terminator::Found(p, rest) => {
                        let body = input.subrange(q + 2, p);
                        if valid_utf8(body) {
                            SpecResult::Done(input.skip(rest), decode_utf8(body))
                        } else {
                            failed(StringError::InvalidEncoding)
                        }
                    },
                    _ => failed(StringError::InvalidClosingCharacter),
                }
            },
        }
    }
}

/// Whether the bytes of `input` at `at` repeat those at `name_start..name_start + name_len`.
fn repeats_at(input: &[u8], at: usize, name_start: usize, name_len: usize) -> (r: bool)
    requires
        at <= input@.len(),
        name_start + name_len <= input@.len(),
    ensures
        r == starts_with(
            input@.skip(at as int),
            input@.subrange(name_start as int, name_start + name_len),
        ),
{
    if input.len() - at < name_len {
        return false;
    }
    let ghost t = input@.skip(at as int).take(name_len as int);
    let ghost name = input@.subrange(name_start as int, name_start + name_len);
    let mut j: usize = 0;
    while j < name_len
        invariant
            j <= name_len,
            at + name_len <= input.len(),
            name_start + name_len <= input@.len(),
            t == input@.skip(at as int).take(name_len as int),
            name == input@.subrange(name_start as int, name_start + name_len),
            forall|k: int| 0 <= k < j ==> #[trigger] t[k] == name[k],
        decreases name_len - j,
    {
        if input[at + j] != input[name_start + j] {
            assert(t[j as int] != name[j as int]);
            return false;
        }
        j = j + 1;
    }
    assert(t =~= name);
    true
}

/// Executable [`find_quote`].
fn search_quote(input: &[u8], from: usize) -> (r: Option<usize>)
    requires
        from <= input@.len(),
    ensures
        match r {
            Some(q) => find_quote(input@, from as int) == Some(q as int) && from <= q < input@.len(),
            None => find_quote(input@, from as int) is None,
        },
{
    let mut q = from;
    while q < input.len() && input[q] != 0x27
        invariant
            from <= q <= input@.len(),
            find_quote(input@, q as int) == find_quote(input@, from as int),
        decreases input@.len() - q,
    {
        q = q + 1;
    }
    if q == input.len() {
        None
    } else {
        Some(q)
    }
}

/// Executable form of [`Terminator`].
enum Closing {
    Found(usize, usize),
    Missing,
    OutOfBounds,
}

impl View for Closing {
    type V = Terminator;

    closed spec fn view(&self) -> Terminator {
        match self {
            Closing::Found(p, r) => Terminator::Found(*p as int, *r as int),
            Closing::Missing => Terminator::Missing,
            Closing::OutOfBounds => Terminator::OutOfBounds,
        }
    }
}

/// Executable [`find_terminator`] for the name `input[4..q]`, searched from `q + 2`.
fn search_terminator(input: &[u8], q: usize) -> (r: Closing)
    requires
        4 <= q,
        q + 1 < input@.len(),
    ensures
        r@ == find_terminator(input@, input@.subrange(4, q as int), q + 2),
        r matches Closing::Found(p, e) ==> q + 2 <= p < e <= input@.len(),
{
    let len = input.len();
    let name_len = q - 4;
    let ghost name = input@.subrange(4, q as int);
    let mut pos: usize = q + 2;
    while pos < len
        invariant
            len == input@.len(),
            q + 2 <= pos <= len,
            4 + name_len == q,
            name == input@.subrange(4, q as int),
            find_terminator(input@, name, pos as int) == find_terminator(input@, name, q + 2),
        decreases len - pos,
    {
        if input[pos] == 0x0a && repeats_at(input, pos + 1, 4, name_len) {
            let after = pos + 1 + name_len;
            if after >= len {
                return Closing::OutOfBounds;
            }
            let end = if input[after] == 0x3b {
                after + 1
            } else {
                after
            };
            if end >= len {
                return Closing::OutOfBounds;
            }
            if input[end] == 0x0a {
                return Closing::Found(pos, end + 1);
            }
        }
        pos = pos + 1;
    }
    Closing::Missing
}

/// Whether reading `input` as a nowdoc stays within the input (see [`nowdoc_in_bounds`]);
/// [`string_nowdoc`] and [`string`] may be called exactly on the inputs where it holds.
pub fn nowdoc_stays_in_input(input: &[u8]) -> (r: bool)
    ensures
        r == nowdoc_in_bounds(input@),
{
    if input.len() < 9 || !(input[0] == 0x3c && input[1] == 0x3c && input[2] == 0x3c && input[3]
        == 0x27) {
        proof {
            if input@.len() >= 9 {
                assert(input@.take(4)[0] != nowdoc_opening()[0] || input@.take(4)[1]
                    != nowdoc_opening()[1] || input@.take(4)[2] != nowdoc_opening()[2]
                    || input@.take(4)[3] != nowdoc_opening()[3]);
            }
        }
        return true;
    }
    assert(input@.take(4) =~= nowdoc_opening());
    match search_quote(input, 4) {
        None => true,
        Some(q) => {
            if q + 1 >= input.len() {
                false
            } else if input[q + 1] != 0x0a {
                true
            } else {
                match search_terminator(input, q) {
                    Closing::OutOfBounds => false,
                    _ => true,
                }
            }
        },
    }
}

/// Recognizes a nowdoc such as `<<<'FOO'\nhello\nFOO;\n`.
pub fn string_nowdoc<'a>(input: &'a [u8]) -> (r: ParseResult<'a, String>)
    requires
        nowdoc_in_bounds(input@),
    ensures
        r@ == nowdoc_result(input@),
{
    let len = input.len();
    if len < 9 {
        return ParseResult::Error(ParseError::Code(ErrorKind::Custom(StringError::TooShort.code())));
    }
    if !(input[0] == 0x3c && input[1] == 0x3c && input[2] == 0x3c && input[3] == 0x27) {
        assert(input@.take(4)[0] != nowdoc_opening()[0] || input@.take(4)[1] != nowdoc_opening()[1]
            || input@.take(4)[2] != nowdoc_opening()[2] || input@.take(4)[3] != nowdoc_opening()[3]);
        return ParseResult::Error(
            ParseError::Code(ErrorKind::Custom(StringError::InvalidOpeningCharacter.code())),
        );
    }
    assert(input@.take(4) =~= nowdoc_opening());
    let q = match search_quote(input, 4) {
        Some(q) => q,
        None => {
            return ParseResult::Error(
                ParseError::Code(ErrorKind::Custom(StringError::InvalidOpeningCharacter.code())),
            );
        },
    };
    if input[q + 1] != 0x0a {
        return ParseResult::Error(
            ParseError::Code(ErrorKind::Custom(StringError::InvalidOpeningCharacter.code())),
        );
    }
    match search_terminator(input, q) {
        Closing::Found(pos, rest_start) => {
            let mut output = String::new();
            if !append_text(&mut output, input, q + 2, pos) {
                return ParseResult::Error(
                    ParseError::Code(ErrorKind::Custom(StringError::InvalidEncoding.code())),
                );
            }
            assert(output@ =~= decode_utf8(input@.subrange(q + 2, pos as int)));
            let rest = slice_subrange(input, rest_start, len);
            assert(rest@ =~= input@.skip(rest_start as int));
            ParseResult::Done(rest, output)
        },
        _ => ParseResult::Error(
            ParseError::Code(ErrorKind::Custom(StringError::InvalidClosingCharacter.code())),
        ),
    }
}

/// A string: a quoted string; failing that, for an input that opens with a double quote,
/// the quoted string's error; for any other input a nowdoc, failing that an `Alt` error at
/// the input.
pub open spec fn string_result(input: Seq<u8>) -> SpecResult<Seq<char>> {
    match single_quoted_result(input) {
        SpecResult::Done(rest, text) => SpecResult::Done(rest, text),
        quoted => if input.len() > 0 && input[0] == 0x22 {
            quoted
        } else {
            match nowdoc_result(input) {
                SpecResult::Done(rest, text) => SpecResult::Done(rest, text),
                _ => SpecResult::Error(SpecError::Position(ErrorKind::Alt, input)),
            }
        },
    }
}

/// Recognizes a string literal, quoted or nowdoc.
pub fn string<'a>(input: &'a [u8]) -> (r: ParseResult<'a, String>)
    requires
        nowdoc_in_bounds(input@),
    ensures
        r@ == string_result(input@),
{
    match string_single_quoted(input) {
        ParseResult::Done(rest, text) => ParseResult::Done(rest, text),
        quoted => if input.len() > 0 && input[0] == 0x22 {
            quoted
        } else {
            match string_nowdoc(input) {
                ParseResult::Done(rest, text) => ParseResult::Done(rest, text),
                _ => ParseResult::Error(ParseError::Position(ErrorKind::Alt, input)),
            }
        },
    }
}

} // verus!
