//! Byte classes, runs of bytes of a class, fixed tags, and the numeric value of digit runs.
use vstd::prelude::*;
use vstd::slice::slice_subrange;
use crate::result::{ErrorKind, Needed, ParseError, ParseResult, SpecError, SpecResult};

verus! {

/// The classes of bytes that the literal grammars are built from.
#[derive(Debug, Clone, Copy, PartialEq, Eq)]
pub enum ByteClass {
    /// `0` and `1`.
    Binary,
    /// `0` to `7`.
    Octal,
    /// `0` to `9`.
    Decimal,
    /// `0` to `9`, `a` to `f`, `A` to `F`.
    Hexadecimal,
    /// A byte that may follow the first byte of an identifier: `a-zA-Z0-9_` and `0x7f..=0xff`.
    IdentifierTail,
}

/// A byte that may start an identifier: `a-zA-Z_` and `0x7f..=0xff`.
pub open spec fn is_identifier_head(b: u8) -> bool {
    (0x61 <= b <= 0x7a) || (0x41 <= b <= 0x5a) || b == 0x5f || b >= 0x7f
}

impl ByteClass {
    /// Whether `b` belongs to the class.
    pub open spec fn contains(self, b: u8) -> bool {
        match self {
            ByteClass::Binary => 0x30 <= b <= 0x31,
            ByteClass::Octal => 0x30 <= b <= 0x37,
            ByteClass::Decimal => 0x30 <= b <= 0x39,
            ByteClass::Hexadecimal => (0x30 <= b <= 0x39) || (0x41 <= b <= 0x46) || (0x61 <= b <= 0x66),
            ByteClass::IdentifierTail => (0x30 <= b <= 0x39) || is_identifier_head(b),
        }
    }

    /// Executable membership test.
    pub fn has(self, b: u8) -> (r: bool)
        ensures
            r == self.contains(b),
    {
        match self {
            ByteClass::Binary => 0x30 <= b && b <= 0x31,
            ByteClass::Octal => 0x30 <= b && b <= 0x37,
            ByteClass::Decimal => 0x30 <= b && b <= 0x39,
            ByteClass::Hexadecimal => (0x30 <= b && b <= 0x39) || (0x41 <= b && b <= 0x46) || (0x61
                <= b && b <= 0x66),
            ByteClass::IdentifierTail => (0x30 <= b && b <= 0x39) || identifier_head(b),
        }
    }
}

/// Executable test of [`is_identifier_head`].
pub fn identifier_head(b: u8) -> (r: bool)
    ensures
        r == is_identifier_head(b),
{
    (0x61 <= b && b <= 0x7a) || (0x41 <= b && b <= 0x5a) || b == 0x5f || b >= 0x7f
}

/// Length of the longest prefix of `s` whose bytes all belong to `c`.
pub open spec fn run(s: Seq<u8>, c: ByteClass) -> nat
    decreases s.len(),
{
    if s.len() > 0 && c.contains(s[0]) {
        1 + run(s.drop_first(), c)
    } else {
        0
    }
}

/// The longest run is a prefix of class bytes that stops at the end or at a byte outside the
/// class.
pub proof fn lemma_run(s: Seq<u8>, c: ByteClass)
    ensures
        run(s, c) <= s.len(),
        forall|j: int| 0 <= j < run(s, c) ==> c.contains(#[trigger] s[j]),
        run(s, c) < s.len() ==> !c.contains(s[run(s, c) as int]),
    decreases s.len(),
{
    if s.len() > 0 && c.contains(s[0]) {
        lemma_run(s.drop_first(), c);
        assert forall|j: int| 0 <= j < run(s, c) implies c.contains(#[trigger] s[j]) by {
            if j > 0 {
                assert(s[j] == s.drop_first()[j - 1]);
            }
        }
    }
}

/// Any prefix that stops at the end or at a byte outside the class is the longest run.
pub proof fn lemma_run_unique(s: Seq<u8>, c: ByteClass, k: int)
    requires
        0 <= k <= s.len(),
        forall|j: int| 0 <= j < k ==> c.contains(#[trigger] s[j]),
        k < s.len() ==> !c.contains(s[k]),
    ensures
        run(s, c) == k,
{
    lemma_run(s, c);
    if run(s, c) < k {
        assert(c.contains(s[run(s, c) as int]));
    }
    if k < run(s, c) {
        assert(c.contains(s[k]));
    }
}

/// Executable [`run`] of `s@.skip(start)`, as an end index into `s`.
pub fn run_end(s: &[u8], start: usize, c: ByteClass) -> (end: usize)
    requires
        start <= s@.len(),
    ensures
        start <= end <= s@.len(),
        end - start == run(s@.skip(start as int), c),
{
    let mut end = start;
    while end < s.len() && c.has(s[end])
        invariant
            start <= end <= s@.len(),
            forall|j: int| start <= j < end ==> c.contains(#[trigger] s@[j]),
        decreases s@.len() - end,
    {
        end = end + 1;
    }
    proof {
        let t = s@.skip(start as int);
        assert forall|j: int| 0 <= j < end - start implies c.contains(#[trigger] t[j]) by {
            assert(t[j] == s@[start + j]);
        }
        if end < s@.len() {
            assert(t[end - start] == s@[end as int]);
        }
        lemma_run_unique(t, c, end - start);
    }
    end
}

/// The nom-style `tag` combinator: the input agrees with `word` on their common length; a
/// shorter input asks for the full word; a longer one consumes it.
pub open spec fn tag_result(input: Seq<u8>, word: Seq<u8>) -> SpecResult<()> {
    let m = if input.len() < word.len() {
        input.len()
    } else {
        word.len()
    };
    if input.take(m as int) != word.take(m as int) {
        SpecResult::Error(SpecError::Position(ErrorKind::Tag, input))
    } else if m < word.len() {
        SpecResult::Incomplete(Needed::Size(word.len() as usize))
    } else {
        SpecResult::Done(input.skip(word.len() as int), ())
    }
}

/// Executable [`tag_result`].
pub fn tag<'a>(input: &'a [u8], word: &[u8]) -> (r: ParseResult<'a, ()>)
    ensures
        r@ == tag_result(input@, word@),
{
    let m = if input.len() < word.len() {
        input.len()
    } else {
        word.len()
    };
    let mut i: usize = 0;
    while i < m
        invariant
            m <= input@.len(),
            m <= word@.len(),
            m == input@.len() || m == word@.len(),
            i <= m,
            input@.take(i as int) =~= word@.take(i as int),
        decreases m - i,
    {
        if input[i] != word[i] {
            assert(input@.take(m as int)[i as int] != word@.take(m as int)[i as int]);
            return ParseResult::Error(ParseError::Position(ErrorKind::Tag, input));
        }
        i = i + 1;
        assert(input@.take(i as int) =~= input@.take(i - 1).push(input@[i - 1]));
        assert(word@.take(i as int) =~= word@.take(i - 1).push(word@[i - 1]));
    }
    if m < word.len() {
        ParseResult::Incomplete(Needed::Size(word.len()))
    } else {
        let rest = slice_subrange(input, word.len(), input.len());
        assert(rest@ =~= input@.skip(word@.len() as int));
        ParseResult::Done(rest, ())
    }
}

/// The value of a digit byte (0 for a byte that is no digit).
pub open spec fn digit_value(b: u8) -> nat {
    if 0x30 <= b <= 0x39 {
        (b - 0x30) as nat
    } else if 0x61 <= b <= 0x66 {
        (b - 0x61 + 10) as nat
    } else if 0x41 <= b <= 0x46 {
        (b - 0x41 + 10) as nat
    } else {
        0
    }
}

/// The number that the digits `s` denote in base `radix`, most significant digit first.
pub open spec fn digits_value(s: Seq<u8>, radix: nat) -> nat
    decreases s.len(),
{
    if s.len() == 0 {
        0
    } else {
        digits_value(s.drop_last(), radix) * radix + digit_value(s.last())
    }
}

/// The conversion of a digit run into a `u64`: none for an empty run or a value that does
/// not fit.
pub open spec fn digits_to_u64(s: Seq<u8>, radix: nat) -> Option<u64> {
    if s.len() == 0 || digits_value(s, radix) > u64::MAX {
        None
    } else {
        Some(digits_value(s, radix) as u64)
    }
}

/// A longer prefix of digits never denotes a smaller number.
pub proof fn lemma_digits_value_prefix(s: Seq<u8>, radix: nat, i: int, j: int)
    requires
        radix >= 1,
        0 <= i <= j <= s.len(),
    ensures
        digits_value(s.take(i), radix) <= digits_value(s.take(j), radix),
    decreases j - i,
{
    if i < j {
        lemma_digits_value_prefix(s, radix, i, j - 1);
        assert(s.take(j).drop_last() =~= s.take(j - 1));
        let v = digits_value(s.take(j - 1), radix);
        assert(v <= v * radix) by (nonlinear_arith)
            requires
                radix >= 1,
        ;
    }
}

/// Executable [`digits_to_u64`] of `s@.subrange(start, end)`, for a radix up to 16.
pub fn parse_digits(s: &[u8], start: usize, end: usize, radix: u64) -> (r: Option<u64>)
    requires
        start <= end <= s@.len(),
        2 <= radix <= 16,
    ensures
        r == digits_to_u64(s@.subrange(start as int, end as int), radix as nat),
{
    let ghost d = s@.subrange(start as int, end as int);
    if start == end {
        return None;
    }
    let mut acc: u64 = 0;
    let mut i = start;
    while i < end
        invariant
            start <= i <= end <= s@.len(),
            d == s@.subrange(start as int, end as int),
            2 <= radix <= 16,
            acc as nat == digits_value(d.take(i - start), radix as nat),
        decreases end - i,
    {
        let b = s[i];
        let dv: u64 = if 0x30 <= b && b <= 0x39 {
            (b - 0x30) as u64
        } else if 0x61 <= b && b <= 0x66 {
            (b - 0x61 + 10) as u64
        } else if 0x41 <= b && b <= 0x46 {
            (b - 0x41 + 10) as u64
        } else {
            0
        };
        let ghost k = i - start;
        proof {
            assert(d.take(k + 1).drop_last() =~= d.take(k));
            assert(d.take(k + 1).last() == b);
        }
        match acc.checked_mul(radix) {
            Some(m) => match m.checked_add(dv) {
                Some(n) => {
                    acc = n;
                },
                None => {
                    proof {
                        lemma_digits_value_prefix(d, radix as nat, k + 1, d.len() as int);
                        assert(d.take(d.len() as int) =~= d);
                    }
                    return None;
                },
            },
            None => {
                proof {
                    lemma_digits_value_prefix(d, radix as nat, k + 1, d.len() as int);
                    assert(d.take(d.len() as int) =~= d);
                    let v = acc as nat;
                    assert(v * radix + dv >= v * radix);
                }
                return None;
            },
        }
        i = i + 1;
    }
    assert(d.take(end - start) =~= d);
    Some(acc)
}

} // verus!
