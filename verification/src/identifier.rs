//! Identifiers: `[a-zA-Z_\x7f-\xff][a-zA-Z0-9_\x7f-\xff]*`, byte by byte.
use vstd::prelude::*;
use vstd::slice::slice_subrange;
use crate::lexeme::{ByteClass, identifier_head, is_identifier_head, run, run_end};
use crate::result::{ErrorKind, ParseError, ParseResult, SpecError, SpecResult};

verus! {

/// A head byte followed by the longest run of tail bytes; the value is the identifier's bytes.
pub open spec fn identifier_result(input: Seq<u8>) -> SpecResult<Seq<u8>> {
    if input.len() > 0 && is_identifier_head(input[0]) {
        let len = 1 + run(input.skip(1), ByteClass::IdentifierTail) as int;
        SpecResult::Done(input.skip(len), input.take(len))
    } else {
        SpecResult::Error(SpecError::Code(ErrorKind::RegexpFind))
    }
}

/// Recognizes an identifier such as `_fooBar42`.
pub fn identifier<'a>(input: &'a [u8]) -> (r: ParseResult<'a, &'a [u8]>)
    ensures
        r@ == identifier_result(input@),
{
    if input.len() > 0 && identifier_head(input[0]) {
        let end = run_end(input, 1, ByteClass::IdentifierTail);
        let name = slice_subrange(input, 0, end);
        let rest = slice_subrange(input, end, input.len());
        assert(name@ =~= input@.take(end as int));
        assert(rest@ =~= input@.skip(end as int));
        ParseResult::Done(rest, name)
    } else {
        ParseResult::Error(ParseError::Code(ErrorKind::RegexpFind))
    }
}

} // verus!
