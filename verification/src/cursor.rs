//! The primitive reads on a cursor. A cursor is a byte slice: the bytes that
//! have not been consumed yet. Each read here is done by the parser library or
//! by the standard library; its contract says what that call does and is not
//! proved.

use crate::grammar::{le_u32_value, le_u64_value};
use vstd::prelude::*;
use vstd::utf8::{decode_utf8, valid_utf8};
use winnow::error::{ContextError, ErrMode};
use winnow::Parser;

verus! {

/// `winnow::token::any` on a byte slice: consumes the byte under the cursor
/// and returns it. On an empty cursor it fails and consumes nothing.
#[verifier::external_body]
pub(crate) fn take_byte(input: &mut &[u8]) -> (r: Option<u8>)
    ensures
        old(input)@.len() == 0 ==> r is None && final(input)@ == old(input)@,
        old(input)@.len() > 0 ==> r == Some(old(input)@[0])
            && final(input)@ == old(input)@.skip(1),
{
    winnow::token::any::<&[u8], ContextError>(input).ok()
}

/// `winnow::token::take_until(0.., 0u8)` on a byte slice: returns the bytes
/// that stand before the first zero byte and leaves the cursor on that zero
/// byte. Where there is no zero byte it fails and consumes nothing.
#[verifier::external_body]
pub(crate) fn take_until_nul<'a>(input: &mut &'a [u8]) -> (r: Option<&'a [u8]>)
    ensures
        match r {
            Some(text) => {
                &&& text@.len() < old(input)@.len()
                &&& text@ == old(input)@.take(text@.len() as int)
                &&& forall|i: int| 0 <= i < text@.len() ==> text@[i] != 0
                &&& old(input)@[text@.len() as int] == 0
                &&& final(input)@ == old(input)@.skip(text@.len() as int)
            },
            None => {
                &&& forall|i: int| 0 <= i < old(input)@.len() ==> old(input)@[i] != 0
                &&& final(input)@ == old(input)@
            },
        },
{
    let found: Result<&'a [u8], ErrMode<ContextError>> = winnow::token::take_until(0.., 0u8)
        .parse_next(input);
    found.ok()
}

/// `winnow::binary::le_u32` on a byte slice: consumes four bytes and returns
/// the number that they hold, lowest byte first. On fewer than four bytes it
/// fails and consumes nothing.
#[verifier::external_body]
pub(crate) fn take_le_u32(input: &mut &[u8]) -> (r: Option<u32>)
    ensures
        old(input)@.len() < 4 ==> r is None && final(input)@ == old(input)@,
        old(input)@.len() >= 4 ==> r == Some(le_u32_value(old(input)@))
            && final(input)@ == old(input)@.skip(4),
{
    winnow::binary::le_u32::<&[u8], ContextError>(input).ok()
}

/// `winnow::binary::le_u64` on a byte slice: consumes eight bytes and returns
/// the number that they hold, lowest byte first. On fewer than eight bytes it
/// fails and consumes nothing.
#[verifier::external_body]
pub(crate) fn take_le_u64(input: &mut &[u8]) -> (r: Option<u64>)
    ensures
        old(input)@.len() < 8 ==> r is None && final(input)@ == old(input)@,
        old(input)@.len() >= 8 ==> r == Some(le_u64_value(old(input)@))
            && final(input)@ == old(input)@.skip(8),
{
    winnow::binary::le_u64::<&[u8], ContextError>(input).ok()
}

/// `core::str::from_utf8`: the bytes as a string slice where they are valid
/// UTF-8, and nothing where they are not.
#[verifier::external_body]
pub(crate) fn str_from_utf8<'a>(bytes: &'a [u8]) -> (r: Option<&'a str>)
    ensures
        r is Some <==> valid_utf8(bytes@),
        r matches Some(text) ==> text@ == decode_utf8(bytes@),
{
    core::str::from_utf8(bytes).ok()
}

} // verus!
