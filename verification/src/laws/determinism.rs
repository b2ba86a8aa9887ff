//! Decoding the same bytes again gives the same again.

use crate::decode::{entry_decoded, text_decoded};
use crate::error::DecodeError;
use crate::grammar::{Decoded, Entry};
use crate::steam_header::{header_decoded, SteamHeader};
use crate::value::{lemma_same_view_same_value, same_value, MapValue};
use vstd::prelude::*;

verus! {

/// Decoding is a function of the bytes. Two decodes of the same bytes stop
/// at the same place, and either both fail with the same error or both give
/// the same name and values that are equal part by part.
pub proof fn lemma_decode_deterministic(
    d: Decoded<Entry>,
    r1: Result<(String, MapValue), DecodeError>,
    rest1: Seq<u8>,
    r2: Result<(String, MapValue), DecodeError>,
    rest2: Seq<u8>,
)
    requires
        entry_decoded(r1, rest1, d),
        entry_decoded(r2, rest2, d),
    ensures
        rest1 == rest2,
        match r1 {
            Ok(a) => r2 matches Ok(b) && a.0@ == b.0@ && a.1@ == b.1@ && same_value(a.1, b.1),
            Err(e) => r2 == Err::<(String, MapValue), DecodeError>(e),
        },
{
    if let Ok(a) = r1 {
        let b = r2->Ok_0;
        lemma_same_view_same_value(a.1, b.1);
    }
}

/// Two decodes of the same bytes as a string stop at the same place, and
/// either both fail with the same error or both give the same text.
pub proof fn lemma_text_deterministic(
    d: Decoded<Seq<char>>,
    r1: Result<String, DecodeError>,
    rest1: Seq<u8>,
    r2: Result<String, DecodeError>,
    rest2: Seq<u8>,
)
    requires
        text_decoded(r1, rest1, d),
        text_decoded(r2, rest2, d),
    ensures
        rest1 == rest2,
        match r1 {
            Ok(a) => r2 matches Ok(b) && a@ == b@,
            Err(e) => r2 == Err::<String, DecodeError>(e),
        },
{
}

/// Two decodes of the same bytes as a header stop at the same place and
/// give the same: the same header or the same error.
pub proof fn lemma_header_deterministic(
    d: Decoded<(u32, u32)>,
    r1: Result<SteamHeader, DecodeError>,
    rest1: Seq<u8>,
    r2: Result<SteamHeader, DecodeError>,
    rest2: Seq<u8>,
)
    requires
        header_decoded(r1, rest1, d),
        header_decoded(r2, rest2, d),
    ensures
        rest1 == rest2,
        r1 == r2,
{
    if let Ok(a) = r1 {
        a.lemma_same_fields(r2->Ok_0);
    }
}

} // verus!
