//! The tag decoder: reads entries from a cursor that only moves forward.
//!
//! Every function here takes the cursor by mutable reference, consumes what
//! it decodes, and says in its contract which value of `grammar` it computes.
//! A failure is final. It leaves the cursor on the first byte of the field
//! that could not be decoded.

use crate::cursor::{str_from_utf8, take_byte, take_le_u32, take_le_u64, take_until_nul};
use crate::error::DecodeError;
use crate::grammar::{
    cstring, entries, entry, float_entry, int32_entry, int64_entry, is_entry_tag,
    lemma_entry_consumes, lemma_tagged_name_rest, lemma_text_len_is, object, string_entry,
    tag_byte, tagged_name, u32_le, u64_le, Decoded, Entry, OBJECT_END, TAG_FLOAT, TAG_INT32,
    TAG_INT64, TAG_OBJECT, TAG_STRING,
};
use crate::value::{MapValue, ObjectMap};
use vstd::prelude::*;

verus! {

/// `r` and `rest` are what `d` says: the same failure, or a text with the
/// same characters, and the same bytes left.
pub open spec fn text_decoded(
    r: Result<String, DecodeError>,
    rest: Seq<u8>,
    d: Decoded<Seq<char>>,
) -> bool {
    &&& rest == d.rest
    &&& match d.result {
        Ok(text) => r matches Ok(s) && s@ == text,
        Err(e) => r == Err::<String, DecodeError>(e),
    }
}

/// `r` and `rest` are what `d` says: the same failure, or the same name with
/// a well-formed value that stands for the same tree, and the same bytes left.
pub open spec fn entry_decoded(
    r: Result<(String, MapValue), DecodeError>,
    rest: Seq<u8>,
    d: Decoded<Entry>,
) -> bool {
    &&& rest == d.rest
    &&& match d.result {
        Ok(pair) => r matches Ok(e) && e.0@ == pair.0 && e.1@ == pair.1 && e.1.wf(),
        Err(e) => r == Err::<(String, MapValue), DecodeError>(e),
    }
}

/// Decodes a null-terminated string: the bytes before the first zero byte,
/// which must be valid UTF-8. The zero byte is consumed.
pub fn parse_string(input: &mut &[u8]) -> (r: Result<String, DecodeError>)
    ensures
        text_decoded(r, final(input)@, cstring(old(input)@)),
{
    let start: &[u8] = *input;
    match take_until_nul(input) {
        None => {
            proof {
                lemma_text_len_is(start@, start@.len() as int);
            }
            Err(DecodeError::Truncation)
        },
        Some(bytes) => {
            proof {
                assert forall|i: int| 0 <= i < bytes@.len() implies start@[i] != 0 by {
                    assert(start@[i] == bytes@[i]);
                }
                lemma_text_len_is(start@, bytes@.len() as int);
            }
            match str_from_utf8(bytes) {
                None => {
                    *input = start;
                    Err(DecodeError::Encoding)
                },
                Some(text) => {
                    let _ = take_byte(input);
                    assert(input@ =~= start@.skip(bytes@.len() as int + 1));
                    Ok(text.to_string())
                },
            }
        },
    }
}

/// Consumes the byte under the cursor if it is `tag`.
fn parse_tag(input: &mut &[u8], tag: u8) -> (r: Result<(), DecodeError>)
    ensures
        r == tag_byte(tag, old(input)@).result,
        final(input)@ == tag_byte(tag, old(input)@).rest,
{
    let mut ahead: &[u8] = *input;
    match take_byte(&mut ahead) {
        None => Err(DecodeError::Truncation),
        Some(b) => {
            if b == tag {
                *input = ahead;
                Ok(())
            } else {
                Err(DecodeError::UnrecognizedTag)
            }
        },
    }
}

/// Decodes the tag `tag` and the name that follows it.
fn parse_tagged_name(input: &mut &[u8], tag: u8) -> (r: Result<String, DecodeError>)
    ensures
        text_decoded(r, final(input)@, tagged_name(tag, old(input)@)),
{
    match parse_tag(input, tag) {
        Err(e) => Err(e),
        Ok(_) => parse_string(input),
    }
}

/// Decodes a little-endian unsigned 32-bit number.
fn parse_u32(input: &mut &[u8]) -> (r: Result<u32, DecodeError>)
    ensures
        r == u32_le(old(input)@).result,
        final(input)@ == u32_le(old(input)@).rest,
{
    match take_le_u32(input) {
        None => Err(DecodeError::Truncation),
        Some(v) => Ok(v),
    }
}

/// Decodes a little-endian unsigned 64-bit number.
fn parse_u64(input: &mut &[u8]) -> (r: Result<u64, DecodeError>)
    ensures
        r == u64_le(old(input)@).result,
        final(input)@ == u64_le(old(input)@).rest,
{
    match take_le_u64(input) {
        None => Err(DecodeError::Truncation),
        Some(v) => Ok(v),
    }
}

/// Decodes a 32-bit integer entry: the tag `0x02`, the name, and four bytes.
pub fn parse_integer32_entity(input: &mut &[u8]) -> (r: Result<(String, MapValue), DecodeError>)
    ensures
        entry_decoded(r, final(input)@, int32_entry(old(input)@)),
{
    let name = match parse_tagged_name(input, TAG_INT32) {
        Err(e) => { return Err(e); },
        Ok(name) => name,
    };
    match parse_u32(input) {
        Err(e) => Err(e),
        Ok(v) => Ok((name, MapValue::Number32(v))),
    }
}

/// Decodes a float entry: the tag `0x03`, the name, and the four bytes of an
/// IEEE-754 single-precision number, which are kept as its bit pattern.
pub fn parse_float_entity(input: &mut &[u8]) -> (r: Result<(String, MapValue), DecodeError>)
    ensures
        entry_decoded(r, final(input)@, float_entry(old(input)@)),
{
    let name = match parse_tagged_name(input, TAG_FLOAT) {
        Err(e) => { return Err(e); },
        Ok(name) => name,
    };
    match parse_u32(input) {
        Err(e) => Err(e),
        Ok(bits) => Ok((name, MapValue::NumberFloat(bits))),
    }
}

/// Decodes a 64-bit integer entry: the tag `0x07`, the name, and eight bytes.
pub fn parse_integer64_entity(input: &mut &[u8]) -> (r: Result<(String, MapValue), DecodeError>)
    ensures
        entry_decoded(r, final(input)@, int64_entry(old(input)@)),
{
    let name = match parse_tagged_name(input, TAG_INT64) {
        Err(e) => { return Err(e); },
        Ok(name) => name,
    };
    match parse_u64(input) {
        Err(e) => Err(e),
        Ok(v) => Ok((name, MapValue::Number64(v))),
    }
}

/// Decodes a string entry: the tag `0x01`, the name, and a second string.
pub fn parse_string_entity(input: &mut &[u8]) -> (r: Result<(String, MapValue), DecodeError>)
    ensures
        entry_decoded(r, final(input)@, string_entry(old(input)@)),
{
    let name = match parse_tagged_name(input, TAG_STRING) {
        Err(e) => { return Err(e); },
        Ok(name) => name,
    };
    match parse_string(input) {
        Err(e) => Err(e),
        Ok(text) => Ok((name, MapValue::String(text))),
    }
}

/// Decodes an object: the tag `0x00`, the name, the entries and the end byte
/// `0x08`. Of two entries with one name the later one stays.
pub fn parse_hash_entity(input: &mut &[u8]) -> (r: Result<(String, MapValue), DecodeError>)
    ensures
        entry_decoded(r, final(input)@, object(old(input)@)),
    decreases old(input)@.len(), 0nat,
{
    let name = match parse_tagged_name(input, TAG_OBJECT) {
        Err(e) => { return Err(e); },
        Ok(name) => name,
    };
    proof {
        lemma_tagged_name_rest(TAG_OBJECT, old(input)@);
    }
    let ghost body = input@;
    let mut map = ObjectMap::new();
    loop
        invariant
            map.wf(),
            input@.len() < old(input)@.len(),
            entries(input@, map@) == entries(body, Map::empty()),
            tagged_name(TAG_OBJECT, old(input)@) == (Decoded {
                result: Ok::<Seq<char>, DecodeError>(name@),
                rest: body,
            }),
            body.len() < old(input)@.len(),
        decreases input@.len(),
    {
        let here: &[u8] = *input;
        let mut ahead: &[u8] = here;
        match take_byte(&mut ahead) {
            None => {
                return Err(DecodeError::Truncation);
            },
            Some(b) => {
                if b == OBJECT_END {
                    *input = ahead;
                    return Ok((name, MapValue::Object(map)));
                }
            },
        }
        match parse_map_value(input) {
            Err(e) => {
                *input = here;
                return Err(e);
            },
            Ok(pair) => {
                proof {
                    lemma_entry_consumes(here@);
                }
                let _ = map.insert(pair.0, pair.1);
            },
        }
    }
}

/// Decodes one entry of whatever kind its tag says. A byte that is no tag
/// fails the decode and is not consumed.
pub fn parse_map_value(input: &mut &[u8]) -> (r: Result<(String, MapValue), DecodeError>)
    ensures
        entry_decoded(r, final(input)@, entry(old(input)@)),
        old(input)@.len() > 0 && !is_entry_tag(old(input)@[0]) ==> {
            &&& r matches Err(e)
            &&& e == DecodeError::UnrecognizedTag
            &&& final(input)@ == old(input)@
        },
    decreases old(input)@.len(), 1nat,
{
    let mut ahead: &[u8] = *input;
    match take_byte(&mut ahead) {
        None => Err(DecodeError::Truncation),
        Some(tag) => {
            if tag == TAG_STRING {
                parse_string_entity(input)
            } else if tag == TAG_INT32 {
                parse_integer32_entity(input)
            } else if tag == TAG_FLOAT {
                parse_float_entity(input)
            } else if tag == TAG_INT64 {
                parse_integer64_entity(input)
            } else if tag == TAG_OBJECT {
                parse_hash_entity(input)
            } else {
                Err(DecodeError::UnrecognizedTag)
            }
        },
    }
}

} // verus!
