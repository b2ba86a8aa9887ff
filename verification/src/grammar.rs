//! The wire format, written as functions from the bytes under the cursor to
//! what they decode to and what is left of them.
//!
//! ```text
//! Object      := 0x00 name:CString Entry* 0x08
//! Entry       := StringEntry | Int32Entry | FloatEntry | Int64Entry | Object
//! StringEntry := 0x01 name:CString value:CString
//! Int32Entry  := 0x02 name:CString value:u32-LE
//! FloatEntry  := 0x03 name:CString value:f32-LE
//! Int64Entry  := 0x07 name:CString value:u64-LE
//! CString     := bytes-not-containing-0x00 0x00
//! ```

use crate::error::DecodeError;
use crate::value::ValueTree;
use vstd::prelude::*;
use vstd::utf8::{decode_utf8, valid_utf8};

verus! {

/// The tag of a nested object.
pub const TAG_OBJECT: u8 = 0x00;

/// The tag of a string entry.
pub const TAG_STRING: u8 = 0x01;

/// The tag of a 32-bit integer entry.
pub const TAG_INT32: u8 = 0x02;

/// The tag of a float entry.
pub const TAG_FLOAT: u8 = 0x03;

/// The tag of a 64-bit integer entry.
pub const TAG_INT64: u8 = 0x07;

/// The byte that ends an object.
pub const OBJECT_END: u8 = 0x08;

/// The outcome of decoding one item: the value or the failure, and the bytes
/// that are still under the cursor afterwards.
pub struct Decoded<T> {
    pub result: Result<T, DecodeError>,
    pub rest: Seq<u8>,
}

/// A name and the value that stands under it.
pub type Entry = (Seq<char>, ValueTree);

/// The names of an object with their values.
pub type Mapping = Map<Seq<char>, ValueTree>;

/// A successful outcome.
pub open spec fn done<T>(value: T, rest: Seq<u8>) -> Decoded<T> {
    Decoded { result: Ok(value), rest }
}

/// A failure.
pub open spec fn failed<T>(error: DecodeError, rest: Seq<u8>) -> Decoded<T> {
    Decoded { result: Err(error), rest }
}

/// The number of bytes of `s` that stand before its first zero byte, or the
/// length of `s` where it holds none.
pub open spec fn text_len(s: Seq<u8>) -> nat
    decreases s.len(),
{
    if s.len() == 0 || s[0] == 0 {
        0
    } else {
        1 + text_len(s.drop_first())
    }
}

/// The unsigned number that the first four bytes of `s` hold, lowest byte
/// first.
pub open spec fn le_u32_value(s: Seq<u8>) -> u32
    recommends
        s.len() >= 4,
{
    (s[0] as int + s[1] as int * 0x100 + s[2] as int * 0x1_0000 + s[3] as int * 0x100_0000) as u32
}

/// The unsigned number that the first eight bytes of `s` hold, lowest byte
/// first.
pub open spec fn le_u64_value(s: Seq<u8>) -> u64
    recommends
        s.len() >= 8,
{
    (le_u32_value(s) as int + le_u32_value(s.skip(4)) as int * 0x1_0000_0000) as u64
}

/// `CString`: the bytes up to the first zero byte, read as UTF-8. The zero
/// byte is consumed and is no part of the text. A string that fails leaves
/// the cursor where it was.
pub open spec fn cstring(s: Seq<u8>) -> Decoded<Seq<char>> {
    let n = text_len(s) as int;
    if n >= s.len() {
        failed(DecodeError::Truncation, s)
    } else if !valid_utf8(s.take(n)) {
        failed(DecodeError::Encoding, s)
    } else {
        done(decode_utf8(s.take(n)), s.skip(n + 1))
    }
}

/// The tag `tag`, consumed.
pub open spec fn tag_byte(tag: u8, s: Seq<u8>) -> Decoded<()> {
    if s.len() == 0 {
        failed(DecodeError::Truncation, s)
    } else if s[0] != tag {
        failed(DecodeError::UnrecognizedTag, s)
    } else {
        done((), s.skip(1))
    }
}

/// The tag `tag` and the name that follows it.
pub open spec fn tagged_name(tag: u8, s: Seq<u8>) -> Decoded<Seq<char>> {
    let t = tag_byte(tag, s);
    match t.result {
        Err(e) => failed(e, t.rest),
        Ok(_) => cstring(t.rest),
    }
}

/// A little-endian unsigned 32-bit number.
pub open spec fn u32_le(s: Seq<u8>) -> Decoded<u32> {
    if s.len() < 4 {
        failed(DecodeError::Truncation, s)
    } else {
        done(le_u32_value(s), s.skip(4))
    }
}

/// A little-endian unsigned 64-bit number.
pub open spec fn u64_le(s: Seq<u8>) -> Decoded<u64> {
    if s.len() < 8 {
        failed(DecodeError::Truncation, s)
    } else {
        done(le_u64_value(s), s.skip(8))
    }
}

/// `StringEntry`.
pub open spec fn string_entry(s: Seq<u8>) -> Decoded<Entry> {
    let name = tagged_name(TAG_STRING, s);
    match name.result {
        Err(e) => failed(e, name.rest),
        Ok(n) => {
            let text = cstring(name.rest);
            match text.result {
                Err(e) => failed(e, text.rest),
                Ok(t) => done((n, ValueTree::String(t)), text.rest),
            }
        },
    }
}

/// `Int32Entry`.
pub open spec fn int32_entry(s: Seq<u8>) -> Decoded<Entry> {
    let name = tagged_name(TAG_INT32, s);
    match name.result {
        Err(e) => failed(e, name.rest),
        Ok(n) => {
            let number = u32_le(name.rest);
            match number.result {
                Err(e) => failed(e, number.rest),
                Ok(v) => done((n, ValueTree::Number32(v)), number.rest),
            }
        },
    }
}

/// `FloatEntry`. The four bytes of the payload are the bit pattern of the
/// number, lowest byte first.
pub open spec fn float_entry(s: Seq<u8>) -> Decoded<Entry> {
    let name = tagged_name(TAG_FLOAT, s);
    match name.result {
        Err(e) => failed(e, name.rest),
        Ok(n) => {
            let bits = u32_le(name.rest);
            match bits.result {
                Err(e) => failed(e, bits.rest),
                Ok(v) => done((n, ValueTree::NumberFloat(v)), bits.rest),
            }
        },
    }
}

/// `Int64Entry`.
pub open spec fn int64_entry(s: Seq<u8>) -> Decoded<Entry> {
    let name = tagged_name(TAG_INT64, s);
    match name.result {
        Err(e) => failed(e, name.rest),
        Ok(n) => {
            let number = u64_le(name.rest);
            match number.result {
                Err(e) => failed(e, number.rest),
                Ok(v) => done((n, ValueTree::Number64(v)), number.rest),
            }
        },
    }
}

/// Whether `tag` is the tag of an entry.
pub open spec fn is_entry_tag(tag: u8) -> bool {
    tag == TAG_OBJECT || tag == TAG_STRING || tag == TAG_INT32 || tag == TAG_FLOAT || tag
        == TAG_INT64
}

/// `Entry`: the byte under the cursor says which entry follows. It is looked
/// at, not consumed: the entry that it selects reads it again.
pub open spec fn entry(s: Seq<u8>) -> Decoded<Entry>
    decreases s.len(), 1nat,
{
    if s.len() == 0 {
        failed(DecodeError::Truncation, s)
    } else if s[0] == TAG_STRING {
        string_entry(s)
    } else if s[0] == TAG_INT32 {
        int32_entry(s)
    } else if s[0] == TAG_FLOAT {
        float_entry(s)
    } else if s[0] == TAG_INT64 {
        int64_entry(s)
    } else if s[0] == TAG_OBJECT {
        object(s)
    } else {
        failed(DecodeError::UnrecognizedTag, s)
    }
}

/// `Object`: the tag, the name, the entries and the end byte.
pub open spec fn object(s: Seq<u8>) -> Decoded<Entry>
    decreases s.len(), 0nat,
{
    let name = tagged_name(TAG_OBJECT, s);
    match name.result {
        Err(e) => failed(e, name.rest),
        Ok(n) => {
            let body = entries(name.rest, Map::empty());
            match body.result {
                Err(e) => failed(e, body.rest),
                Ok(m) => done((n, ValueTree::Object(m)), body.rest),
            }
        },
    }
}

/// `Entry* 0x08`: the entries of an object up to its end byte, put one after
/// the other into `acc`, so that of two entries with one name the later one
/// stays. An entry that fails leaves the cursor at its first byte, and its
/// error is the error of the whole.
///
/// An entry that decodes consumes at least its tag (`lemma_entry_consumes`),
/// so the last branch is never taken.
pub open spec fn entries(s: Seq<u8>, acc: Mapping) -> Decoded<Mapping>
    decreases s.len(), 2nat,
{
    if s.len() == 0 {
        failed(DecodeError::Truncation, s)
    } else if s[0] == OBJECT_END {
        done(acc, s.skip(1))
    } else {
        let first = entry(s);
        match first.result {
            Err(e) => failed(e, s),
            Ok(pair) => if first.rest.len() < s.len() {
                entries(first.rest, acc.insert(pair.0, pair.1))
            } else {
                failed(DecodeError::Truncation, s)
            },
        }
    }
}

/// `rest` is what is left of `s` after some of its first bytes are gone.
pub open spec fn is_suffix(rest: Seq<u8>, s: Seq<u8>) -> bool {
    rest.len() <= s.len() && rest == s.skip(s.len() - rest.len())
}

/// The bytes before the first zero byte hold no zero byte, and the byte that
/// follows them, if there is one, is zero.
pub proof fn lemma_text_len(s: Seq<u8>)
    ensures
        text_len(s) <= s.len(),
        forall|i: int| 0 <= i < text_len(s) ==> s[i] != 0,
        text_len(s) < s.len() ==> s[text_len(s) as int] == 0,
    decreases s.len(),
{
    if s.len() > 0 && s[0] != 0 {
        let t = s.drop_first();
        lemma_text_len(t);
        assert forall|i: int| 0 <= i < text_len(s) implies s[i] != 0 by {
            if i > 0 {
                assert(s[i] == t[i - 1]);
            }
        }
    }
}

/// A run of `n` bytes without a zero byte, at the end of `s` or before a zero
/// byte, is the run that `text_len` measures.
pub proof fn lemma_text_len_is(s: Seq<u8>, n: int)
    requires
        0 <= n <= s.len(),
        forall|i: int| 0 <= i < n ==> s[i] != 0,
        n < s.len() ==> s[n] == 0,
    ensures
        text_len(s) == n,
    decreases s.len(),
{
    if n > 0 {
        let t = s.drop_first();
        assert forall|i: int| 0 <= i < n - 1 implies t[i] != 0 by {
            assert(t[i] == s[i + 1]);
        }
        lemma_text_len_is(t, n - 1);
    }
}

/// What a string leaves is a suffix of what it was given, and a shorter one
/// where it decodes.
pub proof fn lemma_cstring_rest(s: Seq<u8>)
    ensures
        is_suffix(cstring(s).rest, s),
        cstring(s).result is Ok ==> cstring(s).rest.len() < s.len(),
{
    lemma_text_len(s);
    assert(s.skip(0) =~= s);
}

/// What a tag and a name leave is a suffix of what they were given, and a
/// shorter one where they decode.
pub proof fn lemma_tagged_name_rest(tag: u8, s: Seq<u8>)
    ensures
        is_suffix(tagged_name(tag, s).rest, s),
        tagged_name(tag, s).result is Ok ==> tagged_name(tag, s).rest.len() < s.len(),
{
    assert(s.skip(0) =~= s);
    if s.len() > 0 {
        lemma_cstring_rest(s.skip(1));
        let r = cstring(s.skip(1)).rest;
        assert(r =~= s.skip(s.len() - r.len()));
    }
}

/// What an entry leaves is a suffix of what it was given.
pub proof fn lemma_entry_rest(s: Seq<u8>)
    ensures
        is_suffix(entry(s).rest, s),
        entry(s).result is Ok ==> entry(s).rest.len() < s.len(),
    decreases s.len(), 1nat,
{
    assert(s.skip(0) =~= s);
    if s.len() > 0 {
        if s[0] == TAG_OBJECT {
            lemma_object_rest(s);
        } else if is_entry_tag(s[0]) {
            lemma_tagged_name_rest(s[0], s);
            let name = tagged_name(s[0], s);
            if name.result is Ok {
                let r = name.rest;
                if s[0] == TAG_STRING {
                    lemma_cstring_rest(r);
                    let q = cstring(r).rest;
                    assert(q =~= s.skip(s.len() - q.len()));
                } else if s[0] == TAG_INT64 {
                    assert(u64_le(r).rest =~= s.skip(s.len() - u64_le(r).rest.len()));
                } else {
                    assert(u32_le(r).rest =~= s.skip(s.len() - u32_le(r).rest.len()));
                }
            }
        }
    }
}

/// What an object leaves is a suffix of what it was given.
pub proof fn lemma_object_rest(s: Seq<u8>)
    ensures
        is_suffix(object(s).rest, s),
        object(s).result is Ok ==> object(s).rest.len() < s.len(),
    decreases s.len(), 0nat,
{
    assert(s.skip(0) =~= s);
    lemma_tagged_name_rest(TAG_OBJECT, s);
    let name = tagged_name(TAG_OBJECT, s);
    if name.result is Ok {
        lemma_entries_rest(name.rest, Map::empty());
        let q = entries(name.rest, Map::empty()).rest;
        assert(q =~= s.skip(s.len() - q.len()));
    }
}

/// What the entries of an object leave is a suffix of what they were given.
pub proof fn lemma_entries_rest(s: Seq<u8>, acc: Mapping)
    ensures
        is_suffix(entries(s, acc).rest, s),
        entries(s, acc).result is Ok ==> entries(s, acc).rest.len() < s.len(),
    decreases s.len(), 2nat,
{
    assert(s.skip(0) =~= s);
    if s.len() > 0 && s[0] != OBJECT_END {
        lemma_entry_rest(s);
        let first = entry(s);
        if first.result is Ok {
            let pair = first.result->Ok_0;
            lemma_entries_rest(first.rest, acc.insert(pair.0, pair.1));
            let q = entries(first.rest, acc.insert(pair.0, pair.1)).rest;
            assert(q =~= s.skip(s.len() - q.len()));
        }
    }
}

/// An entry that decodes consumes at least one byte, so the entries of an
/// object are decoded one after the other until the end byte or a failure.
pub proof fn lemma_entry_consumes(s: Seq<u8>)
    ensures
        entry(s).result is Ok ==> entry(s).rest.len() < s.len(),
{
    lemma_entry_rest(s);
}

} // verus!
