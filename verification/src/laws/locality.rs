//! An entry is its own bytes: what follows them changes nothing, and with
//! any of them missing there is no entry.

use crate::error::DecodeError;
use crate::grammar::{
    cstring, entries, entry, float_entry, int32_entry, int64_entry, lemma_cstring_rest,
    lemma_entries_rest, lemma_entry_rest, lemma_object_rest, lemma_tagged_name_rest,
    lemma_text_len, lemma_text_len_is, object, string_entry, tagged_name, text_len, u32_le,
    u64_le, Decoded, Entry, Mapping, OBJECT_END, TAG_FLOAT, TAG_INT32, TAG_INT64, TAG_OBJECT,
    TAG_STRING,
};
use vstd::prelude::*;

verus! {

/// The number of bytes by which decoding `s` to `d` moved the cursor.
pub open spec fn consumed<T>(s: Seq<u8>, d: Decoded<T>) -> int {
    s.len() - d.rest.len()
}

/// `short`, the outcome on the first `k` bytes of `s`, is what `full`, the
/// successful outcome on all of `s`, lets expect: the same value and the
/// same bytes left, as far as they go, where the `k` bytes hold all that was
/// consumed; a truncation where they do not.
pub open spec fn cut_to<T>(s: Seq<u8>, k: int, full: Decoded<T>, short: Decoded<T>) -> bool {
    if k >= consumed(s, full) {
        short == (Decoded { result: full.result, rest: full.rest.take(k - consumed(s, full)) })
    } else {
        short.result == Err::<T, DecodeError>(DecodeError::Truncation)
    }
}

/// A string is decoded from the bytes that it consumes alone, and fails as
/// truncated on fewer.
pub proof fn lemma_cstring_cut(s: Seq<u8>, k: int)
    requires
        cstring(s).result is Ok,
        0 <= k <= s.len(),
    ensures
        cut_to(s, k, cstring(s), cstring(s.take(k))),
{
    let n = text_len(s) as int;
    let t = s.take(k);
    lemma_text_len(s);
    if k >= n + 1 {
        lemma_text_len_is(t, n);
        assert(t.take(n) =~= s.take(n));
        assert(t.skip(n + 1) =~= s.skip(n + 1).take(k - (n + 1)));
    } else {
        lemma_text_len_is(t, k);
    }
}

/// A tag and a name are decoded from the bytes that they consume alone, and
/// fail as truncated on fewer.
pub proof fn lemma_tagged_name_cut(tag: u8, s: Seq<u8>, k: int)
    requires
        tagged_name(tag, s).result is Ok,
        0 <= k <= s.len(),
    ensures
        cut_to(s, k, tagged_name(tag, s), tagged_name(tag, s.take(k))),
{
    if k >= 1 {
        lemma_cstring_cut(s.skip(1), k - 1);
        assert(s.take(k).skip(1) =~= s.skip(1).take(k - 1));
    }
}

/// A 32-bit number is decoded from its four bytes alone, and fails as
/// truncated on fewer.
pub proof fn lemma_u32_cut(s: Seq<u8>, k: int)
    requires
        u32_le(s).result is Ok,
        0 <= k <= s.len(),
    ensures
        cut_to(s, k, u32_le(s), u32_le(s.take(k))),
{
    if k >= 4 {
        assert(s.take(k).skip(4) =~= s.skip(4).take(k - 4));
    }
}

/// A 64-bit number is decoded from its eight bytes alone, and fails as
/// truncated on fewer.
pub proof fn lemma_u64_cut(s: Seq<u8>, k: int)
    requires
        u64_le(s).result is Ok,
        0 <= k <= s.len(),
    ensures
        cut_to(s, k, u64_le(s), u64_le(s.take(k))),
{
    if k >= 8 {
        assert(s.take(k).skip(8) =~= s.skip(8).take(k - 8));
        assert(s.take(k).skip(4) =~= s.skip(4).take(k - 4));
    }
}

/// A string entry is decoded from the bytes that it consumes alone, and
/// fails as truncated on fewer.
pub proof fn lemma_string_entry_cut(s: Seq<u8>, k: int)
    requires
        string_entry(s).result is Ok,
        0 <= k <= s.len(),
    ensures
        cut_to(s, k, string_entry(s), string_entry(s.take(k))),
{
    let name = tagged_name(TAG_STRING, s);
    lemma_tagged_name_rest(TAG_STRING, s);
    lemma_tagged_name_cut(TAG_STRING, s, k);
    lemma_cstring_rest(name.rest);
    if k >= consumed(s, name) {
        lemma_cstring_cut(name.rest, k - consumed(s, name));
    }
}

/// A 32-bit integer entry is decoded from the bytes that it consumes alone,
/// and fails as truncated on fewer.
pub proof fn lemma_int32_entry_cut(s: Seq<u8>, k: int)
    requires
        int32_entry(s).result is Ok,
        0 <= k <= s.len(),
    ensures
        cut_to(s, k, int32_entry(s), int32_entry(s.take(k))),
{
    let name = tagged_name(TAG_INT32, s);
    lemma_tagged_name_rest(TAG_INT32, s);
    lemma_tagged_name_cut(TAG_INT32, s, k);
    if k >= consumed(s, name) {
        lemma_u32_cut(name.rest, k - consumed(s, name));
    }
}

/// A float entry is decoded from the bytes that it consumes alone, and fails
/// as truncated on fewer.
pub proof fn lemma_float_entry_cut(s: Seq<u8>, k: int)
    requires
        float_entry(s).result is Ok,
        0 <= k <= s.len(),
    ensures
        cut_to(s, k, float_entry(s), float_entry(s.take(k))),
{
    let name = tagged_name(TAG_FLOAT, s);
    lemma_tagged_name_rest(TAG_FLOAT, s);
    lemma_tagged_name_cut(TAG_FLOAT, s, k);
    if k >= consumed(s, name) {
        lemma_u32_cut(name.rest, k - consumed(s, name));
    }
}

/// A 64-bit integer entry is decoded from the bytes that it consumes alone,
/// and fails as truncated on fewer.
pub proof fn lemma_int64_entry_cut(s: Seq<u8>, k: int)
    requires
        int64_entry(s).result is Ok,
        0 <= k <= s.len(),
    ensures
        cut_to(s, k, int64_entry(s), int64_entry(s.take(k))),
{
    let name = tagged_name(TAG_INT64, s);
    lemma_tagged_name_rest(TAG_INT64, s);
    lemma_tagged_name_cut(TAG_INT64, s, k);
    if k >= consumed(s, name) {
        lemma_u64_cut(name.rest, k - consumed(s, name));
    }
}

/// An entry is decoded from the bytes that it consumes alone: cut off
/// anywhere behind them, the bytes give the same value and stop the cursor at
/// the same place. Cut off before that, they fail as truncated, so that an
/// object without its end byte, or a number without its last byte, is no
/// value.
pub proof fn lemma_entry_cut(s: Seq<u8>, k: int)
    requires
        entry(s).result is Ok,
        0 <= k <= s.len(),
    ensures
        cut_to(s, k, entry(s), entry(s.take(k))),
    decreases s.len(), 1nat,
{
    lemma_entry_rest(s);
    if k >= 1 {
        assert(s.take(k)[0] == s[0]);
        if s[0] == TAG_STRING {
            lemma_string_entry_cut(s, k);
        } else if s[0] == TAG_INT32 {
            lemma_int32_entry_cut(s, k);
        } else if s[0] == TAG_FLOAT {
            lemma_float_entry_cut(s, k);
        } else if s[0] == TAG_INT64 {
            lemma_int64_entry_cut(s, k);
        } else {
            lemma_object_cut(s, k);
        }
    }
}

/// An object is decoded from the bytes that it consumes alone, and fails as
/// truncated on fewer.
pub proof fn lemma_object_cut(s: Seq<u8>, k: int)
    requires
        object(s).result is Ok,
        0 <= k <= s.len(),
    ensures
        cut_to(s, k, object(s), object(s.take(k))),
    decreases s.len(), 0nat,
{
    let name = tagged_name(TAG_OBJECT, s);
    lemma_tagged_name_rest(TAG_OBJECT, s);
    lemma_tagged_name_cut(TAG_OBJECT, s, k);
    lemma_entries_rest(name.rest, Map::empty());
    if k >= consumed(s, name) {
        lemma_entries_cut(name.rest, Map::empty(), k - consumed(s, name));
    }
}

/// The entries of an object are decoded from the bytes that they consume
/// alone, and fail as truncated on fewer.
pub proof fn lemma_entries_cut(s: Seq<u8>, acc: Mapping, k: int)
    requires
        entries(s, acc).result is Ok,
        0 <= k <= s.len(),
    ensures
        cut_to(s, k, entries(s, acc), entries(s.take(k), acc)),
    decreases s.len(), 2nat,
{
    lemma_entries_rest(s, acc);
    if k >= 1 {
        assert(s.take(k)[0] == s[0]);
        if s[0] == OBJECT_END {
            assert(s.take(k).skip(1) =~= s.skip(1).take(k - 1));
        } else {
            let first = entry(s);
            let pair = first.result->Ok_0;
            let next = acc.insert(pair.0, pair.1);
            lemma_entry_rest(s);
            lemma_entry_cut(s, k);
            lemma_entries_rest(first.rest, next);
            if k >= consumed(s, first) {
                lemma_entries_cut(first.rest, next, k - consumed(s, first));
            }
        }
    }
}

/// `long`, the outcome on `s` followed by `tail`, is `full`, the outcome on
/// `s` alone, with `tail` left untouched behind it.
pub open spec fn followed_by<T>(tail: Seq<u8>, full: Decoded<T>, long: Decoded<T>) -> bool {
    long == (Decoded { result: full.result, rest: full.rest + tail })
}

/// Bytes that follow a string do not change what it decodes to.
pub proof fn lemma_cstring_extend(s: Seq<u8>, tail: Seq<u8>)
    requires
        cstring(s).result is Ok,
    ensures
        followed_by(tail, cstring(s), cstring(s + tail)),
{
    let n = text_len(s) as int;
    let t = s + tail;
    lemma_text_len(s);
    assert forall|i: int| 0 <= i < n implies t[i] != 0 by {
        assert(t[i] == s[i]);
    }
    assert(t[n] == s[n]);
    lemma_text_len_is(t, n);
    assert(t.take(n) =~= s.take(n));
    assert(t.skip(n + 1) =~= s.skip(n + 1) + tail);
}

/// Bytes that follow a tag and a name do not change what they decode to.
pub proof fn lemma_tagged_name_extend(tag: u8, s: Seq<u8>, tail: Seq<u8>)
    requires
        tagged_name(tag, s).result is Ok,
    ensures
        followed_by(tail, tagged_name(tag, s), tagged_name(tag, s + tail)),
{
    lemma_cstring_extend(s.skip(1), tail);
    assert((s + tail).skip(1) =~= s.skip(1) + tail);
}

/// Bytes that follow a 32-bit number do not change it.
pub proof fn lemma_u32_extend(s: Seq<u8>, tail: Seq<u8>)
    requires
        u32_le(s).result is Ok,
    ensures
        followed_by(tail, u32_le(s), u32_le(s + tail)),
{
    assert((s + tail).skip(4) =~= s.skip(4) + tail);
}

/// Bytes that follow a 64-bit number do not change it.
pub proof fn lemma_u64_extend(s: Seq<u8>, tail: Seq<u8>)
    requires
        u64_le(s).result is Ok,
    ensures
        followed_by(tail, u64_le(s), u64_le(s + tail)),
{
    assert((s + tail).skip(8) =~= s.skip(8) + tail);
    assert((s + tail).skip(4) =~= s.skip(4) + tail);
}

/// Bytes that follow an entry do not change what it decodes to, and are all
/// left under the cursor: an entry consumes its own bytes and no more.
pub proof fn lemma_entry_extend(s: Seq<u8>, tail: Seq<u8>)
    requires
        entry(s).result is Ok,
    ensures
        followed_by(tail, entry(s), entry(s + tail)),
    decreases s.len(), 1nat,
{
    let tag = s[0];
    assert((s + tail)[0] == tag);
    if tag == TAG_OBJECT {
        lemma_object_extend(s, tail);
    } else {
        let name = tagged_name(tag, s);
        lemma_tagged_name_extend(tag, s, tail);
        if tag == TAG_STRING {
            lemma_cstring_extend(name.rest, tail);
        } else if tag == TAG_INT64 {
            lemma_u64_extend(name.rest, tail);
        } else {
            lemma_u32_extend(name.rest, tail);
        }
    }
}

/// Bytes that follow an object do not change what it decodes to.
pub proof fn lemma_object_extend(s: Seq<u8>, tail: Seq<u8>)
    requires
        object(s).result is Ok,
    ensures
        followed_by(tail, object(s), object(s + tail)),
    decreases s.len(), 0nat,
{
    let name = tagged_name(TAG_OBJECT, s);
    lemma_tagged_name_rest(TAG_OBJECT, s);
    lemma_tagged_name_extend(TAG_OBJECT, s, tail);
    lemma_entries_extend(name.rest, Map::empty(), tail);
}

/// Bytes that follow the entries of an object and its end byte do not change
/// what they decode to.
pub proof fn lemma_entries_extend(s: Seq<u8>, acc: Mapping, tail: Seq<u8>)
    requires
        entries(s, acc).result is Ok,
    ensures
        followed_by(tail, entries(s, acc), entries(s + tail, acc)),
    decreases s.len(), 2nat,
{
    assert((s + tail)[0] == s[0]);
    if s[0] == OBJECT_END {
        assert((s + tail).skip(1) =~= s.skip(1) + tail);
    } else {
        let first = entry(s);
        let pair = first.result->Ok_0;
        lemma_entry_rest(s);
        lemma_entry_extend(s, tail);
        lemma_entries_extend(first.rest, acc.insert(pair.0, pair.1), tail);
    }
}

/// A proper prefix of the bytes of an entry fails as truncated: an object
/// without its end byte and a number without its last byte are no values.
pub proof fn lemma_truncated_entry_fails(s: Seq<u8>, k: int)
    requires
        entry(s).result is Ok,
        0 <= k < consumed(s, entry(s)),
    ensures
        entry(s.take(k)).result == Err::<Entry, DecodeError>(DecodeError::Truncation),
{
    lemma_entry_rest(s);
    lemma_entry_cut(s, k);
}

/// A proper prefix of the bytes of an object fails as truncated.
pub proof fn lemma_truncated_object_fails(s: Seq<u8>, k: int)
    requires
        object(s).result is Ok,
        0 <= k < consumed(s, object(s)),
    ensures
        object(s.take(k)).result == Err::<Entry, DecodeError>(DecodeError::Truncation),
{
    lemma_object_rest(s);
    lemma_object_cut(s, k);
}

/// The bytes that the entries of an object consume end with the end byte.
pub proof fn lemma_entries_end(s: Seq<u8>, acc: Mapping)
    requires
        entries(s, acc).result is Ok,
    ensures
        0 < consumed(s, entries(s, acc)) <= s.len(),
        s[consumed(s, entries(s, acc)) - 1] == OBJECT_END,
    decreases s.len(),
{
    lemma_entries_rest(s, acc);
    if s[0] != OBJECT_END {
        let first = entry(s);
        let pair = first.result->Ok_0;
        lemma_entry_rest(s);
        lemma_entries_end(first.rest, acc.insert(pair.0, pair.1));
    }
}

/// The bytes of an object begin with the tag of an object and end with the
/// end byte: the two frame the name and the entries and belong to neither.
pub proof fn lemma_object_framing(s: Seq<u8>)
    requires
        object(s).result is Ok,
    ensures
        2 < consumed(s, object(s)) <= s.len(),
        s[0] == TAG_OBJECT,
        s[consumed(s, object(s)) - 1] == OBJECT_END,
{
    let name = tagged_name(TAG_OBJECT, s);
    lemma_tagged_name_rest(TAG_OBJECT, s);
    lemma_text_len(s.skip(1));
    lemma_entries_end(name.rest, Map::empty());
}

} // verus!
