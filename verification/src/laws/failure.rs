//! Failures: an error that comes up anywhere inside an entry is the error of
//! the entry.

use crate::error::DecodeError;
use crate::grammar::{
    entries, entry, is_entry_tag, lemma_tagged_name_rest, object, tagged_name, Entry, Mapping,
    OBJECT_END, TAG_OBJECT,
};
use vstd::prelude::*;

verus! {

/// Decoding the entry at `s` comes to decode an entry at `p`: the entry at
/// `s` itself, or, where that is an object, one of its entries, or an entry
/// of one of those, and so on to any depth.
pub open spec fn entry_visits(s: Seq<u8>, p: Seq<u8>) -> bool
    decreases s.len(), 1nat,
{
    p == s || (s.len() > 0 && s[0] == TAG_OBJECT && object_visits(s, p))
}

/// Decoding the object at `s` comes to decode an entry at `p`.
pub open spec fn object_visits(s: Seq<u8>, p: Seq<u8>) -> bool
    decreases s.len(), 0nat,
{
    let name = tagged_name(TAG_OBJECT, s);
    name.result is Ok && entries_visit(name.rest, p)
}

/// Decoding the entries at `s` comes to decode an entry at `p`: the first
/// of them does, or it decodes and the entries that follow it do.
pub open spec fn entries_visit(s: Seq<u8>, p: Seq<u8>) -> bool
    decreases s.len(), 2nat,
{
    &&& s.len() > 0
    &&& s[0] != OBJECT_END
    &&& {
        ||| entry_visits(s, p)
        ||| {
            &&& entry(s).result is Ok
            &&& entry(s).rest.len() < s.len()
            &&& entries_visit(entry(s).rest, p)
        }
    }
}

/// A failure travels unchanged through every level of nesting: where
/// decoding the entry at `s` comes to an entry at `p` that fails, the entry
/// at `s` fails with the same error and no value.
pub proof fn lemma_failure_propagates(s: Seq<u8>, p: Seq<u8>)
    requires
        entry_visits(s, p),
        entry(p).result is Err,
    ensures
        entry(s).result == entry(p).result,
    decreases s.len(), 1nat,
{
    if p != s {
        lemma_object_failure_propagates(s, p);
    }
}

/// An object fails with the error of the entry that fails in it, at any
/// depth.
pub proof fn lemma_object_failure_propagates(s: Seq<u8>, p: Seq<u8>)
    requires
        object_visits(s, p),
        entry(p).result is Err,
    ensures
        object(s).result == entry(p).result,
    decreases s.len(), 0nat,
{
    lemma_tagged_name_rest(TAG_OBJECT, s);
    lemma_entries_failure_propagates(tagged_name(TAG_OBJECT, s).rest, Map::empty(), p);
}

/// The entries of an object fail with the error of the entry that fails
/// among them, at any depth and whatever was decoded before it.
pub proof fn lemma_entries_failure_propagates(s: Seq<u8>, acc: Mapping, p: Seq<u8>)
    requires
        entries_visit(s, p),
        entry(p).result is Err,
    ensures
        entries(s, acc).result == Err::<Mapping, DecodeError>(entry(p).result->Err_0),
    decreases s.len(), 2nat,
{
    if entry_visits(s, p) {
        lemma_failure_propagates(s, p);
    } else {
        let pair = entry(s).result->Ok_0;
        lemma_entries_failure_propagates(entry(s).rest, acc.insert(pair.0, pair.1), p);
    }
}

/// A byte that is no tag fails the decode wherever decoding looks for a
/// tag, also deep inside nested objects.
pub proof fn lemma_unknown_tag_fails(s: Seq<u8>, p: Seq<u8>)
    requires
        entry_visits(s, p),
        p.len() > 0,
        !is_entry_tag(p[0]),
    ensures
        entry(s).result == Err::<Entry, DecodeError>(DecodeError::UnrecognizedTag),
{
    lemma_failure_propagates(s, p);
}

} // verus!
