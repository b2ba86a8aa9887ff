//! Objects are mappings: of two entries with one name the later one stays,
//! and entries with different names may come in any order.

use crate::grammar::{done, entries, entry, Entry, Mapping};
use crate::laws::locality::lemma_entry_extend;
use vstd::prelude::*;

verus! {

/// The entries of an object that begin with the bytes of one entry are the
/// entries that follow it, put into a mapping that already holds that entry.
pub proof fn lemma_entries_first(a: Seq<u8>, pair: Entry, rest: Seq<u8>, acc: Mapping)
    requires
        entry(a) == done(pair, Seq::<u8>::empty()),
    ensures
        entries(a + rest, acc) == entries(rest, acc.insert(pair.0, pair.1)),
{
    lemma_entry_extend(a, rest);
    assert(Seq::<u8>::empty() + rest =~= rest);
    assert((a + rest)[0] == a[0]);
}

/// Of two entries with one name the later one stays: the earlier one might
/// as well not be there.
pub proof fn lemma_later_entry_wins(
    a: Seq<u8>,
    first: Entry,
    b: Seq<u8>,
    second: Entry,
    rest: Seq<u8>,
    acc: Mapping,
)
    requires
        entry(a) == done(first, Seq::<u8>::empty()),
        entry(b) == done(second, Seq::<u8>::empty()),
        first.0 == second.0,
    ensures
        entries(a + b + rest, acc) == entries(b + rest, acc),
{
    assert(a + b + rest =~= a + (b + rest));
    lemma_entries_first(a, first, b + rest, acc);
    lemma_entries_first(b, second, rest, acc.insert(first.0, first.1));
    lemma_entries_first(b, second, rest, acc);
    assert(acc.insert(first.0, first.1).insert(second.0, second.1) =~= acc.insert(
        second.0,
        second.1,
    ));
}

/// Two entries with different names may change places: the object is the
/// same.
pub proof fn lemma_entries_swap(
    a: Seq<u8>,
    first: Entry,
    b: Seq<u8>,
    second: Entry,
    rest: Seq<u8>,
    acc: Mapping,
)
    requires
        entry(a) == done(first, Seq::<u8>::empty()),
        entry(b) == done(second, Seq::<u8>::empty()),
        first.0 != second.0,
    ensures
        entries(a + b + rest, acc) == entries(b + a + rest, acc),
{
    assert(a + b + rest =~= a + (b + rest));
    assert(b + a + rest =~= b + (a + rest));
    lemma_entries_first(a, first, b + rest, acc);
    lemma_entries_first(b, second, rest, acc.insert(first.0, first.1));
    lemma_entries_first(b, second, a + rest, acc);
    lemma_entries_first(a, first, rest, acc.insert(second.0, second.1));
    assert(acc.insert(first.0, first.1).insert(second.0, second.1) =~= acc.insert(
        second.0,
        second.1,
    ).insert(first.0, first.1));
}

} // verus!
