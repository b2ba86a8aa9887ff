//! The value model: what one decoded entry holds.

use crate::key_order::{
    key_less, key_lt, lemma_key_lt_irreflexive, lemma_key_lt_total, lemma_key_lt_transitive,
};
use vstd::prelude::*;
use vstd::std_specs::cmp::PartialEqSpecImpl;

verus! {

/// The mathematical value of a decoded payload: a scalar, a text, or a mapping
/// from names to further values.
pub enum ValueTree {
    /// An unsigned 32-bit integer.
    Number32(u32),
    /// An unsigned 64-bit integer.
    Number64(u64),
    /// The bit pattern of an IEEE-754 single-precision number.
    NumberFloat(u32),
    /// A text.
    String(Seq<char>),
    /// A mapping from names to values.
    Object(Map<Seq<char>, ValueTree>),
}

/// The payload of one decoded entry.
#[derive(Debug)]
pub enum MapValue {
    /// An unsigned 32-bit integer.
    Number32(u32),
    /// An unsigned 64-bit integer.
    Number64(u64),
    /// An IEEE-754 single-precision number, held as its bit pattern.
    NumberFloat(u32),
    /// A text, without its terminator.
    String(String),
    /// A nested object.
    Object(ObjectMap),
}

/// The entries of an object: a mapping from names to values in which every
/// name occurs once. The entries are kept in the order of their names, so two
/// objects that hold the same mapping hold the same entries.
#[derive(Debug)]
pub struct ObjectMap {
    entries: Vec<(String, MapValue)>,
}

/// The contents of a whole file: its entries by name.
#[derive(Debug, PartialEq)]
pub struct VdfFile {
    entries: ObjectMap,
}

/// Every name comes before the names that follow it.
pub open spec fn sorted_by_key(s: Seq<(String, MapValue)>) -> bool {
    forall|i: int, j: int|
        #![trigger s[i], s[j]]
        0 <= i < j < s.len() ==> key_lt(s[i].0@, s[j].0@)
}

/// The mapping that the first `n` entries of `s` denote. Where a name occurs
/// twice the later entry counts.
pub open spec fn mapping_upto(s: Seq<(String, MapValue)>, n: nat) -> Map<Seq<char>, ValueTree>
    decreases s, n,
{
    if n == 0 || n > s.len() {
        Map::empty()
    } else {
        mapping_upto(s, (n - 1) as nat).insert(s[n - 1].0@, s[n - 1].1@)
    }
}

/// Some entry of `s` has the name `k`.
pub open spec fn has_key(s: Seq<(String, MapValue)>, k: Seq<char>) -> bool {
    exists|i: int| 0 <= i < s.len() && (#[trigger] s[i]).0@ == k
}

impl View for MapValue {
    type V = ValueTree;

    open spec fn view(&self) -> ValueTree
        decreases self,
    {
        match self {
            MapValue::Number32(n) => ValueTree::Number32(*n),
            MapValue::Number64(n) => ValueTree::Number64(*n),
            MapValue::NumberFloat(bits) => ValueTree::NumberFloat(*bits),
            MapValue::String(s) => ValueTree::String(s@),
            MapValue::Object(m) => ValueTree::Object(m@),
        }
    }
}

impl View for ObjectMap {
    type V = Map<Seq<char>, ValueTree>;

    open spec fn view(&self) -> Map<Seq<char>, ValueTree>
        decreases self,
    {
        mapping_upto(self.items(), self.items().len())
    }
}

/// `a` and `b` are equal part by part: the same kind of value with the same
/// number or the same characters, or objects that hold entries with the same
/// names and equal values in the same order.
pub open spec fn same_value(a: MapValue, b: MapValue) -> bool
    decreases a,
{
    match (a, b) {
        (MapValue::Number32(x), MapValue::Number32(y)) => x == y,
        (MapValue::Number64(x), MapValue::Number64(y)) => x == y,
        (MapValue::NumberFloat(x), MapValue::NumberFloat(y)) => x == y,
        (MapValue::String(x), MapValue::String(y)) => x@ == y@,
        (MapValue::Object(x), MapValue::Object(y)) => same_items(x.items(), y.items()),
        _ => false,
    }
}

/// `x` and `y` hold entries with the same names and equal values in the
/// same order.
pub open spec fn same_items(x: Seq<(String, MapValue)>, y: Seq<(String, MapValue)>) -> bool
    decreases x,
{
    &&& x.len() == y.len()
    &&& forall|i: int|
        0 <= i < x.len() ==> (#[trigger] x[i]).0@ == y[i].0@ && same_value(x[i].1, y[i].1)
}

impl MapValue {
    /// Every object in the value, at any depth, keeps its entries in order.
    pub open spec fn wf(&self) -> bool
        decreases self,
    {
        match self {
            MapValue::Object(m) => m.wf(),
            _ => true,
        }
    }

    /// Whether the two values are equal part by part.
    fn is_same(&self, other: &Self) -> (r: bool)
        ensures
            r == same_value(*self, *other),
        decreases self,
    {
        match (self, other) {
            (MapValue::Number32(x), MapValue::Number32(y)) => *x == *y,
            (MapValue::Number64(x), MapValue::Number64(y)) => *x == *y,
            (MapValue::NumberFloat(x), MapValue::NumberFloat(y)) => *x == *y,
            (MapValue::String(x), MapValue::String(y)) => *x == *y,
            (MapValue::Object(x), MapValue::Object(y)) => x.is_same(y),
            _ => false,
        }
    }

    /// A copy of the value that shares nothing with it.
    fn duplicate(&self) -> (r: Self)
        ensures
            same_value(*self, r),
        decreases self,
    {
        match self {
            MapValue::Number32(n) => MapValue::Number32(*n),
            MapValue::Number64(n) => MapValue::Number64(*n),
            MapValue::NumberFloat(bits) => MapValue::NumberFloat(*bits),
            MapValue::String(s) => MapValue::String(s.clone()),
            MapValue::Object(m) => MapValue::Object(m.duplicate()),
        }
    }
}

impl PartialEq for MapValue {
    fn eq(&self, other: &Self) -> (r: bool) {
        self.is_same(other)
    }
}

impl PartialEqSpecImpl for MapValue {
    open spec fn obeys_eq_spec() -> bool {
        true
    }

    open spec fn eq_spec(&self, other: &Self) -> bool {
        same_value(*self, *other)
    }
}

impl PartialEq for ObjectMap {
    fn eq(&self, other: &Self) -> (r: bool) {
        self.is_same(other)
    }
}

impl PartialEqSpecImpl for ObjectMap {
    open spec fn obeys_eq_spec() -> bool {
        true
    }

    open spec fn eq_spec(&self, other: &Self) -> bool {
        same_items(self.items(), other.items())
    }
}

impl Clone for MapValue {
    fn clone(&self) -> (r: Self)
        ensures
            same_value(*self, r),
            r@ == self@,
            r.wf() == self.wf(),
    {
        let r = self.duplicate();
        proof {
            lemma_same_value_same_view(*self, r);
        }
        r
    }
}

impl Clone for ObjectMap {
    fn clone(&self) -> (r: Self)
        ensures
            same_items(self.items(), r.items()),
            r@ == self@,
            r.wf() == self.wf(),
    {
        let r = self.duplicate();
        proof {
            lemma_same_items_same_mapping(self.items(), r.items(), self.items().len());
            self.lemma_wf_alike(r);
        }
        r
    }
}

impl ObjectMap {
    /// The entries as they are held.
    pub closed spec fn items(&self) -> Seq<(String, MapValue)> {
        self.entries@
    }

    /// The entries are in the strict order of their names, and every value is
    /// well formed in turn.
    pub open spec fn wf(&self) -> bool
        decreases self,
    {
        &&& sorted_by_key(self.items())
        &&& forall|i: int| 0 <= i < self.items().len() ==> (#[trigger] self.items()[i]).1.wf()
    }

    /// An object without entries.
    pub fn new() -> (m: Self)
        ensures
            m.wf(),
            m.items().len() == 0,
            m@ == Map::<Seq<char>, ValueTree>::empty(),
    {
        ObjectMap { entries: Vec::new() }
    }

    /// Whether the two objects hold entries that are equal part by part.
    fn is_same(&self, other: &Self) -> (r: bool)
        ensures
            r == same_items(self.items(), other.items()),
        decreases self,
    {
        if self.entries.len() != other.entries.len() {
            return false;
        }
        let mut i: usize = 0;
        while i < self.entries.len()
            invariant
                self.entries@.len() == other.entries@.len(),
                i <= self.entries@.len(),
                forall|j: int|
                    0 <= j < i ==> (#[trigger] self.entries@[j]).0@ == other.entries@[j].0@
                        && same_value(self.entries@[j].1, other.entries@[j].1),
            decreases self.entries@.len() - i,
        {
            if self.entries[i].0 != other.entries[i].0 {
                return false;
            }
            if !self.entries[i].1.is_same(&other.entries[i].1) {
                return false;
            }
            i += 1;
        }
        true
    }

    /// A copy of the object that shares nothing with it.
    fn duplicate(&self) -> (r: Self)
        ensures
            same_items(self.items(), r.items()),
        decreases self,
    {
        let mut entries: Vec<(String, MapValue)> = Vec::new();
        let mut i: usize = 0;
        while i < self.entries.len()
            invariant
                i <= self.entries@.len(),
                entries@.len() == i,
                forall|j: int|
                    0 <= j < i ==> (#[trigger] self.entries@[j]).0@ == entries@[j].0@
                        && same_value(self.entries@[j].1, entries@[j].1),
            decreases self.entries@.len() - i,
        {
            let name = self.entries[i].0.clone();
            let value = self.entries[i].1.duplicate();
            entries.push((name, value));
            i += 1;
        }
        ObjectMap { entries }
    }

    /// The number of entries, which is the number of names in the mapping.
    pub fn len(&self) -> (n: usize)
        ensures
            n == self.items().len(),
            self.wf() ==> n == self@.len(),
    {
        proof {
            if self.wf() {
                lemma_mapping_len(self.items(), self.items().len());
            }
        }
        self.entries.len()
    }

    /// The entries, in the order of their names.
    pub fn as_slice(&self) -> (s: &[(String, MapValue)])
        ensures
            s@ == self.items(),
    {
        self.entries.as_slice()
    }

    /// Where `key` stands among the entries, or where it would have to stand.
    fn position(&self, key: &str) -> (r: (usize, bool))
        requires
            self.wf(),
        ensures
            r.0 <= self.items().len(),
            forall|j: int| 0 <= j < r.0 ==> key_lt((#[trigger] self.items()[j]).0@, key@),
            r.1 ==> r.0 < self.items().len() && self.items()[r.0 as int].0@ == key@,
            !r.1 ==> forall|j: int|
                r.0 <= j < self.items().len() ==> key_lt(key@, (#[trigger] self.items()[j]).0@),
    {
        let mut lo: usize = 0;
        let mut hi: usize = self.entries.len();
        while lo < hi
            invariant
                self.wf(),
                lo <= hi <= self.items().len(),
                forall|j: int| 0 <= j < lo ==> key_lt((#[trigger] self.items()[j]).0@, key@),
                forall|j: int|
                    hi <= j < self.items().len() ==> key_lt(
                        key@,
                        (#[trigger] self.items()[j]).0@,
                    ),
            decreases hi - lo,
        {
            let mid: usize = lo + (hi - lo) / 2;
            let name: &str = self.entries[mid].0.as_str();
            if key_less(name, key) {
                proof {
                    assert forall|j: int| 0 <= j < mid + 1 implies key_lt(
                        (#[trigger] self.items()[j]).0@,
                        key@,
                    ) by {
                        if j < mid {
                            let _ = self.items()[mid as int];
                            lemma_key_lt_transitive(self.items()[j].0@, name@, key@);
                        }
                    }
                }
                lo = mid + 1;
            } else if key_less(key, name) {
                proof {
                    assert forall|j: int| mid <= j < self.items().len() implies key_lt(
                        key@,
                        (#[trigger] self.items()[j]).0@,
                    ) by {
                        if mid < j {
                            let _ = self.items()[mid as int];
                            lemma_key_lt_transitive(key@, name@, self.items()[j].0@);
                        }
                    }
                }
                hi = mid;
            } else {
                proof {
                    if name@ != key@ {
                        lemma_key_lt_total(name@, key@);
                    }
                }
                return (mid, true);
            }
        }
        (lo, false)
    }

    /// The value that stands under `key`, if there is one.
    pub fn get(&self, key: &str) -> (r: Option<&MapValue>)
        requires
            self.wf(),
        ensures
            match r {
                Some(v) => self@.contains_key(key@) && v@ == self@[key@] && v.wf(),
                None => !self@.contains_key(key@),
            },
    {
        let (i, found) = self.position(key);
        proof {
            self.lemma_entries();
        }
        if found {
            Some(&self.entries[i].1)
        } else {
            proof {
                assert forall|j: int| 0 <= j < self.items().len() implies (
                #[trigger] self.items()[j]).0@ != key@ by {
                    lemma_key_lt_irreflexive(key@);
                }
            }
            None
        }
    }

    /// Puts `value` under `key`. A value that stood there before is replaced
    /// and handed back.
    pub fn insert(&mut self, key: String, value: MapValue) -> (previous: Option<MapValue>)
        requires
            old(self).wf(),
            value.wf(),
        ensures
            final(self).wf(),
            final(self)@ == old(self)@.insert(key@, value@),
            match previous {
                Some(p) => old(self)@.contains_key(key@) && p@ == old(self)@[key@] && p.wf(),
                None => !old(self)@.contains_key(key@),
            },
    {
        let ghost before = *self;
        let ghost s = self.items();
        let ghost k = key@;
        let ghost v = value@;
        let (i, found) = self.position(key.as_str());
        proof {
            before.lemma_entries();
            lemma_key_lt_irreflexive(k);
        }
        let previous = if found {
            let replaced = self.entries.remove(i);
            Some(replaced.1)
        } else {
            None
        };
        self.entries.insert(i, (key, value));
        proof {
            let t = self.items();
            let d: int = if found { 0 } else { 1 };
            assert(t.len() == s.len() + d);
            assert forall|p: int| 0 <= p < t.len() implies #[trigger] t[p] == (if p < i {
                s[p]
            } else if p == i {
                (key, value)
            } else {
                s[p - d]
            }) by {}
            assert forall|p: int, q: int|
                #![trigger t[p], t[q]]
                0 <= p < q < t.len() implies key_lt(t[p].0@, t[q].0@) by {
                let _ = s[p];
                let _ = s[q];
                let _ = s[p - d];
                let _ = s[q - d];
            }
            assert(self.wf());
            self.lemma_entries();
            assert forall|x: Seq<char>|
                self@.contains_key(x) <==> before@.insert(k, v).contains_key(x) by {
                if self@.contains_key(x) {
                    let p = choose|p: int| 0 <= p < t.len() && (#[trigger] t[p]).0@ == x;
                    if p != i {
                        let j = if p < i { p } else { p - d };
                        assert(s[j].0@ == x);
                    }
                }
                if before@.contains_key(x) && x != k {
                    let j = choose|j: int| 0 <= j < s.len() && (#[trigger] s[j]).0@ == x;
                    let p = if j < i { j } else { j + d };
                    assert(t[p].0@ == x);
                }
                if x == k {
                    assert(t[i as int].0@ == x);
                }
            }
            assert forall|x: Seq<char>| self@.contains_key(x) implies self@[x] == before@.insert(
                k,
                v,
            )[x] by {
                let p = choose|p: int| 0 <= p < t.len() && (#[trigger] t[p]).0@ == x;
                if p != i {
                    let j = if p < i { p } else { p - d };
                    assert(s[j].0@ == x);
                    assert(x != k);
                } else {
                    assert(x == k);
                }
            }
            assert(self@ =~= before@.insert(k, v));
        }
        previous
    }

    /// Two objects whose entries are in order alike, and well formed alike
    /// place by place, are well formed alike.
    proof fn lemma_wf_alike(self, other: Self)
        requires
            self.items().len() == other.items().len(),
            sorted_by_key(self.items()) == sorted_by_key(other.items()),
            forall|i: int|
                0 <= i < self.items().len() ==> (#[trigger] self.items()[i]).1.wf()
                    == other.items()[i].1.wf(),
        ensures
            self.wf() == other.wf(),
    {
        if self.wf() {
            assert forall|i: int| 0 <= i < other.items().len() implies (
            #[trigger] other.items()[i]).1.wf() by {
                let _ = self.items()[i];
            }
        }
        if other.wf() {
            assert forall|i: int| 0 <= i < self.items().len() implies (
            #[trigger] self.items()[i]).1.wf() by {
                let _ = other.items()[i];
            }
        }
    }

    /// The mapping holds exactly the names of the entries, and under the name
    /// of each entry its value.
    pub proof fn lemma_entries(self)
        ensures
            forall|k: Seq<char>| #[trigger] self@.contains_key(k) == has_key(self.items(), k),
            self.wf() ==> forall|i: int|
                0 <= i < self.items().len() ==> self@[(#[trigger] self.items()[i]).0@]
                    == self.items()[i].1@,
    {
        lemma_mapping_upto(self.items(), self.items().len());
        assert(self@ == mapping_upto(self.items(), self.items().len()));
    }
}

/// The mapping of the first `n` entries holds exactly their names, and, where
/// the names are in order, under the name of each entry its value.
pub proof fn lemma_mapping_upto(s: Seq<(String, MapValue)>, n: nat)
    requires
        n <= s.len(),
    ensures
        forall|k: Seq<char>|
            (#[trigger] mapping_upto(s, n).contains_key(k)) <==> (exists|i: int|
                0 <= i < n && (#[trigger] s[i]).0@ == k),
        sorted_by_key(s) ==> forall|i: int|
            0 <= i < n ==> mapping_upto(s, n)[(#[trigger] s[i]).0@] == s[i].1@,
    decreases n,
{
    if n > 0 {
        lemma_mapping_upto(s, (n - 1) as nat);
        let last = s[n - 1];
        assert(mapping_upto(s, n) == mapping_upto(s, (n - 1) as nat).insert(last.0@, last.1@));
        assert forall|k: Seq<char>|
            (#[trigger] mapping_upto(s, n).contains_key(k)) <==> (exists|i: int|
                0 <= i < n && (#[trigger] s[i]).0@ == k) by {
            if mapping_upto(s, n).contains_key(k) && k != last.0@ {
                assert(mapping_upto(s, (n - 1) as nat).contains_key(k));
                let i = choose|i: int| 0 <= i < n - 1 && (#[trigger] s[i]).0@ == k;
                assert(0 <= i < n && s[i].0@ == k);
            }
            if exists|i: int| 0 <= i < n && (#[trigger] s[i]).0@ == k {
                let i = choose|i: int| 0 <= i < n && (#[trigger] s[i]).0@ == k;
                if i < n - 1 {
                    assert(mapping_upto(s, (n - 1) as nat).contains_key(k));
                }
            }
        }
        if sorted_by_key(s) {
            assert forall|i: int| 0 <= i < n implies mapping_upto(s, n)[(#[trigger] s[i]).0@]
                == s[i].1@ by {
                if i < n - 1 {
                    lemma_key_lt_irreflexive(last.0@);
                    assert(key_lt(s[i].0@, last.0@));
                }
            }
        }
    }
}

/// Where the names are in order, the mapping of the first `n` entries holds
/// `n` names.
pub proof fn lemma_mapping_len(s: Seq<(String, MapValue)>, n: nat)
    requires
        n <= s.len(),
        sorted_by_key(s),
    ensures
        mapping_upto(s, n).dom().finite(),
        mapping_upto(s, n).len() == n,
    decreases n,
{
    if n > 0 {
        let before = mapping_upto(s, (n - 1) as nat);
        let last = s[n - 1];
        lemma_mapping_len(s, (n - 1) as nat);
        lemma_mapping_upto(s, (n - 1) as nat);
        assert(mapping_upto(s, n) == before.insert(last.0@, last.1@));
        if before.contains_key(last.0@) {
            let i = choose|i: int| 0 <= i < n - 1 && (#[trigger] s[i]).0@ == last.0@;
            assert(key_lt(s[i].0@, last.0@));
            lemma_key_lt_irreflexive(last.0@);
        }
    }
}

/// Two sequences of entries in the order of their names that hold the same
/// names hold them at the same places.
pub proof fn lemma_sorted_same_keys(x: Seq<(String, MapValue)>, y: Seq<(String, MapValue)>)
    requires
        sorted_by_key(x),
        sorted_by_key(y),
        forall|k: Seq<char>| has_key(x, k) <==> has_key(y, k),
    ensures
        x.len() == y.len(),
        forall|i: int| 0 <= i < x.len() ==> (#[trigger] x[i]).0@ == y[i].0@,
    decreases x.len(),
{
    if x.len() == 0 {
        if y.len() > 0 {
            assert(has_key(y, y[0].0@));
        }
    } else if y.len() == 0 {
        assert(has_key(x, x[0].0@));
    } else {
        let a = x[0].0@;
        let b = y[0].0@;
        assert(has_key(x, a));
        assert(has_key(y, b));
        if a != b {
            let j = choose|j: int| 0 <= j < y.len() && (#[trigger] y[j]).0@ == a;
            let i = choose|i: int| 0 <= i < x.len() && (#[trigger] x[i]).0@ == b;
            assert(key_lt(b, a));
            assert(key_lt(a, b));
            lemma_key_lt_transitive(a, b, a);
            lemma_key_lt_irreflexive(a);
        }
        let xs = x.drop_first();
        let ys = y.drop_first();
        assert forall|i: int, j: int|
            #![trigger xs[i], xs[j]]
            0 <= i < j < xs.len() implies key_lt(xs[i].0@, xs[j].0@) by {
            let _ = x[i + 1];
            let _ = x[j + 1];
        }
        assert forall|i: int, j: int|
            #![trigger ys[i], ys[j]]
            0 <= i < j < ys.len() implies key_lt(ys[i].0@, ys[j].0@) by {
            let _ = y[i + 1];
            let _ = y[j + 1];
        }
        lemma_key_lt_irreflexive(a);
        assert forall|k: Seq<char>| has_key(xs, k) <==> has_key(ys, k) by {
            if has_key(xs, k) {
                let i = choose|i: int| 0 <= i < xs.len() && (#[trigger] xs[i]).0@ == k;
                assert(x[i + 1].0@ == k);
                assert(key_lt(x[0].0@, x[i + 1].0@));
                assert(has_key(x, k));
                let j = choose|j: int| 0 <= j < y.len() && (#[trigger] y[j]).0@ == k;
                assert(ys[j - 1].0@ == k);
            }
            if has_key(ys, k) {
                let j = choose|j: int| 0 <= j < ys.len() && (#[trigger] ys[j]).0@ == k;
                assert(y[j + 1].0@ == k);
                assert(key_lt(y[0].0@, y[j + 1].0@));
                assert(has_key(y, k));
                let i = choose|i: int| 0 <= i < x.len() && (#[trigger] x[i]).0@ == k;
                assert(xs[i - 1].0@ == k);
            }
        }
        lemma_sorted_same_keys(xs, ys);
        assert forall|i: int| 0 <= i < x.len() implies (#[trigger] x[i]).0@ == y[i].0@ by {
            if i > 0 {
                assert(xs[i - 1].0@ == ys[i - 1].0@);
            }
        }
    }
}

/// Two well-formed values that stand for the same tree are equal part by
/// part: a tree has one representation.
pub proof fn lemma_same_view_same_value(a: MapValue, b: MapValue)
    requires
        a.wf(),
        b.wf(),
        a@ == b@,
    ensures
        same_value(a, b),
    decreases a,
{
    match (a, b) {
        (MapValue::Object(m), MapValue::Object(n)) => {
            let x = m.items();
            let y = n.items();
            m.lemma_entries();
            n.lemma_entries();
            assert(m@ == n@);
            assert forall|k: Seq<char>| has_key(x, k) <==> has_key(y, k) by {
                assert(has_key(x, k) <==> m@.contains_key(k));
                assert(has_key(y, k) <==> n@.contains_key(k));
            }
            lemma_sorted_same_keys(x, y);
            assert forall|i: int| 0 <= i < x.len() implies (#[trigger] x[i]).0@ == y[i].0@
                && same_value(x[i].1, y[i].1) by {
                assert(m@[x[i].0@] == x[i].1@);
                assert(n@[y[i].0@] == y[i].1@);
                lemma_same_view_same_value(x[i].1, y[i].1);
            }
        },
        _ => {},
    }
}

/// Values that are equal part by part stand for the same tree, and one is
/// well formed if the other is.
pub proof fn lemma_same_value_same_view(a: MapValue, b: MapValue)
    requires
        same_value(a, b),
    ensures
        a@ == b@,
        a.wf() == b.wf(),
    decreases a,
{
    match (a, b) {
        (MapValue::Object(m), MapValue::Object(n)) => {
            lemma_same_items_same_mapping(m.items(), n.items(), m.items().len());
            m.lemma_wf_alike(n);
        },
        _ => {},
    }
}

/// Entries that are equal part by part denote the same mapping, and are in
/// order and well formed alike.
pub proof fn lemma_same_items_same_mapping(
    x: Seq<(String, MapValue)>,
    y: Seq<(String, MapValue)>,
    n: nat,
)
    requires
        same_items(x, y),
        n <= x.len(),
    ensures
        mapping_upto(x, n) == mapping_upto(y, n),
        sorted_by_key(x) == sorted_by_key(y),
        forall|i: int| 0 <= i < x.len() ==> (#[trigger] x[i]).1.wf() == y[i].1.wf(),
    decreases x, n,
{
    assert forall|i: int| 0 <= i < x.len() implies (#[trigger] x[i]).1.wf() == y[i].1.wf() by {
        lemma_same_value_same_view(x[i].1, y[i].1);
    }
    if sorted_by_key(x) {
        assert forall|i: int, j: int|
            #![trigger y[i], y[j]]
            0 <= i < j < y.len() implies key_lt(y[i].0@, y[j].0@) by {
            let _ = x[i];
            let _ = x[j];
        }
    }
    if sorted_by_key(y) {
        assert forall|i: int, j: int|
            #![trigger x[i], x[j]]
            0 <= i < j < x.len() implies key_lt(x[i].0@, x[j].0@) by {
            let _ = y[i];
            let _ = y[j];
        }
    }
    if n > 0 {
        lemma_same_items_same_mapping(x, y, (n - 1) as nat);
        let _ = x[n - 1];
        lemma_same_value_same_view(x[n - 1].1, y[n - 1].1);
    }
}

} // verus!
