//! A map from text keys to values that keeps its entries in ascending key
//! order, where keys are ordered as their UTF-8 bytes are, byte by byte.

use vstd::prelude::*;
use vstd::string::*;
use vstd::utf8::*;

verus! {

/// Whether `a` comes before `b` in byte-by-byte order; a proper prefix comes
/// before what it is a prefix of.
pub open spec fn bytes_lt(a: Seq<u8>, b: Seq<u8>) -> bool
    decreases a.len(),
{
    if b.len() == 0 {
        false
    } else if a.len() == 0 {
        true
    } else if a[0] != b[0] {
        a[0] < b[0]
    } else {
        bytes_lt(a.drop_first(), b.drop_first())
    }
}

/// Whether key `a` comes before key `b`.
pub open spec fn key_lt(a: Seq<char>, b: Seq<char>) -> bool {
    bytes_lt(encode_utf8(a), encode_utf8(b))
}

/// Whether each key comes before all the keys after it.
pub open spec fn ascending(keys: Seq<Seq<char>>) -> bool {
    forall|i: int, j: int| 0 <= i < j < keys.len() ==> key_lt(keys[i], keys[j])
}

/// The map that a list of keys, with a value for each, stands for.
pub open spec fn listing_map<V>(keys: Seq<Seq<char>>, values: Seq<V>) -> Map<Seq<char>, V> {
    Map::new(|k: Seq<char>| keys.contains(k), |k: Seq<char>| values[keys.index_of(k)])
}

/// Whether `keys` and `values` list the entries of `m` in ascending key order.
pub open spec fn is_listing<V>(keys: Seq<Seq<char>>, values: Seq<V>, m: Map<Seq<char>, V>) -> bool {
    &&& ascending(keys)
    &&& keys.len() == values.len()
    &&& m == listing_map(keys, values)
}

pub proof fn lemma_bytes_lt_irreflexive(a: Seq<u8>)
    ensures
        !bytes_lt(a, a),
    decreases a.len(),
{
    if a.len() > 0 {
        lemma_bytes_lt_irreflexive(a.drop_first());
    }
}

pub proof fn lemma_bytes_lt_transitive(a: Seq<u8>, b: Seq<u8>, c: Seq<u8>)
    requires
        bytes_lt(a, b),
        bytes_lt(b, c),
    ensures
        bytes_lt(a, c),
    decreases a.len(),
{
    if a.len() > 0 && a[0] == b[0] && b[0] == c[0] {
        lemma_bytes_lt_transitive(a.drop_first(), b.drop_first(), c.drop_first());
    }
}

pub proof fn lemma_bytes_lt_total(a: Seq<u8>, b: Seq<u8>)
    ensures
        bytes_lt(a, b) || bytes_lt(b, a) || a == b,
    decreases a.len(),
{
    if a.len() > 0 && b.len() > 0 && a[0] == b[0] {
        lemma_bytes_lt_total(a.drop_first(), b.drop_first());
        if a.drop_first() == b.drop_first() {
            assert(a =~= seq![a[0]] + a.drop_first());
            assert(b =~= seq![b[0]] + b.drop_first());
        }
    } else if a.len() == 0 && b.len() == 0 {
        assert(a =~= b);
    }
}

/// No key comes before itself.
pub proof fn lemma_key_lt_irreflexive(a: Seq<char>)
    ensures
        !key_lt(a, a),
{
    lemma_bytes_lt_irreflexive(encode_utf8(a));
}

/// The order of keys is transitive.
pub proof fn lemma_key_lt_transitive(a: Seq<char>, b: Seq<char>, c: Seq<char>)
    requires
        key_lt(a, b),
        key_lt(b, c),
    ensures
        key_lt(a, c),
{
    lemma_bytes_lt_transitive(encode_utf8(a), encode_utf8(b), encode_utf8(c));
}

/// Of two different keys, one comes before the other.
pub proof fn lemma_key_lt_total(a: Seq<char>, b: Seq<char>)
    ensures
        key_lt(a, b) || key_lt(b, a) || a == b,
{
    broadcast use encode_utf8_decode_utf8;

    lemma_bytes_lt_total(encode_utf8(a), encode_utf8(b));
    if encode_utf8(a) == encode_utf8(b) {
        assert(decode_utf8(encode_utf8(a)) == decode_utf8(encode_utf8(b)));
    }
}

/// Keys in ascending order are pairwise different.
pub proof fn lemma_ascending_no_duplicates(keys: Seq<Seq<char>>)
    requires
        ascending(keys),
    ensures
        keys.no_duplicates(),
{
    assert forall|i: int, j: int| 0 <= i < keys.len() && 0 <= j < keys.len() && i != j implies keys[i]
        != keys[j] by {
        lemma_key_lt_irreflexive(keys[i]);
        if i < j {
            assert(key_lt(keys[i], keys[j]));
        } else {
            assert(key_lt(keys[j], keys[i]));
        }
    }
}

/// Two ascending lists that hold the same keys are the same list.
pub proof fn lemma_ascending_unique(a: Seq<Seq<char>>, b: Seq<Seq<char>>)
    requires
        ascending(a),
        ascending(b),
        forall|k: Seq<char>| a.contains(k) <==> b.contains(k),
    ensures
        a == b,
    decreases a.len(),
{
    lemma_ascending_no_duplicates(a);
    lemma_ascending_no_duplicates(b);
    a.unique_seq_to_set();
    b.unique_seq_to_set();
    assert(a.to_set() =~= b.to_set());
    if a.len() > 0 {
        let x = a.last();
        let y = b.last();
        assert(a.contains(x) && b.contains(y));
        if x != y {
            let j = b.index_of(x);
            let i = a.index_of(y);
            assert(key_lt(b[j], b[b.len() - 1]));
            assert(key_lt(a[i], a[a.len() - 1]));
            lemma_key_lt_transitive(x, y, x);
            lemma_key_lt_irreflexive(x);
        }
        let a0 = a.drop_last();
        let b0 = b.drop_last();
        assert forall|k: Seq<char>| a0.contains(k) <==> b0.contains(k) by {
            if a0.contains(k) {
                let i = a0.index_of(k);
                assert(a[i] == k);
                assert(a.contains(k));
                let j = b.index_of(k);
                assert(j < b.len() - 1);
                assert(b0[j] == k);
            }
            if b0.contains(k) {
                let j = b0.index_of(k);
                assert(b[j] == k);
                assert(b.contains(k));
                let i = a.index_of(k);
                assert(i < a.len() - 1);
                assert(a0[i] == k);
            }
        }
        lemma_ascending_unique(a0, b0);
        assert(a == a0.push(x));
        assert(b == b0.push(y));
    } else {
        assert(a =~= b);
    }
}

/// In a listing, the value at a position is the map's value for the key there.
pub proof fn lemma_listing_at<V>(keys: Seq<Seq<char>>, values: Seq<V>, i: int)
    requires
        ascending(keys),
        0 <= i < keys.len(),
    ensures
        listing_map(keys, values).contains_key(keys[i]),
        listing_map(keys, values)[keys[i]] == values[i],
        keys.index_of(keys[i]) == i,
{
    lemma_ascending_no_duplicates(keys);
    assert(keys.contains(keys[i]));
    let j = keys.index_of(keys[i]);
    assert(keys[j] == keys[i]);
}

/// In a listing without repeated keys, the value at a position is the map's
/// value for the key there.
pub proof fn lemma_listing_at_distinct<V>(keys: Seq<Seq<char>>, values: Seq<V>, i: int)
    requires
        keys.no_duplicates(),
        0 <= i < keys.len(),
    ensures
        listing_map(keys, values).contains_key(keys[i]),
        listing_map(keys, values)[keys[i]] == values[i],
        keys.index_of(keys[i]) == i,
{
    assert(keys.contains(keys[i]));
    let j = keys.index_of(keys[i]);
    assert(keys[j] == keys[i]);
}

/// A listing with one more entry at its end, under a key that it did not
/// hold, stands for the map with that entry added.
pub proof fn lemma_listing_push<V>(keys: Seq<Seq<char>>, values: Seq<V>, k: Seq<char>, v: V)
    requires
        keys.no_duplicates(),
        keys.len() == values.len(),
        !keys.contains(k),
    ensures
        keys.push(k).no_duplicates(),
        listing_map(keys.push(k), values.push(v)) == listing_map(keys, values).insert(k, v),
{
    let keys2 = keys.push(k);
    let values2 = values.push(v);
    assert forall|x: Seq<char>| keys2.contains(x) <==> (keys.contains(x) || x == k) by {
        if keys2.contains(x) {
            let p = keys2.index_of(x);
            if p < keys.len() {
                assert(keys[p] == x);
            }
        }
        if keys.contains(x) {
            let p = keys.index_of(x);
            assert(keys2[p] == x);
        }
        if x == k {
            assert(keys2[keys.len() as int] == x);
        }
    }
    assert forall|x: Seq<char>| keys2.contains(x) implies #[trigger] listing_map(keys2, values2)[x]
        == listing_map(keys, values).insert(k, v)[x] by {
        let p = keys2.index_of(x);
        lemma_listing_at_distinct(keys2, values2, p);
        if p < keys.len() {
            lemma_listing_at_distinct(keys, values, p);
        }
    }
    assert(listing_map(keys2, values2) =~= listing_map(keys, values).insert(k, v));
}

/// Whether `a` comes before `b`.
pub fn key_less(a: &str, b: &str) -> (r: bool)
    ensures
        r == key_lt(a@, b@),
{
    let x = a.as_bytes();
    let y = b.as_bytes();
    let mut i: usize = 0;
    assert(x@.skip(0) == x@ && y@.skip(0) == y@);
    while i < x.len() && i < y.len()
        invariant
            i <= x.len(),
            i <= y.len(),
            x@ == encode_utf8(a@),
            y@ == encode_utf8(b@),
            bytes_lt(x@, y@) == bytes_lt(x@.skip(i as int), y@.skip(i as int)),
        decreases x.len() - i,
    {
        if x[i] != y[i] {
            assert(x@.skip(i as int)[0] == x[i as int] && y@.skip(i as int)[0] == y[i as int]);
            return x[i] < y[i];
        }
        assert(x@.skip(i as int).drop_first() == x@.skip(i + 1));
        assert(y@.skip(i as int).drop_first() == y@.skip(i + 1));
        i = i + 1;
    }
    i < y.len()
}

/// Whether `a` and `b` are the same text.
pub fn same_key(a: &str, b: &str) -> (r: bool)
    ensures
        r == (a@ == b@),
{
    proof {
        lemma_key_lt_total(a@, b@);
        lemma_key_lt_irreflexive(a@);
    }
    !key_less(a, b) && !key_less(b, a)
}

/// The keys of a list of entries.
pub open spec fn entry_keys<V>(entries: Seq<(String, V)>) -> Seq<Seq<char>> {
    entries.map_values(|e: (String, V)| e.0@)
}

/// The values of a list of entries.
pub open spec fn entry_values<V>(entries: Seq<(String, V)>) -> Seq<V> {
    entries.map_values(|e: (String, V)| e.1)
}

/// A map from keys to values of type `V`, held in ascending key order.
pub struct SortedMap<V> {
    entries: Vec<(String, V)>,
}

impl<V> SortedMap<V> {
    /// The keys, in ascending order.
    pub closed spec fn keys(&self) -> Seq<Seq<char>> {
        entry_keys(self.entries@)
    }

    /// The values, each at the position of its key.
    pub closed spec fn values(&self) -> Seq<V> {
        entry_values(self.entries@)
    }

    #[verifier::type_invariant]
    spec fn inv(&self) -> bool {
        ascending(self.keys())
    }

    /// The map that the entries stand for.
    pub open spec fn view(&self) -> Map<Seq<char>, V> {
        listing_map(self.keys(), self.values())
    }

    /// An empty map.
    pub fn new() -> (m: Self)
        ensures
            m@ == Map::<Seq<char>, V>::empty(),
            m.keys().len() == 0,
            m.values().len() == 0,
    {
        let m = Self { entries: Vec::new() };
        assert(m@ =~= Map::<Seq<char>, V>::empty());
        m
    }

    /// The number of entries.
    pub fn len(&self) -> (n: usize)
        ensures
            n == self.keys().len(),
            n == self@.len(),
            self@.dom().finite(),
    {
        proof {
            use_type_invariant(self);
            lemma_ascending_no_duplicates(self.keys());
            self.keys().unique_seq_to_set();
            assert(self@.dom() =~= self.keys().to_set());
        }
        self.entries.len()
    }

    /// The first position whose key does not come before `key`.
    fn lower_bound(&self, key: &str) -> (i: usize)
        ensures
            i <= self.keys().len(),
            forall|j: int| 0 <= j < i ==> key_lt(#[trigger] self.keys()[j], key@),
            forall|j: int| i <= j < self.keys().len() ==> !key_lt(#[trigger] self.keys()[j], key@),
    {
        proof {
            use_type_invariant(self);
        }
        let mut lo: usize = 0;
        let mut hi: usize = self.entries.len();
        while lo < hi
            invariant
                lo <= hi <= self.keys().len(),
                self.keys().len() == self.entries.len(),
                ascending(self.keys()),
                forall|j: int| 0 <= j < lo ==> key_lt(#[trigger] self.keys()[j], key@),
                forall|j: int| hi <= j < self.keys().len() ==> !key_lt(#[trigger] self.keys()[j], key@),
            decreases hi - lo,
        {
            let mid: usize = lo + (hi - lo) / 2;
            if key_less(self.entries[mid].0.as_str(), key) {
                assert forall|j: int| 0 <= j < mid + 1 implies key_lt(#[trigger] self.keys()[j], key@) by {
                    if j < mid {
                        lemma_key_lt_transitive(self.keys()[j], self.keys()[mid as int], key@);
                    }
                }
                lo = mid + 1;
            } else {
                assert forall|j: int| mid <= j < self.keys().len() implies !key_lt(
                    #[trigger] self.keys()[j],
                    key@,
                ) by {
                    if j > mid && key_lt(self.keys()[j], key@) {
                        lemma_key_lt_transitive(self.keys()[mid as int], self.keys()[j], key@);
                    }
                }
                hi = mid;
            }
        }
        lo
    }

    /// The value held for `key`, if there is one.
    pub fn get(&self, key: &str) -> (r: Option<&V>)
        ensures
            match r {
                Some(v) => self@.contains_key(key@) && *v == self@[key@],
                None => !self@.contains_key(key@),
            },
    {
        proof {
            use_type_invariant(self);
        }
        let i = self.lower_bound(key);
        if i < self.entries.len() && !key_less(key, self.entries[i].0.as_str()) {
            proof {
                lemma_key_lt_total(key@, self.keys()[i as int]);
                lemma_listing_at(self.keys(), self.values(), i as int);
            }
            Some(&self.entries[i].1)
        } else {
            proof {
                if self.keys().contains(key@) {
                    let j = self.keys().index_of(key@);
                    lemma_key_lt_irreflexive(key@);
                    if j > i {
                        assert(key_lt(self.keys()[i as int], self.keys()[j]));
                    }
                }
            }
            None
        }
    }

    /// Sets the value for `key`, in place of the one it had if it had one.
    /// Returns whether it had one.
    pub fn insert(&mut self, key: String, value: V) -> (replaced: bool)
        ensures
            final(self)@ == old(self)@.insert(key@, value),
            replaced == old(self)@.contains_key(key@),
    {
        proof {
            use_type_invariant(&*self);
        }
        let i = self.lower_bound(key.as_str());
        let ghost keys = self.keys();
        let ghost values = self.values();
        let ghost k = key@;
        let mut entries: Vec<(String, V)> = Vec::new();
        std::mem::swap(&mut self.entries, &mut entries);
        if i < entries.len() && !key_less(key.as_str(), entries[i].0.as_str()) {
            proof {
                lemma_key_lt_total(k, keys[i as int]);
                assert(entry_keys(entries@.update(i as int, (key, value))) == keys);
                assert(entry_values(entries@.update(i as int, (key, value))) == values.update(
                    i as int,
                    value,
                ));
                lemma_listing_at(keys, values, i as int);
                assert forall|x: Seq<char>| keys.contains(x) implies #[trigger] listing_map(
                    keys,
                    values.update(i as int, value),
                )[x] == listing_map(keys, values).insert(k, value)[x] by {
                    lemma_listing_at(keys, values, keys.index_of(x));
                }
                assert(listing_map(keys, values.update(i as int, value)) =~= listing_map(
                    keys,
                    values,
                ).insert(k, value));
            }
            entries.set(i, (key, value));
            self.entries = entries;
            true
        } else {
            proof {
                let keys2 = keys.insert(i as int, k);
                let values2 = values.insert(i as int, value);
                assert(entry_keys(entries@.insert(i as int, (key, value))) == keys2);
                assert(entry_values(entries@.insert(i as int, (key, value))) == values2);
                assert forall|j: int| i <= j < keys.len() implies key_lt(k, #[trigger] keys[j]) by {
                    lemma_key_lt_total(k, keys[j]);
                    lemma_key_lt_total(k, keys[i as int]);
                    if j > i && keys[j] == k {
                        assert(key_lt(keys[i as int], keys[j]));
                    }
                }
                assert forall|a: int, b: int| 0 <= a < b < keys2.len() implies key_lt(
                    keys2[a],
                    keys2[b],
                ) by {
                    if b < i {
                        assert(key_lt(keys[a], keys[b]));
                    } else if b == i {
                        assert(key_lt(keys[a], k));
                    } else if a < i {
                        assert(key_lt(keys[a], keys[b - 1]));
                    } else if a == i {
                        assert(key_lt(k, keys[b - 1]));
                    } else {
                        assert(key_lt(keys[a - 1], keys[b - 1]));
                    }
                }
                assert(!keys.contains(k)) by {
                    if keys.contains(k) {
                        let j = keys.index_of(k);
                        lemma_key_lt_irreflexive(k);
                        assert(key_lt(keys[j], k) || key_lt(k, keys[j]));
                    }
                }
                let before = listing_map(keys, values);
                let after = listing_map(keys2, values2);
                assert forall|x: Seq<char>| after.contains_key(x) <==> before.insert(
                    k,
                    value,
                ).contains_key(x) by {
                    if keys2.contains(x) {
                        let p = keys2.index_of(x);
                        if p < i {
                            assert(keys[p] == x);
                        } else if p > i {
                            assert(keys[p - 1] == x);
                        }
                    }
                    if keys.contains(x) {
                        let p = keys.index_of(x);
                        if p < i {
                            assert(keys2[p] == x);
                        } else {
                            assert(keys2[p + 1] == x);
                        }
                    }
                    if x == k {
                        assert(keys2[i as int] == x);
                    }
                }
                assert forall|x: Seq<char>| after.contains_key(x) implies #[trigger] after[x]
                    == before.insert(k, value)[x] by {
                    let p = keys2.index_of(x);
                    lemma_listing_at(keys2, values2, p);
                    if p < i {
                        lemma_listing_at(keys, values, p);
                    } else if p > i {
                        lemma_listing_at(keys, values, p - 1);
                    }
                }
                assert(after =~= before.insert(k, value));
            }
            entries.insert(i, (key, value));
            self.entries = entries;
            false
        }
    }

    /// Does nothing when it runs; it tells the verifier that the keys and
    /// values list the map's entries in ascending key order.
    pub fn listing(&self)
        ensures
            is_listing(self.keys(), self.values(), self@),
    {
        proof {
            use_type_invariant(self);
        }
    }

    /// The entry at position `i` of the ascending order of keys, if the map
    /// has that many entries.
    pub fn entry_at(&self, i: usize) -> (r: Option<(&String, &V)>)
        ensures
            self.values().len() == self.keys().len(),
            match r {
                Some((key, value)) => i < self.keys().len() && key@ == self.keys()[i as int]
                    && *value == self.values()[i as int],
                None => i >= self.keys().len(),
            },
    {
        if i < self.entries.len() {
            Some((&self.entries[i].0, &self.entries[i].1))
        } else {
            None
        }
    }

    /// Takes every entry out, in ascending key order, and leaves the map empty.
    pub fn drain_sorted(&mut self) -> (out: Vec<(String, V)>)
        ensures
            final(self)@ == Map::<Seq<char>, V>::empty(),
            final(self).keys().len() == 0,
            entry_keys(out@) == old(self).keys(),
            entry_values(out@) == old(self).values(),
            is_listing(old(self).keys(), old(self).values(), old(self)@),
    {
        proof {
            use_type_invariant(&*self);
        }
        let mut out: Vec<(String, V)> = Vec::new();
        assert(listing_map(entry_keys(out@), entry_values(out@)) =~= Map::<Seq<char>, V>::empty());
        std::mem::swap(&mut self.entries, &mut out);
        out
    }
}

} // verus!
