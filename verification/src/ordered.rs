//! Ordered maps.
//!
//! A [`SortedMap`] keeps its keys in strictly ascending order, so that walking it
//! gives the same sequence whatever order the keys were inserted in. Everything
//! the engine hashes or reports out of a map relies on that.

use vstd::prelude::*;

verus! {

/// Where one key stands relative to another.
#[derive(Debug, Clone, Copy, PartialEq, Eq, Structural)]
pub enum Rank {
    /// It comes first.
    Before,
    /// They are the same key.
    Same,
    /// It comes later.
    After,
}

/// A totally ordered key.
pub trait Key: View + Sized {
    /// The strict order of the keys.
    spec fn before(a: Self::V, b: Self::V) -> bool;

    /// No key comes before itself.
    proof fn lemma_irreflexive(a: Self::V)
        ensures
            !Self::before(a, a),
    ;

    /// What comes before something that comes before a key, comes before the key.
    proof fn lemma_transitive(a: Self::V, b: Self::V, c: Self::V)
        requires
            Self::before(a, b),
            Self::before(b, c),
        ensures
            Self::before(a, c),
    ;

    /// Of two different keys, one comes first.
    proof fn lemma_total(a: Self::V, b: Self::V)
        ensures
            a == b || Self::before(a, b) || Self::before(b, a),
    ;

    /// Compares two keys.
    fn rank(&self, other: &Self) -> (r: Rank)
        ensures
            r is Before <==> Self::before(self@, other@),
            r is Same <==> self@ == other@,
            r is After <==> Self::before(other@, self@),
    ;
}

/// True when `keys` is strictly ascending.
pub open spec fn ascending<K: Key>(keys: Seq<K::V>) -> bool {
    forall|i: int, j: int|
        0 <= i < j < keys.len() ==> K::before(#[trigger] keys[i], #[trigger] keys[j])
}

/// The keys of a map, in ascending order.
pub open spec fn sorted_keys<K: Key, V>(map: Map<K::V, V>) -> Seq<K::V> {
    choose|keys: Seq<K::V>| lists_keys::<K, V>(map, keys)
}

/// True when `keys` lists the keys of a map in ascending order.
pub open spec fn lists_keys<K: Key, V>(map: Map<K::V, V>, keys: Seq<K::V>) -> bool {
    &&& ascending::<K>(keys)
    &&& forall|k: K::V| #[trigger] map.contains_key(k) <==> keys.contains(k)
}

/// A map whose keys are kept in ascending order.
#[derive(Debug, PartialEq, Eq)]
pub struct SortedMap<K: Key, V> {
    entries: Vec<(K, V)>,
}

/// The map that two parallel sequences describe.
pub open spec fn map_of<A, B>(keys: Seq<A>, values: Seq<B>) -> Map<A, B> {
    Map::new(|k: A| keys.contains(k), |k: A| values[keys.index_of(k)])
}

impl<K: Key, V> View for SortedMap<K, V> {
    type V = Map<K::V, V>;

    /// The mapping, without its order.
    open spec fn view(&self) -> Map<K::V, V> {
        map_of(self.keys(), self.values())
    }
}

impl<K: Key, V> SortedMap<K, V> {
    /// The keys, in ascending order.
    pub closed spec fn keys(&self) -> Seq<K::V> {
        self.entries@.map_values(|e: (K, V)| e.0@)
    }

    /// The values, in the order of their keys.
    pub closed spec fn values(&self) -> Seq<V> {
        self.entries@.map_values(|e: (K, V)| e.1)
    }

    /// The keys are strictly ascending.
    #[verifier::type_invariant]
    pub closed spec fn wf(&self) -> bool {
        ascending::<K>(self.keys())
    }

    /// What a well-formed map's sequences say about its mapping.
    pub proof fn lemma_sequences(&self)
        requires
            self.wf(),
        ensures
            self.keys().len() == self.values().len(),
            self.keys().no_duplicates(),
            ascending::<K>(self.keys()),
            forall|i: int|
                0 <= i < self.keys().len() ==> self@.contains_key(#[trigger] self.keys()[i])
                    && self@[self.keys()[i]] == self.values()[i],
            forall|k: K::V| #[trigger]
                self@.contains_key(k) ==> exists|i: int|
                    0 <= i < self.keys().len() && #[trigger] self.keys()[i] == k,
    {
        let keys = self.keys();
        assert forall|i: int, j: int| 0 <= i < keys.len() && 0 <= j < keys.len() && i != j implies keys[i]
            != keys[j] by {
            K::lemma_irreflexive(keys[i]);
            if i < j {
                assert(K::before(keys[i], keys[j]));
            } else {
                assert(K::before(keys[j], keys[i]));
            }
        }
        assert forall|i: int| 0 <= i < keys.len() implies self@.contains_key(#[trigger] keys[i])
            && self@[keys[i]] == self.values()[i] by {
            assert(keys.contains(keys[i]));
            let j = keys.index_of(keys[i]);
            assert(keys[j] == keys[i]);
        }
        assert forall|k: K::V| #[trigger] self@.contains_key(k) implies exists|i: int|
            0 <= i < keys.len() && #[trigger] keys[i] == k by {
            assert(keys.contains(k));
            let i = choose|i: int| 0 <= i < keys.len() && keys[i] == k;
            assert(keys[i] == k);
        }
    }

    /// A map has as many keys as its walk lists.
    pub proof fn lemma_len(&self)
        requires
            self.wf(),
        ensures
            self@.dom().finite(),
            self@.dom().len() == self.keys().len(),
    {
        self.lemma_sequences();
        self.keys().unique_seq_to_set();
        assert(self@.dom() =~= self.keys().to_set());
    }

    /// A map has one walk: maps that agree as mappings list the same keys with
    /// the same values in the same order.
    pub proof fn lemma_walk_is_unique(&self, other: &Self)
        requires
            self.wf(),
            other.wf(),
            self@ == other@,
        ensures
            self.keys() == other.keys(),
            self.values() == other.values(),
    {
        self.lemma_sequences();
        other.lemma_sequences();
        lemma_ascending_unique::<K>(self.keys(), other.keys());
        assert forall|i: int| 0 <= i < self.values().len() implies self.values()[i]
            == other.values()[i] by {
            assert(self@[self.keys()[i]] == self.values()[i]);
            assert(other@[other.keys()[i]] == other.values()[i]);
        }
        assert(self.values() =~= other.values());
    }

    /// The walk lists the keys of the mapping in ascending order.
    pub proof fn lemma_keys_are_sorted(&self)
        requires
            self.wf(),
        ensures
            self.keys() == sorted_keys::<K, V>(self@),
            lists_keys::<K, V>(self@, self.keys()),
    {
        self.lemma_sequences();
        let keys = self.keys();
        assert forall|k: K::V| #[trigger] self@.contains_key(k) <==> keys.contains(k) by {
            if keys.contains(k) {
                let i = choose|i: int| 0 <= i < keys.len() && keys[i] == k;
                assert(self@.contains_key(keys[i]));
            }
        }
        assert(lists_keys::<K, V>(self@, keys));
        let sorted = sorted_keys::<K, V>(self@);
        assert forall|k: K::V| #[trigger] keys.contains(k) <==> sorted.contains(k) by {
            assert(self@.contains_key(k) <==> keys.contains(k));
            assert(self@.contains_key(k) <==> sorted.contains(k));
        }
        lemma_ascending_unique::<K>(keys, sorted);
    }

    /// Creates an empty map.
    pub fn new() -> (m: Self)
        ensures
            m@ == Map::<K::V, V>::empty(),
            m.keys() == Seq::<K::V>::empty(),
            m.values() == Seq::<V>::empty(),
            m.wf(),
    {
        let m = SortedMap { entries: Vec::new() };
        assert(m.keys() =~= Seq::<K::V>::empty());
        assert(m.values() =~= Seq::<V>::empty());
        assert(m@ =~= Map::<K::V, V>::empty());
        m
    }

    /// Number of keys.
    pub fn len(&self) -> (n: usize)
        ensures
            n == self.keys().len(),
            self.wf(),
    {
        proof {
            use_type_invariant(self);
        }
        self.entries.len()
    }

    /// The key at position `i` of the walk.
    pub fn key_at(&self, i: usize) -> (k: &K)
        requires
            i < self.keys().len(),
        ensures
            k@ == self.keys()[i as int],
    {
        &self.entries[i].0
    }

    /// The value at position `i` of the walk.
    pub fn value_at(&self, i: usize) -> (v: &V)
        requires
            i < self.keys().len(),
        ensures
            *v == self.values()[i as int],
            self.keys().len() == self.values().len(),
    {
        &self.entries[i].1
    }

    /// Where `key` stands, or where it would have to be inserted.
    fn locate(&self, key: &K) -> (r: (bool, usize))
        ensures
            self.wf(),
            r.1 <= self.keys().len(),
            r.0 ==> r.1 < self.keys().len() && self.keys()[r.1 as int] == key@,
            r.0 == self@.contains_key(key@),
            !r.0 ==> {
                &&& forall|i: int| 0 <= i < r.1 ==> K::before(#[trigger] self.keys()[i], key@)
                &&& forall|i: int|
                    r.1 <= i < self.keys().len() ==> K::before(key@, #[trigger] self.keys()[i])
            },
    {
        proof {
            use_type_invariant(self);
            self.lemma_sequences();
        }
        let ghost keys = self.keys();
        let mut lo: usize = 0;
        let mut hi: usize = self.entries.len();
        while lo < hi
            invariant
                self.wf(),
                keys == self.keys(),
                keys.len() == self.entries.len(),
                ascending::<K>(keys),
                forall|i: int| 0 <= i < keys.len() ==> self@.contains_key(#[trigger] keys[i]),
                lo <= hi <= keys.len(),
                forall|i: int| 0 <= i < lo ==> K::before(#[trigger] keys[i], key@),
                forall|i: int| hi <= i < keys.len() ==> K::before(key@, #[trigger] keys[i]),
            decreases hi - lo,
        {
            let mid: usize = lo + (hi - lo) / 2;
            assert(keys[mid as int] == self.entries@[mid as int].0@);
            match self.entries[mid].0.rank(key) {
                Rank::Same => {
                    return (true, mid);
                },
                Rank::Before => {
                    assert forall|i: int| 0 <= i < mid + 1 implies K::before(
                        #[trigger] keys[i],
                        key@,
                    ) by {
                        if i < mid {
                            K::lemma_transitive(keys[i], keys[mid as int], key@);
                        }
                    }
                    lo = mid + 1;
                },
                Rank::After => {
                    assert forall|i: int| mid <= i < keys.len() implies K::before(
                        key@,
                        #[trigger] keys[i],
                    ) by {
                        if i > mid {
                            K::lemma_transitive(key@, keys[mid as int], keys[i]);
                        }
                    }
                    hi = mid;
                },
            }
        }
        proof {
            if self@.contains_key(key@) {
                let i = choose|i: int| 0 <= i < keys.len() && #[trigger] keys[i] == key@;
                K::lemma_irreflexive(key@);
                assert(K::before(keys[i], key@) || K::before(key@, keys[i]));
            }
        }
        (false, lo)
    }

    /// How many keys come before `key`: the position of the first that does not.
    pub fn lower_bound(&self, key: &K) -> (at: usize)
        ensures
            self.wf(),
            at <= self.keys().len(),
            forall|i: int| 0 <= i < at ==> K::before(#[trigger] self.keys()[i], key@),
            forall|i: int|
                at <= i < self.keys().len() ==> !K::before(#[trigger] self.keys()[i], key@),
    {
        let (found, at): (bool, usize) = self.locate(key);
        proof {
            self.lemma_sequences();
            let keys = self.keys();
            assert forall|i: int| at <= i < keys.len() implies !K::before(
                #[trigger] keys[i],
                key@,
            ) by {
                K::lemma_irreflexive(key@);
                if K::before(keys[i], key@) {
                    if i > at || !found {
                        assert(found ==> K::before(keys[at as int], keys[i]));
                        K::lemma_transitive(key@, keys[i], key@);
                    }
                }
            }
        }
        at
    }

    /// The value under `key`.
    pub fn get(&self, key: &K) -> (r: Option<&V>)
        ensures
            match r {
                Some(v) => self@.contains_key(key@) && *v == self@[key@],
                None => !self@.contains_key(key@),
            },
    {
        let (found, at): (bool, usize) = self.locate(key);
        if found {
            proof {
                self.lemma_sequences();
            }
            assert(self.values()[at as int] == self.entries@[at as int].1);
            Some(&self.entries[at].1)
        } else {
            None
        }
    }

    /// True when `key` has a value.
    pub fn contains_key(&self, key: &K) -> (r: bool)
        ensures
            r == self@.contains_key(key@),
    {
        self.locate(key).0
    }

    /// Sets the value under `key`, returning the one it replaces.
    pub fn insert(&mut self, key: K, value: V) -> (r: Option<V>)
        ensures
            final(self).wf(),
            final(self)@ == old(self)@.insert(key@, value),
            final(self).keys().len() == old(self).keys().len() + if old(self)@.contains_key(key@) {
                0int
            } else {
                1int
            },
            match r {
                Some(v) => old(self)@.contains_key(key@) && v == old(self)@[key@],
                None => !old(self)@.contains_key(key@),
            },
    {
        let (found, at): (bool, usize) = self.locate(&key);
        let mut entries: Vec<(K, V)> = Vec::new();
        proof {
            self.lemma_sequences();
        }
        let ghost k = key@;
        let ghost keys = self.keys();
        let ghost values = self.values();
        std::mem::swap(&mut entries, &mut self.entries);
        let ghost before = entries@;
        if found {
            // Pushing and swapping back leaves the new pair where the old one was.
            entries.push((key, value));
            let displaced = entries.swap_remove(at);
            assert(entries@ =~= before.update(at as int, (key, value)));
            assert(entries@.map_values(|e: (K, V)| e.0@) =~= keys);
            assert(entries@.map_values(|e: (K, V)| e.1) =~= values.update(at as int, value));
            self.entries = entries;
            proof {
                self.lemma_sequences();
                lemma_update_value(keys, values, at as int, value);
                assert(self@ =~= old(self)@.insert(k, value));
            }
            Some(displaced.1)
        } else {
            entries.insert(at, (key, value));
            proof {
                let new_keys = entries@.map_values(|e: (K, V)| e.0@);
                assert(new_keys =~= keys.insert(at as int, k));
                assert(entries@.map_values(|e: (K, V)| e.1) =~= values.insert(at as int, value));
                lemma_insert_ascending::<K>(keys, at as int, k);
            }
            self.entries = entries;
            proof {
                self.lemma_sequences();
                lemma_insert_entry(keys, values, at as int, k, value);
                assert(self@ =~= old(self)@.insert(k, value));
            }
            None
        }
    }

    /// Removes `key`, returning the value it held.
    pub fn remove(&mut self, key: &K) -> (r: Option<V>)
        ensures
            final(self).wf(),
            final(self)@ == old(self)@.remove(key@),
            match r {
                Some(v) => old(self)@.contains_key(key@) && v == old(self)@[key@],
                None => !old(self)@.contains_key(key@),
            },
    {
        let (found, at): (bool, usize) = self.locate(key);
        if !found {
            assert(self@ =~= old(self)@.remove(key@));
            return None;
        }
        let mut entries: Vec<(K, V)> = Vec::new();
        proof {
            self.lemma_sequences();
        }
        let ghost keys = self.keys();
        let ghost values = self.values();
        std::mem::swap(&mut entries, &mut self.entries);
        let removed = entries.remove(at);
        proof {
            let new_keys = entries@.map_values(|e: (K, V)| e.0@);
            assert(new_keys =~= keys.remove(at as int));
            assert(entries@.map_values(|e: (K, V)| e.1) =~= values.remove(at as int));
        }
        self.entries = entries;
        proof {
            self.lemma_sequences();
            lemma_remove_entry(keys, values, at as int);
            assert(self@ =~= old(self)@.remove(key@));
        }
        Some(removed.1)
    }
}

impl<K: Key + Copy, V: Copy> SortedMap<K, V> {
    /// A copy of the map.
    pub fn copied(&self) -> (copy: Self)
        ensures
            copy.wf(),
            copy.keys() == self.keys(),
            copy.values() == self.values(),
            copy@ == self@,
    {
        proof {
            use_type_invariant(self);
        }
        let mut entries: Vec<(K, V)> = Vec::with_capacity(self.entries.len());
        let mut i: usize = 0;
        while i < self.entries.len()
            invariant
                i <= self.entries.len(),
                entries@ == self.entries@.take(i as int),
            decreases self.entries.len() - i,
        {
            let entry = self.entries[i];
            entries.push(entry);
            assert(entries@ =~= self.entries@.take(i + 1));
            i += 1;
        }
        assert(self.entries@.take(self.entries@.len() as int) =~= self.entries@);
        SortedMap { entries }
    }
}

/// Where the keys of a map can be listed in order, so can those of the map with
/// one more: a new key takes its place among the others, which stay as they are.
pub proof fn lemma_listing_extends<K: Key, V>(map: Map<K::V, V>, key: K::V, value: V) -> (at: int)
    requires
        lists_keys::<K, V>(map, sorted_keys::<K, V>(map)),
    ensures
        lists_keys::<K, V>(
            map.insert(key, value),
            sorted_keys::<K, V>(map.insert(key, value)),
        ),
        if map.contains_key(key) {
            &&& sorted_keys::<K, V>(map.insert(key, value)) == sorted_keys::<K, V>(map)
            &&& 0 <= at < sorted_keys::<K, V>(map).len()
            &&& sorted_keys::<K, V>(map)[at] == key
        } else {
            &&& 0 <= at <= sorted_keys::<K, V>(map).len()
            &&& sorted_keys::<K, V>(map.insert(key, value)) == sorted_keys::<K, V>(map).insert(
                at,
                key,
            )
        },
{
    let keys = sorted_keys::<K, V>(map);
    let more = map.insert(key, value);
    if map.contains_key(key) {
        assert forall|k: K::V| #[trigger] more.contains_key(k) <==> keys.contains(k) by {
            assert(map.contains_key(k) <==> keys.contains(k));
        }
        assert(lists_keys::<K, V>(more, keys));
        lemma_listing_is_unique::<K, V>(more, keys);
        assert(keys.contains(key));
        choose|i: int| 0 <= i < keys.len() && keys[i] == key
    } else {
        assert(!keys.contains(key)) by {
            assert(map.contains_key(key) <==> keys.contains(key));
        }
        let at = lemma_place::<K>(keys, key);
        let longer = keys.insert(at, key);
        lemma_insert_ascending::<K>(keys, at, key);
        assert forall|k: K::V| #[trigger] more.contains_key(k) <==> longer.contains(k) by {
            assert(map.contains_key(k) <==> keys.contains(k));
            if k == key {
                assert(longer[at] == key);
            } else if keys.contains(k) {
                let i = choose|i: int| 0 <= i < keys.len() && keys[i] == k;
                assert(longer[if i < at {
                    i
                } else {
                    i + 1
                }] == k);
            } else if longer.contains(k) {
                let i = choose|i: int| 0 <= i < longer.len() && longer[i] == k;
                assert(keys[if i < at {
                    i
                } else {
                    i - 1
                }] == k);
            }
        }
        assert(lists_keys::<K, V>(more, longer));
        lemma_listing_is_unique::<K, V>(more, longer);
        at
    }
}

/// A map has one listing of its keys in ascending order.
proof fn lemma_listing_is_unique<K: Key, V>(map: Map<K::V, V>, keys: Seq<K::V>)
    requires
        lists_keys::<K, V>(map, keys),
    ensures
        lists_keys::<K, V>(map, sorted_keys::<K, V>(map)),
        sorted_keys::<K, V>(map) == keys,
{
    let sorted = sorted_keys::<K, V>(map);
    assert(lists_keys::<K, V>(map, sorted));
    assert forall|k: K::V| #[trigger] sorted.contains(k) <==> keys.contains(k) by {
        assert(map.contains_key(k) <==> keys.contains(k));
        assert(map.contains_key(k) <==> sorted.contains(k));
    }
    lemma_ascending_unique::<K>(sorted, keys);
}

/// A place for a new key among ascending ones.
proof fn lemma_place<K: Key>(keys: Seq<K::V>, key: K::V) -> (at: int)
    requires
        ascending::<K>(keys),
        !keys.contains(key),
    ensures
        0 <= at <= keys.len(),
        forall|i: int| 0 <= i < at ==> K::before(#[trigger] keys[i], key),
        forall|i: int| at <= i < keys.len() ==> K::before(key, #[trigger] keys[i]),
    decreases keys.len(),
{
    if keys.len() == 0 {
        0
    } else {
        let last = keys.last();
        assert(keys.contains(last));
        K::lemma_total(last, key);
        if K::before(last, key) {
            assert forall|i: int| 0 <= i < keys.len() implies K::before(#[trigger] keys[i], key) by {
                if i < keys.len() - 1 {
                    K::lemma_transitive(keys[i], last, key);
                }
            }
            keys.len() as int
        } else {
            let rest = keys.drop_last();
            assert forall|k: K::V| rest.contains(k) implies keys.contains(k) by {
                let i = choose|i: int| 0 <= i < rest.len() && rest[i] == k;
                assert(keys[i] == k);
            }
            let at = lemma_place::<K>(rest, key);
            assert forall|i: int| 0 <= i < at implies K::before(#[trigger] keys[i], key) by {
                assert(rest[i] == keys[i]);
            }
            assert forall|i: int| at <= i < keys.len() implies K::before(
                key,
                #[trigger] keys[i],
            ) by {
                if i < keys.len() - 1 {
                    assert(rest[i] == keys[i]);
                }
            }
            at
        }
    }
}

// ── the order of byte strings ───────────────────────────────────────────────

/// The lexicographic order of byte strings.
pub open spec fn bytes_before(a: Seq<u8>, b: Seq<u8>) -> bool
    decreases b.len(),
{
    if b.len() == 0 {
        false
    } else if a.len() == 0 {
        true
    } else if a[0] == b[0] {
        bytes_before(a.skip(1), b.skip(1))
    } else {
        a[0] < b[0]
    }
}

/// No byte string comes before itself.
pub proof fn lemma_bytes_irreflexive(a: Seq<u8>)
    ensures
        !bytes_before(a, a),
    decreases a.len(),
{
    if a.len() > 0 {
        lemma_bytes_irreflexive(a.skip(1));
    }
}

/// The lexicographic order is transitive.
pub proof fn lemma_bytes_transitive(a: Seq<u8>, b: Seq<u8>, c: Seq<u8>)
    requires
        bytes_before(a, b),
        bytes_before(b, c),
    ensures
        bytes_before(a, c),
    decreases a.len(),
{
    if a.len() > 0 && a[0] == b[0] && b[0] == c[0] {
        lemma_bytes_transitive(a.skip(1), b.skip(1), c.skip(1));
    }
}

/// The lexicographic order is total.
pub proof fn lemma_bytes_total(a: Seq<u8>, b: Seq<u8>)
    ensures
        a == b || bytes_before(a, b) || bytes_before(b, a),
    decreases a.len(),
{
    if a.len() == 0 || b.len() == 0 {
        if a.len() == 0 && b.len() == 0 {
            assert(a =~= b);
        }
    } else if a[0] == b[0] {
        lemma_bytes_total(a.skip(1), b.skip(1));
        if a.skip(1) == b.skip(1) {
            assert(a =~= seq![a[0]] + a.skip(1));
            assert(b =~= seq![b[0]] + b.skip(1));
        }
    }
}

/// Compares two byte strings.
pub fn rank_bytes(a: &[u8], b: &[u8]) -> (r: Rank)
    ensures
        r is Before <==> bytes_before(a@, b@),
        r is Same <==> a@ == b@,
        r is After <==> bytes_before(b@, a@),
{
    proof {
        lemma_bytes_irreflexive(a@);
        lemma_bytes_total(a@, b@);
        if bytes_before(a@, b@) && bytes_before(b@, a@) {
            lemma_bytes_transitive(a@, b@, a@);
        }
    }
    let mut i: usize = 0;
    assert(a@.skip(0) =~= a@);
    assert(b@.skip(0) =~= b@);
    while i < a.len() && i < b.len()
        invariant
            i <= a.len(),
            i <= b.len(),
            bytes_before(a@, b@) == bytes_before(a@.skip(i as int), b@.skip(i as int)),
            bytes_before(b@, a@) == bytes_before(b@.skip(i as int), a@.skip(i as int)),
            forall|j: int| 0 <= j < i ==> a@[j] == b@[j],
            !bytes_before(a@, a@),
            a@ == b@ || bytes_before(a@, b@) || bytes_before(b@, a@),
        decreases a.len() - i,
    {
        assert(a@.skip(i as int)[0] == a@[i as int]);
        assert(b@.skip(i as int)[0] == b@[i as int]);
        assert(a@.skip(i as int).skip(1) =~= a@.skip(i + 1));
        assert(b@.skip(i as int).skip(1) =~= b@.skip(i + 1));
        if a[i] < b[i] {
            return Rank::Before;
        }
        if a[i] > b[i] {
            return Rank::After;
        }
        i += 1;
    }
    if i < b.len() {
        Rank::Before
    } else if i < a.len() {
        Rank::After
    } else {
        assert(a@ =~= b@);
        Rank::Same
    }
}

// ── lemmas ──────────────────────────────────────────────────────────────────

/// Two strictly ascending sequences with the same members are the same.
pub proof fn lemma_ascending_unique<K: Key>(a: Seq<K::V>, b: Seq<K::V>)
    requires
        ascending::<K>(a),
        ascending::<K>(b),
        forall|k: K::V| #[trigger] a.contains(k) <==> b.contains(k),
    ensures
        a == b,
    decreases a.len(),
{
    if a.len() == 0 {
        if b.len() > 0 {
            assert(b.contains(b[0]));
            assert(a.contains(b[0]));
        }
        assert(a =~= b);
    } else {
        assert(a.contains(a.last()));
        assert(b.contains(a.last()));
        // The greatest member of each is the greatest member of the other.
        assert(b.contains(b.last()));
        assert(a.contains(b.last()));
        let i = choose|i: int| 0 <= i < a.len() && a[i] == b.last();
        let j = choose|j: int| 0 <= j < b.len() && b[j] == a.last();
        if i < a.len() - 1 && j < b.len() - 1 {
            assert(K::before(a[i], a[a.len() - 1]));
            assert(K::before(b[j], b[b.len() - 1]));
            K::lemma_transitive(a[i], a[a.len() - 1], a[i]);
            K::lemma_irreflexive(a[i]);
        }
        assert(a.last() == b.last());
        let x = a.drop_last();
        let y = b.drop_last();
        assert forall|k: K::V| #[trigger] x.contains(k) <==> y.contains(k) by {
            K::lemma_irreflexive(a.last());
            if x.contains(k) {
                let p = choose|p: int| 0 <= p < x.len() && x[p] == k;
                assert(a[p] == k);
                assert(a.contains(k));
                assert(b.contains(k));
                let q = choose|q: int| 0 <= q < b.len() && b[q] == k;
                assert(K::before(a[p], a[a.len() - 1]));
                assert(q < b.len() - 1);
                assert(y[q] == k);
            }
            if y.contains(k) {
                let q = choose|q: int| 0 <= q < y.len() && y[q] == k;
                assert(b[q] == k);
                assert(b.contains(k));
                assert(a.contains(k));
                let p = choose|p: int| 0 <= p < a.len() && a[p] == k;
                assert(K::before(b[q], b[b.len() - 1]));
                assert(p < a.len() - 1);
                assert(x[p] == k);
            }
        }
        assert(ascending::<K>(x)) by {
            assert forall|i: int, j: int| 0 <= i < j < x.len() implies K::before(
                #[trigger] x[i],
                #[trigger] x[j],
            ) by {
                assert(K::before(a[i], a[j]));
            }
        }
        assert(ascending::<K>(y)) by {
            assert forall|i: int, j: int| 0 <= i < j < y.len() implies K::before(
                #[trigger] y[i],
                #[trigger] y[j],
            ) by {
                assert(K::before(b[i], b[j]));
            }
        }
        lemma_ascending_unique::<K>(x, y);
        assert(a =~= x.push(a.last()));
        assert(b =~= y.push(b.last()));
    }
}

proof fn lemma_insert_ascending<K: Key>(keys: Seq<K::V>, at: int, key: K::V)
    requires
        ascending::<K>(keys),
        0 <= at <= keys.len(),
        forall|i: int| 0 <= i < at ==> K::before(#[trigger] keys[i], key),
        forall|i: int| at <= i < keys.len() ==> K::before(key, #[trigger] keys[i]),
    ensures
        ascending::<K>(keys.insert(at, key)),
{
    let more = keys.insert(at, key);
    assert forall|i: int, j: int| 0 <= i < j < more.len() implies K::before(
        #[trigger] more[i],
        #[trigger] more[j],
    ) by {
        let x = if i < at { i } else { i - 1 };
        let y = if j < at { j } else { j - 1 };
        if i == at {
            assert(K::before(key, keys[j - 1]));
        } else if j == at {
            assert(K::before(keys[i], key));
        } else {
            assert(K::before(keys[x], keys[y]));
        }
    }
}

proof fn lemma_map_of<A, B>(keys: Seq<A>, values: Seq<B>, i: int)
    requires
        keys.no_duplicates(),
        0 <= i < keys.len(),
    ensures
        map_of(keys, values).contains_key(keys[i]),
        map_of(keys, values)[keys[i]] == values[i],
{
    assert(keys.contains(keys[i]));
    let j = keys.index_of(keys[i]);
    assert(keys[j] == keys[i]);
}

proof fn lemma_update_value<A, B>(keys: Seq<A>, values: Seq<B>, at: int, value: B)
    requires
        keys.no_duplicates(),
        keys.len() == values.len(),
        0 <= at < keys.len(),
    ensures
        map_of(keys, values.update(at, value)) == map_of(keys, values).insert(keys[at], value),
{
    let m = map_of(keys, values.update(at, value));
    let n = map_of(keys, values).insert(keys[at], value);
    lemma_map_of(keys, values, at);
    assert forall|k: A| #[trigger] m.contains_key(k) implies m[k] == n[k] by {
        let i = keys.index_of(k);
        assert(keys[i] == k);
        lemma_map_of(keys, values.update(at, value), i);
        lemma_map_of(keys, values, i);
    }
    assert(m =~= n);
}

proof fn lemma_insert_entry<A, B>(keys: Seq<A>, values: Seq<B>, at: int, key: A, value: B)
    requires
        keys.no_duplicates(),
        keys.insert(at, key).no_duplicates(),
        keys.len() == values.len(),
        0 <= at <= keys.len(),
    ensures
        map_of(keys.insert(at, key), values.insert(at, value)) == map_of(keys, values).insert(
            key,
            value,
        ),
{
    let new_keys = keys.insert(at, key);
    let new_values = values.insert(at, value);
    let m = map_of(new_keys, new_values);
    let n = map_of(keys, values).insert(key, value);
    assert(new_keys[at] == key);
    lemma_map_of(new_keys, new_values, at);
    assert forall|k: A| #[trigger] m.contains_key(k) <==> n.contains_key(k) by {
        if new_keys.contains(k) {
            let i = new_keys.index_of(k);
            if i < at {
                assert(keys[i] == k);
            } else if i > at {
                assert(keys[i - 1] == k);
            }
        }
        if keys.contains(k) {
            let i = keys.index_of(k);
            if i < at {
                assert(new_keys[i] == k);
            } else {
                assert(new_keys[i + 1] == k);
            }
        }
        assert(new_keys.contains(key));
    }
    assert forall|k: A| #[trigger] m.contains_key(k) implies m[k] == n[k] by {
        let i = new_keys.index_of(k);
        assert(new_keys[i] == k);
        lemma_map_of(new_keys, new_values, i);
        if i < at {
            lemma_map_of(keys, values, i);
        } else if i > at {
            lemma_map_of(keys, values, i - 1);
        }
    }
    assert(m =~= n);
}

proof fn lemma_remove_entry<A, B>(keys: Seq<A>, values: Seq<B>, at: int)
    requires
        keys.no_duplicates(),
        keys.remove(at).no_duplicates(),
        keys.len() == values.len(),
        0 <= at < keys.len(),
    ensures
        map_of(keys.remove(at), values.remove(at)) == map_of(keys, values).remove(keys[at]),
{
    let new_keys = keys.remove(at);
    let new_values = values.remove(at);
    let m = map_of(new_keys, new_values);
    let n = map_of(keys, values).remove(keys[at]);
    assert forall|k: A| #[trigger] m.contains_key(k) <==> n.contains_key(k) by {
        if new_keys.contains(k) {
            let i = new_keys.index_of(k);
            if i < at {
                assert(keys[i] == k);
            } else {
                assert(keys[i + 1] == k);
            }
        }
        if keys.contains(k) && k != keys[at] {
            let i = keys.index_of(k);
            if i < at {
                assert(new_keys[i] == k);
            } else {
                assert(new_keys[i - 1] == k);
            }
        }
    }
    assert forall|k: A| #[trigger] m.contains_key(k) implies m[k] == n[k] by {
        let i = new_keys.index_of(k);
        assert(new_keys[i] == k);
        lemma_map_of(new_keys, new_values, i);
        if i < at {
            lemma_map_of(keys, values, i);
        } else {
            lemma_map_of(keys, values, i + 1);
        }
    }
    assert(m =~= n);
}

} // verus!
