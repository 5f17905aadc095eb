//! A map that keeps the order in which its keys were first inserted.

use vstd::prelude::*;

use crate::region::RegionId;
use crate::rows;
use crate::text;

verus! {

/// What a [`KeyedMap`] can find values by.
pub trait MapKey: View {
    /// Whether two keys are the same.
    fn same_key(&self, other: &Self) -> (r: bool)
        ensures
            r == (self@ == other@),
    ;
}

impl MapKey for String {
    fn same_key(&self, other: &Self) -> (r: bool) {
        text::text_equal(self.as_str(), other.as_str())
    }
}

impl MapKey for RegionId {
    fn same_key(&self, other: &Self) -> (r: bool) {
        *self == *other
    }
}

/// A schema's name with the name of a table or the identifier of a region in it.
impl<K: MapKey> MapKey for (String, K) {
    fn same_key(&self, other: &Self) -> (r: bool) {
        text::text_equal(self.0.as_str(), other.0.as_str()) && self.1.same_key(&other.1)
    }
}

/// Values by key. No key occurs twice.
#[derive(Debug)]
pub struct KeyedMap<K, V> {
    pub keys: Vec<K>,
    pub values: Vec<V>,
}

impl<K: MapKey, V> KeyedMap<K, V> {
    /// The keys, in the order in which they were first inserted.
    pub open spec fn spec_keys(self) -> Seq<K::V> {
        self.keys@.map_values(|k: K| k@)
    }

    /// There is a value for each key, and no key occurs twice.
    pub open spec fn well_formed(self) -> bool {
        self.keys@.len() == self.values@.len() && self.spec_keys().no_duplicates()
    }

    /// What the map holds.
    pub open spec fn map(self) -> Map<K::V, V> {
        Map::new(
            |key: K::V| self.spec_keys().contains(key),
            |key: K::V| self.values@[rows::last_index(self.spec_keys(), key)->0],
        )
    }

    /// A map that holds nothing.
    pub fn new() -> (r: Self)
        ensures
            r.well_formed(),
            r.map() == Map::<K::V, V>::empty(),
            r.spec_keys() == Seq::<K::V>::empty(),
            r.values@ == Seq::<V>::empty(),
    {
        let r = KeyedMap { keys: Vec::new(), values: Vec::new() };
        assert(r.spec_keys() =~= Seq::<K::V>::empty());
        assert(r.map() =~= Map::<K::V, V>::empty());
        r
    }

    /// The place of a key.
    pub fn index_of(&self, key: &K) -> (r: Option<usize>)
        requires
            self.well_formed(),
        ensures
            match r {
                Some(i) => i < self.values@.len() && self.spec_keys()[i as int] == key@
                    && self.map().contains_key(key@) && self.map()[key@] == self.values@[i as int]
                    && rows::last_index(self.spec_keys(), key@) == Some(i as int),
                None => !self.map().contains_key(key@) && !self.spec_keys().contains(key@)
                    && rows::last_index(self.spec_keys(), key@) is None,
            },
    {
        let ghost keys = self.spec_keys();
        let mut end: usize = self.keys.len();
        proof {
            rows::lemma_last_index(keys, key@);
        }
        assert(keys.take(end as int) =~= keys);
        while end > 0
            invariant
                self.well_formed(),
                end <= self.keys@.len(),
                keys == self.spec_keys(),
                rows::last_index(keys, key@) == rows::last_index(keys.take(end as int), key@),
                rows::last_index(keys, key@) matches Some(i) ==> 0 <= i < keys.len() && keys[i]
                    == key@,
                rows::last_index(keys, key@) is None ==> !keys.contains(key@),
            decreases end,
        {
            let i: usize = end - 1;
            let ghost prefix = keys.take(end as int);
            assert(prefix.last() == self.keys@[i as int]@);
            assert(prefix.drop_last() =~= keys.take(i as int));
            if self.keys[i].same_key(key) {
                assert(keys.contains(key@));
                return Some(i);
            }
            end = i;
        }
        assert(keys.take(0) =~= Seq::<K::V>::empty());
        None
    }

    /// The value of a key.
    pub fn get(&self, key: &K) -> (r: Option<&V>)
        requires
            self.well_formed(),
        ensures
            match r {
                Some(v) => self.map().contains_key(key@) && self.map()[key@] == *v,
                None => !self.map().contains_key(key@),
            },
    {
        match self.index_of(key) {
            Some(i) => Some(&self.values[i]),
            None => None,
        }
    }

    /// Puts a value under a key, in place of the one that is there.
    pub fn insert(&mut self, key: K, value: V)
        requires
            old(self).well_formed(),
        ensures
            final(self).well_formed(),
            final(self).map() == old(self).map().insert(key@, value),
            match rows::last_index(old(self).spec_keys(), key@) {
                Some(i) => final(self).spec_keys() == old(self).spec_keys() && final(self).values@
                    == old(self).values@.update(i, value),
                None => final(self).spec_keys() == old(self).spec_keys().push(key@)
                    && final(self).values@ == old(self).values@.push(value),
            },
    {
        let ghost before = *self;
        match self.index_of(&key) {
            Some(i) => {
                self.values.set(i, value);
                proof {
                    assert(self.spec_keys() == before.spec_keys());
                    lemma_places_differ(self.spec_keys());
                    assert(self.map() =~= before.map().insert(key@, value));
                }
            },
            None => {
                self.keys.push(key);
                self.values.push(value);
                proof {
                    assert(self.spec_keys() =~= before.spec_keys().push(key@));
                    lemma_pushed(before, *self, key@, value);
                }
            },
        }
    }
}

/// What the first `n` entries of a map hold.
spec fn first_entries<K: MapKey, V>(map: KeyedMap<K, V>, n: int) -> Map<K::V, V> {
    Map::new(
        |key: K::V| map.spec_keys().take(n).contains(key),
        |key: K::V| map.values@[rows::last_index(map.spec_keys(), key)->0],
    )
}

impl<K: MapKey, V> KeyedMap<K, V> {
    /// Puts each value of another map under its key.
    pub fn extend(&mut self, other: KeyedMap<K, V>)
        requires
            old(self).well_formed(),
            other.well_formed(),
        ensures
            final(self).well_formed(),
            final(self).map() == old(self).map().union_prefer_right(other.map()),
    {
        let ghost before = self.map();
        let ghost all = other.spec_keys();
        let KeyedMap { mut keys, mut values } = other;
        let ghost given = keys@;
        let ghost given_values = values@;
        let n: usize = keys.len();
        crate::lists::reverse(&mut keys);
        crate::lists::reverse(&mut values);
        let mut i: usize = 0;
        proof {
            lemma_places_differ(all);
            assert(self.map() =~= before.union_prefer_right(first_entries(other, 0)));
        }
        while i < n
            invariant
                i <= n,
                n == given.len(),
                n == given_values.len(),
                given == other.keys@,
                given_values == other.values@,
                all == other.spec_keys(),
                all == given.map_values(|k: K| k@),
                keys@.len() == n - i,
                values@.len() == n - i,
                forall|k: int| 0 <= k < keys@.len() ==> #[trigger] keys@[k] == given[n - 1 - k],
                forall|k: int|
                    0 <= k < values@.len() ==> #[trigger] values@[k] == given_values[n - 1 - k],
                self.well_formed(),
                self.map() == before.union_prefer_right(first_entries(other, i as int)),
                before == old(self).map(),
                forall|k: int|
                    0 <= k < all.len() ==> rows::last_index(all, #[trigger] all[k]) == Some(k),
            decreases n - i,
        {
            if let Some(key) = keys.pop() {
                if let Some(value) = values.pop() {
                    assert(key == given[i as int]);
                    assert(value == given_values[i as int]);
                    assert(key@ == all[i as int]);
                    self.insert(key, value);
                    proof {
                        let next = all.take(i + 1);
                        assert(next =~= all.take(i as int).push(key@));
                        assert forall|k: K::V| next.contains(k) <==> all.take(i as int).contains(k)
                            || k == key@ by {
                            if all.take(i as int).contains(k) {
                                let m = choose|m: int| 0 <= m < i && all.take(i as int)[m] == k;
                                assert(next[m] == k);
                            }
                            if k == key@ {
                                assert(next[i as int] == k);
                            }
                            if next.contains(k) && k != key@ {
                                let m = choose|m: int| 0 <= m < i + 1 && next[m] == k;
                                assert(all.take(i as int)[m] == k);
                            }
                        }
                        assert(self.map() =~= before.union_prefer_right(
                            first_entries(other, i + 1),
                        ));
                    }
                }
            }
            i = i + 1;
        }
        proof {
            assert(all.take(n as int) =~= all);
            assert(first_entries(other, n as int) =~= other.map());
        }
    }
}

/// Of a list without duplicates, each entry is at the place that [`rows::last_index`]
/// gives.
pub proof fn lemma_places_differ<A>(keys: Seq<A>)
    requires
        keys.no_duplicates(),
    ensures
        forall|i: int| 0 <= i < keys.len() ==> rows::last_index(keys, #[trigger] keys[i]) == Some(i),
        forall|key: A| #[trigger]
            keys.contains(key) ==> (rows::last_index(keys, key) matches Some(i) && 0 <= i
                < keys.len() && keys[i] == key),
{
    assert forall|i: int| 0 <= i < keys.len() implies rows::last_index(keys, #[trigger] keys[i])
        == Some(i) by {
        rows::lemma_last_index(keys, keys[i]);
        assert(keys.contains(keys[i]));
    }
    assert forall|key: A| #[trigger] keys.contains(key) implies (rows::last_index(
        keys,
        key,
    ) matches Some(i) && 0 <= i < keys.len() && keys[i] == key) by {
        rows::lemma_last_index(keys, key);
    }
}

proof fn lemma_pushed<K: MapKey, V>(
    before: KeyedMap<K, V>,
    after: KeyedMap<K, V>,
    key: K::V,
    value: V,
)
    requires
        before.well_formed(),
        !before.spec_keys().contains(key),
        after.keys@.len() == before.keys@.len() + 1,
        after.spec_keys() == before.spec_keys().push(key),
        after.values@ == before.values@.push(value),
    ensures
        after.well_formed(),
        after.map() == before.map().insert(key, value),
{
    let keys = before.spec_keys();
    let more = after.spec_keys();
    let n = keys.len() as int;
    assert forall|i: int, j: int| 0 <= i < more.len() && 0 <= j < more.len() && i != j implies more[i]
        != more[j] by {
        if i == n {
            assert(keys.contains(keys[j]));
        } else if j == n {
            assert(keys.contains(keys[i]));
        }
    }
    lemma_places_differ(keys);
    lemma_places_differ(more);
    assert forall|k: K::V| after.map().contains_key(k) == before.map().insert(
        key,
        value,
    ).contains_key(k) by {
        if keys.contains(k) {
            let i = choose|i: int| 0 <= i < n && keys[i] == k;
            assert(more[i] == k);
        }
        if k == key {
            assert(more[n] == key);
        }
        if more.contains(k) && k != key {
            let i = choose|i: int| 0 <= i < more.len() && more[i] == k;
            assert(keys[i] == k);
        }
    }
    assert forall|k: K::V| after.map().contains_key(k) implies after.map()[k]
        == before.map().insert(key, value)[k] by {
        assert(more.contains(k));
        let i = rows::last_index(more, k)->0;
        if k != key {
            assert(keys[i] == k);
            assert(keys.contains(k));
        }
    }
    assert(after.map() =~= before.map().insert(key, value));
}

/// A map holds each of its values under its key, and nothing under any other key.
pub proof fn law_map_holds_entries<K: MapKey, V>(map: KeyedMap<K, V>)
    requires
        map.well_formed(),
    ensures
        forall|i: int|
            0 <= i < map.keys@.len() ==> map.map().contains_key((#[trigger] map.keys@[i])@)
                && map.map()[map.keys@[i]@] == map.values@[i],
        forall|key: K::V| #[trigger]
            map.map().contains_key(key) ==> exists|i: int|
                0 <= i < map.keys@.len() && (#[trigger] map.keys@[i])@ == key,
        forall|i: int, j: int|
            0 <= i < j < map.keys@.len() ==> (#[trigger] map.keys@[i])@ != (
            #[trigger] map.keys@[j])@,
{
    let keys = map.spec_keys();
    lemma_places_differ(keys);
    assert forall|i: int| 0 <= i < map.keys@.len() implies map.map().contains_key(
        (#[trigger] map.keys@[i])@,
    ) && map.map()[map.keys@[i]@] == map.values@[i] by {
        assert(keys[i] == map.keys@[i]@);
        assert(keys.contains(keys[i]));
    }
    assert forall|key: K::V| #[trigger] map.map().contains_key(key) implies exists|i: int|
        0 <= i < map.keys@.len() && (#[trigger] map.keys@[i])@ == key by {
        let i = choose|i: int| 0 <= i < keys.len() && keys[i] == key;
        assert(map.keys@[i]@ == key);
    }
    assert forall|i: int, j: int| 0 <= i < j < map.keys@.len() implies (#[trigger] map.keys@[i])@
        != (#[trigger] map.keys@[j])@ by {
        assert(keys[i] == map.keys@[i]@ && keys[j] == map.keys@[j]@);
    }
}

/// A value that was inserted under a key is found there; under any other key what was found before
/// is, and a key under which nothing was inserted has nothing.
pub proof fn law_inserted_value_is_found<K: MapKey, V>(
    map: &mut KeyedMap<K, V>,
    key: K,
    value: V,
    other: K::V,
)
    requires
        old(map).well_formed(),
        call_ensures(KeyedMap::<K, V>::insert, (map, key, value), ()),
    ensures
        final(map).map().contains_key(key@),
        final(map).map()[key@] == value,
        other != key@ ==> (final(map).map().contains_key(other) <==> old(map).map().contains_key(
            other,
        )),
        other != key@ && old(map).map().contains_key(other) ==> final(map).map()[other] == old(
            map,
        ).map()[other],
{
}

} // verus!
