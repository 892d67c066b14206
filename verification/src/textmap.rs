//! Ordered containers keyed by text: a map and a set. Keys are kept in ascending
//! character order and never repeat.

use vstd::prelude::*;

use crate::order::{before, lemma_before_total, lemma_before_trans, str_before};
use crate::text::str_eq;

verus! {

/// The keys stand in strictly ascending order.
pub open spec fn ascending(keys: Seq<Seq<char>>) -> bool {
    forall|i: int, j: int| 0 <= i < j < keys.len() ==> before(#[trigger] keys[i], #[trigger] keys[j])
}

/// Strictly ascending keys never repeat.
pub proof fn lemma_ascending_distinct(keys: Seq<Seq<char>>)
    requires
        ascending(keys),
    ensures
        keys.no_duplicates(),
{
    assert forall|i: int, j: int| 0 <= i < keys.len() && 0 <= j < keys.len() && i != j implies keys[i]
        != keys[j] by {
        lemma_before_total(keys[i], keys[j]);
        lemma_before_total(keys[j], keys[i]);
        if i < j {
            assert(before(keys[i], keys[j]));
        } else {
            assert(before(keys[j], keys[i]));
        }
    }
}

/// A map from text to `V`, iterated in ascending key order.
#[derive(Debug, PartialEq, Eq)]
pub struct TextMap<V> {
    entries: Vec<(String, V)>,
}

impl<V> View for TextMap<V> {
    type V = Map<Seq<char>, V>;

    closed spec fn view(&self) -> Map<Seq<char>, V> {
        Map::new(
            |k: Seq<char>| self.keys().contains(k),
            |k: Seq<char>| self.entries@[self.keys().index_of(k)].1,
        )
    }
}

impl<V> TextMap<V> {
    /// The keys, in ascending order.
    pub closed spec fn keys(&self) -> Seq<Seq<char>> {
        self.entries@.map_values(|e: (String, V)| e.0@)
    }

    #[verifier::type_invariant]
    spec fn sorted(&self) -> bool {
        ascending(self.keys())
    }

    /// Key `i` maps to the value stored beside it, and nothing else is a key.
    proof fn lemma_view(&self)
        requires
            self.sorted(),
        ensures
            self.keys().len() == self.entries@.len(),
            forall|i: int|
                0 <= i < self.entries@.len() ==> {
                    &&& #[trigger] self.keys()[i] == self.entries@[i].0@
                    &&& self@.contains_key(self.keys()[i])
                    &&& self@[self.keys()[i]] == self.entries@[i].1
                },
            forall|k: Seq<char>| self@.contains_key(k) <==> #[trigger] self.keys().contains(k),
            self@.dom() == self.keys().to_set(),
    {
        lemma_ascending_distinct(self.keys());
        assert forall|i: int| 0 <= i < self.entries@.len() implies {
            &&& #[trigger] self.keys()[i] == self.entries@[i].0@
            &&& self@.contains_key(self.keys()[i])
            &&& self@[self.keys()[i]] == self.entries@[i].1
        } by {
            let k = self.keys()[i];
            assert(self.keys().contains(k));
            let j = self.keys().index_of(k);
            assert(self.keys()[j] == k);
            assert(i == j);
        }
        assert(self@.dom() =~= self.keys().to_set());
    }

    /// An empty map.
    pub fn new() -> (r: TextMap<V>)
        ensures
            r@ == Map::<Seq<char>, V>::empty(),
            r.keys().len() == 0,
    {
        let r = TextMap { entries: Vec::new() };
        assert(r@.dom() =~= Set::empty());
        assert(r@ =~= Map::empty());
        r
    }

    /// The number of keys.
    pub fn len(&self) -> (r: usize)
        ensures
            r == self.keys().len(),
            ascending(self.keys()),
            self@.dom() == self.keys().to_set(),
    {
        proof {
            use_type_invariant(self);
            self.lemma_view();
        }
        self.entries.len()
    }

    /// The `i`-th key, in ascending order.
    pub fn key_at(&self, i: usize) -> (r: &String)
        requires
            i < self.keys().len(),
        ensures
            r@ == self.keys()[i as int],
            self@.contains_key(r@),
    {
        proof {
            use_type_invariant(self);
            self.lemma_view();
            assert(self@.contains_key(self.keys()[i as int]));
        }
        &self.entries[i].0
    }

    /// The value of the `i`-th key.
    pub fn value_at(&self, i: usize) -> (r: &V)
        requires
            i < self.keys().len(),
        ensures
            *r == self@[self.keys()[i as int]],
            self@.contains_key(self.keys()[i as int]),
    {
        proof {
            use_type_invariant(self);
            self.lemma_view();
            assert(self@.contains_key(self.keys()[i as int]));
        }
        &self.entries[i].1
    }

    /// Where a key stands, or would stand: the number of keys before it.
    fn rank(entries: &Vec<(String, V)>, key: &str) -> (r: usize)
        requires
            ascending((TextMap { entries: *entries }).keys()),
        ensures
            r <= entries@.len(),
            forall|i: int| 0 <= i < r ==> before((#[trigger] entries@[i]).0@, key@),
            forall|i: int| r <= i < entries@.len() ==> !before((#[trigger] entries@[i]).0@, key@),
    {
        let ghost keys = (TextMap { entries: *entries }).keys();
        let mut low: usize = 0;
        let mut high: usize = entries.len();
        while low < high
            invariant
                keys == (TextMap { entries: *entries }).keys(),
                ascending(keys),
                low <= high <= entries@.len(),
                forall|i: int| 0 <= i < low ==> before((#[trigger] entries@[i]).0@, key@),
                forall|i: int|
                    high <= i < entries@.len() ==> !before((#[trigger] entries@[i]).0@, key@),
            decreases high - low,
        {
            let mid: usize = low + (high - low) / 2;
            assert(keys[mid as int] == entries@[mid as int].0@);
            if str_before(&entries[mid].0, key) {
                assert forall|i: int| 0 <= i < mid + 1 implies before(
                    (#[trigger] entries@[i]).0@,
                    key@,
                ) by {
                    if i < mid {
                        assert(before(keys[i], keys[mid as int]));
                        assert(keys[i] == entries@[i].0@);
                        lemma_before_trans(keys[i], keys[mid as int], key@);
                    }
                }
                low = mid + 1;
            } else {
                assert forall|i: int| mid <= i < entries@.len() implies !before(
                    (#[trigger] entries@[i]).0@,
                    key@,
                ) by {
                    if i > mid {
                        assert(before(keys[mid as int], keys[i]));
                        assert(keys[i] == entries@[i].0@);
                        if before(keys[i], key@) {
                            lemma_before_trans(keys[mid as int], keys[i], key@);
                        }
                    }
                }
                high = mid;
            }
        }
        low
    }

    /// The position of a key, if it is present.
    fn position(&self, key: &str) -> (r: Option<usize>)
        ensures
            match r {
                Some(i) => i < self.entries@.len() && self.keys()[i as int] == key@,
                None => !self.keys().contains(key@),
            },
    {
        proof {
            use_type_invariant(self);
        }
        let i: usize = Self::rank(&self.entries, key);
        if i < self.entries.len() && str_eq(&self.entries[i].0, key) {
            return Some(i);
        }
        proof {
            if self.keys().contains(key@) {
                let j = self.keys().index_of(key@);
                assert(self.keys()[j] == self.entries@[j].0@);
                lemma_before_total(key@, key@);
                if i < j {
                    assert(before(self.keys()[i as int], self.keys()[j]));
                    assert(self.keys()[i as int] == self.entries@[i as int].0@);
                }
            }
        }
        None
    }

    /// The value of `key`, if it is present.
    pub fn get(&self, key: &str) -> (r: Option<&V>)
        ensures
            match r {
                Some(v) => self@.contains_key(key@) && self@[key@] == *v,
                None => !self@.contains_key(key@),
            },
    {
        proof {
            use_type_invariant(self);
            self.lemma_view();
        }
        match self.position(key) {
            Some(i) => {
                assert(self.keys()[i as int] == key@);
                Some(&self.entries[i].1)
            },
            None => None,
        }
    }

    /// Whether `key` is present.
    pub fn contains_key(&self, key: &str) -> (r: bool)
        ensures
            r == self@.contains_key(key@),
    {
        self.get(key).is_some()
    }

    /// Map `key` to `value`, replacing any previous value.
    pub fn insert(&mut self, key: String, value: V)
        ensures
            final(self)@ == old(self)@.insert(key@, value),
    {
        proof {
            use_type_invariant(&*self);
            self.lemma_view();
        }
        let mut entries: Vec<(String, V)> = Vec::new();
        std::mem::swap(&mut entries, &mut self.entries);
        let ghost start = *old(self);
        let ghost keys = start.keys();
        let i: usize = Self::rank(&entries, &key);
        assert forall|j: int| 0 <= j < i implies before(#[trigger] keys[j], key@) by {
            assert(keys[j] == entries@[j].0@);
        }
        let ghost k = key@;
        if i < entries.len() && str_eq(&entries[i].0, &key) {
            assert(keys[i as int] == entries@[i as int].0@);
            entries[i] = (key, value);
            let ghost next = TextMap { entries };
            assert(next.keys() =~= keys);
            self.entries = entries;
            proof {
                self.lemma_view();
                assert(self@.dom() =~= start@.dom().insert(k));
                assert forall|x: Seq<char>| self@.contains_key(x) implies self@[x]
                    == start@.insert(k, value)[x] by {
                    assert(self.keys().contains(x));
                    let j = choose|j: int| 0 <= j < self.keys().len() && self.keys()[j] == x;
                    assert(self.keys()[j] == x);
                    assert(start.keys()[j] == x);
                    lemma_ascending_distinct(keys);
                }
                assert(self@ =~= start@.insert(k, value));
            }
        } else {
            proof {
                if i < entries@.len() {
                    assert(keys[i as int] == entries@[i as int].0@);
                    lemma_before_total(keys[i as int], k);
                    assert(before(k, keys[i as int]));
                }
            }
            entries.insert(i, (key, value));
            let ghost next = TextMap { entries };
            proof {
                assert(next.keys() =~= keys.insert(i as int, k));
                assert forall|a: int, b: int| 0 <= a < b < next.keys().len() implies before(
                    #[trigger] next.keys()[a],
                    #[trigger] next.keys()[b],
                ) by {
                    if a == i as int {
                        assert(before(k, keys[i as int]));
                        if b - 1 > i {
                            assert(before(keys[i as int], keys[b - 1]));
                            lemma_before_trans(k, keys[i as int], keys[b - 1]);
                        }
                    } else if b == i as int {
                        assert(before(keys[a], k));
                    } else if a < i && b > i {
                        assert(before(keys[a], keys[b - 1]));
                    } else if a < i {
                        assert(before(keys[a], keys[b]));
                    } else {
                        assert(before(keys[a - 1], keys[b - 1]));
                    }
                }
            }
            self.entries = entries;
            proof {
                self.lemma_view();
                lemma_ascending_distinct(self.keys());
                assert forall|x: Seq<char>| self@.contains_key(x) <==> start@.insert(
                    k,
                    value,
                ).contains_key(x) by {
                    if self.keys().contains(x) {
                        let j = choose|j: int| 0 <= j < self.keys().len() && self.keys()[j] == x;
                        if j < i {
                            assert(keys[j] == x);
                        } else if j > i {
                            assert(keys[j - 1] == x);
                        }
                    }
                    if keys.contains(x) {
                        let j = choose|j: int| 0 <= j < keys.len() && keys[j] == x;
                        if j < i {
                            assert(self.keys()[j] == x);
                        } else {
                            assert(self.keys()[j + 1] == x);
                        }
                    }
                    assert(self.keys()[i as int] == k);
                }
                assert forall|x: Seq<char>| self@.contains_key(x) implies self@[x]
                    == start@.insert(k, value)[x] by {
                    assert(self.keys().contains(x));
                    let j = choose|j: int| 0 <= j < self.keys().len() && self.keys()[j] == x;
                    assert(self.keys()[j] == x);
                    if j < i {
                        assert(start.keys()[j] == x);
                    } else if j > i {
                        assert(start.keys()[j - 1] == x);
                    }
                    if j != i {
                        assert(self.keys()[i as int] == k);
                    }
                }
                assert(self@ =~= start@.insert(k, value));
            }
        }
    }

    /// Remove `key`, returning its value if it was present.
    pub fn remove(&mut self, key: &str) -> (r: Option<V>)
        ensures
            final(self)@ == old(self)@.remove(key@),
            match r {
                Some(v) => old(self)@.contains_key(key@) && v == old(self)@[key@],
                None => !old(self)@.contains_key(key@),
            },
    {
        proof {
            use_type_invariant(&*self);
            self.lemma_view();
        }
        let ghost start = *old(self);
        let ghost keys = start.keys();
        match self.position(key) {
            None => {
                assert(self@ =~= start@.remove(key@));
                None
            },
            Some(i) => {
                let mut entries: Vec<(String, V)> = Vec::new();
                std::mem::swap(&mut entries, &mut self.entries);
                let (_k, v) = entries.remove(i);
                let ghost next = TextMap { entries };
                proof {
                    assert(next.keys() =~= keys.remove(i as int));
                    assert forall|a: int, b: int| 0 <= a < b < next.keys().len() implies before(
                        #[trigger] next.keys()[a],
                        #[trigger] next.keys()[b],
                    ) by {
                        let a1 = if a < i { a } else { a + 1 };
                        let b1 = if b < i { b } else { b + 1 };
                        assert(before(keys[a1], keys[b1]));
                    }
                }
                self.entries = entries;
                proof {
                    self.lemma_view();
                    lemma_ascending_distinct(keys);
                    assert(keys[i as int] == key@);
                    assert forall|x: Seq<char>| self@.contains_key(x) <==> start@.remove(
                        key@,
                    ).contains_key(x) by {
                        if self.keys().contains(x) {
                            let j = choose|j: int|
                                0 <= j < self.keys().len() && self.keys()[j] == x;
                            if j < i {
                                assert(keys[j] == x);
                            } else {
                                assert(keys[j + 1] == x);
                            }
                        }
                        if keys.contains(x) && x != key@ {
                            let j = choose|j: int| 0 <= j < keys.len() && keys[j] == x;
                            if j < i {
                                assert(self.keys()[j] == x);
                            } else {
                                assert(self.keys()[j - 1] == x);
                            }
                        }
                    }
                    assert forall|x: Seq<char>| self@.contains_key(x) implies self@[x]
                        == start@[x] by {
                        assert(self.keys().contains(x));
                        let j = choose|j: int| 0 <= j < self.keys().len() && self.keys()[j] == x;
                        assert(self.keys()[j] == x);
                        if j < i {
                            assert(start.keys()[j] == x);
                        } else {
                            assert(start.keys()[j + 1] == x);
                        }
                    }
                    assert(self@ =~= start@.remove(key@));
                }
                Some(v)
            },
        }
    }
}

impl<V: Clone> Clone for TextMap<V> {
    fn clone(&self) -> (r: TextMap<V>)
        ensures
            r.keys() == self.keys(),
            r@.dom() == self@.dom(),
            forall|k: Seq<char>| #[trigger]
                self@.contains_key(k) ==> cloned::<V>(self@[k], r@[k]),
    {
        proof {
            use_type_invariant(self);
            self.lemma_view();
        }
        let mut entries: Vec<(String, V)> = Vec::new();
        for i in 0..self.entries.len()
            invariant
                entries@.len() == i,
                forall|j: int| 0 <= j < i ==> (#[trigger] entries@[j]).0@ == self.entries@[j].0@,
                forall|j: int|
                    0 <= j < i ==> cloned::<V>(self.entries@[j].1, (#[trigger] entries@[j]).1),
        {
            let key = self.entries[i].0.clone();
            let value = self.entries[i].1.clone();
            entries.push((key, value));
        }
        let ghost next = TextMap { entries };
        assert(next.keys() =~= self.keys());
        let r = TextMap { entries };
        proof {
            r.lemma_view();
            assert forall|k: Seq<char>| #[trigger] self@.contains_key(k) implies cloned::<V>(
                self@[k],
                r@[k],
            ) by {
                assert(self.keys().contains(k));
                let j = self.keys().index_of(k);
                assert(self.keys()[j] == k);
                assert(r.keys()[j] == k);
            }
        }
        r
    }
}

/// A set of texts, iterated in ascending order.
#[derive(Debug, PartialEq, Eq)]
pub struct TextSet {
    map: TextMap<()>,
}

impl Clone for TextSet {
    fn clone(&self) -> (r: TextSet)
        ensures
            r@ == self@,
            r.items() == self.items(),
    {
        TextSet { map: self.map.clone() }
    }
}

impl View for TextSet {
    type V = Set<Seq<char>>;

    closed spec fn view(&self) -> Set<Seq<char>> {
        self.map@.dom()
    }
}

impl TextSet {
    /// The members, in ascending order.
    pub closed spec fn items(&self) -> Seq<Seq<char>> {
        self.map.keys()
    }

    /// An empty set.
    pub fn new() -> (r: TextSet)
        ensures
            r@ == Set::<Seq<char>>::empty(),
    {
        let r = TextSet { map: TextMap::new() };
        assert(r@ =~= Set::empty());
        r
    }

    /// The number of members.
    pub fn len(&self) -> (r: usize)
        ensures
            r == self.items().len(),
            ascending(self.items()),
            self@ == self.items().to_set(),
    {
        self.map.len()
    }

    /// The `i`-th member, in ascending order.
    pub fn item_at(&self, i: usize) -> (r: &String)
        requires
            i < self.items().len(),
        ensures
            r@ == self.items()[i as int],
            self@.contains(r@),
    {
        self.map.key_at(i)
    }

    /// Whether `item` is a member.
    pub fn contains(&self, item: &str) -> (r: bool)
        ensures
            r == self@.contains(item@),
    {
        self.map.contains_key(item)
    }

    /// Add `item`.
    pub fn insert(&mut self, item: String)
        ensures
            final(self)@ == old(self)@.insert(item@),
    {
        self.map.insert(item, ());
        assert(self@ =~= old(self)@.insert(item@));
    }
}

} // verus!
