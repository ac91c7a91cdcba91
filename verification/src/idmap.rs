//! A map from record ids to values that keeps its ids in insertion order.
//! It stands for the id-keyed hash maps of the stores: lookups, inserts and
//! removals behave as on a map, and the walk over its ids is deterministic.

use vstd::prelude::*;
use crate::types::RecordId;

verus! {

/// A map from record ids kept as a list of distinct ids in insertion order.
#[derive(Debug)]
pub struct IdMap<V> {
    entries: Vec<(RecordId, V)>,
}

impl<V> IdMap<V> {
    /// The keys are distinct (the type's invariant).
    #[verifier::type_invariant]
    pub closed spec fn wf(self) -> bool {
        self.key_order().no_duplicates()
    }

    /// The keys, in the order in which they were first inserted.
    pub closed spec fn key_order(self) -> Seq<RecordId> {
        self.entries@.map_values(|e: (RecordId, V)| e.0)
    }

    /// The values, position by position with `key_order`.
    pub closed spec fn value_order(self) -> Seq<V> {
        self.entries@.map_values(|e: (RecordId, V)| e.1)
    }

    /// The map from each key to its value.
    pub closed spec fn as_map(self) -> Map<RecordId, V> {
        Map::new(
            |k: RecordId| self.key_order().contains(k),
            |k: RecordId| self.value_order()[self.key_order().index_of(k)],
        )
    }

    proof fn lemma_index_of(self, i: int)
        requires
            self.key_order().no_duplicates(),
            0 <= i < self.entries@.len(),
        ensures
            self.key_order().index_of(self.key_order()[i]) == i,
            self.as_map().contains_key(self.key_order()[i]),
            self.as_map()[self.key_order()[i]] == self.value_order()[i],
    {
        assert(self.key_order().contains(self.key_order()[i]));
    }

    /// Every key of the map stands at one position of `key_order`.
    pub proof fn lemma_view_consistent(self)
        requires
            self.wf(),
        ensures
            self.key_order().no_duplicates(),
            self.key_order().len() == self.value_order().len(),
            self@.dom() == self.key_order().to_set(),
            forall|k: RecordId| #[trigger] self@.contains_key(k) <==> self.key_order().contains(k),
            self@.dom().finite(),
            self@.len() == self.key_order().len(),
            forall|i: int|
                #![trigger self.key_order()[i]]
                0 <= i < self.key_order().len() ==> self@[self.key_order()[i]]
                    == self.value_order()[i],
    {
        assert forall|i: int|
            #![trigger self.key_order()[i]]
            0 <= i < self.key_order().len() implies self@[self.key_order()[i]]
                == self.value_order()[i] by {
            self.lemma_index_of(i);
        }
        assert(self.as_map().dom() =~= self.key_order().to_set());
        self.key_order().unique_seq_to_set();
    }

    /// An empty map.
    pub fn new() -> (m: Self)
        ensures
            m@ == Map::<RecordId, V>::empty(),
            m.key_order() == Seq::<RecordId>::empty(),
    {
        let m = IdMap { entries: Vec::new() };
        assert(m.key_order() =~= Seq::<RecordId>::empty());
        assert(m@ =~= Map::<RecordId, V>::empty());
        m
    }

    /// The number of keys.
    pub fn len(&self) -> (n: usize)
        ensures
            n == self@.len(),
            n == self.key_order().len(),
    {
        proof {
            use_type_invariant(self);
            self.lemma_view_consistent();
        }
        self.entries.len()
    }

    /// The position of a key in `key_order`, if it is there.
    pub fn position(&self, key: RecordId) -> (r: Option<usize>)
        ensures
            match r {
                Some(i) => i < self.key_order().len() && self.key_order()[i as int] == key,
                None => !self.key_order().contains(key),
            },
            r is Some <==> self@.contains_key(key),
    {
        proof {
            use_type_invariant(self);
        }
        let mut i: usize = 0;
        while i < self.entries.len()
            invariant
                i <= self.entries@.len(),
                forall|j: int| 0 <= j < i ==> self.key_order()[j] != key,
            decreases self.entries@.len() - i,
        {
            if self.entries[i].0 == key {
                return Some(i);
            }
            i += 1;
        }
        None
    }

    /// Whether the key is present.
    pub fn contains_key(&self, key: RecordId) -> (b: bool)
        ensures
            b == self@.contains_key(key),
    {
        self.position(key).is_some()
    }

    /// The value stored under a key.
    pub fn get(&self, key: RecordId) -> (r: Option<&V>)
        ensures
            match r {
                Some(v) => self@.contains_key(key) && *v == self@[key],
                None => !self@.contains_key(key),
            },
    {
        match self.position(key) {
            Some(i) => {
                proof {
                    use_type_invariant(self);
                    self.lemma_index_of(i as int);
                }
                Some(&self.entries[i].1)
            },
            None => None,
        }
    }

    /// The key and value at a position of `key_order`.
    pub fn entry_at(&self, i: usize) -> (r: (&RecordId, &V))
        requires
            i < self.key_order().len(),
        ensures
            *r.0 == self.key_order()[i as int],
            *r.1 == self.value_order()[i as int],
            *r.1 == self@[self.key_order()[i as int]],
    {
        proof {
            use_type_invariant(self);
            self.lemma_index_of(i as int);
        }
        (&self.entries[i].0, &self.entries[i].1)
    }

    /// Stores a value under a key. A present key keeps its position; a new key
    /// goes last. Returns the value that was replaced.
    pub fn insert(&mut self, key: RecordId, value: V) -> (old_value: Option<V>)
        ensures
            final(self)@ == old(self)@.insert(key, value),
            old(self)@.contains_key(key) ==> final(self).key_order() == old(self).key_order()
                && old_value == Some(old(self)@[key]),
            !old(self)@.contains_key(key) ==> final(self).key_order() == old(self).key_order().push(
                key,
            ) && old_value is None,
    {
        proof {
            use_type_invariant(&*self);
        }
        let pos = self.position(key);
        match pos {
            Some(i) => {
                let ghost old_self = *self;
                proof {
                    old_self.lemma_index_of(i as int);
                }
                let k2 = self.entries[i].0;
                let mut e: Vec<(RecordId, V)> = Vec::new();
                std::mem::swap(&mut e, &mut self.entries);
                let (_, old_v) = e.remove(i);
                e.insert(i, (k2, value));
                proof {
                    assert(e@.map_values(|x: (RecordId, V)| x.0) =~= old_self.key_order());
                }
                self.entries = e;
                proof {
                    assert(self.key_order() =~= old_self.key_order());
                    assert(self.value_order() =~= old_self.value_order().update(i as int, value));
                    assert forall|k: RecordId| #[trigger] self.as_map().contains_key(k) implies
                        self.as_map()[k] == old_self.as_map().insert(key, value)[k] by {
                        let j = self.key_order().index_of(k);
                        assert(self.key_order().contains(k));
                        self.lemma_index_of(j);
                        old_self.lemma_index_of(j);
                    }
                    assert(self.as_map() =~= old_self.as_map().insert(key, value));
                }
                Some(old_v)
            },
            None => {
                let ghost old_self = *self;
                let mut e: Vec<(RecordId, V)> = Vec::new();
                std::mem::swap(&mut e, &mut self.entries);
                e.push((key, value));
                proof {
                    assert(e@.map_values(|x: (RecordId, V)| x.0) =~= old_self.key_order().push(key));
                }
                self.entries = e;
                proof {
                    assert(self.key_order() =~= old_self.key_order().push(key));
                    assert(self.value_order() =~= old_self.value_order().push(value));
                    assert(self.key_order().no_duplicates());
                    assert forall|k: RecordId| #[trigger] self.as_map().contains_key(k) implies
                        self.as_map()[k] == old_self.as_map().insert(key, value)[k] by {
                        let j = self.key_order().index_of(k);
                        assert(self.key_order().contains(k));
                        self.lemma_index_of(j);
                        if j < old_self.key_order().len() {
                            old_self.lemma_index_of(j);
                        }
                    }
                    assert forall|k: RecordId| #[trigger] old_self.as_map().insert(key, value).contains_key(k)
                        implies self.as_map().contains_key(k) by {
                        if k != key {
                            let j = old_self.key_order().index_of(k);
                            assert(old_self.key_order().contains(k));
                            assert(self.key_order()[j] == k);
                        } else {
                            assert(self.key_order()[old_self.key_order().len() as int] == k);
                        }
                    }
                    assert(self.as_map() =~= old_self.as_map().insert(key, value));
                }
                None
            },
        }
    }

    /// Removes a key; returns its value if it was present. The other keys keep
    /// their order.
    pub fn remove(&mut self, key: RecordId) -> (r: Option<V>)
        ensures
            final(self)@ == old(self)@.remove(key),
            match r {
                Some(v) => old(self)@.contains_key(key) && v == old(self)@[key],
                None => !old(self)@.contains_key(key),
            },
            final(self).key_order() == without_id(old(self).key_order(), key),
    {
        proof {
            use_type_invariant(&*self);
        }
        let pos = self.position(key);
        match pos {
            Some(i) => {
                let ghost old_self = *self;
                proof {
                    old_self.lemma_index_of(i as int);
                }
                let mut e: Vec<(RecordId, V)> = Vec::new();
                std::mem::swap(&mut e, &mut self.entries);
                let (_, v) = e.remove(i);
                proof {
                    assert(e@.map_values(|x: (RecordId, V)| x.0) =~= old_self.key_order().remove(i as int));
                }
                self.entries = e;
                proof {
                    let ko = old_self.key_order();
                    assert(self.key_order() =~= ko.remove(i as int));
                    assert(self.value_order() =~= old_self.value_order().remove(i as int));
                    lemma_id_filter_remove_unique(ko, i as int, key);
                    assert forall|k: RecordId| #[trigger] self.as_map().contains_key(k) implies
                        self.as_map()[k] == old_self.as_map().remove(key)[k] by {
                        let j = self.key_order().index_of(k);
                        assert(self.key_order().contains(k));
                        self.lemma_index_of(j);
                        if j < i {
                            old_self.lemma_index_of(j);
                        } else {
                            old_self.lemma_index_of(j + 1);
                        }
                    }
                    assert forall|k: RecordId| #[trigger] old_self.as_map().remove(key).contains_key(k)
                        implies self.as_map().contains_key(k) by {
                        let j = old_self.key_order().index_of(k);
                        assert(old_self.key_order().contains(k));
                        if j < i {
                            assert(self.key_order()[j] == k);
                        } else {
                            assert(self.key_order()[j - 1] == k);
                        }
                    }
                    assert(self.as_map() =~= old_self.as_map().remove(key));
                }
                Some(v)
            },
            None => {
                proof {
                    assert(self.as_map() =~= self.as_map().remove(key));
                    lemma_id_filter_absent(self.key_order(), key);
                }
                None
            },
        }
    }

    /// Removes every key.
    pub fn clear(&mut self)
        ensures
            final(self)@ == Map::<RecordId, V>::empty(),
            final(self).key_order() == Seq::<RecordId>::empty(),
    {
        self.entries = Vec::new();
        proof {
            assert(self.key_order() =~= Seq::<RecordId>::empty());
            assert(self.as_map() =~= Map::<RecordId, V>::empty());
        }
    }

    /// The keys, in `key_order`.
    pub fn keys(&self) -> (r: Vec<RecordId>)
        ensures
            r@ == self.key_order(),
    {
        let mut r: Vec<RecordId> = Vec::new();
        let mut i: usize = 0;
        while i < self.entries.len()
            invariant
                i <= self.entries@.len(),
                r@.len() == i,
                r@ == self.key_order().subrange(0, i as int),
            decreases self.entries@.len() - i,
        {
            r.push(self.entries[i].0);
            proof {
                assert(r@[i as int] == self.key_order()[i as int]);
                assert(r@ =~= self.key_order().subrange(0, i + 1));
            }
            i += 1;
        }
        proof {
            assert(self.key_order().subrange(0, i as int) =~= self.key_order());
        }
        r
    }
}

impl<V> View for IdMap<V> {
    type V = Map<RecordId, V>;

    closed spec fn view(&self) -> Map<RecordId, V> {
        self.as_map()
    }
}

/// The sequence without the occurrences of one key.
pub open spec fn without_id(s: Seq<RecordId>, key: RecordId) -> Seq<RecordId> {
    s.filter(|k: RecordId| k != key)
}

pub proof fn lemma_id_filter_remove_unique(s: Seq<RecordId>, i: int, key: RecordId)
    requires
        s.no_duplicates(),
        0 <= i < s.len(),
        s[i] == key,
    ensures
        s.remove(i) == without_id(s, key),
    decreases s.len(),
{
    reveal_with_fuel(Seq::filter, 1);
    let d = s.drop_last();
    assert(without_id(s, key) == if s.last() != key {
            without_id(d, key).push(s.last())
        } else {
            without_id(d, key)
        });
    if i == s.len() - 1 {
        assert(d =~= s.remove(i));
        assert(!d.contains(key)) by {
            if d.contains(key) {
                let j = choose|j: int| 0 <= j < d.len() && d[j] == key;
                assert(s[j] == key);
            }
        }
        lemma_id_filter_absent(d, key);
    } else {
        assert(d.no_duplicates());
        lemma_id_filter_remove_unique(d, i, key);
        assert(s.last() != key) by {
            assert(s[s.len() - 1] == s.last());
        }
        assert(s.remove(i) =~= d.remove(i).push(s.last()));
    }
}

pub proof fn lemma_id_filter_absent(s: Seq<RecordId>, key: RecordId)
    requires
        !s.contains(key),
    ensures
        without_id(s, key) == s,
    decreases s.len(),
{
    reveal_with_fuel(Seq::filter, 1);
    if s.len() > 0 {
        let d = s.drop_last();
        assert(without_id(s, key) == if s.last() != key {
            without_id(d, key).push(s.last())
        } else {
            without_id(d, key)
        });
        assert(!d.contains(key)) by {
            if d.contains(key) {
                let j = choose|j: int| 0 <= j < d.len() && d[j] == key;
                assert(s[j] == key);
            }
        }
        lemma_id_filter_absent(d, key);
        assert(s.last() != key) by {
            assert(s[s.len() - 1] == s.last());
        }
        assert(d.push(s.last()) =~= s);
    } else {
        assert(without_id(s, key) =~= s);
    }
}

} // verus!
