//! Indexes over column values: an ordered index with range queries, a hash
//! index, a Bloom filter, and the manager that keeps them per table.

use vstd::prelude::*;
use std::collections::hash_map::DefaultHasher;
use std::hash::{Hash, Hasher};
use vstd::std_specs::hash::DefaultHasherAdditionalSpecFns;
use crate::collections::StrMap;
use crate::types::RecordId;
use dashmap::DashMap;
use crate::util::{
    chars_lt, lemma_chars_lt_asymmetric, lemma_chars_lt_irreflexive, lemma_chars_lt_total, lemma_chars_lt_transitive,
    owned, str_eq, str_lt,
};

verus! {

/// A copy of record ids.
fn copy_ids(ids: &[RecordId]) -> (r: Vec<RecordId>)
    ensures
        r@ == ids@,
{
    let mut r: Vec<RecordId> = Vec::new();
    let mut i: usize = 0;
    while i < ids.len()
        invariant
            i <= ids@.len(),
            r@ == ids@.subrange(0, i as int),
        decreases ids@.len() - i,
    {
        r.push(ids[i]);
        proof {
            assert(r@ =~= ids@.subrange(0, i + 1));
        }
        i += 1;
    }
    r
}

/// Appends record ids.
fn append_ids(r: &mut Vec<RecordId>, ids: &[RecordId])
    ensures
        final(r)@ == old(r)@ + ids@,
{
    let mut i: usize = 0;
    while i < ids.len()
        invariant
            i <= ids@.len(),
            r@ == old(r)@ + ids@.subrange(0, i as int),
        decreases ids@.len() - i,
    {
        r.push(ids[i]);
        proof {
            assert(ids@.subrange(0, i + 1) =~= ids@.subrange(0, i as int).push(ids@[i as int]));
        }
        i += 1;
    }
    assert(ids@.subrange(0, i as int) =~= ids@);
}

/// The keys and record ids of an ordered index's slots.
pub open spec fn slot_views(t: Seq<(String, Vec<RecordId>)>) -> Seq<(Seq<char>, Seq<RecordId>)> {
    t.map_values(|e: (String, Vec<RecordId>)| (e.0@, e.1@))
}

/// Whether the keys of slots strictly increase.
pub open spec fn keys_increasing(s: Seq<(Seq<char>, Seq<RecordId>)>) -> bool {
    forall|i: int, j: int| 0 <= i < j < s.len() ==> chars_lt(#[trigger] s[i].0, #[trigger] s[j].0)
}

/// The record ids of the slots whose key lies between `start` and `end`
/// (both included), slot after slot.
pub open spec fn range_ids(s: Seq<(Seq<char>, Seq<RecordId>)>, start: Seq<char>, end: Seq<char>) -> Seq<RecordId>
    decreases s.len(),
{
    if s.len() == 0 {
        Seq::empty()
    } else {
        range_ids(s.drop_last(), start, end) + if !chars_lt(s.last().0, start) && !chars_lt(end, s.last().0) {
            s.last().1
        } else {
            Seq::empty()
        }
    }
}

/// A record id is in a range's ids exactly when some slot with a key in the
/// range holds it.
pub proof fn lemma_range_ids_members(s: Seq<(Seq<char>, Seq<RecordId>)>, start: Seq<char>, end: Seq<char>, id: RecordId)
    ensures
        range_ids(s, start, end).contains(id) <==> exists|i: int|
            0 <= i < s.len() && !chars_lt(s[i].0, start) && !chars_lt(end, s[i].0) && (#[trigger] s[i]).1.contains(id),
    decreases s.len(),
{
    if s.len() > 0 {
        let d = s.drop_last();
        lemma_range_ids_members(d, start, end, id);
        let rd = range_ids(d, start, end);
        let last_in = !chars_lt(s.last().0, start) && !chars_lt(end, s.last().0);
        let tail = if last_in { s.last().1 } else { Seq::<RecordId>::empty() };
        assert(range_ids(s, start, end) == rd + tail);
        if range_ids(s, start, end).contains(id) {
            let k = choose|k: int| 0 <= k < (rd + tail).len() && (rd + tail)[k] == id;
            if k < rd.len() {
                assert(rd[k] == id);
                let i = choose|i: int|
                    0 <= i < d.len() && !chars_lt(d[i].0, start) && !chars_lt(end, d[i].0) && (#[trigger] d[i]).1.contains(id);
                assert(s[i] == d[i]);
            } else {
                assert(tail[k - rd.len()] == id);
                assert(s[s.len() - 1].1.contains(id));
            }
        }
        if exists|i: int|
            0 <= i < s.len() && !chars_lt(s[i].0, start) && !chars_lt(end, s[i].0) && (#[trigger] s[i]).1.contains(id) {
            let i = choose|i: int|
                0 <= i < s.len() && !chars_lt(s[i].0, start) && !chars_lt(end, s[i].0) && (#[trigger] s[i]).1.contains(id);
            if i < s.len() - 1 {
                assert(d[i] == s[i]);
                assert(rd.contains(id));
                let k = choose|k: int| 0 <= k < rd.len() && rd[k] == id;
                assert((rd + tail)[k] == id);
            } else {
                let k = choose|k: int| 0 <= k < s.last().1.len() && s.last().1[k] == id;
                assert((rd + tail)[rd.len() + k] == id);
            }
        }
    }
}

/// A record under a key is returned by every range query whose range holds
/// the key; `insert` keeps a record under its key through later inserts.
pub proof fn lemma_range_query_finds_record(
    s: Seq<(Seq<char>, Seq<RecordId>)>,
    key: Seq<char>,
    id: RecordId,
    start: Seq<char>,
    end: Seq<char>,
)
    requires
        ids_under(s, key).contains(id),
        !chars_lt(key, start),
        !chars_lt(end, key),
    ensures
        range_ids(s, start, end).contains(id),
{
    if !(exists|i: int| 0 <= i < s.len() && s[i].0 == key) {
        assert(ids_under(s, key) == Seq::<RecordId>::empty());
    }
    lemma_range_ids_members(s, start, end, id);
}

/// The record ids of all slots, slot after slot.
pub open spec fn all_ids(s: Seq<(Seq<char>, Seq<RecordId>)>) -> Seq<RecordId>
    decreases s.len(),
{
    if s.len() == 0 {
        Seq::empty()
    } else {
        all_ids(s.drop_last()) + s.last().1
    }
}

/// The record ids under a key among slots, none when the key is absent.
pub open spec fn ids_under(s: Seq<(Seq<char>, Seq<RecordId>)>, key: Seq<char>) -> Seq<RecordId> {
    if exists|i: int| 0 <= i < s.len() && s[i].0 == key {
        s[choose|i: int| 0 <= i < s.len() && s[i].0 == key].1
    } else {
        Seq::empty()
    }
}

/// An ordered index: for each column value (in increasing order), the
/// records that have it, in the order added.
#[derive(Debug)]
pub struct BTreeIndex {
    tree: Vec<(String, Vec<RecordId>)>,
    column_name: String,
}

impl BTreeIndex {
    /// The slots are ordered by key (the type's invariant).
    #[verifier::type_invariant]
    closed spec fn ordered(self) -> bool {
        keys_increasing(slot_views(self.tree@))
    }

    /// The slots: each key with its record ids, by increasing key.
    pub closed spec fn slots(&self) -> Seq<(Seq<char>, Seq<RecordId>)> {
        slot_views(self.tree@)
    }

    /// The indexed column.
    pub closed spec fn column(&self) -> Seq<char> {
        self.column_name@
    }

    /// Establishes that the slots' keys strictly increase.
    pub fn slots_ordered(&self)
        ensures
            keys_increasing(self.slots()),
    {
        proof {
            use_type_invariant(self);
        }
    }

    /// An empty index on a column.
    pub fn new(column_name: String) -> (x: Self)
        ensures
            x.slots() == Seq::<(Seq<char>, Seq<RecordId>)>::empty(),
            x.column() == column_name@,
    {
        let x = BTreeIndex { tree: Vec::new(), column_name };
        assert(x.slots() =~= Seq::<(Seq<char>, Seq<RecordId>)>::empty());
        x
    }

    /// The first slot whose key is not below `key`.
    fn lower_bound(&self, key: &str) -> (p: usize)
        ensures
            p <= self.slots().len(),
            forall|i: int| 0 <= i < p ==> chars_lt(#[trigger] self.slots()[i].0, key@),
            p < self.slots().len() ==> !chars_lt(self.slots()[p as int].0, key@),
    {
        let mut p: usize = 0;
        while p < self.tree.len() && str_lt(self.tree[p].0.as_str(), key)
            invariant
                p <= self.tree@.len(),
                forall|i: int| 0 <= i < p ==> chars_lt(#[trigger] self.slots()[i].0, key@),
            decreases self.tree@.len() - p,
        {
            p += 1;
        }
        p
    }

    /// Adds a record under a key: appended to the key's records, or in a new
    /// slot at the key's place in the order.
    pub fn insert(&mut self, key: String, record_id: RecordId)
        ensures
            final(self).column() == old(self).column(),
            ids_under(final(self).slots(), key@) == ids_under(old(self).slots(), key@).push(record_id),
            forall|k: Seq<char>| k != key@ ==> #[trigger] ids_under(final(self).slots(), k) == ids_under(old(self).slots(), k),
            final(self).slots().len() == old(self).slots().len() + if (exists|i: int|
                0 <= i < old(self).slots().len() && old(self).slots()[i].0 == key@) {
                0int
            } else {
                1int
            },
    {
        proof {
            use_type_invariant(&*self);
        }
        let ghost s0 = self.slots();
        let p = self.lower_bound(key.as_str());
        let mut tree: Vec<(String, Vec<RecordId>)> = Vec::new();
        std::mem::swap(&mut tree, &mut self.tree);
        proof {
            assert(slot_views(tree@) == s0);
        }
        if p < tree.len() && str_eq(tree[p].0.as_str(), key.as_str()) {
            let (k, mut ids) = tree.remove(p);
            ids.push(record_id);
            tree.insert(p, (k, ids));
            proof {
                let s1 = slot_views(tree@);
                assert(s1 =~= s0.update(p as int, (key@, s0[p as int].1.push(record_id))));
                assert(keys_increasing(s1)) by {
                    assert forall|i: int, j: int| 0 <= i < j < s1.len() implies chars_lt(#[trigger] s1[i].0, #[trigger] s1[j].0) by {
                        assert(s0[i].0 == s1[i].0 && s0[j].0 == s1[j].0);
                    }
                }
                lemma_ids_under_unique(s0, p as int);
                lemma_ids_under_unique(s1, p as int);
                assert forall|k: Seq<char>| k != key@ implies #[trigger] ids_under(s1, k) == ids_under(s0, k) by {
                    lemma_ids_under_same_keys(s0, s1, k);
                }
            }
        } else {
            let mut ids: Vec<RecordId> = Vec::new();
            ids.push(record_id);
            let ghost kv = key@;
            tree.insert(p, (key, ids));
            proof {
                let s1 = slot_views(tree@);
                assert(s1 =~= s0.insert(p as int, (kv, seq![record_id])));
                assert forall|i: int| 0 <= i < s0.len() implies #[trigger] s0[i].0 != kv by {
                    if i < p {
                        lemma_chars_lt_irreflexive(kv);
                    } else {
                        if p < s0.len() {
                            if i > p {
                                lemma_chars_lt_total(s0[p as int].0, kv);
                                lemma_chars_lt_transitive(kv, s0[p as int].0, s0[i].0);
                                lemma_chars_lt_irreflexive(kv);
                            }
                        }
                    }
                }
                assert forall|m: int| p <= m < s0.len() implies chars_lt(kv, #[trigger] s0[m].0) by {
                    lemma_chars_lt_total(s0[p as int].0, kv);
                    if m > p {
                        lemma_chars_lt_transitive(kv, s0[p as int].0, s0[m].0);
                    }
                }
                assert(keys_increasing(s1)) by {
                    assert forall|i: int, j: int| 0 <= i < j < s1.len() implies chars_lt(#[trigger] s1[i].0, #[trigger] s1[j].0) by {
                        if p < s0.len() {
                            lemma_chars_lt_total(s0[p as int].0, kv);
                        }
                        if j < p {
                            assert(s1[i] == s0[i] && s1[j] == s0[j]);
                        } else if j == p {
                            assert(s1[i] == s0[i]);
                        } else if i > p {
                            assert(s1[i] == s0[i - 1] && s1[j] == s0[j - 1]);
                        } else if i == p {
                            assert(s1[j] == s0[j - 1]);
                            if j - 1 > p {
                                lemma_chars_lt_transitive(kv, s0[p as int].0, s0[j - 1].0);
                            }
                        } else {
                            assert(s1[i] == s0[i] && s1[j] == s0[j - 1]);
                            if j - 1 >= p {
                                lemma_chars_lt_transitive(s0[i].0, kv, s0[j - 1].0);
                            }
                        }
                    }
                }
                lemma_ids_under_unique(s1, p as int);
                assert(ids_under(s0, kv) == Seq::<RecordId>::empty());
                assert(ids_under(s1, kv) =~= seq![record_id]);
                assert forall|k: Seq<char>| k != kv implies #[trigger] ids_under(s1, k) == ids_under(s0, k) by {
                    lemma_ids_under_insert(s0, s1, p as int, k);
                }
            }
        }
        self.tree = tree;
    }

    /// The records under a key (none when it is absent).
    pub fn lookup(&self, key: &str) -> (r: Vec<RecordId>)
        ensures
            r@ == ids_under(self.slots(), key@),
    {
        proof {
            use_type_invariant(self);
        }
        let p = self.lower_bound(key);
        if p < self.tree.len() && str_eq(self.tree[p].0.as_str(), key) {
            proof {
                lemma_ids_under_unique(self.slots(), p as int);
            }
            copy_ids(self.tree[p].1.as_slice())
        } else {
            proof {
                if exists|i: int| 0 <= i < self.slots().len() && self.slots()[i].0 == key@ {
                    let i = choose|i: int| 0 <= i < self.slots().len() && self.slots()[i].0 == key@;
                    if i < p {
                        lemma_chars_lt_irreflexive(key@);
                    } else if i > p {
                        lemma_chars_lt_total(self.slots()[p as int].0, key@);
                        lemma_chars_lt_transitive(key@, self.slots()[p as int].0, self.slots()[i].0);
                        lemma_chars_lt_irreflexive(key@);
                    }
                }
            }
            Vec::new()
        }
    }

    /// The records of the keys from `start` to `end` (both included), by
    /// increasing key. A start above the end is refused (the caller must
    /// not ask for one).
    pub fn range_query(&self, start: &str, end: &str) -> (r: Vec<RecordId>)
        requires
            !chars_lt(end@, start@),
        ensures
            r@ == range_ids(self.slots(), start@, end@),
    {
        let mut r: Vec<RecordId> = Vec::new();
        let mut i: usize = 0;
        while i < self.tree.len()
            invariant
                i <= self.slots().len(),
                r@ == range_ids(self.slots().subrange(0, i as int), start@, end@),
            decreases self.slots().len() - i,
        {
            proof {
                assert(self.slots().subrange(0, i + 1).drop_last() =~= self.slots().subrange(0, i as int));
            }
            let k = self.tree[i].0.as_str();
            if !str_lt(k, start) && !str_lt(end, k) {
                append_ids(&mut r, self.tree[i].1.as_slice());
            } else {
                assert(r@ =~= r@ + Seq::<RecordId>::empty());
            }
            i += 1;
        }
        proof {
            assert(self.slots().subrange(0, i as int) =~= self.slots());
        }
        r
    }

    /// The records of every key, by increasing key.
    pub fn all_records(&self) -> (r: Vec<RecordId>)
        ensures
            r@ == all_ids(self.slots()),
    {
        let mut r: Vec<RecordId> = Vec::new();
        let mut i: usize = 0;
        while i < self.tree.len()
            invariant
                i <= self.slots().len(),
                r@ == all_ids(self.slots().subrange(0, i as int)),
            decreases self.slots().len() - i,
        {
            proof {
                assert(self.slots().subrange(0, i + 1).drop_last() =~= self.slots().subrange(0, i as int));
            }
            append_ids(&mut r, self.tree[i].1.as_slice());
            i += 1;
        }
        proof {
            assert(self.slots().subrange(0, i as int) =~= self.slots());
        }
        r
    }
}


/// The record ids of a map of id vectors.
pub open spec fn id_lists(m: Map<Seq<char>, Vec<RecordId>>) -> Map<Seq<char>, Seq<RecordId>> {
    m.map_values(|v: Vec<RecordId>| v@)
}

/// The ids without one id.
pub open spec fn ids_without(ids: Seq<RecordId>, id: RecordId) -> Seq<RecordId> {
    ids.filter(|x: RecordId| x != id)
}

#[verifier::external_type_specification]
#[verifier::external_body]
#[verifier::reject_recursive_types(K)]
#[verifier::reject_recursive_types(V)]
#[verifier::reject_recursive_types(S)]
pub struct ExDashMap<K, V, S>(DashMap<K, V, S>);

/// The record ids that a concurrent map of id lists holds under each key.
pub uninterp spec fn dash_lists(m: DashMap<String, Vec<RecordId>>) -> Map<Seq<char>, Seq<RecordId>>;

/// `DashMap::new`: an empty map.
#[verifier::external_body]
fn dash_new() -> (r: DashMap<String, Vec<RecordId>>)
    ensures
        dash_lists(r).dom().is_empty(),
{
    DashMap::new()
}

/// `DashMap::get`: the list under a key (a copy of it), none when the key is
/// absent.
#[verifier::external_body]
fn dash_get(m: &DashMap<String, Vec<RecordId>>, key: &str) -> (r: Option<Vec<RecordId>>)
    ensures
        r is Some <==> dash_lists(*m).contains_key(key@),
        r matches Some(v) ==> v@ == dash_lists(*m)[key@],
{
    m.get(key).map(|e| e.value().clone())
}

/// `DashMap::insert`: the key now holds the list.
#[verifier::external_body]
fn dash_insert(m: &mut DashMap<String, Vec<RecordId>>, key: String, ids: Vec<RecordId>)
    ensures
        dash_lists(*final(m)) == dash_lists(*old(m)).insert(key@, ids@),
{
    m.insert(key, ids);
}

/// `DashMap::remove`: the key is gone; its list, if it had one, is
/// returned.
#[verifier::external_body]
fn dash_remove(m: &mut DashMap<String, Vec<RecordId>>, key: &str) -> (r: Option<Vec<RecordId>>)
    ensures
        dash_lists(*final(m)) == dash_lists(*old(m)).remove(key@),
        r is Some <==> dash_lists(*old(m)).contains_key(key@),
        r matches Some(v) ==> v@ == dash_lists(*old(m))[key@],
{
    m.remove(key).map(|e| e.1)
}

/// A hash index: for each column value, the records that have it, in the
/// order added.
#[derive(Debug)]
pub struct HashIndex {
    index: DashMap<String, Vec<RecordId>>,
    column_name: String,
}

impl HashIndex {
    /// The record ids under each key.
    pub closed spec fn lists(&self) -> Map<Seq<char>, Seq<RecordId>> {
        dash_lists(self.index)
    }

    /// The indexed column.
    pub closed spec fn column(&self) -> Seq<char> {
        self.column_name@
    }

    /// An empty index on a column.
    pub fn new(column_name: String) -> (x: Self)
        ensures
            x.lists() == Map::<Seq<char>, Seq<RecordId>>::empty(),
            x.column() == column_name@,
    {
        HashIndex { index: dash_new(), column_name }
    }

    /// The records under a key (none when it is absent).
    pub fn lookup(&self, key: &str) -> (r: Vec<RecordId>)
        ensures
            self.lists().contains_key(key@) ==> r@ == self.lists()[key@],
            !self.lists().contains_key(key@) ==> r@.len() == 0,
    {
        match dash_get(&self.index, key) {
            Some(ids) => ids,
            None => Vec::new(),
        }
    }

    /// Adds a record under a key.
    pub fn insert(&mut self, key: String, record_id: RecordId)
        ensures
            final(self).column() == old(self).column(),
            final(self).lists() == old(self).lists().insert(
                key@,
                (if old(self).lists().contains_key(key@) {
                    old(self).lists()[key@]
                } else {
                    Seq::<RecordId>::empty()
                }).push(record_id),
            ),
    {
        let ghost k = key@;
        let mut ids = match dash_remove(&mut self.index, key.as_str()) {
            Some(v) => v,
            None => Vec::new(),
        };
        ids.push(record_id);
        dash_insert(&mut self.index, key, ids);
        proof {
            assert(self.lists() =~= old(self).lists().insert(
                k,
                (if old(self).lists().contains_key(k) {
                    old(self).lists()[k]
                } else {
                    Seq::<RecordId>::empty()
                }).push(record_id),
            ));
        }
    }

    /// Removes a record from a key's records; true when the key's records are
    /// then empty (the key stays), false when the key is absent.
    pub fn remove(&mut self, key: &str, record_id: RecordId) -> (r: bool)
        ensures
            final(self).column() == old(self).column(),
            old(self).lists().contains_key(key@) ==> final(self).lists() == old(self).lists().insert(
                key@,
                ids_without(old(self).lists()[key@], record_id),
            ) && r == (ids_without(old(self).lists()[key@], record_id).len() == 0),
            !old(self).lists().contains_key(key@) ==> final(self).lists() == old(self).lists() && !r,
    {
        match dash_remove(&mut self.index, key) {
            Some(ids) => {
                let mut kept: Vec<RecordId> = Vec::new();
                let mut i: usize = 0;
                while i < ids.len()
                    invariant
                        i <= ids@.len(),
                        kept@ == ids_without(ids@.subrange(0, i as int), record_id),
                    decreases ids@.len() - i,
                {
                    proof {
                        assert(ids@.subrange(0, i + 1).drop_last() =~= ids@.subrange(0, i as int));
                        reveal(Seq::filter);
                    }
                    if ids[i] != record_id {
                        kept.push(ids[i]);
                    }
                    i += 1;
                }
                proof {
                    assert(ids@.subrange(0, i as int) =~= ids@);
                }
                let empty = kept.len() == 0;
                dash_insert(&mut self.index, owned(key), kept);
                proof {
                    assert(self.lists() =~= old(self).lists().insert(key@, ids_without(old(self).lists()[key@], record_id)));
                }
                empty
            },
            None => {
                proof {
                    assert(self.lists() =~= old(self).lists().remove(key@));
                    assert(self.lists() =~= old(self).lists());
                }
                false
            },
        }
    }
}

/// What hashing a text (`Hash` for `str`) writes into a `DefaultHasher`: the
/// same writes for the same text.
pub uninterp spec fn text_hash_writes(item: Seq<char>) -> Seq<Seq<u8>>;

/// What hashing a `u32` (`Hash` for `u32`) writes into a `DefaultHasher`:
/// the same writes for the same number.
pub uninterp spec fn u32_hash_writes(x: u32) -> Seq<Seq<u8>>;

/// The hash of a text and then a seed by a new `DefaultHasher`.
pub open spec fn default_hash(item: Seq<char>, seed: u32) -> u64 {
    DefaultHasher::spec_finish(text_hash_writes(item) + u32_hash_writes(seed))
}

/// Feeds a text to a hasher with `Hash::hash` for `str`; what it writes
/// depends on the text alone (`text_hash_writes`).
#[verifier::external_body]
fn hash_text(item: &str, hasher: &mut DefaultHasher)
    ensures
        final(hasher)@ == old(hasher)@ + text_hash_writes(item@),
{
    Hash::hash(item, hasher)
}

/// Feeds a `u32` to a hasher with `Hash::hash` for `u32`; what it writes
/// depends on the number alone (`u32_hash_writes`).
#[verifier::external_body]
fn hash_u32(x: u32, hasher: &mut DefaultHasher)
    ensures
        final(hasher)@ == old(hasher)@ + u32_hash_writes(x),
{
    Hash::hash(&x, hasher)
}

/// Hashes a text and then a seed with a new `DefaultHasher` and returns
/// `finish`.
fn hash_with_seed(item: &str, seed: u32) -> (h: u64)
    ensures
        h == default_hash(item@, seed),
{
    let mut hasher = DefaultHasher::new();
    hash_text(item, &mut hasher);
    hash_u32(seed, &mut hasher);
    proof {
        assert(hasher@ =~= text_hash_writes(item@) + u32_hash_writes(seed));
    }
    hasher.finish()
}

/// The bit that hash function `i` of a filter of `size` bits sets for a text.
pub open spec fn bloom_bit(item: Seq<char>, i: int, size: int) -> int {
    ((default_hash(item, i as u32) as usize) as int) % size
}

/// Whether every bit of a text is set.
pub open spec fn all_bits_set(bits: Seq<bool>, item: Seq<char>, k: int) -> bool {
    forall|i: int| 0 <= i < k ==> bits[#[trigger] bloom_bit(item, i, bits.len() as int)]
}


/// A copy of bits.
fn copy_bits(b: &[bool]) -> (r: Vec<bool>)
    ensures
        r@ == b@,
{
    let mut r: Vec<bool> = Vec::new();
    let mut i: usize = 0;
    while i < b.len()
        invariant
            i <= b@.len(),
            r@ == b@.subrange(0, i as int),
        decreases b@.len() - i,
    {
        r.push(b[i]);
        proof {
            assert(r@ =~= b@.subrange(0, i + 1));
        }
        i += 1;
    }
    r
}

/// A Bloom filter: a set of bits and a number of hash functions; a text is
/// marked by setting the bit of each hash function.
#[derive(Debug)]
pub struct BloomFilter {
    bits: Vec<bool>,
    hash_functions: usize,
    size: usize,
}

impl BloomFilter {
    /// The filter has one bit per position, and at least one (the type's
    /// invariant).
    #[verifier::type_invariant]
    closed spec fn sized(self) -> bool {
        self.bits@.len() == self.size && self.size > 0
    }

    /// The bits.
    pub closed spec fn bit_seq(&self) -> Seq<bool> {
        self.bits@
    }

    /// The number of hash functions.
    pub closed spec fn hashes(&self) -> int {
        self.hash_functions as int
    }

    /// A filter of `size` clear bits and `hash_functions` hash functions. A
    /// filter without bits is refused (the caller must not ask for one).
    pub fn with_parameters(size: usize, hash_functions: usize) -> (f: Self)
        requires
            size > 0,
        ensures
            f.bit_seq().len() == size,
            forall|i: int| 0 <= i < size ==> !(#[trigger] f.bit_seq()[i]),
            f.hashes() == hash_functions,
    {
        let mut bits: Vec<bool> = Vec::new();
        let mut i: usize = 0;
        while i < size
            invariant
                i <= size,
                bits@.len() == i,
                forall|j: int| 0 <= j < i ==> !(#[trigger] bits@[j]),
            decreases size - i,
        {
            bits.push(false);
            i += 1;
        }
        BloomFilter { bits, hash_functions, size }
    }

    /// The number of bits.
    pub fn bit_count(&self) -> (n: usize)
        ensures
            n == self.bit_seq().len(),
    {
        proof {
            use_type_invariant(self);
        }
        self.size
    }

    /// Marks a text: sets its bit for each hash function; no bit is cleared.
    pub fn insert(&mut self, item: &str)
        ensures
            final(self).hashes() == old(self).hashes(),
            final(self).bit_seq().len() == old(self).bit_seq().len(),
            all_bits_set(final(self).bit_seq(), item@, old(self).hashes()),
            forall|j: int| 0 <= j < old(self).bit_seq().len() && old(self).bit_seq()[j] ==> #[trigger] final(self).bit_seq()[j],
            forall|j: int|
                0 <= j < old(self).bit_seq().len() && !(exists|i: int|
                    0 <= i < old(self).hashes() && bloom_bit(item@, i, old(self).bit_seq().len() as int) == j)
                    ==> #[trigger] final(self).bit_seq()[j] == old(self).bit_seq()[j],
    {
        proof {
            use_type_invariant(&*self);
        }
        let size = self.size;
        let mut bits = copy_bits(self.bits.as_slice());
        let ghost b0 = bits@;
        let mut i: usize = 0;
        while i < self.hash_functions
            invariant
                size == b0.len() > 0,
                bits@.len() == b0.len(),
                i <= self.hash_functions,
                self.hash_functions == old(self).hashes(),
                forall|a: int| 0 <= a < i ==> bits@[#[trigger] bloom_bit(item@, a, size as int)],
                forall|j: int| 0 <= j < b0.len() && b0[j] ==> #[trigger] bits@[j],
                forall|j: int|
                    0 <= j < b0.len() && !(exists|a: int| 0 <= a < i && bloom_bit(item@, a, size as int) == j)
                        ==> #[trigger] bits@[j] == b0[j],
            decreases self.hash_functions - i,
        {
            let h = hash_with_seed(item, i as u32);
            let pos = (h as usize) % size;
            proof {
                assert(pos == bloom_bit(item@, i as int, size as int));
            }
            bits.set(pos, true);
            proof {
                assert forall|j: int|
                    0 <= j < b0.len() && !(exists|a: int| 0 <= a < i + 1 && bloom_bit(item@, a, size as int) == j)
                        implies #[trigger] bits@[j] == b0[j] by {
                    assert(j != pos);
                }
            }
            i += 1;
        }
        self.bits = bits;
    }

    /// Whether a text may have been marked: all its bits are set. A marked
    /// text is always found; an unmarked one may be found too.
    pub fn might_contain(&self, item: &str) -> (r: bool)
        ensures
            r == all_bits_set(self.bit_seq(), item@, self.hashes()),
    {
        proof {
            use_type_invariant(self);
        }
        let mut i: usize = 0;
        while i < self.hash_functions
            invariant
                self.size == self.bit_seq().len() > 0,
                i <= self.hash_functions,
                forall|a: int| 0 <= a < i ==> self.bit_seq()[#[trigger] bloom_bit(item@, a, self.size as int)],
            decreases self.hash_functions - i,
        {
            let h = hash_with_seed(item, i as u32);
            let pos = (h as usize) % self.size;
            proof {
                assert(pos == bloom_bit(item@, i as int, self.size as int));
            }
            if !self.bits[pos] {
                return false;
            }
            i += 1;
        }
        true
    }
}

/// A Bloom filter has no false negatives: once a text is marked, it is
/// found, and it stays found through the marking of other texts, which only
/// set bits.
pub proof fn lemma_bloom_no_false_negatives(before: Seq<bool>, after: Seq<bool>, item: Seq<char>, k: int)
    requires
        before.len() == after.len(),
        all_bits_set(before, item, k),
        forall|j: int| 0 <= j < before.len() && before[j] ==> #[trigger] after[j],
        forall|i: int| 0 <= i < k ==> 0 <= #[trigger] bloom_bit(item, i, before.len() as int) < before.len(),
    ensures
        all_bits_set(after, item, k),
{
    assert forall|i: int| 0 <= i < k implies after[#[trigger] bloom_bit(item, i, after.len() as int)] by {
        assert(before[bloom_bit(item, i, before.len() as int)]);
    }
}


/// The value at a table and column of nested maps, if any.
pub open spec fn nested_at<T>(m: Map<Seq<char>, StrMap<T>>, table: Seq<char>, column: Seq<char>) -> Option<T> {
    if m.contains_key(table) && m[table]@.contains_key(column) {
        Some(m[table]@[column])
    } else {
        None
    }
}

/// The columns of a table in nested maps, in the order first added.
pub open spec fn nested_columns<T>(m: Map<Seq<char>, StrMap<T>>, table: Seq<char>) -> Seq<Seq<char>> {
    if m.contains_key(table) {
        m[table].key_order()
    } else {
        Seq::empty()
    }
}

/// Stores a value at a table and column of nested maps.
fn put_nested<T>(m: &mut StrMap<StrMap<T>>, table: String, column: String, value: T)
    ensures
        nested_at(final(m)@, table@, column@) == Some(value),
        forall|t: Seq<char>, c: Seq<char>|
            (t != table@ || c != column@) ==> #[trigger] nested_at(final(m)@, t, c) == nested_at(old(m)@, t, c),
        nested_columns(final(m)@, table@) == (if nested_columns(old(m)@, table@).contains(column@) {
            nested_columns(old(m)@, table@)
        } else {
            nested_columns(old(m)@, table@).push(column@)
        }),
        forall|t: Seq<char>| t != table@ ==> #[trigger] nested_columns(final(m)@, t) == nested_columns(old(m)@, t),
{
    let ghost t = table@;
    let mut inner = match m.remove(table.as_str()) {
        Some(i) => i,
        None => StrMap::new(),
    };
    proof {
        use_type_invariant(&inner);
        inner.lemma_view_consistent();
        assert(inner.key_order().contains(column@) <==> inner@.contains_key(column@));
        assert(nested_columns(old(m)@, t) == inner.key_order());
    }
    let _ = inner.insert(column, value);
    let _ = m.insert(table, inner);
    proof {
        assert forall|t2: Seq<char>, c: Seq<char>|
            (t2 != t || c != column@) implies #[trigger] nested_at(m@, t2, c) == nested_at(old(m)@, t2, c) by {
        }
    }
}

/// The index kind names of `list_indices`.
pub open spec fn tagged(columns: Seq<Seq<char>>, kind: Seq<char>) -> Seq<(Seq<char>, Seq<char>)> {
    columns.map_values(|c: Seq<char>| (c, kind))
}

/// The texts of pairs of strings.
pub open spec fn pair_views(v: Seq<(String, String)>) -> Seq<(Seq<char>, Seq<char>)> {
    v.map_values(|p: (String, String)| (p.0@, p.1@))
}

/// Appends `(column, kind)` for each column of a table.
fn push_tagged<T>(out: &mut Vec<(String, String)>, m: &StrMap<StrMap<T>>, table: &str, kind: &str)
    ensures
        pair_views(final(out)@) == pair_views(old(out)@) + tagged(nested_columns(m@, table@), kind@),
{
    match m.get(table) {
        Some(inner) => {
            let cols = inner.keys();
            let mut i: usize = 0;
            while i < cols.len()
                invariant
                    i <= cols@.len(),
                    cols@.map_values(|s: String| s@) == inner.key_order(),
                    pair_views(out@) == pair_views(old(out)@) + tagged(inner.key_order().subrange(0, i as int), kind@),
                decreases cols@.len() - i,
            {
                let ghost before = out@;
                out.push((cols[i].clone(), owned(kind)));
                proof {
                    assert(cols@.map_values(|s: String| s@)[i as int] == cols@[i as int]@);
                    assert(inner.key_order().subrange(0, i + 1) =~= inner.key_order().subrange(0, i as int).push(cols@[i as int]@));
                    assert(pair_views(out@) =~= pair_views(before).push((cols@[i as int]@, kind@)));
                    assert(pair_views(out@) =~= pair_views(old(out)@) + tagged(inner.key_order().subrange(0, i + 1), kind@));
                }
                i += 1;
            }
            proof {
                assert(inner.key_order().subrange(0, i as int) =~= inner.key_order());
            }
        },
        None => {
            assert(pair_views(out@) =~= pair_views(old(out)@) + tagged(nested_columns(m@, table@), kind@));
        },
    }
}

/// The indexes of each table: ordered and hash indexes and Bloom filters,
/// by table and column.
#[derive(Debug)]
pub struct IndexingManager {
    btree_indices: StrMap<StrMap<BTreeIndex>>,
    hash_indices: StrMap<StrMap<HashIndex>>,
    bloom_filters: StrMap<StrMap<BloomFilter>>,
}

impl IndexingManager {
    /// The ordered index of a table's column, if any.
    pub closed spec fn btree_at(&self, table: Seq<char>, column: Seq<char>) -> Option<BTreeIndex> {
        nested_at(self.btree_indices@, table, column)
    }

    /// The hash index of a table's column, if any.
    pub closed spec fn hash_at(&self, table: Seq<char>, column: Seq<char>) -> Option<HashIndex> {
        nested_at(self.hash_indices@, table, column)
    }

    /// The Bloom filter of a table's column, if any.
    pub closed spec fn bloom_at(&self, table: Seq<char>, column: Seq<char>) -> Option<BloomFilter> {
        nested_at(self.bloom_filters@, table, column)
    }

    /// The columns of a table with an ordered index, in the order created.
    pub closed spec fn btree_columns(&self, table: Seq<char>) -> Seq<Seq<char>> {
        nested_columns(self.btree_indices@, table)
    }

    /// The columns of a table with a hash index, in the order created.
    pub closed spec fn hash_columns(&self, table: Seq<char>) -> Seq<Seq<char>> {
        nested_columns(self.hash_indices@, table)
    }

    /// A manager without indexes.
    pub fn new() -> (m: Self)
        ensures
            forall|t: Seq<char>, c: Seq<char>| #[trigger] m.btree_at(t, c) is None,
            forall|t: Seq<char>, c: Seq<char>| #[trigger] m.hash_at(t, c) is None,
            forall|t: Seq<char>, c: Seq<char>| #[trigger] m.bloom_at(t, c) is None,
            forall|t: Seq<char>| #[trigger] m.btree_columns(t) == Seq::<Seq<char>>::empty(),
            forall|t: Seq<char>| #[trigger] m.hash_columns(t) == Seq::<Seq<char>>::empty(),
    {
        IndexingManager { btree_indices: StrMap::new(), hash_indices: StrMap::new(), bloom_filters: StrMap::new() }
    }

    /// Creates (or replaces with) an empty ordered index on a table's column.
    pub fn create_btree_index(&mut self, table_name: String, column_name: String) -> (r: Result<(), String>)
        ensures
            r is Ok,
            final(self).btree_at(table_name@, column_name@) matches Some(x) && x.slots().len() == 0 && x.column()
                == column_name@,
            forall|t: Seq<char>, c: Seq<char>|
                (t != table_name@ || c != column_name@) ==> #[trigger] final(self).btree_at(t, c) == old(self).btree_at(t, c),
            final(self).btree_columns(table_name@) == (if old(self).btree_columns(table_name@).contains(column_name@) {
                old(self).btree_columns(table_name@)
            } else {
                old(self).btree_columns(table_name@).push(column_name@)
            }),
            forall|t: Seq<char>| t != table_name@ ==> #[trigger] final(self).btree_columns(t) == old(self).btree_columns(t),
            forall|t: Seq<char>, c: Seq<char>| #[trigger] final(self).hash_at(t, c) == old(self).hash_at(t, c),
            forall|t: Seq<char>| #[trigger] final(self).hash_columns(t) == old(self).hash_columns(t),
            forall|t: Seq<char>, c: Seq<char>| #[trigger] final(self).bloom_at(t, c) == old(self).bloom_at(t, c),
    {
        let idx = BTreeIndex::new(owned(column_name.as_str()));
        put_nested(&mut self.btree_indices, table_name, column_name, idx);
        Ok(())
    }

    /// Creates (or replaces with) an empty hash index on a table's column.
    pub fn create_hash_index(&mut self, table_name: String, column_name: String) -> (r: Result<(), String>)
        ensures
            r is Ok,
            final(self).hash_at(table_name@, column_name@) matches Some(x) && x.lists().len() == 0 && x.column()
                == column_name@,
            forall|t: Seq<char>, c: Seq<char>|
                (t != table_name@ || c != column_name@) ==> #[trigger] final(self).hash_at(t, c) == old(self).hash_at(t, c),
            final(self).hash_columns(table_name@) == (if old(self).hash_columns(table_name@).contains(column_name@) {
                old(self).hash_columns(table_name@)
            } else {
                old(self).hash_columns(table_name@).push(column_name@)
            }),
            forall|t: Seq<char>| t != table_name@ ==> #[trigger] final(self).hash_columns(t) == old(self).hash_columns(t),
            forall|t: Seq<char>, c: Seq<char>| #[trigger] final(self).btree_at(t, c) == old(self).btree_at(t, c),
            forall|t: Seq<char>| #[trigger] final(self).btree_columns(t) == old(self).btree_columns(t),
            forall|t: Seq<char>, c: Seq<char>| #[trigger] final(self).bloom_at(t, c) == old(self).bloom_at(t, c),
    {
        let idx = HashIndex::new(owned(column_name.as_str()));
        proof {
            assert(idx.lists().dom() =~= Set::<Seq<char>>::empty());
        }
        put_nested(&mut self.hash_indices, table_name, column_name, idx);
        Ok(())
    }

    /// Stores a Bloom filter for a table's column (its size and number of
    /// hash functions chosen by the caller).
    pub fn create_bloom_filter(&mut self, table_name: String, column_name: String, filter: BloomFilter) -> (r: Result<
        (),
        String,
    >)
        ensures
            r is Ok,
            final(self).bloom_at(table_name@, column_name@) == Some(filter),
            forall|t: Seq<char>, c: Seq<char>|
                (t != table_name@ || c != column_name@) ==> #[trigger] final(self).bloom_at(t, c) == old(self).bloom_at(t, c),
            forall|t: Seq<char>, c: Seq<char>| #[trigger] final(self).btree_at(t, c) == old(self).btree_at(t, c),
            forall|t: Seq<char>, c: Seq<char>| #[trigger] final(self).hash_at(t, c) == old(self).hash_at(t, c),
            forall|t: Seq<char>| #[trigger] final(self).btree_columns(t) == old(self).btree_columns(t),
            forall|t: Seq<char>| #[trigger] final(self).hash_columns(t) == old(self).hash_columns(t),
    {
        put_nested(&mut self.bloom_filters, table_name, column_name, filter);
        Ok(())
    }

    /// The ordered index of a table's column.
    pub fn get_btree_index(&self, table_name: &str, column_name: &str) -> (r: Option<&BTreeIndex>)
        ensures
            match r {
                Some(x) => self.btree_at(table_name@, column_name@) == Some(*x),
                None => self.btree_at(table_name@, column_name@) is None,
            },
    {
        match self.btree_indices.get(table_name) {
            Some(inner) => inner.get(column_name),
            None => None,
        }
    }

    /// The hash index of a table's column.
    pub fn get_hash_index(&self, table_name: &str, column_name: &str) -> (r: Option<&HashIndex>)
        ensures
            match r {
                Some(x) => self.hash_at(table_name@, column_name@) == Some(*x),
                None => self.hash_at(table_name@, column_name@) is None,
            },
    {
        match self.hash_indices.get(table_name) {
            Some(inner) => inner.get(column_name),
            None => None,
        }
    }

    /// The Bloom filter of a table's column.
    pub fn get_bloom_filter(&self, table_name: &str, column_name: &str) -> (r: Option<&BloomFilter>)
        ensures
            match r {
                Some(x) => self.bloom_at(table_name@, column_name@) == Some(*x),
                None => self.bloom_at(table_name@, column_name@) is None,
            },
    {
        match self.bloom_filters.get(table_name) {
            Some(inner) => inner.get(column_name),
            None => None,
        }
    }

    /// The indexed columns of a table: those with an ordered index (tagged
    /// `btree`), then those with a hash index (tagged `hash`).
    pub fn list_indices(&self, table_name: &str) -> (r: Vec<(String, String)>)
        ensures
            pair_views(r@) == tagged(self.btree_columns(table_name@), "btree"@) + tagged(
                self.hash_columns(table_name@),
                "hash"@,
            ),
    {
        let mut out: Vec<(String, String)> = Vec::new();
        push_tagged(&mut out, &self.btree_indices, table_name, "btree");
        push_tagged(&mut out, &self.hash_indices, table_name, "hash");
        proof {
            assert(pair_views(Seq::<(String, String)>::empty()) =~= Seq::<(Seq<char>, Seq<char>)>::empty());
        }
        out
    }
}

/// In slots with distinct keys, the ids under the key of slot `p` are that
/// slot's.
proof fn lemma_ids_under_unique(s: Seq<(Seq<char>, Seq<RecordId>)>, p: int)
    requires
        keys_increasing(s),
        0 <= p < s.len(),
    ensures
        ids_under(s, s[p].0) == s[p].1,
{
    let i = choose|i: int| 0 <= i < s.len() && s[i].0 == s[p].0;
    if i < p {
        lemma_chars_lt_irreflexive(s[p].0);
    } else if i > p {
        lemma_chars_lt_irreflexive(s[p].0);
    }
}

/// Slots with the same keys in the same places give the same ids under a
/// key whose slot is unchanged.
proof fn lemma_ids_under_same_keys(s0: Seq<(Seq<char>, Seq<RecordId>)>, s1: Seq<(Seq<char>, Seq<RecordId>)>, k: Seq<char>)
    requires
        s0.len() == s1.len(),
        keys_increasing(s0),
        forall|i: int| 0 <= i < s0.len() ==> (#[trigger] s0[i]).0 == s1[i].0,
        forall|i: int| 0 <= i < s0.len() && s0[i].0 == k ==> (#[trigger] s0[i]).1 == s1[i].1,
    ensures
        ids_under(s1, k) == ids_under(s0, k),
{
    if exists|i: int| 0 <= i < s0.len() && s0[i].0 == k {
        let i = choose|i: int| 0 <= i < s0.len() && s0[i].0 == k;
        lemma_ids_under_unique(s0, i);
        assert(keys_increasing(s1)) by {
            assert forall|a: int, b: int| 0 <= a < b < s1.len() implies chars_lt(#[trigger] s1[a].0, #[trigger] s1[b].0) by {
                assert(s0[a].0 == s1[a].0 && s0[b].0 == s1[b].0);
            }
        }
        lemma_ids_under_unique(s1, i);
    } else {
        assert(!exists|i: int| 0 <= i < s1.len() && s1[i].0 == k) by {
            if exists|i: int| 0 <= i < s1.len() && s1[i].0 == k {
                let i = choose|i: int| 0 <= i < s1.len() && s1[i].0 == k;
                assert(s0[i].0 == k);
            }
        }
    }
}

/// Inserting a slot of another key keeps the ids under a key.
proof fn lemma_ids_under_insert(
    s0: Seq<(Seq<char>, Seq<RecordId>)>,
    s1: Seq<(Seq<char>, Seq<RecordId>)>,
    p: int,
    k: Seq<char>,
)
    requires
        0 <= p <= s0.len(),
        s1.len() == s0.len() + 1,
        keys_increasing(s0),
        keys_increasing(s1),
        forall|i: int| 0 <= i < p ==> #[trigger] s1[i] == s0[i],
        forall|i: int| p < i < s1.len() ==> #[trigger] s1[i] == s0[i - 1],
        s1[p].0 != k,
    ensures
        ids_under(s1, k) == ids_under(s0, k),
{
    if exists|i: int| 0 <= i < s0.len() && s0[i].0 == k {
        let i = choose|i: int| 0 <= i < s0.len() && s0[i].0 == k;
        lemma_ids_under_unique(s0, i);
        let i1 = if i < p { i } else { i + 1 };
        assert(s1[i1] == s0[i]);
        lemma_ids_under_unique(s1, i1);
    } else {
        if exists|i: int| 0 <= i < s1.len() && s1[i].0 == k {
            let i = choose|i: int| 0 <= i < s1.len() && s1[i].0 == k;
            if i < p {
                assert(s0[i].0 == k);
            } else if i > p {
                assert(s0[i - 1].0 == k);
            }
        }
    }
}

} // verus!
