//! A cache of query results that keeps each for a time to live and drops
//! the oldest entry when it is full.

use vstd::prelude::*;
use crate::util::{now_millis, str_eq};

verus! {

/// Whether a result stored at `stored` (milliseconds) is still fresh at
/// `now`: its age in whole seconds (truncated toward zero, and read as an
/// unsigned number, so a time before the store is very old) is below the
/// time to live.
pub open spec fn is_fresh(stored: i64, now: i64, ttl_seconds: u64) -> bool {
    let d = now - stored;
    let s = if d >= 0 {
        d / 1000
    } else {
        -((-d) / 1000)
    };
    let age = if s >= 0 {
        s
    } else {
        s + 0x1_0000_0000_0000_0000
    };
    age < ttl_seconds
}

/// The position of the first entry for `key`, or -1.
pub open spec fn first_entry<R>(entries: Seq<(Seq<char>, R, i64)>, key: Seq<char>) -> int
    decreases entries.len(),
{
    if entries.len() == 0 {
        -1
    } else {
        let r = first_entry(entries.drop_last(), key);
        if r >= 0 {
            r
        } else if entries.last().0 == key {
            entries.len() - 1
        } else {
            -1
        }
    }
}

/// The entries that are not for `key`, in order.
pub open spec fn without_key<R>(entries: Seq<(Seq<char>, R, i64)>, key: Seq<char>) -> Seq<(Seq<char>, R, i64)>
    decreases entries.len(),
{
    if entries.len() == 0 {
        entries
    } else if entries.last().0 == key {
        without_key(entries.drop_last(), key)
    } else {
        without_key(entries.drop_last(), key).push(entries.last())
    }
}

/// What a lookup finds: the result of the first entry for the key where it
/// is fresh; nothing where there is no entry or the first one is stale.
pub open spec fn lookup<R>(entries: Seq<(Seq<char>, R, i64)>, key: Seq<char>, now: i64, ttl_seconds: u64) -> Option<R> {
    let i = first_entry(entries, key);
    if i >= 0 && is_fresh(entries[i].2, now, ttl_seconds) {
        Some(entries[i].1)
    } else {
        None
    }
}

/// The entries after a lookup: a stale first entry takes every entry of its
/// key with it.
pub open spec fn after_lookup<R>(entries: Seq<(Seq<char>, R, i64)>, key: Seq<char>, now: i64, ttl_seconds: u64) -> Seq<
    (Seq<char>, R, i64),
> {
    let i = first_entry(entries, key);
    if i >= 0 && !is_fresh(entries[i].2, now, ttl_seconds) {
        without_key(entries, key)
    } else {
        entries
    }
}

/// The entries after storing a result: the oldest are dropped until there is
/// room for one more, and the new entry goes last.
pub open spec fn after_put<R>(entries: Seq<(Seq<char>, R, i64)>, max_entries: usize, key: Seq<char>, result: R, now: i64) -> Seq<
    (Seq<char>, R, i64),
> {
    let kept = if entries.len() >= max_entries {
        entries.subrange(entries.len() - (max_entries - 1), entries.len() as int)
    } else {
        entries
    };
    kept.push((key, result, now))
}

/// Keys in a cache, by view.
pub open spec fn entry_views<R>(v: Seq<(String, R, i64)>) -> Seq<(Seq<char>, R, i64)> {
    v.map_values(|e: (String, R, i64)| (e.0@, e.1, e.2))
}

proof fn lemma_first_entry<R>(entries: Seq<(Seq<char>, R, i64)>, key: Seq<char>)
    ensures
        -1 <= first_entry(entries, key) < entries.len(),
        first_entry(entries, key) >= 0 ==> entries[first_entry(entries, key)].0 == key,
        first_entry(entries, key) >= 0 ==> forall|j: int| 0 <= j < first_entry(entries, key) ==> entries[j].0 != key,
        first_entry(entries, key) == -1 ==> forall|j: int| 0 <= j < entries.len() ==> entries[j].0 != key,
    decreases entries.len(),
{
    if entries.len() > 0 {
        let d = entries.drop_last();
        lemma_first_entry(d, key);
        assert forall|j: int| 0 <= j < d.len() implies entries[j] == d[j] by {}
    }
}

/// Query results with the time each was stored.
#[derive(Debug)]
pub struct QueryCache<R> {
    cache: Vec<(String, R, i64)>,
    max_entries: usize,
    ttl_seconds: u64,
}

impl<R> QueryCache<R> {
    /// The entries, oldest first: key, result and the time stored.
    pub closed spec fn entries(&self) -> Seq<(Seq<char>, R, i64)> {
        entry_views(self.cache@)
    }

    /// The number of entries the cache holds at most.
    pub closed spec fn capacity(&self) -> usize {
        self.max_entries
    }

    /// How long (in seconds) a result stays fresh.
    pub closed spec fn ttl(&self) -> u64 {
        self.ttl_seconds
    }

    /// An empty cache.
    pub fn new(max_entries: usize, ttl_seconds: u64) -> (c: Self)
        ensures
            c.entries() == Seq::<(Seq<char>, R, i64)>::empty(),
            c.capacity() == max_entries,
            c.ttl() == ttl_seconds,
    {
        let c = QueryCache { cache: Vec::new(), max_entries, ttl_seconds };
        assert(c.entries() =~= Seq::<(Seq<char>, R, i64)>::empty());
        c
    }

    /// The position of the first entry for `key`.
    fn find(&self, key: &str) -> (r: Option<usize>)
        ensures
            match r {
                Some(i) => i == first_entry(self.entries(), key@) && i < self.cache@.len(),
                None => first_entry(self.entries(), key@) == -1,
            },
    {
        let ghost e = self.entries();
        proof {
            lemma_first_entry(e, key@);
        }
        let mut i: usize = 0;
        while i < self.cache.len()
            invariant
                e == self.entries(),
                i <= self.cache@.len(),
                forall|j: int| 0 <= j < i ==> e[j].0 != key@,
            decreases self.cache@.len() - i,
        {
            proof {
                assert(e[i as int] == (self.cache@[i as int].0@, self.cache@[i as int].1, self.cache@[i as int].2));
            }
            if str_eq(self.cache[i].0.as_str(), key) {
                proof {
                    lemma_first_entry(e, key@);
                    let f = first_entry(e, key@);
                    assert(e[i as int].0 == key@);
                    if f == -1 {
                        assert(e[i as int].0 != key@);
                    }
                    if f >= 0 && f > i {
                        assert(e[i as int].0 != key@);
                    }
                }
                return Some(i);
            }
            i += 1;
        }
        None
    }

    /// Drops every entry for `key`.
    fn remove_key(&mut self, key: &str)
        ensures
            final(self).entries() == without_key(old(self).entries(), key@),
            final(self).capacity() == old(self).capacity(),
            final(self).ttl() == old(self).ttl(),
    {
        let mut rest: Vec<(String, R, i64)> = Vec::new();
        std::mem::swap(&mut rest, &mut self.cache);
        let ghost e = entry_views(rest@);
        let mut kept: Vec<(String, R, i64)> = Vec::new();
        proof {
            assert(e.subrange(0, 0) =~= Seq::<(Seq<char>, R, i64)>::empty());
            assert(entry_views(rest@) =~= e.subrange(0, e.len() as int));
        }
        while rest.len() > 0
            invariant
                rest@.len() <= e.len(),
                entry_views(rest@) == e.subrange(e.len() - rest@.len(), e.len() as int),
                entry_views(kept@) == without_key(e.subrange(0, e.len() - rest@.len()), key@),
            decreases rest@.len(),
        {
            let ghost n = e.len() - rest@.len();
            let ghost before_rest = rest@;
            let item = rest.remove(0);
            proof {
                assert(entry_views(before_rest)[0] == e[n]);
                assert(entry_views(before_rest)[0] == (item.0@, item.1, item.2));
                assert forall|j: int| 0 <= j < rest@.len() implies entry_views(rest@)[j] == e[n + 1 + j] by {
                    assert(rest@[j] == before_rest[j + 1]);
                    assert(entry_views(before_rest)[j + 1] == e[n + 1 + j]);
                }
                assert(entry_views(rest@) =~= e.subrange(n + 1, e.len() as int));
                assert(e.subrange(0, n + 1).drop_last() =~= e.subrange(0, n));
                assert(e.subrange(0, n + 1).last() == e[n]);
            }
            if !str_eq(item.0.as_str(), key) {
                let ghost before = kept@;
                kept.push(item);
                proof {
                    assert(entry_views(kept@) =~= entry_views(before).push(e[n]));
                }
            }
        }
        proof {
            assert(e.subrange(0, e.len() as int) =~= e);
        }
        self.cache = kept;
    }

    /// The result stored for a query at time `now`, when the first entry for
    /// it is fresh; a stale first entry is dropped with every other entry of
    /// the query.
    pub fn get_at(&mut self, query: &str, now: i64) -> (r: Option<R>)
        where R: Clone,
        ensures
            final(self).entries() == after_lookup(old(self).entries(), query@, now, old(self).ttl()),
            final(self).capacity() == old(self).capacity(),
            final(self).ttl() == old(self).ttl(),
            lookup(old(self).entries(), query@, now, old(self).ttl()) is None ==> r is None,
            lookup(old(self).entries(), query@, now, old(self).ttl()) matches Some(v) ==> r matches Some(w) && cloned(v, w),
    {
        proof {
            lemma_first_entry(self.entries(), query@);
        }
        match self.find(query) {
            None => None,
            Some(i) => {
                proof {
                    assert(self.entries()[i as int] == (self.cache@[i as int].0@, self.cache@[i as int].1, self.cache@[i as int].2));
                }
                let stored = self.cache[i].2;
                let fresh = fresh_at(stored, now, self.ttl_seconds);
                if fresh {
                    Some(self.cache[i].1.clone())
                } else {
                    self.remove_key(query);
                    None
                }
            },
        }
    }

    /// The result stored for a query, if fresh now (see `get_at`).
    pub fn get(&mut self, query: &str) -> (r: Option<R>)
        where R: Clone,
        ensures
            final(self).capacity() == old(self).capacity(),
            final(self).ttl() == old(self).ttl(),
            exists|now: i64| {
                &&& final(self).entries() == after_lookup(old(self).entries(), query@, now, old(self).ttl())
                &&& lookup(old(self).entries(), query@, now, old(self).ttl()) is None ==> r is None
                &&& lookup(old(self).entries(), query@, now, old(self).ttl()) matches Some(v) ==> r matches Some(w)
                    && cloned(v, w)
            },
    {
        let now = now_millis();
        self.get_at(query, now)
    }

    /// Stores a result at time `now`, dropping the oldest entries until there
    /// is room.
    pub fn put_at(&mut self, query: String, result: R, now: i64)
        requires
            old(self).capacity() > 0,
        ensures
            final(self).entries() == after_put(old(self).entries(), old(self).capacity(), query@, result, now),
            final(self).capacity() == old(self).capacity(),
            final(self).ttl() == old(self).ttl(),
    {
        let ghost e = self.entries();
        let ghost max = self.max_entries;
        let ghost dropped: int = 0;
        proof {
            assert(e.subrange(0, e.len() as int) =~= e);
        }
        while self.cache.len() >= self.max_entries
            invariant
                self.max_entries == max,
                max > 0,
                0 <= dropped <= e.len(),
                self.entries() == e.subrange(dropped, e.len() as int),
                e.len() >= max ==> dropped <= e.len() - (max - 1),
                e.len() < max ==> dropped == 0,
                self.ttl_seconds == old(self).ttl_seconds,
            decreases self.cache@.len(),
        {
            let ghost before = self.cache@;
            self.cache.remove(0);
            proof {
                assert(entry_views(self.cache@) =~= entry_views(before).drop_first());
                assert(e.subrange(dropped, e.len() as int).drop_first() =~= e.subrange(dropped + 1, e.len() as int));
                dropped = dropped + 1;
            }
        }
        let ghost before = self.cache@;
        self.cache.push((query, result, now));
        proof {
            assert(entry_views(self.cache@) =~= entry_views(before).push((query@, result, now)));
        }
    }

    /// Stores a result now (see `put_at`).
    pub fn put(&mut self, query: String, result: R)
        requires
            old(self).capacity() > 0,
        ensures
            final(self).capacity() == old(self).capacity(),
            final(self).ttl() == old(self).ttl(),
            exists|now: i64| final(self).entries() == after_put(old(self).entries(), old(self).capacity(), query@, result, now),
    {
        let now = now_millis();
        self.put_at(query, result, now);
    }

    /// Drops every entry.
    pub fn clear(&mut self)
        ensures
            final(self).entries() == Seq::<(Seq<char>, R, i64)>::empty(),
            final(self).capacity() == old(self).capacity(),
            final(self).ttl() == old(self).ttl(),
    {
        self.cache.clear();
        assert(self.entries() =~= Seq::<(Seq<char>, R, i64)>::empty());
    }

    /// The number of entries and the capacity.
    pub fn stats(&self) -> (r: (usize, usize))
        ensures
            r.0 == self.entries().len(),
            r.1 == self.capacity(),
    {
        (self.cache.len(), self.max_entries)
    }
}

/// Whether a result stored at `stored` is fresh at `now`.
fn fresh_at(stored: i64, now: i64, ttl_seconds: u64) -> (b: bool)
    ensures
        b == is_fresh(stored, now, ttl_seconds),
{
    let d: i128 = now as i128 - stored as i128;
    let s: i128 = if d >= 0 {
        d / 1000
    } else {
        -((-d) / 1000)
    };
    let age: i128 = if s >= 0 {
        s
    } else {
        s + 0x1_0000_0000_0000_0000
    };
    age < ttl_seconds as i128
}

/// A result stored for a query that had no entry is what a lookup of it
/// finds while it is fresh.
pub proof fn lemma_put_then_lookup<R>(
    entries: Seq<(Seq<char>, R, i64)>,
    max_entries: usize,
    key: Seq<char>,
    result: R,
    stored: i64,
    now: i64,
    ttl_seconds: u64,
)
    requires
        max_entries > 0,
        forall|j: int| 0 <= j < entries.len() ==> entries[j].0 != key,
        is_fresh(stored, now, ttl_seconds),
    ensures
        lookup(after_put(entries, max_entries, key, result, stored), key, now, ttl_seconds) == Some(result),
{
    let a = after_put(entries, max_entries, key, result, stored);
    let kept = a.drop_last();
    assert(forall|j: int| 0 <= j < kept.len() ==> kept[j].0 != key) by {
        if entries.len() >= max_entries {
            assert forall|j: int| 0 <= j < kept.len() implies kept[j].0 != key by {
                assert(kept[j] == entries[entries.len() - (max_entries - 1) + j]);
            }
        }
    }
    lemma_first_entry(kept, key);
    assert(first_entry(a, key) == a.len() - 1);
}

/// A cache within its capacity stays within it after a store.
pub proof fn lemma_put_within_capacity<R>(
    entries: Seq<(Seq<char>, R, i64)>,
    max_entries: usize,
    key: Seq<char>,
    result: R,
    now: i64,
)
    requires
        max_entries > 0,
        entries.len() <= max_entries,
    ensures
        after_put(entries, max_entries, key, result, now).len() <= max_entries,
{
}

} // verus!
