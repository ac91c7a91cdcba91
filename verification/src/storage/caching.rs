//! Caching and buffer management: an LRU cache, a buffer pool of pages, a
//! cache of query results and cache statistics.

use vstd::prelude::*;
use std::collections::VecDeque;
use crate::collections::{StrMap, without_key, lemma_filter_remove_unique, lemma_filter_absent};
use crate::util::{str_eq, owned};

verus! {

/// The string views of a sequence of strings.
pub open spec fn str_views(s: Seq<String>) -> Seq<Seq<char>> {
    s.map_values(|x: String| x@)
}

/// A least-recently-used cache. Keys are strings; the queue holds the keys
/// from the least to the most recently used.
#[derive(Debug)]
pub struct LruCache<K, V> {
    capacity: usize,
    cache: StrMap<V>,
    lru_queue: VecDeque<K>,
}


/// The entries of an LRU cache after storing `v` under `k`: a new key in a
/// full cache first evicts the least recently used key (`recency[0]`).
pub open spec fn put_contents<V>(contents: Map<Seq<char>, V>, recency: Seq<Seq<char>>, cap: nat, k: Seq<char>, v: V) -> Map<
    Seq<char>,
    V,
> {
    if !contents.contains_key(k) && contents.len() >= cap {
        contents.remove(recency[0]).insert(k, v)
    } else {
        contents.insert(k, v)
    }
}

/// A read after a write gives back what was written.
pub proof fn lemma_put_then_lookup<V>(contents: Map<Seq<char>, V>, recency: Seq<Seq<char>>, cap: nat, k: Seq<char>, v: V)
    ensures
        put_contents(contents, recency, cap, k, v).contains_key(k),
        put_contents(contents, recency, cap, k, v)[k] == v,
{
}

/// A write leaves every other key as it was, except the least recently used
/// one, which it evicts exactly when the key is new and the cache is full.
pub proof fn lemma_put_keeps_others<V>(
    contents: Map<Seq<char>, V>,
    recency: Seq<Seq<char>>,
    cap: nat,
    k: Seq<char>,
    v: V,
    other: Seq<char>,
)
    requires
        other != k,
    ensures
        put_contents(contents, recency, cap, k, v).contains_key(other) <==> (contents.contains_key(other) && !(
        !contents.contains_key(k) && contents.len() >= cap && recency[0] == other)),
        put_contents(contents, recency, cap, k, v).contains_key(other) ==> put_contents(contents, recency, cap, k, v)[other]
            == contents[other],
{
}

/// A write never takes the cache beyond its capacity.
pub proof fn lemma_put_within_capacity<V>(contents: Map<Seq<char>, V>, recency: Seq<Seq<char>>, cap: nat, k: Seq<char>, v: V)
    requires
        cap > 0,
        contents.dom().finite(),
        contents.len() <= cap,
        recency.to_set() == contents.dom(),
    ensures
        put_contents(contents, recency, cap, k, v).len() <= cap,
{
    if contents.contains_key(k) {
        assert(contents.insert(k, v).dom() =~= contents.dom());
    } else if contents.len() >= cap {
        assert(contents.dom().len() > 0);
        if recency.len() == 0 {
            assert(recency.to_set() =~= Set::<Seq<char>>::empty());
        }
        assert(recency.to_set().contains(recency[0]));
        assert(contents.contains_key(recency[0]));
        let m = contents.remove(recency[0]);
        assert(m.len() == contents.len() - 1);
        assert(!m.contains_key(k));
    }
}

impl<V> LruCache<String, V> {
    /// The cached entries.
    pub closed spec fn contents(&self) -> Map<Seq<char>, V> {
        self.cache@
    }

    /// The keys from the least to the most recently used.
    pub closed spec fn recency(&self) -> Seq<Seq<char>> {
        str_views(self.lru_queue@)
    }

    /// The most entries the cache holds.
    pub closed spec fn cap(&self) -> nat {
        self.capacity as nat
    }

    /// The cache is well formed: a positive capacity that bounds the entries,
    /// and a queue that holds each cached key exactly once.
    pub closed spec fn wf(&self) -> bool {
        &&& self.capacity > 0
        &&& self.cache.wf()
        &&& self.recency().no_duplicates()
        &&& self.recency().to_set() == self.cache@.dom()
        &&& self.cache@.len() <= self.capacity
    }

    /// An empty cache. A zero capacity is refused (the caller must not ask for one).
    pub fn new(capacity: usize) -> (c: Self)
        requires
            capacity > 0,
        ensures
            c.wf(),
            c.cap() == capacity,
            c.contents() == Map::<Seq<char>, V>::empty(),
            c.recency() == Seq::<Seq<char>>::empty(),
    {
        let c = LruCache { capacity, cache: StrMap::new(), lru_queue: VecDeque::new() };
        proof {
            use_type_invariant(&c.cache);
            assert(c.recency() =~= Seq::<Seq<char>>::empty());
            assert(c.recency().to_set() =~= c.cache@.dom());
        }
        c
    }

    proof fn lemma_wf(&self)
        requires
            self.wf(),
        ensures
            self.recency().len() == self.cache@.len(),
            forall|k: Seq<char>| self.recency().contains(k) <==> #[trigger] self.cache@.contains_key(k),
    {
        self.cache.lemma_view_consistent();
        self.recency().unique_seq_to_set();
        assert forall|k: Seq<char>| self.recency().contains(k) <==> #[trigger] self.cache@.contains_key(k) by {
            assert(self.recency().to_set().contains(k) <==> self.recency().contains(k));
        }
    }

    /// The position of a key in the queue.
    fn queue_position(&self, key: &String) -> (r: Option<usize>)
        ensures
            match r {
                Some(i) => i < self.recency().len() && self.recency()[i as int] == key@,
                None => !self.recency().contains(key@),
            },
    {
        let mut i: usize = 0;
        let n = self.lru_queue.len();
        while i < n
            invariant
                n == self.lru_queue@.len(),
                i <= n,
                forall|j: int| 0 <= j < i ==> self.recency()[j] != key@,
            decreases n - i,
        {
            if str_eq(self.lru_queue[i].as_str(), key.as_str()) {
                return Some(i);
            }
            i += 1;
        }
        None
    }

    /// Moves a cached key to the most recently used end of the queue.
    fn touch(&mut self, key: &String)
        requires
            old(self).wf(),
            old(self).cache@.contains_key(key@),
        ensures
            final(self).wf(),
            final(self).cache@ == old(self).cache@,
            final(self).capacity == old(self).capacity,
            final(self).recency() == without_key(old(self).recency(), key@).push(key@),
    {
        proof {
            self.lemma_wf();
        }
        let ghost old_rec = self.recency();
        let pos = self.queue_position(key);
        let i: usize = match pos {
            Some(i) => i,
            None => {
                proof {
                    assert(old_rec.to_set().contains(key@));
                }
                0
            },
        };
        let _ = self.lru_queue.remove(i);
        self.lru_queue.push_back(key.clone());
        proof {
            lemma_filter_remove_unique(old_rec, i as int, key@);
            assert(self.recency() =~= old_rec.remove(i as int).push(key@));
            let r = self.recency();
            assert(r.no_duplicates()) by {
                assert forall|a: int, b: int| 0 <= a < r.len() && 0 <= b < r.len() && a != b implies r[a] != r[b] by {
                    if a < r.len() - 1 && b < r.len() - 1 {
                        let a2 = if a < i { a } else { a + 1 };
                        let b2 = if b < i { b } else { b + 1 };
                        assert(r[a] == old_rec[a2]);
                        assert(r[b] == old_rec[b2]);
                    } else if a == r.len() - 1 {
                        let b2 = if b < i { b } else { b + 1 };
                        assert(r[b] == old_rec[b2]);
                    } else {
                        let a2 = if a < i { a } else { a + 1 };
                        assert(r[a] == old_rec[a2]);
                    }
                }
            }
            assert(r.to_set() =~= self.cache@.dom()) by {
                assert forall|k: Seq<char>| r.to_set().contains(k) <==> self.cache@.dom().contains(k) by {
                    if self.cache@.dom().contains(k) {
                        assert(old_rec.contains(k));
                        let j = choose|j: int| 0 <= j < old_rec.len() && old_rec[j] == k;
                        if j < i {
                            assert(r[j] == k);
                        } else if j > i {
                            assert(r[j - 1] == k);
                        } else {
                            assert(r[r.len() - 1] == k);
                        }
                    }
                    if r.to_set().contains(k) {
                        assert(r.contains(k));
                        let j = choose|j: int| 0 <= j < r.len() && r[j] == k;
                        if j < r.len() - 1 {
                            let j2 = if j < i { j } else { j + 1 };
                            assert(old_rec[j2] == k);
                            assert(old_rec.contains(k));
                        }
                    }
                }
            }
        }
    }

    /// The cached value of a key; a hit makes the key the most recently used.
    pub fn get(&mut self, key: &String) -> (r: Option<&V>)
        requires
            old(self).wf(),
        ensures
            final(self).wf(),
            final(self).cap() == old(self).cap(),
            final(self).contents() == old(self).contents(),
            match r {
                Some(v) => old(self).contents().contains_key(key@) && *v == old(self).contents()[key@]
                    && final(self).recency() == without_key(old(self).recency(), key@).push(key@),
                None => !old(self).contents().contains_key(key@) && final(self).recency() == old(self).recency(),
            },
    {
        if self.cache.contains_key(key.as_str()) {
            self.touch(key);
            self.cache.get(key.as_str())
        } else {
            None
        }
    }

    /// Stores a value. A present key is updated; a new key is added, and when
    /// the cache is full the least recently used key is evicted first. The key
    /// becomes the most recently used.
    pub fn put(&mut self, key: String, value: V)
        requires
            old(self).wf(),
        ensures
            final(self).wf(),
            final(self).cap() == old(self).cap(),
            old(self).contents().contains_key(key@) ==> {
                &&& final(self).contents() == old(self).contents().insert(key@, value)
                &&& final(self).recency() == without_key(old(self).recency(), key@).push(key@)
            },
            !old(self).contents().contains_key(key@) && old(self).contents().len() < old(self).cap() ==> {
                &&& final(self).contents() == old(self).contents().insert(key@, value)
                &&& final(self).recency() == old(self).recency().push(key@)
            },
            final(self).contents().contains_key(key@),
            final(self).contents()[key@] == value,
            final(self).contents().len() <= final(self).cap(),
            final(self).contents() == put_contents(old(self).contents(), old(self).recency(), old(self).cap(), key@, value),
            !old(self).contents().contains_key(key@) && old(self).contents().len() >= old(self).cap() ==> {
                &&& final(self).contents() == old(self).contents().remove(old(self).recency()[0]).insert(
                    key@,
                    value,
                )
                &&& final(self).recency() == old(self).recency().drop_first().push(key@)
            },
    {
        proof {
            self.lemma_wf();
        }
        if self.cache.contains_key(key.as_str()) {
            let _ = self.cache.insert(key.clone(), value);
            proof {
                assert(self.cache@.dom() =~= old(self).cache@.dom());
                use_type_invariant(&self.cache);
                self.cache.lemma_view_consistent();
                old(self).cache.lemma_view_consistent();
            }
            self.touch(&key);
        } else {
            let ghost rec0 = self.recency();
            if self.cache.len() >= self.capacity {
                let lru = self.lru_queue.pop_front();
                match lru {
                    Some(lru_key) => {
                        let _ = self.cache.remove(lru_key.as_str());
                        proof {
                            assert(self.recency() =~= rec0.drop_first());
                            assert(rec0[0] == lru_key@);
                            assert(rec0.no_duplicates());
                            assert forall|k: Seq<char>| self.recency().to_set().contains(k) <==> self.cache@.dom().contains(k) by {
                                if self.recency().to_set().contains(k) {
                                    assert(self.recency().contains(k));
                                    let j = choose|j: int| 0 <= j < self.recency().len() && self.recency()[j] == k;
                                    assert(rec0[j + 1] == k);
                                    assert(rec0.contains(k));
                                    assert(k != lru_key@);
                                }
                                if self.cache@.dom().contains(k) {
                                    assert(old(self).cache@.contains_key(k));
                                    assert(rec0.contains(k));
                                    let j = choose|j: int| 0 <= j < rec0.len() && rec0[j] == k;
                                    assert(j != 0);
                                    assert(self.recency()[j - 1] == k);
                                }
                            }
                            assert(self.recency().to_set() =~= self.cache@.dom());
                            use_type_invariant(&self.cache);
                            self.cache.lemma_view_consistent();
                        }
                    },
                    None => {
                        proof {
                            assert(false);
                        }
                    },
                }
            }
            let ghost rec1 = self.recency();
            let ghost map1 = self.cache@;
            proof {
                use_type_invariant(&self.cache);
                self.cache.lemma_view_consistent();
                self.recency().unique_seq_to_set();
                assert(!rec1.contains(key@)) by {
                    if rec1.contains(key@) {
                        assert(rec1.to_set().contains(key@));
                    }
                }
            }
            let _ = self.cache.insert(key.clone(), value);
            self.lru_queue.push_back(key);
            proof {
                assert(self.recency() =~= rec1.push(key@));
                rec1.lemma_push_to_set_commute(key@);
                assert(rec1.to_set() == map1.dom());
                assert(self.recency().to_set() =~= self.cache@.dom());
                use_type_invariant(&self.cache);
                self.cache.lemma_view_consistent();
            }
        }
    }

    /// Removes a key; returns its value if it was cached.
    pub fn remove(&mut self, key: &String) -> (r: Option<V>)
        requires
            old(self).wf(),
        ensures
            final(self).wf(),
            final(self).cap() == old(self).cap(),
            final(self).contents() == old(self).contents().remove(key@),
            final(self).recency() == without_key(old(self).recency(), key@),
            match r {
                Some(v) => old(self).contents().contains_key(key@) && v == old(self).contents()[key@],
                None => !old(self).contents().contains_key(key@),
            },
    {
        proof {
            self.lemma_wf();
        }
        let ghost rec0 = self.recency();
        let n = self.lru_queue.len();
        let pos = self.queue_position(key);
        let i: usize = match pos {
            Some(i) => i,
            None => n,
        };
        if i < n {
            let _ = self.lru_queue.remove(i);
            proof {
                lemma_filter_remove_unique(rec0, i as int, key@);
                assert(self.recency() =~= rec0.remove(i as int));
            }
        } else {
            proof {
                assert(!rec0.contains(key@));
                lemma_filter_absent(rec0, key@);
            }
        }
        let r = self.cache.remove(key.as_str());
        proof {
            let rec = self.recency();
            assert(rec.no_duplicates()) by {
                assert forall|a: int, b: int| 0 <= a < rec.len() && 0 <= b < rec.len() && a != b implies rec[a] != rec[b] by {
                    if i < n {
                        let a2 = if a < i { a } else { a + 1 };
                        let b2 = if b < i { b } else { b + 1 };
                        assert(rec[a] == rec0[a2]);
                        assert(rec[b] == rec0[b2]);
                    }
                }
            }
            assert forall|k: Seq<char>| rec.to_set().contains(k) <==> self.cache@.dom().contains(k) by {
                if rec.to_set().contains(k) {
                    assert(rec.contains(k));
                    let j = choose|j: int| 0 <= j < rec.len() && rec[j] == k;
                    if i < n {
                        let j2 = if j < i { j } else { j + 1 };
                        assert(rec0[j2] == k);
                    } else {
                        assert(rec0[j] == k);
                    }
                    assert(rec0.contains(k));
                }
                if self.cache@.dom().contains(k) {
                    assert(rec0.contains(k));
                    let j = choose|j: int| 0 <= j < rec0.len() && rec0[j] == k;
                    if i < n {
                        if j < i {
                            assert(rec[j] == k);
                        } else {
                            assert(j != i);
                            assert(rec[j - 1] == k);
                        }
                    } else {
                        assert(rec[j] == k);
                    }
                }
            }
            assert(rec.to_set() =~= self.cache@.dom());
            use_type_invariant(&self.cache);
            self.cache.lemma_view_consistent();
            old(self).cache.lemma_view_consistent();
        }
        r
    }

    /// The number of cached entries.
    pub fn size(&self) -> (n: usize)
        requires
            self.wf(),
        ensures
            n == self.contents().len(),
    {
        self.cache.len()
    }

    /// The capacity.
    pub fn capacity(&self) -> (n: usize)
        ensures
            n == self.cap(),
    {
        self.capacity
    }

    /// Empties the cache.
    pub fn clear(&mut self)
        requires
            old(self).wf(),
        ensures
            final(self).wf(),
            final(self).cap() == old(self).cap(),
            final(self).contents() == Map::<Seq<char>, V>::empty(),
            final(self).recency() == Seq::<Seq<char>>::empty(),
    {
        self.cache.clear();
        self.lru_queue.clear();
        proof {
            assert(self.recency() =~= Seq::<Seq<char>>::empty());
            assert(self.recency().to_set() =~= self.cache@.dom());
            use_type_invariant(&self.cache);
            self.cache.lemma_view_consistent();
        }
    }

    /// Whether a key is cached (without touching its recency).
    pub fn contains_key(&self, key: &String) -> (b: bool)
        ensures
            b == self.contents().contains_key(key@),
    {
        self.cache.contains_key(key.as_str())
    }
}

} // verus!

verus! {

/// A page held in the buffer pool.
#[derive(Debug, Clone)]
pub struct BufferPoolPage {
    pub page_id: u32,
    pub data: Vec<u8>,
    pub pin_count: u32,
    pub dirty: bool,
    pub last_accessed: u64,
}

impl BufferPoolPage {
    /// A clean, unpinned page.
    pub fn new(page_id: u32, data: Vec<u8>) -> (p: Self)
        ensures
            p.page_id == page_id,
            p.data == data,
            p.pin_count == 0,
            !p.dirty,
            p.last_accessed == 0,
    {
        BufferPoolPage { page_id, data, pin_count: 0, dirty: false, last_accessed: 0 }
    }

    /// Pins the page once more.
    pub fn pin(&mut self)
        requires
            old(self).pin_count < u32::MAX,
        ensures
            *final(self) == (BufferPoolPage { pin_count: (old(self).pin_count + 1) as u32, ..*old(self) }),
    {
        self.pin_count += 1;
    }

    /// Releases one pin, if any.
    pub fn unpin(&mut self)
        ensures
            *final(self) == (BufferPoolPage {
                pin_count: if old(self).pin_count > 0 { (old(self).pin_count - 1) as u32 } else { 0 },
                ..*old(self)
            }),
    {
        if self.pin_count > 0 {
            self.pin_count -= 1;
        }
    }

    /// Whether the page is pinned.
    pub fn is_pinned(&self) -> (b: bool)
        ensures
            b == (self.pin_count > 0),
    {
        self.pin_count > 0
    }

    /// Marks the page as modified.
    pub fn mark_dirty(&mut self)
        ensures
            *final(self) == (BufferPoolPage { dirty: true, ..*old(self) }),
    {
        self.dirty = true;
    }

    /// Marks the page as written back.
    pub fn mark_clean(&mut self)
        ensures
            *final(self) == (BufferPoolPage { dirty: false, ..*old(self) }),
    {
        self.dirty = false;
    }
}

/// The page ids of a sequence of pages.
pub open spec fn page_ids(pages: Seq<BufferPoolPage>) -> Seq<u32> {
    pages.map_values(|p: BufferPoolPage| p.page_id)
}

/// The position of the least recently used unpinned page, if there is one.
pub open spec fn lru_unpinned(pages: Seq<BufferPoolPage>) -> Option<int> {
    if exists|i: int| 0 <= i < pages.len() && (#[trigger] pages[i]).pin_count == 0 {
        Some(
            choose|i: int|
                0 <= i < pages.len() && (#[trigger] pages[i]).pin_count == 0 && forall|j: int|
                    0 <= j < i ==> (#[trigger] pages[j]).pin_count > 0,
        )
    } else {
        None
    }
}

/// The page id that adding a page to a pool evicts: none when the id is
/// already there or there is room; else the least recently used unpinned
/// page's id, if there is one.
pub open spec fn evicted_by_add(pages: Seq<BufferPoolPage>, capacity: nat, id: u32) -> Option<u32> {
    if page_ids(pages).contains(id) || pages.len() < capacity {
        None
    } else {
        match lru_unpinned(pages) {
            Some(i) => Some(pages[i].page_id),
            None => None,
        }
    }
}

/// The pages after adding one, least recently used first: a page with the
/// same id is taken out, or else the evicted page, and the new page comes last.
pub open spec fn pages_after_add(pages: Seq<BufferPoolPage>, capacity: nat, page: BufferPoolPage) -> Seq<BufferPoolPage> {
    if page_ids(pages).contains(page.page_id) {
        pages.remove(page_ids(pages).index_of(page.page_id)).push(page)
    } else if pages.len() < capacity {
        pages.push(page)
    } else {
        match lru_unpinned(pages) {
            Some(i) => pages.remove(i).push(page),
            None => pages,
        }
    }
}

/// Whether adding a page is refused: a new id, a full pool, and every page
/// pinned.
pub open spec fn add_refused(pages: Seq<BufferPoolPage>, capacity: nat, id: u32) -> bool {
    !page_ids(pages).contains(id) && pages.len() >= capacity && lru_unpinned(pages) is None
}

/// The least recently used unpinned position is unpinned, and every page
/// before it is pinned.
proof fn lemma_lru_unpinned(pages: Seq<BufferPoolPage>)
    ensures
        lru_unpinned(pages) is None <==> forall|i: int| 0 <= i < pages.len() ==> (#[trigger] pages[i]).pin_count > 0,
        lru_unpinned(pages) matches Some(i) ==> 0 <= i < pages.len() && pages[i].pin_count == 0 && forall|j: int|
            0 <= j < i ==> (#[trigger] pages[j]).pin_count > 0,
{
    if exists|i: int| 0 <= i < pages.len() && (#[trigger] pages[i]).pin_count == 0 {
        let w = choose|i: int| 0 <= i < pages.len() && (#[trigger] pages[i]).pin_count == 0;
        lemma_least_unpinned(pages, w);
    }
}

proof fn lemma_least_unpinned(pages: Seq<BufferPoolPage>, w: int)
    requires
        0 <= w < pages.len(),
        pages[w].pin_count == 0,
    ensures
        exists|i: int|
            0 <= i < pages.len() && (#[trigger] pages[i]).pin_count == 0 && forall|j: int|
                0 <= j < i ==> (#[trigger] pages[j]).pin_count > 0,
    decreases w,
{
    if exists|j: int| 0 <= j < w && (#[trigger] pages[j]).pin_count == 0 {
        let v = choose|j: int| 0 <= j < w && (#[trigger] pages[j]).pin_count == 0;
        lemma_least_unpinned(pages, v);
    } else {
        assert(forall|j: int| 0 <= j < w ==> (#[trigger] pages[j]).pin_count > 0);
    }
}

/// A bounded pool of pages, each page id at most once, kept least recently
/// used first.
#[derive(Debug)]
pub struct BufferPool {
    pages: Vec<BufferPoolPage>,
    max_pages: u32,
    frame_count: u32,
}

impl BufferPool {
    /// The pages in the pool, least recently added or pinned first.
    pub closed spec fn page_seq(&self) -> Seq<BufferPoolPage> {
        self.pages@
    }

    /// The pages by id.
    pub closed spec fn pages_by_id(&self) -> Map<u32, BufferPoolPage> {
        Map::new(
            |id: u32| page_ids(self.pages@).contains(id),
            |id: u32| self.pages@[page_ids(self.pages@).index_of(id)],
        )
    }

    /// The most pages the pool holds.
    pub closed spec fn capacity(&self) -> nat {
        self.max_pages as nat
    }

    /// How many pages were ever added.
    pub closed spec fn frames(&self) -> nat {
        self.frame_count as nat
    }

    /// The pool is well formed: distinct page ids, within the capacity.
    pub closed spec fn wf(&self) -> bool {
        &&& page_ids(self.pages@).no_duplicates()
        &&& self.pages@.len() <= self.max_pages
    }

    proof fn lemma_index(&self, i: int)
        requires
            self.wf(),
            0 <= i < self.pages@.len(),
        ensures
            page_ids(self.pages@).index_of(self.pages@[i].page_id) == i,
            self.pages_by_id().contains_key(self.pages@[i].page_id),
            self.pages_by_id()[self.pages@[i].page_id] == self.pages@[i],
    {
        assert(page_ids(self.pages@)[i] == self.pages@[i].page_id);
        assert(page_ids(self.pages@).contains(self.pages@[i].page_id));
    }

    /// An empty pool.
    pub fn new(max_pages: u32) -> (p: Self)
        ensures
            p.wf(),
            p.capacity() == max_pages,
            p.frames() == 0,
            p.page_seq() == Seq::<BufferPoolPage>::empty(),
            p.pages_by_id() == Map::<u32, BufferPoolPage>::empty(),
    {
        let p = BufferPool { pages: Vec::new(), max_pages, frame_count: 0 };
        proof {
            assert(page_ids(p.pages@) =~= Seq::<u32>::empty());
            assert(p.pages_by_id() =~= Map::<u32, BufferPoolPage>::empty());
        }
        p
    }

    /// The most pages the pool holds.
    pub fn max_pages(&self) -> (n: u32)
        ensures
            n == self.capacity(),
    {
        self.max_pages
    }

    fn find(&self, page_id: u32) -> (r: Option<usize>)
        requires
            self.wf(),
        ensures
            match r {
                Some(i) => i < self.pages@.len() && self.pages@[i as int].page_id == page_id,
                None => !self.pages_by_id().contains_key(page_id),
            },
    {
        let mut i: usize = 0;
        while i < self.pages.len()
            invariant
                i <= self.pages@.len(),
                forall|j: int| 0 <= j < i ==> self.pages@[j].page_id != page_id,
            decreases self.pages@.len() - i,
        {
            if self.pages[i].page_id == page_id {
                return Some(i);
            }
            i += 1;
        }
        proof {
            if page_ids(self.pages@).contains(page_id) {
                let j = choose|j: int| 0 <= j < self.pages@.len() && page_ids(self.pages@)[j] == page_id;
                assert(self.pages@[j].page_id == page_id);
            }
        }
        None
    }

    /// Replaces the page at a position by one with the same id; returns the
    /// page that stood there.
    fn replace_at(&mut self, i: usize, page: BufferPoolPage) -> (prev: BufferPoolPage)
        requires
            old(self).wf(),
            i < old(self).pages@.len(),
            page.page_id == old(self).pages@[i as int].page_id,
        ensures
            final(self).wf(),
            final(self).pages@ == old(self).pages@.update(i as int, page),
            final(self).max_pages == old(self).max_pages,
            final(self).frame_count == old(self).frame_count,
            final(self).pages_by_id() == old(self).pages_by_id().insert(page.page_id, page),
            prev == old(self).pages@[i as int],
            prev == old(self).pages_by_id()[page.page_id],
    {
        let prev = self.pages.remove(i);
        self.pages.insert(i, page);
        proof {
            assert(self.pages@ =~= old(self).pages@.update(i as int, page));
            assert(page_ids(self.pages@) =~= page_ids(old(self).pages@));
            old(self).lemma_index(i as int);
            assert forall|id: u32| #[trigger] self.pages_by_id().contains_key(id) implies self.pages_by_id()[id]
                == old(self).pages_by_id().insert(page.page_id, page)[id] by {
                let j = page_ids(self.pages@).index_of(id);
                assert(page_ids(self.pages@).contains(id));
                self.lemma_index(j);
                old(self).lemma_index(j);
            }
            assert(self.pages_by_id() =~= old(self).pages_by_id().insert(page.page_id, page));
        }
        prev
    }

    /// Takes out the page at a position.
    fn remove_at(&mut self, i: usize) -> (prev: BufferPoolPage)
        requires
            old(self).wf(),
            i < old(self).pages@.len(),
        ensures
            final(self).wf(),
            final(self).pages@ == old(self).pages@.remove(i as int),
            final(self).max_pages == old(self).max_pages,
            final(self).frame_count == old(self).frame_count,
            final(self).pages_by_id() == old(self).pages_by_id().remove(prev.page_id),
            prev == old(self).pages@[i as int],
    {
        let ghost old_pages = self.pages@;
        let prev = self.pages.remove(i);
        proof {
            let ids = page_ids(self.pages@);
            let oids = page_ids(old_pages);
            assert(ids =~= oids.remove(i as int));
            assert(ids.no_duplicates()) by {
                assert forall|a: int, b: int| 0 <= a < ids.len() && 0 <= b < ids.len() && a != b implies ids[a] != ids[b] by {
                    let a2 = if a < i { a } else { a + 1 };
                    let b2 = if b < i { b } else { b + 1 };
                    assert(ids[a] == oids[a2]);
                    assert(ids[b] == oids[b2]);
                }
            }
            old(self).lemma_index(i as int);
            assert forall|x: u32| #[trigger] self.pages_by_id().contains_key(x) <==> old(self).pages_by_id().remove(
                prev.page_id,
            ).contains_key(x) by {
                if self.pages_by_id().contains_key(x) {
                    let j = ids.index_of(x);
                    assert(ids.contains(x));
                    let j2 = if j < i { j } else { j + 1 };
                    assert(oids[j2] == x);
                    assert(oids.contains(x));
                    assert(oids[i as int] == prev.page_id);
                }
                if old(self).pages_by_id().contains_key(x) && x != prev.page_id {
                    let j = oids.index_of(x);
                    assert(oids.contains(x));
                    if j < i {
                        assert(ids[j] == x);
                    } else {
                        assert(j != i);
                        assert(ids[j - 1] == x);
                    }
                }
            }
            assert forall|x: u32| #[trigger] self.pages_by_id().contains_key(x) implies self.pages_by_id()[x]
                == old(self).pages_by_id().remove(prev.page_id)[x] by {
                let j = ids.index_of(x);
                assert(ids.contains(x));
                self.lemma_index(j);
                let j2 = if j < i { j } else { j + 1 };
                old(self).lemma_index(j2);
            }
            assert(self.pages_by_id() =~= old(self).pages_by_id().remove(prev.page_id));
        }
        prev
    }

    /// Puts a page with a new id last.
    fn push_new(&mut self, page: BufferPoolPage)
        requires
            old(self).wf(),
            !old(self).pages_by_id().contains_key(page.page_id),
            old(self).pages@.len() < old(self).max_pages,
        ensures
            final(self).wf(),
            final(self).pages@ == old(self).pages@.push(page),
            final(self).max_pages == old(self).max_pages,
            final(self).frame_count == old(self).frame_count,
            final(self).pages_by_id() == old(self).pages_by_id().insert(page.page_id, page),
    {
        let id = page.page_id;
        let ghost old_pages = self.pages@;
        self.pages.push(page);
        proof {
            assert(page_ids(self.pages@) =~= page_ids(old_pages).push(id));
            assert(!page_ids(old_pages).contains(id));
            assert forall|x: u32| #[trigger] self.pages_by_id().contains_key(x) implies self.pages_by_id()[x]
                == old(self).pages_by_id().insert(id, page)[x] by {
                let j = page_ids(self.pages@).index_of(x);
                assert(page_ids(self.pages@).contains(x));
                self.lemma_index(j);
                if j < old_pages.len() {
                    old(self).lemma_index(j);
                }
            }
            assert forall|x: u32| #[trigger] old(self).pages_by_id().insert(id, page).contains_key(x)
                implies self.pages_by_id().contains_key(x) by {
                if x != id {
                    let j = page_ids(old_pages).index_of(x);
                    assert(page_ids(old_pages).contains(x));
                    assert(page_ids(self.pages@)[j] == x);
                } else {
                    assert(page_ids(self.pages@)[old_pages.len() as int] == x);
                }
            }
            assert(self.pages_by_id() =~= old(self).pages_by_id().insert(id, page));
        }
    }

    /// The position of the least recently used unpinned page.
    fn find_unpinned(&self) -> (r: Option<usize>)
        ensures
            match r {
                Some(i) => lru_unpinned(self.pages@) == Some(i as int),
                None => lru_unpinned(self.pages@) is None,
            },
    {
        proof {
            lemma_lru_unpinned(self.pages@);
        }
        let mut i: usize = 0;
        while i < self.pages.len()
            invariant
                i <= self.pages@.len(),
                forall|j: int| 0 <= j < i ==> (#[trigger] self.pages@[j]).pin_count > 0,
            decreases self.pages@.len() - i,
        {
            if self.pages[i].pin_count == 0 {
                proof {
                    let c = lru_unpinned(self.pages@)->Some_0;
                    assert(c == i) by {
                        if c < i {
                            assert(self.pages@[c].pin_count > 0);
                        } else if c > i {
                            assert(self.pages@[i as int].pin_count > 0);
                        }
                    }
                }
                return Some(i);
            }
            i += 1;
        }
        None
    }

    /// Pins a page, which becomes the most recently used; returns it, or
    /// nothing when the id is not in the pool.
    pub fn pin_page(&mut self, page_id: u32) -> (r: Option<&BufferPoolPage>)
        requires
            old(self).wf(),
            old(self).pages_by_id().contains_key(page_id) ==> old(self).pages_by_id()[page_id].pin_count < u32::MAX,
        ensures
            final(self).wf(),
            final(self).capacity() == old(self).capacity(),
            final(self).frames() == old(self).frames(),
            match r {
                Some(p) => {
                    &&& old(self).pages_by_id().contains_key(page_id)
                    &&& *p == (BufferPoolPage {
                        pin_count: (old(self).pages_by_id()[page_id].pin_count + 1) as u32,
                        ..old(self).pages_by_id()[page_id]
                    })
                    &&& final(self).pages_by_id() == old(self).pages_by_id().insert(page_id, *p)
                    &&& final(self).page_seq() == old(self).page_seq().remove(
                        page_ids(old(self).page_seq()).index_of(page_id),
                    ).push(*p)
                },
                None => !old(self).pages_by_id().contains_key(page_id) && final(self).pages_by_id()
                    == old(self).pages_by_id() && final(self).page_seq() == old(self).page_seq(),
            },
    {
        match self.find(page_id) {
            Some(i) => {
                proof {
                    self.lemma_index(i as int);
                }
                let mut page = self.remove_at(i);
                page.pin();
                self.push_new(page);
                let last = self.pages.len() - 1;
                proof {
                    assert(self.pages_by_id() =~= old(self).pages_by_id().insert(page_id, page));
                }
                Some(&self.pages[last])
            },
            None => None,
        }
    }

    /// Releases one pin of a page; false when the id is not in the pool.
    pub fn unpin_page(&mut self, page_id: u32) -> (found: bool)
        requires
            old(self).wf(),
        ensures
            final(self).wf(),
            final(self).capacity() == old(self).capacity(),
            final(self).frames() == old(self).frames(),
            found == old(self).pages_by_id().contains_key(page_id),
            found ==> final(self).pages_by_id() == old(self).pages_by_id().insert(
                page_id,
                BufferPoolPage {
                    pin_count: if old(self).pages_by_id()[page_id].pin_count > 0 {
                        (old(self).pages_by_id()[page_id].pin_count - 1) as u32
                    } else {
                        0
                    },
                    ..old(self).pages_by_id()[page_id]
                },
            ),
            !found ==> final(self).pages_by_id() == old(self).pages_by_id(),
    {
        match self.find(page_id) {
            Some(i) => {
                proof {
                    self.lemma_index(i as int);
                }
                let mut page = self.replace_at(i, BufferPoolPage::new(page_id, Vec::new()));
                page.unpin();
                let _ = self.replace_at(i, page);
                true
            },
            None => false,
        }
    }

    /// Adds a page, which becomes the most recently used. A page with the
    /// same id is replaced; when the pool is full, the least recently used
    /// unpinned page is evicted to make room; refused when every page of a
    /// full pool is pinned.
    pub fn add_page(&mut self, page: BufferPoolPage) -> (r: Result<(), CacheError>)
        requires
            old(self).wf(),
            old(self).frames() < u32::MAX,
        ensures
            final(self).wf(),
            final(self).capacity() == old(self).capacity(),
            r is Err <==> add_refused(old(self).page_seq(), old(self).capacity(), page.page_id),
            r is Ok ==> final(self).page_seq() == pages_after_add(old(self).page_seq(), old(self).capacity(), page)
                && final(self).frames() == old(self).frames() + 1,
            r is Ok ==> final(self).pages_by_id() == match evicted_by_add(
                old(self).page_seq(),
                old(self).capacity(),
                page.page_id,
            ) {
                Some(e) => old(self).pages_by_id().remove(e),
                None => old(self).pages_by_id(),
            }.insert(page.page_id, page),
            r is Err ==> final(self).pages_by_id() == old(self).pages_by_id() && final(self).page_seq()
                == old(self).page_seq() && final(self).frames() == old(self).frames() && r == Err::<(), CacheError>(
                CacheError::BufferPoolFull,
            ),
    {
        let id = page.page_id;
        proof {
            lemma_lru_unpinned(self.pages@);
        }
        match self.find(id) {
            Some(i) => {
                proof {
                    self.lemma_index(i as int);
                }
                let _ = self.remove_at(i);
                self.push_new(page);
                proof {
                    assert(self.pages_by_id() =~= old(self).pages_by_id().insert(id, page));
                }
            },
            None => {
                proof {
                    assert(!page_ids(self.pages@).contains(id));
                }
                if self.pages.len() as u32 >= self.max_pages {
                    match self.find_unpinned() {
                        None => {
                            return Err(CacheError::BufferPoolFull);
                        },
                        Some(i) => {
                            let _ = self.remove_at(i);
                        },
                    }
                }
                self.push_new(page);
            },
        }
        self.frame_count += 1;
        Ok(())
    }

    /// The page with an id.
    pub fn get_page(&self, page_id: u32) -> (r: Option<&BufferPoolPage>)
        requires
            self.wf(),
        ensures
            match r {
                Some(p) => self.pages_by_id().contains_key(page_id) && *p == self.pages_by_id()[page_id],
                None => !self.pages_by_id().contains_key(page_id),
            },
    {
        match self.find(page_id) {
            Some(i) => {
                proof {
                    self.lemma_index(i as int);
                }
                Some(&self.pages[i])
            },
            None => None,
        }
    }

    /// The number of pages in the pool.
    pub fn get_page_count(&self) -> (n: usize)
        requires
            self.wf(),
        ensures
            n == self.pages_by_id().len(),
            n == self.page_seq().len(),
    {
        proof {
            self.lemma_domain();
        }
        self.pages.len()
    }

    proof fn lemma_domain(&self)
        requires
            self.wf(),
        ensures
            self.pages_by_id().dom() == page_ids(self.pages@).to_set(),
            self.pages_by_id().len() == self.pages@.len(),
    {
        assert(self.pages_by_id().dom() =~= page_ids(self.pages@).to_set());
        page_ids(self.pages@).unique_seq_to_set();
    }

    /// Marks every dirty page clean; returns the ids of the pages that were
    /// dirty, each once.
    pub fn flush_dirty_pages(&mut self) -> (flushed: Vec<u32>)
        requires
            old(self).wf(),
        ensures
            final(self).wf(),
            final(self).capacity() == old(self).capacity(),
            final(self).frames() == old(self).frames(),
            flushed@.no_duplicates(),
            forall|id: u32| #[trigger] flushed@.contains(id) <==> (old(self).pages_by_id().contains_key(id)
                && old(self).pages_by_id()[id].dirty),
            final(self).pages_by_id().dom() == old(self).pages_by_id().dom(),
            forall|id: u32| #[trigger] final(self).pages_by_id().contains_key(id) ==> final(self).pages_by_id()[id]
                == (BufferPoolPage { dirty: false, ..old(self).pages_by_id()[id] }),
    {
        let mut flushed: Vec<u32> = Vec::new();
        let n = self.pages.len();
        let mut i: usize = 0;
        while i < n
            invariant
                n == self.pages@.len(),
                n == old(self).pages@.len(),
                i <= n,
                self.wf(),
                self.max_pages == old(self).max_pages,
                self.frame_count == old(self).frame_count,
                page_ids(self.pages@) == page_ids(old(self).pages@),
                forall|j: int| 0 <= j < i ==> #[trigger] self.pages@[j] == (BufferPoolPage {
                    dirty: false,
                    ..old(self).pages@[j]
                }),
                forall|j: int| i <= j < n ==> #[trigger] self.pages@[j] == old(self).pages@[j],
                flushed@.no_duplicates(),
                forall|id: u32| #[trigger] flushed@.contains(id) <==> exists|j: int|
                    0 <= j < i && old(self).pages@[j].page_id == id && old(self).pages@[j].dirty,
            decreases n - i,
        {
            if self.pages[i].dirty {
                let id = self.pages[i].page_id;
                let mut page = self.replace_at(i, BufferPoolPage::new(id, Vec::new()));
                page.mark_clean();
                let _ = self.replace_at(i, page);
                proof {
                    assert(!flushed@.contains(id)) by {
                        if flushed@.contains(id) {
                            let j = choose|j: int| 0 <= j < i && old(self).pages@[j].page_id == id && old(self).pages@[j].dirty;
                            assert(page_ids(old(self).pages@)[j] == page_ids(old(self).pages@)[i as int]);
                        }
                    }
                }
                let ghost fl0 = flushed@;
                flushed.push(id);
                proof {
                    assert(old(self).pages@[i as int].page_id == id && old(self).pages@[i as int].dirty);
                    assert forall|x: u32| #[trigger] flushed@.contains(x) <==> exists|j: int|
                        0 <= j < i + 1 && old(self).pages@[j].page_id == x && old(self).pages@[j].dirty by {
                        assert(flushed@.contains(x) <==> (fl0.contains(x) || x == id)) by {
                            if flushed@.contains(x) {
                                let k = choose|k: int| 0 <= k < flushed@.len() && flushed@[k] == x;
                                if k < fl0.len() {
                                    assert(fl0[k] == x);
                                }
                            }
                            if fl0.contains(x) {
                                let k = choose|k: int| 0 <= k < fl0.len() && fl0[k] == x;
                                assert(flushed@[k] == x);
                            }
                            if x == id {
                                assert(flushed@[fl0.len() as int] == x);
                            }
                        }
                        if exists|j: int| 0 <= j < i + 1 && old(self).pages@[j].page_id == x && old(self).pages@[j].dirty {
                            let j = choose|j: int| 0 <= j < i + 1 && old(self).pages@[j].page_id == x && old(self).pages@[j].dirty;
                            if j < i {
                                assert(fl0.contains(x));
                            }
                        }
                        if fl0.contains(x) {
                            let j = choose|j: int| 0 <= j < i && old(self).pages@[j].page_id == x && old(self).pages@[j].dirty;
                            assert(0 <= j < i + 1);
                        }
                    }
                }
            } else {
                proof {
                    assert(self.pages@[i as int] == (BufferPoolPage { dirty: false, ..old(self).pages@[i as int] }));
                }
            }
            i += 1;
        }
        proof {
            assert forall|id: u32| #[trigger] flushed@.contains(id) <==> (old(self).pages_by_id().contains_key(id)
                && old(self).pages_by_id()[id].dirty) by {
                if old(self).pages_by_id().contains_key(id) {
                    let j = page_ids(old(self).pages@).index_of(id);
                    assert(page_ids(old(self).pages@).contains(id));
                    old(self).lemma_index(j);
                }
                if flushed@.contains(id) {
                    let j = choose|j: int| 0 <= j < n && old(self).pages@[j].page_id == id && old(self).pages@[j].dirty;
                    old(self).lemma_index(j);
                }
            }
            assert(self.pages_by_id().dom() =~= old(self).pages_by_id().dom());
            assert forall|id: u32| #[trigger] self.pages_by_id().contains_key(id) implies self.pages_by_id()[id]
                == (BufferPoolPage { dirty: false, ..old(self).pages_by_id()[id] }) by {
                let j = page_ids(self.pages@).index_of(id);
                assert(page_ids(self.pages@).contains(id));
                self.lemma_index(j);
                old(self).lemma_index(j);
            }
        }
        flushed
    }
}

/// Errors of the caching layer.
#[derive(Debug, Clone, Copy, PartialEq, Eq)]
pub enum CacheError {
    /// The buffer pool already holds its capacity of pages.
    BufferPoolFull,
}

/// The text of a table of strings, row by row.
pub open spec fn rows_view(t: Seq<Vec<String>>) -> Seq<Seq<Seq<char>>> {
    t.map_values(|r: Vec<String>| str_views(r@))
}

/// A copy of a row of strings.
pub fn copy_strings(v: &Vec<String>) -> (r: Vec<String>)
    ensures
        str_views(r@) == str_views(v@),
{
    let mut r: Vec<String> = Vec::new();
    let mut i: usize = 0;
    while i < v.len()
        invariant
            i <= v@.len(),
            r@.len() == i,
            forall|j: int| 0 <= j < i ==> #[trigger] r@[j]@ == v@[j]@,
        decreases v@.len() - i,
    {
        r.push(v[i].clone());
        i += 1;
    }
    assert(str_views(r@) =~= str_views(v@));
    r
}

/// A copy of a table of strings.
pub fn copy_rows(t: &Vec<Vec<String>>) -> (r: Vec<Vec<String>>)
    ensures
        rows_view(r@) == rows_view(t@),
{
    let mut r: Vec<Vec<String>> = Vec::new();
    let mut i: usize = 0;
    while i < t.len()
        invariant
            i <= t@.len(),
            r@.len() == i,
            forall|j: int| 0 <= j < i ==> str_views(#[trigger] r@[j]@) == str_views(t@[j]@),
        decreases t@.len() - i,
    {
        r.push(copy_strings(&t[i]));
        i += 1;
    }
    assert(rows_view(r@) =~= rows_view(t@));
    r
}

/// A cache of query results keyed by a hash of the query text.
#[derive(Debug)]
pub struct QueryResultCache {
    cache: LruCache<String, Vec<Vec<String>>>,
}

impl QueryResultCache {
    /// The cached results, by key.
    pub closed spec fn contents(&self) -> Map<Seq<char>, Seq<Seq<Seq<char>>>> {
        self.cache.contents().map_values(|t: Vec<Vec<String>>| rows_view(t@))
    }

    /// The underlying cache's recency order.
    pub closed spec fn recency(&self) -> Seq<Seq<char>> {
        self.cache.recency()
    }

    /// The most results held.
    pub closed spec fn cap(&self) -> nat {
        self.cache.cap()
    }

    /// The cache is well formed.
    pub closed spec fn wf(&self) -> bool {
        self.cache.wf()
    }

    proof fn lemma_dom(&self)
        ensures
            self.contents().dom() == self.cache.contents().dom(),
    {
        assert(self.contents().dom() =~= self.cache.contents().dom());
    }

    /// An empty cache (a zero capacity is refused, as for `LruCache`).
    pub fn new(capacity: usize) -> (c: Self)
        requires
            capacity > 0,
        ensures
            c.wf(),
            c.cap() == capacity,
            c.contents() == Map::<Seq<char>, Seq<Seq<Seq<char>>>>::empty(),
    {
        let c = QueryResultCache { cache: LruCache::new(capacity) };
        proof {
            assert(c.contents() =~= Map::<Seq<char>, Seq<Seq<Seq<char>>>>::empty());
        }
        c
    }

    /// A copy of the cached results of a query; a hit makes it the most
    /// recently used.
    pub fn get(&mut self, query_hash: &str) -> (r: Option<Vec<Vec<String>>>)
        requires
            old(self).wf(),
        ensures
            final(self).wf(),
            final(self).cap() == old(self).cap(),
            final(self).contents() == old(self).contents(),
            match r {
                Some(t) => old(self).contents().contains_key(query_hash@) && rows_view(t@) == old(
                    self,
                ).contents()[query_hash@],
                None => !old(self).contents().contains_key(query_hash@),
            },
    {
        let key = owned(query_hash);
        let hit = self.cache.get(&key);
        match hit {
            Some(t) => {
                let r = copy_rows(t);
                Some(r)
            },
            None => None,
        }
    }

    /// Caches the results of a query.
    pub fn put(&mut self, query_hash: String, results: Vec<Vec<String>>)
        requires
            old(self).wf(),
        ensures
            final(self).wf(),
            final(self).cap() == old(self).cap(),
            final(self).contents().contains_key(query_hash@),
            final(self).contents()[query_hash@] == rows_view(results@),
            final(self).contents().len() <= final(self).cap(),
            old(self).contents().contains_key(query_hash@) || old(self).contents().len() < old(self).cap()
                ==> final(self).contents() == old(self).contents().insert(query_hash@, rows_view(results@)),
            !old(self).contents().contains_key(query_hash@) && old(self).contents().len() >= old(self).cap()
                ==> final(self).contents() == old(self).contents().remove(old(self).recency()[0]).insert(
                query_hash@,
                rows_view(results@),
            ),
    {
        let ghost rv = rows_view(results@);
        let ghost k = query_hash@;
        self.cache.put(query_hash, results);
        proof {
            self.lemma_dom();
            old(self).lemma_dom();
            if old(self).cache.contents().contains_key(k) || old(self).cache.contents().len() < old(self).cache.cap() {
                assert(self.contents() =~= old(self).contents().insert(k, rv));
            } else {
                assert(self.contents() =~= old(self).contents().remove(old(self).recency()[0]).insert(k, rv));
            }
            assert(self.contents().len() == self.cache.contents().len());
            assert(old(self).contents().len() == old(self).cache.contents().len());
        }
    }

    /// Drops the cached results of a query.
    pub fn invalidate(&mut self, query_hash: &str)
        requires
            old(self).wf(),
        ensures
            final(self).wf(),
            final(self).cap() == old(self).cap(),
            final(self).contents() == old(self).contents().remove(query_hash@),
    {
        let key = owned(query_hash);
        let _ = self.cache.remove(&key);
        proof {
            assert(self.contents() =~= old(self).contents().remove(query_hash@));
        }
    }

    /// The number of cached results.
    pub fn size(&self) -> (n: usize)
        requires
            self.wf(),
        ensures
            n == self.contents().len(),
    {
        proof {
            self.lemma_dom();
        }
        self.cache.size()
    }

    /// Drops every cached result.
    pub fn clear(&mut self)
        requires
            old(self).wf(),
        ensures
            final(self).wf(),
            final(self).cap() == old(self).cap(),
            final(self).contents() == Map::<Seq<char>, Seq<Seq<Seq<char>>>>::empty(),
    {
        self.cache.clear();
        proof {
            assert(self.contents() =~= Map::<Seq<char>, Seq<Seq<Seq<char>>>>::empty());
        }
    }
}

/// Counters of cache hits, misses and evictions.
#[derive(Debug, Clone)]
pub struct CacheStats {
    pub hits: u64,
    pub misses: u64,
    pub evictions: u64,
}

impl CacheStats {
    /// All counters at zero.
    pub fn new() -> (s: Self)
        ensures
            s.hits == 0,
            s.misses == 0,
            s.evictions == 0,
    {
        CacheStats { hits: 0, misses: 0, evictions: 0 }
    }
}

} // verus!
