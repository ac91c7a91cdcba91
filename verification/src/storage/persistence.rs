//! Key-value persistence: storage backends, tables of JSON records kept
//! under `table:id` keys, and a bounded cache of JSON values.

use vstd::prelude::*;
use crate::collections::StrMap;
use crate::util::owned;
use serde_json::Value as JsonValue;

verus! {

#[verifier::external_type_specification]
#[verifier::external_body]
pub struct ExJsonValue(JsonValue);

/// Whether bytes are a JSON text that `serde_json::from_slice` accepts.
pub uninterp spec fn json_text(bytes: Seq<u8>) -> bool;

/// The bytes that `serde_json::to_vec` writes for a JSON value.
pub uninterp spec fn json_encoding(value: JsonValue) -> Seq<u8>;

/// Serialises a JSON value with `serde_json::to_vec`, which writes the same
/// bytes for the same value (`json_encoding`). It fails only where a
/// `Serialize` impl decides to or a map has non-string keys; a
/// `serde_json::Value` does neither (its maps are keyed by `String`), so it
/// succeeds.
#[verifier::external_body]
fn json_to_bytes(value: &JsonValue) -> (r: Result<Vec<u8>, String>)
    ensures
        r is Ok,
        r is Ok ==> r->Ok_0@ == json_encoding(*value),
{
    serde_json::to_vec(value).map_err(|e| e.to_string())
}

/// The JSON value that `serde_json::from_slice` reads from JSON text: the
/// same value for the same bytes.
pub uninterp spec fn json_value(bytes: Seq<u8>) -> JsonValue;

/// Parses bytes with `serde_json::from_slice` into a JSON value: it succeeds
/// exactly on JSON text (`json_text`), with the value `json_value` names; an
/// error becomes its message.
#[verifier::external_body]
fn json_from_bytes(bytes: &[u8]) -> (r: Result<JsonValue, String>)
    ensures
        r is Ok <==> json_text(bytes@),
        r is Ok ==> r->Ok_0 == json_value(bytes@),
{
    serde_json::from_slice(bytes).map_err(|e| e.to_string())
}

/// A copy of a JSON value (`Clone` of `serde_json::Value`, which copies
/// every part of the value), equal to it.
#[verifier::external_body]
fn json_clone(value: &JsonValue) -> (r: JsonValue)
    ensures
        r == *value,
{
    value.clone()
}

/// A copy of bytes.
fn copy_bytes(b: &[u8]) -> (r: Vec<u8>)
    ensures
        r@ == b@,
{
    let mut r: Vec<u8> = Vec::new();
    let mut i: usize = 0;
    while i < b.len()
        invariant
            i <= b@.len(),
            r@ == b@.subrange(0, i as int),
        decreases b@.len() - i,
    {
        r.push(b[i]);
        proof {
            assert(r@ =~= b@.subrange(0, i + 1));
        }
        i += 1;
    }
    r
}

/// Whether `p` is a prefix of `k`.
pub open spec fn has_prefix(k: Seq<char>, p: Seq<char>) -> bool {
    p.len() <= k.len() && k.subrange(0, p.len() as int) == p
}

/// Whether `k` starts with `p`.
fn starts_with(k: &str, p: &str) -> (b: bool)
    ensures
        b == has_prefix(k@, p@),
{
    let kc = crate::util::chars_of(k);
    let pc = crate::util::chars_of(p);
    if pc.len() > kc.len() {
        return false;
    }
    let mut i: usize = 0;
    while i < pc.len()
        invariant
            kc@ == k@,
            pc@ == p@,
            pc@.len() <= kc@.len(),
            i <= pc@.len(),
            forall|j: int| 0 <= j < i ==> kc@[j] == pc@[j],
        decreases pc@.len() - i,
    {
        if kc[i] != pc[i] {
            proof {
                assert(kc@.subrange(0, pc@.len() as int)[i as int] != pc@[i as int]);
            }
            return false;
        }
        i += 1;
    }
    assert(kc@.subrange(0, pc@.len() as int) =~= pc@);
    true
}

/// The keys of a scan result.
pub open spec fn scanned_keys(r: Seq<(String, Vec<u8>)>) -> Seq<Seq<char>> {
    r.map_values(|e: (String, Vec<u8>)| e.0@)
}

/// Whether a scan result lists exactly the entries under a prefix, each once.
pub open spec fn scan_result(entries: Map<Seq<char>, Seq<u8>>, prefix: Seq<char>, r: Seq<(String, Vec<u8>)>) -> bool {
    &&& scanned_keys(r).no_duplicates()
    &&& forall|i: int|
        0 <= i < r.len() ==> has_prefix((#[trigger] r[i]).0@, prefix) && entries.contains_key(r[i].0@) && r[i].1@
            == entries[r[i].0@]
    &&& forall|k: Seq<char>| #[trigger] entries.contains_key(k) && has_prefix(k, prefix) ==> scanned_keys(r).contains(k)
}

/// A key-value store of byte strings under string keys.
pub trait StorageBackend {
    /// The stored entries.
    spec fn entries(&self) -> Map<Seq<char>, Seq<u8>>;

    /// Whether every operation of this backend succeeds.
    spec fn infallible(&self) -> bool;

    /// Stores a value under a key; when it succeeds, the key holds the value.
    fn put(&mut self, key: &str, value: &[u8]) -> (r: Result<(), String>)
        ensures
            final(self).infallible() == old(self).infallible(),
            old(self).infallible() ==> r is Ok,
            r is Ok ==> final(self).entries() == old(self).entries().insert(key@, value@),
            r is Err ==> final(self).entries() == old(self).entries();

    /// The value under a key, when it succeeds.
    fn get(&self, key: &str) -> (r: Result<Option<Vec<u8>>, String>)
        ensures
            self.infallible() ==> r is Ok,
            r matches Ok(o) ==> match o {
                Some(v) => self.entries().contains_key(key@) && v@ == self.entries()[key@],
                None => !self.entries().contains_key(key@),
            };

    /// Removes a key; when it succeeds, the key is gone.
    fn delete(&mut self, key: &str) -> (r: Result<(), String>)
        ensures
            final(self).infallible() == old(self).infallible(),
            old(self).infallible() ==> r is Ok,
            r is Ok ==> final(self).entries() == old(self).entries().remove(key@),
            r is Err ==> final(self).entries() == old(self).entries();

    /// The entries whose keys start with a prefix, when it succeeds.
    fn scan(&self, prefix: &str) -> (r: Result<Vec<(String, Vec<u8>)>, String>)
        ensures
            self.infallible() ==> r is Ok,
            r matches Ok(v) ==> scan_result(self.entries(), prefix@, v@);

    /// Writes pending data out.
    fn flush(&mut self) -> (r: Result<(), String>)
        ensures
            final(self).infallible() == old(self).infallible(),
            old(self).infallible() ==> r is Ok,
            final(self).entries() == old(self).entries();

    /// Reorganises the stored data.
    fn compact(&mut self) -> (r: Result<(), String>)
        ensures
            final(self).infallible() == old(self).infallible(),
            old(self).infallible() ==> r is Ok,
            final(self).entries() == old(self).entries();
}

/// A backend that keeps its entries in memory.
#[derive(Debug)]
pub struct InMemoryBackend {
    data: StrMap<Vec<u8>>,
}

/// The byte strings of a map of byte vectors.
pub open spec fn byte_entries(m: Map<Seq<char>, Vec<u8>>) -> Map<Seq<char>, Seq<u8>> {
    m.map_values(|v: Vec<u8>| v@)
}

impl InMemoryBackend {
    /// An empty store.
    pub fn new() -> (b: Self)
        ensures
            b.entries() == Map::<Seq<char>, Seq<u8>>::empty(),
    {
        let b = InMemoryBackend { data: StrMap::new() };
        assert(b.entries() =~= Map::<Seq<char>, Seq<u8>>::empty());
        b
    }

    /// The number of entries.
    pub fn get_size(&self) -> (n: usize)
        ensures
            n == self.entries().len(),
    {
        proof {
            assert(self.entries().dom() =~= self.data@.dom());
        }
        self.data.len()
    }

    /// Removes every entry.
    pub fn clear(&mut self)
        ensures
            final(self).entries() == Map::<Seq<char>, Seq<u8>>::empty(),
    {
        self.data.clear();
        assert(self.entries() =~= Map::<Seq<char>, Seq<u8>>::empty());
    }
}

impl StorageBackend for InMemoryBackend {
    closed spec fn entries(&self) -> Map<Seq<char>, Seq<u8>> {
        byte_entries(self.data@)
    }

    open spec fn infallible(&self) -> bool {
        true
    }

    fn put(&mut self, key: &str, value: &[u8]) -> (r: Result<(), String>)
        ensures
            r is Ok,
    {
        let _ = self.data.insert(owned(key), copy_bytes(value));
        proof {
            assert(self.entries() =~= old(self).entries().insert(key@, value@));
        }
        Ok(())
    }

    fn get(&self, key: &str) -> (r: Result<Option<Vec<u8>>, String>)
        ensures
            r is Ok,
    {
        match self.data.get(key) {
            Some(v) => Ok(Some(copy_bytes(v.as_slice()))),
            None => Ok(None),
        }
    }

    fn delete(&mut self, key: &str) -> (r: Result<(), String>)
        ensures
            r is Ok,
    {
        let _ = self.data.remove(key);
        proof {
            assert(self.entries() =~= old(self).entries().remove(key@));
        }
        Ok(())
    }

    fn scan(&self, prefix: &str) -> (r: Result<Vec<(String, Vec<u8>)>, String>)
        ensures
            r is Ok,
    {
        let n = self.data.len();
        let mut result: Vec<(String, Vec<u8>)> = Vec::new();
        let mut i: usize = 0;
        proof {
            use_type_invariant(&self.data);
            self.data.lemma_view_consistent();
        }
        while i < n
            invariant
                n == self.data.key_order().len(),
                i <= n,
                self.data.key_order().no_duplicates(),
                forall|k: Seq<char>| #[trigger] self.data@.contains_key(k) <==> self.data.key_order().contains(k),
                forall|j: int| 0 <= j < self.data.key_order().len() ==> #[trigger] self.data@.contains_key(
                    self.data.key_order()[j],
                ),
                forall|a: int, b: int| 0 <= a < b < result@.len() ==> scanned_keys(result@)[a] != scanned_keys(result@)[b],
                forall|a: int|
                    0 <= a < result@.len() ==> exists|j: int| 0 <= j < i && (#[trigger] result@[a]).0@ == self.data.key_order()[j],
                forall|a: int|
                    0 <= a < result@.len() ==> has_prefix((#[trigger] result@[a]).0@, prefix@) && self.entries().contains_key(
                        result@[a].0@,
                    ) && result@[a].1@ == self.entries()[result@[a].0@],
                forall|j: int|
                    0 <= j < i && has_prefix(#[trigger] self.data.key_order()[j], prefix@) ==> scanned_keys(
                        result@,
                    ).contains(self.data.key_order()[j]),
            decreases n - i,
        {
            let (k, v) = self.data.entry_at(i);
            if starts_with(k.as_str(), prefix) {
                let ghost before = result@;
                proof {
                    assert forall|a: int| 0 <= a < before.len() implies scanned_keys(before)[a] != k@ by {
                        let j = choose|j: int| 0 <= j < i && before[a].0@ == self.data.key_order()[j];
                        assert(self.data.key_order()[j] != self.data.key_order()[i as int]);
                    }
                }
                result.push((k.clone(), copy_bytes(v.as_slice())));
                proof {
                    assert(scanned_keys(result@) =~= scanned_keys(before).push(k@));
                    assert forall|j: int|
                        0 <= j < i + 1 && has_prefix(#[trigger] self.data.key_order()[j], prefix@) implies scanned_keys(
                            result@,
                        ).contains(self.data.key_order()[j]) by {
                        if j < i {
                            let a = choose|a: int| 0 <= a < scanned_keys(before).len() && scanned_keys(before)[a] == self.data.key_order()[j];
                            assert(scanned_keys(result@)[a] == self.data.key_order()[j]);
                        } else {
                            assert(scanned_keys(result@)[before.len() as int] == k@);
                        }
                    }
                    assert forall|a: int|
                        0 <= a < result@.len() implies exists|j: int| 0 <= j < i + 1 && (#[trigger] result@[a]).0@ == self.data.key_order()[j] by {
                        if a < before.len() {
                            assert(result@[a] == before[a]);
                        } else {
                            assert(result@[a].0@ == self.data.key_order()[i as int]);
                        }
                    }
                }
            }
            i += 1;
        }
        proof {
            assert(scanned_keys(result@).no_duplicates());
            assert forall|k: Seq<char>| #[trigger] self.entries().contains_key(k) && has_prefix(k, prefix@) implies scanned_keys(
                result@,
            ).contains(k) by {
                assert(self.data@.contains_key(k));
                assert(self.data.key_order().contains(k));
                let j = choose|j: int| 0 <= j < self.data.key_order().len() && self.data.key_order()[j] == k;
                assert(has_prefix(self.data.key_order()[j], prefix@));
            }
        }
        Ok(result)
    }

    fn flush(&mut self) -> (r: Result<(), String>)
        ensures
            r is Ok,
    {
        Ok(())
    }

    fn compact(&mut self) -> (r: Result<(), String>)
        ensures
            r is Ok,
    {
        Ok(())
    }
}


/// The production backend: a store at a path, kept for now in memory.
#[derive(Debug)]
pub struct RocksDbBackend {
    pub path: String,
    fallback: InMemoryBackend,
}

impl RocksDbBackend {
    /// The path of the store.
    pub closed spec fn location(&self) -> Seq<char> {
        self.path@
    }

    /// An empty store at a path.
    pub fn new(path: &str) -> (r: Result<Self, String>)
        ensures
            r matches Ok(b) && b.location() == path@ && b.entries() == Map::<Seq<char>, Seq<u8>>::empty(),
    {
        Ok(RocksDbBackend { path: owned(path), fallback: InMemoryBackend::new() })
    }

    /// The number of entries.
    pub fn entry_count(&self) -> (n: usize)
        ensures
            n == self.entries().len(),
    {
        self.fallback.get_size()
    }
}

impl StorageBackend for RocksDbBackend {
    closed spec fn entries(&self) -> Map<Seq<char>, Seq<u8>> {
        self.fallback.entries()
    }

    open spec fn infallible(&self) -> bool {
        true
    }

    fn put(&mut self, key: &str, value: &[u8]) -> (r: Result<(), String>)
        ensures
            r is Ok,
    {
        self.fallback.put(key, value)
    }

    fn get(&self, key: &str) -> (r: Result<Option<Vec<u8>>, String>)
        ensures
            r is Ok,
    {
        self.fallback.get(key)
    }

    fn delete(&mut self, key: &str) -> (r: Result<(), String>)
        ensures
            r is Ok,
    {
        self.fallback.delete(key)
    }

    fn scan(&self, prefix: &str) -> (r: Result<Vec<(String, Vec<u8>)>, String>)
        ensures
            r is Ok,
    {
        self.fallback.scan(prefix)
    }

    fn flush(&mut self) -> (r: Result<(), String>)
        ensures
            r is Ok,
    {
        self.fallback.flush()
    }

    fn compact(&mut self) -> (r: Result<(), String>)
        ensures
            r is Ok,
    {
        self.fallback.compact()
    }
}

/// The key prefix of a table's records: its name and a colon.
pub open spec fn table_prefix(table: Seq<char>) -> Seq<char> {
    table.push(':')
}

/// The ids of the JSON records of a table among some entries.
pub open spec fn json_ids(entries: Map<Seq<char>, Seq<u8>>, table: Seq<char>) -> Set<Seq<char>> {
    Set::new(
        |id: Seq<char>|
            entries.contains_key(table_prefix(table) + id) && json_text(entries[table_prefix(table) + id]),
    )
}

/// The ids of the scanned entries whose bytes are JSON text: each key
/// without its first `plen` characters, in scan order.
pub open spec fn json_record_ids(entries: Seq<(String, Vec<u8>)>, plen: int) -> Seq<Seq<char>>
    decreases entries.len(),
{
    if entries.len() == 0 {
        Seq::empty()
    } else {
        let rest = json_record_ids(entries.drop_last(), plen);
        let e = entries.last();
        if json_text(e.1@) {
            rest.push(e.0@.subrange(plen, e.0@.len() as int))
        } else {
            rest
        }
    }
}

/// The ids of the JSON entries of a scan under a prefix: an id is listed
/// exactly when the prefixed key was scanned with JSON bytes.
proof fn lemma_json_record_ids_members(entries: Seq<(String, Vec<u8>)>, p: Seq<char>)
    requires
        scanned_keys(entries).no_duplicates(),
        forall|j: int| 0 <= j < entries.len() ==> has_prefix((#[trigger] entries[j]).0@, p),
    ensures
        json_record_ids(entries, p.len() as int).no_duplicates(),
        forall|id: Seq<char>|
            #[trigger] json_record_ids(entries, p.len() as int).contains(id) <==> exists|j: int|
                0 <= j < entries.len() && json_text(entries[j].1@) && (#[trigger] entries[j]).0@ == p + id,
    decreases entries.len(),
{
    let plen = p.len() as int;
    if entries.len() > 0 {
        let d = entries.drop_last();
        assert(scanned_keys(d) =~= scanned_keys(entries).drop_last());
        assert forall|j: int| 0 <= j < d.len() implies has_prefix((#[trigger] d[j]).0@, p) by {
            assert(d[j] == entries[j]);
        }
        lemma_json_record_ids_members(d, p);
        let e = entries.last();
        let k = e.0@;
        assert(has_prefix(entries[entries.len() - 1].0@, p));
        assert(p + k.subrange(plen, k.len() as int) =~= k) by {
            assert(k.subrange(0, plen) =~= p);
        }
        let rest = json_record_ids(d, plen);
        assert forall|id: Seq<char>|
            #[trigger] json_record_ids(entries, plen).contains(id) <==> exists|j: int|
                0 <= j < entries.len() && json_text(entries[j].1@) && (#[trigger] entries[j]).0@ == p + id by {
            if json_record_ids(entries, plen).contains(id) {
                if rest.contains(id) {
                    let j = choose|j: int| 0 <= j < d.len() && json_text(d[j].1@) && (#[trigger] d[j]).0@ == p + id;
                    assert(entries[j] == d[j]);
                } else {
                    if !json_text(e.1@) {
                        assert(json_record_ids(entries, plen) == rest);
                    }
                    assert(json_text(e.1@));
                    assert(json_record_ids(entries, plen) == rest.push(k.subrange(plen, k.len() as int)));
                    assert(id == k.subrange(plen, k.len() as int));
                    assert(entries[entries.len() - 1].0@ == p + id);
                }
            }
            if exists|j: int| 0 <= j < entries.len() && json_text(entries[j].1@) && (#[trigger] entries[j]).0@ == p + id {
                let j = choose|j: int| 0 <= j < entries.len() && json_text(entries[j].1@) && (#[trigger] entries[j]).0@ == p + id;
                if j < entries.len() - 1 {
                    assert(d[j] == entries[j]);
                    assert(rest.contains(id));
                    let a = choose|a: int| 0 <= a < rest.len() && rest[a] == id;
                    if json_text(e.1@) {
                        assert(json_record_ids(entries, plen) == rest.push(k.subrange(plen, k.len() as int)));
                        assert(json_record_ids(entries, plen)[a] == id);
                    } else {
                        assert(json_record_ids(entries, plen) == rest);
                    }
                } else {
                    assert((p + id).subrange(plen, (p + id).len() as int) =~= id);
                    assert(json_record_ids(entries, plen).last() == id);
                }
            }
        }
        if json_text(e.1@) {
            let x = k.subrange(plen, k.len() as int);
            if rest.contains(x) {
                let j = choose|j: int| 0 <= j < d.len() && json_text(d[j].1@) && (#[trigger] d[j]).0@ == p + x;
                assert(scanned_keys(entries)[j] == scanned_keys(entries)[entries.len() - 1]);
            }
            assert(json_record_ids(entries, plen) == rest.push(x));
        }
    }
}

/// The JSON ids of a scan of a table's prefix are the table's JSON ids.
proof fn lemma_json_record_ids(stored: Map<Seq<char>, Seq<u8>>, table: Seq<char>, entries: Seq<(String, Vec<u8>)>)
    requires
        scan_result(stored, table_prefix(table), entries),
    ensures
        json_record_ids(entries, table_prefix(table).len() as int).no_duplicates(),
        json_record_ids(entries, table_prefix(table).len() as int).to_set() == json_ids(stored, table),
{
    let p = table_prefix(table);
    lemma_json_record_ids_members(entries, p);
    let ids = json_record_ids(entries, p.len() as int);
    assert forall|id: Seq<char>| #[trigger] ids.to_set().contains(id) <==> json_ids(stored, table).contains(id) by {
        if ids.contains(id) {
            let j = choose|j: int| 0 <= j < entries.len() && json_text(entries[j].1@) && (#[trigger] entries[j]).0@ == p + id;
            assert(stored.contains_key(p + id));
        }
        if json_ids(stored, table).contains(id) {
            assert(has_prefix(p + id, p)) by {
                assert((p + id).subrange(0, p.len() as int) =~= p);
            }
            assert(scanned_keys(entries).contains(p + id));
            let j = choose|j: int| 0 <= j < scanned_keys(entries).len() && scanned_keys(entries)[j] == p + id;
            assert(entries[j].0@ == p + id);
            assert(entries[j].1@ == stored[p + id]);
        }
    }
    assert(ids.to_set() =~= json_ids(stored, table));
}

/// A table of JSON records stored in a backend under `table:id` keys.
pub struct PersistentTable<B: StorageBackend> {
    backend: B,
    table_name: String,
}

/// The ids of a scan of a table's records.
pub open spec fn record_ids(r: Seq<(String, JsonValue)>) -> Seq<Seq<char>> {
    r.map_values(|e: (String, JsonValue)| e.0@)
}

impl<B: StorageBackend> PersistentTable<B> {
    /// The entries of the backend.
    pub closed spec fn stored(&self) -> Map<Seq<char>, Seq<u8>> {
        self.backend.entries()
    }

    /// The table's name.
    pub closed spec fn name(&self) -> Seq<char> {
        self.table_name@
    }

    /// Whether the backend's operations all succeed.
    pub closed spec fn backend_infallible(&self) -> bool {
        self.backend.infallible()
    }

    /// A table over a backend.
    pub fn new(backend: B, table_name: String) -> (t: Self)
        ensures
            t.stored() == backend.entries(),
            t.name() == table_name@,
            t.backend_infallible() == backend.infallible(),
    {
        PersistentTable { backend, table_name }
    }

    /// The key of a record: the table's name, a colon and the id.
    fn make_key(&self, id: &str) -> (k: String)
        ensures
            k@ == table_prefix(self.name()) + id@,
    {
        let mut k = self.make_prefix();
        k.append(id);
        k
    }

    /// The prefix of the table's keys.
    fn make_prefix(&self) -> (k: String)
        ensures
            k@ == table_prefix(self.name()),
    {
        let mut k = owned(self.table_name.as_str());
        k.append(":");
        proof {
            reveal_strlit(":");
            assert(k@ =~= table_prefix(self.name()));
        }
        k
    }

    /// Stores a record as JSON under its id (or updates it); the error of the
    /// serialisation or of the backend, if any.
    pub fn put(&mut self, id: &str, data: &JsonValue) -> (r: Result<(), String>)
        ensures
            final(self).name() == old(self).name(),
            final(self).backend_infallible() == old(self).backend_infallible(),
            old(self).backend_infallible() ==> r is Ok,
            r is Ok ==> final(self).stored() == old(self).stored().insert(
                table_prefix(old(self).name()) + id@,
                json_encoding(*data),
            ),
            r is Err ==> final(self).stored() == old(self).stored(),
    {
        let key = self.make_key(id);
        let value = match json_to_bytes(data) {
            Ok(v) => v,
            Err(e) => {
                return Err(e);
            },
        };
        let r = self.backend.put(key.as_str(), value.as_slice());
        proof {
            if r is Ok {
                assert(self.stored() == old(self).stored().insert(table_prefix(old(self).name()) + id@, value@));
            }
        }
        r
    }

    /// The record under an id, read back from JSON: none when the key is
    /// absent, an error when its bytes are not JSON or the backend fails.
    pub fn get(&self, id: &str) -> (r: Result<Option<JsonValue>, String>)
        ensures
            r matches Ok(Some(_)) ==> self.stored().contains_key(table_prefix(self.name()) + id@) && json_text(
                self.stored()[table_prefix(self.name()) + id@],
            ),
            r matches Ok(Some(v)) ==> v == json_value(self.stored()[table_prefix(self.name()) + id@]),
            r matches Ok(None) ==> !self.stored().contains_key(table_prefix(self.name()) + id@),
            self.stored().contains_key(table_prefix(self.name()) + id@) && !json_text(
                self.stored()[table_prefix(self.name()) + id@],
            ) ==> r is Err,
            self.backend_infallible() ==> (r is Err <==> self.stored().contains_key(table_prefix(self.name()) + id@)
                && !json_text(self.stored()[table_prefix(self.name()) + id@])),
    {
        let key = self.make_key(id);
        match self.backend.get(key.as_str()) {
            Err(e) => Err(e),
            Ok(None) => Ok(None),
            Ok(Some(bytes)) => match json_from_bytes(bytes.as_slice()) {
                Ok(v) => Ok(Some(v)),
                Err(e) => Err(e),
            },
        }
    }

    /// Removes the record under an id.
    pub fn delete(&mut self, id: &str) -> (r: Result<(), String>)
        ensures
            final(self).name() == old(self).name(),
            final(self).backend_infallible() == old(self).backend_infallible(),
            old(self).backend_infallible() ==> r is Ok,
            r is Ok ==> final(self).stored() == old(self).stored().remove(table_prefix(old(self).name()) + id@),
            r is Err ==> final(self).stored() == old(self).stored(),
    {
        let key = self.make_key(id);
        self.backend.delete(key.as_str())
    }

    /// The table's records that read back as JSON, with their ids, in the
    /// backend's scan order; the backend's error, if any.
    pub fn scan_all(&self) -> (r: Result<Vec<(String, JsonValue)>, String>)
        ensures
            self.backend_infallible() ==> r is Ok,
            r matches Ok(v) ==> {
                &&& record_ids(v@).no_duplicates()
                &&& record_ids(v@).to_set() == json_ids(self.stored(), self.name())
                &&& forall|i: int|
                    0 <= i < v@.len() ==> (#[trigger] v@[i]).1 == json_value(
                        self.stored()[table_prefix(self.name()) + v@[i].0@],
                    )
            },
    {
        let prefix = self.make_prefix();
        let entries = match self.backend.scan(prefix.as_str()) {
            Ok(e) => e,
            Err(e) => {
                return Err(e);
            },
        };
        let ghost p = table_prefix(self.name());
        let plen = crate::util::chars_of(prefix.as_str()).len();
        let mut result: Vec<(String, JsonValue)> = Vec::new();
        let mut i: usize = 0;
        while i < entries.len()
            invariant
                i <= entries@.len(),
                p == prefix@,
                plen == p.len(),
                forall|j: int| 0 <= j < entries@.len() ==> has_prefix((#[trigger] entries@[j]).0@, p),
                record_ids(result@) == json_record_ids(entries@.subrange(0, i as int), plen as int),
                scan_result(self.stored(), p, entries@),
                forall|k: int| 0 <= k < result@.len() ==> (#[trigger] result@[k]).1 == json_value(
                    self.stored()[p + result@[k].0@],
                ),
            decreases entries@.len() - i,
        {
            let (key, bytes) = &entries[i];
            let kc = crate::util::chars_of(key.as_str());
            proof {
                assert(has_prefix(entries@[i as int].0@, p));
                assert(entries@.subrange(0, i + 1).drop_last() =~= entries@.subrange(0, i as int));
            }
            let id_chars = crate::util::chars_from(kc.as_slice(), plen);
            let id = crate::util::string_from_chars(id_chars.as_slice());
            match json_from_bytes(bytes.as_slice()) {
                Ok(v) => {
                    let ghost before = result@;
                    proof {
                        let key_v = entries@[i as int].0@;
                        assert(key_v.subrange(0, plen as int) =~= p);
                        assert(p + id@ =~= key_v);
                        assert(bytes@ == self.stored()[key_v]);
                    }
                    result.push((id, v));
                    proof {
                        assert(record_ids(result@) =~= record_ids(before).push(id@));
                        assert forall|k: int| 0 <= k < result@.len() implies (#[trigger] result@[k]).1 == json_value(
                            self.stored()[p + result@[k].0@],
                        ) by {
                            if k < before.len() {
                                assert(result@[k] == before[k]);
                            }
                        }
                    }
                },
                Err(_) => {},
            }
            i += 1;
        }
        proof {
            assert(entries@.subrange(0, i as int) =~= entries@);
            lemma_json_record_ids(self.stored(), self.name(), entries@);
        }
        Ok(result)
    }

    /// Stores records one after another; stops at the first error.
    pub fn batch_insert(&mut self, records: Vec<(String, JsonValue)>) -> (r: Result<usize, String>)
        ensures
            final(self).name() == old(self).name(),
            final(self).backend_infallible() == old(self).backend_infallible(),
            old(self).backend_infallible() ==> r is Ok,
            r matches Ok(n) ==> n == records@.len() && final(self).stored().dom() == old(self).stored().dom().union(
                record_ids(records@).map_values(|id: Seq<char>| table_prefix(old(self).name()) + id).to_set(),
            ),
    {
        let mut count: usize = 0;
        let ghost keys0 = self.stored().dom();
        while count < records.len()
            invariant
                count <= records@.len(),
                self.name() == old(self).name(),
                self.backend_infallible() == old(self).backend_infallible(),
                keys0 == old(self).stored().dom(),
                self.stored().dom() == keys0.union(
                    record_ids(records@.subrange(0, count as int)).map_values(|id: Seq<char>| table_prefix(self.name()) + id).to_set(),
                ),
            decreases records@.len() - count,
        {
            let ghost before = self.stored().dom();
            let (id, data) = &records[count];
            match self.put(id.as_str(), data) {
                Ok(()) => {},
                Err(e) => {
                    return Err(e);
                },
            }
            proof {
                let f = |id: Seq<char>| table_prefix(self.name()) + id;
                let s0 = record_ids(records@.subrange(0, count as int)).map_values(f);
                let s1 = record_ids(records@.subrange(0, count + 1)).map_values(f);
                assert(s1 =~= s0.push(table_prefix(self.name()) + id@));
                s0.lemma_push_to_set_commute(table_prefix(self.name()) + id@);
                assert(s1.to_set() == s0.to_set().insert(table_prefix(self.name()) + id@));
                assert(self.stored().dom() =~= before.insert(table_prefix(self.name()) + id@));
                assert(self.stored().dom() =~= keys0.union(s1.to_set()));
            }
            count += 1;
        }
        proof {
            assert(records@.subrange(0, count as int) =~= records@);
        }
        Ok(count)
    }

    /// The number of the table's records that read back as JSON.
    pub fn count(&self) -> (r: Result<usize, String>)
        ensures
            self.backend_infallible() ==> r is Ok,
            r matches Ok(n) ==> n == json_ids(self.stored(), self.name()).len(),
    {
        let all = match self.scan_all() {
            Ok(v) => v,
            Err(e) => {
                return Err(e);
            },
        };
        proof {
            record_ids(all@).unique_seq_to_set();
        }
        Ok(all.len())
    }
}

/// A bounded cache of JSON values: when it is full, storing a new key first
/// evicts the oldest key.
pub struct CacheLayer {
    cache: StrMap<JsonValue>,
    max_size: usize,
}

impl CacheLayer {
    /// The cached values.
    pub closed spec fn values(&self) -> Map<Seq<char>, JsonValue> {
        self.cache@
    }

    /// The keys, oldest first.
    pub closed spec fn age_order(&self) -> Seq<Seq<char>> {
        self.cache.key_order()
    }

    /// The most values kept before evicting.
    pub closed spec fn limit(&self) -> usize {
        self.max_size
    }

    /// An empty cache.
    pub fn new(max_size: usize) -> (c: Self)
        ensures
            c.values() == Map::<Seq<char>, JsonValue>::empty(),
            c.limit() == max_size,
    {
        CacheLayer { cache: StrMap::new(), max_size }
    }

    /// A copy of the value under a key.
    pub fn get(&self, key: &str) -> (r: Option<JsonValue>)
        ensures
            match r {
                Some(v) => self.values().contains_key(key@) && v == self.values()[key@],
                None => !self.values().contains_key(key@),
            },
    {
        match self.cache.get(key) {
            Some(v) => Some(json_clone(v)),
            None => None,
        }
    }

    /// Stores a value; a new key in a full cache first evicts the oldest key.
    pub fn put(&mut self, key: String, value: JsonValue)
        ensures
            final(self).limit() == old(self).limit(),
            final(self).values() == (if old(self).values().len() >= old(self).limit() && !old(self).values().contains_key(
                key@,
            ) && old(self).age_order().len() > 0 {
                old(self).values().remove(old(self).age_order()[0])
            } else {
                old(self).values()
            }).insert(key@, value),
    {
        proof {
            use_type_invariant(&self.cache);
            self.cache.lemma_view_consistent();
        }
        if self.cache.len() >= self.max_size && !self.cache.contains_key(key.as_str()) {
            if self.cache.len() > 0 {
                let first = {
                    let (k, _) = self.cache.entry_at(0);
                    owned(k.as_str())
                };
                let _ = self.cache.remove(first.as_str());
            }
        }
        let _ = self.cache.insert(key, value);
    }

    /// Removes a key.
    pub fn invalidate(&mut self, key: &str)
        ensures
            final(self).values() == old(self).values().remove(key@),
            final(self).limit() == old(self).limit(),
    {
        let _ = self.cache.remove(key);
    }

    /// Removes every value.
    pub fn clear(&mut self)
        ensures
            final(self).values() == Map::<Seq<char>, JsonValue>::empty(),
            final(self).limit() == old(self).limit(),
    {
        self.cache.clear();
    }

    /// The number of cached values.
    pub fn len(&self) -> (n: usize)
        ensures
            n == self.values().len(),
    {
        self.cache.len()
    }
}

/// A store read back gives what was written: after a successful `put`, a
/// successful `get` of the key gives the value; after a successful
/// `delete`, it gives nothing; other keys are untouched by both.
pub proof fn lemma_backend_read_of_write(entries: Map<Seq<char>, Seq<u8>>, key: Seq<char>, value: Seq<u8>, other: Seq<char>)
    requires
        other != key,
    ensures
        entries.insert(key, value).contains_key(key),
        entries.insert(key, value)[key] == value,
        !entries.remove(key).contains_key(key),
        entries.insert(key, value).contains_key(other) == entries.contains_key(other),
        entries.remove(key).contains_key(other) == entries.contains_key(other),
        entries.contains_key(other) ==> entries.insert(key, value)[other] == entries[other] && entries.remove(
            key,
        )[other] == entries[other],
{
}

} // verus!
