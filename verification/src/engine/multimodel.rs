//! The multi-model stores: tables of rows, collections of JSON documents and
//! graphs of vertices and edges, each kept by name.

use vstd::prelude::*;
use crate::collections::StrMap;
use crate::idmap::IdMap;
use crate::types::{
    copy_value_map, value_models, ColumnDef, Document, GraphEdge, GraphNode, RecordId, Row, TableMetadata, Value,
    ValueModel,
};
use crate::util::{now_millis, owned};

verus! {

/// The errors of the stores.
#[derive(Debug, Clone, PartialEq, Eq)]
pub enum StoreError {
    /// A table of this name exists already.
    TableExists(String),
    /// A table needs at least one column.
    NoColumns,
    /// No table has this name.
    TableMissing(String),
    /// A collection of this name exists already.
    CollectionExists(String),
    /// No collection has this name.
    CollectionMissing(String),
    /// A graph of this name exists already.
    GraphExists(String),
    /// No graph has this name.
    GraphMissing(String),
}

/// The tables: for each name, its rows by id and its metadata.
#[derive(Debug)]
pub struct TableStore {
    tables: StrMap<IdMap<Row>>,
    metadata: StrMap<TableMetadata>,
}

impl TableStore {
    /// Every table has rows and metadata.
    pub closed spec fn wf(&self) -> bool {
        self.tables@.dom() == self.metadata@.dom()
    }

    /// Whether a table exists.
    pub closed spec fn has_table(&self, t: Seq<char>) -> bool {
        self.metadata@.contains_key(t)
    }

    /// The rows of a table by id.
    pub closed spec fn rows_of(&self, t: Seq<char>) -> Map<RecordId, Row> {
        self.tables@[t]@
    }

    /// The ids of a table's rows, in the order first inserted.
    pub closed spec fn row_order(&self, t: Seq<char>) -> Seq<RecordId> {
        self.tables@[t].key_order()
    }

    /// The metadata of a table.
    pub closed spec fn meta_of(&self, t: Seq<char>) -> TableMetadata {
        self.metadata@[t]
    }

    /// The table names, in the order created.
    pub closed spec fn table_order(&self) -> Seq<Seq<char>> {
        self.metadata.key_order()
    }

    /// A store without tables.
    pub fn new() -> (s: Self)
        ensures
            s.wf(),
            forall|t: Seq<char>| !#[trigger] s.has_table(t),
            s.table_order() == Seq::<Seq<char>>::empty(),
    {
        let s = TableStore { tables: StrMap::new(), metadata: StrMap::new() };
        assert(s.tables@.dom() =~= s.metadata@.dom());
        s
    }

    /// Creates an empty table whose primary key is its first column; refused
    /// for an existing name or an empty column list.
    pub fn create_table(&mut self, table_name: String, columns: Vec<ColumnDef>) -> (r: Result<(), StoreError>)
        requires
            old(self).wf(),
        ensures
            final(self).wf(),
            old(self).has_table(table_name@) ==> (r matches Err(StoreError::TableExists(n)) && n@ == table_name@)
                && *final(self) == *old(self),
            !old(self).has_table(table_name@) && columns@.len() == 0 ==> r == Err::<(), StoreError>(StoreError::NoColumns)
                && *final(self) == *old(self),
            !old(self).has_table(table_name@) && columns@.len() > 0 ==> {
                &&& r is Ok
                &&& final(self).has_table(table_name@)
                &&& final(self).rows_of(table_name@) == Map::<RecordId, Row>::empty()
                &&& final(self).meta_of(table_name@).name@ == table_name@
                &&& final(self).meta_of(table_name@).primary_key@ == columns@[0].name@
                &&& final(self).meta_of(table_name@).columns@ == columns@
                &&& final(self).meta_of(table_name@).row_count == 0
                &&& final(self).table_order() == old(self).table_order().push(table_name@)
                &&& forall|t: Seq<char>| t != table_name@ ==> (#[trigger] final(self).has_table(t) == old(self).has_table(t)
                    && final(self).rows_of(t) == old(self).rows_of(t) && final(self).meta_of(t) == old(self).meta_of(t)
                    && final(self).row_order(t) == old(self).row_order(t))
            },
    {
        if self.metadata.contains_key(table_name.as_str()) {
            return Err(StoreError::TableExists(table_name));
        }
        if columns.len() == 0 {
            return Err(StoreError::NoColumns);
        }
        let pk = columns[0].name.clone();
        let mut meta = TableMetadata::new(table_name.clone(), pk);
        meta.columns = columns;
        let _ = self.tables.insert(table_name.clone(), IdMap::new());
        let _ = self.metadata.insert(table_name, meta);
        proof {
            assert(self.tables@.dom() =~= self.metadata@.dom());
        }
        Ok(())
    }

    /// Stores a row in a table under its id (replacing a row of that id) and
    /// counts it in the metadata; refused for a missing table.
    pub fn insert_row(&mut self, table_name: &str, row: Row) -> (r: Result<RecordId, StoreError>)
        requires
            old(self).wf(),
            old(self).has_table(table_name@) ==> old(self).meta_of(table_name@).row_count < u64::MAX,
        ensures
            final(self).wf(),
            !old(self).has_table(table_name@) ==> (r matches Err(StoreError::TableMissing(n)) && n@ == table_name@)
                && *final(self) == *old(self),
            old(self).has_table(table_name@) ==> {
                &&& r == Ok::<RecordId, StoreError>(row.id)
                &&& final(self).rows_of(table_name@) == old(self).rows_of(table_name@).insert(row.id, row)
                &&& final(self).meta_of(table_name@) == (TableMetadata {
                    row_count: (old(self).meta_of(table_name@).row_count + 1) as u64,
                    ..old(self).meta_of(table_name@)
                })
                &&& final(self).row_order(table_name@) == (if old(self).rows_of(table_name@).contains_key(row.id) {
                    old(self).row_order(table_name@)
                } else {
                    old(self).row_order(table_name@).push(row.id)
                })
            },
            old(self).has_table(table_name@) ==> final(self).table_order() == old(self).table_order(),
            forall|t: Seq<char>| t != table_name@ ==> (#[trigger] final(self).has_table(t) == old(self).has_table(t)
                && final(self).rows_of(t) == old(self).rows_of(t) && final(self).meta_of(t) == old(self).meta_of(t)
                && final(self).row_order(t) == old(self).row_order(t)),
            forall|t: Seq<char>| #[trigger] final(self).has_table(t) == old(self).has_table(t),
    {
        if !self.metadata.contains_key(table_name) {
            return Err(StoreError::TableMissing(owned(table_name)));
        }
        let mut rows = match self.tables.insert(owned(table_name), IdMap::new()) {
            Some(r) => r,
            None => {
                return Err(StoreError::TableMissing(owned(table_name)));
            },
        };
        let id = row.id;
        let _ = rows.insert(id, row);
        let _ = self.tables.insert(owned(table_name), rows);
        let mut meta = match self.metadata.insert(owned(table_name), TableMetadata::new(String::new(), String::new())) {
            Some(m) => m,
            None => {
                return Err(StoreError::TableMissing(owned(table_name)));
            },
        };
        meta.row_count = meta.row_count + 1;
        let _ = self.metadata.insert(owned(table_name), meta);
        proof {
            assert(self.tables@.dom() =~= self.metadata@.dom());
        }
        Ok(id)
    }

    /// A copy of the row of a table with an id, if any; refused for a
    /// missing table.
    pub fn get_row(&self, table_name: &str, record_id: RecordId) -> (r: Result<Option<Row>, StoreError>)
        requires
            self.wf(),
        ensures
            !self.has_table(table_name@) ==> (r matches Err(StoreError::TableMissing(n)) && n@ == table_name@),
            self.has_table(table_name@) ==> (r matches Ok(o) && match o {
                Some(x) => self.rows_of(table_name@).contains_key(record_id) && x@ == self.rows_of(table_name@)[record_id]@
                    && x.id == self.rows_of(table_name@)[record_id].id,
                None => !self.rows_of(table_name@).contains_key(record_id),
            }),
    {
        if !self.metadata.contains_key(table_name) {
            return Err(StoreError::TableMissing(owned(table_name)));
        }
        match self.tables.get(table_name) {
            Some(rows) => match rows.get(record_id) {
                Some(row) => Ok(Some(row.duplicate())),
                None => Ok(None),
            },
            None => Err(StoreError::TableMissing(owned(table_name))),
        }
    }

    /// Copies of all rows of a table, in the order first inserted; refused
    /// for a missing table.
    pub fn get_all_rows(&self, table_name: &str) -> (r: Result<Vec<Row>, StoreError>)
        requires
            self.wf(),
        ensures
            !self.has_table(table_name@) ==> (r matches Err(StoreError::TableMissing(n)) && n@ == table_name@),
            self.has_table(table_name@) ==> (r matches Ok(v) && v@.len() == self.row_order(table_name@).len() && forall|i: int|
                0 <= i < v@.len() ==> (#[trigger] v@[i]).id == self.rows_of(table_name@)[self.row_order(table_name@)[i]].id
                    && v@[i]@ == self.rows_of(table_name@)[self.row_order(table_name@)[i]]@),
    {
        if !self.metadata.contains_key(table_name) {
            return Err(StoreError::TableMissing(owned(table_name)));
        }
        let rows = match self.tables.get(table_name) {
            Some(rows) => rows,
            None => {
                return Err(StoreError::TableMissing(owned(table_name)));
            },
        };
        let n = rows.len();
        let mut out: Vec<Row> = Vec::new();
        let mut i: usize = 0;
        while i < n
            invariant
                n == rows.key_order().len(),
                i <= n,
                out@.len() == i,
                forall|j: int| 0 <= j < i ==> (#[trigger] out@[j]).id == rows@[rows.key_order()[j]].id && out@[j]@
                    == rows@[rows.key_order()[j]]@,
            decreases n - i,
        {
            let (_, row) = rows.entry_at(i);
            out.push(row.duplicate());
            i += 1;
        }
        Ok(out)
    }

    /// Sets columns of the row of a table with an id (nothing when there is
    /// no such row); refused for a missing table.
    pub fn update_row(&mut self, table_name: &str, record_id: RecordId, updates: &StrMap<Value>) -> (r: Result<
        (),
        StoreError,
    >)
        requires
            old(self).wf(),
        ensures
            final(self).wf(),
            !old(self).has_table(table_name@) ==> (r matches Err(StoreError::TableMissing(n)) && n@ == table_name@)
                && *final(self) == *old(self),
            old(self).has_table(table_name@) ==> {
                &&& r is Ok
                &&& final(self).rows_of(table_name@).dom() == old(self).rows_of(table_name@).dom()
                &&& final(self).row_order(table_name@) == old(self).row_order(table_name@)
                &&& forall|id: RecordId|
                    #[trigger] final(self).rows_of(table_name@).contains_key(id) && id != record_id ==> final(self).rows_of(
                        table_name@,
                    )[id] == old(self).rows_of(table_name@)[id]
                &&& old(self).rows_of(table_name@).contains_key(record_id) ==> final(self).rows_of(table_name@)[record_id]@
                    == old(self).rows_of(table_name@)[record_id]@.union_prefer_right(value_models(updates@))
                    && final(self).rows_of(table_name@)[record_id].id == old(self).rows_of(table_name@)[record_id].id
            },
            forall|t: Seq<char>| t != table_name@ ==> (#[trigger] final(self).has_table(t) == old(self).has_table(t)
                && final(self).rows_of(t) == old(self).rows_of(t) && final(self).meta_of(t) == old(self).meta_of(t)
                && final(self).row_order(t) == old(self).row_order(t)),
            forall|t: Seq<char>| #[trigger] final(self).has_table(t) == old(self).has_table(t),
            forall|t: Seq<char>| #[trigger] final(self).meta_of(t) == old(self).meta_of(t),
            final(self).table_order() == old(self).table_order(),
    {
        if !self.metadata.contains_key(table_name) {
            return Err(StoreError::TableMissing(owned(table_name)));
        }
        let mut rows = match self.tables.insert(owned(table_name), IdMap::new()) {
            Some(r) => r,
            None => {
                return Err(StoreError::TableMissing(owned(table_name)));
            },
        };
        let ghost rows0 = rows@;
        match rows.get(record_id) {
            Some(existing) => {
                let mut row = existing.duplicate();
                let ghost m0 = row@;
                let n = updates.len();
                let mut i: usize = 0;
                proof {
                    use_type_invariant(updates);
                    updates.lemma_view_consistent();
                }
                while i < n
                    invariant
                        n == updates.key_order().len(),
                        i <= n,
                        updates.key_order().no_duplicates(),
                        forall|k: Seq<char>| #[trigger] updates@.contains_key(k) <==> updates.key_order().contains(k),
                        row.id == existing.id,
                        forall|k: Seq<char>|
                            #[trigger] row@.contains_key(k) <==> (m0.contains_key(k) || updates.key_order().subrange(
                                0,
                                i as int,
                            ).contains(k)),
                        forall|k: Seq<char>|
                            #[trigger] row@.contains_key(k) ==> row@[k] == if updates.key_order().subrange(0, i as int).contains(
                                k,
                            ) {
                                updates@[k]@
                            } else {
                                m0[k]
                            },
                    decreases n - i,
                {
                    let (k, v) = updates.entry_at(i);
                    let ghost before = row@;
                    row.insert(k.clone(), v.duplicate());
                    proof {
                        let ko = updates.key_order();
                        let s0 = ko.subrange(0, i as int);
                        let s1 = ko.subrange(0, i + 1);
                        assert(s1 =~= s0.push(ko[i as int]));
                        assert(s1[i as int] == k@);
                        assert forall|k2: Seq<char>| #[trigger] s1.contains(k2) <==> (s0.contains(k2) || k2 == k@) by {
                            if s0.contains(k2) {
                                let j = choose|j: int| 0 <= j < s0.len() && s0[j] == k2;
                                assert(s1[j] == k2);
                            }
                            if s1.contains(k2) && k2 != k@ {
                                let j = choose|j: int| 0 <= j < s1.len() && s1[j] == k2;
                                assert(s0[j] == k2);
                            }
                        }
                        assert forall|k2: Seq<char>|
                            #[trigger] row@.contains_key(k2) <==> (m0.contains_key(k2) || s1.contains(k2)) by {
                        }
                        assert forall|k2: Seq<char>|
                            #[trigger] row@.contains_key(k2) implies row@[k2] == if s1.contains(k2) {
                                updates@[k2]@
                            } else {
                                m0[k2]
                            } by {
                        }
                    }
                    i += 1;
                }
                proof {
                    assert(updates.key_order().subrange(0, i as int) =~= updates.key_order());
                    assert(row@ =~= m0.union_prefer_right(value_models(updates@)));
                }
                let _ = rows.insert(record_id, row);
            },
            None => {},
        }
        let _ = self.tables.insert(owned(table_name), rows);
        proof {
            assert(self.tables@.dom() =~= self.metadata@.dom());
            assert(self.rows_of(table_name@).dom() =~= old(self).rows_of(table_name@).dom());
        }
        Ok(())
    }

    /// Removes the row of a table with an id; true when there was one, and
    /// then the metadata counts one row less (never below zero); refused for
    /// a missing table.
    pub fn delete_row(&mut self, table_name: &str, record_id: RecordId) -> (r: Result<bool, StoreError>)
        requires
            old(self).wf(),
        ensures
            final(self).wf(),
            !old(self).has_table(table_name@) ==> (r matches Err(StoreError::TableMissing(n)) && n@ == table_name@)
                && *final(self) == *old(self),
            old(self).has_table(table_name@) ==> {
                &&& r == Ok::<bool, StoreError>(old(self).rows_of(table_name@).contains_key(record_id))
                &&& final(self).rows_of(table_name@) == old(self).rows_of(table_name@).remove(record_id)
                &&& final(self).meta_of(table_name@) == if old(self).rows_of(table_name@).contains_key(record_id) {
                    TableMetadata {
                        row_count: if old(self).meta_of(table_name@).row_count > 0 {
                            (old(self).meta_of(table_name@).row_count - 1) as u64
                        } else {
                            0u64
                        },
                        ..old(self).meta_of(table_name@)
                    }
                } else {
                    old(self).meta_of(table_name@)
                }
            },
            forall|t: Seq<char>| t != table_name@ ==> (#[trigger] final(self).has_table(t) == old(self).has_table(t)
                && final(self).rows_of(t) == old(self).rows_of(t) && final(self).meta_of(t) == old(self).meta_of(t)
                && final(self).row_order(t) == old(self).row_order(t)),
            forall|t: Seq<char>| #[trigger] final(self).has_table(t) == old(self).has_table(t),
            final(self).table_order() == old(self).table_order(),
    {
        if !self.metadata.contains_key(table_name) {
            return Err(StoreError::TableMissing(owned(table_name)));
        }
        let mut rows = match self.tables.insert(owned(table_name), IdMap::new()) {
            Some(r) => r,
            None => {
                return Err(StoreError::TableMissing(owned(table_name)));
            },
        };
        let deleted = rows.remove(record_id).is_some();
        let _ = self.tables.insert(owned(table_name), rows);
        if deleted {
            let mut meta = match self.metadata.insert(owned(table_name), TableMetadata::new(String::new(), String::new())) {
                Some(m) => m,
                None => {
                    return Err(StoreError::TableMissing(owned(table_name)));
                },
            };
            meta.row_count = meta.row_count.saturating_sub(1);
            let _ = self.metadata.insert(owned(table_name), meta);
        }
        proof {
            assert(self.tables@.dom() =~= self.metadata@.dom());
        }
        Ok(deleted)
    }

    /// The table names, in the order created.
    pub fn list_tables(&self) -> (r: Vec<String>)
        ensures
            r@.map_values(|s: String| s@) == self.table_order(),
    {
        self.metadata.keys()
    }

    /// The metadata of a table; refused for a missing table.
    pub fn get_table_metadata(&self, table_name: &str) -> (r: Result<&TableMetadata, StoreError>)
        ensures
            !self.has_table(table_name@) ==> (r matches Err(StoreError::TableMissing(n)) && n@ == table_name@),
            self.has_table(table_name@) ==> r == Ok::<&TableMetadata, StoreError>(&self.meta_of(table_name@)),
    {
        match self.metadata.get(table_name) {
            Some(m) => Ok(m),
            None => Err(StoreError::TableMissing(owned(table_name))),
        }
    }
}

/// Stores a value under an id in the map of a name, which exists; the other
/// names' maps and the order of the names are kept.
fn nested_insert<T>(outer: &mut StrMap<IdMap<T>>, name: &str, id: RecordId, value: T)
    requires
        old(outer)@.contains_key(name@),
    ensures
        final(outer)@.dom() == old(outer)@.dom(),
        final(outer).key_order() == old(outer).key_order(),
        final(outer)@[name@]@ == old(outer)@[name@]@.insert(id, value),
        final(outer)@[name@].key_order() == if old(outer)@[name@]@.contains_key(id) {
            old(outer)@[name@].key_order()
        } else {
            old(outer)@[name@].key_order().push(id)
        },
        forall|n: Seq<char>| n != name@ ==> #[trigger] final(outer)@[n] == old(outer)@[n],
{
    let mut inner = match outer.insert(owned(name), IdMap::new()) {
        Some(m) => m,
        None => IdMap::new(),
    };
    let _ = inner.insert(id, value);
    let _ = outer.insert(owned(name), inner);
    proof {
        assert(outer@.dom() =~= old(outer)@.dom());
    }
}

/// Removes an id from the map of a name, which exists; returns whether it
/// was there; the other names' maps and the order of the names are kept.
fn nested_remove<T>(outer: &mut StrMap<IdMap<T>>, name: &str, id: RecordId) -> (r: bool)
    requires
        old(outer)@.contains_key(name@),
    ensures
        r == old(outer)@[name@]@.contains_key(id),
        final(outer)@.dom() == old(outer)@.dom(),
        final(outer).key_order() == old(outer).key_order(),
        final(outer)@[name@]@ == old(outer)@[name@]@.remove(id),
        forall|n: Seq<char>| n != name@ ==> #[trigger] final(outer)@[n] == old(outer)@[n],
{
    let mut inner = match outer.insert(owned(name), IdMap::new()) {
        Some(m) => m,
        None => IdMap::new(),
    };
    let removed = inner.remove(id).is_some();
    let _ = outer.insert(owned(name), inner);
    proof {
        assert(outer@.dom() =~= old(outer)@.dom());
    }
    removed
}

/// The JSON document collections: for each name, its documents by id.
#[derive(Debug)]
pub struct DocumentStore {
    collections: StrMap<IdMap<Document>>,
}

impl DocumentStore {
    /// Whether a collection exists.
    pub closed spec fn has_collection(&self, c: Seq<char>) -> bool {
        self.collections@.contains_key(c)
    }

    /// The documents of a collection by id.
    pub closed spec fn docs_of(&self, c: Seq<char>) -> Map<RecordId, Document> {
        self.collections@[c]@
    }

    /// The ids of a collection's documents, in the order first inserted.
    pub closed spec fn doc_order(&self, c: Seq<char>) -> Seq<RecordId> {
        self.collections@[c].key_order()
    }

    /// The collection names, in the order created.
    pub closed spec fn collection_order(&self) -> Seq<Seq<char>> {
        self.collections.key_order()
    }

    /// A store without collections.
    pub fn new() -> (s: Self)
        ensures
            forall|c: Seq<char>| !#[trigger] s.has_collection(c),
            s.collection_order() == Seq::<Seq<char>>::empty(),
    {
        DocumentStore { collections: StrMap::new() }
    }

    /// Creates an empty collection; refused for an existing name.
    pub fn create_collection(&mut self, name: String) -> (r: Result<(), StoreError>)
        ensures
            old(self).has_collection(name@) ==> (r matches Err(StoreError::CollectionExists(n)) && n@ == name@)
                && *final(self) == *old(self),
            !old(self).has_collection(name@) ==> {
                &&& r is Ok
                &&& final(self).docs_of(name@) == Map::<RecordId, Document>::empty()
                &&& final(self).collection_order() == old(self).collection_order().push(name@)
            },
            forall|c: Seq<char>| #[trigger] final(self).has_collection(c) == (old(self).has_collection(c) || c == name@),
            forall|c: Seq<char>| c != name@ ==> #[trigger] final(self).docs_of(c) == old(self).docs_of(c),
    {
        if self.collections.contains_key(name.as_str()) {
            return Err(StoreError::CollectionExists(name));
        }
        let _ = self.collections.insert(name, IdMap::new());
        Ok(())
    }

    /// Stores a document under its id (replacing a document of that id);
    /// refused for a missing collection.
    pub fn insert_document(&mut self, collection: &str, doc: Document) -> (r: Result<RecordId, StoreError>)
        ensures
            !old(self).has_collection(collection@) ==> (r matches Err(StoreError::CollectionMissing(n)) && n@
                == collection@) && *final(self) == *old(self),
            old(self).has_collection(collection@) ==> r == Ok::<RecordId, StoreError>(doc.id) && final(self).docs_of(
                collection@,
            ) == old(self).docs_of(collection@).insert(doc.id, doc),
            forall|c: Seq<char>| #[trigger] final(self).has_collection(c) == old(self).has_collection(c),
            forall|c: Seq<char>| c != collection@ ==> #[trigger] final(self).docs_of(c) == old(self).docs_of(c),
            final(self).collection_order() == old(self).collection_order(),
    {
        if !self.collections.contains_key(collection) {
            return Err(StoreError::CollectionMissing(owned(collection)));
        }
        let id = doc.id;
        nested_insert(&mut self.collections, collection, id, doc);
        Ok(id)
    }

    /// A copy of the document of a collection with an id, if any; refused
    /// for a missing collection.
    pub fn get_document(&self, collection: &str, doc_id: RecordId) -> (r: Result<Option<Document>, StoreError>)
        ensures
            !self.has_collection(collection@) ==> (r matches Err(StoreError::CollectionMissing(n)) && n@ == collection@),
            self.has_collection(collection@) ==> (r matches Ok(o) && match o {
                Some(d) => self.docs_of(collection@).contains_key(doc_id) && d.id == self.docs_of(collection@)[doc_id].id
                    && d.data@ == self.docs_of(collection@)[doc_id].data@,
                None => !self.docs_of(collection@).contains_key(doc_id),
            }),
    {
        match self.collections.get(collection) {
            Some(docs) => match docs.get(doc_id) {
                Some(d) => Ok(Some(d.duplicate())),
                None => Ok(None),
            },
            None => Err(StoreError::CollectionMissing(owned(collection))),
        }
    }

    /// Copies of all documents of a collection, in the order first
    /// inserted; refused for a missing collection.
    pub fn get_all_documents(&self, collection: &str) -> (r: Result<Vec<Document>, StoreError>)
        ensures
            !self.has_collection(collection@) ==> (r matches Err(StoreError::CollectionMissing(n)) && n@ == collection@),
            self.has_collection(collection@) ==> (r matches Ok(v) && v@.len() == self.doc_order(collection@).len()
                && forall|i: int|
                0 <= i < v@.len() ==> (#[trigger] v@[i]).id == self.docs_of(collection@)[self.doc_order(collection@)[i]].id
                    && v@[i].data@ == self.docs_of(collection@)[self.doc_order(collection@)[i]].data@),
    {
        let docs = match self.collections.get(collection) {
            Some(d) => d,
            None => {
                return Err(StoreError::CollectionMissing(owned(collection)));
            },
        };
        let n = docs.len();
        let mut out: Vec<Document> = Vec::new();
        let mut i: usize = 0;
        while i < n
            invariant
                n == docs.key_order().len(),
                i <= n,
                out@.len() == i,
                forall|j: int| 0 <= j < i ==> (#[trigger] out@[j]).id == docs@[docs.key_order()[j]].id && out@[j].data@
                    == docs@[docs.key_order()[j]].data@,
            decreases n - i,
        {
            let (_, d) = docs.entry_at(i);
            out.push(d.duplicate());
            i += 1;
        }
        Ok(out)
    }

    /// Replaces the data of the document of a collection with an id
    /// (nothing when there is none) and marks it updated now; refused for a
    /// missing collection.
    pub fn update_document(&mut self, collection: &str, doc_id: RecordId, new_data: String) -> (r: Result<
        (),
        StoreError,
    >)
        ensures
            !old(self).has_collection(collection@) ==> (r matches Err(StoreError::CollectionMissing(n)) && n@
                == collection@) && *final(self) == *old(self),
            old(self).has_collection(collection@) ==> {
                &&& r is Ok
                &&& final(self).docs_of(collection@).dom() == old(self).docs_of(collection@).dom()
                &&& forall|id: RecordId|
                    #[trigger] final(self).docs_of(collection@).contains_key(id) && id != doc_id ==> final(self).docs_of(
                        collection@,
                    )[id] == old(self).docs_of(collection@)[id]
                &&& old(self).docs_of(collection@).contains_key(doc_id) ==> final(self).docs_of(collection@)[doc_id].data@
                    == new_data@ && final(self).docs_of(collection@)[doc_id].id == old(self).docs_of(collection@)[doc_id].id
                    && final(self).docs_of(collection@)[doc_id].created_at == old(self).docs_of(collection@)[doc_id].created_at
            },
            forall|c: Seq<char>| #[trigger] final(self).has_collection(c) == old(self).has_collection(c),
            forall|c: Seq<char>| c != collection@ ==> #[trigger] final(self).docs_of(c) == old(self).docs_of(c),
            final(self).collection_order() == old(self).collection_order(),
    {
        let found = match self.collections.get(collection) {
            Some(docs) => match docs.get(doc_id) {
                Some(d) => Some(Document { id: d.id, data: new_data, created_at: d.created_at, updated_at: now_millis() }),
                None => None,
            },
            None => {
                return Err(StoreError::CollectionMissing(owned(collection)));
            },
        };
        match found {
            Some(d) => {
                nested_insert(&mut self.collections, collection, doc_id, d);
                proof {
                    assert(self.docs_of(collection@).dom() =~= old(self).docs_of(collection@).dom());
                }
            },
            None => {},
        }
        Ok(())
    }

    /// Removes the document of a collection with an id; true when there was
    /// one; refused for a missing collection.
    pub fn delete_document(&mut self, collection: &str, doc_id: RecordId) -> (r: Result<bool, StoreError>)
        ensures
            !old(self).has_collection(collection@) ==> (r matches Err(StoreError::CollectionMissing(n)) && n@
                == collection@) && *final(self) == *old(self),
            old(self).has_collection(collection@) ==> r == Ok::<bool, StoreError>(
                old(self).docs_of(collection@).contains_key(doc_id),
            ) && final(self).docs_of(collection@) == old(self).docs_of(collection@).remove(doc_id),
            forall|c: Seq<char>| #[trigger] final(self).has_collection(c) == old(self).has_collection(c),
            forall|c: Seq<char>| c != collection@ ==> #[trigger] final(self).docs_of(c) == old(self).docs_of(c),
            final(self).collection_order() == old(self).collection_order(),
    {
        if !self.collections.contains_key(collection) {
            return Err(StoreError::CollectionMissing(owned(collection)));
        }
        Ok(nested_remove(&mut self.collections, collection, doc_id))
    }

    /// The collection names, in the order created.
    pub fn list_collections(&self) -> (r: Vec<String>)
        ensures
            r@.map_values(|s: String| s@) == self.collection_order(),
    {
        self.collections.keys()
    }
}

/// A copy of record ids.
fn copy_id_vec(ids: &Vec<RecordId>) -> (r: Vec<RecordId>)
    ensures
        r@ == ids@,
{
    let mut r: Vec<RecordId> = Vec::new();
    let mut i: usize = 0;
    while i < ids.len()
        invariant
            i <= ids@.len(),
            r@ == ids@.subrange(0, i as int),
        decreases ids@.len() - i,
    {
        r.push(ids[i]);
        proof {
            assert(r@ =~= ids@.subrange(0, i + 1));
        }
        i += 1;
    }
    r
}

/// The graphs: for each name, its vertices and edges by id, and each
/// vertex's out-neighbours in the order the edges were added.
#[derive(Debug)]
pub struct GraphStore {
    nodes: StrMap<IdMap<GraphNode>>,
    edges: StrMap<IdMap<GraphEdge>>,
    adjacency: StrMap<IdMap<Vec<RecordId>>>,
}

impl GraphStore {
    /// Every graph has vertices, edges and neighbour lists.
    pub closed spec fn wf(&self) -> bool {
        &&& self.edges@.dom() == self.nodes@.dom()
        &&& self.adjacency@.dom() == self.nodes@.dom()
    }

    /// Whether a graph exists.
    pub closed spec fn has_graph(&self, g: Seq<char>) -> bool {
        self.nodes@.contains_key(g)
    }

    /// The vertices of a graph by id.
    pub closed spec fn nodes_of(&self, g: Seq<char>) -> Map<RecordId, GraphNode> {
        self.nodes@[g]@
    }

    /// The edges of a graph by id.
    pub closed spec fn edges_of(&self, g: Seq<char>) -> Map<RecordId, GraphEdge> {
        self.edges@[g]@
    }

    /// The out-neighbours of the vertices of a graph.
    pub closed spec fn neighbours_of(&self, g: Seq<char>) -> Map<RecordId, Seq<RecordId>> {
        self.adjacency@[g]@.map_values(|v: Vec<RecordId>| v@)
    }

    /// The ids of a graph's vertices, in the order first added.
    pub closed spec fn node_order(&self, g: Seq<char>) -> Seq<RecordId> {
        self.nodes@[g].key_order()
    }

    /// The ids of a graph's edges, in the order first added.
    pub closed spec fn edge_order(&self, g: Seq<char>) -> Seq<RecordId> {
        self.edges@[g].key_order()
    }

    /// The graph names, in the order created.
    pub closed spec fn graph_order(&self) -> Seq<Seq<char>> {
        self.nodes.key_order()
    }

    /// A store without graphs.
    pub fn new() -> (s: Self)
        ensures
            s.wf(),
            forall|g: Seq<char>| !#[trigger] s.has_graph(g),
            s.graph_order() == Seq::<Seq<char>>::empty(),
    {
        let s = GraphStore { nodes: StrMap::new(), edges: StrMap::new(), adjacency: StrMap::new() };
        assert(s.edges@.dom() =~= s.nodes@.dom());
        assert(s.adjacency@.dom() =~= s.nodes@.dom());
        s
    }

    /// Creates an empty graph; refused for an existing name.
    pub fn create_graph(&mut self, name: String) -> (r: Result<(), StoreError>)
        requires
            old(self).wf(),
        ensures
            final(self).wf(),
            old(self).has_graph(name@) ==> (r matches Err(StoreError::GraphExists(n)) && n@ == name@) && *final(self)
                == *old(self),
            !old(self).has_graph(name@) ==> {
                &&& r is Ok
                &&& final(self).nodes_of(name@) == Map::<RecordId, GraphNode>::empty()
                &&& final(self).edges_of(name@) == Map::<RecordId, GraphEdge>::empty()
                &&& final(self).neighbours_of(name@) == Map::<RecordId, Seq<RecordId>>::empty()
                &&& final(self).graph_order() == old(self).graph_order().push(name@)
            },
            forall|g: Seq<char>| #[trigger] final(self).has_graph(g) == (old(self).has_graph(g) || g == name@),
            forall|g: Seq<char>| g != name@ ==> (#[trigger] final(self).nodes_of(g) == old(self).nodes_of(g)
                && final(self).edges_of(g) == old(self).edges_of(g) && final(self).neighbours_of(g) == old(self).neighbours_of(g)),
    {
        if self.nodes.contains_key(name.as_str()) {
            return Err(StoreError::GraphExists(name));
        }
        let _ = self.nodes.insert(name.clone(), IdMap::new());
        let _ = self.edges.insert(name.clone(), IdMap::new());
        let _ = self.adjacency.insert(name, IdMap::new());
        proof {
            assert(self.edges@.dom() =~= self.nodes@.dom());
            assert(self.adjacency@.dom() =~= self.nodes@.dom());
            assert(self.neighbours_of(name@) =~= Map::<RecordId, Seq<RecordId>>::empty());
        }
        Ok(())
    }

    /// Stores a vertex under its id (replacing one of that id) and gives it
    /// an empty neighbour list; refused for a missing graph.
    pub fn add_node(&mut self, graph: &str, node: GraphNode) -> (r: Result<RecordId, StoreError>)
        requires
            old(self).wf(),
        ensures
            final(self).wf(),
            !old(self).has_graph(graph@) ==> (r matches Err(StoreError::GraphMissing(n)) && n@ == graph@) && *final(self)
                == *old(self),
            old(self).has_graph(graph@) ==> {
                &&& r == Ok::<RecordId, StoreError>(node.id)
                &&& final(self).nodes_of(graph@) == old(self).nodes_of(graph@).insert(node.id, node)
                &&& final(self).edges_of(graph@) == old(self).edges_of(graph@)
                &&& final(self).neighbours_of(graph@) == old(self).neighbours_of(graph@).insert(node.id, Seq::<RecordId>::empty())
            },
            forall|g: Seq<char>| #[trigger] final(self).has_graph(g) == old(self).has_graph(g),
            forall|g: Seq<char>| g != graph@ ==> (#[trigger] final(self).nodes_of(g) == old(self).nodes_of(g)
                && final(self).edges_of(g) == old(self).edges_of(g) && final(self).neighbours_of(g) == old(self).neighbours_of(g)),
            final(self).graph_order() == old(self).graph_order(),
    {
        if !self.nodes.contains_key(graph) {
            return Err(StoreError::GraphMissing(owned(graph)));
        }
        let id = node.id;
        nested_insert(&mut self.nodes, graph, id, node);
        nested_insert(&mut self.adjacency, graph, id, Vec::new());
        proof {
            assert(self.edges@.dom() =~= self.nodes@.dom());
            assert(self.neighbours_of(graph@) =~= old(self).neighbours_of(graph@).insert(id, Seq::<RecordId>::empty()));
            assert forall|g: Seq<char>| g != graph@ implies #[trigger] self.neighbours_of(g) == old(self).neighbours_of(g) by {
                assert(self.adjacency@[g] == old(self).adjacency@[g]);
            }
        }
        Ok(id)
    }

    /// Stores an edge under its id (replacing one of that id) and appends its
    /// target to its source's neighbours; refused for a missing graph.
    pub fn add_edge(&mut self, graph: &str, edge: GraphEdge) -> (r: Result<RecordId, StoreError>)
        requires
            old(self).wf(),
        ensures
            final(self).wf(),
            !old(self).has_graph(graph@) ==> (r matches Err(StoreError::GraphMissing(n)) && n@ == graph@) && *final(self)
                == *old(self),
            old(self).has_graph(graph@) ==> {
                &&& r == Ok::<RecordId, StoreError>(edge.id)
                &&& final(self).edges_of(graph@) == old(self).edges_of(graph@).insert(edge.id, edge)
                &&& final(self).nodes_of(graph@) == old(self).nodes_of(graph@)
                &&& final(self).neighbours_of(graph@) == old(self).neighbours_of(graph@).insert(
                    edge.from_node,
                    (if old(self).neighbours_of(graph@).contains_key(edge.from_node) {
                        old(self).neighbours_of(graph@)[edge.from_node]
                    } else {
                        Seq::<RecordId>::empty()
                    }).push(edge.to_node),
                )
            },
            forall|g: Seq<char>| #[trigger] final(self).has_graph(g) == old(self).has_graph(g),
            forall|g: Seq<char>| g != graph@ ==> (#[trigger] final(self).nodes_of(g) == old(self).nodes_of(g)
                && final(self).edges_of(g) == old(self).edges_of(g) && final(self).neighbours_of(g) == old(self).neighbours_of(g)),
            final(self).graph_order() == old(self).graph_order(),
    {
        if !self.nodes.contains_key(graph) {
            return Err(StoreError::GraphMissing(owned(graph)));
        }
        let id = edge.id;
        let from = edge.from_node;
        let to = edge.to_node;
        nested_insert(&mut self.edges, graph, id, edge);
        let mut list = match self.adjacency.get(graph) {
            Some(adj) => match adj.get(from) {
                Some(v) => copy_id_vec(v),
                None => Vec::new(),
            },
            None => Vec::new(),
        };
        list.push(to);
        nested_insert(&mut self.adjacency, graph, from, list);
        proof {
            assert(self.edges@.dom() =~= self.nodes@.dom());
            assert(self.neighbours_of(graph@) =~= old(self).neighbours_of(graph@).insert(
                from,
                (if old(self).neighbours_of(graph@).contains_key(from) {
                    old(self).neighbours_of(graph@)[from]
                } else {
                    Seq::<RecordId>::empty()
                }).push(to),
            ));
            assert forall|g: Seq<char>| g != graph@ implies #[trigger] self.neighbours_of(g) == old(self).neighbours_of(g) by {
                assert(self.adjacency@[g] == old(self).adjacency@[g]);
            }
        }
        Ok(id)
    }

    /// A copy of the vertex of a graph with an id, if any; refused for a
    /// missing graph.
    pub fn get_node(&self, graph: &str, node_id: RecordId) -> (r: Result<Option<GraphNode>, StoreError>)
        ensures
            !self.has_graph(graph@) ==> (r matches Err(StoreError::GraphMissing(n)) && n@ == graph@),
            self.has_graph(graph@) ==> (r matches Ok(o) && match o {
                Some(x) => self.nodes_of(graph@).contains_key(node_id) && x.id == self.nodes_of(graph@)[node_id].id
                    && x.label@ == self.nodes_of(graph@)[node_id].label@ && value_models(x.properties@) == value_models(
                    self.nodes_of(graph@)[node_id].properties@,
                ),
                None => !self.nodes_of(graph@).contains_key(node_id),
            }),
    {
        match self.nodes.get(graph) {
            Some(nodes) => match nodes.get(node_id) {
                Some(n) => Ok(Some(n.duplicate())),
                None => Ok(None),
            },
            None => Err(StoreError::GraphMissing(owned(graph))),
        }
    }

    /// The out-neighbours of a vertex of a graph (none for an unknown
    /// vertex); refused for a missing graph.
    pub fn get_neighbors(&self, graph: &str, node_id: RecordId) -> (r: Result<Vec<RecordId>, StoreError>)
        requires
            self.wf(),
        ensures
            !self.has_graph(graph@) ==> (r matches Err(StoreError::GraphMissing(n)) && n@ == graph@),
            self.has_graph(graph@) ==> (r matches Ok(v) && v@ == if self.neighbours_of(graph@).contains_key(node_id) {
                self.neighbours_of(graph@)[node_id]
            } else {
                Seq::<RecordId>::empty()
            }),
    {
        match self.adjacency.get(graph) {
            Some(adj) => match adj.get(node_id) {
                Some(v) => Ok(copy_id_vec(v)),
                None => Ok(Vec::new()),
            },
            None => Err(StoreError::GraphMissing(owned(graph))),
        }
    }

    /// Copies of all vertices of a graph, in the order first added; refused
    /// for a missing graph.
    pub fn get_all_nodes(&self, graph: &str) -> (r: Result<Vec<GraphNode>, StoreError>)
        ensures
            !self.has_graph(graph@) ==> (r matches Err(StoreError::GraphMissing(n)) && n@ == graph@),
            self.has_graph(graph@) ==> (r matches Ok(v) && v@.len() == self.node_order(graph@).len() && forall|i: int|
                0 <= i < v@.len() ==> (#[trigger] v@[i]).id == self.nodes_of(graph@)[self.node_order(graph@)[i]].id
                    && v@[i].label@ == self.nodes_of(graph@)[self.node_order(graph@)[i]].label@),
    {
        let nodes = match self.nodes.get(graph) {
            Some(n) => n,
            None => {
                return Err(StoreError::GraphMissing(owned(graph)));
            },
        };
        let n = nodes.len();
        let mut out: Vec<GraphNode> = Vec::new();
        let mut i: usize = 0;
        while i < n
            invariant
                n == nodes.key_order().len(),
                i <= n,
                out@.len() == i,
                forall|j: int| 0 <= j < i ==> (#[trigger] out@[j]).id == nodes@[nodes.key_order()[j]].id && out@[j].label@
                    == nodes@[nodes.key_order()[j]].label@,
            decreases n - i,
        {
            let (_, x) = nodes.entry_at(i);
            out.push(x.duplicate());
            i += 1;
        }
        Ok(out)
    }

    /// Copies of all edges of a graph, in the order first added; refused for
    /// a missing graph.
    pub fn get_all_edges(&self, graph: &str) -> (r: Result<Vec<GraphEdge>, StoreError>)
        requires
            self.wf(),
        ensures
            !self.has_graph(graph@) ==> (r matches Err(StoreError::GraphMissing(n)) && n@ == graph@),
            self.has_graph(graph@) ==> (r matches Ok(v) && v@.len() == self.edge_order(graph@).len() && forall|i: int|
                0 <= i < v@.len() ==> (#[trigger] v@[i]).id == self.edges_of(graph@)[self.edge_order(graph@)[i]].id
                    && v@[i].from_node == self.edges_of(graph@)[self.edge_order(graph@)[i]].from_node
                    && v@[i].to_node == self.edges_of(graph@)[self.edge_order(graph@)[i]].to_node),
    {
        let edges = match self.edges.get(graph) {
            Some(e) => e,
            None => {
                return Err(StoreError::GraphMissing(owned(graph)));
            },
        };
        let n = edges.len();
        let mut out: Vec<GraphEdge> = Vec::new();
        let mut i: usize = 0;
        while i < n
            invariant
                n == edges.key_order().len(),
                i <= n,
                out@.len() == i,
                forall|j: int| 0 <= j < i ==> (#[trigger] out@[j]).id == edges@[edges.key_order()[j]].id && out@[j].from_node
                    == edges@[edges.key_order()[j]].from_node && out@[j].to_node == edges@[edges.key_order()[j]].to_node,
            decreases n - i,
        {
            let (_, x) = edges.entry_at(i);
            out.push(x.duplicate());
            i += 1;
        }
        Ok(out)
    }

    /// The graph names, in the order created.
    pub fn list_graphs(&self) -> (r: Vec<String>)
        ensures
            r@.map_values(|s: String| s@) == self.graph_order(),
    {
        self.nodes.keys()
    }
}

/// The stores give back what was put in them: once a record is stored under
/// its id, reading the id gives it; once the id is removed, reading gives
/// nothing; other ids read as before.
pub proof fn lemma_store_read_of_write<T>(records: Map<RecordId, T>, id: RecordId, record: T, other: RecordId)
    requires
        other != id,
    ensures
        records.insert(id, record).contains_key(id),
        records.insert(id, record)[id] == record,
        !records.remove(id).contains_key(id),
        records.insert(id, record).contains_key(other) == records.contains_key(other),
        records.remove(id).contains_key(other) == records.contains_key(other),
        records.contains_key(other) ==> records.insert(id, record)[other] == records[other] && records.remove(id)[other]
            == records[other],
{
}

/// An edge makes its target a neighbour of its source: after it is added,
/// the source's neighbours end with the target, after those it had.
pub proof fn lemma_edge_adds_neighbour(adj: Map<RecordId, Seq<RecordId>>, from: RecordId, to: RecordId)
    ensures
        ({
            let after = adj.insert(
                from,
                (if adj.contains_key(from) {
                    adj[from]
                } else {
                    Seq::<RecordId>::empty()
                }).push(to),
            );
            &&& after[from].last() == to
            &&& after[from].contains(to)
            &&& adj.contains_key(from) ==> after[from].drop_last() == adj[from]
        }),
{
    let l = (if adj.contains_key(from) {
        adj[from]
    } else {
        Seq::<RecordId>::empty()
    }).push(to);
    assert(l[l.len() - 1] == to);
    assert(l.drop_last() =~= (if adj.contains_key(from) { adj[from] } else { Seq::<RecordId>::empty() }));
}

} // verus!
