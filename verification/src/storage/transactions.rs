//! ACID transactions: write-ahead log entries, transaction ids, transaction
//! records, the WAL manager, a multi-version store and the transaction
//! manager.

use vstd::prelude::*;
use std::path::PathBuf;
use std::collections::HashMap;
use crate::collections::StrMap;
use crate::util::{owned, push_decimal, decimal, now_rfc3339};
use crate::storage::caching::str_views;

verus! {

#[verifier::external_type_specification]
#[verifier::external_body]
pub struct ExPathBuf(PathBuf);

/// The state of a transaction.
#[derive(Debug, Clone, PartialEq, Eq, Structural)]
pub enum TxStatus {
    /// Started, not finished.
    Pending,
    /// Finished successfully.
    Committed,
    /// Rolled back.
    Aborted,
}

impl TxStatus {
    /// A copy of the status.
    pub fn duplicate(&self) -> (r: TxStatus)
        ensures
            r == *self,
    {
        match self {
            TxStatus::Pending => TxStatus::Pending,
            TxStatus::Committed => TxStatus::Committed,
            TxStatus::Aborted => TxStatus::Aborted,
        }
    }
}

/// An operation recorded in the write-ahead log; JSON data is kept as text.
#[derive(Debug, Clone)]
pub enum Operation {
    Insert { table: String, data: String },
    Update { table: String, id: String, data: String },
    Delete { table: String, id: String },
    CreateTable { name: String, schema: Vec<String> },
    DropTable { name: String },
}

/// The content of an `Operation`.
pub enum OperationModel {
    Insert { table: Seq<char>, data: Seq<char> },
    Update { table: Seq<char>, id: Seq<char>, data: Seq<char> },
    Delete { table: Seq<char>, id: Seq<char> },
    CreateTable { name: Seq<char>, schema: Seq<Seq<char>> },
    DropTable { name: Seq<char> },
}

impl View for Operation {
    type V = OperationModel;

    open spec fn view(&self) -> OperationModel {
        match self {
            Operation::Insert { table, data } => OperationModel::Insert { table: table@, data: data@ },
            Operation::Update { table, id, data } => OperationModel::Update { table: table@, id: id@, data: data@ },
            Operation::Delete { table, id } => OperationModel::Delete { table: table@, id: id@ },
            Operation::CreateTable { name, schema } => OperationModel::CreateTable {
                name: name@,
                schema: str_views(schema@),
            },
            Operation::DropTable { name } => OperationModel::DropTable { name: name@ },
        }
    }
}

impl Operation {
    /// A copy of the operation.
    pub fn duplicate(&self) -> (r: Operation)
        ensures
            r@ == self@,
    {
        match self {
            Operation::Insert { table, data } => Operation::Insert { table: table.clone(), data: data.clone() },
            Operation::Update { table, id, data } => Operation::Update {
                table: table.clone(),
                id: id.clone(),
                data: data.clone(),
            },
            Operation::Delete { table, id } => Operation::Delete { table: table.clone(), id: id.clone() },
            Operation::CreateTable { name, schema } => Operation::CreateTable {
                name: name.clone(),
                schema: crate::storage::caching::copy_strings(schema),
            },
            Operation::DropTable { name } => Operation::DropTable { name: name.clone() },
        }
    }
}

/// A write-ahead log entry, written before the operation is applied.
#[derive(Debug, Clone)]
pub struct WalEntry {
    pub tx_id: u64,
    pub operation: Operation,
    pub timestamp: String,
    pub status: TxStatus,
}

/// The content of a `WalEntry`.
pub struct WalEntryModel {
    pub tx_id: u64,
    pub operation: OperationModel,
    pub timestamp: Seq<char>,
    pub status: TxStatus,
}

impl View for WalEntry {
    type V = WalEntryModel;

    open spec fn view(&self) -> WalEntryModel {
        WalEntryModel {
            tx_id: self.tx_id,
            operation: self.operation@,
            timestamp: self.timestamp@,
            status: self.status,
        }
    }
}

impl WalEntry {
    /// A copy of the entry.
    pub fn duplicate(&self) -> (r: WalEntry)
        ensures
            r@ == self@,
    {
        WalEntry {
            tx_id: self.tx_id,
            operation: self.operation.duplicate(),
            timestamp: self.timestamp.clone(),
            status: self.status.duplicate(),
        }
    }
}

/// Generates transaction ids 1, 2, 3, ...
#[derive(Debug)]
pub struct TxIdGenerator {
    counter: u64,
}

impl TxIdGenerator {
    /// The last id handed out (0 before the first).
    pub closed spec fn last_id(&self) -> u64 {
        self.counter
    }

    /// A generator whose first id is 1.
    pub fn new() -> (g: Self)
        ensures
            g.last_id() == 0,
    {
        TxIdGenerator { counter: 0 }
    }

    /// The next id.
    pub fn next_id(&mut self) -> (id: u64)
        requires
            old(self).last_id() < u64::MAX,
        ensures
            id == old(self).last_id() + 1,
            final(self).last_id() == id,
    {
        self.counter += 1;
        self.counter
    }
}

/// Transaction isolation levels.
#[derive(Debug, Clone, Copy, PartialEq, Eq, Structural)]
pub enum IsolationLevel {
    ReadUncommitted,
    ReadCommitted,
    RepeatableRead,
    Serializable,
}

/// A transaction's record: id, start time (RFC 3339 text), status and
/// isolation level.
#[derive(Debug, Clone)]
pub struct Transaction {
    pub id: u64,
    pub start_time: String,
    pub status: TxStatus,
    pub isolation_level: IsolationLevel,
}

impl Transaction {
    /// A pending transaction started now.
    pub fn new(id: u64, isolation_level: IsolationLevel) -> (t: Self)
        ensures
            t.id == id,
            t.status == TxStatus::Pending,
            t.isolation_level == isolation_level,
    {
        Transaction { id, start_time: now_rfc3339(), status: TxStatus::Pending, isolation_level }
    }

    /// Marks the transaction committed.
    pub fn commit(&mut self)
        ensures
            *final(self) == (Transaction { status: TxStatus::Committed, ..*old(self) }),
    {
        self.status = TxStatus::Committed;
    }

    /// Marks the transaction aborted.
    pub fn abort(&mut self)
        ensures
            *final(self) == (Transaction { status: TxStatus::Aborted, ..*old(self) }),
    {
        self.status = TxStatus::Aborted;
    }

    /// Whether the transaction is still pending.
    pub fn is_active(&self) -> (b: bool)
        ensures
            b == (self.status == TxStatus::Pending),
    {
        self.status == TxStatus::Pending
    }
}

/// The entries of a log, by content.
pub open spec fn entry_views(s: Seq<WalEntry>) -> Seq<WalEntryModel> {
    s.map_values(|e: WalEntry| e@)
}

/// The committed entries of a log, in order.
pub open spec fn committed_entries(s: Seq<WalEntryModel>) -> Seq<WalEntryModel>
    decreases s.len(),
{
    if s.len() == 0 {
        s
    } else if s.last().status == TxStatus::Committed {
        committed_entries(s.drop_last()).push(s.last())
    } else {
        committed_entries(s.drop_last())
    }
}

/// An entry with a new status.
pub open spec fn with_status(e: WalEntryModel, status: TxStatus) -> WalEntryModel {
    WalEntryModel { status, ..e }
}

/// The write-ahead log: its entries in the order written, and the path it
/// belongs to.
#[derive(Debug)]
pub struct WalManager {
    wal_entries: Vec<WalEntry>,
    path: PathBuf,
}

impl WalManager {
    /// The entries, in the order written.
    pub closed spec fn entries(&self) -> Seq<WalEntryModel> {
        entry_views(self.wal_entries@)
    }

    /// The path the log was made for.
    pub closed spec fn log_path(&self) -> PathBuf {
        self.path
    }

    /// An empty log for a path.
    pub fn new(path: PathBuf) -> (w: Self)
        ensures
            w.entries() == Seq::<WalEntryModel>::empty(),
            w.log_path() == path,
    {
        let w = WalManager { wal_entries: Vec::new(), path };
        assert(w.entries() =~= Seq::<WalEntryModel>::empty());
        w
    }

    /// Appends an entry (before the operation is applied).
    pub fn write_entry(&mut self, entry: WalEntry) -> (r: Result<(), String>)
        ensures
            r is Ok,
            final(self).entries() == old(self).entries().push(entry@),
    {
        self.wal_entries.push(entry);
        proof {
            assert(self.entries() =~= old(self).entries().push(entry@));
        }
        Ok(())
    }

    /// Copies of the committed entries, in order.
    pub fn get_committed_entries(&self) -> (r: Vec<WalEntry>)
        ensures
            entry_views(r@) == committed_entries(self.entries()),
    {
        let mut r: Vec<WalEntry> = Vec::new();
        let mut i: usize = 0;
        while i < self.wal_entries.len()
            invariant
                i <= self.wal_entries@.len(),
                entry_views(r@) == committed_entries(self.entries().subrange(0, i as int)),
            decreases self.wal_entries@.len() - i,
        {
            proof {
                assert(self.entries().subrange(0, i + 1).drop_last() =~= self.entries().subrange(0, i as int));
                assert(self.entries().subrange(0, i + 1).last() == self.wal_entries@[i as int]@);
            }
            if self.wal_entries[i].status == TxStatus::Committed {
                let ghost before = r@;
                r.push(self.wal_entries[i].duplicate());
                proof {
                    assert(entry_views(r@) =~= entry_views(before).push(self.wal_entries@[i as int]@));
                }
            }
            i += 1;
        }
        proof {
            assert(self.entries().subrange(0, i as int) =~= self.entries());
        }
        r
    }

    /// Marks the transaction's pending entries aborted.
    pub fn rollback_tx(&mut self, tx_id: u64) -> (r: Result<(), String>)
        ensures
            r is Ok,
            final(self).entries() == log_after_rollback(old(self).entries(), tx_id),
    {
        let n = self.wal_entries.len();
        let mut i: usize = 0;
        while i < n
            invariant
                n == self.wal_entries@.len(),
                n == old(self).wal_entries@.len(),
                i <= n,
                forall|j: int| 0 <= j < i ==> #[trigger] self.entries()[j] == log_after_rollback(old(self).entries(), tx_id)[j],
                forall|j: int| i <= j < n ==> #[trigger] self.entries()[j] == old(self).entries()[j],
            decreases n - i,
        {
            if self.wal_entries[i].tx_id == tx_id && self.wal_entries[i].status == TxStatus::Pending {
                let ghost before = self.entries();
                let mut e = self.wal_entries[i].duplicate();
                e.status = TxStatus::Aborted;
                self.wal_entries.set(i, e);
                proof {
                    assert(self.entries() =~= before.update(i as int, with_status(before[i as int], TxStatus::Aborted)));
                }
            }
            i += 1;
        }
        proof {
            assert(self.entries() =~= log_after_rollback(old(self).entries(), tx_id));
        }
        Ok(())
    }

    /// Marks every entry of the transaction committed.
    pub fn commit_tx(&mut self, tx_id: u64) -> (r: Result<(), String>)
        ensures
            r is Ok,
            final(self).entries() == log_after_commit(old(self).entries(), tx_id),
    {
        let n = self.wal_entries.len();
        let mut i: usize = 0;
        while i < n
            invariant
                n == self.wal_entries@.len(),
                n == old(self).wal_entries@.len(),
                i <= n,
                forall|j: int| 0 <= j < i ==> #[trigger] self.entries()[j] == log_after_commit(old(self).entries(), tx_id)[j],
                forall|j: int| i <= j < n ==> #[trigger] self.entries()[j] == old(self).entries()[j],
            decreases n - i,
        {
            if self.wal_entries[i].tx_id == tx_id {
                let ghost before = self.entries();
                let mut e = self.wal_entries[i].duplicate();
                e.status = TxStatus::Committed;
                self.wal_entries.set(i, e);
                proof {
                    assert(self.entries() =~= before.update(i as int, with_status(before[i as int], TxStatus::Committed)));
                }
            }
            i += 1;
        }
        proof {
            assert(self.entries() =~= log_after_commit(old(self).entries(), tx_id));
        }
        Ok(())
    }
}

/// The log after a commit of `tx_id`: each of its entries is marked committed.
pub open spec fn log_after_commit(s: Seq<WalEntryModel>, tx_id: u64) -> Seq<WalEntryModel> {
    Seq::new(
        s.len(),
        |i: int|
            if s[i].tx_id == tx_id {
                with_status(s[i], TxStatus::Committed)
            } else {
                s[i]
            },
    )
}

/// The log after a rollback of `tx_id`: each of its pending entries is marked
/// aborted.
pub open spec fn log_after_rollback(s: Seq<WalEntryModel>, tx_id: u64) -> Seq<WalEntryModel> {
    Seq::new(
        s.len(),
        |i: int|
            if s[i].tx_id == tx_id && s[i].status == TxStatus::Pending {
                with_status(s[i], TxStatus::Aborted)
            } else {
                s[i]
            },
    )
}

/// A rollback never changes what the log holds as committed.
pub proof fn lemma_rollback_keeps_committed(s: Seq<WalEntryModel>, tx_id: u64)
    ensures
        committed_entries(log_after_rollback(s, tx_id)) == committed_entries(s),
    decreases s.len(),
{
    if s.len() > 0 {
        assert(log_after_rollback(s, tx_id).drop_last() =~= log_after_rollback(s.drop_last(), tx_id));
        lemma_rollback_keeps_committed(s.drop_last(), tx_id);
    }
}

/// After a commit of `tx_id`, every entry of `tx_id` is committed, and the
/// entries of other transactions are unchanged.
pub proof fn lemma_commit_marks_transaction(s: Seq<WalEntryModel>, tx_id: u64, i: int)
    requires
        0 <= i < s.len(),
    ensures
        s[i].tx_id == tx_id ==> log_after_commit(s, tx_id)[i].status == TxStatus::Committed,
        s[i].tx_id != tx_id ==> log_after_commit(s, tx_id)[i] == s[i],
        log_after_commit(s, tx_id)[i].tx_id == s[i].tx_id,
        log_after_commit(s, tx_id)[i].operation == s[i].operation,
{
}


/// One version of a value: the transaction that wrote it, when (RFC 3339
/// text), and the transaction that deleted it, if any.
#[derive(Debug, Clone)]
pub struct VersionedValue<T> {
    pub tx_id: u64,
    pub value: T,
    pub created_at: String,
    pub deleted_at: Option<u64>,
}

/// Whether a version is committed as seen by transaction `tx_id`: written by
/// an earlier transaction and not deleted.
pub open spec fn committed_for<T>(v: VersionedValue<T>, tx_id: u64) -> bool {
    v.tx_id < tx_id && v.deleted_at is None
}

/// The position of the last version committed for `tx_id`, or -1 when there
/// is none.
pub open spec fn last_committed<T>(s: Seq<VersionedValue<T>>, tx_id: u64) -> int
    decreases s.len(),
{
    if s.len() == 0 {
        -1
    } else if committed_for(s.last(), tx_id) {
        s.len() - 1
    } else {
        last_committed(s.drop_last(), tx_id)
    }
}

/// `last_committed` names a committed version, and none after it is.
pub proof fn lemma_last_committed<T>(s: Seq<VersionedValue<T>>, tx_id: u64)
    ensures
        -1 <= last_committed(s, tx_id) < s.len(),
        last_committed(s, tx_id) >= 0 ==> committed_for(s[last_committed(s, tx_id)], tx_id),
        forall|j: int| last_committed(s, tx_id) < j < s.len() ==> !committed_for(#[trigger] s[j], tx_id),
    decreases s.len(),
{
    if s.len() > 0 && !committed_for(s.last(), tx_id) {
        lemma_last_committed(s.drop_last(), tx_id);
        assert forall|j: int| last_committed(s, tx_id) < j < s.len() implies !committed_for(#[trigger] s[j], tx_id) by {
            if j < s.len() - 1 {
                assert(s[j] == s.drop_last()[j]);
            }
        }
    }
}

/// A read of a write: once a version written by transaction `writer` is
/// added to a key (as `insert` adds it: last, not deleted), a later
/// transaction reads that version, and the writer itself or an earlier
/// transaction reads what it read before.
pub proof fn lemma_write_visible_to_later_readers<T>(s: Seq<VersionedValue<T>>, written: VersionedValue<T>, reader: u64)
    requires
        written.deleted_at is None,
    ensures
        written.tx_id < reader ==> last_committed(s.push(written), reader) == s.len(),
        written.tx_id >= reader ==> last_committed(s.push(written), reader) == last_committed(s, reader),
{
    assert(s.push(written).drop_last() =~= s);
}

/// The position of the last version of `s` committed for `tx_id`.
fn find_last_committed<T>(s: &Vec<VersionedValue<T>>, tx_id: u64) -> (r: Option<usize>)
    ensures
        match r {
            Some(i) => i == last_committed(s@, tx_id) && i < s@.len(),
            None => last_committed(s@, tx_id) == -1,
        },
{
    let mut i: usize = s.len();
    proof {
        assert(s@.subrange(0, i as int) =~= s@);
    }
    while i > 0
        invariant
            i <= s@.len(),
            last_committed(s@, tx_id) == last_committed(s@.subrange(0, i as int), tx_id),
        decreases i,
    {
        proof {
            assert(s@.subrange(0, i as int).drop_last() =~= s@.subrange(0, i - 1));
        }
        if s[i - 1].tx_id < tx_id && s[i - 1].deleted_at.is_none() {
            return Some(i - 1);
        }
        i -= 1;
    }
    None
}

/// A multi-version store: for each key, its versions in the order written.
#[derive(Debug)]
pub struct MvccStore<T> {
    versions: StrMap<Vec<VersionedValue<T>>>,
    tx_id_gen: TxIdGenerator,
}

impl<T: Clone> MvccStore<T> {
    /// The versions of a key, in the order written (empty for an unknown key).
    pub closed spec fn versions_of(&self, key: Seq<char>) -> Seq<VersionedValue<T>> {
        if self.versions@.contains_key(key) {
            self.versions@[key]@
        } else {
            Seq::empty()
        }
    }

    /// An empty store.
    pub fn new() -> (m: Self)
        ensures
            forall|k: Seq<char>| #[trigger] m.versions_of(k) == Seq::<VersionedValue<T>>::empty(),
    {
        MvccStore { versions: StrMap::new(), tx_id_gen: TxIdGenerator::new() }
    }

    /// Adds a version of `key` written by `tx_id`.
    pub fn insert(&mut self, key: String, value: T, tx_id: u64) -> (r: Result<(), String>)
        ensures
            r is Ok,
            final(self).versions_of(key@).len() == old(self).versions_of(key@).len() + 1,
            final(self).versions_of(key@).drop_last() == old(self).versions_of(key@),
            final(self).versions_of(key@).last().tx_id == tx_id,
            final(self).versions_of(key@).last().value == value,
            final(self).versions_of(key@).last().deleted_at is None,
            forall|k: Seq<char>| k != key@ ==> #[trigger] final(self).versions_of(k) == old(self).versions_of(k),
    {
        let entry = VersionedValue { tx_id, value, created_at: now_rfc3339(), deleted_at: None };
        let existing = self.versions.remove(key.as_str());
        let mut list = match existing {
            Some(v) => v,
            None => Vec::new(),
        };
        let ghost before = list@;
        list.push(entry);
        proof {
            assert(list@.drop_last() =~= before);
        }
        self.versions.insert(key, list);
        Ok(())
    }

    /// The last version of `key` committed for `tx_id`: written by an earlier
    /// transaction and not deleted.
    pub fn get_committed(&self, key: &str, tx_id: u64) -> (r: Option<T>)
        ensures
            last_committed(self.versions_of(key@), tx_id) == -1 ==> r is None,
            last_committed(self.versions_of(key@), tx_id) >= 0 ==> r is Some && cloned(
                self.versions_of(key@)[last_committed(self.versions_of(key@), tx_id)].value,
                r->0,
            ),
    {
        match self.versions.get(key) {
            Some(v) => match find_last_committed(v, tx_id) {
                Some(i) => Some(v[i].value.clone()),
                None => None,
            },
            None => None,
        }
    }

    /// The version of `key` that `tx_id` reads at the given isolation level:
    /// the last one written under `ReadUncommitted`, else the last committed.
    pub fn get_for_tx(&self, key: &str, tx_id: u64, isolation: IsolationLevel) -> (r: Option<T>)
        ensures
            isolation == IsolationLevel::ReadUncommitted ==> {
                &&& self.versions_of(key@).len() == 0 ==> r is None
                &&& self.versions_of(key@).len() > 0 ==> r is Some && cloned(self.versions_of(key@).last().value, r->0)
            },
            isolation != IsolationLevel::ReadUncommitted ==> {
                &&& last_committed(self.versions_of(key@), tx_id) == -1 ==> r is None
                &&& last_committed(self.versions_of(key@), tx_id) >= 0 ==> r is Some && cloned(
                    self.versions_of(key@)[last_committed(self.versions_of(key@), tx_id)].value,
                    r->0,
                )
            },
    {
        match isolation {
            IsolationLevel::ReadUncommitted => match self.versions.get(key) {
                Some(v) => {
                    if v.len() > 0 {
                        Some(v[v.len() - 1].value.clone())
                    } else {
                        None
                    }
                },
                None => None,
            },
            _ => self.get_committed(key, tx_id),
        }
    }

    /// Marks the latest version of `key` deleted by `tx_id`.
    pub fn delete(&mut self, key: &str, tx_id: u64) -> (r: Result<(), String>)
        ensures
            r is Ok,
            old(self).versions_of(key@).len() == 0 ==> final(self).versions_of(key@) == old(self).versions_of(key@),
            old(self).versions_of(key@).len() > 0 ==> final(self).versions_of(key@) == old(self).versions_of(
                key@,
            ).update(
                old(self).versions_of(key@).len() - 1,
                VersionedValue { deleted_at: Some(tx_id), ..old(self).versions_of(key@).last() },
            ),
            forall|k: Seq<char>| k != key@ ==> #[trigger] final(self).versions_of(k) == old(self).versions_of(k),
    {
        match self.versions.remove(key) {
            Some(mut list) => {
                let n = list.len();
                if n > 0 {
                    let last = list.pop().unwrap();
                    list.push(VersionedValue { deleted_at: Some(tx_id), ..last });
                }
                let ghost after = list@;
                self.versions.insert(owned(key), list);
                proof {
                    if n > 0 {
                        assert(after =~= old(self).versions_of(key@).update(
                            n - 1,
                            VersionedValue { deleted_at: Some(tx_id), ..old(self).versions_of(key@).last() },
                        ));
                    }
                }
            },
            None => {},
        }
        Ok(())
    }
}

/// The message of a failed commit.
pub open spec fn commit_error_text(tx_id: u64) -> Seq<char> {
    "Transaction "@ + decimal(tx_id as nat) + " not found or not active"@
}

/// The message of a failed rollback.
pub open spec fn rollback_error_text(tx_id: u64) -> Seq<char> {
    "Transaction "@ + decimal(tx_id as nat) + " not found"@
}

/// Coordinates transactions: hands out ids, keeps the active ones and the
/// write-ahead log.
#[derive(Debug)]
pub struct TransactionManager {
    tx_id_gen: TxIdGenerator,
    active_txs: HashMap<u64, Transaction>,
    wal: WalManager,
}

impl TransactionManager {
    /// The active transactions by id.
    pub closed spec fn active(&self) -> Map<u64, Transaction> {
        self.active_txs@
    }

    /// The last id handed out.
    pub closed spec fn last_id(&self) -> u64 {
        self.tx_id_gen.last_id()
    }

    /// The write-ahead log.
    pub closed spec fn log(&self) -> Seq<WalEntryModel> {
        self.wal.entries()
    }

    /// Each active transaction is pending, is stored under its own id, and
    /// has an id already handed out.
    pub open spec fn wf(&self) -> bool {
        forall|id: u64| #[trigger] self.active().contains_key(id) ==> {
            &&& self.active()[id].id == id
            &&& self.active()[id].status == TxStatus::Pending
            &&& 0 < id <= self.last_id()
        }
    }

    /// A manager with no transaction and an empty log.
    pub fn new(wal_path: PathBuf) -> (m: Self)
        ensures
            m.wf(),
            m.active() == Map::<u64, Transaction>::empty(),
            m.last_id() == 0,
            m.log() == Seq::<WalEntryModel>::empty(),
    {
        TransactionManager {
            tx_id_gen: TxIdGenerator::new(),
            active_txs: HashMap::new(),
            wal: WalManager::new(wal_path),
        }
    }

    /// Starts a transaction with the next id and returns that id.
    pub fn begin_transaction(&mut self, isolation_level: IsolationLevel) -> (id: u64)
        requires
            old(self).wf(),
            old(self).last_id() < u64::MAX,
        ensures
            final(self).wf(),
            id == old(self).last_id() + 1,
            final(self).last_id() == id,
            !old(self).active().contains_key(id),
            final(self).active().contains_key(id),
            final(self).active()[id].id == id,
            final(self).active()[id].status == TxStatus::Pending,
            final(self).active()[id].isolation_level == isolation_level,
            final(self).active().remove(id) == old(self).active(),
            final(self).log() == old(self).log(),
    {
        broadcast use vstd::std_specs::hash::group_hash_axioms;
        let tx_id = self.tx_id_gen.next_id();
        let tx = Transaction::new(tx_id, isolation_level);
        self.active_txs.insert(tx_id, tx);
        proof {
            assert(self.active().remove(tx_id) =~= old(self).active());
        }
        tx_id
    }

    /// Commits an active transaction: marks its log entries committed and
    /// forgets it.
    pub fn commit(&mut self, tx_id: u64) -> (r: Result<(), String>)
        requires
            old(self).wf(),
        ensures
            final(self).wf(),
            final(self).last_id() == old(self).last_id(),
            r is Ok <==> old(self).active().contains_key(tx_id) && old(self).active()[tx_id].status
                == TxStatus::Pending,
            r is Ok ==> final(self).active() == old(self).active().remove(tx_id) && final(self).log()
                == log_after_commit(old(self).log(), tx_id),
            r is Err ==> final(self).active() == old(self).active() && final(self).log() == old(self).log()
                && r->Err_0@ == commit_error_text(tx_id),
    {
        broadcast use vstd::std_specs::hash::group_hash_axioms;
        let active = match self.active_txs.get(&tx_id) {
            Some(tx) => tx.is_active(),
            None => false,
        };
        if active {
            let _ = self.wal.commit_tx(tx_id);
            self.active_txs.remove(&tx_id);
            Ok(())
        } else {
            let mut msg = String::new();
            msg.append("Transaction ");
            push_decimal(&mut msg, tx_id);
            msg.append(" not found or not active");
            proof {
                reveal_strlit("Transaction ");
                reveal_strlit(" not found or not active");
                assert(msg@ =~= commit_error_text(tx_id));
            }
            Err(msg)
        }
    }

    /// Rolls back an active transaction: marks its pending log entries
    /// aborted and forgets it.
    pub fn rollback(&mut self, tx_id: u64) -> (r: Result<(), String>)
        requires
            old(self).wf(),
        ensures
            final(self).wf(),
            final(self).last_id() == old(self).last_id(),
            r is Ok <==> old(self).active().contains_key(tx_id),
            r is Ok ==> final(self).active() == old(self).active().remove(tx_id) && final(self).log()
                == log_after_rollback(old(self).log(), tx_id),
            r is Err ==> final(self).active() == old(self).active() && final(self).log() == old(self).log()
                && r->Err_0@ == rollback_error_text(tx_id),
    {
        broadcast use vstd::std_specs::hash::group_hash_axioms;
        if self.active_txs.contains_key(&tx_id) {
            let _ = self.wal.rollback_tx(tx_id);
            self.active_txs.remove(&tx_id);
            Ok(())
        } else {
            let mut msg = String::new();
            msg.append("Transaction ");
            push_decimal(&mut msg, tx_id);
            msg.append(" not found");
            proof {
                reveal_strlit("Transaction ");
                reveal_strlit(" not found");
                assert(msg@ =~= rollback_error_text(tx_id));
            }
            Err(msg)
        }
    }

    /// The status of an active transaction.
    pub fn get_tx_status(&self, tx_id: u64) -> (r: Option<TxStatus>)
        ensures
            r == (if self.active().contains_key(tx_id) {
                Some(self.active()[tx_id].status)
            } else {
                None
            }),
    {
        broadcast use vstd::std_specs::hash::group_hash_axioms;
        match self.active_txs.get(&tx_id) {
            Some(tx) => Some(tx.status.duplicate()),
            None => None,
        }
    }

    /// Whether the transaction is active and still pending.
    pub fn is_active(&self, tx_id: u64) -> (b: bool)
        ensures
            b == (self.active().contains_key(tx_id) && self.active()[tx_id].status == TxStatus::Pending),
    {
        broadcast use vstd::std_specs::hash::group_hash_axioms;
        match self.active_txs.get(&tx_id) {
            Some(tx) => tx.is_active(),
            None => false,
        }
    }

    /// The write-ahead log.
    pub fn get_wal(&self) -> (w: &WalManager)
        ensures
            w.entries() == self.log(),
    {
        &self.wal
    }
}

} // verus!
