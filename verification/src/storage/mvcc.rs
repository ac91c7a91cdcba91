//! Multi-version concurrency control: row versions and their chains, row
//! locks, MVCC transactions and the conflict graph of transactions.

use vstd::prelude::*;
use crate::types::Row;
use crate::util::now_millis;

verus! {

/// A version of a row, created by a transaction. The creation time is in
/// milliseconds since the epoch.
#[derive(Debug)]
pub struct Version {
    pub version_id: u64,
    pub data: Row,
    pub created_tx_id: u64,
    pub created_ts: i64,
    pub committed: bool,
    pub deleted: bool,
}

impl Version {
    /// An uncommitted, live version.
    pub fn new(version_id: u64, tx_id: u64, data: Row) -> (v: Self)
        ensures
            v.version_id == version_id,
            v.created_tx_id == tx_id,
            v.data == data,
            !v.committed,
            !v.deleted,
    {
        Version { version_id, data, created_tx_id: tx_id, created_ts: now_millis(), committed: false, deleted: false }
    }

    /// Marks the version committed.
    pub fn commit(&mut self)
        ensures
            *final(self) == (Version { committed: true, ..*old(self) }),
    {
        self.committed = true;
    }

    /// Marks the version deleted.
    pub fn mark_deleted(&mut self)
        ensures
            *final(self) == (Version { deleted: true, ..*old(self) }),
    {
        self.deleted = true;
    }
}

/// Whether a version is visible to a transaction: committed, created by it or
/// by an earlier transaction, and not deleted.
pub open spec fn visible_to(v: Version, tx_id: u64) -> bool {
    v.committed && v.created_tx_id <= tx_id && !v.deleted
}

/// No transaction sees a version that is not committed, one that a later
/// transaction created, or one that is deleted (no dirty reads); it sees
/// every committed live version that it or an earlier transaction created.
pub proof fn lemma_visibility(v: Version, tx_id: u64)
    ensures
        !v.committed ==> !visible_to(v, tx_id),
        v.created_tx_id > tx_id ==> !visible_to(v, tx_id),
        v.deleted ==> !visible_to(v, tx_id),
        v.committed && v.created_tx_id <= tx_id && !v.deleted ==> visible_to(v, tx_id),
{
}

/// Whether a version is the transaction's own live version.
pub open spec fn own_version(v: Version, tx_id: u64) -> bool {
    v.created_tx_id == tx_id && !v.deleted
}

/// The versions of one row, oldest first.
#[derive(Debug)]
pub struct VersionChain {
    pub row_id: u64,
    pub versions: Vec<Version>,
}

impl VersionChain {
    /// A chain without versions.
    pub fn new(row_id: u64) -> (c: Self)
        ensures
            c.row_id == row_id,
            c.versions@.len() == 0,
    {
        VersionChain { row_id, versions: Vec::new() }
    }

    /// Appends a version.
    pub fn add_version(&mut self, version: Version)
        ensures
            final(self).row_id == old(self).row_id,
            final(self).versions@ == old(self).versions@.push(version),
    {
        self.versions.push(version);
    }

    /// The newest version visible to a transaction.
    pub fn get_visible_version(&self, tx_id: u64) -> (r: Option<&Version>)
        ensures
            match r {
                Some(v) => exists|i: int| 0 <= i < self.versions@.len() && self.versions@[i] == *v
                    && visible_to(*v, tx_id) && forall|j: int| i < j < self.versions@.len() ==> !visible_to(
                    #[trigger] self.versions@[j],
                    tx_id,
                ),
                None => forall|j: int| 0 <= j < self.versions@.len() ==> !visible_to(#[trigger] self.versions@[j], tx_id),
            },
            r matches Some(v) ==> v.committed && v.created_tx_id <= tx_id && !v.deleted,
            r is None ==> forall|j: int|
                0 <= j < self.versions@.len() ==> !((#[trigger] self.versions@[j]).committed
                    && self.versions@[j].created_tx_id <= tx_id && !self.versions@[j].deleted),
    {
        let mut i: usize = self.versions.len();
        while i > 0
            invariant
                i <= self.versions@.len(),
                forall|j: int| i <= j < self.versions@.len() ==> !visible_to(#[trigger] self.versions@[j], tx_id),
            decreases i,
        {
            let v = &self.versions[i - 1];
            if v.committed && v.created_tx_id <= tx_id && !v.deleted {
                return Some(v);
            }
            i -= 1;
        }
        None
    }

    /// The transaction's own newest live version.
    pub fn get_uncommitted_version(&self, tx_id: u64) -> (r: Option<&Version>)
        ensures
            match r {
                Some(v) => exists|i: int| 0 <= i < self.versions@.len() && self.versions@[i] == *v
                    && own_version(*v, tx_id) && forall|j: int| i < j < self.versions@.len() ==> !own_version(
                    #[trigger] self.versions@[j],
                    tx_id,
                ),
                None => forall|j: int| 0 <= j < self.versions@.len() ==> !own_version(#[trigger] self.versions@[j], tx_id),
            },
            r matches Some(v) ==> v.created_tx_id == tx_id && !v.deleted,
    {
        let mut i: usize = self.versions.len();
        while i > 0
            invariant
                i <= self.versions@.len(),
                forall|j: int| i <= j < self.versions@.len() ==> !own_version(#[trigger] self.versions@[j], tx_id),
            decreases i,
        {
            let v = &self.versions[i - 1];
            if v.created_tx_id == tx_id && !v.deleted {
                return Some(v);
            }
            i -= 1;
        }
        None
    }
}

/// The kinds of row lock.
#[derive(Debug, Clone, Copy, PartialEq, Eq, Structural)]
pub enum LockType {
    /// Many readers.
    Shared,
    /// One writer.
    Exclusive,
}

/// A lock held by a transaction; the acquisition time is in milliseconds
/// since the epoch.
#[derive(Debug, Clone)]
pub struct Lock {
    pub lock_type: LockType,
    pub tx_id: u64,
    pub acquired_at: i64,
}

/// Whether a request conflicts with a lock already held: another
/// transaction's lock, where either side is exclusive.
pub open spec fn conflicts(held: Lock, lock_type: LockType, tx_id: u64) -> bool {
    held.tx_id != tx_id && (lock_type == LockType::Exclusive || held.lock_type == LockType::Exclusive)
}

/// The locks of a list that do not belong to a transaction, in order.
pub open spec fn locks_without(s: Seq<Lock>, tx_id: u64) -> Seq<Lock>
    decreases s.len(),
{
    if s.len() == 0 {
        s
    } else if s.last().tx_id == tx_id {
        locks_without(s.drop_last(), tx_id)
    } else {
        locks_without(s.drop_last(), tx_id).push(s.last())
    }
}


/// Whether the locks on a row can be held together: locks of two different
/// transactions are both shared.
pub open spec fn locks_compatible(s: Seq<Lock>) -> bool {
    forall|i: int, j: int|
        0 <= i < s.len() && 0 <= j < s.len() && (#[trigger] s[i]).tx_id != (#[trigger] s[j]).tx_id ==> s[i].lock_type
            == LockType::Shared && s[j].lock_type == LockType::Shared
}

/// Granting a lock that conflicts with none held keeps the row's locks
/// compatible: an exclusive lock is only ever held alone (or beside locks of
/// the same transaction).
pub proof fn lemma_grant_keeps_locks_compatible(s: Seq<Lock>, granted: Lock)
    requires
        locks_compatible(s),
        forall|i: int| 0 <= i < s.len() ==> !conflicts(#[trigger] s[i], granted.lock_type, granted.tx_id),
    ensures
        locks_compatible(s.push(granted)),
{
    let t = s.push(granted);
    assert forall|i: int, j: int|
        0 <= i < t.len() && 0 <= j < t.len() && (#[trigger] t[i]).tx_id != (#[trigger] t[j]).tx_id implies t[i].lock_type
            == LockType::Shared && t[j].lock_type == LockType::Shared by {
        if i < s.len() && j < s.len() {
            assert(t[i] == s[i] && t[j] == s[j]);
        } else if i < s.len() {
            assert(t[i] == s[i]);
            assert(!conflicts(s[i], granted.lock_type, granted.tx_id));
        } else if j < s.len() {
            assert(t[j] == s[j]);
            assert(!conflicts(s[j], granted.lock_type, granted.tx_id));
        }
    }
}

/// Every lock left after removing a transaction's locks was held before,
/// and none belongs to that transaction.
proof fn lemma_locks_without_members(s: Seq<Lock>, tx_id: u64)
    ensures
        forall|i: int| 0 <= i < locks_without(s, tx_id).len() ==> (#[trigger] locks_without(s, tx_id)[i]).tx_id != tx_id
            && s.contains(locks_without(s, tx_id)[i]),
    decreases s.len(),
{
    if s.len() > 0 {
        lemma_locks_without_members(s.drop_last(), tx_id);
        let r = locks_without(s, tx_id);
        let p = locks_without(s.drop_last(), tx_id);
        assert forall|i: int| 0 <= i < r.len() implies (#[trigger] r[i]).tx_id != tx_id && s.contains(r[i]) by {
            if i < p.len() {
                assert(r[i] == p[i]);
                let k = choose|k: int| 0 <= k < s.drop_last().len() && s.drop_last()[k] == p[i];
                assert(s[k] == p[i]);
            } else {
                assert(r[i] == s.last());
                assert(s[s.len() - 1] == s.last());
            }
        }
    }
}

/// Releasing a transaction's locks on a row leaves it none there, keeps the
/// locks of the others, and keeps the row's locks compatible.
pub proof fn lemma_release_keeps_locks_compatible(s: Seq<Lock>, tx_id: u64)
    requires
        locks_compatible(s),
    ensures
        locks_compatible(locks_without(s, tx_id)),
        forall|i: int| 0 <= i < locks_without(s, tx_id).len() ==> (#[trigger] locks_without(s, tx_id)[i]).tx_id != tx_id,
        forall|i: int| 0 <= i < s.len() && (#[trigger] s[i]).tx_id != tx_id ==> locks_without(s, tx_id).contains(s[i]),
    decreases s.len(),
{
    lemma_locks_without_members(s, tx_id);
    let r = locks_without(s, tx_id);
    assert forall|i: int, j: int|
        0 <= i < r.len() && 0 <= j < r.len() && (#[trigger] r[i]).tx_id != (#[trigger] r[j]).tx_id implies r[i].lock_type
            == LockType::Shared && r[j].lock_type == LockType::Shared by {
        let a = choose|a: int| 0 <= a < s.len() && s[a] == r[i];
        let b = choose|b: int| 0 <= b < s.len() && s[b] == r[j];
        assert(s[a].tx_id != s[b].tx_id);
    }
    if s.len() > 0 {
        let d = s.drop_last();
        assert(locks_compatible(d)) by {
            assert forall|i: int, j: int|
                0 <= i < d.len() && 0 <= j < d.len() && (#[trigger] d[i]).tx_id != (#[trigger] d[j]).tx_id implies d[i].lock_type
                    == LockType::Shared && d[j].lock_type == LockType::Shared by {
                assert(d[i] == s[i] && d[j] == s[j]);
            }
        }
        lemma_release_keeps_locks_compatible(d, tx_id);
        assert forall|i: int| 0 <= i < s.len() && (#[trigger] s[i]).tx_id != tx_id implies r.contains(s[i]) by {
            if i < s.len() - 1 {
                assert(d[i] == s[i]);
                let k = choose|k: int| 0 <= k < locks_without(d, tx_id).len() && locks_without(d, tx_id)[k] == s[i];
                assert(r[k] == s[i]);
            } else {
                assert(r[r.len() - 1] == s[i]);
            }
        }
    }
}

/// Errors of the MVCC layer.
#[derive(Debug, Clone, Copy, PartialEq, Eq)]
pub enum MvccError {
    /// Another transaction holds a conflicting lock.
    LockConflict,
    /// The transaction already committed or aborted.
    TransactionNotActive,
}

/// The row ids of a lock table.
pub open spec fn lock_rows(s: Seq<(u64, Vec<Lock>)>) -> Seq<u64> {
    s.map_values(|e: (u64, Vec<Lock>)| e.0)
}

/// The locks of each row.
#[derive(Debug, Clone)]
pub struct LockManager {
    locks: Vec<(u64, Vec<Lock>)>,
}

/// The locks that remain of a transaction's locks after releasing them.
fn retain_others(locks: &Vec<Lock>, tx_id: u64) -> (r: Vec<Lock>)
    ensures
        r@ == locks_without(locks@, tx_id),
{
    let mut r: Vec<Lock> = Vec::new();
    let mut i: usize = 0;
    while i < locks.len()
        invariant
            i <= locks@.len(),
            r@ == locks_without(locks@.subrange(0, i as int), tx_id),
        decreases locks@.len() - i,
    {
        proof {
            assert(locks@.subrange(0, i + 1).drop_last() =~= locks@.subrange(0, i as int));
        }
        if locks[i].tx_id != tx_id {
            let l = Lock { lock_type: locks[i].lock_type, tx_id: locks[i].tx_id, acquired_at: locks[i].acquired_at };
            r.push(l);
        }
        i += 1;
    }
    proof {
        assert(locks@.subrange(0, i as int) =~= locks@);
    }
    r
}

impl LockManager {
    /// The locks of each row that has had a lock request.
    pub closed spec fn table(&self) -> Map<u64, Seq<Lock>> {
        Map::new(
            |row: u64| lock_rows(self.locks@).contains(row),
            |row: u64| self.locks@[lock_rows(self.locks@).index_of(row)].1@,
        )
    }

    /// Well formed: each row at most once.
    pub closed spec fn wf(&self) -> bool {
        lock_rows(self.locks@).no_duplicates()
    }

    /// The locks held on a row (none for a row never locked).
    pub open spec fn locks_on(&self, row: u64) -> Seq<Lock> {
        if self.table().contains_key(row) {
            self.table()[row]
        } else {
            Seq::empty()
        }
    }

    proof fn lemma_index(&self, i: int)
        requires
            self.wf(),
            0 <= i < self.locks@.len(),
        ensures
            lock_rows(self.locks@).index_of(self.locks@[i].0) == i,
            self.table().contains_key(self.locks@[i].0),
            self.table()[self.locks@[i].0] == self.locks@[i].1@,
    {
        assert(lock_rows(self.locks@)[i] == self.locks@[i].0);
        assert(lock_rows(self.locks@).contains(self.locks@[i].0));
    }

    /// No locks.
    pub fn new() -> (m: Self)
        ensures
            m.wf(),
            m.table() == Map::<u64, Seq<Lock>>::empty(),
    {
        let m = LockManager { locks: Vec::new() };
        assert(m.table() =~= Map::<u64, Seq<Lock>>::empty());
        m
    }

    fn find(&self, row_id: u64) -> (r: Option<usize>)
        requires
            self.wf(),
        ensures
            match r {
                Some(i) => i < self.locks@.len() && self.locks@[i as int].0 == row_id,
                None => !self.table().contains_key(row_id),
            },
    {
        let mut i: usize = 0;
        while i < self.locks.len()
            invariant
                i <= self.locks@.len(),
                forall|j: int| 0 <= j < i ==> self.locks@[j].0 != row_id,
            decreases self.locks@.len() - i,
        {
            if self.locks[i].0 == row_id {
                return Some(i);
            }
            i += 1;
        }
        proof {
            if lock_rows(self.locks@).contains(row_id) {
                let j = choose|j: int| 0 <= j < self.locks@.len() && lock_rows(self.locks@)[j] == row_id;
                assert(self.locks@[j].0 == row_id);
            }
        }
        None
    }

    /// Replaces the locks of the row at a position.
    fn set_at(&mut self, i: usize, locks: Vec<Lock>)
        requires
            old(self).wf(),
            i < old(self).locks@.len(),
        ensures
            final(self).wf(),
            final(self).locks@.len() == old(self).locks@.len(),
            lock_rows(final(self).locks@) == lock_rows(old(self).locks@),
            final(self).table() == old(self).table().insert(old(self).locks@[i as int].0, locks@),
    {
        let row = self.locks[i].0;
        let ghost l = locks@;
        let _ = self.locks.remove(i);
        self.locks.insert(i, (row, locks));
        proof {
            assert(lock_rows(self.locks@) =~= lock_rows(old(self).locks@));
            old(self).lemma_index(i as int);
            assert forall|r: u64| #[trigger] self.table().contains_key(r) implies self.table()[r]
                == old(self).table().insert(row, l)[r] by {
                let j = lock_rows(self.locks@).index_of(r);
                assert(lock_rows(self.locks@).contains(r));
                self.lemma_index(j);
                old(self).lemma_index(j);
            }
            assert(self.table() =~= old(self).table().insert(row, l));
        }
    }

    /// Adds an empty lock list for a row not yet in the table.
    fn add_row(&mut self, row_id: u64) -> (i: usize)
        requires
            old(self).wf(),
            !old(self).table().contains_key(row_id),
        ensures
            final(self).wf(),
            i == old(self).locks@.len(),
            i < final(self).locks@.len(),
            final(self).locks@[i as int].0 == row_id,
            final(self).table() == old(self).table().insert(row_id, Seq::empty()),
    {
        let ghost old_locks = self.locks@;
        let i = self.locks.len();
        self.locks.push((row_id, Vec::new()));
        proof {
            assert(lock_rows(self.locks@) =~= lock_rows(old_locks).push(row_id));
            assert(!lock_rows(old_locks).contains(row_id));
            assert forall|r: u64| #[trigger] self.table().contains_key(r) <==> old(self).table().insert(row_id, Seq::empty()).contains_key(r) by {
                if r != row_id && old(self).table().contains_key(r) {
                    let j = lock_rows(old_locks).index_of(r);
                    assert(lock_rows(old_locks).contains(r));
                    assert(lock_rows(self.locks@)[j] == r);
                }
                if r == row_id {
                    assert(lock_rows(self.locks@)[i as int] == r);
                }
            }
            assert forall|r: u64| #[trigger] self.table().contains_key(r) implies self.table()[r] == old(self).table().insert(row_id, Seq::empty())[r] by {
                let j = lock_rows(self.locks@).index_of(r);
                assert(lock_rows(self.locks@).contains(r));
                self.lemma_index(j);
                if j < old_locks.len() {
                    old(self).lemma_index(j);
                }
            }
            assert(self.table() =~= old(self).table().insert(row_id, Seq::empty()));
        }
        i
    }

    /// Acquires a lock on a row for a transaction. Refused when another
    /// transaction holds a lock on the row and either lock is exclusive; the
    /// row is entered in the table either way.
    pub fn acquire_lock(&mut self, row_id: u64, lock_type: LockType, tx_id: u64) -> (r: Result<(), MvccError>)
        requires
            old(self).wf(),
        ensures
            final(self).wf(),
            final(self).table().dom() == old(self).table().dom().insert(row_id),
            forall|row: u64| row != row_id ==> #[trigger] final(self).locks_on(row) == old(self).locks_on(row),
            r is Err <==> exists|i: int| 0 <= i < old(self).locks_on(row_id).len() && conflicts(
                #[trigger] old(self).locks_on(row_id)[i],
                lock_type,
                tx_id,
            ),
            r is Err ==> r == Err::<(), MvccError>(MvccError::LockConflict) && final(self).locks_on(row_id) == old(
                self,
            ).locks_on(row_id),
            r is Ok ==> final(self).locks_on(row_id).len() == old(self).locks_on(row_id).len() + 1
                && final(self).locks_on(row_id).drop_last() == old(self).locks_on(row_id)
                && final(self).locks_on(row_id).last().lock_type == lock_type
                && final(self).locks_on(row_id).last().tx_id == tx_id,
    {
        let i = match self.find(row_id) {
            Some(i) => {
                proof {
                    self.lemma_index(i as int);
                }
                i
            },
            None => self.add_row(row_id),
        };
        proof {
            self.lemma_index(i as int);
            assert(self.table().dom() =~= old(self).table().dom().insert(row_id));
        }
        let ghost current = self.locks@[i as int].1@;
        let ghost mid = self.locks@;
        proof {
            assert(current == old(self).locks_on(row_id));
            assert forall|row: u64| row != row_id implies #[trigger] self.locks_on(row) == old(self).locks_on(row) by {
            }
        }
        let mut j: usize = 0;
        let n = self.locks[i].1.len();
        while j < n
            invariant
                self.wf(),
                self.locks@ == mid,
                self.table().dom() == old(self).table().dom().insert(row_id),
                forall|row: u64| row != row_id ==> #[trigger] self.locks_on(row) == old(self).locks_on(row),
                self.locks_on(row_id) == old(self).locks_on(row_id),
                current == old(self).locks_on(row_id),
                i < self.locks@.len(),
                self.locks@[i as int].1@ == current,
                n == current.len(),
                j <= n,
                forall|k: int| 0 <= k < j ==> !conflicts(#[trigger] current[k], lock_type, tx_id),
            decreases n - j,
        {
            let existing = &self.locks[i].1[j];
            if existing.tx_id != tx_id {
                match (lock_type, existing.lock_type) {
                    (LockType::Exclusive, _) | (_, LockType::Exclusive) => {
                        proof {
                            assert(conflicts(current[j as int], lock_type, tx_id));
                        }
                        return Err(MvccError::LockConflict);
                    },
                    _ => {},
                }
            }
            j += 1;
        }
        let mut list = Vec::new();
        let mut k: usize = 0;
        while k < n
            invariant
                self.wf(),
                self.locks@ == mid,
                self.table().dom() == old(self).table().dom().insert(row_id),
                forall|row: u64| row != row_id ==> #[trigger] self.locks_on(row) == old(self).locks_on(row),
                current == old(self).locks_on(row_id),
                i < self.locks@.len(),
                self.locks@[i as int].0 == row_id,
                self.locks@[i as int].1@ == current,
                n == current.len(),
                k <= n,
                list@.len() == k,
                forall|m: int| 0 <= m < k ==> #[trigger] list@[m] == current[m],
            decreases n - k,
        {
            let l = &self.locks[i].1[k];
            list.push(Lock { lock_type: l.lock_type, tx_id: l.tx_id, acquired_at: l.acquired_at });
            k += 1;
        }
        list.push(Lock { lock_type, tx_id, acquired_at: now_millis() });
        proof {
            assert(list@.drop_last() =~= current);
        }
        self.set_at(i, list);
        Ok(())
    }

    /// Releases every lock of a transaction on one row.
    pub fn release_lock(&mut self, row_id: u64, tx_id: u64)
        requires
            old(self).wf(),
        ensures
            final(self).wf(),
            final(self).table().dom() == old(self).table().dom(),
            final(self).locks_on(row_id) == locks_without(old(self).locks_on(row_id), tx_id),
            forall|row: u64| row != row_id ==> #[trigger] final(self).locks_on(row) == old(self).locks_on(row),
    {
        match self.find(row_id) {
            Some(i) => {
                proof {
                    self.lemma_index(i as int);
                }
                let kept = retain_others(&self.locks[i].1, tx_id);
                self.set_at(i, kept);
                proof {
                    assert(self.table().dom() =~= old(self).table().dom());
                }
            },
            None => {},
        }
    }

    /// Releases every lock of a transaction.
    pub fn release_all_locks(&mut self, tx_id: u64)
        requires
            old(self).wf(),
        ensures
            final(self).wf(),
            final(self).table().dom() == old(self).table().dom(),
            forall|row: u64| #[trigger] final(self).locks_on(row) == locks_without(old(self).locks_on(row), tx_id),
    {
        let n = self.locks.len();
        let mut i: usize = 0;
        while i < n
            invariant
                self.wf(),
                n == self.locks@.len(),
                i <= n,
                lock_rows(self.locks@) == lock_rows(old(self).locks@),
                forall|j: int| 0 <= j < i ==> #[trigger] self.locks@[j].1@ == locks_without(old(self).locks@[j].1@, tx_id),
                forall|j: int| i <= j < n ==> #[trigger] self.locks@[j].1@ == old(self).locks@[j].1@,
            decreases n - i,
        {
            let kept = retain_others(&self.locks[i].1, tx_id);
            let ghost before = self.locks@;
            let ghost pre = *self;
            self.set_at(i, kept);
            proof {
                assert forall|j: int| 0 <= j < n && j != i implies #[trigger] self.locks@[j].1@ == before[j].1@ by {
                    self.lemma_index(j);
                    pre.lemma_index(j);
                    pre.lemma_index(i as int);
                    assert(lock_rows(self.locks@)[j] == lock_rows(pre.locks@)[j]);
                    assert(lock_rows(pre.locks@)[j] != lock_rows(pre.locks@)[i as int]);
                }
                self.lemma_index(i as int);
                pre.lemma_index(i as int);
            }
            i += 1;
        }
        proof {
            assert(self.table().dom() =~= old(self).table().dom());
            assert forall|row: u64| #[trigger] self.locks_on(row) == locks_without(old(self).locks_on(row), tx_id) by {
                if self.table().contains_key(row) {
                    let j = lock_rows(self.locks@).index_of(row);
                    assert(lock_rows(self.locks@).contains(row));
                    self.lemma_index(j);
                    old(self).lemma_index(j);
                } else {
                    assert(locks_without(Seq::<Lock>::empty(), tx_id) == Seq::<Lock>::empty());
                }
            }
        }
    }

    /// Whether a transaction holds a lock of a type on a row.
    pub fn has_lock(&self, row_id: u64, lock_type: LockType, tx_id: u64) -> (b: bool)
        requires
            self.wf(),
        ensures
            b == exists|i: int| 0 <= i < self.locks_on(row_id).len() && (#[trigger] self.locks_on(row_id)[i]).tx_id
                == tx_id && self.locks_on(row_id)[i].lock_type == lock_type,
    {
        match self.find(row_id) {
            Some(i) => {
                proof {
                    self.lemma_index(i as int);
                }
                let n = self.locks[i].1.len();
                let mut j: usize = 0;
                while j < n
                    invariant
                        i < self.locks@.len(),
                        self.locks_on(row_id) == self.locks@[i as int].1@,
                        n == self.locks@[i as int].1@.len(),
                        j <= n,
                        forall|k: int| 0 <= k < j ==> !((#[trigger] self.locks_on(row_id)[k]).tx_id == tx_id
                            && self.locks_on(row_id)[k].lock_type == lock_type),
                    decreases n - j,
                {
                    let l = &self.locks[i].1[j];
                    if l.tx_id == tx_id && l.lock_type == lock_type {
                        return true;
                    }
                    j += 1;
                }
                false
            },
            None => false,
        }
    }
}

/// Transaction isolation levels.
#[derive(Debug, Clone, Copy, PartialEq, Eq, Structural)]
pub enum IsolationLevel {
    ReadUncommitted,
    ReadCommitted,
    RepeatableRead,
    Serializable,
}

/// An MVCC transaction: the rows it read and wrote.
#[derive(Debug, Clone)]
pub struct MVCCTransaction {
    pub tx_id: u64,
    pub isolation_level: IsolationLevel,
    pub start_tx_id: u64,
    pub read_set: Vec<u64>,
    pub write_set: Vec<u64>,
    pub active: bool,
}

/// Whether two sets of row ids share a row.
pub open spec fn overlap(a: Seq<u64>, b: Seq<u64>) -> bool {
    exists|i: int| 0 <= i < a.len() && b.contains(#[trigger] a[i])
}

/// Whether the second list contains an element of the first.
fn any_in(a: &Vec<u64>, b: &Vec<u64>) -> (r: bool)
    ensures
        r == overlap(a@, b@),
{
    let mut i: usize = 0;
    while i < a.len()
        invariant
            i <= a@.len(),
            forall|k: int| 0 <= k < i ==> !b@.contains(#[trigger] a@[k]),
        decreases a@.len() - i,
    {
        let mut j: usize = 0;
        while j < b.len()
            invariant
                i < a@.len(),
                j <= b@.len(),
                forall|k: int| 0 <= k < j ==> b@[k] != a@[i as int],
            decreases b@.len() - j,
        {
            if b[j] == a[i] {
                proof {
                    assert(b@.contains(a@[i as int]));
                }
                return true;
            }
            j += 1;
        }
        i += 1;
    }
    false
}

impl MVCCTransaction {
    /// An active transaction that has touched nothing.
    pub fn new(tx_id: u64, isolation_level: IsolationLevel) -> (t: Self)
        ensures
            t.tx_id == tx_id,
            t.isolation_level == isolation_level,
            t.start_tx_id == tx_id,
            t.read_set@.len() == 0,
            t.write_set@.len() == 0,
            t.active,
    {
        MVCCTransaction {
            tx_id,
            isolation_level,
            start_tx_id: tx_id,
            read_set: Vec::new(),
            write_set: Vec::new(),
            active: true,
        }
    }

    /// Records a read of a row.
    pub fn add_read(&mut self, row_id: u64)
        ensures
            final(self).read_set@ == old(self).read_set@.push(row_id),
            final(self).write_set@ == old(self).write_set@,
            final(self).tx_id == old(self).tx_id,
            final(self).active == old(self).active,
    {
        self.read_set.push(row_id);
    }

    /// Records a write of a row.
    pub fn add_write(&mut self, row_id: u64)
        ensures
            final(self).write_set@ == old(self).write_set@.push(row_id),
            final(self).read_set@ == old(self).read_set@,
            final(self).tx_id == old(self).tx_id,
            final(self).active == old(self).active,
    {
        self.write_set.push(row_id);
    }

    /// Whether the two transactions may conflict: one reads what the other
    /// writes, or both write the same row.
    pub fn is_conflict_possible(&self, other_tx: &MVCCTransaction) -> (b: bool)
        ensures
            b == (overlap(self.read_set@, other_tx.write_set@) || overlap(self.write_set@, other_tx.read_set@)
                || overlap(self.write_set@, other_tx.write_set@)),
    {
        let rw = any_in(&self.read_set, &other_tx.write_set) || any_in(&self.write_set, &other_tx.read_set);
        let ww = any_in(&self.write_set, &other_tx.write_set);
        rw || ww
    }

    /// Ends an active transaction by committing it.
    pub fn commit(&mut self) -> (r: Result<(), MvccError>)
        ensures
            r is Ok <==> old(self).active,
            r is Err ==> r == Err::<(), MvccError>(MvccError::TransactionNotActive),
            !final(self).active,
            final(self).tx_id == old(self).tx_id,
            final(self).read_set == old(self).read_set,
            final(self).write_set == old(self).write_set,
    {
        if !self.active {
            return Err(MvccError::TransactionNotActive);
        }
        self.active = false;
        Ok(())
    }

    /// Ends an active transaction by aborting it.
    pub fn abort(&mut self) -> (r: Result<(), MvccError>)
        ensures
            r is Ok <==> old(self).active,
            r is Err ==> r == Err::<(), MvccError>(MvccError::TransactionNotActive),
            !final(self).active,
            final(self).tx_id == old(self).tx_id,
            final(self).read_set == old(self).read_set,
            final(self).write_set == old(self).write_set,
    {
        if !self.active {
            return Err(MvccError::TransactionNotActive);
        }
        self.active = false;
        Ok(())
    }
}

/// The source nodes of an adjacency table.
pub open spec fn graph_sources(s: Seq<(u64, Vec<u64>)>) -> Seq<u64> {
    s.map_values(|e: (u64, Vec<u64>)| e.0)
}

/// Every node named in an adjacency table, as a source or as a target.
pub open spec fn graph_nodes(s: Seq<(u64, Vec<u64>)>) -> Seq<u64>
    decreases s.len(),
{
    if s.len() == 0 {
        Seq::empty()
    } else {
        graph_nodes(s.drop_last()) + seq![s.last().0] + s.last().1@
    }
}

/// Whether a sequence of at least two nodes follows edges of a graph.
pub open spec fn is_path(adj: Map<u64, Seq<u64>>, p: Seq<u64>) -> bool {
    &&& p.len() >= 2
    &&& forall|i: int| 0 <= i < p.len() - 1 ==> (#[trigger] successors(adj, p[i])).contains(p[i + 1])
}

/// The successors of a node (none for a node without outgoing edges).
pub open spec fn successors(adj: Map<u64, Seq<u64>>, n: u64) -> Seq<u64> {
    if adj.contains_key(n) {
        adj[n]
    } else {
        Seq::empty()
    }
}

/// Whether a graph has a cycle: a path that returns to its first node.
pub open spec fn has_cycle_spec(adj: Map<u64, Seq<u64>>) -> bool {
    exists|p: Seq<u64>| #[trigger] is_path(adj, p) && p[0] == p.last()
}

/// A graph with one more edge, after the earlier edges of its source.
pub open spec fn edge_added(adj: Map<u64, Seq<u64>>, from: u64, to: u64) -> Map<u64, Seq<u64>> {
    adj.insert(from, successors(adj, from).push(to))
}

/// The graph that a sequence of edges builds, edge by edge, from no edge.
pub open spec fn graph_of(edges: Seq<(u64, u64)>) -> Map<u64, Seq<u64>>
    decreases edges.len(),
{
    if edges.len() == 0 {
        Map::empty()
    } else {
        edge_added(graph_of(edges.drop_last()), edges.last().0, edges.last().1)
    }
}

/// Adding an edge keeps every earlier edge.
proof fn lemma_edge_added_keeps(adj: Map<u64, Seq<u64>>, from: u64, to: u64, a: u64, b: u64)
    requires
        successors(adj, a).contains(b),
    ensures
        successors(edge_added(adj, from, to), a).contains(b),
{
    if a == from {
        let j = choose|j: int| 0 <= j < successors(adj, a).len() && successors(adj, a)[j] == b;
        assert(successors(edge_added(adj, from, to), a)[j] == b);
    }
}

/// Every edge of a sequence is an edge of the graph it builds.
proof fn lemma_graph_of_has_edges(edges: Seq<(u64, u64)>, k: int)
    requires
        0 <= k < edges.len(),
    ensures
        successors(graph_of(edges), edges[k].0).contains(edges[k].1),
    decreases edges.len(),
{
    let d = edges.drop_last();
    let g = graph_of(d);
    if k == edges.len() - 1 {
        let e = edges.last();
        assert(successors(graph_of(edges), e.0)[successors(g, e.0).len() as int] == e.1);
    } else {
        lemma_graph_of_has_edges(d, k);
        assert(d[k] == edges[k]);
        lemma_edge_added_keeps(g, edges.last().0, edges.last().1, edges[k].0, edges[k].1);
    }
}

/// Adding conflict edges never removes a cycle: once the graph has one, it
/// keeps it through any further `add_edge`.
pub proof fn lemma_add_edge_keeps_cycle(adj: Map<u64, Seq<u64>>, from: u64, to: u64)
    requires
        has_cycle_spec(adj),
    ensures
        has_cycle_spec(edge_added(adj, from, to)),
{
    let p = choose|p: Seq<u64>| #[trigger] is_path(adj, p) && p[0] == p.last();
    assert forall|i: int| 0 <= i < p.len() - 1 implies (#[trigger] successors(edge_added(adj, from, to), p[i])).contains(
        p[i + 1],
    ) by {
        assert(successors(adj, p[i]).contains(p[i + 1]));
        lemma_edge_added_keeps(adj, from, to, p[i], p[i + 1]);
    }
    assert(is_path(edge_added(adj, from, to), p));
}

/// Two transactions with conflict edges both ways make a cycle, whatever
/// other edges were added around them.
pub proof fn lemma_mutual_edges_make_cycle(edges: Seq<(u64, u64)>, i: int, j: int)
    requires
        0 <= i < edges.len(),
        0 <= j < edges.len(),
        edges[i].0 == edges[j].1,
        edges[i].1 == edges[j].0,
    ensures
        has_cycle_spec(graph_of(edges)),
{
    lemma_graph_of_has_edges(edges, i);
    lemma_graph_of_has_edges(edges, j);
    let g = graph_of(edges);
    let p = seq![edges[i].0, edges[i].1, edges[i].0];
    assert forall|k: int| 0 <= k < p.len() - 1 implies (#[trigger] successors(g, p[k])).contains(p[k + 1]) by {
        if k == 1 {
            assert(p[1] == edges[j].0 && p[2] == edges[j].1);
        }
    }
    assert(is_path(g, p));
}

/// The graph of conflicts between transactions: for each transaction, the
/// transactions it conflicts with, in the order the edges were added.
#[derive(Debug, Clone)]
pub struct ConflictGraph {
    edges: Vec<(u64, Vec<u64>)>,
}

/// The state of a depth-first search: every visited node off the stack is
/// finished, has a finishing number below `ctr`, and its successors are
/// finished earlier; the stack is a path of visited nodes.
pub open spec fn dfs_inv(
    adj: Map<u64, Seq<u64>>,
    visited: Seq<u64>,
    stack: Seq<u64>,
    fin: Map<u64, nat>,
    ctr: nat,
) -> bool {
    &&& visited.no_duplicates()
    &&& stack.no_duplicates()
    &&& forall|x: u64| #[trigger] fin.contains_key(x) ==> visited.contains(x)
    &&& forall|i: int| 0 <= i < stack.len() ==> visited.contains(#[trigger] stack[i])
    &&& forall|i: int| 0 <= i < stack.len() - 1 ==> (#[trigger] successors(adj, stack[i])).contains(stack[i + 1])
    &&& forall|b: u64| #[trigger] visited.contains(b) && !stack.contains(b) ==> {
        &&& fin.contains_key(b)
        &&& fin[b] < ctr
        &&& forall|k: int| 0 <= k < successors(adj, b).len() ==> {
            let y = #[trigger] successors(adj, b)[k];
            visited.contains(y) && !stack.contains(y) && fin.contains_key(y) && fin[y] < fin[b]
        }
    }
}

/// Finishing numbers decrease strictly along a path of finished nodes.
proof fn lemma_path_decreases(
    adj: Map<u64, Seq<u64>>,
    visited: Seq<u64>,
    stack: Seq<u64>,
    fin: Map<u64, nat>,
    ctr: nat,
    p: Seq<u64>,
    k: int,
)
    requires
        dfs_inv(adj, visited, stack, fin, ctr),
        is_path(adj, p),
        visited.contains(p[0]),
        !stack.contains(p[0]),
        1 <= k < p.len(),
    ensures
        visited.contains(p[k]),
        !stack.contains(p[k]),
        fin.contains_key(p[k]),
        fin[p[k]] < fin[p[0]],
    decreases k,
{
    if k == 1 {
        assert(successors(adj, p[0]).contains(p[1]));
        let sp = successors(adj, p[0]);
        let j = choose|j: int| 0 <= j < sp.len() && sp[j] == p[1];
        assert(sp[j] == p[1]);
    } else {
        lemma_path_decreases(adj, visited, stack, fin, ctr, p, k - 1);
        assert(successors(adj, p[k - 1]).contains(p[k]));
        let sp = successors(adj, p[k - 1]);
        let j = choose|j: int| 0 <= j < sp.len() && sp[j] == p[k];
        assert(sp[j] == p[k]);
        assert(visited.contains(p[k - 1]) && !stack.contains(p[k - 1]));
    }
}

/// A distinct sequence that holds every element of another distinct sequence,
/// and one more, is longer.
proof fn lemma_grow(v0: Seq<u64>, v: Seq<u64>, x: u64)
    requires
        v0.no_duplicates(),
        v.no_duplicates(),
        forall|y: u64| #[trigger] v0.contains(y) ==> v.contains(y),
        v.contains(x),
        !v0.contains(x),
    ensures
        v.len() > v0.len(),
{
    v0.unique_seq_to_set();
    v.unique_seq_to_set();
    let a = v0.to_set().insert(x);
    assert(a.subset_of(v.to_set()));
    vstd::seq_lib::seq_to_set_is_finite(v);
    vstd::set_lib::lemma_len_subset(a, v.to_set());
    assert(!v0.to_set().contains(x));
}

/// A distinct sequence inside a finite set is no longer than the set.
proof fn lemma_distinct_subset_len(s: Seq<u64>, u: Set<u64>)
    requires
        s.no_duplicates(),
        u.finite(),
        forall|i: int| 0 <= i < s.len() ==> u.contains(#[trigger] s[i]),
    ensures
        s.len() <= u.len(),
{
    s.unique_seq_to_set();
    assert(s.to_set().subset_of(u));
    vstd::set_lib::lemma_len_subset(s.to_set(), u);
}

impl ConflictGraph {
    /// The successors of each source node.
    pub closed spec fn adjacency(&self) -> Map<u64, Seq<u64>> {
        Map::new(
            |n: u64| graph_sources(self.edges@).contains(n),
            |n: u64| self.edges@[graph_sources(self.edges@).index_of(n)].1@,
        )
    }

    /// Well formed: each source node at most once.
    pub closed spec fn wf(&self) -> bool {
        graph_sources(self.edges@).no_duplicates()
    }

    proof fn lemma_index(&self, i: int)
        requires
            self.wf(),
            0 <= i < self.edges@.len(),
        ensures
            graph_sources(self.edges@).index_of(self.edges@[i].0) == i,
            self.adjacency().contains_key(self.edges@[i].0),
            self.adjacency()[self.edges@[i].0] == self.edges@[i].1@,
    {
        assert(graph_sources(self.edges@)[i] == self.edges@[i].0);
        assert(graph_sources(self.edges@).contains(self.edges@[i].0));
    }

    /// Every source and every successor is among `graph_nodes`.
    proof fn lemma_nodes(s: Seq<(u64, Vec<u64>)>)
        ensures
            forall|i: int| 0 <= i < s.len() ==> graph_nodes(s).contains(#[trigger] s[i].0),
            forall|i: int, k: int| 0 <= i < s.len() && 0 <= k < s[i].1@.len() ==> graph_nodes(s).contains(
                #[trigger] s[i].1@[k],
            ),
        decreases s.len(),
    {
        if s.len() > 0 {
            let d = s.drop_last();
            Self::lemma_nodes(d);
            let g = graph_nodes(s);
            let gd = graph_nodes(d);
            assert(g == gd + seq![s.last().0] + s.last().1@);
            assert forall|i: int| 0 <= i < s.len() implies g.contains(#[trigger] s[i].0) by {
                if i < d.len() {
                    assert(d[i] == s[i]);
                    let j = choose|j: int| 0 <= j < gd.len() && gd[j] == d[i].0;
                    assert(g[j] == s[i].0);
                } else {
                    assert(g[gd.len() as int] == s[i].0);
                }
            }
            assert forall|i: int, k: int| 0 <= i < s.len() && 0 <= k < s[i].1@.len() implies g.contains(
                #[trigger] s[i].1@[k],
            ) by {
                if i < d.len() {
                    assert(d[i] == s[i]);
                    assert(gd.contains(d[i].1@[k]));
                    let j = choose|j: int| 0 <= j < gd.len() && gd[j] == d[i].1@[k];
                    assert(g[j] == s[i].1@[k]);
                } else {
                    assert(g[gd.len() + 1 + k] == s[i].1@[k]);
                }
            }
        }
    }

    /// An empty graph.
    pub fn new() -> (g: Self)
        ensures
            g.wf(),
            g.adjacency() == Map::<u64, Seq<u64>>::empty(),
    {
        let g = ConflictGraph { edges: Vec::new() };
        assert(g.adjacency() =~= Map::<u64, Seq<u64>>::empty());
        g
    }

    fn find(&self, node: u64) -> (r: Option<usize>)
        requires
            self.wf(),
        ensures
            match r {
                Some(i) => i < self.edges@.len() && self.edges@[i as int].0 == node,
                None => !self.adjacency().contains_key(node),
            },
    {
        let mut i: usize = 0;
        while i < self.edges.len()
            invariant
                i <= self.edges@.len(),
                forall|j: int| 0 <= j < i ==> self.edges@[j].0 != node,
            decreases self.edges@.len() - i,
        {
            if self.edges[i].0 == node {
                return Some(i);
            }
            i += 1;
        }
        proof {
            if graph_sources(self.edges@).contains(node) {
                let j = choose|j: int| 0 <= j < self.edges@.len() && graph_sources(self.edges@)[j] == node;
                assert(self.edges@[j].0 == node);
            }
        }
        None
    }

    /// Adds an edge `from_tx -> to_tx`.
    pub fn add_edge(&mut self, from_tx: u64, to_tx: u64)
        requires
            old(self).wf(),
        ensures
            final(self).wf(),
            final(self).adjacency() == edge_added(old(self).adjacency(), from_tx, to_tx),
    {
        let ghost old_edges = self.edges@;
        match self.find(from_tx) {
            Some(i) => {
                proof {
                    self.lemma_index(i as int);
                }
                let (src, mut list) = self.edges.remove(i);
                list.push(to_tx);
                self.edges.insert(i, (src, list));
                proof {
                    assert(graph_sources(self.edges@) =~= graph_sources(old_edges));
                    let target = old(self).adjacency().insert(from_tx, successors(old(self).adjacency(), from_tx).push(to_tx));
                    assert forall|n: u64| #[trigger] self.adjacency().contains_key(n) implies self.adjacency()[n] == target[n] by {
                        let j = graph_sources(self.edges@).index_of(n);
                        assert(graph_sources(self.edges@).contains(n));
                        self.lemma_index(j);
                        old(self).lemma_index(j);
                    }
                    assert(self.adjacency() =~= target);
                }
            },
            None => {
                let mut list: Vec<u64> = Vec::new();
                list.push(to_tx);
                self.edges.push((from_tx, list));
                proof {
                    assert(graph_sources(self.edges@) =~= graph_sources(old_edges).push(from_tx));
                    assert(!graph_sources(old_edges).contains(from_tx));
                    let target = old(self).adjacency().insert(from_tx, successors(old(self).adjacency(), from_tx).push(to_tx));
                    assert(successors(old(self).adjacency(), from_tx).push(to_tx) =~= seq![to_tx]);
                    assert forall|n: u64| #[trigger] self.adjacency().contains_key(n) <==> target.contains_key(n) by {
                        if n != from_tx && old(self).adjacency().contains_key(n) {
                            let j = graph_sources(old_edges).index_of(n);
                            assert(graph_sources(old_edges).contains(n));
                            assert(graph_sources(self.edges@)[j] == n);
                        }
                        if n == from_tx {
                            assert(graph_sources(self.edges@)[old_edges.len() as int] == n);
                        }
                    }
                    assert forall|n: u64| #[trigger] self.adjacency().contains_key(n) implies self.adjacency()[n] == target[n] by {
                        let j = graph_sources(self.edges@).index_of(n);
                        assert(graph_sources(self.edges@).contains(n));
                        self.lemma_index(j);
                        if j < old_edges.len() {
                            old(self).lemma_index(j);
                        } else {
                            assert(self.edges@[j].1@ =~= seq![to_tx]);
                        }
                    }
                    assert(self.adjacency() =~= target);
                }
            },
        }
    }

    /// The successors of a node, as stored.
    fn succ_of(&self, node: u64) -> (r: Option<usize>)
        requires
            self.wf(),
        ensures
            match r {
                Some(i) => i < self.edges@.len() && self.edges@[i as int].0 == node && successors(
                    self.adjacency(),
                    node,
                ) == self.edges@[i as int].1@,
                None => successors(self.adjacency(), node) == Seq::<u64>::empty(),
            },
    {
        let r = self.find(node);
        proof {
            if let Some(i) = r {
                self.lemma_index(i as int);
            }
        }
        r
    }

    fn dfs(
        &self,
        node: u64,
        visited: &mut Vec<u64>,
        stack: &mut Vec<u64>,
        fin: Ghost<Map<u64, nat>>,
        ctr: Ghost<nat>,
        universe: Ghost<Set<u64>>,
    ) -> (r: (bool, Ghost<Map<u64, nat>>, Ghost<nat>))
        requires
            self.wf(),
            universe@.finite(),
            universe@ == graph_nodes(self.edges@).to_set(),
            forall|i: int| 0 <= i < old(visited)@.len() ==> universe@.contains(#[trigger] old(visited)@[i]),
            universe@.contains(node),
            dfs_inv(self.adjacency(), old(visited)@, old(stack)@, fin@, ctr@),
            !old(visited)@.contains(node),
            old(stack)@.len() > 0 ==> successors(self.adjacency(), old(stack)@.last()).contains(node),
        ensures
            r.0 ==> has_cycle_spec(self.adjacency()),
            !r.0 ==> {
                &&& dfs_inv(self.adjacency(), final(visited)@, final(stack)@, r.1@, r.2@)
                &&& final(stack)@ == old(stack)@
                &&& final(visited)@.contains(node)
                &&& forall|i: int| 0 <= i < final(visited)@.len() ==> universe@.contains(#[trigger] final(visited)@[i])
                &&& forall|x: u64| #[trigger] old(visited)@.contains(x) ==> final(visited)@.contains(x)
                &&& forall|x: u64| #[trigger] fin@.contains_key(x) ==> r.1@.contains_key(x) && r.1@[x] == fin@[x]
                &&& r.2@ >= ctr@
            },
        decreases universe@.len() - old(visited)@.len(),
    {
        let ghost adj = self.adjacency();
        let ghost v0 = visited@;
        let ghost s0 = stack@;
        proof {
            lemma_distinct_subset_len(v0, universe@);
        }
        visited.push(node);
        stack.push(node);
        let ghost mut fin_g = fin@;
        let ghost mut ctr_g = ctr@;
        proof {
            assert(visited@ == v0.push(node));
            assert(stack@ == s0.push(node));
            assert forall|x: u64| visited@.contains(x) <==> (v0.contains(x) || x == node) by {
                if visited@.contains(x) {
                    let j = choose|j: int| 0 <= j < visited@.len() && visited@[j] == x;
                    if j < v0.len() {
                        assert(v0[j] == x);
                    }
                }
                if v0.contains(x) {
                    let j = choose|j: int| 0 <= j < v0.len() && v0[j] == x;
                    assert(visited@[j] == x);
                }
                if x == node {
                    assert(visited@[v0.len() as int] == x);
                }
            }
            assert forall|x: u64| stack@.contains(x) <==> (s0.contains(x) || x == node) by {
                if stack@.contains(x) {
                    let j = choose|j: int| 0 <= j < stack@.len() && stack@[j] == x;
                    if j < s0.len() {
                        assert(s0[j] == x);
                    }
                }
                if s0.contains(x) {
                    let j = choose|j: int| 0 <= j < s0.len() && s0[j] == x;
                    assert(stack@[j] == x);
                }
                if x == node {
                    assert(stack@[s0.len() as int] == x);
                }
            }
            assert(!s0.contains(node)) by {
                if s0.contains(node) {
                    let j = choose|j: int| 0 <= j < s0.len() && s0[j] == node;
                    assert(v0.contains(s0[j]));
                }
            }
            assert(dfs_inv(adj, visited@, stack@, fin_g, ctr_g)) by {
                assert forall|i: int| 0 <= i < stack@.len() - 1 implies (#[trigger] successors(adj, stack@[i])).contains(stack@[i + 1]) by {
                    if i < s0.len() - 1 {
                        assert(stack@[i] == s0[i] && stack@[i + 1] == s0[i + 1]);
                    } else {
                        assert(stack@[i] == s0.last());
                    }
                }
                assert forall|i: int| 0 <= i < stack@.len() implies visited@.contains(#[trigger] stack@[i]) by {
                    if i < s0.len() {
                        assert(stack@[i] == s0[i]);
                        assert(v0.contains(s0[i]));
                    }
                }
                assert forall|b: u64| #[trigger] visited@.contains(b) && !stack@.contains(b) implies {
                    &&& fin_g.contains_key(b)
                    &&& fin_g[b] < ctr_g
                    &&& forall|k: int| 0 <= k < successors(adj, b).len() ==> {
                        let y = #[trigger] successors(adj, b)[k];
                        visited@.contains(y) && !stack@.contains(y) && fin_g.contains_key(y) && fin_g[y] < fin_g[b]
                    }
                } by {
                    assert(b != node);
                    assert(v0.contains(b) && !s0.contains(b));
                    assert forall|k: int| 0 <= k < successors(adj, b).len() implies {
                        let y = #[trigger] successors(adj, b)[k];
                        visited@.contains(y) && !stack@.contains(y) && fin_g.contains_key(y) && fin_g[y] < fin_g[b]
                    } by {
                        let y = successors(adj, b)[k];
                        assert(v0.contains(y) && !s0.contains(y));
                        assert(y != node);
                    }
                }
            }
        }
        let succ = self.succ_of(node);
        let n: usize = match succ {
            Some(i) => self.edges[i].1.len(),
            None => 0,
        };
        let ghost succs = successors(adj, node);
        let mut j: usize = 0;
        while j < n
            invariant
                self.wf(),
                adj == self.adjacency(),
                succs == successors(adj, node),
                n == succs.len(),
                succ matches Some(i) ==> i < self.edges@.len() && self.edges@[i as int].1@ == succs,
                universe@.finite(),
                universe@ == graph_nodes(self.edges@).to_set(),
                forall|i: int| 0 <= i < visited@.len() ==> universe@.contains(#[trigger] visited@[i]),
                dfs_inv(adj, visited@, stack@, fin_g, ctr_g),
                stack@ == s0.push(node),
                !s0.contains(node),
                visited@.contains(node),
                forall|x: u64| #[trigger] v0.contains(x) ==> visited@.contains(x),
                v0.len() <= universe@.len(),
                succ is None ==> succs.len() == 0,
                v0 == old(visited)@,
                v0.no_duplicates(),
                !v0.contains(node),
                forall|x: u64| #[trigger] fin@.contains_key(x) ==> fin_g.contains_key(x) && fin_g[x] == fin@[x],
                ctr_g >= ctr@,
                j <= n,
                forall|k: int| 0 <= k < j ==> {
                    let y = #[trigger] succs[k];
                    visited@.contains(y) && !stack@.contains(y) && fin_g.contains_key(y) && fin_g[y] < ctr_g
                },
            decreases n - j,
        {
            let y: u64 = match succ {
                Some(i) => {
                    let yy = self.edges[i].1[j];
                    proof {
                        assert(self.edges@[i as int].1@ == succs);
                        assert(yy == self.edges@[i as int].1@[j as int]);
                    }
                    yy
                },
                None => {
                    proof {
                        assert(succs.len() == 0);
                    }
                    0
                },
            };
            proof {
                assert(y == succs[j as int]);
                if let Some(i) = succ {
                    Self::lemma_nodes(self.edges@);
                    assert(graph_nodes(self.edges@).contains(self.edges@[i as int].1@[j as int]));
                }
            }
            let mut k: usize = 0;
            while k < visited.len() && visited[k] != y
                invariant
                    k <= visited@.len(),
                    forall|m: int| 0 <= m < k ==> visited@[m] != y,
                decreases visited@.len() - k,
            {
                k += 1;
            }
            let seen = k < visited.len();
            proof {
                if !seen {
                    assert(!visited@.contains(y));
                } else {
                    assert(k < visited@.len() && visited@[k as int] == y);
                }
            }
            if !seen {
                proof {
                    lemma_distinct_subset_len(visited@, universe@);
                    lemma_grow(v0, visited@, node);
                    assert(stack@.last() == node);
                }
                let ghost v_pre = visited@;
                let ghost fin_pre = fin_g;
                let res = self.dfs(y, visited, stack, Ghost(fin_g), Ghost(ctr_g), universe);
                if res.0 {
                    return (true, Ghost(fin_g), Ghost(ctr_g));
                }
                proof {
                    let f2 = res.1@;
                    assert forall|x: u64| #[trigger] fin@.contains_key(x) implies f2.contains_key(x) && f2[x] == fin@[x] by {
                    }
                    assert(!stack@.contains(y)) by {
                        if stack@.contains(y) {
                            let q = choose|q: int| 0 <= q < stack@.len() && stack@[q] == y;
                            assert(v_pre.contains(y));
                        }
                    }
                    assert(visited@.contains(y));
                    assert forall|kk: int| 0 <= kk < j + 1 implies {
                        let z = #[trigger] succs[kk];
                        visited@.contains(z) && !stack@.contains(z) && f2.contains_key(z) && f2[z] < res.2@
                    } by {
                        let z = succs[kk];
                        if kk < j {
                            assert(v_pre.contains(z));
                            assert(fin_pre.contains_key(z));
                        }
                    }
                    fin_g = f2;
                    ctr_g = res.2@;
                }
            } else {
                let mut m: usize = 0;
                while m < stack.len() && stack[m] != y
                    invariant
                        m <= stack@.len(),
                        forall|q: int| 0 <= q < m ==> stack@[q] != y,
                    decreases stack@.len() - m,
                {
                    m += 1;
                }
                let on_stack = m < stack.len();
                if on_stack {
                    proof {
                        let st = stack@;
                        assert(m < st.len() && st[m as int] == y);
                        let p = st.subrange(m as int, st.len() as int).push(y);
                        assert(successors(adj, st.last()).contains(y)) by {
                            assert(succs[j as int] == y);
                        }
                        assert(is_path(adj, p)) by {
                            assert forall|i: int| 0 <= i < p.len() - 1 implies (#[trigger] successors(adj, p[i])).contains(p[i + 1]) by {
                                if i < p.len() - 2 {
                                    assert(p[i] == st[m + i] && p[i + 1] == st[m + i + 1]);
                                } else {
                                    assert(p[i] == st.last());
                                }
                            }
                        }
                        assert(p[0] == p.last());
                    }
                    return (true, Ghost(fin_g), Ghost(ctr_g));
                }
                proof {
                    assert(!stack@.contains(y)) by {
                        if stack@.contains(y) {
                            let q = choose|q: int| 0 <= q < stack@.len() && stack@[q] == y;
                            assert(stack@[q] == y);
                        }
                    }
                    assert(visited@.contains(y)) by {
                        assert(visited@[k as int] == y);
                    }
                }
            }
            j += 1;
        }
        let _ = stack.pop();
        proof {
            let f_new = fin_g.insert(node, ctr_g);
            assert(stack@ =~= s0);
            assert(!stack@.contains(node));
            assert forall|k: int| 0 <= k < succs.len() implies {
                let y = #[trigger] succs[k];
                visited@.contains(y) && !stack@.contains(y) && f_new.contains_key(y) && f_new[y] < ctr_g
            } by {
                let y = succs[k];
                assert(!(s0.push(node)).contains(y));
                assert(!s0.contains(y)) by {
                    if s0.contains(y) {
                        let q = choose|q: int| 0 <= q < s0.len() && s0[q] == y;
                        assert(s0.push(node)[q] == y);
                    }
                }
                assert(y != node) by {
                    assert(s0.push(node)[s0.len() as int] == node);
                }
            }
            assert forall|b: u64| #[trigger] visited@.contains(b) && !stack@.contains(b) implies {
                &&& f_new.contains_key(b)
                &&& f_new[b] < ctr_g + 1
                &&& forall|k: int| 0 <= k < successors(adj, b).len() ==> {
                    let y = #[trigger] successors(adj, b)[k];
                    visited@.contains(y) && !stack@.contains(y) && f_new.contains_key(y) && f_new[y] < f_new[b]
                }
            } by {
                if b != node {
                    assert(!(s0.push(node)).contains(b)) by {
                        if s0.push(node).contains(b) {
                            let q = choose|q: int| 0 <= q < s0.len() + 1 && s0.push(node)[q] == b;
                            if q < s0.len() {
                                assert(s0[q] == b);
                                assert(stack@.contains(b));
                            }
                        }
                    }
                    assert forall|k: int| 0 <= k < successors(adj, b).len() implies {
                        let y = #[trigger] successors(adj, b)[k];
                        visited@.contains(y) && !stack@.contains(y) && f_new.contains_key(y) && f_new[y] < f_new[b]
                    } by {
                        let y = successors(adj, b)[k];
                        assert(!(s0.push(node)).contains(y));
                        assert(!stack@.contains(y)) by {
                            if stack@.contains(y) {
                                let q = choose|q: int| 0 <= q < stack@.len() && stack@[q] == y;
                                assert(s0.push(node)[q] == y);
                            }
                        }
                        assert(y != node) by {
                            assert(s0.push(node)[s0.len() as int] == node);
                        }
                    }
                }
            }
            assert(dfs_inv(adj, visited@, stack@, f_new, ctr_g + 1)) by {
                assert forall|i: int| 0 <= i < stack@.len() implies visited@.contains(#[trigger] stack@[i]) by {
                    assert(stack@[i] == s0.push(node)[i]);
                }
                assert forall|i: int| 0 <= i < stack@.len() - 1 implies (#[trigger] successors(adj, stack@[i])).contains(stack@[i + 1]) by {
                    assert(stack@[i] == s0.push(node)[i]);
                    assert(stack@[i + 1] == s0.push(node)[i + 1]);
                }
            }
            fin_g = f_new;
            ctr_g = ctr_g + 1;
        }
        (false, Ghost(fin_g), Ghost(ctr_g))
    }

    /// Whether the graph has a cycle (a transaction that, through conflicts,
    /// depends on itself).
    pub fn has_cycle(&self) -> (b: bool)
        requires
            self.wf(),
        ensures
            b == has_cycle_spec(self.adjacency()),
    {
        let ghost adj = self.adjacency();
        let ghost universe = graph_nodes(self.edges@).to_set();
        let mut visited: Vec<u64> = Vec::new();
        let mut stack: Vec<u64> = Vec::new();
        let ghost mut fin: Map<u64, nat> = Map::empty();
        let ghost mut ctr: nat = 0;
        proof {
            Self::lemma_nodes(self.edges@);
            vstd::seq_lib::seq_to_set_is_finite(graph_nodes(self.edges@));
            assert(stack@ =~= Seq::<u64>::empty());
        }
        let mut i: usize = 0;
        while i < self.edges.len()
            invariant
                self.wf(),
                adj == self.adjacency(),
                universe.finite(),
                universe == graph_nodes(self.edges@).to_set(),
                forall|k: int| 0 <= k < self.edges@.len() ==> graph_nodes(self.edges@).contains(#[trigger] self.edges@[k].0),
                i <= self.edges@.len(),
                stack@ == Seq::<u64>::empty(),
                forall|k: int| 0 <= k < visited@.len() ==> universe.contains(#[trigger] visited@[k]),
                dfs_inv(adj, visited@, stack@, fin, ctr),
                forall|k: int| 0 <= k < i ==> visited@.contains(#[trigger] self.edges@[k].0),
            decreases self.edges@.len() - i,
        {
            let node = self.edges[i].0;
            let mut k: usize = 0;
            while k < visited.len() && visited[k] != node
                invariant
                    k <= visited@.len(),
                    forall|m: int| 0 <= m < k ==> visited@[m] != node,
                decreases visited@.len() - k,
            {
                k += 1;
            }
            let seen = k < visited.len();
            if !seen {
                proof {
                    assert(!visited@.contains(node));
                    assert(universe.contains(node));
                }
                let ghost v_before = visited@;
                let res = self.dfs(node, &mut visited, &mut stack, Ghost(fin), Ghost(ctr), Ghost(universe));
                if res.0 {
                    return true;
                }
                proof {
                    fin = res.1@;
                    ctr = res.2@;
                    assert forall|k2: int| 0 <= k2 < i + 1 implies visited@.contains(#[trigger] self.edges@[k2].0) by {
                        if k2 < i {
                            assert(v_before.contains(self.edges@[k2].0));
                        }
                    }
                }
            } else {
                proof {
                    assert(visited@[k as int] == node);
                }
            }
            i += 1;
        }
        proof {
            if has_cycle_spec(adj) {
                let p = choose|p: Seq<u64>| #[trigger] is_path(adj, p) && p[0] == p.last();
                assert(successors(adj, p[0]).contains(p[1]));
                assert(adj.contains_key(p[0]));
                let q = graph_sources(self.edges@).index_of(p[0]);
                assert(graph_sources(self.edges@).contains(p[0]));
                assert(self.edges@[q].0 == p[0]);
                assert(visited@.contains(p[0]));
                assert(!stack@.contains(p[0]));
                lemma_path_decreases(adj, visited@, stack@, fin, ctr, p, p.len() - 1);
                assert(false);
            }
        }
        false
    }
}

} // verus!
