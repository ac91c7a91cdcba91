//! Raft-style replication: node states, the replicated log, replica tracking
//! and failover coordination.

use vstd::prelude::*;
use crate::collections::StrMap;
use crate::util::{now_millis, now_seconds_and_nanos, owned, push_decimal, decimal};

verus! {

/// The role of a Raft server.
#[derive(Debug, Clone, Copy, PartialEq, Eq, Structural)]
pub enum RaftState {
    Follower,
    Candidate,
    Leader,
}

impl RaftState {
    /// The role's name.
    pub fn as_str(&self) -> (s: &'static str)
        ensures
            s@ == match *self {
                RaftState::Follower => "Follower"@,
                RaftState::Candidate => "Candidate"@,
                RaftState::Leader => "Leader"@,
            },
    {
        match self {
            RaftState::Follower => "Follower",
            RaftState::Candidate => "Candidate",
            RaftState::Leader => "Leader",
        }
    }
}

/// An entry of the replicated log.
#[derive(Debug, Clone)]
pub struct LogEntry {
    pub term: u64,
    pub index: u64,
    pub command: Vec<u8>,
    pub committed: bool,
}

impl LogEntry {
    /// An uncommitted entry.
    pub fn new(term: u64, index: u64, command: Vec<u8>) -> (e: Self)
        ensures
            e.term == term,
            e.index == index,
            e.command == command,
            !e.committed,
    {
        LogEntry { term, index, command, committed: false }
    }

    /// Marks the entry committed.
    pub fn commit(&mut self)
        ensures
            *final(self) == (LogEntry { committed: true, ..*old(self) }),
    {
        self.committed = true;
    }
}

/// What the leader tracks of a replica. The heartbeat time is in
/// milliseconds since the epoch.
#[derive(Debug, Clone)]
pub struct ReplicaInfo {
    pub node_id: String,
    pub next_index: u64,
    pub match_index: u64,
    pub last_heartbeat: i64,
    pub healthy: bool,
}

impl ReplicaInfo {
    /// A healthy replica that has matched nothing yet.
    pub fn new(node_id: String) -> (r: Self)
        ensures
            r.node_id == node_id,
            r.next_index == 1,
            r.match_index == 0,
            r.healthy,
    {
        ReplicaInfo { node_id, next_index: 1, match_index: 0, last_heartbeat: now_millis(), healthy: true }
    }

    /// Records a heartbeat now: the replica is healthy again.
    pub fn update_heartbeat(&mut self)
        ensures
            final(self).healthy,
            final(self).node_id == old(self).node_id,
            final(self).next_index == old(self).next_index,
            final(self).match_index == old(self).match_index,
    {
        self.last_heartbeat = now_millis();
        self.healthy = true;
    }

    /// Marks the replica unhealthy.
    pub fn mark_unhealthy(&mut self)
        ensures
            *final(self) == (ReplicaInfo { healthy: false, ..*old(self) }),
    {
        self.healthy = false;
    }

    /// Whether the replica has not yet matched the leader's index.
    pub fn is_lagging(&self, leader_index: u64) -> (b: bool)
        ensures
            b == (self.match_index < leader_index),
    {
        self.match_index < leader_index
    }

    /// A copy of the record.
    pub fn duplicate(&self) -> (r: Self)
        ensures
            r == *self,
    {
        ReplicaInfo {
            node_id: self.node_id.clone(),
            next_index: self.next_index,
            match_index: self.match_index,
            last_heartbeat: self.last_heartbeat,
            healthy: self.healthy,
        }
    }
}

/// A Raft server's state.
#[derive(Debug)]
pub struct RaftNode {
    pub node_id: String,
    pub current_term: u64,
    pub voted_for: Option<String>,
    pub state: RaftState,
    pub log: Vec<LogEntry>,
    pub commit_index: u64,
    pub last_applied: u64,
    pub leader_id: Option<String>,
}

/// The term of the last entry of a log, 0 for an empty log.
pub open spec fn last_term(log: Seq<LogEntry>) -> u64 {
    if log.len() == 0 {
        0
    } else {
        log.last().term
    }
}

/// Errors of replication operations.
#[derive(Debug, Clone, PartialEq, Eq)]
pub enum ReplicationError {
    /// The entry's term is older than the node's current term.
    StaleTerm { entry_term: u64, current_term: u64 },
    /// The replication factor is already reached.
    ReplicationFactorReached(u64),
    /// No replica has this id.
    ReplicaNotFound(String),
    /// A failover is already running.
    FailoverInProgress,
    /// The last failover is too recent; the number of seconds still to wait.
    FailoverCooldown(u64),
}

impl RaftNode {
    /// A follower at term 0 with an empty log.
    pub fn new(node_id: String) -> (n: Self)
        ensures
            n.node_id == node_id,
            n.current_term == 0,
            n.voted_for is None,
            n.state == RaftState::Follower,
            n.log@.len() == 0,
            n.commit_index == 0,
            n.last_applied == 0,
            n.leader_id is None,
    {
        RaftNode {
            node_id,
            current_term: 0,
            voted_for: None,
            state: RaftState::Follower,
            log: Vec::new(),
            commit_index: 0,
            last_applied: 0,
            leader_id: None,
        }
    }

    /// Appends an entry to the log; refused when its term is older than the
    /// current term.
    pub fn append_entry(&mut self, entry: LogEntry) -> (r: Result<(), ReplicationError>)
        ensures
            r is Err <==> entry.term < old(self).current_term,
            r is Err ==> r == Err::<(), ReplicationError>(ReplicationError::StaleTerm {
                entry_term: entry.term,
                current_term: old(self).current_term,
            }) && final(self).log@ == old(self).log@,
            r is Ok ==> final(self).log@ == old(self).log@.push(entry),
            final(self).current_term == old(self).current_term,
            final(self).state == old(self).state,
            final(self).voted_for == old(self).voted_for,
            final(self).node_id == old(self).node_id,
            final(self).leader_id == old(self).leader_id,
            final(self).commit_index == old(self).commit_index,
            final(self).last_applied == old(self).last_applied,
    {
        if entry.term < self.current_term {
            return Err(ReplicationError::StaleTerm { entry_term: entry.term, current_term: self.current_term });
        }
        self.log.push(entry);
        Ok(())
    }

    /// The term of the last log entry (0 for an empty log).
    pub fn get_last_log_term(&self) -> (t: u64)
        ensures
            t == last_term(self.log@),
    {
        if self.log.len() == 0 {
            0
        } else {
            self.log[self.log.len() - 1].term
        }
    }

    /// The number of log entries.
    pub fn get_last_log_index(&self) -> (i: u64)
        requires
            self.log@.len() <= u64::MAX,
        ensures
            i == self.log@.len(),
    {
        self.log.len() as u64
    }

    /// Moves to a newer term: forgets the vote and falls back to follower.
    /// An older or equal term changes nothing.
    pub fn advance_term(&mut self, new_term: u64)
        ensures
            new_term > old(self).current_term ==> final(self).current_term == new_term
                && final(self).voted_for is None && final(self).state == RaftState::Follower,
            new_term <= old(self).current_term ==> *final(self) == *old(self),
            final(self).current_term >= old(self).current_term,
            final(self).log@ == old(self).log@,
            final(self).node_id == old(self).node_id,
            final(self).leader_id == old(self).leader_id,
            final(self).commit_index == old(self).commit_index,
            final(self).last_applied == old(self).last_applied,
    {
        if new_term > self.current_term {
            self.current_term = new_term;
            self.voted_for = None;
            if self.state != RaftState::Follower {
                self.state = RaftState::Follower;
            }
        }
    }

    /// Becomes the leader of the current term.
    pub fn become_leader(&mut self)
        ensures
            final(self).state == RaftState::Leader,
            final(self).leader_id == Some(old(self).node_id),
            final(self).current_term == old(self).current_term,
            final(self).voted_for == old(self).voted_for,
            final(self).log@ == old(self).log@,
            final(self).node_id == old(self).node_id,
            final(self).commit_index == old(self).commit_index,
            final(self).last_applied == old(self).last_applied,
    {
        self.state = RaftState::Leader;
        self.leader_id = Some(self.node_id.clone());
    }

    /// Starts an election: a new term in which the node votes for itself.
    pub fn become_candidate(&mut self)
        requires
            old(self).current_term < u64::MAX,
        ensures
            final(self).state == RaftState::Candidate,
            final(self).current_term == old(self).current_term + 1,
            final(self).voted_for == Some(old(self).node_id),
            final(self).log@ == old(self).log@,
            final(self).node_id == old(self).node_id,
            final(self).leader_id == old(self).leader_id,
            final(self).commit_index == old(self).commit_index,
            final(self).last_applied == old(self).last_applied,
    {
        self.state = RaftState::Candidate;
        self.current_term += 1;
        self.voted_for = Some(self.node_id.clone());
    }

    /// Falls back to follower and forgets the vote.
    pub fn become_follower(&mut self)
        ensures
            final(self).state == RaftState::Follower,
            final(self).voted_for is None,
            final(self).current_term == old(self).current_term,
            final(self).log@ == old(self).log@,
            final(self).node_id == old(self).node_id,
            final(self).leader_id == old(self).leader_id,
            final(self).commit_index == old(self).commit_index,
            final(self).last_applied == old(self).last_applied,
    {
        self.state = RaftState::Follower;
        self.voted_for = None;
    }
}

/// The number of healthy replicas in a sequence.
pub open spec fn healthy_count(s: Seq<ReplicaInfo>) -> nat
    decreases s.len(),
{
    if s.len() == 0 {
        0
    } else {
        healthy_count(s.drop_last()) + if s.last().healthy { 1nat } else { 0nat }
    }
}

/// The ids of the replicas whose match index is below the leader's, in order.
pub open spec fn lagging_ids(s: Seq<ReplicaInfo>, leader_index: u64) -> Seq<Seq<char>>
    decreases s.len(),
{
    if s.len() == 0 {
        Seq::empty()
    } else if s.last().match_index < leader_index {
        lagging_ids(s.drop_last(), leader_index).push(s.last().node_id@)
    } else {
        lagging_ids(s.drop_last(), leader_index)
    }
}

/// The text of a string as `{:?}` writes it (quoted, with escapes).
pub uninterp spec fn debug_text(s: Seq<char>) -> Seq<char>;

/// A string as `{:?}` writes it (`format!("{:?}", s)`): the result is named
/// `debug_text` of the string's characters.
#[verifier::external_body]
fn debug_quote(s: &str) -> (r: String)
    ensures
        r@ == debug_text(s@),
{
    format!("{:?}", s)
}

/// A list of strings as `{:?}` writes it: `[` items separated by `, ` `]`.
pub open spec fn debug_list(items: Seq<Seq<char>>) -> Seq<char>
    decreases items.len(),
{
    if items.len() == 0 {
        "[]"@
    } else {
        seq!['['] + debug_items(items) + seq![']']
    }
}

/// The items of a `{:?}` list, separated by `, `.
pub open spec fn debug_items(items: Seq<Seq<char>>) -> Seq<char>
    decreases items.len(),
{
    if items.len() == 0 {
        Seq::empty()
    } else if items.len() == 1 {
        debug_text(items[0])
    } else {
        debug_items(items.drop_last()) + ", "@ + debug_text(items.last())
    }
}

/// The replication status line: healthy and total counts and the lagging
/// replicas.
pub open spec fn status_text(healthy: nat, total: nat, lagging: Seq<Seq<char>>) -> Seq<char> {
    "Healthy: "@ + decimal(healthy) + "/"@ + decimal(total) + ", Lagging: "@ + debug_list(lagging)
}

/// The replicas of a cluster and the quorum they need.
#[derive(Debug)]
pub struct ReplicationManager {
    pub replicas: StrMap<ReplicaInfo>,
    pub replication_factor: u64,
    pub min_replicas_for_quorum: u64,
}

impl ReplicationManager {
    /// A manager without replicas; the quorum is a majority of the factor.
    pub fn new(replication_factor: u64) -> (m: Self)
        ensures
            m.replicas@ == Map::<Seq<char>, ReplicaInfo>::empty(),
            m.replication_factor == replication_factor,
            m.min_replicas_for_quorum == replication_factor / 2 + 1,
    {
        ReplicationManager {
            replicas: StrMap::new(),
            replication_factor,
            min_replicas_for_quorum: (replication_factor / 2) + 1,
        }
    }

    /// Registers a new healthy replica (replacing one with the same id);
    /// refused once the replication factor is reached.
    pub fn add_replica(&mut self, node_id: String) -> (r: Result<(), ReplicationError>)
        ensures
            r is Err <==> old(self).replicas@.len() >= old(self).replication_factor,
            r is Err ==> r == Err::<(), ReplicationError>(ReplicationError::ReplicationFactorReached(
                old(self).replication_factor,
            )) && final(self).replicas@ == old(self).replicas@,
            r is Ok ==> final(self).replicas@.dom() == old(self).replicas@.dom().insert(node_id@)
                && final(self).replicas@[node_id@].node_id@ == node_id@ && final(self).replicas@[node_id@].healthy
                && final(self).replicas@[node_id@].match_index == 0 && final(self).replicas@[node_id@].next_index == 1
                && forall|k: Seq<char>| k != node_id@ && #[trigger] old(self).replicas@.contains_key(k)
                ==> final(self).replicas@[k] == old(self).replicas@[k],
            final(self).replication_factor == old(self).replication_factor,
            final(self).min_replicas_for_quorum == old(self).min_replicas_for_quorum,
    {
        if self.replicas.len() as u64 >= self.replication_factor {
            return Err(ReplicationError::ReplicationFactorReached(self.replication_factor));
        }
        let info = ReplicaInfo::new(node_id.clone());
        let _ = self.replicas.insert(node_id, info);
        proof {
            assert(self.replicas@.dom() =~= old(self).replicas@.dom().insert(node_id@));
        }
        Ok(())
    }

    /// Removes a replica; refused when it is not registered.
    pub fn remove_replica(&mut self, node_id: &str) -> (r: Result<(), ReplicationError>)
        ensures
            r is Err <==> !old(self).replicas@.contains_key(node_id@),
            r matches Err(e) ==> e == ReplicationError::ReplicaNotFound(e->ReplicaNotFound_0) && e->ReplicaNotFound_0@
                == node_id@,
            final(self).replicas@ == old(self).replicas@.remove(node_id@),
            final(self).replication_factor == old(self).replication_factor,
            final(self).min_replicas_for_quorum == old(self).min_replicas_for_quorum,
    {
        match self.replicas.remove(node_id) {
            Some(_) => Ok(()),
            None => Err(ReplicationError::ReplicaNotFound(owned(node_id))),
        }
    }

    /// Records a heartbeat of a replica (nothing when it is not registered).
    pub fn update_replica_heartbeat(&mut self, node_id: &str)
        ensures
            final(self).replicas@.dom() == old(self).replicas@.dom(),
            final(self).replicas.key_order() == old(self).replicas.key_order(),
            old(self).replicas@.contains_key(node_id@) ==> {
                let o = old(self).replicas@[node_id@];
                let n = final(self).replicas@[node_id@];
                n.healthy && n.node_id == o.node_id && n.match_index == o.match_index && n.next_index == o.next_index
            },
            forall|k: Seq<char>| k != node_id@ && #[trigger] old(self).replicas@.contains_key(k)
                ==> final(self).replicas@[k] == old(self).replicas@[k],
            final(self).replication_factor == old(self).replication_factor,
            final(self).min_replicas_for_quorum == old(self).min_replicas_for_quorum,
    {
        let updated = match self.replicas.get(node_id) {
            Some(r) => {
                let mut r2 = r.duplicate();
                r2.update_heartbeat();
                Some(r2)
            },
            None => None,
        };
        if let Some(r2) = updated {
            let _ = self.replicas.insert(owned(node_id), r2);
            proof {
                assert(self.replicas@.dom() =~= old(self).replicas@.dom());
            }
        }
    }

    /// Marks a replica unhealthy (nothing when it is not registered).
    pub fn mark_replica_unhealthy(&mut self, node_id: &str)
        ensures
            final(self).replicas.key_order() == old(self).replicas.key_order(),
            old(self).replicas@.contains_key(node_id@) ==> final(self).replicas@ == old(self).replicas@.insert(
                node_id@,
                ReplicaInfo { healthy: false, ..old(self).replicas@[node_id@] },
            ),
            !old(self).replicas@.contains_key(node_id@) ==> final(self).replicas@ == old(self).replicas@,
            final(self).replication_factor == old(self).replication_factor,
            final(self).min_replicas_for_quorum == old(self).min_replicas_for_quorum,
    {
        let updated = match self.replicas.get(node_id) {
            Some(r) => {
                let mut r2 = r.duplicate();
                r2.mark_unhealthy();
                Some(r2)
            },
            None => None,
        };
        if let Some(r2) = updated {
            let _ = self.replicas.insert(owned(node_id), r2);
        }
    }

    /// The number of healthy replicas.
    pub fn get_healthy_replicas(&self) -> (n: usize)
        ensures
            n == healthy_count(self.replicas.value_order()),
    {
        let len = self.replicas.len();
        let mut n: usize = 0;
        let mut i: usize = 0;
        proof {
            use_type_invariant(&self.replicas);
            self.replicas.lemma_view_consistent();
        }
        while i < len
            invariant
                len == self.replicas.value_order().len(),
                len == self.replicas.key_order().len(),
                i <= len,
                n == healthy_count(self.replicas.value_order().subrange(0, i as int)),
                n <= i,
            decreases len - i,
        {
            let (_, r) = self.replicas.entry_at(i);
            proof {
                assert(self.replicas.value_order().subrange(0, i + 1).drop_last() =~= self.replicas.value_order().subrange(0, i as int));
            }
            if r.healthy {
                n += 1;
            }
            i += 1;
        }
        proof {
            assert(self.replicas.value_order().subrange(0, len as int) =~= self.replicas.value_order());
        }
        n
    }

    /// Whether enough replicas are healthy for a quorum.
    pub fn is_quorum_available(&self) -> (b: bool)
        ensures
            b == (healthy_count(self.replicas.value_order()) >= self.min_replicas_for_quorum),
    {
        self.get_healthy_replicas() as u64 >= self.min_replicas_for_quorum
    }

    /// A status line: `Healthy: h/n, Lagging: [..]`, the lagging replicas as
    /// `{:?}` lists them, in registration order.
    pub fn get_replication_status(&self, leader_index: u64) -> (s: String)
        ensures
            s@ == status_text(
                healthy_count(self.replicas.value_order()),
                self.replicas@.len(),
                lagging_ids(self.replicas.value_order(), leader_index),
            ),
    {
        let healthy = self.get_healthy_replicas();
        let total = self.replicas.len();
        let mut items = String::new();
        let mut count: usize = 0;
        let mut i: usize = 0;
        proof {
            use_type_invariant(&self.replicas);
            self.replicas.lemma_view_consistent();
        }
        while i < total
            invariant
                total == self.replicas.value_order().len(),
                total == self.replicas.key_order().len(),
                i <= total,
                count == lagging_ids(self.replicas.value_order().subrange(0, i as int), leader_index).len(),
                items@ == debug_items(lagging_ids(self.replicas.value_order().subrange(0, i as int), leader_index)),
                count <= i,
            decreases total - i,
        {
            let (_, r) = self.replicas.entry_at(i);
            proof {
                assert(self.replicas.value_order().subrange(0, i + 1).drop_last() =~= self.replicas.value_order().subrange(0, i as int));
            }
            let ghost l0 = lagging_ids(self.replicas.value_order().subrange(0, i as int), leader_index);
            let ghost items0 = items@;
            if r.is_lagging(leader_index) {
                if count > 0 {
                    items.append(", ");
                }
                let q = debug_quote(r.node_id.as_str());
                items.append(q.as_str());
                count += 1;
                proof {
                    reveal_strlit(", ");
                    let l1 = l0.push(r.node_id@);
                    assert(l1.drop_last() =~= l0);
                    assert(l1.last() == r.node_id@);
                    if l0.len() == 0 {
                        assert(items@ =~= debug_items(l1));
                    } else {
                        assert(items@ =~= debug_items(l1));
                    }
                }
            }
            i += 1;
        }
        proof {
            assert(self.replicas.value_order().subrange(0, total as int) =~= self.replicas.value_order());
        }
        let mut s = String::new();
        s.append("Healthy: ");
        push_decimal(&mut s, healthy as u64);
        s.append("/");
        push_decimal(&mut s, total as u64);
        s.append(", Lagging: ");
        if count == 0 {
            s.append("[]");
        } else {
            s.append("[");
            s.append(items.as_str());
            s.append("]");
        }
        proof {
            reveal_strlit("Healthy: ");
            reveal_strlit("/");
            reveal_strlit(", Lagging: ");
            reveal_strlit("[]");
            reveal_strlit("[");
            reveal_strlit("]");
            reveal_strlit(", ");
            let lag = lagging_ids(self.replicas.value_order(), leader_index);
            if count == 0 {
                assert(debug_list(lag) == "[]"@);
            } else {
                assert(debug_list(lag) =~= seq!['['] + debug_items(lag) + seq![']']);
            }
            assert(s@ =~= status_text(healthy as nat, total as nat, lag));
        }
        s
    }
}

/// The nanoseconds since the epoch of a time given as whole seconds and
/// nanoseconds past them.
pub open spec fn time_nanos(t: (i64, u32)) -> int {
    t.0 * 1_000_000_000 + t.1
}

/// Whole seconds from `last` to `now`, rounded toward zero, as an unsigned
/// count (a negative span wraps around, as a cast does).
pub open spec fn elapsed_secs(now: (i64, u32), last: (i64, u32)) -> u64 {
    let d: int = time_nanos(now) - time_nanos(last);
    let q: int = if d >= 0 { d / 1_000_000_000 } else { -((-d) / 1_000_000_000) };
    q as u64
}

/// Whole seconds from `last` to `now`.
fn elapsed_seconds(now: (i64, u32), last: (i64, u32)) -> (r: u64)
    ensures
        r == elapsed_secs(now, last),
{
    let d: i128 = (now.0 as i128 - last.0 as i128) * 1_000_000_000 + (now.1 as i128 - last.1 as i128);
    if d >= 0 {
        let q: u128 = (d as u128) / 1_000_000_000;
        (q as i128) as u64
    } else {
        let q: u128 = ((-d) as u128) / 1_000_000_000;
        let neg: i128 = -(q as i128);
        neg as u64
    }
}

/// The state of leader failover. A time is the whole seconds since the epoch
/// and the nanoseconds past them.
#[derive(Debug, Clone)]
pub struct FailoverCoordinator {
    pub current_leader: Option<String>,
    pub failover_in_progress: bool,
    pub last_failover: Option<(i64, u32)>,
    pub failover_timeout_secs: u64,
}

impl FailoverCoordinator {
    /// No leader, no failover yet, a cooldown of 30 seconds.
    pub fn new() -> (c: Self)
        ensures
            c.current_leader is None,
            !c.failover_in_progress,
            c.last_failover is None,
            c.failover_timeout_secs == 30,
    {
        FailoverCoordinator { current_leader: None, failover_in_progress: false, last_failover: None, failover_timeout_secs: 30 }
    }

    /// Installs a leader and ends any failover.
    pub fn set_leader(&mut self, node_id: String)
        ensures
            final(self).current_leader == Some(node_id),
            !final(self).failover_in_progress,
            final(self).last_failover == old(self).last_failover,
            final(self).failover_timeout_secs == old(self).failover_timeout_secs,
    {
        self.current_leader = Some(node_id);
        self.failover_in_progress = false;
    }

    /// Starts a failover at time `now`: refused while one runs, or while the
    /// last one is more recent than the cooldown; otherwise the leader is
    /// dropped and `now` recorded.
    pub fn initiate_failover_at(&mut self, now: (i64, u32)) -> (r: Result<(), ReplicationError>)
        ensures
            old(self).failover_in_progress ==> r == Err::<(), ReplicationError>(ReplicationError::FailoverInProgress)
                && *final(self) == *old(self),
            (!old(self).failover_in_progress && old(self).last_failover is Some && elapsed_secs(
                now,
                old(self).last_failover->0,
            ) < old(self).failover_timeout_secs) ==> r == Err::<(), ReplicationError>(
                ReplicationError::FailoverCooldown(
                    (old(self).failover_timeout_secs - elapsed_secs(now, old(self).last_failover->0)) as u64,
                ),
            ) && *final(self) == *old(self),
            r is Ok <==> !old(self).failover_in_progress && (old(self).last_failover is Some ==> elapsed_secs(
                now,
                old(self).last_failover->0,
            ) >= old(self).failover_timeout_secs),
            r is Ok ==> final(self).failover_in_progress && final(self).last_failover == Some(now)
                && final(self).current_leader is None && final(self).failover_timeout_secs == old(self).failover_timeout_secs,
    {
        if self.failover_in_progress {
            return Err(ReplicationError::FailoverInProgress);
        }
        if let Some(last) = self.last_failover {
            let elapsed = elapsed_seconds(now, last);
            if elapsed < self.failover_timeout_secs {
                return Err(ReplicationError::FailoverCooldown(self.failover_timeout_secs - elapsed));
            }
        }
        self.failover_in_progress = true;
        self.last_failover = Some(now);
        self.current_leader = None;
        Ok(())
    }

    /// Starts a failover now (see `initiate_failover_at`); whatever the clock
    /// reads, a running failover refuses it and an accepted one drops the
    /// leader.
    pub fn initiate_failover(&mut self) -> (r: Result<(), ReplicationError>)
        ensures
            old(self).failover_in_progress ==> r == Err::<(), ReplicationError>(ReplicationError::FailoverInProgress)
                && *final(self) == *old(self),
            old(self).last_failover is None && !old(self).failover_in_progress ==> r is Ok,
            r is Err ==> *final(self) == *old(self),
            r is Ok ==> final(self).failover_in_progress && final(self).last_failover is Some
                && final(self).current_leader is None && final(self).failover_timeout_secs == old(self).failover_timeout_secs,
    {
        let now = now_seconds_and_nanos();
        self.initiate_failover_at(now)
    }

    /// Ends the failover with a new leader.
    pub fn complete_failover(&mut self, new_leader: String)
        ensures
            final(self).current_leader == Some(new_leader),
            !final(self).failover_in_progress,
            final(self).last_failover == old(self).last_failover,
            final(self).failover_timeout_secs == old(self).failover_timeout_secs,
    {
        self.current_leader = Some(new_leader);
        self.failover_in_progress = false;
    }

    /// Whether there is a leader and no failover is running.
    pub fn is_leader_healthy(&self) -> (b: bool)
        ensures
            b == (self.current_leader is Some && !self.failover_in_progress),
    {
        self.current_leader.is_some() && !self.failover_in_progress
    }
}

} // verus!
