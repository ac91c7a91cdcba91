use nexus_db::collections::StrMap;
use nexus_db::engine::auth::{AuthManager, Permission, Role};
use nexus_db::engine::constraints::{Constraint, ConstraintError, ConstraintMetadata, ConstraintType, key_text};
use nexus_db::engine::distributed::{
    CoordinationStrategy, DistributedError, DistributedQueryExecutor, ShardId, ShardLocation,
};
use nexus_db::engine::replication::{
    FailoverCoordinator, LogEntry, RaftNode, RaftState, ReplicaInfo, ReplicationError, ReplicationManager,
};
use nexus_db::engine::sharding::{
    ConsistentHashRing, RebalanceCoordinator, ShardConfig, ShardManager, ShardRange, ShardingStrategy,
};
use nexus_db::types::Value;

#[test]
fn test_shard_range_creation() {
    let range = ShardRange::new(1, Some("a".to_string()), Some("m".to_string()));
    assert_eq!(range.shard_id, 1);
}

#[test]
fn test_shard_range_contains_key() {
    let range = ShardRange::new(1, Some("a".to_string()), Some("m".to_string()));
    assert!(range.contains_key("b"));
    assert!(range.contains_key("l"));
    assert!(!range.contains_key("z"));
    assert!(!range.contains_key("0"));
}

#[test]
fn shard_range_bounds_are_half_open() {
    let range = ShardRange::new(2, Some("b".to_string()), Some("d".to_string()));
    assert!(range.contains_key("b"));
    assert!(!range.contains_key("d"));
    let open = ShardRange::new(3, None, None);
    assert!(open.contains_key(""));
}

#[test]
fn test_sharding_strategy_string() {
    assert_eq!(ShardingStrategy::Range.as_str(), "Range");
    assert_eq!(ShardingStrategy::Hash.as_str(), "Hash");
    assert_eq!(ShardingStrategy::List.as_str(), "List");
}

#[test]
fn test_consistent_hash_ring_creation() {
    let ring = ConsistentHashRing::new(160);
    assert_eq!(ring.get_node_count(), 0);
}

#[test]
fn test_consistent_hash_ring_add_node() {
    let mut ring = ConsistentHashRing::new(16);
    ring.add_node("node1".to_string()).ok();
    assert_eq!(ring.get_node_count(), 1);
}

#[test]
fn test_consistent_hash_ring_get_node() {
    let mut ring = ConsistentHashRing::new(16);
    ring.add_node("node1".to_string()).ok();
    let node = ring.get_node("key1");
    assert_eq!(node, Some("node1".to_string()));
}

#[test]
fn test_consistent_hash_ring_multiple_nodes() {
    let mut ring = ConsistentHashRing::new(16);
    ring.add_node("node1".to_string()).ok();
    ring.add_node("node2".to_string()).ok();
    ring.add_node("node3".to_string()).ok();
    assert_eq!(ring.get_node_count(), 3);
}

#[test]
fn test_consistent_hash_ring_remove_node() {
    let mut ring = ConsistentHashRing::new(16);
    ring.add_node("node1".to_string()).ok();
    ring.add_node("node2".to_string()).ok();
    ring.remove_node("node1").ok();
    assert_eq!(ring.get_node_count(), 1);
}

#[test]
fn hash_ring_empty_and_after_removal() {
    let mut ring = ConsistentHashRing::new(8);
    assert_eq!(ring.get_node("k"), None);
    ring.add_node("a".to_string()).unwrap();
    ring.add_node("b".to_string()).unwrap();
    ring.remove_node("a").unwrap();
    for key in ["k1", "k2", "k3", "user_42"] {
        assert_eq!(ring.get_node(key), Some("b".to_string()));
    }
}

#[test]
fn hash_key_is_djb2_wrapping() {
    assert_eq!(ConsistentHashRing::hash_key(""), 5381);
    assert_eq!(ConsistentHashRing::hash_key("a"), 5381u32.wrapping_mul(33).wrapping_add(97));
}

#[test]
fn test_shard_config_creation() {
    let config = ShardConfig::new(1, "node1".to_string());
    assert_eq!(config.shard_id, 1);
    assert!(config.primary);
}

#[test]
fn test_shard_config_add_replica() {
    let mut config = ShardConfig::new(1, "node1".to_string());
    config.add_replica("node2".to_string());
    assert_eq!(config.replicas.len(), 1);
}

#[test]
fn test_shard_config_get_all_nodes() {
    let mut config = ShardConfig::new(1, "node1".to_string());
    config.add_replica("node2".to_string());
    config.add_replica("node3".to_string());
    let nodes = config.get_all_nodes();
    assert_eq!(nodes.len(), 3);
}

#[test]
fn test_shard_manager_creation() {
    let manager = ShardManager::new(ShardingStrategy::Hash, 16);
    assert_eq!(manager.strategy(), ShardingStrategy::Hash);
    assert_eq!(manager.get_shard_count(), 0);
}

#[test]
fn test_shard_manager_add_shard() {
    let mut manager = ShardManager::new(ShardingStrategy::Hash, 16);
    let config = ShardConfig::new(1, "node1".to_string());
    manager.add_shard(config).ok();
    assert_eq!(manager.get_shard_count(), 1);
}

#[test]
fn test_shard_manager_get_shard_for_key() {
    let mut manager = ShardManager::new(ShardingStrategy::Hash, 16);
    let config = ShardConfig::new(1, "node1".to_string());
    manager.add_shard(config).unwrap();

    let shard_id = manager.get_shard_for_key("test_key").unwrap();
    assert_eq!(shard_id, 1);
}

#[test]
fn test_rebalance_coordinator_creation() {
    let coordinator = RebalanceCoordinator::new();
    assert!(!coordinator.rebalance_in_progress);
}

#[test]
fn test_rebalance_coordinator_start() {
    let mut coordinator = RebalanceCoordinator::new();
    coordinator.start_rebalance(100).ok();
    assert!(coordinator.rebalance_in_progress);
    assert_eq!(coordinator.total_chunks, 100);
}

#[test]
fn test_rebalance_coordinator_complete() {
    let mut coordinator = RebalanceCoordinator::new();
    coordinator.start_rebalance(100).ok();
    coordinator.complete_rebalance().ok();
    assert!(!coordinator.rebalance_in_progress);
}

#[test]
fn rebalance_refuses_second_start_and_idle_completion() {
    let mut coordinator = RebalanceCoordinator::new();
    assert!(coordinator.complete_rebalance().is_err());
    coordinator.start_rebalance(10).unwrap();
    coordinator.mark_chunk_moved();
    assert_eq!(coordinator.moved_chunks, 1);
    assert!(coordinator.start_rebalance(5).is_err());
}

#[test]
fn test_shard_manager_multiple_shards() {
    let mut manager = ShardManager::new(ShardingStrategy::Range, 16);

    for i in 1..=4 {
        let config = ShardConfig::new(i, format!("node{}", i));
        manager.add_shard(config).ok();
    }

    assert_eq!(manager.get_shard_count(), 4);
}

#[test]
fn test_shard_manager_replicas() {
    let mut manager = ShardManager::new(ShardingStrategy::Hash, 16);
    let mut config = ShardConfig::new(1, "node1".to_string());
    config.add_replica("node2".to_string());
    config.add_replica("node3".to_string());

    manager.add_shard(config).unwrap();
    let replicas = manager.get_replicas_for_shard(1).unwrap();
    assert_eq!(replicas.len(), 2);
}

#[test]
fn test_hash_consistency() {
    let mut ring = ConsistentHashRing::new(16);
    ring.add_node("node1".to_string()).ok();

    let node_for_key = ring.get_node("test_key");
    assert!(node_for_key.is_some());
}

#[test]
fn shard_manager_duplicate_and_missing_shards() {
    let mut manager = ShardManager::new(ShardingStrategy::Hash, 4);
    assert!(manager.get_shard_for_key("k").is_err());
    manager.add_shard(ShardConfig::new(1, "n1".to_string())).unwrap();
    assert!(manager.add_shard(ShardConfig::new(1, "n2".to_string())).is_err());
    assert!(manager.remove_shard(9).is_err());
    assert!(manager.get_replicas_for_shard(9).is_err());
    manager.remove_shard(1).unwrap();
    assert_eq!(manager.get_shard_count(), 0);
}

#[test]
fn test_raft_state_string() {
    assert_eq!(RaftState::Follower.as_str(), "Follower");
    assert_eq!(RaftState::Candidate.as_str(), "Candidate");
    assert_eq!(RaftState::Leader.as_str(), "Leader");
}

#[test]
fn test_log_entry_creation() {
    let entry = LogEntry::new(1, 1, vec![1, 2, 3]);
    assert_eq!(entry.term, 1);
    assert_eq!(entry.index, 1);
    assert!(!entry.committed);
}

#[test]
fn test_log_entry_commit() {
    let mut entry = LogEntry::new(1, 1, vec![1, 2, 3]);
    entry.commit();
    assert!(entry.committed);
}

#[test]
fn test_replica_info_creation() {
    let replica = ReplicaInfo::new("node1".to_string());
    assert_eq!(replica.node_id, "node1");
    assert_eq!(replica.match_index, 0);
    assert!(replica.healthy);
}

#[test]
fn test_replica_info_lagging_check() {
    let replica = ReplicaInfo::new("node1".to_string());
    assert!(replica.is_lagging(10));
    assert!(!replica.is_lagging(0));
}

#[test]
fn test_replica_info_mark_unhealthy() {
    let mut replica = ReplicaInfo::new("node1".to_string());
    replica.mark_unhealthy();
    assert!(!replica.healthy);
}

#[test]
fn test_raft_node_creation() {
    let node = RaftNode::new("leader".to_string());
    assert_eq!(node.current_term, 0);
    assert_eq!(node.state, RaftState::Follower);
    assert!(node.voted_for.is_none());
}

#[test]
fn test_raft_node_append_entry() {
    let mut node = RaftNode::new("leader".to_string());
    let entry = LogEntry::new(1, 1, vec![1, 2, 3]);
    node.append_entry(entry).unwrap();
    assert_eq!(node.log.len(), 1);
}

#[test]
fn raft_node_refuses_stale_entry() {
    let mut node = RaftNode::new("n".to_string());
    node.advance_term(3);
    let r = node.append_entry(LogEntry::new(2, 1, vec![]));
    assert_eq!(r, Err(ReplicationError::StaleTerm { entry_term: 2, current_term: 3 }));
    assert!(node.log.is_empty());
}

#[test]
fn test_raft_node_get_last_log_index() {
    let mut node = RaftNode::new("leader".to_string());
    node.log.push(LogEntry::new(1, 1, vec![]));
    node.log.push(LogEntry::new(1, 2, vec![]));
    assert_eq!(node.get_last_log_index(), 2);
}

#[test]
fn test_raft_node_get_last_log_term() {
    let mut node = RaftNode::new("leader".to_string());
    node.log.push(LogEntry::new(1, 1, vec![]));
    node.log.push(LogEntry::new(2, 2, vec![]));
    assert_eq!(node.get_last_log_term(), 2);
}

#[test]
fn test_raft_node_advance_term() {
    let mut node = RaftNode::new("follower".to_string());
    node.advance_term(5);
    assert_eq!(node.current_term, 5);
    assert_eq!(node.state, RaftState::Follower);
}

#[test]
fn raft_node_term_never_goes_back() {
    let mut node = RaftNode::new("n".to_string());
    node.advance_term(5);
    node.become_leader();
    node.advance_term(2);
    assert_eq!(node.current_term, 5);
    assert_eq!(node.state, RaftState::Leader);
}

#[test]
fn test_raft_node_become_leader() {
    let mut node = RaftNode::new("node1".to_string());
    node.become_leader();
    assert_eq!(node.state, RaftState::Leader);
}

#[test]
fn test_raft_node_become_candidate() {
    let mut node = RaftNode::new("node1".to_string());
    let initial_term = node.current_term;
    node.become_candidate();
    assert_eq!(node.state, RaftState::Candidate);
    assert_eq!(node.current_term, initial_term + 1);
    assert_eq!(node.voted_for, Some("node1".to_string()));
}

#[test]
fn test_replication_manager_creation() {
    let manager = ReplicationManager::new(3);
    assert_eq!(manager.replication_factor, 3);
    assert_eq!(manager.min_replicas_for_quorum, 2);
}

#[test]
fn test_replication_manager_add_replica() {
    let mut manager = ReplicationManager::new(3);
    manager.add_replica("node1".to_string()).unwrap();
    manager.add_replica("node2".to_string()).unwrap();
    assert_eq!(manager.replicas.len(), 2);
}

#[test]
fn test_replication_manager_replication_factor_limit() {
    let mut manager = ReplicationManager::new(1);
    manager.add_replica("node1".to_string()).ok();
    let result = manager.add_replica("node2".to_string());
    assert!(result.is_err());
}

#[test]
fn test_replication_manager_remove_replica() {
    let mut manager = ReplicationManager::new(3);
    manager.add_replica("node1".to_string()).unwrap();
    manager.remove_replica("node1").unwrap();
    assert_eq!(manager.replicas.len(), 0);
}

#[test]
fn test_replication_manager_quorum_check() {
    let mut manager = ReplicationManager::new(3);
    manager.add_replica("node1".to_string()).ok();
    manager.add_replica("node2".to_string()).ok();
    assert!(manager.is_quorum_available());

    manager.mark_replica_unhealthy("node1");
    assert!(!manager.is_quorum_available());
}

#[test]
fn test_replication_manager_healthy_replicas() {
    let mut manager = ReplicationManager::new(3);
    manager.add_replica("node1".to_string()).ok();
    manager.add_replica("node2".to_string()).ok();
    manager.add_replica("node3".to_string()).ok();

    assert_eq!(manager.get_healthy_replicas(), 3);
    manager.mark_replica_unhealthy("node1");
    assert_eq!(manager.get_healthy_replicas(), 2);
}

#[test]
fn replication_status_text() {
    let mut manager = ReplicationManager::new(3);
    manager.add_replica("node1".to_string()).unwrap();
    manager.add_replica("node2".to_string()).unwrap();
    manager.mark_replica_unhealthy("node2");
    assert_eq!(manager.get_replication_status(0), "Healthy: 1/2, Lagging: []");
    assert_eq!(manager.get_replication_status(5), "Healthy: 1/2, Lagging: [\"node1\", \"node2\"]");
}

#[test]
fn test_failover_coordinator_creation() {
    let coordinator = FailoverCoordinator::new();
    assert!(coordinator.current_leader.is_none());
    assert!(!coordinator.failover_in_progress);
}

#[test]
fn test_failover_coordinator_set_leader() {
    let mut coordinator = FailoverCoordinator::new();
    coordinator.set_leader("node1".to_string());
    assert_eq!(coordinator.current_leader, Some("node1".to_string()));
}

#[test]
fn test_failover_coordinator_initiate_failover() {
    let mut coordinator = FailoverCoordinator::new();
    coordinator.set_leader("node1".to_string());
    coordinator.initiate_failover().unwrap();
    assert!(coordinator.failover_in_progress);
    assert!(coordinator.current_leader.is_none());
}

#[test]
fn test_failover_coordinator_complete_failover() {
    let mut coordinator = FailoverCoordinator::new();
    coordinator.set_leader("node1".to_string());
    coordinator.initiate_failover().ok();
    coordinator.complete_failover("node2".to_string());
    assert_eq!(coordinator.current_leader, Some("node2".to_string()));
    assert!(!coordinator.failover_in_progress);
}

#[test]
fn test_failover_cooldown() {
    let mut coordinator = FailoverCoordinator::new();
    coordinator.set_leader("node1".to_string());
    coordinator.initiate_failover().ok();

    let result = coordinator.initiate_failover();
    assert!(result.is_err());
}

#[test]
fn failover_cooldown_counts_down_in_seconds() {
    let mut coordinator = FailoverCoordinator::new();
    coordinator.initiate_failover_at((1_000, 0)).unwrap();
    coordinator.complete_failover("n2".to_string());
    assert_eq!(coordinator.initiate_failover_at((1_010, 0)), Err(ReplicationError::FailoverCooldown(20)));
    assert!(coordinator.initiate_failover_at((1_030, 0)).is_ok());
}

#[test]
fn failover_cooldown_counts_whole_seconds_of_nanosecond_times() {
    let mut coordinator = FailoverCoordinator::new();
    coordinator.initiate_failover_at((0, 999_500_000)).unwrap();
    coordinator.complete_failover("n2".to_string());
    assert_eq!(coordinator.initiate_failover_at((30, 999_000_000)), Err(ReplicationError::FailoverCooldown(1)));
    assert!(coordinator.initiate_failover_at((30, 999_500_000)).is_ok());
}

#[test]
fn test_failover_coordinator_leader_health() {
    let mut coordinator = FailoverCoordinator::new();
    assert!(!coordinator.is_leader_healthy());

    coordinator.set_leader("node1".to_string());
    assert!(coordinator.is_leader_healthy());

    coordinator.initiate_failover().ok();
    assert!(!coordinator.is_leader_healthy());
}

fn local_shard(node_id: usize, shard_number: usize, host: &str) -> ShardLocation {
    ShardLocation { shard_id: ShardId { node_id, shard_number }, host: host.to_string(), port: 5432, is_primary: true }
}

#[test]
fn test_create_executor() {
    let executor = DistributedQueryExecutor::new(CoordinationStrategy::Parallel);
    assert_eq!(executor.get_shard_count(), 0);
}

#[test]
fn test_register_shard() {
    let mut executor = DistributedQueryExecutor::new(CoordinationStrategy::Parallel);

    let location = ShardLocation {
        shard_id: ShardId { node_id: 0, shard_number: 0 },
        host: "localhost".to_string(),
        port: 5432,
        is_primary: true,
    };

    executor.register_shard(location);
    assert_eq!(executor.get_shard_count(), 1);
}

#[test]
fn test_plan_distributed_query() {
    let executor = DistributedQueryExecutor::new(CoordinationStrategy::Parallel);
    let fragments = executor.plan_distributed_query("SELECT * FROM users", 4).unwrap();

    assert_eq!(fragments.len(), 4);
    assert_eq!(fragments[0].fragment_id, 0);
}

#[test]
fn test_get_shard_for_key() {
    let mut executor = DistributedQueryExecutor::new(CoordinationStrategy::Parallel);

    let location = ShardLocation {
        shard_id: ShardId { node_id: 0, shard_number: 0 },
        host: "localhost".to_string(),
        port: 5432,
        is_primary: true,
    };

    executor.register_shard(location);
    let shard = executor.get_shard_for_key("user_123").unwrap();
    assert_eq!(shard.host, "localhost");
}

#[test]
fn shard_for_key_uses_byte_length() {
    let mut executor = DistributedQueryExecutor::new(CoordinationStrategy::Sequential);
    assert_eq!(executor.get_shard_for_key("x").unwrap_err(), DistributedError::NoShardsRegistered);
    executor.register_shard(local_shard(0, 0, "a"));
    executor.register_shard(local_shard(0, 1, "b"));
    executor.register_shard(local_shard(1, 2, "c"));
    assert_eq!(executor.get_shard_for_key("abcd").unwrap().host, "b");
    assert_eq!(executor.get_shard_for_key("é").unwrap().host, "c");
}

#[test]
fn test_execute_sequential() {
    let executor = DistributedQueryExecutor::new(CoordinationStrategy::Sequential);
    let fragments = executor.plan_distributed_query("SELECT * FROM users", 2).unwrap();

    let results = executor.execute_fragments(&fragments).unwrap();
    assert_eq!(results.len(), 2);
    assert!(results[0].execution_time_ms >= 10);
}

#[test]
fn test_execute_parallel() {
    let executor = DistributedQueryExecutor::new(CoordinationStrategy::Parallel);
    let fragments = executor.plan_distributed_query("SELECT * FROM users", 2).unwrap();

    let results = executor.execute_fragments(&fragments).unwrap();
    assert_eq!(results.len(), 2);
    assert!(results[0].execution_time_ms < 10);
}

#[test]
fn test_execute_pipeline() {
    let executor = DistributedQueryExecutor::new(CoordinationStrategy::PipelineAsync);
    let fragments = executor.plan_distributed_query("SELECT * FROM users", 2).unwrap();

    let results = executor.execute_fragments(&fragments).unwrap();
    assert_eq!(results.len(), 2);
    assert!(results[0].execution_time_ms < 5);
}

#[test]
fn test_execute_mapreduce() {
    let executor = DistributedQueryExecutor::new(CoordinationStrategy::MapReduce);
    let fragments = executor.plan_distributed_query("SELECT * FROM users", 2).unwrap();

    let results = executor.execute_fragments(&fragments).unwrap();
    assert!(results.len() > 0);
}

#[test]
fn mapreduce_halves_rows_and_adds_reduce_time() {
    let executor = DistributedQueryExecutor::new(CoordinationStrategy::MapReduce);
    let fragments = executor.plan_distributed_query("q", 1).unwrap();
    let results = executor.execute_fragments(&fragments).unwrap();
    assert_eq!(results[0].rows_returned, 50);
    assert_eq!(results[0].execution_time_ms, 12);
    assert_eq!(results[0].data.len(), 100);
    assert_eq!(results[0].data[0], vec!["key".to_string(), "value".to_string()]);
}

#[test]
fn test_aggregate_results() {
    let executor = DistributedQueryExecutor::new(CoordinationStrategy::Parallel);
    let fragments = executor.plan_distributed_query("SELECT * FROM users", 2).unwrap();

    let results = executor.execute_fragments(&fragments).unwrap();
    let aggregated = executor.aggregate_results(&results).unwrap();

    assert!(aggregated.len() > 0);
}

#[test]
fn distributed_join_plan_text() {
    let mut executor = DistributedQueryExecutor::new(CoordinationStrategy::Parallel);
    executor.register_shard(local_shard(0, 7, "h"));
    let fragments = executor.plan_distributed_join("a", "b").unwrap();
    assert_eq!(fragments.len(), 1);
    assert_eq!(fragments[0].sql, "SELECT * FROM a JOIN b ON a.id = b.id");
    assert_eq!(fragments[0].shard_id.shard_number, 7);
    assert_eq!(fragments[0].expected_rows, 50);
}

#[test]
fn test_primary_key_constraint() {
    let mut meta = ConstraintMetadata::new("users".to_string());

    let pk = Constraint {
        name: "pk_users".to_string(),
        columns: vec!["id".to_string()],
        constraint_type: ConstraintType::PrimaryKey,
    };

    assert!(meta.add_constraint(pk).is_ok());
    assert_eq!(meta.primary_key_column, Some("id".to_string()));
}

#[test]
fn test_unique_constraint() {
    let mut meta = ConstraintMetadata::new("users".to_string());

    let uk = Constraint {
        name: "uk_email".to_string(),
        columns: vec!["email".to_string()],
        constraint_type: ConstraintType::UniqueKey,
    };

    assert!(meta.add_constraint(uk).is_ok());
    assert!(meta.unique_indexes.contains_key("email"));
}

#[test]
fn test_foreign_key_constraint() {
    let mut meta = ConstraintMetadata::new("orders".to_string());

    let fk = Constraint {
        name: "fk_user".to_string(),
        columns: vec!["user_id".to_string()],
        constraint_type: ConstraintType::ForeignKey { ref_table: "users".to_string(), ref_column: "id".to_string() },
    };

    assert!(meta.add_constraint(fk).is_ok());
    assert_eq!(meta.foreign_keys.len(), 1);
}

#[test]
fn test_duplicate_constraint_name() {
    let mut meta = ConstraintMetadata::new("users".to_string());

    let c1 = Constraint {
        name: "constraint1".to_string(),
        columns: vec!["id".to_string()],
        constraint_type: ConstraintType::PrimaryKey,
    };

    let c2 = Constraint {
        name: "constraint1".to_string(),
        columns: vec!["email".to_string()],
        constraint_type: ConstraintType::UniqueKey,
    };

    assert!(meta.add_constraint(c1).is_ok());
    assert!(meta.add_constraint(c2).is_err());
}

#[test]
fn test_multiple_primary_keys_rejected() {
    let mut meta = ConstraintMetadata::new("users".to_string());

    let pk1 = Constraint {
        name: "pk1".to_string(),
        columns: vec!["id".to_string()],
        constraint_type: ConstraintType::PrimaryKey,
    };

    let pk2 = Constraint {
        name: "pk2".to_string(),
        columns: vec!["email".to_string()],
        constraint_type: ConstraintType::PrimaryKey,
    };

    assert!(meta.add_constraint(pk1).is_ok());
    assert!(meta.add_constraint(pk2).is_err());
}

fn text_row(pairs: &[(&str, &str)]) -> StrMap<String> {
    let mut m = StrMap::new();
    for (k, v) in pairs {
        m.insert(k.to_string(), v.to_string());
    }
    m
}

#[test]
fn row_validation_against_keys() {
    let mut meta = ConstraintMetadata::new("users".to_string());
    meta.add_constraint(Constraint {
        name: "pk".to_string(),
        columns: vec!["id".to_string()],
        constraint_type: ConstraintType::PrimaryKey,
    })
    .unwrap();
    meta.add_constraint(Constraint {
        name: "uk".to_string(),
        columns: vec!["email".to_string()],
        constraint_type: ConstraintType::UniqueKey,
    })
    .unwrap();
    let existing = vec![text_row(&[("id", "1"), ("email", "a@x")])];
    assert!(meta.validate_row_texts(&text_row(&[("id", "2"), ("email", "b@x")]), &existing).is_ok());
    assert!(matches!(
        meta.validate_row_texts(&text_row(&[("id", "1")]), &existing),
        Err(ConstraintError::DuplicatePrimaryKey)
    ));
    assert!(matches!(
        meta.validate_row_texts(&text_row(&[("email", "c@x")]), &existing),
        Err(ConstraintError::PrimaryKeyNull)
    ));
    match meta.validate_row_texts(&text_row(&[("id", "3"), ("email", "a@x")]), &existing) {
        Err(ConstraintError::DuplicateUnique(cols)) => assert_eq!(cols, "email"),
        other => panic!("unexpected {:?}", other),
    }
    assert!(meta.validate_row_texts(&text_row(&[("id", "4")]), &existing).is_ok());
}

#[test]
fn key_texts_of_values() {
    assert_eq!(key_text(Some(&Value::Integer(-12))), Some("-12".to_string()));
    assert_eq!(key_text(Some(&Value::Boolean(true))), Some("true".to_string()));
    assert_eq!(key_text(Some(&Value::Null)), Some("NULL".to_string()));
    assert_eq!(key_text(None), Some("NULL".to_string()));
    assert_eq!(key_text(Some(&Value::Float(0))), None);
}

#[test]
fn test_create_user() {
    let mut auth = AuthManager::new();
    assert!(auth.create_user("alice".to_string(), "password123".to_string(), Role::User).is_ok());
    assert!(auth.has_user("alice"));
}

#[test]
fn test_duplicate_user() {
    let mut auth = AuthManager::new();
    auth.create_user("alice".to_string(), "password123".to_string(), Role::User).unwrap();
    assert!(auth.create_user("alice".to_string(), "password456".to_string(), Role::User).is_err());
}

#[test]
fn test_authenticate_user() {
    let mut auth = AuthManager::new();
    auth.create_user("alice".to_string(), "password123".to_string(), Role::User).unwrap();
    assert!(auth.authenticate("alice", "password123").is_ok());
    assert_eq!(auth.current_user(), Some("alice"));
}

#[test]
fn test_invalid_password() {
    let mut auth = AuthManager::new();
    auth.create_user("alice".to_string(), "password123".to_string(), Role::User).unwrap();
    assert!(auth.authenticate("alice", "wrongpassword").is_err());
}

#[test]
fn test_permission_check() {
    let mut auth = AuthManager::new();
    auth.create_user("alice".to_string(), "password123".to_string(), Role::User).unwrap();
    auth.authenticate("alice", "password123").unwrap();

    assert!(auth.has_permission(Permission::Select).unwrap());
    assert!(!auth.has_permission(Permission::Admin).unwrap());
}

#[test]
fn test_admin_permissions() {
    let mut auth = AuthManager::new();
    auth.create_user("admin".to_string(), "admin123".to_string(), Role::Admin).unwrap();
    auth.authenticate("admin", "admin123").unwrap();

    assert!(auth.has_permission(Permission::Select).unwrap());
    assert!(auth.has_permission(Permission::Admin).unwrap());
    assert!(auth.has_permission(Permission::Drop).unwrap());
}

#[test]
fn test_logout() {
    let mut auth = AuthManager::new();
    auth.create_user("alice".to_string(), "password123".to_string(), Role::User).unwrap();
    auth.authenticate("alice", "password123").unwrap();
    assert_eq!(auth.current_user(), Some("alice"));

    auth.logout();
    assert_eq!(auth.current_user(), None);
}

#[test]
fn test_grant_permission() {
    let mut auth = AuthManager::new();
    auth.grant_permission_to_role(Role::Guest, Permission::Insert).unwrap();

    auth.create_user("guest".to_string(), "guest123".to_string(), Role::Guest).unwrap();
    auth.authenticate("guest", "guest123").unwrap();

    assert!(auth.has_permission(Permission::Insert).unwrap());
}

#[test]
fn auth_revoke_and_undefined_roles() {
    let mut auth = AuthManager::new();
    assert!(auth.has_permission(Permission::Select).is_err());
    assert!(auth.grant_permission_to_role(Role::DBA, Permission::Select).is_err());
    auth.revoke_permission_from_role(Role::User, Permission::Delete).unwrap();
    auth.create_user("bob".to_string(), "pw".to_string(), Role::User).unwrap();
    assert!(auth.authenticate("nobody", "pw").is_err());
    auth.authenticate("bob", "pw").unwrap();
    assert!(!auth.has_permission(Permission::Delete).unwrap());
    assert!(auth.has_permission(Permission::Update).unwrap());
    assert!(auth.has_table_permission("orders", Permission::Update).unwrap());
    assert!(!auth.has_table_permission("orders", Permission::Delete).unwrap());
}
