use config_center::command::RaftCommand;
use config_center::log::{LogEntry, RaftLog};
use config_center::store::ConfigStore;
use config_center::command::{ConfigContent, ConfigFormat};
use config_center::manager::{ManagerError, ProposalStatus, ReadLevel, RaftConfigManager};
use config_center::node::{Message, NodeState};
use config_center::store::ConfigFilter;

fn content(text: &str) -> ConfigContent {
    ConfigContent { format: ConfigFormat::Json, content: text.to_string(), is_encrypted: false }
}

fn create(m: &mut RaftConfigManager, name: &str) -> Result<u64, ManagerError> {
    m.create_config(
        name.to_string(),
        "ns".to_string(),
        "dept".to_string(),
        "app".to_string(),
        "dev".to_string(),
        None,
        content("{}"),
        "alice".to_string(),
        100,
    )
}

fn single_leader() -> RaftConfigManager {
    let mut m = RaftConfigManager::with_peers(1, vec![], 8, 100);
    m.election_timeout();
    assert_eq!(m.node().get_state(), NodeState::Leader);
    m
}

#[test]
fn single_node_create_commits_and_reads_version_one() {
    let mut m = single_leader();
    let idx = create(&mut m, "a").unwrap();
    assert_eq!(idx, 1);
    assert_eq!(m.proposal_status(idx, 1), ProposalStatus::Applied);
    let e = m.take_outcome(idx).unwrap().unwrap();
    assert_eq!((e.id, e.version), (1, 1));
    assert!(m.take_outcome(idx).is_none());
    assert_eq!(m.get_config(1, ReadLevel::Stale).unwrap().version, 1);
    m.begin_read();
    assert!(m.is_read_ready());
    assert_eq!(m.get_config(1, ReadLevel::Linearizable).unwrap().name, "a");

    let idx2 = create(&mut m, "a").unwrap();
    assert!(matches!(m.take_outcome(idx2), Some(Err(ManagerError::AlreadyExists))));
    assert_eq!(m.get_config(1, ReadLevel::Stale).unwrap().version, 1);
}

#[test]
fn update_of_missing_id_is_not_found() {
    let mut m = single_leader();
    let idx = create(&mut m, "a").unwrap();
    m.take_outcome(idx);
    let u = m.update_config(42, None, content("x"), "bob".to_string(), 5).unwrap();
    assert!(matches!(m.take_outcome(u), Some(Err(ManagerError::NotFound))));
    assert_eq!(m.get_config(1, ReadLevel::Stale).unwrap().version, 1);
    assert!(matches!(m.get_config(42, ReadLevel::Stale), Err(ManagerError::NotFound)));
}

#[test]
fn update_and_delete_through_the_log() {
    let mut m = single_leader();
    let idx = create(&mut m, "a").unwrap();
    m.take_outcome(idx);
    let u = m.update_config(1, Some("d".to_string()), content("{\"k\":1}"), "bob".to_string(), 5).unwrap();
    let e = m.take_outcome(u).unwrap().unwrap();
    assert_eq!((e.version, e.updated_at), (2, 5));
    let d = m.delete_config(1).unwrap();
    assert!(m.take_outcome(d).unwrap().unwrap().deleted);
    assert!(matches!(m.get_config(1, ReadLevel::Stale), Err(ManagerError::NotFound)));
    let filter = ConfigFilter { namespace: None, department: None, application: None, environment: None };
    let (page, total) = m.list_configs(&filter, 10, 1, ReadLevel::Stale).unwrap();
    assert_eq!(total, 0);
    assert!(page.is_empty());
}

#[test]
fn follower_refuses_proposals_without_touching_its_log() {
    let mut m = RaftConfigManager::with_peers(1, vec![2, 3], 8, 100);
    assert_eq!(create(&mut m, "a"), Err(ManagerError::NotLeader { leader: None }));
    assert_eq!(m.node().log().last_index(), 0);
    assert_eq!(m.delete_config(1), Err(ManagerError::NotLeader { leader: None }));
    assert!(matches!(
        m.get_config(1, ReadLevel::Linearizable),
        Err(ManagerError::NotLeader { leader: None })
    ));
}

#[test]
fn snapshots_fold_the_applied_log() {
    let mut m = RaftConfigManager::with_peers(1, vec![], 8, 2);
    m.election_timeout();
    for n in ["a", "b", "c", "d"] {
        create(&mut m, n).unwrap();
    }
    assert_eq!(m.last_applied(), 4);
    assert!(m.node().log().snapshot_index() >= 3);
    assert_eq!(m.get_config(4, ReadLevel::Stale).unwrap().name, "d");
}

#[test]
fn three_managers_replicate_and_apply() {
    let mut ms: Vec<RaftConfigManager> = (0..3u64)
        .map(|i| RaftConfigManager::with_peers(i, (0..3u64).filter(|&p| p != i).collect(), 8, 100))
        .collect();
    let mut net = ms[0].election_timeout();
    let mut steps = 0;
    let mut pump = |ms: &mut Vec<RaftConfigManager>, net: &mut Vec<config_center::node::Envelope>| {
        while !net.is_empty() {
            let e = net.remove(0);
            let to = e.to as usize;
            let out = ms[to].step(e);
            net.extend(out);
            steps += 1;
            assert!(steps < 10_000);
        }
    };
    pump(&mut ms, &mut net);
    assert_eq!(ms[0].node().get_state(), NodeState::Leader);
    let idx = create(&mut ms[0], "a").unwrap();
    assert_eq!(ms[0].proposal_status(idx, 1), ProposalStatus::Pending);
    net = ms[0].heartbeat();
    pump(&mut ms, &mut net);
    assert_eq!(ms[0].take_outcome(idx).unwrap().unwrap().version, 1);
    net = ms[0].heartbeat();
    pump(&mut ms, &mut net);
    for m in &ms {
        assert_eq!(m.get_config(1, ReadLevel::Stale).unwrap().version, 1);
    }
    net = ms[0].begin_read();
    assert!(!ms[0].is_read_ready());
    assert!(net.iter().all(|e| matches!(e.message, Message::AppendEntries { .. })));
    pump(&mut ms, &mut net);
    assert!(ms[0].is_read_ready());
    assert!(ms[0].get_config(1, ReadLevel::Linearizable).is_ok());
    assert!(matches!(ms[1].get_config(1, ReadLevel::Linearizable), Err(ManagerError::NotLeader { leader: Some(0) })));
}

#[test]
fn proposal_overwritten_by_new_leader_is_lost() {
    let mut m = RaftConfigManager::with_peers(0, vec![1, 2], 8, 100);
    m.election_timeout();
    m.step(config_center::node::Envelope {
        from: 1,
        to: 0,
        message: Message::VoteReply { term: 1, granted: true },
    });
    assert_eq!(m.node().get_state(), NodeState::Leader);
    let idx = create(&mut m, "a").unwrap();
    assert_eq!(m.proposal_status(idx, 1), ProposalStatus::Pending);
    let replacement = LogEntry {
        index: 1,
        term: 2,
        command: RaftCommand::DeleteConfig { id: 9 },
    };
    m.step(config_center::node::Envelope {
        from: 1,
        to: 0,
        message: Message::AppendEntries {
            term: 2,
            leader_id: 1,
            prev_log_index: 0,
            prev_log_term: 0,
            entries: vec![replacement],
            leader_commit: 1,
        },
    });
    assert_eq!(m.node().get_state(), NodeState::Follower);
    assert_eq!(m.proposal_status(idx, 1), ProposalStatus::Lost);
    assert_eq!(m.last_applied(), 1);
    assert!(matches!(m.take_outcome(1), Some(Err(ManagerError::NotFound))));
}

fn raft_config(node_id: u64, peers: &[u64], max_size_per_msg: u64) -> config_center::types::RaftConfig {
    config_center::types::RaftConfig {
        node_id,
        peers: peers
            .iter()
            .map(|&id| config_center::types::RaftPeer { id, address: format!("node{}", id) })
            .collect(),
        election_timeout: 1000,
        heartbeat_interval: 100,
        snapshot_interval: 10,
        max_size_per_msg,
        max_inflight_msgs: 16,
    }
}

#[test]
fn manager_from_settings() {
    let m = RaftConfigManager::new(&raft_config(1, &[2, 3], 64)).unwrap();
    assert_eq!(m.node().id(), 1);
    assert_eq!(m.node().peers(), &vec![2, 3]);
    assert_eq!(m.node().get_state(), NodeState::Follower);
    assert!(RaftConfigManager::new(&raft_config(1, &[2, 2], 64)).is_err());
    assert!(RaftConfigManager::new(&raft_config(1, &[1, 3], 64)).is_err());
    assert!(RaftConfigManager::new(&raft_config(1, &[2, 3], 0)).is_err());
    assert!(RaftConfigManager::new(&raft_config(1, &[], 1)).is_ok());
}

#[test]
fn manager_restores_durable_state() {
    let entries = vec![
        LogEntry { index: 1, term: 2, command: RaftCommand::DeleteConfig { id: 1 } },
        LogEntry { index: 2, term: 3, command: RaftCommand::DeleteConfig { id: 2 } },
    ];
    let log = RaftLog::restore(0, 0, ConfigStore::new(), entries).unwrap();
    let m = RaftConfigManager::restore(&raft_config(1, &[2, 3], 64), 3, Some(2), log).unwrap();
    assert_eq!(m.node().get_state(), NodeState::Follower);
    assert_eq!(m.node().get_term(), 3);
    assert_eq!(m.node().get_voted_for(), Some(2));
    assert_eq!(m.node().log().last_index(), 2);
    assert_eq!(m.node().log().last_term(), 3);
    assert_eq!(m.last_applied(), 0);
    let gap = vec![LogEntry { index: 5, term: 1, command: RaftCommand::DeleteConfig { id: 1 } }];
    assert!(RaftLog::restore(0, 0, ConfigStore::new(), gap).is_none());
    assert!(ConfigStore::restore(vec![]).is_some());
}
