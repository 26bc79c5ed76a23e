use config_center::command::{ConfigContent, ConfigFormat, RaftCommand};
use config_center::log::LogEntry;
use config_center::node::{Message, NodeState, ProposeError, RaftNode};
use config_center::types::{RaftConfig, RaftPeer};

fn cmd(id: u64) -> RaftCommand {
    RaftCommand::DeleteConfig { id }
}

fn entry(index: u64, term: u64, id: u64) -> LogEntry {
    LogEntry { index, term, command: cmd(id) }
}

fn raft_config() -> RaftConfig {
    RaftConfig {
        node_id: 1,
        peers: vec![
            RaftPeer { id: 2, address: "node2".to_string() },
            RaftPeer { id: 3, address: "node3".to_string() },
        ],
        election_timeout: 1000,
        heartbeat_interval: 100,
        snapshot_interval: 1000,
        max_size_per_msg: 64,
        max_inflight_msgs: 16,
    }
}

#[test]
fn test_raft_node_creation() {
    let config = raft_config();
    let node = RaftNode::new(config.node_id, config.peer_ids(), 16);
    assert_eq!(node.id(), 1);
    assert_eq!(node.peers(), &vec![2, 3]);
}

#[test]
fn test_raft_state_transition() {
    let config = raft_config();
    let mut node = RaftNode::new(config.node_id, config.peer_ids(), 16);
    assert_eq!(node.get_state(), NodeState::Follower);
    let out = node.election_timeout();
    assert_eq!(node.get_state(), NodeState::Candidate);
    assert_eq!(node.get_term(), 1);
    assert_eq!(node.get_voted_for(), Some(1));
    assert_eq!(out.len(), 2);
    assert_eq!(out[1].to, 3);
    match &out[0].message {
        Message::RequestVote { term, candidate_id, last_log_index, last_log_term } => {
            assert_eq!((*term, *candidate_id, *last_log_index, *last_log_term), (1, 1, 0, 0));
        }
        _ => panic!("expected a vote request"),
    }
    let beats = node.handle_vote_reply(2, 1, true);
    assert_eq!(node.get_state(), NodeState::Leader);
    assert_eq!(beats.len(), 2);
}

#[test]
fn single_node_elects_itself_and_commits() {
    let mut node = RaftNode::new(7, vec![], 4);
    node.election_timeout();
    assert_eq!(node.get_state(), NodeState::Leader);
    assert_eq!(node.propose(cmd(1)), Ok(1));
    assert_eq!(node.commit_index(), 1);
}

#[test]
fn proposal_to_follower_is_refused_without_change() {
    let mut node = RaftNode::new(1, vec![2, 3], 4);
    assert_eq!(node.propose(cmd(1)), Err(ProposeError::NotLeader { leader: None }));
    assert_eq!(node.log().last_index(), 0);
    node.handle_append_entries(1, 2, 0, 0, &vec![], 0);
    assert_eq!(node.propose(cmd(1)), Err(ProposeError::NotLeader { leader: Some(2) }));
    assert_eq!(node.log().last_index(), 0);
    assert_eq!(node.get_term(), 1);
}

#[test]
fn votes_once_per_term_and_for_up_to_date_logs() {
    let mut node = RaftNode::new(1, vec![2, 3], 4);
    let r = node.handle_request_vote(1, 2, 0, 0);
    assert!(matches!(r.message, Message::VoteReply { term: 1, granted: true }));
    let r = node.handle_request_vote(1, 3, 0, 0);
    assert!(matches!(r.message, Message::VoteReply { term: 1, granted: false }));
    let r = node.handle_request_vote(1, 2, 0, 0);
    assert!(matches!(r.message, Message::VoteReply { term: 1, granted: true }));
    node.handle_append_entries(1, 2, 0, 0, &vec![entry(1, 1, 9)], 0);
    let r = node.handle_request_vote(2, 3, 0, 0);
    assert!(matches!(r.message, Message::VoteReply { term: 2, granted: false }));
    assert_eq!(node.get_term(), 2);
    let r = node.handle_request_vote(2, 3, 1, 1);
    assert!(matches!(r.message, Message::VoteReply { term: 2, granted: true }));
    let r = node.handle_request_vote(1, 2, 5, 5);
    assert!(matches!(r.message, Message::VoteReply { term: 2, granted: false }));
}

#[test]
fn higher_term_demotes_leader() {
    let mut node = RaftNode::new(1, vec![2, 3], 4);
    node.election_timeout();
    node.handle_vote_reply(2, 1, true);
    assert_eq!(node.get_state(), NodeState::Leader);
    node.handle_append_reply(3, 5, false, 0);
    assert_eq!(node.get_state(), NodeState::Follower);
    assert_eq!(node.get_term(), 5);
    assert_eq!(node.get_voted_for(), None);
}

#[test]
fn follower_rejects_gap_and_replaces_divergent_tail() {
    let mut node = RaftNode::new(1, vec![2, 3], 4);
    let r = node.handle_append_entries(1, 2, 3, 1, &vec![entry(4, 1, 1)], 0);
    assert!(matches!(r.message, Message::AppendReply { success: false, .. }));
    let r = node.handle_append_entries(1, 2, 0, 0, &vec![entry(1, 1, 1), entry(2, 1, 2), entry(3, 1, 3)], 1);
    assert!(matches!(r.message, Message::AppendReply { term: 1, success: true, match_index: 3 }));
    assert_eq!(node.commit_index(), 1);
    let r = node.handle_append_entries(2, 3, 1, 1, &vec![entry(2, 2, 20)], 2);
    assert!(matches!(r.message, Message::AppendReply { term: 2, success: true, match_index: 2 }));
    assert_eq!(node.log().last_index(), 2);
    assert_eq!(node.log().entry(2).term, 2);
    assert!(matches!(node.log().entry(2).command, RaftCommand::DeleteConfig { id: 20 }));
    assert_eq!(node.log().entry(1).term, 1);
    assert_eq!(node.commit_index(), 2);
    // A stale, shorter message discards nothing.
    node.handle_append_entries(2, 3, 0, 0, &vec![entry(1, 1, 1)], 0);
    assert_eq!(node.log().last_index(), 2);
    assert_eq!(node.commit_index(), 2);
}

#[test]
fn committed_entries_are_never_replaced() {
    let mut node = RaftNode::new(1, vec![2, 3], 4);
    node.handle_append_entries(1, 2, 0, 0, &vec![entry(1, 1, 1)], 1);
    assert_eq!(node.commit_index(), 1);
    let r = node.handle_append_entries(2, 3, 0, 0, &vec![entry(1, 2, 5)], 1);
    assert!(matches!(r.message, Message::AppendReply { success: false, .. }));
    assert_eq!(node.log().entry(1).term, 1);
}

#[test]
fn stale_term_append_is_refused() {
    let mut node = RaftNode::new(1, vec![2, 3], 4);
    node.handle_request_vote(3, 2, 0, 0);
    let r = node.handle_append_entries(2, 3, 0, 0, &vec![entry(1, 2, 1)], 0);
    assert!(matches!(r.message, Message::AppendReply { term: 3, success: false, match_index: 0 }));
    assert_eq!(node.log().last_index(), 0);
}

#[test]
fn leader_commits_only_current_term_entries_on_majority() {
    let mut node = RaftNode::new(1, vec![2, 3], 4);
    node.handle_append_entries(1, 2, 0, 0, &vec![entry(1, 1, 1)], 0);
    node.election_timeout();
    node.handle_vote_reply(2, 2, true);
    assert_eq!(node.get_state(), NodeState::Leader);
    // The entry of term 1 reaches a majority but is not committed alone.
    node.handle_append_reply(2, 2, true, 1);
    assert_eq!(node.commit_index(), 0);
    assert_eq!(node.propose(cmd(2)), Ok(2));
    node.handle_append_reply(3, 2, true, 2);
    assert_eq!(node.commit_index(), 2);
}

#[test]
fn lagging_follower_gets_snapshot_after_compaction() {
    let mut leader = RaftNode::new(1, vec![2, 3], 4);
    leader.election_timeout();
    leader.handle_vote_reply(2, 1, true);
    leader.propose(cmd(1)).unwrap();
    leader.propose(cmd(2)).unwrap();
    leader.handle_append_reply(2, 1, true, 2);
    assert_eq!(leader.commit_index(), 2);
    leader.compact(2, config_center::store::ConfigStore::new());
    assert_eq!(leader.log().snapshot_index(), 2);
    let out = leader.heartbeat();
    assert_eq!(out[1].to, 3);
    let mut follower = RaftNode::new(3, vec![1, 2], 4);
    match &out[1].message {
        Message::InstallSnapshot { term, leader_id, last_index, last_term, .. } => {
            assert_eq!((*term, *leader_id, *last_index, *last_term), (1, 1, 2, 1));
            let r = follower.handle_install_snapshot(*term, *leader_id, *last_index, *last_term, vec![]);
            assert!(matches!(r.message, Message::AppendReply { term: 1, success: true, match_index: 2 }));
        }
        _ => panic!("expected a snapshot"),
    }
    assert_eq!(follower.commit_index(), 2);
    assert_eq!(follower.log().snapshot_index(), 2);
}

#[test]
fn leader_log_only_grows() {
    let mut node = RaftNode::new(1, vec![2, 3], 4);
    node.election_timeout();
    node.handle_vote_reply(3, 1, true);
    for id in 1..4 {
        node.propose(cmd(id)).unwrap();
    }
    // A rival claiming the same term cannot rewrite the leader's log.
    let r = node.handle_append_entries(1, 2, 0, 0, &vec![entry(1, 1, 50)], 3);
    assert!(matches!(r.message, Message::AppendReply { success: false, .. }));
    node.handle_append_reply(2, 1, false, 0);
    node.handle_request_vote(1, 2, 9, 9);
    assert_eq!(node.get_state(), NodeState::Leader);
    assert_eq!(node.log().last_index(), 3);
    for i in 1..4u64 {
        assert!(matches!(node.log().entry(i).command, RaftCommand::DeleteConfig { id } if id == i));
    }
}
