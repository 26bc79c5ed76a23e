use config_center::cluster::Cluster;
use config_center::command::RaftCommand;
use config_center::node::{NodeState, ProposeError};

/// Delivers every message in flight, losing those that `cut` rejects,
/// until none is left.
fn settle(c: &mut Cluster, cut: &dyn Fn(u64, u64) -> bool) {
    let mut rounds = 0;
    while !c.pending().is_empty() {
        let e = &c.pending()[0];
        if cut(e.from, e.to) {
            c.drop_message(0);
        } else {
            c.deliver(0);
        }
        rounds += 1;
        assert!(rounds < 10_000);
    }
}

fn connected(_: u64, _: u64) -> bool {
    false
}

fn leaders(c: &Cluster) -> Vec<(usize, u64)> {
    (0..c.size()).filter(|&i| c.node(i).get_state() == NodeState::Leader).map(|i| (i, c.node(i).get_term())).collect()
}

#[test]
fn three_nodes_elect_one_leader_and_replicate() {
    let mut c = Cluster::new(3, 8);
    c.timeout(0);
    settle(&mut c, &connected);
    assert_eq!(leaders(&c), vec![(0, 1)]);
    assert_eq!(c.propose(0, RaftCommand::DeleteConfig { id: 1 }), Ok(1));
    c.heartbeat(0);
    settle(&mut c, &connected);
    assert_eq!(c.node(0).commit_index(), 1);
    c.heartbeat(0);
    settle(&mut c, &connected);
    for i in 0..3 {
        assert_eq!(c.node(i).log().last_index(), 1);
        assert_eq!(c.node(i).commit_index(), 1);
    }
}

#[test]
fn proposal_to_follower_is_not_leader() {
    let mut c = Cluster::new(3, 8);
    assert_eq!(c.propose(1, RaftCommand::DeleteConfig { id: 1 }), Err(ProposeError::NotLeader { leader: None }));
    c.timeout(0);
    settle(&mut c, &connected);
    assert_eq!(c.propose(2, RaftCommand::DeleteConfig { id: 1 }), Err(ProposeError::NotLeader { leader: Some(0) }));
    assert_eq!(c.node(2).log().last_index(), 0);
}

#[test]
fn split_vote_leaves_no_second_leader() {
    let mut c = Cluster::new(3, 8);
    c.timeout(0);
    c.timeout(1);
    settle(&mut c, &connected);
    let l = leaders(&c);
    assert!(l.len() <= 1);
    c.timeout(2);
    settle(&mut c, &connected);
    let l = leaders(&c);
    assert_eq!(l.len(), 1);
}

#[test]
fn partitioned_leader_steps_down_and_loses_uncommitted_tail() {
    let mut c = Cluster::new(3, 8);
    c.timeout(0);
    settle(&mut c, &connected);
    c.propose(0, RaftCommand::DeleteConfig { id: 1 }).unwrap();
    c.heartbeat(0);
    settle(&mut c, &connected);
    c.heartbeat(0);
    settle(&mut c, &connected);
    assert_eq!(c.node(1).commit_index(), 1);

    // Node 0 is cut off; its new entry cannot commit.
    let cut = |from: u64, to: u64| from == 0 || to == 0;
    assert_eq!(c.propose(0, RaftCommand::DeleteConfig { id: 2 }), Ok(2));
    c.heartbeat(0);
    settle(&mut c, &cut);
    assert_eq!(c.node(0).commit_index(), 1);

    // The majority side elects a new leader and keeps committing.
    c.timeout(1);
    settle(&mut c, &cut);
    assert_eq!(c.node(1).get_state(), NodeState::Leader);
    assert_eq!(c.node(1).get_term(), 2);
    assert_eq!(c.propose(1, RaftCommand::DeleteConfig { id: 3 }), Ok(2));
    c.heartbeat(1);
    settle(&mut c, &cut);
    assert_eq!(c.node(1).commit_index(), 2);
    assert_eq!(c.node(0).get_state(), NodeState::Leader);

    // Reconnected, the old leader sees the higher term and steps down; its
    // uncommitted entry is replaced by the new leader's.
    c.heartbeat(1);
    settle(&mut c, &connected);
    assert_eq!(c.node(0).get_state(), NodeState::Follower);
    assert_eq!(c.node(0).get_term(), 2);
    assert_eq!(c.node(0).log().entry(2).term, 2);
    assert!(matches!(c.node(0).log().entry(2).command, RaftCommand::DeleteConfig { id: 3 }));
    assert_eq!(c.node(0).commit_index(), 2);
    assert_eq!(leaders(&c), vec![(1, 2)]);
}
