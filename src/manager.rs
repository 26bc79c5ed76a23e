//! The replicated configuration manager: turns client operations into
//! proposed commands, applies committed entries to the state machine in log
//! order, and serves reads at a chosen consistency level.

use vstd::prelude::*;
use crate::command::{ConfigContent, RaftCommand};
use crate::log::{LogView, RaftLog};
use crate::node::{
    Envelope,
    Message,
    NodeState,
    NodeView,
    ProposeError,
    RaftNode,
    commit_kept,
    quorum,
    snapshot_moves_forward,
};
use crate::types::{Error, RaftConfig};
use crate::store::{ApplyError, ConfigEntity, ConfigFilter, ConfigStore, apply_all, apply_spec, is_active};

verus! {

/// The commands of the entries after `from` up to `to`.
pub open spec fn commands_between(log: LogView, from: int, to: int) -> Seq<RaftCommand> {
    Seq::new((to - from) as nat, |k: int| log.entry(from + 1 + k).command)
}

/// Why a client operation failed.
#[derive(Debug, Clone, Copy, PartialEq, Eq, Structural)]
pub enum ManagerError {
    /// This node does not lead; `leader` is the leader it last heard of.
    NotLeader { leader: Option<u64> },
    /// The log has no index left.
    LogFull,
    /// The proposal's entry was replaced after a change of leader; it will
    /// never be applied and may be retried.
    Lost,
    /// An active entry with the same name and scope exists.
    AlreadyExists,
    /// No active entry has the id.
    NotFound,
    /// No id or version number is left.
    Exhausted,
}

/// The manager error for a refused command.
pub open spec fn from_apply(e: ApplyError) -> ManagerError {
    match e {
        ApplyError::AlreadyExists => ManagerError::AlreadyExists,
        ApplyError::NotFound => ManagerError::NotFound,
        ApplyError::Exhausted => ManagerError::Exhausted,
    }
}

/// Maps a refused command to the manager's error.
pub fn apply_error(e: ApplyError) -> (r: ManagerError)
    ensures
        r == from_apply(e),
{
    match e {
        ApplyError::AlreadyExists => ManagerError::AlreadyExists,
        ApplyError::NotFound => ManagerError::NotFound,
        ApplyError::Exhausted => ManagerError::Exhausted,
    }
}

/// The manager error for a refused proposal.
pub open spec fn from_propose(e: ProposeError) -> ManagerError {
    match e {
        ProposeError::NotLeader { leader } => ManagerError::NotLeader { leader },
        ProposeError::LogFull => ManagerError::LogFull,
    }
}

/// The consistency of a read.
#[derive(Debug, Clone, Copy, PartialEq, Eq, Structural)]
pub enum ReadLevel {
    /// Served by the leader after a majority confirmed its leadership, with
    /// every committed entry applied.
    Linearizable,
    /// Served from the local state machine as it stands; it may lag.
    Stale,
}

/// Where a proposal stands.
#[derive(Debug, Clone, Copy, PartialEq, Eq, Structural)]
pub enum ProposalStatus {
    /// Not applied yet.
    Pending,
    /// Applied; its outcome can be collected.
    Applied,
    /// Replaced by another entry; it will never be applied.
    Lost,
}

/// What a manager holds.
pub struct ManagerView {
    pub node: NodeView,
    pub store: Seq<ConfigEntity>,
    pub last_applied: u64,
    pub outcomes: Seq<(u64, Result<ConfigEntity, ApplyError>)>,
    pub read_term: u64,
    pub read_acks: Seq<u64>,
    pub snapshot_threshold: u64,
}

/// Whether the proposal at `index`, made in term `term`, was replaced.
pub open spec fn is_lost(v: ManagerView, index: u64, term: u64) -> bool {
    match v.node.log.term_at(index as int) {
        Some(t) => t != term,
        None => index > v.node.log.last_index() && v.node.term > term,
    }
}

/// The status of the proposal at `index`, made in term `term`.
pub open spec fn status_of(v: ManagerView, index: u64, term: u64) -> ProposalStatus {
    if is_lost(v, index, term) {
        ProposalStatus::Lost
    } else if index <= v.last_applied {
        ProposalStatus::Applied
    } else {
        ProposalStatus::Pending
    }
}

/// Whether a leader may serve a linearizable read: a majority confirmed
/// its leadership in its current term, it committed an entry of that term,
/// and it applied everything committed.
pub open spec fn read_ready(v: ManagerView) -> bool {
    &&& v.node.role == NodeState::Leader
    &&& v.read_term == v.node.term
    &&& quorum(1 + v.read_acks.len() as int, v.node.peers.len() as int)
    &&& v.node.log.term_at(v.node.commit_index as int) == Some(v.node.term)
    &&& v.last_applied == v.node.commit_index
}

/// The outcomes of applying `cmds` to `s`, one per command, tagged with the
/// indices that follow `first - 1`.
pub open spec fn outcomes_of(s: Seq<ConfigEntity>, cmds: Seq<RaftCommand>, first: int) -> Seq<
    (u64, Result<ConfigEntity, ApplyError>),
> {
    Seq::new(
        cmds.len(),
        |k: int| ((first + k) as u64, apply_spec(apply_all(s, cmds.subrange(0, k)), cmds[k]).1),
    )
}

/// The peer ids that `c` names, in order.
pub open spec fn peer_ids_of(c: RaftConfig) -> Seq<u64> {
    Seq::new(c.peers@.len(), |k: int| c.peers@[k].id)
}

/// Cluster settings a node can run with: distinct peers other than the
/// node itself, and room for at least one entry per message.
pub open spec fn valid_raft_config(c: RaftConfig) -> bool {
    &&& peer_ids_of(c).no_duplicates()
    &&& !peer_ids_of(c).contains(c.node_id)
    &&& peer_ids_of(c).len() < 0x1_0000_0000
    &&& c.max_size_per_msg > 0
}

/// Whether the ids in `v` are distinct.
fn distinct(v: &Vec<u64>) -> (r: bool)
    ensures
        r == v@.no_duplicates(),
{
    let mut i: usize = 0;
    while i < v.len()
        invariant
            0 <= i <= v@.len(),
            forall|a: int, b: int| 0 <= a < b < i ==> v@[a] != v@[b],
        decreases v@.len() - i,
    {
        let mut j: usize = 0;
        while j < i
            invariant
                0 <= j <= i < v@.len(),
                forall|a: int| 0 <= a < j ==> v@[a] != v@[i as int],
            decreases i - j,
        {
            if v[j] == v[i] {
                return false;
            }
            j = j + 1;
        }
        i = i + 1;
    }
    true
}

/// Whether `v` holds `x`.
fn contains(v: &Vec<u64>, x: u64) -> (r: bool)
    ensures
        r == v@.contains(x),
{
    let mut i: usize = 0;
    while i < v.len()
        invariant
            0 <= i <= v@.len(),
            forall|a: int| 0 <= a < i ==> v@[a] != x,
        decreases v@.len() - i,
    {
        if v[i] == x {
            assert(v@[i as int] == x);
            return true;
        }
        i = i + 1;
    }
    false
}

/// Whether `e` is a successful reply in term `t`.
pub open spec fn acknowledges(e: Envelope, t: u64) -> bool {
    match e.message {
        Message::AppendReply { term, success, .. } => success && term == t,
        _ => false,
    }
}

/// The manager `after` once it has caught up with its node `w`: when `w`
/// installed a snapshot past what was applied, the state machine restarts
/// from it; every entry after that up to the commit index is then applied
/// in order, its outcome kept; the log may be folded into a new snapshot.
pub open spec fn caught_up(before: ManagerView, w: NodeView, after: ManagerView) -> bool {
    let reset = w.log.snapshot_index > before.last_applied;
    let s0 = if reset { w.log.snapshot_state } else { before.store };
    let a0 = if reset { w.log.snapshot_index } else { before.last_applied };
    let cmds = commands_between(w.log, a0 as int, w.commit_index as int);
    &&& after.node == (NodeView { log: after.node.log, ..w })
    &&& commit_kept(w, after.node)
    &&& after.node.log.last_index() == w.log.last_index()
    &&& after.last_applied == w.commit_index
    &&& after.store == apply_all(s0, cmds)
    &&& after.outcomes == before.outcomes + outcomes_of(s0, cmds, a0 + 1)
    &&& after.snapshot_threshold == before.snapshot_threshold
    &&& after.read_term == before.read_term
}

/// State machine determinism: two managers that applied the same number
/// of entries, whose snapshots agree (the later one is the earlier one with
/// the commands in between applied) and whose logs hold the same commands
/// after the later snapshot, hold identical entities and versions.
pub proof fn lemma_same_commands_same_state(m1: ManagerView, m2: ManagerView)
    requires
        manager_wf(m1),
        manager_wf(m2),
        m1.last_applied == m2.last_applied,
        m1.node.log.snapshot_index <= m2.node.log.snapshot_index,
        m2.node.log.snapshot_state == apply_all(
            m1.node.log.snapshot_state,
            commands_between(m1.node.log, m1.node.log.snapshot_index as int, m2.node.log.snapshot_index as int),
        ),
        commands_between(m1.node.log, m2.node.log.snapshot_index as int, m1.last_applied as int) == commands_between(
            m2.node.log,
            m2.node.log.snapshot_index as int,
            m2.last_applied as int,
        ),
    ensures
        m1.store == m2.store,
{
    let l = m1.node.log;
    let s1 = l.snapshot_index as int;
    let s2 = m2.node.log.snapshot_index as int;
    let la = m1.last_applied as int;
    assert(commands_between(l, s1, la) =~= commands_between(l, s1, s2) + commands_between(l, s2, la));
    crate::store::lemma_apply_all_concat(l.snapshot_state, commands_between(l, s1, s2), commands_between(l, s2, la));
}

/// A node together with its configuration state machine.
pub struct RaftConfigManager {
    node: RaftNode,
    store: ConfigStore,
    last_applied: u64,
    outcomes: Vec<(u64, Result<ConfigEntity, ApplyError>)>,
    read_term: u64,
    read_acks: Vec<u64>,
    snapshot_threshold: u64,
}

impl View for RaftConfigManager {
    type V = ManagerView;

    closed spec fn view(&self) -> ManagerView {
        ManagerView {
            node: self.node@,
            store: self.store@,
            last_applied: self.last_applied,
            outcomes: self.outcomes@,
            read_term: self.read_term,
            read_acks: self.read_acks@,
            snapshot_threshold: self.snapshot_threshold,
        }
    }
}

/// The invariant of a manager between operations: everything committed is
/// applied, the applied entries that follow the snapshot stay within the
/// threshold, and the outcomes waiting for collection are ordered by index.
pub open spec fn manager_wf(v: ManagerView) -> bool {
    &&& applied_wf(v)
    &&& v.last_applied == v.node.commit_index
    &&& v.last_applied - v.node.log.snapshot_index <= v.snapshot_threshold
}

/// The state machine is the snapshot's state with every entry after the
/// snapshot up to `last_applied` applied in order, nothing past the commit
/// index is applied, and outcomes are kept in index order.
pub open spec fn applied_wf(v: ManagerView) -> bool {
    &&& forall|a: int, b: int| 0 <= a < b < v.outcomes.len() ==> (#[trigger] v.outcomes[a]).0 < (#[trigger] v.outcomes[b]).0
    &&& forall|a: int| 0 <= a < v.outcomes.len() ==> (#[trigger] v.outcomes[a]).0 <= v.last_applied
    &&& crate::node::node_wf(v.node)
    &&& crate::store::ids_in_order(v.store)
    &&& v.node.log.snapshot_index <= v.last_applied <= v.node.commit_index
    &&& v.store == apply_all(
        v.node.log.snapshot_state,
        commands_between(v.node.log, v.node.log.snapshot_index as int, v.last_applied as int),
    )
    &&& v.read_acks.no_duplicates()
    &&& forall|k: int| 0 <= k < v.read_acks.len() ==> v.node.peers.contains(#[trigger] v.read_acks[k])
}

impl RaftConfigManager {
    /// Well-formed.
    pub open spec fn wf(&self) -> bool {
        manager_wf(self@)
    }

    /// A manager for the node and peers that `config` names, with
    /// `max_size_per_msg` entries at most in one message and a snapshot
    /// once more than `snapshot_interval` applied entries follow the last
    /// one. Refused unless the peer ids are distinct, differ from the
    /// node's, and at least one entry fits in a message.
    pub fn new(config: &RaftConfig) -> (r: Result<RaftConfigManager, Error>)
        ensures
            r is Ok <==> valid_raft_config(*config),
            r is Ok ==> {
                let m = r->Ok_0;
                &&& m.wf()
                &&& m@.node.id == config.node_id
                &&& m@.node.peers == peer_ids_of(*config)
                &&& m@.node.term == 0
                &&& m@.node.role == NodeState::Follower
                &&& m@.node.log.entries.len() == 0
                &&& m@.node.log.snapshot_index == 0
                &&& m@.node.commit_index == 0
                &&& m@.node.voted_for == None::<u64>
                &&& m@.last_applied == 0
                &&& m@.store.len() == 0
                &&& m@.outcomes.len() == 0
                &&& m@.snapshot_threshold == config.snapshot_interval
                &&& m@.node.max_batch == (if config.max_size_per_msg > 0xffff_ffff { 0xffff_ffff } else { config.max_size_per_msg })
            },
    {
        let peers = config.peer_ids();
        assert(peers@ =~= peer_ids_of(*config));
        if config.max_size_per_msg == 0 || peers.len() as u64 >= 0x1_0000_0000 || !distinct(&peers) || contains(&peers, config.node_id) {
            return Err(Error::Config("invalid cluster settings".to_string()));
        }
        let max_batch: usize = if config.max_size_per_msg > 0xffff_ffff { 0xffff_ffff } else { config.max_size_per_msg as usize };
        Ok(Self::with_peers(config.node_id, peers, max_batch, config.snapshot_interval))
    }

    /// A manager restarting from durable state (see `RaftNode::restore`):
    /// the state machine restarts from the log's snapshot and the entries
    /// after it are applied again once the leader reports them committed.
    /// Refused as `new` refuses the settings.
    pub fn restore(config: &RaftConfig, term: u64, voted_for: Option<u64>, log: RaftLog) -> (r: Result<
        RaftConfigManager,
        Error,
    >)
        requires
            log.wf(),
            log@.last_index() < u64::MAX,
        ensures
            r is Ok <==> valid_raft_config(*config),
            r is Ok ==> {
                let m = r->Ok_0;
                &&& m.wf()
                &&& m@.node.id == config.node_id
                &&& m@.node.peers == peer_ids_of(*config)
                &&& m@.node.term == term
                &&& m@.node.voted_for == voted_for
                &&& m@.node.role == NodeState::Follower
                &&& m@.node.log == log@
                &&& m@.node.commit_index == log@.snapshot_index
                &&& m@.last_applied == log@.snapshot_index
                &&& m@.store == log@.snapshot_state
                &&& m@.outcomes.len() == 0
                &&& m@.snapshot_threshold == config.snapshot_interval
            },
    {
        let peers = config.peer_ids();
        assert(peers@ =~= peer_ids_of(*config));
        if config.max_size_per_msg == 0 || peers.len() as u64 >= 0x1_0000_0000 || !distinct(&peers) || contains(
            &peers,
            config.node_id,
        ) {
            return Err(Error::Config("invalid cluster settings".to_string()));
        }
        let max_batch: usize = if config.max_size_per_msg > 0xffff_ffff { 0xffff_ffff } else { config.max_size_per_msg as usize };
        let store = log.snapshot_state();
        let applied = log.snapshot_index();
        let node = RaftNode::restore(config.node_id, peers, max_batch, term, voted_for, log);
        let m = RaftConfigManager {
            node,
            store,
            last_applied: applied,
            outcomes: Vec::new(),
            read_term: 0,
            read_acks: Vec::new(),
            snapshot_threshold: config.snapshot_interval,
        };
        assert(commands_between(m@.node.log, applied as int, applied as int) =~= Seq::<RaftCommand>::empty());
        Ok(m)
    }

    /// A manager over a fresh node (see `RaftNode::new`). The log is folded
    /// into a snapshot once more than `snapshot_threshold` applied entries
    /// follow the last one.
    pub fn with_peers(id: u64, peers: Vec<u64>, max_batch: usize, snapshot_threshold: u64) -> (r: RaftConfigManager)
        requires
            peers@.no_duplicates(),
            !peers@.contains(id),
            peers@.len() < 0x1_0000_0000,
            max_batch > 0,
        ensures
            r.wf(),
            r@.node.id == id,
            r@.node.peers == peers@,
            r@.node.term == 0,
            r@.node.role == NodeState::Follower,
            r@.node.log.entries.len() == 0,
            r@.store.len() == 0,
            r@.last_applied == 0,
            r@.outcomes.len() == 0,
            r@.snapshot_threshold == snapshot_threshold,
            r@.node.max_batch == max_batch,
            r@.node.log.snapshot_index == 0,
            r@.node.commit_index == 0,
            r@.node.voted_for == None::<u64>,
    {
        let node = RaftNode::new(id, peers, max_batch);
        let r = RaftConfigManager {
            node,
            store: ConfigStore::new(),
            last_applied: 0,
            outcomes: Vec::new(),
            read_term: 0,
            read_acks: Vec::new(),
            snapshot_threshold,
        };
        assert(commands_between(r@.node.log, 0, 0) =~= Seq::<RaftCommand>::empty());
        r
    }

    /// The consensus node.
    pub fn node(&self) -> (r: &RaftNode)
        ensures
            r@ == self@.node,
    {
        &self.node
    }

    /// The index of the last applied entry.
    pub fn last_applied(&self) -> (r: u64)
        ensures
            r == self@.last_applied,
    {
        self.last_applied
    }

    /// Re-establishes the invariant after a node step that kept what was
    /// committed: when the step installed a snapshot past what was applied,
    /// the state machine restarts from it.
    #[verifier::rlimit(80)]
    fn resync(&mut self, Ghost(before): Ghost<NodeView>)
        requires
            crate::node::node_wf(old(self)@.node),
            crate::node::node_wf(before),
            crate::store::ids_in_order(old(self)@.store),
            before.log.snapshot_index <= old(self)@.last_applied <= before.commit_index,
            old(self)@.store == apply_all(
                before.log.snapshot_state,
                commands_between(before.log, before.log.snapshot_index as int, old(self)@.last_applied as int),
            ),
            commit_kept(before, old(self)@.node),
            snapshot_moves_forward(before, old(self)@.node),
            old(self)@.read_acks.no_duplicates(),
            forall|k: int| 0 <= k < old(self)@.read_acks.len() ==> old(self)@.node.peers.contains(#[trigger] old(self)@.read_acks[k]),
            forall|a: int, b: int| 0 <= a < b < old(self)@.outcomes.len() ==> (#[trigger] old(self)@.outcomes[a]).0 < (
            #[trigger] old(self)@.outcomes[b]).0,
            forall|a: int| 0 <= a < old(self)@.outcomes.len() ==> (#[trigger] old(self)@.outcomes[a]).0 <= old(self)@.last_applied,
        ensures
            applied_wf(final(self)@),
            final(self)@.node == old(self)@.node,
            final(self)@.last_applied >= old(self)@.last_applied,
            final(self)@.outcomes == old(self)@.outcomes,
            final(self)@.read_term == old(self)@.read_term,
            final(self)@.read_acks == old(self)@.read_acks,
            final(self)@.snapshot_threshold == old(self)@.snapshot_threshold,
            final(self)@.last_applied == old(self)@.last_applied ==> final(self)@.store == old(self)@.store,
            old(self)@.node.log.snapshot_index > old(self)@.last_applied ==> final(self)@.store
                == old(self)@.node.log.snapshot_state && final(self)@.last_applied == old(self)@.node.log.snapshot_index,
            old(self)@.node.log.snapshot_index <= old(self)@.last_applied ==> final(self)@.store == old(self)@.store
                && final(self)@.last_applied == old(self)@.last_applied,
    {
        let snap = self.node.log().snapshot_index();
        if snap > self.last_applied {
            self.store = self.node.log().snapshot_state();
            self.last_applied = snap;
            assert(commands_between(self@.node.log, snap as int, snap as int) =~= Seq::<RaftCommand>::empty());
        } else {
            let ghost after = self@.node;
            assert(after.log.snapshot_state == before.log.snapshot_state);
            assert(commands_between(after.log, snap as int, self.last_applied as int) =~= commands_between(
                before.log,
                before.log.snapshot_index as int,
                self.last_applied as int,
            )) by {
                assert(after.log.snapshot_index == before.log.snapshot_index);
                assert forall|k: int| 0 <= k < self.last_applied - snap implies #[trigger] after.log.entry(snap + 1 + k)
                    == before.log.entry(snap + 1 + k) by {
                    let i = snap + 1 + k;
                    assert(before.log.holds(i));
                    assert(after.log.holds(i));
                }
            }
        }
        assert(self@.outcomes == old(self)@.outcomes);
        assert(self@.last_applied >= old(self)@.last_applied);
        assert(forall|a: int| 0 <= a < self@.outcomes.len() ==> (#[trigger] self@.outcomes[a]).0 <= self@.last_applied);
        assert(forall|k: int| 0 <= k < self@.read_acks.len() ==> self@.node.peers.contains(#[trigger] self@.read_acks[k]));
    }

    /// Applies every committed entry not yet applied, one at a time in log
    /// order, and keeps the outcome of each for its proposer. Once more
    /// than the threshold of applied entries follow the snapshot, they are
    /// folded into a new one.
    #[verifier::rlimit(80)]
    fn apply_committed(&mut self)
        requires
            applied_wf(old(self)@),
        ensures
            final(self)@.snapshot_threshold == old(self)@.snapshot_threshold,
            final(self).wf(),
            final(self)@.last_applied == old(self)@.node.commit_index,
            final(self)@.store == apply_all(
                old(self)@.store,
                commands_between(old(self)@.node.log, old(self)@.last_applied as int, old(self)@.node.commit_index as int),
            ),
            final(self)@.outcomes == old(self)@.outcomes + outcomes_of(
                old(self)@.store,
                commands_between(old(self)@.node.log, old(self)@.last_applied as int, old(self)@.node.commit_index as int),
                old(self)@.last_applied + 1,
            ),
            final(self)@.node.term == old(self)@.node.term,
            final(self)@.node.role == old(self)@.node.role,
            final(self)@.node.commit_index == old(self)@.node.commit_index,
            final(self)@.node.log.last_index() == old(self)@.node.log.last_index(),
            final(self)@.node == (NodeView { log: final(self)@.node.log, ..old(self)@.node }),
            commit_kept(old(self)@.node, final(self)@.node),
            final(self)@.read_term == old(self)@.read_term,
            final(self)@.read_acks == old(self)@.read_acks,
            old(self)@.last_applied == old(self)@.node.commit_index && old(self)@.last_applied
                - old(self)@.node.log.snapshot_index <= old(self)@.snapshot_threshold ==> final(self)@ == old(self)@,
    {
        if self.last_applied == self.node.commit_index() && self.last_applied - self.node.log().snapshot_index()
            <= self.snapshot_threshold {
            proof {
                let v = self@;
                let cmds = commands_between(v.node.log, v.last_applied as int, v.node.commit_index as int);
                assert(cmds =~= Seq::<RaftCommand>::empty());
                assert(outcomes_of(v.store, cmds, v.last_applied + 1) =~= Seq::<(u64, Result<ConfigEntity, ApplyError>)>::empty());
                assert(v.outcomes + outcomes_of(v.store, cmds, v.last_applied + 1) =~= v.outcomes);
            }
            return;
        }
        let ghost v = self@;
        let ghost cmds = commands_between(v.node.log, v.last_applied as int, v.node.commit_index as int);
        let commit = self.node.commit_index();
        while self.last_applied < commit
            invariant
                applied_wf(self@),
                self@.node == v.node,
                v.last_applied <= self@.last_applied <= commit,
                commit == v.node.commit_index,
                self@.read_term == v.read_term,
                self@.read_acks == v.read_acks,
                self@.snapshot_threshold == v.snapshot_threshold,
                self@.store == apply_all(v.store, cmds.subrange(0, self@.last_applied - v.last_applied)),
                self@.outcomes == v.outcomes + outcomes_of(
                    v.store,
                    cmds.subrange(0, self@.last_applied - v.last_applied),
                    v.last_applied + 1,
                ),
                cmds.len() == commit - v.last_applied,
                forall|k: int| 0 <= k < cmds.len() ==> #[trigger] cmds[k] == v.node.log.entry(v.last_applied + 1 + k).command,
            decreases commit - self.last_applied,
        {
            let i = self.last_applied + 1;
            let ghost k = self.last_applied - v.last_applied;
            let ghost before = self@;
            let cmd = self.node.log().entry(i).command.copy();
            let res = self.store.apply(&cmd);
            self.outcomes.push((i, res));
            self.last_applied = i;
            proof {
                assert(cmds.subrange(0, k + 1).drop_last() =~= cmds.subrange(0, k));
                assert(cmds.subrange(0, k + 1).last() == cmd);
                assert(commands_between(v.node.log, v.node.log.snapshot_index as int, i as int).drop_last()
                    =~= commands_between(v.node.log, v.node.log.snapshot_index as int, before.last_applied as int));
                assert forall|j: int| 0 <= j <= k implies #[trigger] cmds.subrange(0, k + 1).subrange(0, j) == cmds.subrange(0, j) by {
                    assert(cmds.subrange(0, k + 1).subrange(0, j) =~= cmds.subrange(0, j));
                }
                assert(res == apply_spec(apply_all(v.store, cmds.subrange(0, k)), cmds.subrange(0, k + 1)[k]).1);
                let ghost lhs = outcomes_of(v.store, cmds.subrange(0, k + 1), v.last_applied + 1);
                let ghost rhs = outcomes_of(v.store, cmds.subrange(0, k), v.last_applied + 1).push((i, res));
                assert(lhs.len() == rhs.len());
                assert forall|j: int| 0 <= j < lhs.len() implies lhs[j] == rhs[j] by {
                    assert(cmds.subrange(0, k + 1).subrange(0, j) == cmds.subrange(0, j));
                    if j < k {
                        assert(cmds.subrange(0, k).subrange(0, j) =~= cmds.subrange(0, j));
                        assert(cmds.subrange(0, k + 1)[j] == cmds.subrange(0, k)[j]);
                    }
                }
                assert(outcomes_of(v.store, cmds.subrange(0, k + 1), v.last_applied + 1) =~= outcomes_of(
                    v.store,
                    cmds.subrange(0, k),
                    v.last_applied + 1,
                ).push((i, res)));
                assert(self@.outcomes =~= v.outcomes + outcomes_of(v.store, cmds.subrange(0, k + 1), v.last_applied + 1));
            }
        }
        assert(cmds.subrange(0, cmds.len() as int) =~= cmds);
        let snap = self.node.log().snapshot_index();
        if self.last_applied > snap && self.last_applied - snap > self.snapshot_threshold {
            let state = self.store.copy();
            self.node.compact(self.last_applied, state);
            assert(commands_between(self@.node.log, self.last_applied as int, self.last_applied as int) =~= Seq::<
                RaftCommand,
            >::empty());
        }
    }
}

/// What a successful proposal of `cmd` leaves: the entry is in the log at
/// index `i` and, where the leader alone makes a majority, every entry up
/// to it is applied with its outcome waiting.
pub open spec fn proposed(before: ManagerView, after: ManagerView, cmd: RaftCommand, i: u64) -> bool {
    let log = LogView {
        entries: before.node.log.entries.push(crate::log::LogEntry { index: i, term: before.node.term, command: cmd }),
        ..before.node.log
    };
    let cmds = commands_between(log, before.last_applied as int, i as int);
    &&& i == before.node.log.last_index() + 1
    &&& after.node.id == before.node.id
    &&& after.node.peers == before.node.peers
    &&& after.node.term == before.node.term
    &&& after.node.role == NodeState::Leader
    &&& after.node.log.last_index() == i
    &&& after.node.commit_index == (if before.node.peers.len() == 0 { i } else { before.node.commit_index })
    &&& after.snapshot_threshold == before.snapshot_threshold
    &&& after.read_term == before.read_term
    &&& after.read_acks == before.read_acks
    &&& before.node.peers.len() == 0 ==> {
        &&& after.last_applied == i
        &&& after.store == apply_all(before.store, cmds)
        &&& after.outcomes == before.outcomes + outcomes_of(before.store, cmds, before.last_applied + 1)
    }
    &&& before.node.peers.len() > 0 ==> {
        &&& after.store == before.store
        &&& after.outcomes == before.outcomes
        &&& after.node.log == log
    }
}

/// The outcome of `submit`: refused with nothing changed where the node does
/// not lead or its log is full, otherwise proposed.
pub open spec fn submitted(before: ManagerView, after: ManagerView, cmd: RaftCommand, r: Result<u64, ManagerError>) -> bool {
    &&& before.node.role != NodeState::Leader ==> after == before && r == Err::<u64, ManagerError>(
        ManagerError::NotLeader { leader: before.node.leader },
    )
    &&& before.node.role == NodeState::Leader && before.node.log.last_index() + 1 == u64::MAX ==> after == before && r
        == Err::<u64, ManagerError>(ManagerError::LogFull)
    &&& before.node.role == NodeState::Leader && before.node.log.last_index() + 1 < u64::MAX ==> r is Ok && proposed(
        before,
        after,
        cmd,
        r->Ok_0,
    )
}

/// The outcome kept at position `k`, as the proposer receives it.
pub open spec fn delivered(o: Result<ConfigEntity, ApplyError>) -> Result<ConfigEntity, ManagerError> {
    match o {
        Ok(e) => Ok(e),
        Err(e) => Err(from_apply(e)),
    }
}

/// The entity `id` as a read returns it.
pub open spec fn read_result(s: Seq<ConfigEntity>, id: u64) -> Result<ConfigEntity, ManagerError> {
    if is_active(s, id) {
        Ok(s[id - 1])
    } else {
        Err(ManagerError::NotFound)
    }
}

impl RaftConfigManager {
    /// Proposes `cmd` on this node, then applies whatever is committed.
    #[verifier::rlimit(80)]
    fn submit(&mut self, cmd: RaftCommand) -> (r: Result<u64, ManagerError>)
        requires
            old(self).wf(),
        ensures
            final(self).wf(),
            submitted(old(self)@, final(self)@, cmd, r),
    {
        let ghost before = self@;
        let ghost cmd_ghost = cmd;
        let ghost node0 = self.node@;
        match self.node.propose(cmd) {
            Ok(i) => {
                proof {
                    let w = self.node@;
                    assert(commands_between(w.log, w.log.snapshot_index as int, self.last_applied as int) =~= commands_between(
                        node0.log,
                        node0.log.snapshot_index as int,
                        self.last_applied as int,
                    ));
                }
                let ghost mid = self@;
                assert(mid.outcomes == before.outcomes);
                assert(mid.last_applied == before.last_applied);
                assert(forall|a: int| 0 <= a < mid.outcomes.len() ==> (#[trigger] mid.outcomes[a]).0 <= mid.last_applied);
                self.apply_committed();
                proof {
                    if before.node.peers.len() == 0 {
                    } else {
                        assert(commands_between(mid.node.log, mid.last_applied as int, mid.node.commit_index as int) =~= Seq::<
                            RaftCommand,
                        >::empty());
                        assert(outcomes_of(mid.store, Seq::<RaftCommand>::empty(), mid.last_applied + 1) =~= Seq::<
                            (u64, Result<ConfigEntity, ApplyError>),
                        >::empty());
                        assert(self@.outcomes =~= before.outcomes);
                    }
                }
                Ok(i)
            },
            Err(ProposeError::NotLeader { leader }) => Err(ManagerError::NotLeader { leader }),
            Err(ProposeError::LogFull) => Err(ManagerError::LogFull),
        }
    }

    /// Proposes creating a configuration entry (see `apply_spec`); on
    /// success returns the log index whose outcome `take_outcome` yields
    /// once applied.
    pub fn create_config(
        &mut self,
        name: String,
        namespace: String,
        department: String,
        application: String,
        environment: String,
        description: Option<String>,
        content: ConfigContent,
        created_by: String,
        timestamp: i64,
    ) -> (r: Result<u64, ManagerError>)
        requires
            old(self).wf(),
        ensures
            final(self).wf(),
            submitted(
                old(self)@,
                final(self)@,
                RaftCommand::CreateConfig {
                    name,
                    namespace,
                    department,
                    application,
                    environment,
                    description,
                    content,
                    created_by,
                    timestamp,
                },
                r,
            ),
    {
        self.submit(
            RaftCommand::CreateConfig {
                name,
                namespace,
                department,
                application,
                environment,
                description,
                content,
                created_by,
                timestamp,
            },
        )
    }

    /// Proposes replacing the content and description of entry `id`.
    pub fn update_config(
        &mut self,
        id: u64,
        description: Option<String>,
        content: ConfigContent,
        updated_by: String,
        timestamp: i64,
    ) -> (r: Result<u64, ManagerError>)
        requires
            old(self).wf(),
        ensures
            final(self).wf(),
            submitted(
                old(self)@,
                final(self)@,
                RaftCommand::UpdateConfig { id, description, content, updated_by, timestamp },
                r,
            ),
    {
        self.submit(RaftCommand::UpdateConfig { id, description, content, updated_by, timestamp })
    }

    /// Proposes deleting entry `id`.
    pub fn delete_config(&mut self, id: u64) -> (r: Result<u64, ManagerError>)
        requires
            old(self).wf(),
        ensures
            final(self).wf(),
            submitted(old(self)@, final(self)@, RaftCommand::DeleteConfig { id }, r),
    {
        self.submit(RaftCommand::DeleteConfig { id })
    }

    /// Collects the outcome of the entry at `index`, once applied. Each
    /// outcome is handed out once.
    #[verifier::rlimit(80)]
    pub fn take_outcome(&mut self, index: u64) -> (r: Option<Result<ConfigEntity, ManagerError>>)
        requires
            old(self).wf(),
        ensures
            final(self).wf(),
            forall|k: int|
                0 <= k < old(self)@.outcomes.len() && (#[trigger] old(self)@.outcomes[k]).0 == index ==> r == Some(
                    delivered(old(self)@.outcomes[k].1),
                ) && final(self)@ == (ManagerView { outcomes: old(self)@.outcomes.remove(k), ..old(self)@ }),
            (forall|k: int| 0 <= k < old(self)@.outcomes.len() ==> (#[trigger] old(self)@.outcomes[k]).0 != index) ==> r
                == None::<Result<ConfigEntity, ManagerError>> && final(self)@ == old(self)@,
    {
        let mut k: usize = 0;
        while k < self.outcomes.len()
            invariant
                self@ == old(self)@,
                self.wf(),
                0 <= k <= self.outcomes@.len(),
                forall|j: int| 0 <= j < k ==> (#[trigger] self.outcomes@[j]).0 != index,
            decreases self.outcomes@.len() - k,
        {
            if self.outcomes[k].0 == index {
                let (_, o) = self.outcomes.remove(k);
                let out = match o {
                    Ok(e) => Ok(e),
                    Err(e) => Err(apply_error(e)),
                };
                proof {
                    let v = old(self)@;
                    assert forall|j: int| 0 <= j < v.outcomes.len() && (#[trigger] v.outcomes[j]).0 == index implies j == k by {
                        if j < k {
                        } else if j > k {
                            assert(v.outcomes[k as int].0 < v.outcomes[j].0);
                        }
                    }
                    let o2 = v.outcomes.remove(k as int);
                    assert forall|a: int, b: int| 0 <= a < b < o2.len() implies (#[trigger] o2[a]).0 < (#[trigger] o2[b]).0 by {
                        let a1 = if a < k { a } else { a + 1 };
                        let b1 = if b < k { b } else { b + 1 };
                        assert(o2[a] == v.outcomes[a1]);
                        assert(o2[b] == v.outcomes[b1]);
                    }
                    assert forall|a: int| 0 <= a < o2.len() implies (#[trigger] o2[a]).0 <= v.last_applied by {
                        let a1 = if a < k { a } else { a + 1 };
                        assert(o2[a] == v.outcomes[a1]);
                    }
                }
                return Some(out);
            }
            k = k + 1;
        }
        None
    }

    /// Where the proposal at `index`, made in term `term`, stands.
    pub fn proposal_status(&self, index: u64, term: u64) -> (r: ProposalStatus)
        requires
            self.wf(),
        ensures
            r == status_of(self@, index, term),
    {
        let lost = match self.node.log().term_at(index) {
            Some(t) => t != term,
            None => index > self.node.log().last_index() && self.node.get_term() > term,
        };
        if lost {
            ProposalStatus::Lost
        } else if index <= self.last_applied {
            ProposalStatus::Applied
        } else {
            ProposalStatus::Pending
        }
    }
}

impl RaftConfigManager {
    /// Records that peer `from` acknowledged the leader in the read's term.
    fn record_ack(&mut self, from: u64)
        requires
            old(self).wf(),
        ensures
            final(self).wf(),
            final(self)@ == (ManagerView { read_acks: final(self)@.read_acks, ..old(self)@ }),
            final(self)@.read_acks == if old(self)@.node.peers.contains(from) && !old(self)@.read_acks.contains(from) {
                old(self)@.read_acks.push(from)
            } else {
                old(self)@.read_acks
            },
    {
        let mut known = false;
        let peers = self.node.peers();
        let mut k: usize = 0;
        while k < peers.len()
            invariant
                0 <= k <= peers@.len(),
                known == exists|j: int| 0 <= j < k && peers@[j] == from,
            decreases peers@.len() - k,
        {
            if peers[k] == from {
                known = true;
            }
            k = k + 1;
        }
        if !known {
            return;
        }
        let mut seen = false;
        let mut j: usize = 0;
        while j < self.read_acks.len()
            invariant
                0 <= j <= self.read_acks@.len(),
                seen == exists|m: int| 0 <= m < j && self.read_acks@[m] == from,
            decreases self.read_acks@.len() - j,
        {
            if self.read_acks[j] == from {
                seen = true;
            }
            j = j + 1;
        }
        if !seen {
            self.read_acks.push(from);
            proof {
                assert forall|m: int| 0 <= m < self.read_acks@.len() implies self@.node.peers.contains(
                    #[trigger] self.read_acks@[m],
                ) by {
                    if m < old(self).read_acks@.len() {
                        assert(self.read_acks@[m] == old(self).read_acks@[m]);
                    }
                }
            }
        }
    }

    /// Handles a message from another node (see the `RaftNode` handlers),
    /// then applies what became committed; returns the messages to send.
    /// A successful reply in the term of a pending read counts towards
    /// confirming leadership.
    #[verifier::rlimit(80)]
    pub fn step(&mut self, envelope: Envelope) -> (r: Vec<Envelope>)
        requires
            old(self).wf(),
        ensures
            final(self).wf(),
            final(self)@.last_applied >= old(self)@.last_applied,
            commit_kept(old(self)@.node, final(self)@.node),
            final(self)@.node.id == old(self)@.node.id,
            final(self)@.node.term >= old(self)@.node.term,
            exists|w: NodeView|
                crate::node::handled(old(self)@.node, envelope, w, r@) && caught_up(old(self)@, w, final(self)@) && {
                    let counts = acknowledges(envelope, old(self)@.read_term) && w.role == NodeState::Leader && w.term
                        == old(self)@.read_term && w.peers.contains(envelope.from) && !old(self)@.read_acks.contains(
                        envelope.from,
                    );
                    final(self)@.read_acks == if counts {
                        old(self)@.read_acks.push(envelope.from)
                    } else {
                        old(self)@.read_acks
                    }
                },
    {
        let ghost env0 = envelope;
        let ghost before = self.node@;
        let from = envelope.from;
        let ack = match &envelope.message {
            Message::AppendReply { term, success, .. } => *success && *term == self.read_term,
            _ => false,
        };
        let out = match envelope.message {
            Message::RequestVote { term, candidate_id, last_log_index, last_log_term } => {
                let e = self.node.handle_request_vote(term, candidate_id, last_log_index, last_log_term);
                vec![e]
            },
            Message::VoteReply { term, granted } => self.node.handle_vote_reply(from, term, granted),
            Message::AppendEntries { term, leader_id, prev_log_index, prev_log_term, entries, leader_commit } => {
                let e = self.node.handle_append_entries(term, leader_id, prev_log_index, prev_log_term, &entries, leader_commit);
                vec![e]
            },
            Message::AppendReply { term, success, match_index } => self.node.handle_append_reply(
                from,
                term,
                success,
                match_index,
            ),
            Message::InstallSnapshot { term, leader_id, last_index, last_term, state } => {
                let e = self.node.handle_install_snapshot(term, leader_id, last_index, last_term, state);
                vec![e]
            },
        };
        let ghost w = self.node@;
        let ghost sent = out@;
        assert(crate::node::handled(before, env0, w, sent));
        assert(self@.outcomes == old(self)@.outcomes);
        assert(self@.last_applied == old(self)@.last_applied);
        self.resync(Ghost(before));
        let ghost mid = self@;
        self.apply_committed();
        let ghost fin = self@;
        proof {
            assert(commit_kept(mid.node, self@.node));
            assert forall|i: int|
                before.log.holds(i) && i <= before.commit_index && self@.node.log.holds(i) implies self@.node.log.entry(i)
                == before.log.entry(i) by {
                if mid.node.log.holds(i) {
                } else {
                    assert(i <= mid.node.log.snapshot_index);
                }
            }
        }
        if ack && self.node.get_state() == NodeState::Leader && self.node.get_term() == self.read_term {
            self.record_ack(from);
        }
        proof {
            assert(caught_up(old(self)@, w, fin));
            assert(caught_up(old(self)@, w, self@));
        }
        out
    }

    /// The election timer fired (see `RaftNode::election_timeout`).
    pub fn election_timeout(&mut self) -> (r: Vec<Envelope>)
        requires
            old(self).wf(),
            old(self)@.node.term < u64::MAX,
        ensures
            final(self).wf(),
            final(self)@.last_applied == old(self)@.last_applied,
            final(self)@.store == old(self)@.store,
            old(self)@.node.role != NodeState::Leader ==> final(self)@.node.term == old(self)@.node.term + 1,
            old(self)@.node.role != NodeState::Leader && old(self)@.node.peers.len() == 0 ==> final(self)@.node.role
                == NodeState::Leader,
            old(self)@.node.role != NodeState::Leader && old(self)@.node.peers.len() > 0 ==> final(self)@.node.role
                == NodeState::Candidate,
            old(self)@.node.role == NodeState::Leader ==> final(self)@ == old(self)@,
            crate::node::timed_out(old(self)@.node, final(self)@.node, r@),
            final(self)@ == (ManagerView { node: final(self)@.node, ..old(self)@ }),
    {
        let ghost before = self.node@;
        let out = self.node.election_timeout();
        assert(self@.outcomes == old(self)@.outcomes);
        assert(self@.last_applied == old(self)@.last_applied);
        proof {
            assert(commands_between(self@.node.log, self@.node.log.snapshot_index as int, self.last_applied as int)
                =~= commands_between(before.log, before.log.snapshot_index as int, self.last_applied as int));
        }
        out
    }

    /// The messages a leader sends on a heartbeat; none from other nodes.
    pub fn heartbeat(&self) -> (r: Vec<Envelope>)
        requires
            self.wf(),
        ensures
            self@.node.role == NodeState::Leader ==> crate::node::is_broadcast(r@, self@.node),
            self@.node.role != NodeState::Leader ==> r@.len() == 0,
    {
        if self.node.get_state() == NodeState::Leader {
            self.node.heartbeat()
        } else {
            Vec::new()
        }
    }

    /// Starts confirming leadership for linearizable reads: forgets earlier
    /// acknowledgements and sends a heartbeat round. Does nothing on a
    /// node that does not lead.
    pub fn begin_read(&mut self) -> (r: Vec<Envelope>)
        requires
            old(self).wf(),
        ensures
            final(self).wf(),
            old(self)@.node.role == NodeState::Leader ==> final(self)@ == (ManagerView {
                read_term: old(self)@.node.term,
                read_acks: Seq::empty(),
                ..old(self)@
            }) && crate::node::is_broadcast(r@, old(self)@.node),
            old(self)@.node.role != NodeState::Leader ==> final(self)@ == old(self)@ && r@.len() == 0,
    {
        if self.node.get_state() != NodeState::Leader {
            return Vec::new();
        }
        self.read_term = self.node.get_term();
        self.read_acks = Vec::new();
        self.node.heartbeat()
    }

    /// Whether a linearizable read may be served now.
    pub fn is_read_ready(&self) -> (r: bool)
        requires
            self.wf(),
        ensures
            r == read_ready(self@),
    {
        let peers = self.node.peers().len() as u64;
        let acks = self.read_acks.len() as u64;
        self.node.get_state() == NodeState::Leader && self.read_term == self.node.get_term() && acks >= (peers + 1) / 2
            && self.node.log().term_at(self.node.commit_index()) == Some(self.node.get_term())
            && self.last_applied == self.node.commit_index()
    }

    /// Reads entry `id`. A stale read answers from the local state machine;
    /// a linearizable one only once `is_read_ready` holds, and fails with
    /// `NotLeader` before.
    pub fn get_config(&self, id: u64, level: ReadLevel) -> (r: Result<ConfigEntity, ManagerError>)
        requires
            self.wf(),
        ensures
            level == ReadLevel::Stale || read_ready(self@) ==> r == read_result(self@.store, id),
            level == ReadLevel::Linearizable && !read_ready(self@) ==> r == Err::<ConfigEntity, ManagerError>(
                ManagerError::NotLeader { leader: self@.node.leader },
            ),
    {
        if level == ReadLevel::Linearizable && !self.is_read_ready() {
            return Err(ManagerError::NotLeader { leader: self.node.leader() });
        }
        match self.store.get(id) {
            Some(e) => Ok(e),
            None => Err(ManagerError::NotFound),
        }
    }

    /// Lists the active entries that `filter` admits, one page at a time
    /// (see `ConfigStore::list`), at the given consistency.
    pub fn list_configs(&self, filter: &ConfigFilter, page_size: i32, page_number: i32, level: ReadLevel) -> (r: Result<
        (Vec<ConfigEntity>, usize),
        ManagerError,
    >)
        requires
            self.wf(),
        ensures
            level == ReadLevel::Stale || read_ready(self@) ==> r is Ok && r->Ok_0.0@ == crate::store::page_of(
                crate::store::matching(self@.store, *filter),
                page_size,
                page_number,
            ) && r->Ok_0.1 == crate::store::matching(self@.store, *filter).len(),
            level == ReadLevel::Linearizable && !read_ready(self@) ==> r == Err::<(Vec<ConfigEntity>, usize), ManagerError>(
                ManagerError::NotLeader { leader: self@.node.leader },
            ),
    {
        if level == ReadLevel::Linearizable && !self.is_read_ready() {
            return Err(ManagerError::NotLeader { leader: self.node.leader() });
        }
        Ok(self.store.list(filter, page_size, page_number))
    }
}

} // verus!
