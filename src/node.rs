//! One Raft node as a deterministic state machine: every event (a timeout,
//! a message, a proposal) maps the node's state to a new state and the
//! messages to send. Timers and the network stay outside.

use vstd::prelude::*;
use crate::command::RaftCommand;
use crate::log::{LogEntry, LogView, RaftLog};
use crate::store::{ConfigEntity, ConfigStore, ids_in_order};

verus! {

/// The role a node plays in its current term.
#[derive(Debug, Clone, Copy, PartialEq, Eq, Structural)]
pub enum NodeState {
    Follower,
    Candidate,
    Leader,
}

/// A message between nodes.
#[derive(Debug)]
pub enum Message {
    /// A candidate asks for a vote.
    RequestVote { term: u64, candidate_id: u64, last_log_index: u64, last_log_term: u64 },
    /// The answer to a vote request.
    VoteReply { term: u64, granted: bool },
    /// A leader replicates entries following `prev_log_index`, or sends a
    /// heartbeat when `entries` is empty.
    AppendEntries {
        term: u64,
        leader_id: u64,
        prev_log_index: u64,
        prev_log_term: u64,
        entries: Vec<LogEntry>,
        leader_commit: u64,
    },
    /// The answer to `AppendEntries` or `InstallSnapshot`: on success the
    /// index up to which the logs agree, on failure a point to resume from.
    AppendReply { term: u64, success: bool, match_index: u64 },
    /// A leader repairs a follower that lags behind its snapshot.
    InstallSnapshot { term: u64, leader_id: u64, last_index: u64, last_term: u64, state: Vec<ConfigEntity> },
}

/// A message with its sender and receiver.
#[derive(Debug)]
pub struct Envelope {
    pub from: u64,
    pub to: u64,
    pub message: Message,
}

/// Why a proposal was refused.
#[derive(Debug, Clone, Copy, PartialEq, Eq, Structural)]
pub enum ProposeError {
    /// This node is not the leader; `leader` is the leader it last heard of.
    NotLeader { leader: Option<u64> },
    /// The log has no index left.
    LogFull,
}

/// What a node holds.
pub struct NodeView {
    pub id: u64,
    pub peers: Seq<u64>,
    pub term: u64,
    pub voted_for: Option<u64>,
    pub role: NodeState,
    pub leader: Option<u64>,
    pub log: LogView,
    pub commit_index: u64,
    pub votes: Seq<u64>,
    pub next_index: Seq<u64>,
    pub match_index: Seq<u64>,
    pub max_batch: usize,
}

/// Whether `count` nodes are a strict majority of a cluster of
/// `peers + 1` nodes.
pub open spec fn quorum(count: int, peers: int) -> bool {
    count * 2 > peers + 1
}

/// A log whose last entry has term `term` and index `index` is at least as
/// up to date as `log`.
pub open spec fn up_to_date(term: u64, index: u64, log: LogView) -> bool {
    term > log.last_term() || (term == log.last_term() && index >= log.last_index())
}

/// The node after it has seen term `t`: a higher term is adopted, and the
/// node becomes a follower that has not voted in it.
pub open spec fn adopt(v: NodeView, t: u64) -> NodeView {
    if t > v.term {
        NodeView { term: t, role: NodeState::Follower, voted_for: None, leader: None, votes: Seq::empty(), ..v }
    } else {
        v
    }
}

/// How many of `m` are at least `n`.
pub open spec fn count_at_least(m: Seq<u64>, n: int) -> nat
    decreases m.len(),
{
    if m.len() == 0 {
        0
    } else {
        count_at_least(m.drop_last(), n) + if m.last() >= n { 1nat } else { 0nat }
    }
}

/// A leader may commit index `n`: it holds an entry there from its current
/// term, and a majority (itself included) holds the log up to `n`.
pub open spec fn committable(v: NodeView, n: int) -> bool {
    &&& v.log.holds(n)
    &&& v.log.entry(n).term == v.term
    &&& quorum(1 + count_at_least(v.match_index, n) as int, v.peers.len() as int)
}

/// `c` is the commit index a leader reaches from `v`: the highest
/// committable index, when it lies above the current commit index.
pub open spec fn advanced(v: NodeView, c: int) -> bool {
    &&& c >= v.commit_index
    &&& c == v.commit_index || committable(v, c)
    &&& forall|n: int| v.commit_index < n <= v.log.last_index() && #[trigger] committable(v, n) ==> n <= c
}

/// Whether the entry sent at offset `k` after `prev` is already held with
/// the same term.
pub open spec fn agrees_at(log: LogView, prev: int, es: Seq<LogEntry>, k: int) -> bool {
    log.term_at(prev + 1 + k) == Some(es[k].term)
}

/// `k0` is where the entries `es`, sent to follow index `prev`, first stop
/// agreeing with `log` (or `es.len()` where they agree throughout).
pub open spec fn divergence(log: LogView, prev: int, es: Seq<LogEntry>, k0: int) -> bool {
    &&& 0 <= k0 <= es.len()
    &&& forall|j: int| 0 <= j < k0 ==> #[trigger] agrees_at(log, prev, es, j)
    &&& k0 < es.len() ==> !agrees_at(log, prev, es, k0)
}

/// The entries `es[from..]` placed at the indices that follow `base + from`.
pub open spec fn placed(es: Seq<LogEntry>, from: int, base: int) -> Seq<LogEntry> {
    Seq::new(
        (es.len() - from) as nat,
        |j: int| LogEntry { index: (base + from + j + 1) as u64, term: es[from + j].term, command: es[from + j].command },
    )
}

/// The log after accepting `es` after `prev`, where they first disagree at
/// offset `k0`: the log is kept up to there and `es[k0..]` follows. When
/// they agree throughout, nothing is discarded.
pub open spec fn merged(log: LogView, prev: int, es: Seq<LogEntry>, k0: int) -> LogView {
    if k0 == es.len() {
        log
    } else {
        LogView {
            entries: log.entries.subrange(0, prev + k0 - log.snapshot_index) + placed(es, k0, prev),
            ..log
        }
    }
}

/// The node `a` turned follower of `leader_id`, unless it leads the term.
pub open spec fn follow(a: NodeView, leader_id: u64) -> NodeView {
    NodeView { role: NodeState::Follower, leader: Some(leader_id), ..a }
}

/// Where a follower asks the leader to resume after a failed consistency
/// check at `prev`.
pub open spec fn resume_hint(log: LogView, prev: int) -> u64 {
    if prev == 0 {
        0
    } else if prev - 1 <= log.last_index() {
        (prev - 1) as u64
    } else {
        log.last_index() as u64
    }
}

/// A node that leads the same term before and after a step kept every
/// entry of its log: the log after the step extends the one before.
pub open spec fn leader_append_only(before: NodeView, after: NodeView) -> bool {
    before.role == NodeState::Leader && after.role == NodeState::Leader && before.term == after.term
        ==> before.log.extended_by(after.log)
}

/// A step kept what was committed: the commit index did not move back, and
/// every committed entry is still held unchanged or folded into the
/// snapshot.
pub open spec fn commit_kept(before: NodeView, after: NodeView) -> bool {
    &&& after.commit_index >= before.commit_index
    &&& before.log.keeps_prefix(after.log, before.commit_index as int)
}

/// A step that leaves the node's votes alone: a higher term is adopted by
/// a follower that has not voted in it; within a term, the vote stays and a
/// candidate or leader keeps its role and the votes it counted.
pub open spec fn observes(before: NodeView, after: NodeView) -> bool {
    &&& after.id == before.id
    &&& after.peers == before.peers
    &&& after.term >= before.term
    &&& after.term > before.term ==> after.voted_for is None && after.role == NodeState::Follower
    &&& after.term == before.term ==> {
        &&& after.voted_for == before.voted_for
        &&& after.role != NodeState::Follower ==> after.role == before.role && after.votes == before.votes
        &&& before.role == NodeState::Leader ==> after.role == NodeState::Leader
    }
}

/// A step either kept the snapshot, state included, or replaced it by one
/// that lies past everything committed before.
pub open spec fn snapshot_moves_forward(before: NodeView, after: NodeView) -> bool {
    ||| after.log.snapshot_index == before.log.snapshot_index && after.log.snapshot_state == before.log.snapshot_state
    ||| after.log.snapshot_index > before.commit_index
}

/// Whether `e` carries entries or a snapshot from a leader.
pub open spec fn carries_entries(e: Envelope) -> bool {
    e.message is AppendEntries || e.message is InstallSnapshot
}

/// Whether `m` is the message a leader `v` sends to its `k`-th peer: the
/// snapshot when the peer needs entries already compacted, else the
/// entries from the peer's next index on (at most `max_batch` of them).
pub open spec fn is_append_message(m: Message, v: NodeView, k: int) -> bool {
    let next = v.next_index[k];
    if next <= v.log.snapshot_index {
        match m {
            Message::InstallSnapshot { term, leader_id, last_index, last_term, state } => term == v.term && leader_id
                == v.id && last_index == v.log.snapshot_index && last_term == v.log.snapshot_term && state@
                == v.log.snapshot_state,
            _ => false,
        }
    } else {
        let from = next - v.log.snapshot_index - 1;
        let to = if v.log.last_index() - next + 1 <= v.max_batch { v.log.entries.len() as int } else { from + v.max_batch };
        match m {
            Message::AppendEntries { term, leader_id, prev_log_index, prev_log_term, entries, leader_commit } => term
                == v.term && leader_id == v.id && prev_log_index == next - 1 && prev_log_term == v.log.term_at(
                next - 1,
            )->0 && entries@ == v.log.entries.subrange(from, to) && leader_commit == v.commit_index,
            _ => false,
        }
    }
}

/// Whether `m` was cut from the log `l`: a batch of consecutive entries
/// with the index and term of the one before, or the snapshot.
pub open spec fn from_log(m: Message, l: LogView) -> bool {
    match m {
        Message::AppendEntries { prev_log_index, prev_log_term, entries, .. } => {
            &&& l.snapshot_index <= prev_log_index <= l.last_index()
            &&& prev_log_term == l.term_at(prev_log_index as int)->0
            &&& prev_log_index + entries@.len() <= l.last_index()
            &&& forall|j: int| 0 <= j < entries@.len() ==> #[trigger] entries@[j] == l.entries[prev_log_index - l.snapshot_index + j]
        },
        Message::InstallSnapshot { last_index, last_term, .. } => last_index == l.snapshot_index && last_term
            == l.snapshot_term,
        _ => true,
    }
}

/// A leader's message to a peer is cut from its log.
pub proof fn lemma_append_from_log(m: Message, v: NodeView, k: int)
    requires
        node_wf(v),
        v.role == NodeState::Leader,
        0 <= k < v.peers.len(),
        is_append_message(m, v, k),
    ensures
        from_log(m, v.log),
{
}

/// Whether `out` holds, for every peer in order, the message the leader
/// `v` sends it.
pub open spec fn is_broadcast(out: Seq<Envelope>, v: NodeView) -> bool {
    &&& out.len() == v.peers.len()
    &&& forall|k: int|
        0 <= k < out.len() ==> (#[trigger] out[k]).from == v.id && out[k].to == v.peers[k] && is_append_message(
            out[k].message,
            v,
            k,
        )
}

/// What `RaftNode::election_timeout` does: a leader stays as it is; any
/// other node stands for the next term and asks every peer for its vote.
pub open spec fn timed_out(before: NodeView, after: NodeView, r: Seq<Envelope>) -> bool {
    &&& before.role == NodeState::Leader ==> after == before && r.len() == 0
    &&& before.role != NodeState::Leader ==> {
            let mid = NodeView {
                term: (before.term + 1) as u64,
                role: NodeState::Candidate,
                voted_for: Some(before.id),
                leader: None,
                votes: seq![before.id],
                ..before
            };
            &&& before.peers.len() == 0 ==> after == (NodeView {
                role: NodeState::Leader,
                leader: Some(before.id),
                ..mid
            })
            &&& before.peers.len() > 0 ==> after == mid
            &&& r.len() == before.peers.len()
            &&& forall|k: int|
                0 <= k < r.len() ==> (#[trigger] r[k]).from == before.id && r[k].to == before.peers[k]
                    && r[k].message == (Message::RequestVote {
                    term: mid.term,
                    candidate_id: before.id,
                    last_log_index: before.log.last_index() as u64,
                    last_log_term: before.log.last_term(),
                })
        }
}

/// What `RaftNode::handle_request_vote` does with a vote request.
pub open spec fn vote_answered(before: NodeView, after: NodeView, term: u64, candidate_id: u64, last_log_index: u64, last_log_term: u64, r: Envelope) -> bool {
    &&& ({
            let a = adopt(before, term);
            let granted = term == a.term && (a.voted_for == None::<u64> || a.voted_for == Some(candidate_id))
                && up_to_date(last_log_term, last_log_index, a.log);
            &&& after == (if granted { NodeView { voted_for: Some(candidate_id), ..a } } else { a })
            &&& r == (Envelope {
                from: a.id,
                to: candidate_id,
                message: Message::VoteReply { term: a.term, granted },
            })
        })
}

/// What `RaftNode::handle_vote_reply` does with a vote reply from `from`.
pub open spec fn vote_counted(before: NodeView, after: NodeView, from: u64, term: u64, granted: bool, r: Seq<Envelope>) -> bool {
    &&& term > before.term ==> after == adopt(before, term) && r.len() == 0
    &&& term <= before.term ==> {
            let counted = before.role == NodeState::Candidate && term == before.term && granted
                && before.peers.contains(from) && !before.votes.contains(from);
            let votes = before.votes.push(from);
            let wins = quorum(votes.len() as int, before.peers.len() as int);
            &&& !counted ==> after == before && r.len() == 0
            &&& counted && !wins ==> after == (NodeView { votes, ..before }) && r.len() == 0
            &&& counted && wins ==> after == (NodeView {
                votes,
                role: NodeState::Leader,
                leader: Some(before.id),
                next_index: Seq::new(before.peers.len(), |k: int| (before.log.last_index() + 1) as u64),
                match_index: Seq::new(before.peers.len(), |k: int| 0u64),
                ..before
            }) && is_broadcast(r, after)
        }
}

/// What `RaftNode::propose` does with a client command.
pub open spec fn proposal_taken(before: NodeView, after: NodeView, command: RaftCommand, r: Result<u64, ProposeError>) -> bool {
    &&& before.role != NodeState::Leader ==> after == before && r == Err::<u64, ProposeError>(
            ProposeError::NotLeader { leader: before.leader },
        )
    &&& before.role == NodeState::Leader && before.log.last_index() + 1 == u64::MAX ==> after
            == before && r == Err::<u64, ProposeError>(ProposeError::LogFull)
    &&& before.role == NodeState::Leader && before.log.last_index() + 1 < u64::MAX ==> {
            let i = (before.log.last_index() + 1) as u64;
            &&& r == Ok::<u64, ProposeError>(i)
            &&& after == (NodeView {
                log: LogView {
                    entries: before.log.entries.push(LogEntry { index: i, term: before.term, command }),
                    ..before.log
                },
                commit_index: if before.peers.len() == 0 { i } else { before.commit_index },
                ..before
            })
        }
}

/// What `RaftNode::handle_append_reply` does with a reply from `from`.
pub open spec fn reply_taken(before: NodeView, after: NodeView, from: u64, term: u64, success: bool, match_index: u64, r: Seq<Envelope>) -> bool {
    &&& term > before.term ==> after == adopt(before, term) && r.len() == 0
    &&& term <= before.term && (before.role != NodeState::Leader || term != before.term
            || !before.peers.contains(from)) ==> after == before && r.len() == 0
    &&& term == before.term && before.role == NodeState::Leader ==> forall|k: int|
            0 <= k < before.peers.len() && before.peers[k] == from ==> {
                let v = before;
                let last = v.log.last_index();
                let reported = if match_index <= last { match_index as int } else { last };
                let kept = if reported > v.match_index[k] { reported } else { v.match_index[k] as int };
                &&& success ==> {
                    let mid = NodeView {
                        match_index: v.match_index.update(k, kept as u64),
                        next_index: v.next_index.update(k, (kept + 1) as u64),
                        ..v
                    };
                    &&& advanced(mid, after.commit_index as int)
                    &&& after == (NodeView { commit_index: after.commit_index, ..mid })
                    &&& kept < last ==> r.len() == 1 && r[0].from == v.id && r[0].to == from
                        && is_append_message(r[0].message, after, k)
                    &&& kept >= last ==> r.len() == 0
                }
                &&& !success ==> {
                    &&& after == (NodeView { next_index: v.next_index.update(k, (kept + 1) as u64), ..v })
                    &&& r.len() == 1 && r[0].from == v.id && r[0].to == from && is_append_message(
                        r[0].message,
                        after,
                        k,
                    )
                }
            }
}

/// What `RaftNode::handle_append_entries` does with entries from a leader.
pub open spec fn entries_taken(before: NodeView, after: NodeView, term: u64, leader_id: u64, prev_log_index: u64, prev_log_term: u64, entries: Seq<LogEntry>, leader_commit: u64, r: Envelope) -> bool {
    &&& ({
            let v = before;
            let a = adopt(v, term);
            let f = follow(a, leader_id);
            let prev = prev_log_index as int;
            let es = entries;
            &&& term < v.term ==> after == v && r == append_reply(v.id, leader_id, v.term, false, 0)
            &&& term >= v.term && a.role == NodeState::Leader ==> after == a && r == append_reply(
                v.id,
                leader_id,
                a.term,
                false,
                0,
            )
            &&& term >= v.term && a.role != NodeState::Leader && prev < f.log.snapshot_index ==> after == f
                && r == append_reply(v.id, leader_id, term, false, f.log.snapshot_index)
            &&& term >= v.term && a.role != NodeState::Leader && prev >= f.log.snapshot_index && (f.log.term_at(
                prev,
            ) != Some(prev_log_term) || prev + es.len() >= u64::MAX) ==> after == f && r == append_reply(
                v.id,
                leader_id,
                term,
                false,
                resume_hint(f.log, prev),
            )
            &&& term >= v.term && a.role != NodeState::Leader && prev >= f.log.snapshot_index && f.log.term_at(prev)
                == Some(prev_log_term) && prev + es.len() < u64::MAX ==> forall|k0: int|
                #[trigger] divergence(f.log, prev, es, k0) ==> {
                    let conflict = k0 < es.len() && f.log.holds(prev + 1 + k0) && prev + 1 + k0 <= f.commit_index;
                    let reach = prev + es.len();
                    let c = if leader_commit < reach { leader_commit as int } else { reach };
                    &&& conflict ==> after == f && r == append_reply(v.id, leader_id, term, false, f.commit_index)
                    &&& !conflict ==> after == (NodeView {
                        log: merged(f.log, prev, es, k0),
                        commit_index: if c > f.commit_index { c as u64 } else { f.commit_index },
                        ..f
                    }) && r == append_reply(v.id, leader_id, term, true, reach as u64)
                }
        })
}

/// What `RaftNode::handle_install_snapshot` does with a snapshot from a
/// leader.
pub open spec fn snapshot_taken(before: NodeView, after: NodeView, term: u64, leader_id: u64, last_index: u64, last_term: u64, state: Seq<ConfigEntity>, r: Envelope) -> bool {
    &&& ({
            let v = before;
            let a = adopt(v, term);
            let f = follow(a, leader_id);
            &&& term < v.term ==> after == v && r == append_reply(v.id, leader_id, v.term, false, 0)
            &&& term >= v.term && a.role == NodeState::Leader ==> after == a && r == append_reply(
                v.id,
                leader_id,
                a.term,
                false,
                0,
            )
            &&& term >= v.term && a.role != NodeState::Leader && last_index <= f.commit_index ==> after == f
                && r == append_reply(v.id, leader_id, term, true, last_index)
            &&& term >= v.term && a.role != NodeState::Leader && last_index > f.commit_index && (!ids_in_order(
                state,
            ) || last_index == u64::MAX) ==> after == f && r == append_reply(
                v.id,
                leader_id,
                term,
                false,
                f.commit_index,
            )
            &&& term >= v.term && a.role != NodeState::Leader && last_index > f.commit_index && ids_in_order(state)
                && last_index < u64::MAX ==> after == (NodeView {
                log: LogView {
                    snapshot_index: last_index,
                    snapshot_term: last_term,
                    snapshot_state: state,
                    entries: if f.log.term_at(last_index as int) == Some(last_term) {
                        f.log.entries.subrange(last_index - f.log.snapshot_index, f.log.entries.len() as int)
                    } else {
                        Seq::<LogEntry>::empty()
                    },
                },
                commit_index: last_index,
                ..f
            }) && r == append_reply(v.id, leader_id, term, true, last_index)
        })
}

/// What the node `before` becomes, and what it answers (`out`), when it
/// handles the message in `e` with the handler for its kind.
pub open spec fn handled(before: NodeView, e: Envelope, after: NodeView, out: Seq<Envelope>) -> bool {
    match e.message {
        Message::RequestVote { term, candidate_id, last_log_index, last_log_term } => out.len() == 1 && vote_answered(
            before,
            after,
            term,
            candidate_id,
            last_log_index,
            last_log_term,
            out[0],
        ),
        Message::VoteReply { term, granted } => vote_counted(before, after, e.from, term, granted, out),
        Message::AppendEntries { term, leader_id, prev_log_index, prev_log_term, entries, leader_commit } => out.len()
            == 1 && entries_taken(before, after, term, leader_id, prev_log_index, prev_log_term, entries@, leader_commit, out[0]),
        Message::AppendReply { term, success, match_index } => reply_taken(before, after, e.from, term, success, match_index, out),
        Message::InstallSnapshot { term, leader_id, last_index, last_term, state } => out.len() == 1 && snapshot_taken(
            before,
            after,
            term,
            leader_id,
            last_index,
            last_term,
            state@,
            out[0],
        ),
    }
}

/// A Raft node.
#[derive(Debug)]
pub struct RaftNode {
    id: u64,
    peers: Vec<u64>,
    term: u64,
    voted_for: Option<u64>,
    role: NodeState,
    leader: Option<u64>,
    log: RaftLog,
    commit_index: u64,
    votes: Vec<u64>,
    next_index: Vec<u64>,
    match_index: Vec<u64>,
    max_batch: usize,
}

impl View for RaftNode {
    type V = NodeView;

    closed spec fn view(&self) -> NodeView {
        NodeView {
            id: self.id,
            peers: self.peers@,
            term: self.term,
            voted_for: self.voted_for,
            role: self.role,
            leader: self.leader,
            log: self.log@,
            commit_index: self.commit_index,
            votes: self.votes@,
            next_index: self.next_index@,
            match_index: self.match_index@,
            max_batch: self.max_batch,
        }
    }
}

/// The invariant of a node's state.
pub open spec fn node_wf(v: NodeView) -> bool {
    &&& v.log.wf()
    &&& v.log.last_index() < u64::MAX
    &&& ids_in_order(v.log.snapshot_state)
    &&& v.peers.no_duplicates()
    &&& !v.peers.contains(v.id)
    &&& v.peers.len() < 0x1_0000_0000
    &&& v.next_index.len() == v.peers.len()
    &&& v.match_index.len() == v.peers.len()
    &&& v.votes.no_duplicates()
    &&& forall|i: int| 0 <= i < v.votes.len() ==> #[trigger] v.votes[i] == v.id || v.peers.contains(v.votes[i])
    &&& v.log.snapshot_index <= v.commit_index <= v.log.last_index()
    &&& v.max_batch > 0
    &&& v.role == NodeState::Leader ==> {
        &&& forall|k: int| 0 <= k < v.peers.len() ==> #[trigger] v.match_index[k] <= v.log.last_index()
        &&& forall|k: int| 0 <= k < v.peers.len() ==> 1 <= #[trigger] v.next_index[k] <= v.log.last_index() + 1
    }
}

impl RaftNode {
    /// Well-formed.
    pub open spec fn wf(&self) -> bool {
        node_wf(self@)
    }

    /// A follower in term 0 with an empty log, in a cluster made of itself
    /// and `peers`. At most `max_batch` entries travel in one message.
    pub fn new(id: u64, peers: Vec<u64>, max_batch: usize) -> (r: RaftNode)
        requires
            peers@.no_duplicates(),
            !peers@.contains(id),
            peers@.len() < 0x1_0000_0000,
            max_batch > 0,
        ensures
            r.wf(),
            r@.id == id,
            r@.peers == peers@,
            r@.term == 0,
            r@.voted_for == None::<u64>,
            r@.role == NodeState::Follower,
            r@.leader == None::<u64>,
            r@.log.snapshot_index == 0,
            r@.log.snapshot_term == 0,
            r@.log.snapshot_state == Seq::<ConfigEntity>::empty(),
            r@.log.entries == Seq::<LogEntry>::empty(),
            r@.commit_index == 0,
            r@.votes == Seq::<u64>::empty(),
            r@.max_batch == max_batch,
    {
        let n = peers.len();
        let mut next_index: Vec<u64> = Vec::new();
        let mut match_index: Vec<u64> = Vec::new();
        let mut k: usize = 0;
        while k < n
            invariant
                k <= n,
                n == peers@.len(),
                next_index@.len() == k,
                match_index@.len() == k,
            decreases n - k,
        {
            next_index.push(1);
            match_index.push(0);
            k = k + 1;
        }
        RaftNode {
            id,
            peers,
            term: 0,
            voted_for: None,
            role: NodeState::Follower,
            leader: None,
            log: RaftLog::new(),
            commit_index: 0,
            votes: Vec::new(),
            next_index,
            match_index,
            max_batch,
        }
    }

    /// A node restarting from its durable state: its current term, the
    /// vote it cast in that term, and its log. It resumes as a follower that
    /// knows no leader; what is committed beyond its snapshot it learns
    /// again from the leader.
    pub fn restore(
        id: u64,
        peers: Vec<u64>,
        max_batch: usize,
        term: u64,
        voted_for: Option<u64>,
        log: RaftLog,
    ) -> (r: RaftNode)
        requires
            peers@.no_duplicates(),
            !peers@.contains(id),
            peers@.len() < 0x1_0000_0000,
            max_batch > 0,
            log.wf(),
            log@.last_index() < u64::MAX,
        ensures
            r.wf(),
            r@.id == id,
            r@.peers == peers@,
            r@.term == term,
            r@.voted_for == voted_for,
            r@.role == NodeState::Follower,
            r@.leader == None::<u64>,
            r@.log == log@,
            r@.commit_index == log@.snapshot_index,
            r@.votes == Seq::<u64>::empty(),
            r@.max_batch == max_batch,
    {
        let mut node = RaftNode::new(id, peers, max_batch);
        node.term = term;
        node.voted_for = voted_for;
        node.commit_index = log.snapshot_index();
        node.log = log;
        node
    }

    /// This node's id.
    pub fn id(&self) -> (r: u64)
        ensures
            r == self@.id,
    {
        self.id
    }

    /// The current term.
    pub fn get_term(&self) -> (r: u64)
        ensures
            r == self@.term,
    {
        self.term
    }

    /// The current role.
    pub fn get_state(&self) -> (r: NodeState)
        ensures
            r == self@.role,
    {
        self.role
    }

    /// The vote cast in the current term, if any.
    pub fn get_voted_for(&self) -> (r: Option<u64>)
        ensures
            r == self@.voted_for,
    {
        self.voted_for
    }

    /// The leader this node last heard from in its current term.
    pub fn leader(&self) -> (r: Option<u64>)
        ensures
            r == self@.leader,
    {
        self.leader
    }

    /// The highest index known to be committed.
    pub fn commit_index(&self) -> (r: u64)
        ensures
            r == self@.commit_index,
    {
        self.commit_index
    }

    /// The peers, in the order used by `heartbeat`.
    pub fn peers(&self) -> (r: &Vec<u64>)
        ensures
            r@ == self@.peers,
    {
        &self.peers
    }

    /// The node's log.
    pub fn log(&self) -> (r: &RaftLog)
        requires
            self.wf(),
        ensures
            r@ == self@.log,
            r.wf(),
    {
        &self.log
    }

    /// Position of `id` among the peers.
    fn peer_position(&self, id: u64) -> (r: Option<usize>)
        ensures
            match r {
                Some(k) => k < self@.peers.len() && self@.peers[k as int] == id,
                None => !self@.peers.contains(id),
            },
    {
        let mut k: usize = 0;
        while k < self.peers.len()
            invariant
                0 <= k <= self.peers@.len(),
                forall|j: int| 0 <= j < k ==> self.peers@[j] != id,
            decreases self.peers@.len() - k,
        {
            if self.peers[k] == id {
                return Some(k);
            }
            k = k + 1;
        }
        None
    }

    /// Whether `id` has already been counted as a vote.
    fn has_vote_from(&self, id: u64) -> (r: bool)
        ensures
            r == self@.votes.contains(id),
    {
        let mut k: usize = 0;
        while k < self.votes.len()
            invariant
                0 <= k <= self.votes@.len(),
                forall|j: int| 0 <= j < k ==> self.votes@[j] != id,
            decreases self.votes@.len() - k,
        {
            if self.votes[k] == id {
                assert(self.votes@[k as int] == id);
                return true;
            }
            k = k + 1;
        }
        false
    }

    /// Adopts term `t` if it is higher than the current one.
    fn observe_term(&mut self, t: u64)
        requires
            old(self).wf(),
        ensures
            final(self).wf(),
            final(self)@ == adopt(old(self)@, t),
    {
        if t > self.term {
            self.term = t;
            self.role = NodeState::Follower;
            self.voted_for = None;
            self.leader = None;
            self.votes = Vec::new();
        }
    }
}

impl RaftNode {
    /// The message for the `k`-th peer (see `is_append_message`).
    pub fn append_request(&self, k: usize) -> (r: Envelope)
        requires
            self.wf(),
            self@.role == NodeState::Leader,
            k < self@.peers.len(),
        ensures
            r.from == self@.id,
            r.to == self@.peers[k as int],
            is_append_message(r.message, self@, k as int),
    {
        let next = self.next_index[k];
        let snap = self.log.snapshot_index();
        let message = if next <= snap {
            let state = self.log.snapshot_state().entities();
            Message::InstallSnapshot {
                term: self.term,
                leader_id: self.id,
                last_index: snap,
                last_term: self.log.snapshot_term(),
                state,
            }
        } else {
            let prev_log_term = match self.log.term_at(next - 1) {
                Some(t) => t,
                None => 0,
            };
            let entries = self.log.entries_from(next, self.max_batch);
            Message::AppendEntries {
                term: self.term,
                leader_id: self.id,
                prev_log_index: next - 1,
                prev_log_term,
                entries,
                leader_commit: self.commit_index,
            }
        };
        Envelope { from: self.id, to: self.peers[k], message }
    }

    /// The messages a leader sends to all peers: entries each peer lacks,
    /// or a bare heartbeat that carries the commit index.
    pub fn heartbeat(&self) -> (r: Vec<Envelope>)
        requires
            self.wf(),
            self@.role == NodeState::Leader,
        ensures
            forall|j: int| 0 <= j < r@.len() ==> from_log((#[trigger] r@[j]).message, self@.log),
            forall|j: int| 0 <= j < r@.len() ==> carries_entries(#[trigger] r@[j]),
            is_broadcast(r@, self@),
    {
        let mut out: Vec<Envelope> = Vec::new();
        let mut k: usize = 0;
        while k < self.peers.len()
            invariant
                self.wf(),
                self@.role == NodeState::Leader,
                0 <= k <= self@.peers.len(),
                out@.len() == k,
                forall|j: int|
                    0 <= j < k ==> (#[trigger] out@[j]).from == self@.id && out@[j].to == self@.peers[j]
                        && is_append_message(out@[j].message, self@, j),
            decreases self@.peers.len() - k,
        {
            let e = self.append_request(k);
            out.push(e);
            k = k + 1;
        }
        out
    }

    /// Takes the leader role: every peer is assumed to match nothing and to
    /// need the entries after the last one.
    fn become_leader(&mut self)
        requires
            old(self).wf(),
        ensures
            final(self).wf(),
            final(self)@ == (NodeView {
                role: NodeState::Leader,
                leader: Some(old(self)@.id),
                next_index: Seq::new(old(self)@.peers.len(), |k: int| (old(self)@.log.last_index() + 1) as u64),
                match_index: Seq::new(old(self)@.peers.len(), |k: int| 0u64),
                ..old(self)@
            }),
    {
        let next = self.log.last_index() + 1;
        let n = self.peers.len();
        let mut next_index: Vec<u64> = Vec::new();
        let mut match_index: Vec<u64> = Vec::new();
        let mut k: usize = 0;
        while k < n
            invariant
                k <= n,
                n == self.peers@.len(),
                next_index@ == Seq::new(k as nat, |j: int| next),
                match_index@ == Seq::new(k as nat, |j: int| 0u64),
            decreases n - k,
        {
            next_index.push(next);
            match_index.push(0);
            k = k + 1;
            assert(next_index@ =~= Seq::new(k as nat, |j: int| next));
            assert(match_index@ =~= Seq::new(k as nat, |j: int| 0u64));
        }
        self.role = NodeState::Leader;
        self.leader = Some(self.id);
        self.next_index = next_index;
        self.match_index = match_index;
        assert(self.next_index@ =~= Seq::new(n as nat, |j: int| next));
    }

    /// The election timer fired. A follower or candidate starts an election
    /// in the next term, votes for itself and asks every peer for its vote;
    /// with no peers it wins at once. A leader ignores the timer.
    #[verifier::rlimit(80)]
    pub fn election_timeout(&mut self) -> (r: Vec<Envelope>)
        requires
            old(self).wf(),
            old(self)@.term < u64::MAX,
        ensures
            final(self)@.log == old(self)@.log,
            snapshot_moves_forward(old(self)@, final(self)@),
            leader_append_only(old(self)@, final(self)@),
            commit_kept(old(self)@, final(self)@),
            final(self).wf(),
            timed_out(old(self)@, final(self)@, r@),
    {
        if self.role == NodeState::Leader {
            return Vec::new();
        }
        self.term = self.term + 1;
        self.role = NodeState::Candidate;
        self.voted_for = Some(self.id);
        self.leader = None;
        self.votes = vec![self.id];
        proof {
            assert(self.votes@ =~= seq![self.id]);
        }
        if self.peers.len() == 0 {
            self.become_leader();
            assert(self@.next_index =~= old(self)@.next_index);
            assert(self@.match_index =~= old(self)@.match_index);
        }
        let last_log_index = self.log.last_index();
        let last_log_term = self.log.last_term();
        let mut out: Vec<Envelope> = Vec::new();
        let mut k: usize = 0;
        while k < self.peers.len()
            invariant
                self.wf(),
                0 <= k <= self@.peers.len(),
                out@.len() == k,
                forall|j: int|
                    0 <= j < k ==> (#[trigger] out@[j]).from == self@.id && out@[j].to == self@.peers[j]
                        && out@[j].message == (Message::RequestVote {
                        term: self@.term,
                        candidate_id: self@.id,
                        last_log_index,
                        last_log_term,
                    }),
            decreases self@.peers.len() - k,
        {
            out.push(
                Envelope {
                    from: self.id,
                    to: self.peers[k],
                    message: Message::RequestVote { term: self.term, candidate_id: self.id, last_log_index, last_log_term },
                },
            );
            k = k + 1;
        }
        out
    }

    /// Answers a vote request. A higher term is adopted first; the vote is
    /// granted when the request's term is the node's own, the node has not
    /// voted for another candidate in it, and the candidate's log is at
    /// least as up to date as its own.
    pub fn handle_request_vote(&mut self, term: u64, candidate_id: u64, last_log_index: u64, last_log_term: u64) -> (r:
        Envelope)
        requires
            old(self).wf(),
        ensures
            final(self)@.log == old(self)@.log,
            snapshot_moves_forward(old(self)@, final(self)@),
            leader_append_only(old(self)@, final(self)@),
            commit_kept(old(self)@, final(self)@),
            final(self).wf(),
            vote_answered(old(self)@, final(self)@, term, candidate_id, last_log_index, last_log_term, r),
    {
        self.observe_term(term);
        let my_term = self.log.last_term();
        let my_index = self.log.last_index();
        let fresh = last_log_term > my_term || (last_log_term == my_term && last_log_index >= my_index);
        let free = match self.voted_for {
            None => true,
            Some(c) => c == candidate_id,
        };
        let granted = term == self.term && free && fresh;
        if granted {
            self.voted_for = Some(candidate_id);
        }
        Envelope { from: self.id, to: candidate_id, message: Message::VoteReply { term: self.term, granted } }
    }

    /// Counts a vote reply from `from`. A higher term is adopted; a granted
    /// vote in the current term counts once per peer while the node is a
    /// candidate, and a majority makes it leader, which then sends its first
    /// heartbeats.
    #[verifier::rlimit(80)]
    pub fn handle_vote_reply(&mut self, from: u64, term: u64, granted: bool) -> (r: Vec<Envelope>)
        requires
            old(self).wf(),
        ensures
            final(self)@.log == old(self)@.log,
            forall|j: int| 0 <= j < r@.len() ==> from_log((#[trigger] r@[j]).message, final(self)@.log),
            snapshot_moves_forward(old(self)@, final(self)@),
            forall|j: int| 0 <= j < r@.len() ==> carries_entries(#[trigger] r@[j]),
            leader_append_only(old(self)@, final(self)@),
            commit_kept(old(self)@, final(self)@),
            final(self).wf(),
            vote_counted(old(self)@, final(self)@, from, term, granted, r@),
    {
        if term > self.term {
            self.observe_term(term);
            return Vec::new();
        }
        if self.role != NodeState::Candidate || term != self.term || !granted {
            return Vec::new();
        }
        if self.peer_position(from).is_none() || self.has_vote_from(from) {
            return Vec::new();
        }
        self.votes.push(from);
        proof {
            assert forall|i: int| 0 <= i < self.votes@.len() implies #[trigger] self.votes@[i] == self.id
                || self.peers@.contains(self.votes@[i]) by {
                if i < old(self).votes@.len() {
                    assert(self.votes@[i] == old(self).votes@[i]);
                }
            }
        }
        let count = self.votes.len() as u64;
        let peers = self.peers.len() as u64;
        if count > (peers + 1) / 2 {
            self.become_leader();
            self.heartbeat()
        } else {
            Vec::new()
        }
    }
}

impl RaftNode {
    /// How many peers are known to hold the log up to index `n`.
    fn count_matching(&self, n: u64) -> (r: u64)
        requires
            self.wf(),
        ensures
            r == count_at_least(self@.match_index, n as int),
            r <= self@.peers.len(),
    {
        let mut count: u64 = 0;
        let mut k: usize = 0;
        while k < self.match_index.len()
            invariant
                self.wf(),
                0 <= k <= self.match_index@.len(),
                count == count_at_least(self.match_index@.subrange(0, k as int), n as int),
                count <= k,
            decreases self.match_index@.len() - k,
        {
            assert(self.match_index@.subrange(0, k + 1).drop_last() =~= self.match_index@.subrange(0, k as int));
            if self.match_index[k] >= n {
                count = count + 1;
            }
            k = k + 1;
        }
        assert(self.match_index@.subrange(0, k as int) =~= self.match_index@);
        count
    }

    /// Moves the commit index of a leader to the highest index that a
    /// majority holds and whose entry is from the current term. Entries of
    /// earlier terms are committed only along with such an entry.
    fn advance_commit(&mut self)
        requires
            old(self).wf(),
            old(self)@.role == NodeState::Leader,
        ensures
            final(self).wf(),
            advanced(old(self)@, final(self)@.commit_index as int),
            final(self)@ == (NodeView { commit_index: final(self)@.commit_index, ..old(self)@ }),
    {
        let ghost v = self@;
        let mut n = self.log.last_index();
        let peers = self.peers.len() as u64;
        while n > self.commit_index
            invariant
                self.wf(),
                self@ == v,
                v == old(self)@,
                v.commit_index <= n <= v.log.last_index(),
                forall|m: int| n < m <= v.log.last_index() ==> !#[trigger] committable(v, m),
                peers == v.peers.len(),
            decreases n,
        {
            let count = self.count_matching(n);
            if self.log.entry(n).term == self.term && 1 + count > (peers + 1) / 2 {
                assert(committable(v, n as int));
                self.commit_index = n;
                assert(advanced(v, n as int));
                assert(self@ == (NodeView { commit_index: n, ..v }));
                return;
            }
            n = n - 1;
        }
        assert(advanced(v, v.commit_index as int));
        assert(self@ == (NodeView { commit_index: v.commit_index, ..v }));
    }

    /// Appends a client command to the leader's log. Any other node refuses
    /// and leaves its state as it was. A leader without peers commits the
    /// entry at once.
    pub fn propose(&mut self, command: RaftCommand) -> (r: Result<u64, ProposeError>)
        requires
            old(self).wf(),
        ensures
            snapshot_moves_forward(old(self)@, final(self)@),
            observes(old(self)@, final(self)@),
            leader_append_only(old(self)@, final(self)@),
            commit_kept(old(self)@, final(self)@),
            final(self).wf(),
            proposal_taken(old(self)@, final(self)@, command, r),
    {
        if self.role != NodeState::Leader {
            return Err(ProposeError::NotLeader { leader: self.leader });
        }
        if self.log.last_index() + 1 == u64::MAX {
            return Err(ProposeError::LogFull);
        }
        let i = self.log.append(self.term, command);
        if self.peers.len() == 0 {
            self.commit_index = i;
        }
        i_ok(i)
    }

    /// Takes a leader's reply from `from`. A higher term is adopted. In the
    /// current term a success records how far the peer's log matches and may
    /// advance the commit index; a failure moves the peer's next index back
    /// (or forward past a snapshot it holds). The entries the peer still
    /// lacks are sent again.
    #[verifier::rlimit(80)]
    pub fn handle_append_reply(&mut self, from: u64, term: u64, success: bool, match_index: u64) -> (r: Vec<Envelope>)
        requires
            old(self).wf(),
        ensures
            final(self)@.log == old(self)@.log,
            forall|j: int| 0 <= j < r@.len() ==> from_log((#[trigger] r@[j]).message, final(self)@.log),
            snapshot_moves_forward(old(self)@, final(self)@),
            forall|j: int| 0 <= j < r@.len() ==> carries_entries(#[trigger] r@[j]),
            observes(old(self)@, final(self)@),
            leader_append_only(old(self)@, final(self)@),
            commit_kept(old(self)@, final(self)@),
            final(self).wf(),
            reply_taken(old(self)@, final(self)@, from, term, success, match_index, r@),
    {
        if term > self.term {
            self.observe_term(term);
            return Vec::new();
        }
        if self.role != NodeState::Leader || term != self.term {
            return Vec::new();
        }
        let k = match self.peer_position(from) {
            Some(k) => k,
            None => {
                return Vec::new();
            },
        };
        proof {
            assert forall|j: int| 0 <= j < old(self)@.peers.len() && old(self)@.peers[j] == from implies j == k by {
                if j != k {
                    assert(old(self)@.peers.no_duplicates());
                }
            }
        }
        let last = self.log.last_index();
        let reported = if match_index <= last { match_index } else { last };
        let kept = if reported > self.match_index[k] { reported } else { self.match_index[k] };
        let ghost v = old(self)@;
        if success {
            self.match_index.set(k, kept);
            self.next_index.set(k, kept + 1);
            let ghost mid = self@;
            assert(mid == (NodeView {
                match_index: v.match_index.update(k as int, kept),
                next_index: v.next_index.update(k as int, (kept + 1) as u64),
                ..v
            }));
            self.advance_commit();
            if kept < last {
                let e = self.append_request(k);
                let out = vec![e];
                assert(out@[0] == e);
                out
            } else {
                Vec::new()
            }
        } else {
            self.next_index.set(k, kept + 1);
            assert(self@ == (NodeView { next_index: v.next_index.update(k as int, (kept + 1) as u64), ..v }));
            let e = self.append_request(k);
            let out = vec![e];
            assert(out@[0] == e);
            out
        }
    }
}

/// Wraps an index as a successful proposal.
fn i_ok(i: u64) -> (r: Result<u64, ProposeError>)
    ensures
        r == Ok::<u64, ProposeError>(i),
{
    Ok(i)
}

/// A reply to a leader.
pub open spec fn append_reply(from: u64, to: u64, term: u64, success: bool, match_index: u64) -> Envelope {
    Envelope { from, to, message: Message::AppendReply { term, success, match_index } }
}

impl RaftNode {
    /// Whether `state` is numbered by position.
    fn numbered(state: &Vec<ConfigEntity>) -> (r: bool)
        ensures
            r == ids_in_order(state@),
    {
        let mut k: usize = 0;
        while k < state.len()
            invariant
                0 <= k <= state@.len(),
                forall|j: int| 0 <= j < k ==> (#[trigger] state@[j]).id == j + 1,
            decreases state@.len() - k,
        {
            if state[k].id != k as u64 + 1 {
                return false;
            }
            k = k + 1;
        }
        true
    }

    /// Takes entries from a leader. A stale term is refused. Otherwise the
    /// term is adopted and the node follows the sender; the entries are
    /// accepted when the log holds `prev_log_index` with `prev_log_term`,
    /// a divergent tail is discarded and replaced, and the commit index
    /// follows the leader's as far as the entries reach. A committed entry
    /// is never discarded: a message that would do so is refused. The
    /// consistency check at `prev_log_index` compares with the snapshot's
    /// term when that index is the snapshot's last one (term 0 at index 0),
    /// so `prev_log_index` 0 with a nonzero `prev_log_term` is refused too.
    /// A consistent cluster never sends either of these two messages.
    #[verifier::rlimit(80)]
    pub fn handle_append_entries(
        &mut self,
        term: u64,
        leader_id: u64,
        prev_log_index: u64,
        prev_log_term: u64,
        entries: &Vec<LogEntry>,
        leader_commit: u64,
    ) -> (r: Envelope)
        requires
            old(self).wf(),
        ensures
            snapshot_moves_forward(old(self)@, final(self)@),
            r.message is AppendReply,
            observes(old(self)@, final(self)@),
            leader_append_only(old(self)@, final(self)@),
            commit_kept(old(self)@, final(self)@),
            final(self).wf(),
            entries_taken(old(self)@, final(self)@, term, leader_id, prev_log_index, prev_log_term, entries@, leader_commit, r),
    {
        if term < self.term {
            return Envelope {
                from: self.id,
                to: leader_id,
                message: Message::AppendReply { term: self.term, success: false, match_index: 0 },
            };
        }
        self.observe_term(term);
        if self.role == NodeState::Leader {
            return Envelope {
                from: self.id,
                to: leader_id,
                message: Message::AppendReply { term: self.term, success: false, match_index: 0 },
            };
        }
        self.role = NodeState::Follower;
        self.leader = Some(leader_id);
        let snap = self.log.snapshot_index();
        if prev_log_index < snap {
            return Envelope {
                from: self.id,
                to: leader_id,
                message: Message::AppendReply { term, success: false, match_index: snap },
            };
        }
        let last = self.log.last_index();
        let n = entries.len();
        if self.log.term_at(prev_log_index) != Some(prev_log_term) || n as u64 >= u64::MAX - prev_log_index {
            let hint = if prev_log_index == 0 {
                0
            } else if prev_log_index - 1 <= last {
                prev_log_index - 1
            } else {
                last
            };
            return Envelope {
                from: self.id,
                to: leader_id,
                message: Message::AppendReply { term, success: false, match_index: hint },
            };
        }
        let ghost f = self@;
        let prev = prev_log_index;
        // Where the entries stop agreeing with the log.
        let mut k: usize = 0;
        while k < n && self.log.term_at(prev + 1 + k as u64) == Some(entries[k].term)
            invariant
                self@ == f,
                self.wf(),
                n == entries@.len(),
                prev + n < u64::MAX,
                0 <= k <= n,
                forall|j: int| 0 <= j < k ==> #[trigger] agrees_at(f.log, prev as int, entries@, j),
            decreases n - k,
        {
            assert(agrees_at(f.log, prev as int, entries@, k as int));
            k = k + 1;
        }
        let k0 = k;
        proof {
            if k0 > 0 {
                assert(agrees_at(f.log, prev as int, entries@, k0 - 1));
            }
        }
        assert(divergence(f.log, prev as int, entries@, k0 as int));
        proof {
            assert forall|k1: int| #[trigger] divergence(f.log, prev as int, entries@, k1) implies k1 == k0 by {
                if k1 < k0 {
                    assert(agrees_at(f.log, prev as int, entries@, k1));
                } else if k1 > k0 {
                    assert(agrees_at(f.log, prev as int, entries@, k0 as int));
                }
            }
        }
        if k0 < n {
            let at = prev + 1 + k0 as u64;
            if at <= last {
                if at <= self.commit_index {
                    return Envelope {
                        from: self.id,
                        to: leader_id,
                        message: Message::AppendReply { term, success: false, match_index: self.commit_index },
                    };
                }
                self.log.truncate_after(at - 1);
            }
            let ghost base = self.log@.entries;
            assert(base == f.log.entries.subrange(0, prev + k0 - f.log.snapshot_index));
            let mut j: usize = k0;
            while j < n
                invariant
                    self.wf(),
                    n == entries@.len(),
                    prev + n < u64::MAX,
                    k0 <= j <= n,
                    self@ == (NodeView { log: LogView { entries: self@.log.entries, ..f.log }, ..f }),
                    self@.log.entries == base + placed(entries@.subrange(0, j as int), k0 as int, prev as int),
                    base.len() == prev + k0 - f.log.snapshot_index,
                    f.commit_index < prev + 1 + k0,
                decreases n - j,
            {
                let ghost before = self@.log.entries;
                let e = &entries[j];
                self.log.append(e.term, e.command.copy());
                proof {
                    assert(self@.log.entries =~= base + placed(entries@.subrange(0, j + 1), k0 as int, prev as int));
                }
                j = j + 1;
            }
            assert(entries@.subrange(0, n as int) =~= entries@);
            assert(self@.log == merged(f.log, prev as int, entries@, k0 as int));
        }
        let reach = prev + n as u64;
        let c = if leader_commit < reach { leader_commit } else { reach };
        if c > self.commit_index {
            self.commit_index = c;
        }
        Envelope { from: self.id, to: leader_id, message: Message::AppendReply { term, success: true, match_index: reach } }
    }

    /// Takes a snapshot from a leader. A stale term is refused. Otherwise
    /// the term is adopted and the node follows the sender. A snapshot that
    /// reaches no further than the commit index is acknowledged and not
    /// installed; a well-formed one that reaches further replaces the log's
    /// prefix and becomes the commit index.
    #[verifier::rlimit(80)]
    pub fn handle_install_snapshot(
        &mut self,
        term: u64,
        leader_id: u64,
        last_index: u64,
        last_term: u64,
        state: Vec<ConfigEntity>,
    ) -> (r: Envelope)
        requires
            old(self).wf(),
        ensures
            snapshot_moves_forward(old(self)@, final(self)@),
            r.message is AppendReply,
            observes(old(self)@, final(self)@),
            leader_append_only(old(self)@, final(self)@),
            commit_kept(old(self)@, final(self)@),
            final(self).wf(),
            snapshot_taken(old(self)@, final(self)@, term, leader_id, last_index, last_term, state@, r),
    {
        if term < self.term {
            return Envelope {
                from: self.id,
                to: leader_id,
                message: Message::AppendReply { term: self.term, success: false, match_index: 0 },
            };
        }
        self.observe_term(term);
        if self.role == NodeState::Leader {
            return Envelope {
                from: self.id,
                to: leader_id,
                message: Message::AppendReply { term: self.term, success: false, match_index: 0 },
            };
        }
        self.role = NodeState::Follower;
        self.leader = Some(leader_id);
        if last_index <= self.commit_index {
            return Envelope {
                from: self.id,
                to: leader_id,
                message: Message::AppendReply { term, success: true, match_index: last_index },
            };
        }
        if !Self::numbered(&state) || last_index == u64::MAX {
            return Envelope {
                from: self.id,
                to: leader_id,
                message: Message::AppendReply { term, success: false, match_index: self.commit_index },
            };
        }
        let store = ConfigStore::from_entities(state);
        self.log.install_snapshot(last_index, last_term, store);
        self.commit_index = last_index;
        Envelope { from: self.id, to: leader_id, message: Message::AppendReply { term, success: true, match_index: last_index } }
    }

    /// Folds the log up to `upto`, a committed index, into a snapshot whose
    /// state is `state`.
    pub fn compact(&mut self, upto: u64, state: ConfigStore)
        requires
            old(self).wf(),
            state.wf(),
            old(self)@.log.snapshot_index < upto <= old(self)@.commit_index,
        ensures
            observes(old(self)@, final(self)@),
            commit_kept(old(self)@, final(self)@),
            final(self).wf(),
            final(self)@ == (NodeView {
                log: LogView {
                    snapshot_index: upto,
                    snapshot_term: old(self)@.log.entry(upto as int).term,
                    snapshot_state: state@,
                    entries: old(self)@.log.entries.subrange(
                        upto - old(self)@.log.snapshot_index,
                        old(self)@.log.entries.len() as int,
                    ),
                },
                ..old(self)@
            }),
    {
        self.log.compact(upto, state);
    }
}

} // verus!
