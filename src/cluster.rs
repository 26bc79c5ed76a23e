//! An in-memory cluster: nodes that exchange messages through a shared
//! list of messages in flight. Any message may be delivered next or lost,
//! which models reordering, loss and partitions. Every state it reaches has
//! at most one leader per term, and any two logs that hold an entry with
//! the same index and term agree on everything before it.

use vstd::prelude::*;
use vstd::set_lib::{lemma_len_subset, lemma_set_intersect_union_lens};
use crate::command::RaftCommand;
use crate::node::{
    Envelope,
    Message,
    NodeState,
    NodeView,
    ProposeError,
    RaftNode,
    adopt,
    commit_kept,
    from_log,
    node_wf,
    observes,
    quorum,
};
use crate::matching::{
    History,
    appended_record,
    base_ok,
    chain_ok,
    lemma_append_record,
    lemma_chain_extends,
    lemma_install_chain,
    lemma_log_matching,
    lemma_merge_chain,
    lemma_sent_chain,
    log_ok,
    logs_match,
};
use crate::log::{LogEntry, LogView};

verus! {

/// The ids below `n`.
pub open spec fn ids_below(n: nat) -> Set<u64> {
    Set::new(|x: u64| x < n)
}

/// There are `n` ids below `n`.
proof fn lemma_ids_below(n: nat)
    requires
        n <= u64::MAX,
    ensures
        ids_below(n).finite(),
        ids_below(n).len() == n,
    decreases n,
{
    if n == 0 {
        assert(ids_below(0) =~= Set::<u64>::empty());
    } else {
        lemma_ids_below((n - 1) as nat);
        assert(ids_below((n - 1) as nat).insert((n - 1) as u64) =~= ids_below(n));
    }
}

/// Two strict majorities of the ids below `n` share a member.
pub proof fn lemma_quorums_intersect(a: Seq<u64>, b: Seq<u64>, n: nat) -> (x: u64)
    requires
        n <= u64::MAX,
        a.no_duplicates(),
        b.no_duplicates(),
        forall|i: int| 0 <= i < a.len() ==> #[trigger] a[i] < n,
        forall|i: int| 0 <= i < b.len() ==> #[trigger] b[i] < n,
        a.len() * 2 > n,
        b.len() * 2 > n,
    ensures
        a.contains(x),
        b.contains(x),
{
    let sa = a.to_set();
    let sb = b.to_set();
    a.unique_seq_to_set();
    b.unique_seq_to_set();
    lemma_ids_below(n);
    assert((sa + sb).subset_of(ids_below(n))) by {
        assert forall|y: u64| (sa + sb).contains(y) implies ids_below(n).contains(y) by {
            if sa.contains(y) {
                let i = choose|i: int| 0 <= i < a.len() && a[i] == y;
            } else {
                let i = choose|i: int| 0 <= i < b.len() && b[i] == y;
            }
        }
    }
    lemma_len_subset(sa + sb, ids_below(n));
    lemma_set_intersect_union_lens(sa, sb);
    let both = sa.intersect(sb);
    assert(both.len() > 0);
    let x = both.choose();
    assert(both.contains(x));
    x
}

/// Whether `e` grants a vote.
pub open spec fn grants(e: Envelope) -> bool {
    match e.message {
        Message::VoteReply { granted, .. } => granted,
        _ => false,
    }
}

/// The term of a vote reply.
pub open spec fn reply_term(e: Envelope) -> u64 {
    match e.message {
        Message::VoteReply { term, .. } => term,
        _ => 0,
    }
}

/// Election safety: no two nodes lead the same term.
pub open spec fn election_safe(vs: Seq<NodeView>) -> bool {
    forall|i: int, j: int|
        0 <= i < vs.len() && 0 <= j < vs.len() && #[trigger] vs[i].role == NodeState::Leader && #[trigger] vs[j].role
            == NodeState::Leader && vs[i].term == vs[j].term ==> i == j
}

/// Node `i` of a cluster of `n` nodes is numbered `i` and has every other
/// node as a peer.
pub open spec fn placed_node(v: NodeView, i: int, n: nat) -> bool {
    &&& node_wf(v)
    &&& v.id == i
    &&& v.peers.len() + 1 == n
    &&& forall|x: u64| v.peers.contains(x) <==> (x < n && x != i)
}

/// The invariant of a cluster: `ledger` records every vote ever cast, as
/// (voter, term) to candidate.
pub open spec fn cluster_inv(vs: Seq<NodeView>, net: Seq<Envelope>, ledger: Map<(u64, u64), u64>) -> bool {
    let n = vs.len();
    &&& 1 <= n < 0x1_0000_0000
    &&& forall|i: int| 0 <= i < n ==> placed_node(#[trigger] vs[i], i, n)
    // Votes are recorded only up to the voter's current term.
    &&& forall|key: (u64, u64)| #[trigger] ledger.contains_key(key) ==> key.0 < n && key.1 <= vs[key.0 as int].term
    // A node's vote in its current term is the recorded one.
    &&& forall|i: int| 0 <= i < n && (#[trigger] vs[i]).voted_for is Some ==> ledger.contains_key((i as u64, vs[i].term))
        && ledger[(i as u64, vs[i].term)] == vs[i].voted_for->0
    &&& forall|i: int| 0 <= i < n && ledger.contains_key((i as u64, #[trigger] vs[i].term)) ==> vs[i].voted_for == Some(
        ledger[(i as u64, vs[i].term)],
    )
    // A granted vote in flight was recorded.
    &&& forall|k: int| 0 <= k < net.len() && grants(#[trigger] net[k]) ==> ledger.contains_key((net[k].from, reply_term(net[k])))
        && ledger[(net[k].from, reply_term(net[k]))] == net[k].to
    // The votes a candidate or leader counted were cast for it.
    &&& forall|i: int, k: int|
        0 <= i < n && (#[trigger] vs[i]).role != NodeState::Follower && 0 <= k < vs[i].votes.len() ==> ledger.contains_key(
            (#[trigger] vs[i].votes[k], vs[i].term),
        ) && ledger[(vs[i].votes[k], vs[i].term)] == i
    // A leader counted a majority.
    &&& forall|i: int| 0 <= i < n && (#[trigger] vs[i]).role == NodeState::Leader ==> quorum(vs[i].votes.len() as int, n - 1)
}

/// Every state that satisfies the cluster invariant is election safe.
proof fn lemma_inv_election_safe(vs: Seq<NodeView>, net: Seq<Envelope>, ledger: Map<(u64, u64), u64>)
    requires
        cluster_inv(vs, net, ledger),
    ensures
        election_safe(vs),
{
    let n = vs.len();
    assert forall|i: int, j: int|
        0 <= i < vs.len() && 0 <= j < vs.len() && #[trigger] vs[i].role == NodeState::Leader && #[trigger] vs[j].role
            == NodeState::Leader && vs[i].term == vs[j].term implies i == j by {
        assert(placed_node(vs[i], i, n));
        assert(placed_node(vs[j], j, n));
        assert forall|k: int| 0 <= k < vs[i].votes.len() implies #[trigger] vs[i].votes[k] < n by {
            assert(vs[i].votes[k] == vs[i].id || vs[i].peers.contains(vs[i].votes[k]));
        }
        assert forall|k: int| 0 <= k < vs[j].votes.len() implies #[trigger] vs[j].votes[k] < n by {
            assert(vs[j].votes[k] == vs[j].id || vs[j].peers.contains(vs[j].votes[k]));
        }
        let x = lemma_quorums_intersect(vs[i].votes, vs[j].votes, n);
        let ki = choose|k: int| 0 <= k < vs[i].votes.len() && vs[i].votes[k] == x;
        let kj = choose|k: int| 0 <= k < vs[j].votes.len() && vs[j].votes[k] == x;
        assert(ledger[(vs[i].votes[ki], vs[i].term)] == i);
        assert(ledger[(vs[j].votes[kj], vs[j].term)] == j);
    }
}

/// Losing a message keeps the invariant.
proof fn lemma_drop(vs: Seq<NodeView>, net: Seq<Envelope>, ledger: Map<(u64, u64), u64>, k: int)
    requires
        cluster_inv(vs, net, ledger),
        0 <= k < net.len(),
    ensures
        cluster_inv(vs, net.remove(k), ledger),
{
    let net2 = net.remove(k);
    assert forall|j: int| 0 <= j < net2.len() && grants(#[trigger] net2[j]) implies ledger.contains_key(
        (net2[j].from, reply_term(net2[j])),
    ) && ledger[(net2[j].from, reply_term(net2[j]))] == net2[j].to by {
        if j < k {
            assert(net2[j] == net[j]);
        } else {
            assert(net2[j] == net[j + 1]);
        }
    }
}

/// Sending messages keeps the invariant when every vote they grant was
/// recorded.
proof fn lemma_send(vs: Seq<NodeView>, net: Seq<Envelope>, ledger: Map<(u64, u64), u64>, outs: Seq<Envelope>)
    requires
        cluster_inv(vs, net, ledger),
        forall|j: int| 0 <= j < outs.len() && grants(#[trigger] outs[j]) ==> ledger.contains_key(
            (outs[j].from, reply_term(outs[j])),
        ) && ledger[(outs[j].from, reply_term(outs[j]))] == outs[j].to,
    ensures
        cluster_inv(vs, net + outs, ledger),
{
    let net2 = net + outs;
    assert forall|j: int| 0 <= j < net2.len() && grants(#[trigger] net2[j]) implies ledger.contains_key(
        (net2[j].from, reply_term(net2[j])),
    ) && ledger[(net2[j].from, reply_term(net2[j]))] == net2[j].to by {
        if j < net.len() {
            assert(net2[j] == net[j]);
        } else {
            assert(net2[j] == outs[j - net.len()]);
        }
    }
}

/// A step of node `i` that leaves votes alone keeps the invariant.
proof fn lemma_observe(vs: Seq<NodeView>, net: Seq<Envelope>, ledger: Map<(u64, u64), u64>, i: int, w: NodeView)
    requires
        cluster_inv(vs, net, ledger),
        0 <= i < vs.len(),
        node_wf(w),
        observes(vs[i], w),
    ensures
        cluster_inv(vs.update(i, w), net, ledger),
{
    let n = vs.len();
    let vs2 = vs.update(i, w);
    assert(placed_node(vs[i], i, n));
    assert forall|j: int| 0 <= j < n implies placed_node(#[trigger] vs2[j], j, n) by {
        assert(placed_node(vs[j], j, n));
    }
    assert forall|key: (u64, u64)| #[trigger] ledger.contains_key(key) implies key.0 < n && key.1 <= vs2[key.0 as int].term by {
    }
    assert forall|j: int| 0 <= j < n && ledger.contains_key((j as u64, #[trigger] vs2[j].term)) implies vs2[j].voted_for
        == Some(ledger[(j as u64, vs2[j].term)]) by {
        if j == i && w.term > vs[i].term {
            assert(ledger.contains_key((j as u64, vs2[j].term)));
        }
    }
    assert forall|j: int, k: int|
        0 <= j < n && (#[trigger] vs2[j]).role != NodeState::Follower && 0 <= k < vs2[j].votes.len() implies ledger.contains_key(
        (#[trigger] vs2[j].votes[k], vs2[j].term),
    ) && ledger[(vs2[j].votes[k], vs2[j].term)] == j by {
        assert(vs[j].role != NodeState::Follower);
        assert(vs2[j].votes[k] == vs[j].votes[k]);
    }
    assert forall|j: int| 0 <= j < n && (#[trigger] vs2[j]).role == NodeState::Leader implies quorum(
        vs2[j].votes.len() as int,
        n - 1,
    ) by {
        assert(vs[j].role == NodeState::Leader);
    }
}

/// A candidate counting a vote recorded for it keeps the invariant; it may
/// become leader once the votes make a majority.
proof fn lemma_count_vote(
    vs: Seq<NodeView>,
    net: Seq<Envelope>,
    ledger: Map<(u64, u64), u64>,
    i: int,
    w: NodeView,
    from: u64,
)
    requires
        cluster_inv(vs, net, ledger),
        0 <= i < vs.len(),
        node_wf(w),
        vs[i].role == NodeState::Candidate,
        w.id == vs[i].id,
        w.peers == vs[i].peers,
        w.term == vs[i].term,
        w.voted_for == vs[i].voted_for,
        w.votes == vs[i].votes.push(from),
        w.role == NodeState::Candidate || (w.role == NodeState::Leader && quorum(w.votes.len() as int, w.peers.len() as int)),
        ledger.contains_key((from, vs[i].term)),
        ledger[(from, vs[i].term)] == i,
    ensures
        cluster_inv(vs.update(i, w), net, ledger),
{
    let n = vs.len();
    let vs2 = vs.update(i, w);
    assert(placed_node(vs[i], i, n));
    assert forall|j: int| 0 <= j < n implies placed_node(#[trigger] vs2[j], j, n) by {
        assert(placed_node(vs[j], j, n));
    }
    assert forall|key: (u64, u64)| #[trigger] ledger.contains_key(key) implies key.0 < n && key.1 <= vs2[key.0 as int].term by {
    }
    assert forall|j: int, k: int|
        0 <= j < n && (#[trigger] vs2[j]).role != NodeState::Follower && 0 <= k < vs2[j].votes.len() implies ledger.contains_key(
        (#[trigger] vs2[j].votes[k], vs2[j].term),
    ) && ledger[(vs2[j].votes[k], vs2[j].term)] == j by {
        if j == i && k < vs[i].votes.len() {
            assert(vs2[j].votes[k] == vs[i].votes[k]);
        }
    }
}

/// Answering a vote request keeps the invariant, once a vote granted is
/// recorded.
#[verifier::rlimit(80)]
proof fn lemma_vote(
    vs: Seq<NodeView>,
    net: Seq<Envelope>,
    ledger: Map<(u64, u64), u64>,
    i: int,
    w: NodeView,
    t: u64,
    c: u64,
)
    requires
        cluster_inv(vs, net, ledger),
        0 <= i < vs.len(),
        node_wf(w),
        w == adopt(vs[i], t) || (w == (NodeView { voted_for: Some(c), ..adopt(vs[i], t) }) && (adopt(vs[i], t).voted_for
            == None::<u64> || adopt(vs[i], t).voted_for == Some(c))),
    ensures
        cluster_inv(
            vs.update(i, w),
            net,
            if w.voted_for == Some(c) { ledger.insert((i as u64, w.term), c) } else { ledger },
        ),
{
    let n = vs.len();
    let a = adopt(vs[i], t);
    assert(placed_node(vs[i], i, n));
    assert(observes(vs[i], a));
    lemma_observe(vs, net, ledger, i, a);
    let vs1 = vs.update(i, a);
    assert(vs1[i] == a);
    if w.voted_for == Some(c) {
        let led2 = ledger.insert((i as u64, w.term), c);
        if ledger.contains_key((i as u64, w.term)) {
            assert(a.voted_for == Some(ledger[(i as u64, a.term)]));
            assert(led2 == ledger);
        }
        let vs2 = vs.update(i, w);
        assert(vs1.update(i, w) == vs2);
        assert forall|j: int| 0 <= j < n implies placed_node(#[trigger] vs2[j], j, n) by {
            assert(placed_node(vs[j], j, n));
        }
        assert forall|key: (u64, u64)| #[trigger] led2.contains_key(key) implies key.0 < n && key.1 <= vs2[key.0 as int].term by {
            if key != (i as u64, w.term) {
                assert(ledger.contains_key(key));
            }
        }
        assert forall|j: int| 0 <= j < n && (#[trigger] vs2[j]).voted_for is Some implies led2.contains_key(
            (j as u64, vs2[j].term),
        ) && led2[(j as u64, vs2[j].term)] == vs2[j].voted_for->0 by {
            if j != i {
                assert(vs2[j] == vs1[j]);
                assert((j as u64, vs2[j].term) != (i as u64, w.term));
            }
        }
        assert forall|j: int| 0 <= j < n && led2.contains_key((j as u64, #[trigger] vs2[j].term)) implies vs2[j].voted_for
            == Some(led2[(j as u64, vs2[j].term)]) by {
            if j != i {
                assert(vs2[j] == vs1[j]);
                assert((j as u64, vs2[j].term) != (i as u64, w.term));
            }
        }
        assert forall|k: int| 0 <= k < net.len() && grants(#[trigger] net[k]) implies led2.contains_key(
            (net[k].from, reply_term(net[k])),
        ) && led2[(net[k].from, reply_term(net[k]))] == net[k].to by {
        }
        assert forall|j: int, k: int|
            0 <= j < n && (#[trigger] vs2[j]).role != NodeState::Follower && 0 <= k < vs2[j].votes.len() implies led2.contains_key(
            (#[trigger] vs2[j].votes[k], vs2[j].term),
        ) && led2[(vs2[j].votes[k], vs2[j].term)] == j by {
            assert(vs1[j].role != NodeState::Follower);
            assert(vs2[j].votes[k] == vs1[j].votes[k]);
            assert(vs2[j].term == vs1[j].term);
        }
        assert forall|j: int| 0 <= j < n && (#[trigger] vs2[j]).role == NodeState::Leader implies quorum(
            vs2[j].votes.len() as int,
            n - 1,
        ) by {
            assert(vs1[j].role == NodeState::Leader);
        }
    } else {
        assert(w == a);
    }
}

/// A node that starts an election, voting for itself, keeps the invariant
/// once its vote is recorded.
proof fn lemma_campaign(vs: Seq<NodeView>, net: Seq<Envelope>, ledger: Map<(u64, u64), u64>, i: int, w: NodeView)
    requires
        cluster_inv(vs, net, ledger),
        0 <= i < vs.len(),
        node_wf(w),
        w.id == vs[i].id,
        w.peers == vs[i].peers,
        w.term == vs[i].term + 1,
        w.voted_for == Some(i as u64),
        w.votes == seq![i as u64],
        w.role == NodeState::Candidate || (w.role == NodeState::Leader && w.peers.len() == 0),
    ensures
        cluster_inv(vs.update(i, w), net, ledger.insert((i as u64, w.term), i as u64)),
{
    let n = vs.len();
    let vs2 = vs.update(i, w);
    let led2 = ledger.insert((i as u64, w.term), i as u64);
    assert(placed_node(vs[i], i, n));
    assert(!ledger.contains_key((i as u64, w.term)));
    assert forall|j: int| 0 <= j < n implies placed_node(#[trigger] vs2[j], j, n) by {
        assert(placed_node(vs[j], j, n));
    }
    assert forall|key: (u64, u64)| #[trigger] led2.contains_key(key) implies key.0 < n && key.1 <= vs2[key.0 as int].term by {
        if key != (i as u64, w.term) {
            assert(ledger.contains_key(key));
        }
    }
    assert forall|j: int| 0 <= j < n && (#[trigger] vs2[j]).voted_for is Some implies led2.contains_key(
        (j as u64, vs2[j].term),
    ) && led2[(j as u64, vs2[j].term)] == vs2[j].voted_for->0 by {
        if j != i {
            assert((j as u64, vs2[j].term) != (i as u64, w.term));
        }
    }
    assert forall|j: int| 0 <= j < n && led2.contains_key((j as u64, #[trigger] vs2[j].term)) implies vs2[j].voted_for
        == Some(led2[(j as u64, vs2[j].term)]) by {
        if j != i {
            assert((j as u64, vs2[j].term) != (i as u64, w.term));
        }
    }
    assert forall|k: int| 0 <= k < net.len() && grants(#[trigger] net[k]) implies led2.contains_key(
        (net[k].from, reply_term(net[k])),
    ) && led2[(net[k].from, reply_term(net[k]))] == net[k].to by {
    }
    assert forall|j: int, k: int|
        0 <= j < n && (#[trigger] vs2[j]).role != NodeState::Follower && 0 <= k < vs2[j].votes.len() implies led2.contains_key(
        (#[trigger] vs2[j].votes[k], vs2[j].term),
    ) && led2[(vs2[j].votes[k], vs2[j].term)] == j by {
        if j != i {
            assert(ledger.contains_key((vs[j].votes[k], vs[j].term)));
            assert((vs2[j].votes[k], vs2[j].term) != (i as u64, w.term));
        }
    }
}

/// A message carrying entries or a snapshot agrees with the record.
pub open spec fn msg_ok(hist: History, e: Envelope) -> bool {
    match e.message {
        Message::AppendEntries { prev_log_index, prev_log_term, entries, .. } => chain_ok(
            hist,
            prev_log_index,
            prev_log_term,
            entries@,
        ),
        Message::InstallSnapshot { last_index, last_term, .. } => base_ok(hist, last_index, last_term),
        _ => true,
    }
}

/// Who became leader of each term, and the votes that elected it: one
/// leader per term ever, and a leader keeps its role for its whole term.
pub open spec fn leaders_inv(
    vs: Seq<NodeView>,
    ledger: Map<(u64, u64), u64>,
    leaders: Map<u64, u64>,
    quorums: Map<u64, Seq<u64>>,
) -> bool {
    let n = vs.len();
    &&& forall|t: u64| #[trigger] leaders.contains_key(t) ==> {
        &&& quorums.contains_key(t)
        &&& leaders[t] < n
        &&& quorums[t].no_duplicates()
        &&& quorum(quorums[t].len() as int, n - 1)
        &&& forall|k: int| 0 <= k < quorums[t].len() ==> #[trigger] quorums[t][k] < n && ledger.contains_key((quorums[t][k], t))
            && ledger[(quorums[t][k], t)] == leaders[t]
        &&& vs[leaders[t] as int].term >= t
        &&& vs[leaders[t] as int].term == t ==> vs[leaders[t] as int].role == NodeState::Leader
    }
    &&& forall|i: int| 0 <= i < n && (#[trigger] vs[i]).role == NodeState::Leader ==> leaders.contains_key(vs[i].term)
        && leaders[vs[i].term] == i
}

/// Every created entry was created by the leader of its term, which still
/// holds at least that many entries while it leads; every log and every
/// message in flight agrees with the record.
pub open spec fn history_inv(vs: Seq<NodeView>, net: Seq<Envelope>, hist: History, leaders: Map<u64, u64>) -> bool {
    &&& forall|key: (u64, u64)| #[trigger] hist.contains_key(key) ==> leaders.contains_key(key.1) && (vs[leaders[key.1] as int].term
        == key.1 ==> vs[leaders[key.1] as int].log.last_index() >= key.0)
    &&& forall|i: int| 0 <= i < vs.len() ==> log_ok(hist, (#[trigger] vs[i]).log)
    &&& forall|k: int| 0 <= k < net.len() ==> msg_ok(hist, #[trigger] net[k])
}

/// A message cut from a log that agrees with the record agrees with it.
proof fn lemma_from_log_ok(hist: History, l: crate::log::LogView, m: Envelope)
    requires
        log_ok(hist, l),
        l.wf(),
        from_log(m.message, l),
    ensures
        msg_ok(hist, m),
{
    match m.message {
        Message::AppendEntries { prev_log_index, prev_log_term, entries, .. } => {
            let from = prev_log_index - l.snapshot_index;
            lemma_sent_chain(hist, l, prev_log_index as int, from + entries@.len());
            assert(entries@ =~= l.entries.subrange(from, from + entries@.len()));
        },
        _ => {},
    }
}

/// Losing a message keeps the record's invariant.
proof fn lemma_history_drop(vs: Seq<NodeView>, net: Seq<Envelope>, hist: History, leaders: Map<u64, u64>, k: int)
    requires
        history_inv(vs, net, hist, leaders),
        0 <= k < net.len(),
    ensures
        history_inv(vs, net.remove(k), hist, leaders),
{
    let net2 = net.remove(k);
    assert forall|j: int| 0 <= j < net2.len() implies msg_ok(hist, #[trigger] net2[j]) by {
        if j < k {
            assert(net2[j] == net[j]);
        } else {
            assert(net2[j] == net[j + 1]);
        }
    }
}

/// Sending messages that agree with the record keeps its invariant.
proof fn lemma_history_send(vs: Seq<NodeView>, net: Seq<Envelope>, hist: History, leaders: Map<u64, u64>, outs: Seq<Envelope>)
    requires
        history_inv(vs, net, hist, leaders),
        forall|j: int| 0 <= j < outs.len() ==> msg_ok(hist, #[trigger] outs[j]),
    ensures
        history_inv(vs, net + outs, hist, leaders),
{
    let net2 = net + outs;
    assert forall|j: int| 0 <= j < net2.len() implies msg_ok(hist, #[trigger] net2[j]) by {
        if j < net.len() {
            assert(net2[j] == net[j]);
        } else {
            assert(net2[j] == outs[j - net.len()]);
        }
    }
}

/// A step of node `i` that makes no new leader, keeps a leader's log from
/// shrinking within its term, and leaves its log in agreement with the
/// record keeps both invariants.
#[verifier::rlimit(80)]
proof fn lemma_history_step(
    vs: Seq<NodeView>,
    net: Seq<Envelope>,
    hist: History,
    ledger: Map<(u64, u64), u64>,
    ledger2: Map<(u64, u64), u64>,
    leaders: Map<u64, u64>,
    quorums: Map<u64, Seq<u64>>,
    i: int,
    w: NodeView,
)
    requires
        leaders_inv(vs, ledger, leaders, quorums),
        history_inv(vs, net, hist, leaders),
        0 <= i < vs.len(),
        forall|key: (u64, u64)| #[trigger] ledger.contains_key(key) ==> ledger2.contains_key(key) && ledger2[key] == ledger[key],
        w.term >= vs[i].term,
        w.role == NodeState::Leader ==> vs[i].role == NodeState::Leader && w.term == vs[i].term,
        vs[i].role == NodeState::Leader && w.term == vs[i].term ==> w.role == NodeState::Leader && w.log.last_index()
            >= vs[i].log.last_index(),
        log_ok(hist, w.log),
    ensures
        leaders_inv(vs.update(i, w), ledger2, leaders, quorums),
        history_inv(vs.update(i, w), net, hist, leaders),
{
    let vs2 = vs.update(i, w);
    assert forall|t: u64| #[trigger] leaders.contains_key(t) implies {
        &&& quorums.contains_key(t)
        &&& leaders[t] < vs2.len()
        &&& quorums[t].no_duplicates()
        &&& quorum(quorums[t].len() as int, vs2.len() - 1)
        &&& forall|k: int| 0 <= k < quorums[t].len() ==> #[trigger] quorums[t][k] < vs2.len() && ledger2.contains_key(
            (quorums[t][k], t),
        ) && ledger2[(quorums[t][k], t)] == leaders[t]
        &&& vs2[leaders[t] as int].term >= t
        &&& vs2[leaders[t] as int].term == t ==> vs2[leaders[t] as int].role == NodeState::Leader
    } by {
        assert forall|k: int| 0 <= k < quorums[t].len() implies #[trigger] quorums[t][k] < vs2.len() && ledger2.contains_key(
            (quorums[t][k], t),
        ) && ledger2[(quorums[t][k], t)] == leaders[t] by {
            assert(ledger.contains_key((quorums[t][k], t)));
        }
    }
    assert forall|key: (u64, u64)| #[trigger] hist.contains_key(key) implies leaders.contains_key(key.1) && (
    vs2[leaders[key.1] as int].term == key.1 ==> vs2[leaders[key.1] as int].log.last_index() >= key.0) by {
        assert(leaders.contains_key(key.1));
    }
    assert forall|j: int| 0 <= j < vs2.len() implies log_ok(hist, (#[trigger] vs2[j]).log) by {
        if j != i {
            assert(vs2[j] == vs[j]);
        }
    }
}

/// A candidate of term `t` whose votes, all recorded for it, make a
/// majority finds no leader recorded for `t`.
proof fn lemma_term_unclaimed(
    vs: Seq<NodeView>,
    ledger: Map<(u64, u64), u64>,
    ledger2: Map<(u64, u64), u64>,
    leaders: Map<u64, u64>,
    quorums: Map<u64, Seq<u64>>,
    i: int,
    votes: Seq<u64>,
    t: u64,
)
    requires
        leaders_inv(vs, ledger, leaders, quorums),
        1 <= vs.len() < 0x1_0000_0000,
        0 <= i < vs.len(),
        forall|key: (u64, u64)| #[trigger] ledger.contains_key(key) ==> ledger2.contains_key(key) && ledger2[key] == ledger[key],
        vs[i].term <= t,
        vs[i].term == t ==> vs[i].role != NodeState::Leader,
        votes.no_duplicates(),
        forall|k: int| 0 <= k < votes.len() ==> #[trigger] votes[k] < vs.len(),
        quorum(votes.len() as int, vs.len() - 1),
        forall|k: int| 0 <= k < votes.len() ==> ledger2.contains_key((#[trigger] votes[k], t)) && ledger2[(votes[k], t)] == i,
    ensures
        !leaders.contains_key(t),
{
    if leaders.contains_key(t) {
        let q = quorums[t];
        let x = lemma_quorums_intersect(votes, q, vs.len());
        let a = choose|k: int| 0 <= k < votes.len() && votes[k] == x;
        let b = choose|k: int| 0 <= k < q.len() && q[k] == x;
        assert(ledger2[(votes[a], t)] == i);
        assert(ledger.contains_key((q[b], t)) && ledger[(q[b], t)] == leaders[t]);
        assert(leaders[t] == i);
    }
}

/// A node that takes the leader role for a term nobody led yet, with a
/// majority of votes recorded for it, keeps both invariants once recorded.
#[verifier::rlimit(80)]
proof fn lemma_history_new_leader(
    vs: Seq<NodeView>,
    net: Seq<Envelope>,
    hist: History,
    ledger: Map<(u64, u64), u64>,
    ledger2: Map<(u64, u64), u64>,
    leaders: Map<u64, u64>,
    quorums: Map<u64, Seq<u64>>,
    i: int,
    w: NodeView,
)
    requires
        leaders_inv(vs, ledger, leaders, quorums),
        history_inv(vs, net, hist, leaders),
        vs.len() < 0x1_0000_0000,
        0 <= i < vs.len(),
        forall|key: (u64, u64)| #[trigger] ledger.contains_key(key) ==> ledger2.contains_key(key) && ledger2[key] == ledger[key],
        vs[i].role != NodeState::Leader,
        w.role == NodeState::Leader,
        w.term >= vs[i].term,
        w.log == vs[i].log,
        !leaders.contains_key(w.term),
        w.votes.no_duplicates(),
        forall|k: int| 0 <= k < w.votes.len() ==> #[trigger] w.votes[k] < vs.len(),
        quorum(w.votes.len() as int, vs.len() - 1),
        forall|k: int| 0 <= k < w.votes.len() ==> ledger2.contains_key((#[trigger] w.votes[k], w.term)) && ledger2[(w.votes[k], w.term)] == i,
    ensures
        leaders_inv(vs.update(i, w), ledger2, leaders.insert(w.term, i as u64), quorums.insert(w.term, w.votes)),
        history_inv(vs.update(i, w), net, hist, leaders.insert(w.term, i as u64)),
{
    let vs2 = vs.update(i, w);
    let l2 = leaders.insert(w.term, i as u64);
    let q2 = quorums.insert(w.term, w.votes);
    assert forall|t: u64| #[trigger] l2.contains_key(t) implies {
        &&& q2.contains_key(t)
        &&& l2[t] < vs2.len()
        &&& q2[t].no_duplicates()
        &&& quorum(q2[t].len() as int, vs2.len() - 1)
        &&& forall|k: int| 0 <= k < q2[t].len() ==> #[trigger] q2[t][k] < vs2.len() && ledger2.contains_key((q2[t][k], t))
            && ledger2[(q2[t][k], t)] == l2[t]
        &&& vs2[l2[t] as int].term >= t
        &&& vs2[l2[t] as int].term == t ==> vs2[l2[t] as int].role == NodeState::Leader
    } by {
        if t != w.term {
            assert(leaders.contains_key(t));
            assert forall|k: int| 0 <= k < q2[t].len() implies #[trigger] q2[t][k] < vs2.len() && ledger2.contains_key(
                (q2[t][k], t),
            ) && ledger2[(q2[t][k], t)] == l2[t] by {
                assert(ledger.contains_key((quorums[t][k], t)));
            }
        }
    }
    assert forall|j: int| 0 <= j < vs2.len() && (#[trigger] vs2[j]).role == NodeState::Leader implies l2.contains_key(
        vs2[j].term,
    ) && l2[vs2[j].term] == j by {
        if j != i {
            assert(vs2[j] == vs[j]);
        }
    }
    assert forall|key: (u64, u64)| #[trigger] hist.contains_key(key) implies l2.contains_key(key.1) && (vs2[l2[key.1] as int].term
        == key.1 ==> vs2[l2[key.1] as int].log.last_index() >= key.0) by {
        assert(leaders.contains_key(key.1));
    }
    assert forall|j: int| 0 <= j < vs2.len() implies log_ok(hist, (#[trigger] vs2[j]).log) by {
        if j != i {
            assert(vs2[j] == vs[j]);
        }
    }
}

/// A leader appending a new entry, recorded under its index and term,
/// keeps both invariants.
#[verifier::rlimit(80)]
proof fn lemma_history_propose(
    vs: Seq<NodeView>,
    net: Seq<Envelope>,
    hist: History,
    ledger: Map<(u64, u64), u64>,
    leaders: Map<u64, u64>,
    quorums: Map<u64, Seq<u64>>,
    i: int,
    w: NodeView,
    e: LogEntry,
)
    requires
        leaders_inv(vs, ledger, leaders, quorums),
        history_inv(vs, net, hist, leaders),
        0 <= i < vs.len(),
        node_wf(vs[i]),
        vs[i].role == NodeState::Leader,
        w.role == NodeState::Leader,
        w.term == vs[i].term,
        e.index == vs[i].log.last_index() + 1,
        e.term == vs[i].term,
        w.log == (LogView { entries: vs[i].log.entries.push(e), ..vs[i].log }),
    ensures
        !hist.contains_key((e.index, e.term)),
        leaders_inv(vs.update(i, w), ledger, leaders, quorums),
        history_inv(vs.update(i, w), net, hist.insert((e.index, e.term), appended_record(hist, vs[i].log, e)), leaders),
{
    let vs2 = vs.update(i, w);
    let h2 = hist.insert((e.index, e.term), appended_record(hist, vs[i].log, e));
    if hist.contains_key((e.index, e.term)) {
        assert(leaders[e.term] == i);
    }
    lemma_append_record(hist, vs[i].log, e);
    assert forall|t: u64| #[trigger] leaders.contains_key(t) implies {
        &&& quorums.contains_key(t)
        &&& leaders[t] < vs2.len()
        &&& quorums[t].no_duplicates()
        &&& quorum(quorums[t].len() as int, vs2.len() - 1)
        &&& forall|k: int| 0 <= k < quorums[t].len() ==> #[trigger] quorums[t][k] < vs2.len() && ledger.contains_key(
            (quorums[t][k], t),
        ) && ledger[(quorums[t][k], t)] == leaders[t]
        &&& vs2[leaders[t] as int].term >= t
        &&& vs2[leaders[t] as int].term == t ==> vs2[leaders[t] as int].role == NodeState::Leader
    } by {
    }
    assert forall|j: int| 0 <= j < vs2.len() && (#[trigger] vs2[j]).role == NodeState::Leader implies leaders.contains_key(
        vs2[j].term,
    ) && leaders[vs2[j].term] == j by {
        if j != i {
            assert(vs2[j] == vs[j]);
        }
    }
    assert forall|key: (u64, u64)| #[trigger] h2.contains_key(key) implies leaders.contains_key(key.1) && (vs2[leaders[key.1] as int].term
        == key.1 ==> vs2[leaders[key.1] as int].log.last_index() >= key.0) by {
        if key != (e.index, e.term) {
            assert(hist.contains_key(key));
        }
    }
    assert forall|j: int| 0 <= j < vs2.len() implies log_ok(h2, (#[trigger] vs2[j]).log) by {
        if j != i {
            assert(vs2[j] == vs[j]);
            lemma_chain_extends(hist, h2, vs[j].log.snapshot_index, vs[j].log.snapshot_term, vs[j].log.entries);
        }
    }
    assert forall|k: int| 0 <= k < net.len() implies msg_ok(h2, #[trigger] net[k]) by {
        assert(msg_ok(hist, net[k]));
        match net[k].message {
            Message::AppendEntries { prev_log_index, prev_log_term, entries, .. } => {
                lemma_chain_extends(hist, h2, prev_log_index, prev_log_term, entries@);
            },
            Message::InstallSnapshot { last_index, last_term, .. } => {
                if last_index != 0 {
                    assert(hist.contains_key((last_index, last_term)));
                }
            },
            _ => {},
        }
    }
}

/// Commit durability on every node: no node's commit index moved back, and
/// every entry a node had committed it still holds unchanged or has folded
/// into its snapshot.
pub open spec fn commits_kept(before: Seq<NodeView>, after: Seq<NodeView>) -> bool {
    &&& after.len() == before.len()
    &&& forall|j: int| 0 <= j < before.len() ==> commit_kept(#[trigger] before[j], after[j])
}

/// A node that did not change kept what it committed.
proof fn lemma_commit_kept_same(v: NodeView)
    requires
        node_wf(v),
    ensures
        commit_kept(v, v),
{
}

/// A cluster of nodes numbered from 0, and the messages in flight.
pub struct Cluster {
    nodes: Vec<RaftNode>,
    network: Vec<Envelope>,
    ledger: Ghost<Map<(u64, u64), u64>>,
    hist: Ghost<History>,
    leaders: Ghost<Map<u64, u64>>,
    quorums: Ghost<Map<u64, Seq<u64>>>,
}

/// The views of `nodes`.
pub open spec fn views_of(nodes: Seq<RaftNode>) -> Seq<NodeView> {
    Seq::new(nodes.len(), |i: int| nodes[i]@)
}

impl Cluster {
    /// What each node holds, by id.
    pub open spec fn views(&self) -> Seq<NodeView> {
        views_of(self.nodes())
    }

    /// The nodes, by id.
    pub closed spec fn nodes(&self) -> Seq<RaftNode> {
        self.nodes@
    }

    /// The messages in flight.
    pub closed spec fn in_flight(&self) -> Seq<Envelope> {
        self.network@
    }

    /// The invariant; it implies election safety and log matching.
    pub closed spec fn inv(&self) -> bool {
        &&& cluster_inv(self.views(), self.network@, self.ledger@)
        &&& leaders_inv(self.views(), self.ledger@, self.leaders@, self.quorums@)
        &&& history_inv(self.views(), self.network@, self.hist@, self.leaders@)
        &&& forall|i: int| 0 <= i < self.nodes@.len() ==> (#[trigger] self.nodes@[i]).wf()
    }

    /// Replaces node `i` in the views.
    proof fn lemma_views_update(old_nodes: Seq<RaftNode>, i: int, node: RaftNode)
        requires
            0 <= i < old_nodes.len(),
        ensures
            views_of(old_nodes.remove(i).insert(i, node)) == views_of(old_nodes).update(i, node@),
            old_nodes.remove(i).insert(i, node) == old_nodes.update(i, node),
    {
        assert(old_nodes.remove(i).insert(i, node) =~= old_nodes.update(i, node));
        assert(views_of(old_nodes.update(i, node)) =~= views_of(old_nodes).update(i, node@));
    }

    /// A cluster of `n` followers in term 0 with empty logs, and no message
    /// in flight.
    pub fn new(n: u64, max_batch: usize) -> (r: Cluster)
        requires
            1 <= n < 0x1_0000_0000,
            max_batch > 0,
        ensures
            r.inv(),
            r.views().len() == n,
            r.in_flight().len() == 0,
            forall|i: int|
                0 <= i < n ==> (#[trigger] r.views()[i]).term == 0 && r.views()[i].role == NodeState::Follower
                    && r.views()[i].log.entries.len() == 0,
    {
        let mut nodes: Vec<RaftNode> = Vec::new();
        let mut i: u64 = 0;
        while i < n
            invariant
                i <= n < 0x1_0000_0000,
                max_batch > 0,
                nodes@.len() == i,
                forall|j: int| 0 <= j < i ==> placed_node(#[trigger] nodes@[j]@, j, n as nat),
                forall|j: int| 0 <= j < i ==> (#[trigger] nodes@[j]).wf(),
                forall|j: int|
                    0 <= j < i ==> (#[trigger] nodes@[j])@.term == 0 && nodes@[j]@.role == NodeState::Follower
                        && nodes@[j]@.log.entries.len() == 0 && nodes@[j]@.voted_for is None
                        && nodes@[j]@.log.snapshot_index == 0 && nodes@[j]@.log.snapshot_term == 0,
            decreases n - i,
        {
            let mut peers: Vec<u64> = Vec::new();
            let mut p: u64 = 0;
            while p < n
                invariant
                    i < n < 0x1_0000_0000,
                    p <= n,
                    peers@.no_duplicates(),
                    forall|x: u64| peers@.contains(x) <==> (x < p && x != i),
                    peers@.len() == if i < p { p - 1 } else { p as int },
                decreases n - p,
            {
                if p != i {
                    proof {
                        assert(!peers@.contains(p));
                    }
                    let ghost before = peers@;
                    peers.push(p);
                    proof {
                        assert forall|x: u64| x < p + 1 && x != i implies peers@.contains(x) by {
                            if x < p {
                                assert(before.contains(x));
                                let k = choose|k: int| 0 <= k < before.len() && before[k] == x;
                                assert(peers@[k] == x);
                            } else {
                                assert(peers@[peers@.len() - 1] == x);
                            }
                        }
                        assert forall|x: u64| peers@.contains(x) implies x < p + 1 && x != i by {
                            let k = choose|k: int| 0 <= k < peers@.len() && peers@[k] == x;
                            if k < before.len() {
                                assert(before[k] == x);
                                assert(before.contains(x));
                            }
                        }
                    }
                }
                p = p + 1;
            }
            let node = RaftNode::new(i, peers, max_batch);
            nodes.push(node);
            i = i + 1;
        }
        let r = Cluster {
            nodes,
            network: Vec::new(),
            ledger: Ghost(Map::empty()),
            hist: Ghost(Map::empty()),
            leaders: Ghost(Map::empty()),
            quorums: Ghost(Map::empty()),
        };
        proof {
            let vs = r.views();
            assert forall|j: int| 0 <= j < vs.len() implies log_ok(r.hist@, (#[trigger] vs[j]).log) by {
                assert(vs[j] == r.nodes@[j]@);
            }
            assert forall|j: int| 0 <= j < vs.len() implies placed_node(#[trigger] vs[j], j, vs.len()) by {
                assert(vs[j] == r.nodes@[j]@);
            }
            assert forall|j: int| 0 <= j < vs.len() && (#[trigger] vs[j]).voted_for is Some implies false by {
                assert(vs[j] == r.nodes@[j]@);
            }
            assert forall|j: int| 0 <= j < vs.len() && (#[trigger] vs[j]).role != NodeState::Follower implies false by {
                assert(vs[j] == r.nodes@[j]@);
            }
        }
        r
    }

    /// Number of nodes.
    pub fn size(&self) -> (r: usize)
        ensures
            r == self.views().len(),
    {
        self.nodes.len()
    }

    /// Node `i`.
    pub fn node(&self, i: usize) -> (r: &RaftNode)
        requires
            i < self.views().len(),
        ensures
            r@ == self.views()[i as int],
    {
        &self.nodes[i]
    }

    /// The messages in flight, in the order they were sent.
    pub fn pending(&self) -> (r: &Vec<Envelope>)
        ensures
            r@ == self.in_flight(),
    {
        &self.network
    }

    /// Loses message `k`.
    pub fn drop_message(&mut self, k: usize)
        requires
            old(self).inv(),
            k < old(self).in_flight().len(),
        ensures
            commits_kept(old(self).views(), final(self).views()),
            final(self).inv(),
            final(self).views() == old(self).views(),
            final(self).in_flight() == old(self).in_flight().remove(k as int),
    {
        let _m = self.network.remove(k);
        proof {
            lemma_drop(old(self).views(), old(self).network@, self.ledger@, k as int);
            lemma_history_drop(old(self).views(), old(self).network@, self.hist@, self.leaders@, k as int);
        }
    }

    /// The election timer of node `i` fires (see `RaftNode::election_timeout`);
    /// its vote requests join the messages in flight.
    #[verifier::rlimit(80)]
    pub fn timeout(&mut self, i: usize)
        requires
            old(self).inv(),
            i < old(self).views().len(),
            old(self).views()[i as int].term < u64::MAX,
        ensures
            exists|out: Seq<Envelope>|
                crate::node::timed_out(old(self).views()[i as int], final(self).views()[i as int], out) && final(self).in_flight()
                    == old(self).in_flight() + out,
            commits_kept(old(self).views(), final(self).views()),
            final(self).inv(),
            final(self).views().len() == old(self).views().len(),
            forall|j: int| 0 <= j < old(self).views().len() && j != i ==> final(self).views()[j] == old(self).views()[j],
            old(self).views()[i as int].role != NodeState::Leader ==> final(self).views()[i as int].term
                == old(self).views()[i as int].term + 1,
    {
        let ghost vs = self.views();
        let ghost net = self.network@;
        let mut node = self.nodes.remove(i);
        assert(node@ == vs[i as int]);
        let mut out = node.election_timeout();
        let ghost w = node@;
        proof {
            Self::lemma_views_update(old(self).nodes@, i as int, node);
        }
        self.nodes.insert(i, node);
        proof {
            let led = self.ledger@;
            if vs[i as int].role == NodeState::Leader {
                assert(vs.update(i as int, w) =~= vs);
            } else {
                assert(w.votes =~= seq![i as u64]);
                lemma_campaign(vs, net, led, i as int, w);
                let led2 = led.insert((i as u64, w.term), i as u64);
                assert(placed_node(vs[i as int], i as int, vs.len()));
                if w.role == NodeState::Leader {
                    lemma_term_unclaimed(vs, led, led2, self.leaders@, self.quorums@, i as int, w.votes, w.term);
                    lemma_history_new_leader(vs, net, self.hist@, led, led2, self.leaders@, self.quorums@, i as int, w);
                    self.leaders = Ghost(self.leaders@.insert(w.term, i as u64));
                    self.quorums = Ghost(self.quorums@.insert(w.term, w.votes));
                } else {
                    lemma_history_step(vs, net, self.hist@, led, led2, self.leaders@, self.quorums@, i as int, w);
                }
                self.ledger = Ghost(led2);
            }
            assert forall|j: int| 0 <= j < out@.len() implies !grants(#[trigger] out@[j]) by {
            }
            lemma_send(self.views(), net, self.ledger@, out@);
            assert forall|j: int| 0 <= j < out@.len() implies msg_ok(self.hist@, #[trigger] out@[j]) by {
            }
            lemma_history_send(self.views(), net, self.hist@, self.leaders@, out@);
        }
        let ghost sent = out@;
        self.network.append(&mut out);
        assert(crate::node::timed_out(vs[i as int], self.views()[i as int], sent) && self.in_flight() == net + sent);
        assert(crate::node::timed_out(old(self).views()[i as int], self.views()[i as int], sent) && self.in_flight()
            == old(self).in_flight() + sent);
    }

    /// Node `i`, if it leads, sends every peer the entries it lacks or a
    /// heartbeat.
    pub fn heartbeat(&mut self, i: usize)
        requires
            old(self).inv(),
            i < old(self).views().len(),
        ensures
            old(self).views()[i as int].role != NodeState::Leader ==> final(self).in_flight() == old(self).in_flight(),
            old(self).views()[i as int].role == NodeState::Leader ==> exists|out: Seq<Envelope>|
                crate::node::is_broadcast(out, old(self).views()[i as int]) && final(self).in_flight() == old(self).in_flight()
                    + out,
            commits_kept(old(self).views(), final(self).views()),
            final(self).inv(),
            final(self).views() == old(self).views(),
    {
        if self.nodes[i].get_state() != NodeState::Leader {
            return;
        }
        let mut out = self.nodes[i].heartbeat();
        let ghost sent = out@;
        proof {
            lemma_send(self.views(), self.network@, self.ledger@, out@);
            let v = self.views()[i as int];
            assert(v == self.nodes@[i as int]@);
            assert forall|j: int| 0 <= j < out@.len() implies msg_ok(self.hist@, #[trigger] out@[j]) by {
                lemma_from_log_ok(self.hist@, v.log, out@[j]);
            }
            lemma_history_send(self.views(), self.network@, self.hist@, self.leaders@, out@);
        }
        self.network.append(&mut out);
        assert(self.network@ == old(self).network@ + sent);
        assert(old(self).views()[i as int] == self.nodes@[i as int]@);
        assert(crate::node::is_broadcast(sent, old(self).views()[i as int]) && self.in_flight() == old(self).in_flight()
            + sent);
    }

    /// A client proposes `command` to node `i` (see `RaftNode::propose`).
    #[verifier::rlimit(80)]
    pub fn propose(&mut self, i: usize, command: RaftCommand) -> (r: Result<u64, ProposeError>)
        requires
            old(self).inv(),
            i < old(self).views().len(),
        ensures
            crate::node::proposal_taken(old(self).views()[i as int], final(self).views()[i as int], command, r),
            commits_kept(old(self).views(), final(self).views()),
            final(self).inv(),
            final(self).views().len() == old(self).views().len(),
            forall|j: int| 0 <= j < old(self).views().len() && j != i ==> final(self).views()[j] == old(self).views()[j],
            old(self).views()[i as int].role != NodeState::Leader ==> final(self).views() == old(self).views() && r
                == Err::<u64, ProposeError>(ProposeError::NotLeader { leader: old(self).views()[i as int].leader }),
    {
        let ghost vs = self.views();
        let mut node = self.nodes.remove(i);
        assert(node@ == vs[i as int]);
        let r = node.propose(command);
        let ghost w = node@;
        proof {
            Self::lemma_views_update(old(self).nodes@, i as int, node);
            lemma_observe(vs, self.network@, self.ledger@, i as int, w);
            if w == vs[i as int] {
                assert(vs.update(i as int, w) =~= vs);
            } else {
                let e = LogEntry { index: r->Ok_0, term: vs[i as int].term, command };
                lemma_history_propose(vs, self.network@, self.hist@, self.ledger@, self.leaders@, self.quorums@, i as int, w, e);
                self.hist = Ghost(self.hist@.insert((e.index, e.term), appended_record(self.hist@, vs[i as int].log, e)));
            }
        }
        self.nodes.insert(i, node);
        r
    }
}

impl Cluster {
    /// Delivers message `k` to its receiver, which handles it (see the
    /// `RaftNode` handlers); its answers join the messages in flight. A
    /// message to no node of the cluster is lost.
    #[verifier::rlimit(80)]
    pub fn deliver(&mut self, k: usize)
        requires
            old(self).inv(),
            k < old(self).in_flight().len(),
        ensures
            commits_kept(old(self).views(), final(self).views()),
            final(self).inv(),
            final(self).views().len() == old(self).views().len(),
            forall|j: int|
                0 <= j < old(self).views().len() && j != old(self).in_flight()[k as int].to ==> final(self).views()[j]
                    == old(self).views()[j],
            ({
                let e = old(self).in_flight()[k as int];
                &&& e.to >= old(self).views().len() ==> final(self).views() == old(self).views() && final(self).in_flight()
                    == old(self).in_flight().remove(k as int)
                &&& e.to < old(self).views().len() ==> exists|w: NodeView, out: Seq<Envelope>|
                    crate::node::handled(old(self).views()[e.to as int], e, w, out) && final(self).views()
                        == old(self).views().update(e.to as int, w) && final(self).in_flight() == old(self).in_flight().remove(
                        k as int,
                    ) + out
            }),
    {
        let ghost net0 = self.network@;
        let env = self.network.remove(k);
        proof {
            lemma_drop(old(self).views(), net0, self.ledger@, k as int);
            lemma_history_drop(old(self).views(), net0, self.hist@, self.leaders@, k as int);
            assert(env == net0[k as int]);
            assert(msg_ok(self.hist@, env));
        }
        let ghost net1 = self.network@;
        let to = env.to;
        if to >= self.nodes.len() as u64 {
            return;
        }
        let i = to as usize;
        let ghost vs = self.views();
        let ghost led = self.ledger@;
        let ghost hist = self.hist@;
        let ghost leaders = self.leaders@;
        let ghost quorums = self.quorums@;
        let ghost nodes0 = self.nodes@;
        let mut node = self.nodes.remove(i);
        assert(node@ == vs[i as int]);
        proof {
            assert(placed_node(vs[i as int], i as int, vs.len()));
            assert(log_ok(hist, vs[i as int].log));
        }
        let from = env.from;
        let mut out: Vec<Envelope> = match env.message {
            Message::RequestVote { term, candidate_id, last_log_index, last_log_term } => {
                let r = node.handle_request_vote(term, candidate_id, last_log_index, last_log_term);
                proof {
                    let w = node@;
                    lemma_vote(vs, net1, led, i as int, w, term, candidate_id);
                    let led2 = if w.voted_for == Some(candidate_id) { led.insert((i as u64, w.term), candidate_id) } else { led };
                    if w.voted_for == Some(candidate_id) && led.contains_key((i as u64, w.term)) {
                        assert(led2 == led);
                    }
                    lemma_history_step(vs, net1, hist, led, led2, leaders, quorums, i as int, w);
                    self.ledger = Ghost(led2);
                }
                let out = vec![r];
                proof {
                    assert(out@[0] == r);
                    assert forall|j: int| 0 <= j < out@.len() && grants(#[trigger] out@[j]) implies self.ledger@.contains_key(
                        (out@[j].from, reply_term(out@[j])),
                    ) && self.ledger@[(out@[j].from, reply_term(out@[j]))] == out@[j].to by {
                        assert(j == 0);
                    }
                    assert forall|j: int| 0 <= j < out@.len() implies msg_ok(hist, #[trigger] out@[j]) by {
                        assert(j == 0);
                    }
                }
                out
            },
            Message::VoteReply { term, granted } => {
                let out = node.handle_vote_reply(from, term, granted);
                proof {
                    assert forall|j: int| 0 <= j < out@.len() implies !grants(#[trigger] out@[j]) by {
                        assert(crate::node::carries_entries(out@[j]));
                    }
                    let w = node@;
                    let o = vs[i as int];
                    if term > o.term {
                        lemma_observe(vs, net1, led, i as int, w);
                        lemma_history_step(vs, net1, hist, led, led, leaders, quorums, i as int, w);
                    } else if w == o {
                        lemma_observe(vs, net1, led, i as int, w);
                        lemma_history_step(vs, net1, hist, led, led, leaders, quorums, i as int, w);
                    } else {
                        assert(grants(net0[k as int]));
                        lemma_count_vote(vs, net1, led, i as int, w, from);
                        if w.role == NodeState::Leader {
                            let vs2 = vs.update(i as int, w);
                            assert(vs2[i as int] == w);
                            assert(placed_node(vs2[i as int], i as int, vs.len()));
                            assert forall|x: int| 0 <= x < w.votes.len() implies #[trigger] w.votes[x] < vs.len() by {
                                assert(w.votes[x] == w.id || w.peers.contains(w.votes[x]));
                            }
                            assert forall|x: int| 0 <= x < w.votes.len() implies led.contains_key((#[trigger] w.votes[x], w.term))
                                && led[(w.votes[x], w.term)] == i by {
                                assert(vs2[i as int].role != NodeState::Follower);
                            }
                            lemma_term_unclaimed(vs, led, led, leaders, quorums, i as int, w.votes, w.term);
                            lemma_history_new_leader(vs, net1, hist, led, led, leaders, quorums, i as int, w);
                            self.leaders = Ghost(leaders.insert(w.term, i as u64));
                            self.quorums = Ghost(quorums.insert(w.term, w.votes));
                        } else {
                            lemma_history_step(vs, net1, hist, led, led, leaders, quorums, i as int, w);
                        }
                    }
                    assert forall|j: int| 0 <= j < out@.len() implies msg_ok(hist, #[trigger] out@[j]) by {
                        lemma_from_log_ok(hist, w.log, out@[j]);
                    }
                }
                out
            },
            Message::AppendEntries { term, leader_id, prev_log_index, prev_log_term, entries, leader_commit } => {
                let ghost es = entries@;
                let r = node.handle_append_entries(term, leader_id, prev_log_index, prev_log_term, &entries, leader_commit);
                proof {
                    let w = node@;
                    let v = vs[i as int];
                    lemma_observe(vs, net1, led, i as int, w);
                    assert(chain_ok(hist, prev_log_index, prev_log_term, es));
                    let a = crate::node::adopt(v, term);
                    let f = crate::node::follow(a, leader_id);
                    if term >= v.term && a.role != NodeState::Leader && prev_log_index >= f.log.snapshot_index
                        && f.log.term_at(prev_log_index as int) == Some(prev_log_term) && prev_log_index + es.len() < u64::MAX {
                        let k0 = crate::matching::lemma_divergence_exists(f.log, prev_log_index as int, es);
                        lemma_merge_chain(hist, f.log, prev_log_index, prev_log_term, es, k0);
                    }
                    lemma_history_step(vs, net1, hist, led, led, leaders, quorums, i as int, w);
                }
                let out = vec![r];
                proof {
                    assert(out@[0] == r);
                    assert forall|j: int| 0 <= j < out@.len() implies !grants(#[trigger] out@[j]) by {
                        assert(j == 0);
                    }
                    assert forall|j: int| 0 <= j < out@.len() implies msg_ok(hist, #[trigger] out@[j]) by {
                        assert(j == 0);
                    }
                }
                out
            },
            Message::AppendReply { term, success, match_index } => {
                let out = node.handle_append_reply(from, term, success, match_index);
                proof {
                    let w = node@;
                    assert forall|j: int| 0 <= j < out@.len() implies !grants(#[trigger] out@[j]) by {
                        assert(crate::node::carries_entries(out@[j]));
                    }
                    lemma_observe(vs, net1, led, i as int, w);
                    lemma_history_step(vs, net1, hist, led, led, leaders, quorums, i as int, w);
                    assert forall|j: int| 0 <= j < out@.len() implies msg_ok(hist, #[trigger] out@[j]) by {
                        lemma_from_log_ok(hist, w.log, out@[j]);
                    }
                }
                out
            },
            Message::InstallSnapshot { term, leader_id, last_index, last_term, state } => {
                let r = node.handle_install_snapshot(term, leader_id, last_index, last_term, state);
                proof {
                    let w = node@;
                    let v = vs[i as int];
                    lemma_observe(vs, net1, led, i as int, w);
                    assert(base_ok(hist, last_index, last_term));
                    let a = crate::node::adopt(v, term);
                    let f = crate::node::follow(a, leader_id);
                    if term >= v.term && a.role != NodeState::Leader && last_index > f.commit_index {
                        lemma_install_chain(hist, f.log, last_index, last_term);
                    }
                    lemma_history_step(vs, net1, hist, led, led, leaders, quorums, i as int, w);
                }
                let out = vec![r];
                proof {
                    assert(out@[0] == r);
                    assert forall|j: int| 0 <= j < out@.len() implies !grants(#[trigger] out@[j]) by {
                        assert(j == 0);
                    }
                    assert forall|j: int| 0 <= j < out@.len() implies msg_ok(hist, #[trigger] out@[j]) by {
                        assert(j == 0);
                    }
                }
                out
            },
        };
        let ghost w = node@;
        let ghost sent = out@;
        proof {
            assert(crate::node::handled(vs[i as int], net0[k as int], w, sent));
            Self::lemma_views_update(nodes0, i as int, node);
        }
        self.nodes.insert(i, node);
        proof {
            lemma_send(self.views(), net1, self.ledger@, out@);
            lemma_history_send(self.views(), net1, self.hist@, self.leaders@, out@);
        }
        self.network.append(&mut out);
        assert(crate::node::handled(vs[i as int], net0[k as int], w, sent) && self.views() == vs.update(i as int, w)
            && self.in_flight() == net1 + sent);
    }
}

/// Election safety: in every state a cluster reaches, at most one node
/// believes it is leader for any given term.
pub proof fn lemma_election_safety(c: &Cluster)
    requires
        c.inv(),
    ensures
        election_safe(c.views()),
{
    lemma_inv_election_safe(c.views(), c.in_flight(), c.ledger@);
}

/// Log matching: in every state a cluster reaches, when the logs of two
/// nodes hold an entry with the same index and term, they hold the same
/// entries at every earlier index that both still hold (entries folded into
/// a snapshot are no longer held).
pub proof fn lemma_cluster_log_matching(c: &Cluster, i: int, j: int)
    requires
        c.inv(),
        0 <= i < c.views().len(),
        0 <= j < c.views().len(),
    ensures
        logs_match(c.views()[i].log, c.views()[j].log),
{
    let vs = c.views();
    assert(placed_node(vs[i], i, vs.len()));
    assert(placed_node(vs[j], j, vs.len()));
    lemma_log_matching(c.hist@, vs[i].log, vs[j].log);
}

} // verus!
