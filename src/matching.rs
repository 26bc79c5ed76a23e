//! Log matching. Every entry ever created is recorded, by index and term,
//! with the whole log up to it; every log and every message that carries
//! entries agrees with that record. Two logs that hold an entry with the
//! same index and term therefore agree on everything before it.

use vstd::prelude::*;
use crate::command::RaftCommand;
use crate::log::{LogEntry, LogView};
use crate::node::{divergence, agrees_at, merged, placed};

verus! {

/// What an entry says, apart from its position: its term and command.
pub open spec fn body(e: LogEntry) -> (u64, RaftCommand) {
    (e.term, e.command)
}

/// The bodies of the first `n` entries of `es`.
pub open spec fn bodies(es: Seq<LogEntry>, n: int) -> Seq<(u64, RaftCommand)> {
    Seq::new(n as nat, |j: int| body(es[j]))
}

/// For every (index, term) ever created, the bodies of the log from
/// index 1 up to it.
pub type History = Map<(u64, u64), Seq<(u64, RaftCommand)>>;

/// The bodies up to a base point (a snapshot's last index and term, or the
/// entry before a batch); nothing for index 0.
pub open spec fn base_prefix(hist: History, b: u64, bt: u64) -> Seq<(u64, RaftCommand)> {
    if b == 0 {
        Seq::empty()
    } else {
        hist[(b, bt)]
    }
}

/// A base point is index 0 with term 0, or a recorded point.
pub open spec fn base_ok(hist: History, b: u64, bt: u64) -> bool {
    (b == 0 && bt == 0) || (hist.contains_key((b, bt)) && hist[(b, bt)].len() == b)
}

/// Entries `es` following the base point agree with the record: each is
/// recorded with the base's bodies and theirs up to it.
pub open spec fn chain_ok(hist: History, b: u64, bt: u64, es: Seq<LogEntry>) -> bool {
    &&& base_ok(hist, b, bt)
    &&& forall|k: int|
        0 <= k < es.len() ==> hist.contains_key(((b + 1 + k) as u64, (#[trigger] es[k]).term)) && hist[(
            (b + 1 + k) as u64,
            es[k].term,
        )] == base_prefix(hist, b, bt) + bodies(es, k + 1)
}

/// A log agrees with the record.
pub open spec fn log_ok(hist: History, l: LogView) -> bool {
    chain_ok(hist, l.snapshot_index, l.snapshot_term, l.entries)
}

/// Two logs agree before every index at which they hold entries of the
/// same term.
pub open spec fn logs_match(a: LogView, b: LogView) -> bool {
    forall|i: int, j: int|
        #![trigger a.entry(i), b.entry(i), a.entry(j)]
        a.holds(i) && b.holds(i) && a.entry(i).term == b.entry(i).term && j <= i && a.holds(j) && b.holds(j) ==> a.entry(j)
            == b.entry(j)
}

/// `h2` keeps every record of `h1`.
pub open spec fn extends(h1: History, h2: History) -> bool {
    forall|key: (u64, u64)| #[trigger] h1.contains_key(key) ==> h2.contains_key(key) && h2[key] == h1[key]
}

/// The record of an entry a log holds at index `i`.
proof fn lemma_held(hist: History, l: LogView, i: int)
    requires
        log_ok(hist, l),
        l.holds(i),
    ensures
        hist.contains_key((i as u64, l.entry(i).term)),
        hist[(i as u64, l.entry(i).term)] == base_prefix(hist, l.snapshot_index, l.snapshot_term) + bodies(
            l.entries,
            i - l.snapshot_index,
        ),
{
    let k = i - l.snapshot_index - 1;
    assert(l.entries[k] == l.entry(i));
}

/// Log matching: two logs that agree with the record and hold an entry
/// with the same index and term hold the same entries before it.
pub proof fn lemma_log_matching(hist: History, a: LogView, b: LogView)
    requires
        log_ok(hist, a),
        log_ok(hist, b),
        a.wf(),
        b.wf(),
    ensures
        logs_match(a, b),
{
    assert forall|i: int, j: int|
        #![trigger a.entry(i), b.entry(i), a.entry(j)]
        a.holds(i) && b.holds(i) && a.entry(i).term == b.entry(i).term && j <= i && a.holds(j) && b.holds(j) implies a.entry(j)
            == b.entry(j) by {
        lemma_held(hist, a, i);
        lemma_held(hist, b, i);
        let pa = base_prefix(hist, a.snapshot_index, a.snapshot_term);
        let pb = base_prefix(hist, b.snapshot_index, b.snapshot_term);
        let h = hist[(i as u64, a.entry(i).term)];
        assert(pa.len() == a.snapshot_index);
        assert(pb.len() == b.snapshot_index);
        assert(h[j - 1] == body(a.entries[j - a.snapshot_index - 1]));
        assert(h[j - 1] == body(b.entries[j - b.snapshot_index - 1]));
        assert(a.entries[j - a.snapshot_index - 1] == a.entry(j));
        assert(b.entries[j - b.snapshot_index - 1] == b.entry(j));
        assert(a.entry(j).index == j);
        assert(b.entry(j).index == j);
    }
}

/// A larger record keeps every chain.
pub proof fn lemma_chain_extends(h1: History, h2: History, b: u64, bt: u64, es: Seq<LogEntry>)
    requires
        chain_ok(h1, b, bt, es),
        extends(h1, h2),
    ensures
        chain_ok(h2, b, bt, es),
{
    if b != 0 {
        assert(h1.contains_key((b, bt)));
    }
    assert forall|k: int| 0 <= k < es.len() implies h2.contains_key(((b + 1 + k) as u64, (#[trigger] es[k]).term)) && h2[(
        (b + 1 + k) as u64,
        es[k].term,
    )] == base_prefix(h2, b, bt) + bodies(es, k + 1) by {
        assert(h1.contains_key(((b + 1 + k) as u64, es[k].term)));
    }
}

/// The record of a held index, or of the base point itself.
proof fn lemma_point(hist: History, l: LogView, i: int)
    requires
        log_ok(hist, l),
        l.wf(),
        l.snapshot_index <= i <= l.last_index(),
    ensures
        base_ok(hist, i as u64, l.term_at(i)->0),
        base_prefix(hist, i as u64, l.term_at(i)->0) == base_prefix(hist, l.snapshot_index, l.snapshot_term) + bodies(
            l.entries,
            i - l.snapshot_index,
        ),
{
    let p = base_prefix(hist, l.snapshot_index, l.snapshot_term);
    if i == l.snapshot_index {
        assert(bodies(l.entries, 0) =~= Seq::<(u64, RaftCommand)>::empty());
        assert(p + bodies(l.entries, 0) =~= p);
    } else {
        lemma_held(hist, l, i);
        assert(p.len() == l.snapshot_index);
    }
}

/// The entries a leader sends from its log, after index `prev`, agree with
/// the record.
pub proof fn lemma_sent_chain(hist: History, l: LogView, prev: int, to: int)
    requires
        log_ok(hist, l),
        l.wf(),
        l.snapshot_index <= prev,
        prev - l.snapshot_index <= to <= l.entries.len(),
    ensures
        chain_ok(hist, prev as u64, l.term_at(prev)->0, l.entries.subrange(prev - l.snapshot_index, to)),
{
    let s = l.snapshot_index as int;
    let from = prev - s;
    let sub = l.entries.subrange(from, to);
    lemma_point(hist, l, prev);
    let p = base_prefix(hist, l.snapshot_index, l.snapshot_term);
    assert forall|k: int| 0 <= k < sub.len() implies hist.contains_key(((prev + 1 + k) as u64, (#[trigger] sub[k]).term))
        && hist[((prev + 1 + k) as u64, sub[k].term)] == base_prefix(hist, prev as u64, l.term_at(prev)->0) + bodies(
        sub,
        k + 1,
    ) by {
        assert(sub[k] == l.entries[from + k]);
        assert(l.entries[from + k] == l.entry(prev + 1 + k));
        lemma_held(hist, l, prev + 1 + k);
        assert(bodies(l.entries, from + k + 1) =~= bodies(l.entries, from) + bodies(sub, k + 1));
        assert(p + bodies(l.entries, from + k + 1) =~= p + bodies(l.entries, from) + bodies(sub, k + 1));
    }
}

/// The record of an entry appended at the end of `l`.
pub open spec fn appended_record(hist: History, l: LogView, e: LogEntry) -> Seq<(u64, RaftCommand)> {
    base_prefix(hist, l.snapshot_index, l.snapshot_term) + bodies(l.entries.push(e), l.entries.len() + 1int)
}

/// Appending an entry at an index and term not yet recorded, and recording
/// it, keeps the log in agreement.
pub proof fn lemma_append_record(hist: History, l: LogView, e: LogEntry)
    requires
        log_ok(hist, l),
        l.wf(),
        e.index == l.last_index() + 1,
        !hist.contains_key((e.index, e.term)),
    ensures
        extends(hist, hist.insert((e.index, e.term), appended_record(hist, l, e))),
        log_ok(hist.insert((e.index, e.term), appended_record(hist, l, e)), LogView { entries: l.entries.push(e), ..l }),
        appended_record(hist, l, e).len() == e.index,
{
    let h2 = hist.insert((e.index, e.term), appended_record(hist, l, e));
    let l2 = LogView { entries: l.entries.push(e), ..l };
    assert(extends(hist, h2));
    lemma_chain_extends(hist, h2, l.snapshot_index, l.snapshot_term, l.entries);
    let p = base_prefix(hist, l.snapshot_index, l.snapshot_term);
    assert(base_prefix(h2, l.snapshot_index, l.snapshot_term) == p) by {
        if l.snapshot_index != 0 {
            assert(hist.contains_key((l.snapshot_index, l.snapshot_term)));
        }
    }
    assert forall|k: int| 0 <= k < l2.entries.len() implies h2.contains_key(
        ((l.snapshot_index + 1 + k) as u64, (#[trigger] l2.entries[k]).term),
    ) && h2[((l.snapshot_index + 1 + k) as u64, l2.entries[k].term)] == base_prefix(h2, l.snapshot_index, l.snapshot_term)
        + bodies(l2.entries, k + 1) by {
        if k < l.entries.len() {
            assert(l2.entries[k] == l.entries[k]);
            assert(bodies(l2.entries, k + 1) =~= bodies(l.entries, k + 1));
        } else {
            assert(l2.entries[k] == e);
        }
    }
    if l.snapshot_index != 0 {
        assert(hist.contains_key((l.snapshot_index, l.snapshot_term)));
    }
}

/// Entries accepted from a leader keep the follower's log in agreement.
#[verifier::rlimit(80)]
pub proof fn lemma_merge_chain(hist: History, f: LogView, prev: u64, pt: u64, es: Seq<LogEntry>, k0: int)
    requires
        log_ok(hist, f),
        f.wf(),
        chain_ok(hist, prev, pt, es),
        f.snapshot_index <= prev,
        f.term_at(prev as int) == Some(pt),
        divergence(f, prev as int, es, k0),
        prev + es.len() < u64::MAX,
    ensures
        log_ok(hist, merged(f, prev as int, es, k0)),
{
    if k0 < es.len() {
        let s = f.snapshot_index as int;
        let p = base_prefix(hist, f.snapshot_index, f.snapshot_term);
        let m = merged(f, prev as int, es, k0);
        let cut = prev + k0 - s;
        if k0 > 0 {
            assert(agrees_at(f, prev as int, es, k0 - 1));
        }
        assert(cut <= f.entries.len());
        let head = f.entries.subrange(0, cut);
        let tail = placed(es, k0, prev as int);
        assert(m.entries == head + tail);
        lemma_point(hist, f, prev as int);
        let q = base_prefix(hist, prev, pt);
        assert(q == p + bodies(f.entries, prev - s));
        // Where the log agrees with the message, their bodies agree.
        assert forall|j: int| 0 <= j < k0 implies #[trigger] body(f.entries[prev - s + j]) == body(es[j]) by {
            assert(agrees_at(f, prev as int, es, j));
            assert(f.holds(prev + 1 + j));
            assert(f.entries[prev - s + j] == f.entry(prev + 1 + j));
            lemma_held(hist, f, prev + 1 + j);
            let h = hist[((prev + 1 + j) as u64, es[j].term)];
            assert(h == p + bodies(f.entries, prev - s + j + 1));
            assert(h == q + bodies(es, j + 1));
            assert(h[s + (prev - s + j)] == body(f.entries[prev - s + j]));
            assert(h[s + (prev - s + j)] == body(es[j]));
        }
        assert(base_prefix(hist, f.snapshot_index, f.snapshot_term) == p);
        assert forall|k: int| 0 <= k < m.entries.len() implies hist.contains_key(((s + 1 + k) as u64, (#[trigger] m.entries[k]).term))
            && hist[((s + 1 + k) as u64, m.entries[k].term)] == p + bodies(m.entries, k + 1) by {
            if k < cut {
                assert(m.entries[k] == f.entries[k]);
                assert(bodies(m.entries, k + 1) =~= bodies(f.entries, k + 1));
            } else {
                let o = k - cut + k0;
                assert(m.entries[k] == tail[k - cut]);
                assert(tail[k - cut].term == es[o].term);
                assert(s + 1 + k == prev + 1 + o);
                assert(hist[((prev + 1 + o) as u64, es[o].term)] == q + bodies(es, o + 1));
                assert forall|x: int| 0 <= x < k + 1 implies #[trigger] bodies(m.entries, k + 1)[x] == (bodies(
                    f.entries,
                    prev - s,
                ) + bodies(es, o + 1))[x] by {
                    if x < prev - s {
                        assert(m.entries[x] == f.entries[x]);
                    } else if x < cut {
                        assert(m.entries[x] == f.entries[x]);
                        assert(body(f.entries[prev - s + (x - (prev - s))]) == body(es[x - (prev - s)]));
                    } else {
                        assert(m.entries[x] == tail[x - cut]);
                    }
                }
                assert(bodies(m.entries, k + 1) =~= bodies(f.entries, prev - s) + bodies(es, o + 1));
                assert(p + bodies(m.entries, k + 1) =~= q + bodies(es, o + 1));
            }
        }
        if f.snapshot_index != 0 {
            assert(hist.contains_key((f.snapshot_index, f.snapshot_term)));
        }
    }
}

/// A snapshot installed from a leader keeps the follower's log in
/// agreement, with the entries it keeps after the snapshot.
pub proof fn lemma_install_chain(hist: History, f: LogView, idx: u64, t: u64)
    requires
        log_ok(hist, f),
        f.wf(),
        base_ok(hist, idx, t),
        f.snapshot_index < idx,
    ensures
        chain_ok(
            hist,
            idx,
            t,
            if f.term_at(idx as int) == Some(t) {
                f.entries.subrange(idx - f.snapshot_index, f.entries.len() as int)
            } else {
                Seq::<LogEntry>::empty()
            },
        ),
{
    if f.term_at(idx as int) == Some(t) {
        let s = f.snapshot_index as int;
        let kept = f.entries.subrange(idx - s, f.entries.len() as int);
        lemma_point(hist, f, idx as int);
        let p = base_prefix(hist, f.snapshot_index, f.snapshot_term);
        assert forall|k: int| 0 <= k < kept.len() implies hist.contains_key(((idx + 1 + k) as u64, (#[trigger] kept[k]).term))
            && hist[((idx + 1 + k) as u64, kept[k].term)] == base_prefix(hist, idx, t) + bodies(kept, k + 1) by {
            assert(kept[k] == f.entries[idx - s + k]);
            assert(f.entries[idx - s + k] == f.entry(idx + 1 + k));
            lemma_held(hist, f, idx + 1 + k);
            assert(bodies(f.entries, idx - s + k + 1) =~= bodies(f.entries, idx - s) + bodies(kept, k + 1));
            assert(p + bodies(f.entries, idx - s + k + 1) =~= p + bodies(f.entries, idx - s) + bodies(kept, k + 1));
        }
    }
}

/// Entries sent after `prev` stop agreeing with a log at some offset.
pub proof fn lemma_divergence_exists(log: LogView, prev: int, es: Seq<LogEntry>) -> (k0: int)
    ensures
        divergence(log, prev, es, k0),
{
    lemma_divergence_from(log, prev, es, 0)
}

/// The offset where entries stop agreeing, searched from `k` on.
proof fn lemma_divergence_from(log: LogView, prev: int, es: Seq<LogEntry>, k: int) -> (k0: int)
    requires
        0 <= k <= es.len(),
        forall|j: int| 0 <= j < k ==> #[trigger] agrees_at(log, prev, es, j),
    ensures
        divergence(log, prev, es, k0),
    decreases es.len() - k,
{
    if k == es.len() || !agrees_at(log, prev, es, k) {
        k
    } else {
        lemma_divergence_from(log, prev, es, k + 1)
    }
}

} // verus!
