//! The log store: an append-only sequence of entries, with truncation of a
//! divergent tail and compaction of a committed prefix into a snapshot.

use vstd::prelude::*;
use crate::command::RaftCommand;
use crate::store::{ConfigEntity, ConfigStore, ids_in_order};

verus! {

/// One log entry: a command, the term of the leader that created it, and its
/// position in the log (counted from 1).
#[derive(Debug)]
pub struct LogEntry {
    pub index: u64,
    pub term: u64,
    pub command: RaftCommand,
}

impl LogEntry {
    /// An exact copy.
    pub fn copy(&self) -> (r: LogEntry)
        ensures
            r == *self,
    {
        LogEntry { index: self.index, term: self.term, command: self.command.copy() }
    }
}

/// What a log holds: the snapshot that replaces its compacted prefix
/// (last included index and term, and the state machine after it), and the
/// entries after the snapshot.
pub struct LogView {
    pub snapshot_index: u64,
    pub snapshot_term: u64,
    pub snapshot_state: Seq<ConfigEntity>,
    pub entries: Seq<LogEntry>,
}

impl LogView {
    /// Index of the last entry, or of the snapshot when no entry follows it.
    pub open spec fn last_index(self) -> int {
        self.snapshot_index + self.entries.len()
    }

    /// Term of the last entry, or of the snapshot when no entry follows it.
    pub open spec fn last_term(self) -> u64 {
        if self.entries.len() == 0 {
            self.snapshot_term
        } else {
            self.entries.last().term
        }
    }

    /// Whether index `i` is held as an entry (not compacted away).
    pub open spec fn holds(self, i: int) -> bool {
        self.snapshot_index < i <= self.last_index()
    }

    /// The entry at index `i`; meaningful where `holds(i)`.
    pub open spec fn entry(self, i: int) -> LogEntry {
        self.entries[i - self.snapshot_index - 1]
    }

    /// The term at index `i`: that of the snapshot at its last included
    /// index, that of the entry where one is held, none elsewhere.
    pub open spec fn term_at(self, i: int) -> Option<u64> {
        if i == self.snapshot_index {
            Some(self.snapshot_term)
        } else if self.holds(i) {
            Some(self.entry(i).term)
        } else {
            None
        }
    }

    /// Entries are numbered consecutively after the snapshot, and every
    /// index fits in a `u64`.
    pub open spec fn wf(self) -> bool {
        &&& forall|k: int| 0 <= k < self.entries.len() ==> (#[trigger] self.entries[k]).index == self.snapshot_index + k + 1
        &&& self.last_index() <= u64::MAX
    }

    /// `self` and `other` hold the same snapshot and `other`'s entries begin
    /// with all of `self`'s.
    pub open spec fn extended_by(self, other: LogView) -> bool {
        &&& other.snapshot_index == self.snapshot_index
        &&& other.snapshot_term == self.snapshot_term
        &&& other.snapshot_state == self.snapshot_state
        &&& self.entries.len() <= other.entries.len()
        &&& forall|i: int| 0 <= i < self.entries.len() ==> other.entries[i] == #[trigger] self.entries[i]
    }

    /// Every index up to `upto` that `self` holds, `other` holds unchanged
    /// or has folded into its snapshot, and `other`'s snapshot lies no
    /// earlier than `self`'s.
    pub open spec fn keeps_prefix(self, other: LogView, upto: int) -> bool {
        &&& other.snapshot_index >= self.snapshot_index
        &&& other.last_index() >= upto || upto <= other.snapshot_index
        &&& forall|i: int| self.holds(i) && i <= upto && other.holds(i) ==> other.entry(i) == self.entry(i)
        &&& forall|i: int| self.holds(i) && i <= upto && i > other.snapshot_index ==> other.holds(i)
    }
}

/// The log store of one node.
#[derive(Debug)]
pub struct RaftLog {
    snapshot_index: u64,
    snapshot_term: u64,
    snapshot_state: ConfigStore,
    entries: Vec<LogEntry>,
}

impl View for RaftLog {
    type V = LogView;

    closed spec fn view(&self) -> LogView {
        LogView {
            snapshot_index: self.snapshot_index,
            snapshot_term: self.snapshot_term,
            snapshot_state: self.snapshot_state@,
            entries: self.entries@,
        }
    }
}

impl RaftLog {
    /// Well-formed: consecutive indices and a well-formed snapshot state.
    pub open spec fn wf(&self) -> bool {
        self@.wf() && ids_in_order(self@.snapshot_state)
    }

    /// An empty log with the empty snapshot at index 0, term 0.
    pub fn new() -> (r: RaftLog)
        ensures
            r.wf(),
            r@.snapshot_index == 0,
            r@.snapshot_term == 0,
            r@.snapshot_state == Seq::<ConfigEntity>::empty(),
            r@.entries == Seq::<LogEntry>::empty(),
    {
        RaftLog { snapshot_index: 0, snapshot_term: 0, snapshot_state: ConfigStore::new(), entries: Vec::new() }
    }

    /// A log read back from durable storage: a snapshot (last included
    /// index and term, and the state machine after it) and the entries that
    /// follow it. None unless the entries are numbered consecutively after
    /// the snapshot and the last index leaves room for one more.
    pub fn restore(snapshot_index: u64, snapshot_term: u64, snapshot_state: ConfigStore, entries: Vec<LogEntry>) -> (r:
        Option<RaftLog>)
        requires
            snapshot_state.wf(),
        ensures
            r is Some <==> (forall|k: int| 0 <= k < entries@.len() ==> (#[trigger] entries@[k]).index == snapshot_index + k + 1)
                && snapshot_index + entries@.len() < u64::MAX,
            r is Some ==> r->0.wf() && r->0@ == (LogView {
                snapshot_index,
                snapshot_term,
                snapshot_state: snapshot_state@,
                entries: entries@,
            }),
    {
        let n = entries.len();
        if n as u64 >= u64::MAX - snapshot_index {
            return None;
        }
        let mut k: usize = 0;
        while k < n
            invariant
                n == entries@.len(),
                snapshot_index + n < u64::MAX,
                0 <= k <= n,
                forall|j: int| 0 <= j < k ==> (#[trigger] entries@[j]).index == snapshot_index + j + 1,
            decreases n - k,
        {
            if entries[k].index != snapshot_index + 1 + k as u64 {
                return None;
            }
            k = k + 1;
        }
        Some(RaftLog { snapshot_index, snapshot_term, snapshot_state, entries })
    }

    /// Index of the last entry (or of the snapshot).
    pub fn last_index(&self) -> (r: u64)
        requires
            self.wf(),
        ensures
            r == self@.last_index(),
    {
        self.snapshot_index + self.entries.len() as u64
    }

    /// Term of the last entry (or of the snapshot).
    pub fn last_term(&self) -> (r: u64)
        ensures
            r == self@.last_term(),
    {
        if self.entries.len() == 0 {
            self.snapshot_term
        } else {
            self.entries[self.entries.len() - 1].term
        }
    }

    /// Last index included in the snapshot.
    pub fn snapshot_index(&self) -> (r: u64)
        ensures
            r == self@.snapshot_index,
    {
        self.snapshot_index
    }

    /// Term of the last index included in the snapshot.
    pub fn snapshot_term(&self) -> (r: u64)
        ensures
            r == self@.snapshot_term,
    {
        self.snapshot_term
    }

    /// A copy of the state machine as of the snapshot.
    pub fn snapshot_state(&self) -> (r: ConfigStore)
        requires
            self.wf(),
        ensures
            r.wf(),
            r@ == self@.snapshot_state,
    {
        self.snapshot_state.copy()
    }

    /// The term at index `i`, where the log knows it.
    pub fn term_at(&self, i: u64) -> (r: Option<u64>)
        requires
            self.wf(),
        ensures
            r == self@.term_at(i as int),
    {
        let n = self.entries.len();
        if i == self.snapshot_index {
            Some(self.snapshot_term)
        } else if self.snapshot_index < i && i <= self.last_index() {
            Some(self.entries[(i - self.snapshot_index - 1) as usize].term)
        } else {
            None
        }
    }

    /// The entry at index `i`.
    pub fn entry(&self, i: u64) -> (r: &LogEntry)
        requires
            self.wf(),
            self@.holds(i as int),
        ensures
            *r == self@.entry(i as int),
            r.index == i,
    {
        let n = self.entries.len();
        &self.entries[(i - self.snapshot_index - 1) as usize]
    }

    /// Appends a command at the next index, with the given term.
    pub fn append(&mut self, term: u64, command: RaftCommand) -> (r: u64)
        requires
            old(self).wf(),
            old(self)@.last_index() < u64::MAX,
        ensures
            final(self).wf(),
            r == old(self)@.last_index() + 1,
            final(self)@ == (LogView {
                entries: old(self)@.entries.push(LogEntry { index: r, term, command }),
                ..old(self)@
            }),
    {
        let index = self.last_index() + 1;
        self.entries.push(LogEntry { index, term, command });
        index
    }

    /// Discards every entry after index `i`.
    pub fn truncate_after(&mut self, i: u64)
        requires
            old(self).wf(),
            old(self)@.snapshot_index <= i <= old(self)@.last_index(),
        ensures
            final(self).wf(),
            final(self)@ == (LogView {
                entries: old(self)@.entries.subrange(0, i - old(self)@.snapshot_index),
                ..old(self)@
            }),
    {
        let n = self.entries.len();
        let keep = (i - self.snapshot_index) as usize;
        let _tail = self.entries.split_off(keep);
    }

    /// Copies of the entries from index `start` on, at most `max` of them.
    pub fn entries_from(&self, start: u64, max: usize) -> (r: Vec<LogEntry>)
        requires
            self.wf(),
            self@.snapshot_index < start <= self@.last_index() + 1,
        ensures
            r@ == self@.entries.subrange(
                start - self@.snapshot_index - 1,
                if self@.last_index() - start + 1 <= max { self@.entries.len() as int } else { start - self@.snapshot_index - 1 + max },
            ),
    {
        let from = (start - self.snapshot_index - 1) as usize;
        let to = if self.entries.len() - from <= max { self.entries.len() } else { from + max };
        let mut out: Vec<LogEntry> = Vec::new();
        let mut k: usize = from;
        while k < to
            invariant
                from <= k <= to <= self.entries@.len(),
                out@ == self.entries@.subrange(from as int, k as int),
            decreases to - k,
        {
            out.push(self.entries[k].copy());
            k = k + 1;
            assert(out@ =~= self.entries@.subrange(from as int, k as int));
        }
        out
    }

    /// Folds every entry up to index `upto` into the snapshot, whose state
    /// becomes `state` (the state machine after applying through `upto`).
    pub fn compact(&mut self, upto: u64, state: ConfigStore)
        requires
            old(self).wf(),
            state.wf(),
            old(self)@.holds(upto as int),
        ensures
            final(self).wf(),
            final(self)@ == (LogView {
                snapshot_index: upto,
                snapshot_term: old(self)@.entry(upto as int).term,
                snapshot_state: state@,
                entries: old(self)@.entries.subrange(upto - old(self)@.snapshot_index, old(self)@.entries.len() as int),
            }),
    {
        let n = self.entries.len();
        let k = (upto - self.snapshot_index) as usize;
        let term = self.entries[k - 1].term;
        let rest = self.entries.split_off(k);
        self.entries = rest;
        self.snapshot_index = upto;
        self.snapshot_term = term;
        self.snapshot_state = state;
    }

    /// Replaces the log's prefix by a snapshot received from the leader. An
    /// entry that follows and agrees with the snapshot's last entry is kept
    /// with what follows it; otherwise every entry is discarded.
    pub fn install_snapshot(&mut self, index: u64, term: u64, state: ConfigStore)
        requires
            old(self).wf(),
            state.wf(),
            old(self)@.snapshot_index < index,
        ensures
            final(self).wf(),
            final(self)@ == (LogView {
                snapshot_index: index,
                snapshot_term: term,
                snapshot_state: state@,
                entries: if old(self)@.term_at(index as int) == Some(term) {
                    old(self)@.entries.subrange(index - old(self)@.snapshot_index, old(self)@.entries.len() as int)
                } else {
                    Seq::<LogEntry>::empty()
                },
            }),
    {
        let n = self.entries.len();
        if self.term_at(index) == Some(term) {
            let k = (index - self.snapshot_index) as usize;
            let rest = self.entries.split_off(k);
            self.entries = rest;
        } else {
            self.entries = Vec::new();
        }
        self.snapshot_index = index;
        self.snapshot_term = term;
        self.snapshot_state = state;
    }
}

} // verus!
