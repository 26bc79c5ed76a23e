//! An in-memory audit trail: records who did what to which resource, and
//! selects records by user, action, resource and time, newest first.

use vstd::prelude::*;
use crate::types::{AuditFilter, AuditLog, AuditService, Error};

verus! {

/// Whether an optional wanted text admits `v`.
pub open spec fn admits_text(wanted: Option<String>, v: String) -> bool {
    match wanted {
        None => true,
        Some(w) => w@ == v@,
    }
}

/// Whether `f` admits the record `l`: every fixed field matches and the
/// time lies within the bounds, both inclusive.
pub open spec fn audit_admits(l: AuditLog, f: AuditFilter) -> bool {
    &&& admits_text(f.user, l.user)
    &&& admits_text(f.action, l.action)
    &&& admits_text(f.resource, l.resource)
    &&& f.start_time is Some ==> l.timestamp >= f.start_time->0
    &&& f.end_time is Some ==> l.timestamp <= f.end_time->0
}

/// `x` placed into `s` after every record at least as recent as it.
pub open spec fn insert_by_time(s: Seq<AuditLog>, x: AuditLog) -> Seq<AuditLog>
    decreases s.len(),
{
    if s.len() == 0 {
        seq![x]
    } else if s[0].timestamp < x.timestamp {
        seq![x] + s
    } else {
        seq![s[0]] + insert_by_time(s.drop_first(), x)
    }
}

/// The records of `logs` that `f` admits, by time stamp, the newest first;
/// records with equal time stamps stay in the order they were recorded.
pub open spec fn selected(logs: Seq<AuditLog>, f: AuditFilter) -> Seq<AuditLog>
    decreases logs.len(),
{
    if logs.len() == 0 {
        Seq::empty()
    } else {
        let rest = selected(logs.drop_last(), f);
        if audit_admits(logs.last(), f) {
            insert_by_time(rest, logs.last())
        } else {
            rest
        }
    }
}

/// The records of `logs` that `f` admits, in the order they were recorded.
pub open spec fn admitted(logs: Seq<AuditLog>, f: AuditFilter) -> Seq<AuditLog>
    decreases logs.len(),
{
    if logs.len() == 0 {
        Seq::empty()
    } else {
        let rest = admitted(logs.drop_last(), f);
        if audit_admits(logs.last(), f) {
            rest.push(logs.last())
        } else {
            rest
        }
    }
}

/// Whether `s` is ordered by time stamp, the newest first.
pub open spec fn newest_first(s: Seq<AuditLog>) -> bool {
    forall|i: int, j: int| 0 <= i < j < s.len() ==> (#[trigger] s[i]).timestamp >= (#[trigger] s[j]).timestamp
}

/// Page `number` (counted from 1) of `page_size` records of `m`; empty when
/// either count is not positive or the page lies past the end.
pub open spec fn page_of_logs(m: Seq<AuditLog>, page_size: i32, number: i32) -> Seq<AuditLog> {
    if page_size <= 0 || number <= 0 {
        Seq::empty()
    } else {
        let start = (number - 1) * page_size;
        if start >= m.len() {
            Seq::empty()
        } else if start + page_size >= m.len() {
            m.subrange(start, m.len() as int)
        } else {
            m.subrange(start, start + page_size)
        }
    }
}

/// Inserting at the first record older than `x` is `insert_by_time`.
proof fn lemma_insert_at(s: Seq<AuditLog>, x: AuditLog, p: int)
    requires
        0 <= p <= s.len(),
        forall|j: int| 0 <= j < p ==> (#[trigger] s[j]).timestamp >= x.timestamp,
        p == s.len() || s[p].timestamp < x.timestamp,
    ensures
        insert_by_time(s, x) == s.insert(p, x),
    decreases s.len(),
{
    if s.len() == 0 {
        assert(s.insert(p, x) =~= seq![x]);
    } else if s[0].timestamp < x.timestamp {
        assert(s.insert(p, x) =~= seq![x] + s);
    } else {
        let t = s.drop_first();
        assert forall|j: int| 0 <= j < p - 1 implies (#[trigger] t[j]).timestamp >= x.timestamp by {
            assert(t[j] == s[j + 1]);
        }
        lemma_insert_at(t, x, p - 1);
        assert(s.insert(p, x) =~= seq![s[0]] + t.insert(p - 1, x));
    }
}

/// Inserting by time keeps a newest-first order.
proof fn lemma_insert_sorted(s: Seq<AuditLog>, x: AuditLog)
    requires
        newest_first(s),
    ensures
        newest_first(insert_by_time(s, x)),
        insert_by_time(s, x).len() == s.len() + 1,
        insert_by_time(s, x).to_multiset() == s.to_multiset().insert(x),
    decreases s.len(),
{
    broadcast use vstd::seq_lib::group_to_multiset_ensures;
    if s.len() == 0 {
        assert(seq![x] =~= Seq::<AuditLog>::empty().push(x));
        assert(s =~= Seq::<AuditLog>::empty());
    } else if s[0].timestamp < x.timestamp {
        let r = seq![x] + s;
        assert(r =~= s.insert(0, x));
        assert forall|i: int, j: int| 0 <= i < j < r.len() implies (#[trigger] r[i]).timestamp >= (#[trigger] r[j]).timestamp by {
            if i > 0 {
                assert(r[i] == s[i - 1] && r[j] == s[j - 1]);
            } else if j > 1 {
                assert(r[j] == s[j - 1]);
                assert(s[0].timestamp >= s[j - 1].timestamp);
            }
        }
    } else {
        let t = s.drop_first();
        assert forall|i: int, j: int| 0 <= i < j < t.len() implies (#[trigger] t[i]).timestamp >= (#[trigger] t[j]).timestamp by {
            assert(t[i] == s[i + 1] && t[j] == s[j + 1]);
        }
        lemma_insert_sorted(t, x);
        let it = insert_by_time(t, x);
        let r = seq![s[0]] + it;
        assert forall|k: int| 0 <= k < it.len() implies s[0].timestamp >= (#[trigger] it[k]).timestamp by {
            assert(it.to_multiset().count(it[k]) > 0);
            assert(it.to_multiset().contains(it[k]));
            if it[k] != x {
                assert(t.to_multiset().contains(it[k]));
                assert(t.contains(it[k]));
                let m = choose|m: int| 0 <= m < t.len() && t[m] == it[k];
                assert(s[m + 1] == t[m]);
            }
        }
        assert forall|i: int, j: int| 0 <= i < j < r.len() implies (#[trigger] r[i]).timestamp >= (#[trigger] r[j]).timestamp by {
            if i > 0 {
                assert(r[i] == it[i - 1] && r[j] == it[j - 1]);
            } else {
                assert(r[j] == it[j - 1]);
            }
        }
        assert(s =~= t.insert(0, s[0]));
        vstd::seq_lib::to_multiset_insert(t, 0, s[0]);
        assert(r =~= it.insert(0, s[0]));
        vstd::seq_lib::to_multiset_insert(it, 0, s[0]);
        assert(r.to_multiset() =~= s.to_multiset().insert(x));
    }
}

/// The selection is ordered newest first, holds only admitted records, and
/// holds each admitted record as often as it was recorded.
pub proof fn lemma_selected(logs: Seq<AuditLog>, f: AuditFilter)
    ensures
        newest_first(selected(logs, f)),
        selected(logs, f).to_multiset() == admitted(logs, f).to_multiset(),
    decreases logs.len(),
{
    broadcast use vstd::seq_lib::group_to_multiset_ensures;
    if logs.len() > 0 {
        lemma_selected(logs.drop_last(), f);
        let rest = selected(logs.drop_last(), f);
        if audit_admits(logs.last(), f) {
            lemma_insert_sorted(rest, logs.last());
        }
    }
}

/// Whether an optional wanted text admits `v`, computed.
fn admits_text_exec(wanted: &Option<String>, v: &String) -> (r: bool)
    ensures
        r == admits_text(*wanted, *v),
{
    match wanted {
        None => true,
        Some(w) => *w == *v,
    }
}

impl AuditLog {
    /// An exact copy.
    pub fn copy(&self) -> (r: AuditLog)
        ensures
            r == *self,
    {
        AuditLog {
            id: self.id.clone(),
            user: self.user.clone(),
            action: self.action.clone(),
            resource: self.resource.clone(),
            details: self.details.clone(),
            timestamp: self.timestamp,
        }
    }
}

/// Whether `filter` admits `log`, computed.
pub fn admits(log: &AuditLog, filter: &AuditFilter) -> (r: bool)
    ensures
        r == audit_admits(*log, *filter),
{
    let after_start = match filter.start_time {
        None => true,
        Some(t) => log.timestamp >= t,
    };
    let before_end = match filter.end_time {
        None => true,
        Some(t) => log.timestamp <= t,
    };
    admits_text_exec(&filter.user, &log.user) && admits_text_exec(&filter.action, &log.action) && admits_text_exec(
        &filter.resource,
        &log.resource,
    ) && after_start && before_end
}

/// Audit records kept in memory, in the order they were recorded.
pub struct MemoryAudit {
    logs: Vec<AuditLog>,
}

impl View for MemoryAudit {
    type V = Seq<AuditLog>;

    closed spec fn view(&self) -> Seq<AuditLog> {
        self.logs@
    }
}

impl MemoryAudit {
    /// An empty trail.
    pub fn new() -> (r: MemoryAudit)
        ensures
            r@ == Seq::<AuditLog>::empty(),
    {
        MemoryAudit { logs: Vec::new() }
    }

    /// Adds a record at the end.
    pub fn push(&mut self, log: AuditLog)
        ensures
            final(self)@ == old(self)@.push(log),
    {
        self.logs.push(log);
    }

    /// The records that `filter` admits, by time stamp, the newest first
    /// (see `selected`).
    pub fn select(&self, filter: &AuditFilter) -> (r: Vec<AuditLog>)
        ensures
            r@ == selected(self@, *filter),
    {
        let mut out: Vec<AuditLog> = Vec::new();
        let mut k: usize = 0;
        while k < self.logs.len()
            invariant
                k <= self.logs@.len(),
                out@ == selected(self.logs@.subrange(0, k as int), *filter),
            decreases self.logs@.len() - k,
        {
            assert(self.logs@.subrange(0, k + 1).drop_last() =~= self.logs@.subrange(0, k as int));
            let l = &self.logs[k];
            if admits(l, filter) {
                let mut p: usize = 0;
                while p < out.len() && out[p].timestamp >= l.timestamp
                    invariant
                        p <= out@.len(),
                        forall|j: int| 0 <= j < p ==> (#[trigger] out@[j]).timestamp >= l.timestamp,
                    decreases out@.len() - p,
                {
                    p = p + 1;
                }
                proof {
                    lemma_insert_at(out@, *l, p as int);
                }
                out.insert(p, l.copy());
            }
            k = k + 1;
        }
        assert(self.logs@.subrange(0, self.logs@.len() as int) =~= self.logs@);
        out
    }

    /// One page of the records that `filter` admits, newest first, and how
    /// many it admits in all (at most `i32::MAX`).
    pub fn query(&self, filter: &AuditFilter, page_size: i32, page_number: i32) -> (r: (Vec<AuditLog>, i32))
        ensures
            r.0@ == page_of_logs(selected(self@, *filter), page_size, page_number),
            r.1 == (if selected(self@, *filter).len() > i32::MAX { i32::MAX as int } else { selected(self@, *filter).len() as int }),
    {
        let mut all = self.select(filter);
        let total: i32 = if all.len() > 0x7fff_ffff { 0x7fff_ffff } else { all.len() as i32 };
        if page_size <= 0 || page_number <= 0 {
            return (Vec::new(), total);
        }
        let a: u64 = page_number as u64 - 1;
        let b: u64 = page_size as u64;
        assert(a * b <= 0x7fff_ffff * 0x7fff_ffff) by (nonlinear_arith)
            requires
                a <= 0x7fff_ffff,
                b <= 0x7fff_ffff,
        ;
        let start = a * b;
        if start >= all.len() as u64 {
            return (Vec::new(), total);
        }
        let mut rest = all.split_off(start as usize);
        if b < rest.len() as u64 {
            let _tail = rest.split_off(b as usize);
        }
        (rest, total)
    }
}

impl AuditService for MemoryAudit {
    fn record(&mut self, log: AuditLog) -> Result<(), Error> {
        self.push(log);
        Ok(())
    }

    fn get_logs(&self, filter: &AuditFilter, page_size: i32, page_number: i32) -> Result<(Vec<AuditLog>, i32), Error> {
        Ok(self.query(filter, page_size, page_number))
    }
}

} // verus!
