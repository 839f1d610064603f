//! The operation log as the view-change protocol reads and repairs it.
//!
//! Entries are kept in ascending order of their sequence numbers.  A prefix
//! of them is decided and is never rewritten; the rest is accepted and
//! waits for a decision.

use vstd::prelude::*;

verus! {

/// One entry of the operation log: the value accepted for a sequence
/// number, named by its digest, and the view in which it was accepted.
#[derive(Clone, Copy, Debug, PartialEq, Eq, Structural)]
pub struct LogEntry {
    pub seq: u64,
    pub view: u64,
    pub digest: u64,
}

/// The entries whose sequence number lies below `bound`.
pub open spec fn before(bound: int) -> spec_fn(LogEntry) -> bool {
    |e: LogEntry| (e.seq as int) < bound
}

/// Mathematical content of a [`Log`].
pub struct LogSpec {
    pub entries: Seq<LogEntry>,
    /// Number of entries, from the start, that are decided.
    pub decided: nat,
}

impl LogSpec {
    pub open spec fn ascending(self) -> bool {
        forall|i: int, j: int| 0 <= i < j < self.entries.len() ==> self.entries[i].seq < self.entries[j].seq
    }

    pub open spec fn wf(self) -> bool {
        &&& self.ascending()
        &&& self.decided <= self.entries.len()
    }

    pub open spec fn empty() -> LogSpec {
        LogSpec { entries: Seq::empty(), decided: 0 }
    }

    /// The newest entry, accepted or decided.
    pub open spec fn last_accepted(self) -> Option<LogEntry> {
        if self.entries.len() == 0 {
            None
        } else {
            Some(self.entries.last())
        }
    }

    /// The sequence number of the newest decided entry.
    pub open spec fn decided_up_to(self) -> Option<u64> {
        if self.decided == 0 {
            None
        } else {
            Some(self.entries[self.decided - 1].seq)
        }
    }

    /// Whether nothing is decided at `seq` or beyond it.
    pub open spec fn open_at(self, seq: u64) -> bool {
        self.decided_up_to() matches Some(d) ==> d < seq
    }

    /// The entries with a sequence number below `bound`.
    pub open spec fn below(self, bound: int) -> Seq<LogEntry> {
        self.entries.filter(before(bound))
    }

    /// Whether `entry` can be appended: it lies beyond every entry held.
    pub open spec fn accepts(self, entry: LogEntry) -> bool {
        self.last_accepted() matches Some(last) ==> last.seq < entry.seq
    }

    /// The log after an attempt to append `entry` as accepted.
    pub open spec fn appended(self, entry: LogEntry) -> LogSpec {
        if self.accepts(entry) {
            LogSpec { entries: self.entries.push(entry), decided: self.decided }
        } else {
            self
        }
    }

    /// The number of entries that stay when everything undecided beyond
    /// `seq` is discarded.
    pub open spec fn kept(self, seq: u64) -> nat {
        if self.below(seq + 1).len() > self.decided {
            self.below(seq + 1).len()
        } else {
            self.decided
        }
    }

    /// The log without its undecided entries beyond `seq`.
    pub open spec fn discarded_after(self, seq: u64) -> LogSpec {
        LogSpec { entries: self.entries.take(self.kept(seq) as int), decided: self.decided }
    }

    /// The log with every entry up to `seq` decided.
    pub open spec fn decided_through(self, seq: u64) -> LogSpec {
        LogSpec { entries: self.entries, decided: self.kept(seq) }
    }

    /// What the reconciled log holds at the sequence number of `value`:
    /// the value itself where that sequence number was undecided, and what
    /// was decided there otherwise.
    pub open spec fn settled(self, value: LogEntry) -> Seq<LogEntry> {
        if self.open_at(value.seq) {
            seq![value]
        } else {
            self.below(value.seq + 1).skip(self.below(value.seq as int).len() as int)
        }
    }

    /// The log brought in line with the value that a view change agreed on.
    ///
    /// Without a value, or where the value's sequence number is decided
    /// here already, the log stays as it is.  Otherwise every undecided
    /// entry at that sequence number or beyond it gives way, and the value
    /// becomes the newest accepted entry.
    pub open spec fn reconciled(self, synced: Option<LogEntry>) -> LogSpec {
        match synced {
            None => self,
            Some(value) => if self.open_at(value.seq) {
                LogSpec { entries: self.below(value.seq as int).push(value), decided: self.decided }
            } else {
                self
            },
        }
    }
}

/// Where a predicate holds of the first `k` items and of no later one, the
/// items that satisfy it are those first `k`.
pub proof fn lemma_filter_prefix(entries: Seq<LogEntry>, bound: int, k: int)
    requires
        0 <= k <= entries.len(),
        forall|i: int| 0 <= i < k ==> (#[trigger] entries[i]).seq < bound,
        forall|i: int| k <= i < entries.len() ==> (#[trigger] entries[i]).seq >= bound,
    ensures
        entries.filter(before(bound)) == entries.take(k),
    decreases entries.len(),
{
    reveal(Seq::filter);
    let pred = before(bound);
    if entries.len() == 0 {
        assert(entries.take(k) =~= entries);
    } else {
        let earlier = entries.drop_last();
        if k == entries.len() {
            lemma_filter_prefix(earlier, bound, k - 1);
            assert(earlier.take(k - 1) =~= earlier);
            assert(earlier.push(entries.last()) =~= entries);
            assert(entries.take(k) =~= entries);
            assert(pred(entries.last()));
        } else {
            lemma_filter_prefix(earlier, bound, k);
            assert(earlier.take(k) =~= entries.take(k));
            assert(!pred(entries.last()));
        }
    }
}

/// In an ascending log the entries below a bound form a prefix, and the
/// length of that prefix is the position of the first entry at or beyond
/// the bound.
pub proof fn lemma_below_is_prefix(log: LogSpec, bound: int)
    requires
        log.ascending(),
    ensures
        log.below(bound).len() <= log.entries.len(),
        log.below(bound) == log.entries.take(log.below(bound).len() as int),
        forall|i: int| 0 <= i < log.below(bound).len() ==> (#[trigger] log.entries[i]).seq < bound,
        forall|i: int|
            log.below(bound).len() <= i < log.entries.len() ==> (#[trigger] log.entries[i]).seq >= bound,
    decreases log.entries.len(),
{
    reveal(Seq::filter);
    let entries = log.entries;
    if entries.len() > 0 {
        let earlier = LogSpec { entries: entries.drop_last(), decided: 0 };
        lemma_below_is_prefix(earlier, bound);
        let k = earlier.below(bound).len() as int;
        if before(bound)(entries.last()) {
            assert forall|i: int| 0 <= i < entries.len() implies (#[trigger] entries[i]).seq < bound by {
                if i < entries.len() - 1 {
                    assert(entries[i].seq < entries[entries.len() - 1].seq);
                }
            }
            lemma_filter_prefix(entries, bound, entries.len() as int);
            assert(entries.take(entries.len() as int) =~= entries);
        } else {
            assert(earlier.entries.take(k) =~= entries.take(k));
            assert forall|i: int| 0 <= i < k implies (#[trigger] entries[i]).seq < bound by {
                assert(earlier.entries[i].seq < bound);
            }
            assert forall|i: int| k <= i < entries.len() implies (#[trigger] entries[i]).seq >= bound by {
                if i < entries.len() - 1 {
                    assert(earlier.entries[i].seq >= bound);
                }
            }
        }
    } else {
        assert(entries.take(0) =~= entries);
    }
}

/// Append-only record of the accepted and decided entries of a replica.
#[derive(Debug)]
pub struct Log {
    entries: Vec<LogEntry>,
    decided: usize,
}

impl View for Log {
    type V = LogSpec;

    closed spec fn view(&self) -> LogSpec {
        LogSpec { entries: self.entries@, decided: self.decided as nat }
    }
}

impl Log {
    pub fn new() -> (r: Log)
        ensures
            r@ == LogSpec::empty(),
            r@.wf(),
    {
        Log { entries: Vec::new(), decided: 0 }
    }

    /// Number of entries held.
    pub fn len(&self) -> (r: usize)
        ensures
            r == self@.entries.len(),
    {
        self.entries.len()
    }

    /// The entry at position `at`, counted from the oldest.
    pub fn get(&self, at: usize) -> (r: Option<LogEntry>)
        ensures
            r == if at < self@.entries.len() {
                Some(self@.entries[at as int])
            } else {
                None
            },
    {
        if at < self.entries.len() {
            Some(self.entries[at])
        } else {
            None
        }
    }

    /// Number of entries, from the oldest, that are decided.
    pub fn decided_len(&self) -> (r: usize)
        ensures
            r == self@.decided,
    {
        self.decided
    }

    /// The newest entry, accepted or decided: what a replica reports of
    /// itself when a view change collects the state of a quorum.
    pub fn last_accepted_proof(&self) -> (r: Option<LogEntry>)
        ensures
            r == self@.last_accepted(),
    {
        let n = self.entries.len();
        if n == 0 {
            None
        } else {
            Some(self.entries[n - 1])
        }
    }

    /// The sequence number of the newest decided entry.
    pub fn decided_up_to(&self) -> (r: Option<u64>)
        requires
            self@.wf(),
        ensures
            r == self@.decided_up_to(),
    {
        if self.decided == 0 {
            None
        } else {
            Some(self.entries[self.decided - 1].seq)
        }
    }

    /// Appends `entry` as accepted if it lies beyond every entry held, and
    /// says whether it did.
    pub fn append_accepted(&mut self, entry: LogEntry) -> (appended: bool)
        requires
            old(self)@.wf(),
        ensures
            appended == old(self)@.accepts(entry),
            final(self)@ == old(self)@.appended(entry),
            final(self)@.wf(),
    {
        let n = self.entries.len();
        if n > 0 && self.entries[n - 1].seq >= entry.seq {
            return false;
        }
        self.entries.push(entry);
        assert(self@.ascending()) by {
            assert forall|i: int, j: int| 0 <= i < j < self@.entries.len() implies self@.entries[i].seq
                < self@.entries[j].seq by {
                if j == n && i < n - 1 {
                    assert(old(self)@.entries[i].seq < old(self)@.entries[n - 1].seq);
                }
            }
        }
        true
    }

    /// The number of entries that stay when everything undecided beyond
    /// `seq` is discarded.
    fn kept(&self, seq: u64) -> (k: usize)
        requires
            self@.wf(),
        ensures
            k == self@.kept(seq),
            self@.decided <= k <= self@.entries.len(),
    {
        let mut k: usize = self.entries.len();
        while k > self.decided && self.entries[k - 1].seq > seq
            invariant
                self@.wf(),
                self.decided <= k <= self.entries.len(),
                forall|i: int| k <= i < self.entries.len() ==> (#[trigger] self.entries@[i]).seq > seq,
            decreases k,
        {
            k -= 1;
        }
        proof {
            lemma_below_is_prefix(self@, seq + 1);
            let b = self@.below(seq + 1).len() as int;
            if k > self.decided {
                assert(self.entries@[k - 1].seq <= seq);
                if b < k {
                    assert(self.entries@[b].seq >= seq + 1);
                    assert(b == k - 1 || self.entries@[b].seq < self.entries@[k - 1].seq);
                }
                if b > k {
                    assert(self.entries@[k as int].seq > seq);
                }
            } else {
                if b > k {
                    assert(self.entries@[k as int].seq > seq);
                }
            }
        }
        k
    }

    /// Discards every undecided entry beyond `seq`.
    pub fn discard_after(&mut self, seq: u64)
        requires
            old(self)@.wf(),
        ensures
            final(self)@ == old(self)@.discarded_after(seq),
            final(self)@.wf(),
    {
        let k = self.kept(seq);
        self.entries.truncate(k);
    }

    /// Marks every entry up to `seq` as decided.
    pub fn decide_through(&mut self, seq: u64)
        requires
            old(self)@.wf(),
        ensures
            final(self)@ == old(self)@.decided_through(seq),
            final(self)@.wf(),
    {
        self.decided = self.kept(seq);
    }

    /// Brings the log in line with the value that a view change agreed on.
    pub fn reconcile(&mut self, synced: Option<LogEntry>)
        requires
            old(self)@.wf(),
        ensures
            final(self)@ == old(self)@.reconciled(synced),
            final(self)@.wf(),
    {
        match synced {
            None => {},
            Some(value) => {
                let open = match self.decided_up_to() {
                    Some(d) => d < value.seq,
                    None => true,
                };
                if open {
                    proof {
                        lemma_reconciled_wf(self@, value);
                    }
                    if value.seq > 0 {
                        self.discard_after(value.seq - 1);
                        proof {
                            lemma_below_is_prefix(old(self)@, value.seq as int);
                            let b = old(self)@.below(value.seq as int).len() as int;
                            if b < old(self)@.decided {
                                assert(old(self)@.entries[b].seq >= value.seq);
                                assert(b == old(self)@.decided - 1 || old(self)@.entries[b].seq < old(
                                    self,
                                )@.entries[old(self)@.decided - 1].seq);
                            }
                        }
                    } else {
                        proof {
                            lemma_below_is_prefix(old(self)@, 0);
                            assert(old(self)@.decided == 0);
                            assert(old(self)@.below(0).len() == 0) by {
                                if old(self)@.below(0).len() > 0 {
                                    assert(old(self)@.entries[0].seq < 0);
                                }
                            }
                            assert(old(self)@.below(0) =~= Seq::<LogEntry>::empty());
                        }
                        self.entries.clear();
                    }
                    self.entries.push(value);
                }
            },
        }
    }
}

/// Reconciliation keeps the log well formed, holds the agreed value as its
/// newest entry, and rewrites nothing that was decided.
pub proof fn lemma_reconciled_wf(log: LogSpec, value: LogEntry)
    requires
        log.wf(),
        log.open_at(value.seq),
    ensures
        log.reconciled(Some(value)).wf(),
        log.reconciled(Some(value)).last_accepted() == Some(value),
        log.reconciled(Some(value)).decided == log.decided,
        log.reconciled(Some(value)).entries.take(log.decided as int) == log.entries.take(
            log.decided as int,
        ),
        log.below(value.seq as int).len() >= log.decided,
{
    lemma_below_is_prefix(log, value.seq as int);
    let b = log.below(value.seq as int).len() as int;
    if b < log.decided {
        assert(log.entries[b].seq >= value.seq);
        assert(b == log.decided - 1 || log.entries[b].seq < log.entries[log.decided - 1].seq);
    }
    let after = log.reconciled(Some(value));
    assert(after.entries.take(log.decided as int) =~= log.entries.take(log.decided as int));
    assert(after.ascending()) by {
        assert forall|i: int, j: int| 0 <= i < j < after.entries.len() implies after.entries[i].seq
            < after.entries[j].seq by {
            assert(after.entries[i] == log.entries[i]);
            if j < b {
                assert(after.entries[j] == log.entries[j]);
            }
        }
    }
}

/// Reconciling twice with the same value changes nothing the second time.
pub proof fn lemma_reconcile_idempotent(log: LogSpec, synced: Option<LogEntry>)
    requires
        log.wf(),
    ensures
        log.reconciled(synced).reconciled(synced) == log.reconciled(synced),
{
    if let Some(value) = synced {
        if log.open_at(value.seq) {
            lemma_reconciled_wf(log, value);
            let once = log.reconciled(synced);
            let b = log.below(value.seq as int);
            lemma_below_is_prefix(log, value.seq as int);
            assert(once.open_at(value.seq)) by {
                if once.decided > 0 {
                    assert(once.entries[once.decided - 1] == log.entries[log.decided - 1]);
                }
            }
            lemma_filter_prefix(once.entries, value.seq as int, b.len() as int);
            assert(once.entries.take(b.len() as int) =~= b);
        }
    }
}

/// Two logs that agree below the sequence number of the agreed value, and
/// have both left that sequence number undecided, agree up to and
/// including it once both are reconciled with the value.
pub proof fn lemma_reconciliation_agreement(a: LogSpec, b: LogSpec, value: LogEntry)
    requires
        a.wf(),
        b.wf(),
        a.open_at(value.seq),
        b.open_at(value.seq),
        a.below(value.seq as int) == b.below(value.seq as int),
    ensures
        a.reconciled(Some(value)).below(value.seq + 1) == b.reconciled(Some(value)).below(
            value.seq + 1,
        ),
        a.reconciled(Some(value)).below(value.seq + 1) == a.below(value.seq as int).push(value),
        a.reconciled(Some(value)).entries == b.reconciled(Some(value)).entries,
{
    lemma_below_is_prefix(a, value.seq as int);
    let after = a.reconciled(Some(value));
    lemma_filter_prefix(after.entries, value.seq + 1, after.entries.len() as int);
    assert(after.entries.take(after.entries.len() as int) =~= after.entries);
}

/// Up to the sequence number of the agreed value, a reconciled log holds
/// what the log held below that sequence number, followed by what it holds
/// at it.
pub proof fn lemma_reconciled_prefix(log: LogSpec, value: LogEntry)
    requires
        log.wf(),
    ensures
        log.reconciled(Some(value)).below(value.seq + 1) == log.below(value.seq as int) + log.settled(
            value,
        ),
        forall|i: int|
            0 <= i < log.below(value.seq as int).len() ==> (#[trigger] log.below(value.seq as int)[i]).seq
                < value.seq,
        forall|i: int| 0 <= i < log.settled(value).len() ==> (#[trigger] log.settled(value)[i]).seq == value.seq,
{
    let s = value.seq as int;
    lemma_below_is_prefix(log, s);
    lemma_below_is_prefix(log, s + 1);
    let low = log.below(s);
    let high = log.below(s + 1);
    assert forall|i: int| 0 <= i < low.len() implies (#[trigger] low[i]).seq < value.seq by {
        assert(low[i] == log.entries[i]);
    }
    if log.open_at(value.seq) {
        let after = log.reconciled(Some(value));
        lemma_filter_prefix(after.entries, s + 1, after.entries.len() as int);
        assert(after.entries.take(after.entries.len() as int) =~= after.entries);
        assert(low.push(value) =~= low + seq![value]);
    } else {
        if low.len() > high.len() {
            assert(log.entries[high.len() as int].seq >= s + 1);
        }
        assert(high =~= low + high.skip(low.len() as int));
        assert forall|i: int| 0 <= i < log.settled(value).len() implies (#[trigger] log.settled(value)[i]).seq
            == value.seq by {
            assert(log.settled(value)[i] == log.entries[low.len() + i]);
        }
    }
}

/// A run of entries falls apart in one way only into those below a
/// sequence number and those at it.
proof fn lemma_split_unique(
    low_a: Seq<LogEntry>,
    at_a: Seq<LogEntry>,
    low_b: Seq<LogEntry>,
    at_b: Seq<LogEntry>,
    seq: u64,
)
    requires
        low_a + at_a == low_b + at_b,
        forall|i: int| 0 <= i < low_a.len() ==> (#[trigger] low_a[i]).seq < seq,
        forall|i: int| 0 <= i < low_b.len() ==> (#[trigger] low_b[i]).seq < seq,
        forall|i: int| 0 <= i < at_a.len() ==> (#[trigger] at_a[i]).seq == seq,
        forall|i: int| 0 <= i < at_b.len() ==> (#[trigger] at_b[i]).seq == seq,
    ensures
        low_a == low_b,
        at_a == at_b,
{
    let whole = low_a + at_a;
    assert(whole.len() == low_a.len() + at_a.len());
    assert(whole.len() == low_b.len() + at_b.len());
    if low_a.len() < low_b.len() {
        let i = low_a.len() as int;
        assert(whole[i] == at_a[0]);
        assert((low_b + at_b)[i] == low_b[i]);
    }
    if low_b.len() < low_a.len() {
        let i = low_b.len() as int;
        assert((low_b + at_b)[i] == at_b[0]);
        assert(whole[i] == low_a[i]);
    }
    assert(low_a =~= low_b) by {
        assert forall|i: int| 0 <= i < low_a.len() implies low_a[i] == low_b[i] by {
            assert(whole[i] == low_a[i]);
            assert((low_b + at_b)[i] == low_b[i]);
        }
    }
    assert(at_a =~= at_b) by {
        assert forall|i: int| 0 <= i < at_a.len() implies at_a[i] == at_b[i] by {
            assert(whole[low_a.len() + i] == at_a[i]);
            assert((low_b + at_b)[low_b.len() + i] == at_b[i]);
        }
    }
}

/// Two logs reconciled with the same value agree up to and including the
/// sequence number of that value exactly when they agreed below it and
/// hold the same at it afterwards: the value on both sides, or the same
/// decision that both had made before.
pub proof fn lemma_reconciliation_exact(a: LogSpec, b: LogSpec, value: LogEntry)
    requires
        a.wf(),
        b.wf(),
    ensures
        a.reconciled(Some(value)).below(value.seq + 1) == b.reconciled(Some(value)).below(value.seq + 1)
            <==> a.below(value.seq as int) == b.below(value.seq as int) && a.settled(value) == b.settled(
            value,
        ),
{
    lemma_reconciled_prefix(a, value);
    lemma_reconciled_prefix(b, value);
    if a.reconciled(Some(value)).below(value.seq + 1) == b.reconciled(Some(value)).below(value.seq + 1) {
        lemma_split_unique(
            a.below(value.seq as int),
            a.settled(value),
            b.below(value.seq as int),
            b.settled(value),
            value.seq,
        );
    }
}

} // verus!
