//! Per-step accumulator of protocol votes.
//!
//! One collector serves one step of the handshake.  It credits each sender
//! at most once per view, however often that sender repeats itself.

use vstd::prelude::*;
use crate::view_info::NodeId;

verus! {

/// The senders credited for `view` among `votes`, in the order in which
/// they were credited.
pub open spec fn senders_in(votes: Seq<(u64, NodeId)>, view: u64) -> Seq<NodeId>
    decreases votes.len(),
{
    if votes.len() == 0 {
        Seq::empty()
    } else {
        let earlier = senders_in(votes.drop_last(), view);
        if votes.last().0 == view {
            earlier.push(votes.last().1)
        } else {
            earlier
        }
    }
}

/// The senders credited so far, with one more vote taken into account: a
/// sender that was credited before gains nothing.
pub open spec fn credit(senders: Seq<NodeId>, sender: NodeId) -> Seq<NodeId> {
    if senders.contains(sender) {
        senders
    } else {
        senders.push(sender)
    }
}

/// The senders credited after a run of deliveries from one step of the
/// protocol, all for the same view, starting from `senders`.
pub open spec fn credit_all(senders: Seq<NodeId>, deliveries: Seq<NodeId>) -> Seq<NodeId>
    decreases deliveries.len(),
{
    if deliveries.len() == 0 {
        senders
    } else {
        credit(credit_all(senders, deliveries.drop_last()), deliveries.last())
    }
}

proof fn lemma_senders_push(votes: Seq<(u64, NodeId)>, vote: (u64, NodeId), view: u64)
    ensures
        senders_in(votes.push(vote), view) == if vote.0 == view {
            senders_in(votes, view).push(vote.1)
        } else {
            senders_in(votes, view)
        },
{
    assert(votes.push(vote).drop_last() =~= votes);
}

proof fn lemma_senders_contains(votes: Seq<(u64, NodeId)>, view: u64, sender: NodeId)
    ensures
        senders_in(votes, view).contains(sender) <==> votes.contains((view, sender)),
    decreases votes.len(),
{
    if votes.len() > 0 {
        let earlier = votes.drop_last();
        lemma_senders_contains(earlier, view, sender);
        let found = senders_in(earlier, view);
        if votes.contains((view, sender)) {
            let i = choose|i: int| 0 <= i < votes.len() && votes[i] == (view, sender);
            if i < votes.len() - 1 {
                assert(earlier[i] == (view, sender));
                let j = choose|j: int| 0 <= j < found.len() && found[j] == sender;
                assert(senders_in(votes, view)[j] == sender);
            } else {
                assert(senders_in(votes, view).last() == sender);
            }
        }
        if senders_in(votes, view).contains(sender) {
            let j = choose|j: int|
                0 <= j < senders_in(votes, view).len() && senders_in(votes, view)[j] == sender;
            if j < found.len() {
                assert(found[j] == sender);
                let i = choose|i: int| 0 <= i < earlier.len() && earlier[i] == (view, sender);
                assert(votes[i] == (view, sender));
            } else {
                assert(votes[votes.len() - 1] == (view, sender));
            }
        }
    }
}

proof fn lemma_senders_distinct(votes: Seq<(u64, NodeId)>, view: u64)
    requires
        votes.no_duplicates(),
    ensures
        senders_in(votes, view).no_duplicates(),
        senders_in(votes, view).len() <= votes.len(),
    decreases votes.len(),
{
    if votes.len() > 0 {
        let earlier = votes.drop_last();
        lemma_senders_distinct(earlier, view);
        let last = votes.last();
        if last.0 == view {
            lemma_senders_contains(earlier, view, last.1);
            if earlier.contains(last) {
                let i = choose|i: int| 0 <= i < earlier.len() && earlier[i] == last;
                assert(votes[i] == votes[votes.len() - 1]);
            }
        }
    }
}

/// Accumulator of the votes of one protocol step, per view.
#[derive(Debug)]
pub struct Collector {
    votes: Vec<(u64, NodeId)>,
}

impl Collector {
    /// No sender is credited twice for one view.
    pub closed spec fn wf(&self) -> bool {
        self.votes@.no_duplicates()
    }

    /// The senders credited for `view`, in the order of their first vote.
    pub closed spec fn senders(&self, view: u64) -> Seq<NodeId> {
        senders_in(self.votes@, view)
    }

    /// A well-formed collector lists no sender twice.
    pub proof fn lemma_senders_distinct(&self, view: u64)
        requires
            self.wf(),
        ensures
            self.senders(view).no_duplicates(),
    {
        lemma_senders_distinct(self.votes@, view);
    }

    pub fn new() -> (r: Collector)
        ensures
            r.wf(),
            forall|view: u64| r.senders(view) == Seq::<NodeId>::empty(),
    {
        Collector { votes: Vec::new() }
    }

    fn holds(&self, sender: NodeId, view: u64) -> (r: bool)
        ensures
            r == self.senders(view).contains(sender),
    {
        let mut i: usize = 0;
        while i < self.votes.len()
            invariant
                i <= self.votes.len(),
                !self.votes@.take(i as int).contains((view, sender)),
            decreases self.votes.len() - i,
        {
            let vote = self.votes[i];
            if vote.0 == view && vote.1 == sender {
                proof {
                    assert(self.votes@[i as int] == (view, sender));
                    lemma_senders_contains(self.votes@, view, sender);
                }
                return true;
            }
            assert(self.votes@.take(i + 1) =~= self.votes@.take(i as int).push(self.votes@[i as int]));
            i += 1;
        }
        proof {
            assert(self.votes@.take(self.votes.len() as int) =~= self.votes@);
            lemma_senders_contains(self.votes@, view, sender);
        }
        false
    }

    /// Takes the vote of `sender` for `view` into account and says whether
    /// it was newly counted.  A repeated vote changes nothing.
    pub fn record(&mut self, sender: NodeId, view: u64) -> (counted: bool)
        requires
            old(self).wf(),
        ensures
            final(self).wf(),
            counted == !old(self).senders(view).contains(sender),
            final(self).senders(view) == credit(old(self).senders(view), sender),
            forall|other: u64| other != view ==> final(self).senders(other) == old(self).senders(other),
    {
        if self.holds(sender, view) {
            return false;
        }
        proof {
            lemma_senders_contains(self.votes@, view, sender);
            lemma_senders_push(self.votes@, (view, sender), view);
            assert forall|other: u64| other != view implies senders_in(
                self.votes@.push((view, sender)),
                other,
            ) == senders_in(self.votes@, other) by {
                lemma_senders_push(self.votes@, (view, sender), other);
            }
        }
        self.votes.push((view, sender));
        true
    }

    /// Number of distinct senders credited for `view`.
    pub fn count(&self, view: u64) -> (r: usize)
        requires
            self.wf(),
        ensures
            r == self.senders(view).len(),
            r == self.senders(view).to_set().len(),
    {
        let mut n: usize = 0;
        let mut i: usize = 0;
        assert(self.votes@.take(0) =~= Seq::<(u64, NodeId)>::empty());
        while i < self.votes.len()
            invariant
                i <= self.votes.len(),
                n <= i,
                n == senders_in(self.votes@.take(i as int), view).len(),
            decreases self.votes.len() - i,
        {
            proof {
                lemma_senders_push(self.votes@.take(i as int), self.votes@[i as int], view);
                assert(self.votes@.take(i + 1) =~= self.votes@.take(i as int).push(self.votes@[i as int]));
            }
            if self.votes[i].0 == view {
                n += 1;
            }
            i += 1;
        }
        proof {
            assert(self.votes@.take(self.votes.len() as int) =~= self.votes@);
            lemma_senders_distinct(self.votes@, view);
            self.senders(view).unique_seq_to_set();
        }
        n
    }

    /// The senders credited for `view`, in the order of their first vote.
    pub fn senders_of(&self, view: u64) -> (r: Vec<NodeId>)
        ensures
            r@ == self.senders(view),
    {
        let mut out: Vec<NodeId> = Vec::new();
        let mut i: usize = 0;
        assert(self.votes@.take(0) =~= Seq::<(u64, NodeId)>::empty());
        while i < self.votes.len()
            invariant
                i <= self.votes.len(),
                out@ == senders_in(self.votes@.take(i as int), view),
            decreases self.votes.len() - i,
        {
            proof {
                lemma_senders_push(self.votes@.take(i as int), self.votes@[i as int], view);
                assert(self.votes@.take(i + 1) =~= self.votes@.take(i as int).push(self.votes@[i as int]));
            }
            if self.votes[i].0 == view {
                out.push(self.votes[i].1);
            }
            i += 1;
        }
        assert(self.votes@.take(self.votes.len() as int) =~= self.votes@);
        out
    }

    /// Forgets every vote.
    pub fn reset(&mut self)
        ensures
            final(self).wf(),
            forall|view: u64| final(self).senders(view) == Seq::<NodeId>::empty(),
    {
        self.votes.clear();
    }
}

/// The senders credited for `view` after a run of votes for any views,
/// starting from `senders`: votes for other views leave them as they are.
pub open spec fn credit_votes(senders: Seq<NodeId>, votes: Seq<(u64, NodeId)>, view: u64) -> Seq<NodeId>
    decreases votes.len(),
{
    if votes.len() == 0 {
        senders
    } else {
        let earlier = credit_votes(senders, votes.drop_last(), view);
        if votes.last().0 == view {
            credit(earlier, votes.last().1)
        } else {
            earlier
        }
    }
}

/// A vote never lowers the number of senders credited, and raises it by at
/// most one.
pub proof fn lemma_credit_monotone(senders: Seq<NodeId>, sender: NodeId)
    ensures
        senders.len() <= credit(senders, sender).len() <= senders.len() + 1,
        credit(senders, sender).to_set() == senders.to_set().insert(sender),
        senders.no_duplicates() ==> credit(senders, sender).no_duplicates(),
{
    broadcast use vstd::seq_lib::group_seq_properties;
    if !senders.contains(sender) {
        assert(senders.push(sender).to_set() =~= senders.to_set().insert(sender));
    } else {
        assert(senders.to_set().insert(sender) =~= senders.to_set());
    }
}

/// The same vote delivered twice is credited once: the second delivery
/// leaves the collector as the first one left it.
pub proof fn lemma_no_duplicate_credit(senders: Seq<NodeId>, sender: NodeId)
    ensures
        credit(credit(senders, sender), sender) == credit(senders, sender),
        credit(credit(senders, sender), sender).len() <= senders.len() + 1,
{
    if !senders.contains(sender) {
        assert(senders.push(sender).last() == sender);
    }
}

/// Over any run of deliveries for one view the count never decreases, and
/// starting from nothing it equals the number of distinct senders that
/// delivered, so it never exceeds that number.
pub proof fn lemma_quorum_monotone(senders: Seq<NodeId>, deliveries: Seq<NodeId>, upto: int)
    requires
        senders.no_duplicates(),
        0 <= upto <= deliveries.len(),
    ensures
        senders.len() <= credit_all(senders, deliveries.take(upto)).len() <= credit_all(
            senders,
            deliveries,
        ).len(),
        credit_all(senders, deliveries).no_duplicates(),
        credit_all(senders, deliveries).to_set() == senders.to_set().union(deliveries.to_set()),
        credit_all(Seq::<NodeId>::empty(), deliveries).len() == deliveries.to_set().len(),
    decreases deliveries.len(),
{
    broadcast use vstd::seq_lib::group_seq_properties;
    if deliveries.len() == 0 {
        assert(deliveries.take(upto) =~= deliveries);
        assert(senders.to_set().union(deliveries.to_set()) =~= senders.to_set());
        assert(deliveries.to_set() =~= Set::<NodeId>::empty());
    } else {
        let earlier = deliveries.drop_last();
        let last = deliveries.last();
        if upto == deliveries.len() {
            assert(deliveries.take(upto) =~= deliveries);
            lemma_quorum_monotone(senders, earlier, upto - 1);
        } else {
            assert(deliveries.take(upto) =~= earlier.take(upto));
            lemma_quorum_monotone(senders, earlier, upto);
        }
        lemma_credit_monotone(credit_all(senders, earlier), last);
        assert(earlier.push(last) =~= deliveries);
        assert(deliveries.to_set() =~= earlier.to_set().insert(last));
        assert(senders.to_set().union(earlier.to_set()).insert(last) =~= senders.to_set().union(
            deliveries.to_set(),
        ));
        lemma_quorum_monotone(Seq::<NodeId>::empty(), earlier, 0);
        let from_nothing = credit_all(Seq::<NodeId>::empty(), deliveries);
        lemma_credit_monotone(credit_all(Seq::<NodeId>::empty(), earlier), last);
        assert(Seq::<NodeId>::empty().to_set().union(deliveries.to_set()) =~= deliveries.to_set());
        assert(Seq::<NodeId>::empty().to_set().union(earlier.to_set()) =~= earlier.to_set());
        from_nothing.unique_seq_to_set();
    }
    credit_all(Seq::<NodeId>::empty(), deliveries).unique_seq_to_set();
}

/// Over any run of votes, for whatever views, the count for one view
/// never decreases, and starting from nothing it is the number of distinct
/// senders that voted for that view.
pub proof fn lemma_quorum_monotone_any_view(votes: Seq<(u64, NodeId)>, view: u64, upto: int)
    requires
        0 <= upto <= votes.len(),
    ensures
        credit_votes(Seq::empty(), votes.take(upto), view).len() <= credit_votes(
            Seq::empty(),
            votes,
            view,
        ).len(),
        credit_votes(Seq::empty(), votes, view).len() == senders_in(votes, view).to_set().len(),
        credit_votes(Seq::empty(), votes, view).len() <= senders_in(votes, view).len(),
    decreases votes.len() - upto,
{
    lemma_credit_votes(votes, view);
    lemma_credit_votes(votes.take(upto), view);
    lemma_quorum_monotone(Seq::empty(), senders_in(votes, view), 0);
    if upto < votes.len() {
        lemma_quorum_monotone_any_view(votes, view, upto + 1);
        let longer = votes.take(upto + 1);
        assert(longer.drop_last() =~= votes.take(upto));
        lemma_credit_monotone(credit_votes(Seq::empty(), votes.take(upto), view), longer.last().1);
    } else {
        assert(votes.take(upto) =~= votes);
    }
    senders_in(votes, view).lemma_cardinality_of_set();
}

/// Crediting a run of votes for any views is crediting, in order, the
/// senders of those among them that are for the view.
proof fn lemma_credit_votes(votes: Seq<(u64, NodeId)>, view: u64)
    ensures
        credit_votes(Seq::empty(), votes, view) == credit_all(Seq::empty(), senders_in(votes, view)),
    decreases votes.len(),
{
    if votes.len() > 0 {
        lemma_credit_votes(votes.drop_last(), view);
        if votes.last().0 == view {
            let projected = senders_in(votes, view);
            assert(projected.drop_last() =~= senders_in(votes.drop_last(), view));
        }
    }
}

} // verus!
