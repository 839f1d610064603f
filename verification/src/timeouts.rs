//! Escalation of timer firings for the pending request batch.
//!
//! The timeouts layer numbers the timers it arms with increasing sequence
//! numbers.  The sequencer remembers the lowest number that is still live,
//! ignores every firing below it, and tells the first firing for a batch
//! from the second.

use vstd::prelude::*;

verus! {

/// Sequence number of a timer armed by the timeouts layer.
pub type TimeoutSeqNo = i32;

/// What a timer firing means for the pending batch.
#[derive(Clone, Copy, Debug, PartialEq, Eq, Structural)]
pub enum TimeoutSignal {
    /// The timer was superseded: the firing is ignored.
    Stale,
    /// The batch has been pending too long for the first time.
    First,
    /// The batch is still pending after it was escalated once.
    Second,
}

/// Mathematical content of a [`TimeoutSequencer`].
pub struct SequencerSpec {
    /// Lowest sequence number that is still live.
    pub floor: int,
    /// Whether the pending batch has timed out once already.
    pub escalated: bool,
}

impl SequencerSpec {
    pub open spec fn wf(self) -> bool {
        i32::MIN <= self.floor <= i32::MAX + 1
    }

    pub open spec fn initial() -> SequencerSpec {
        SequencerSpec { floor: i32::MIN as int, escalated: false }
    }

    /// The meaning of a firing of the timer numbered `seq`.
    pub open spec fn signal(self, seq: TimeoutSeqNo) -> TimeoutSignal {
        if seq < self.floor {
            TimeoutSignal::Stale
        } else if !self.escalated {
            TimeoutSignal::First
        } else {
            TimeoutSignal::Second
        }
    }

    /// The sequencer after a firing of the timer numbered `seq`: a live
    /// firing retires every timer up to its own and moves the escalation
    /// one stage on; a stale one changes nothing.
    pub open spec fn fired(self, seq: TimeoutSeqNo) -> SequencerSpec {
        if seq < self.floor {
            self
        } else {
            SequencerSpec { floor: seq + 1, escalated: !self.escalated }
        }
    }

    /// The sequencer after the batch watched by the timers up to `seq` was
    /// resolved: those timers are retired and the escalation starts over.
    pub open spec fn resolved(self, seq: TimeoutSeqNo) -> SequencerSpec {
        SequencerSpec {
            floor: if seq + 1 > self.floor {
                seq + 1
            } else {
                self.floor
            },
            escalated: false,
        }
    }

    /// The sequencer with the escalation started over and no timer retired.
    pub open spec fn restarted(self) -> SequencerSpec {
        SequencerSpec { floor: self.floor, escalated: false }
    }
}

/// Tracks the escalation of the timers of the pending batch.
#[derive(Debug)]
pub struct TimeoutSequencer {
    floor: i64,
    escalated: bool,
}

impl View for TimeoutSequencer {
    type V = SequencerSpec;

    closed spec fn view(&self) -> SequencerSpec {
        SequencerSpec { floor: self.floor as int, escalated: self.escalated }
    }
}

impl TimeoutSequencer {
    /// A sequencer for which every timer is live and nothing has fired.
    pub fn new() -> (r: TimeoutSequencer)
        ensures
            r@ == SequencerSpec::initial(),
            r@.wf(),
    {
        TimeoutSequencer { floor: -2147483648, escalated: false }
    }

    /// The meaning of a firing of the timer numbered `seq`, without taking
    /// it into account.
    pub fn peek(&self, seq: TimeoutSeqNo) -> (r: TimeoutSignal)
        ensures
            r == self@.signal(seq),
    {
        if (seq as i64) < self.floor {
            TimeoutSignal::Stale
        } else if !self.escalated {
            TimeoutSignal::First
        } else {
            TimeoutSignal::Second
        }
    }

    /// Takes a firing of the timer numbered `seq` into account and says
    /// what it means.
    pub fn fire(&mut self, seq: TimeoutSeqNo) -> (r: TimeoutSignal)
        requires
            old(self)@.wf(),
        ensures
            r == old(self)@.signal(seq),
            final(self)@ == old(self)@.fired(seq),
            final(self)@.wf(),
    {
        let signal = self.peek(seq);
        match signal {
            TimeoutSignal::Stale => {},
            _ => {
                self.floor = seq as i64 + 1;
                self.escalated = !self.escalated;
            },
        }
        signal
    }

    /// Retires the timers up to `seq` after their batch was resolved.
    pub fn resolve(&mut self, seq: TimeoutSeqNo)
        requires
            old(self)@.wf(),
        ensures
            final(self)@ == old(self)@.resolved(seq),
            final(self)@.wf(),
    {
        if seq as i64 + 1 > self.floor {
            self.floor = seq as i64 + 1;
        }
        self.escalated = false;
    }

    /// Starts the escalation over without retiring any timer.
    pub fn restart(&mut self)
        requires
            old(self)@.wf(),
        ensures
            final(self)@ == old(self)@.restarted(),
            final(self)@.wf(),
    {
        self.escalated = false;
    }
}

/// A timer that fired once is retired: the same firing delivered again is
/// stale and changes nothing.
pub proof fn lemma_refire_is_stale(s: SequencerSpec, seq: TimeoutSeqNo)
    requires
        s.signal(seq) != TimeoutSignal::Stale,
    ensures
        s.fired(seq).signal(seq) == TimeoutSignal::Stale,
        s.fired(seq).fired(seq) == s.fired(seq),
{
}

/// Two live firings in a row for the same batch escalate from the first
/// timeout to the second.
pub proof fn lemma_escalation(s: SequencerSpec, first: TimeoutSeqNo, second: TimeoutSeqNo)
    requires
        !s.escalated,
        s.floor <= first < second,
    ensures
        s.signal(first) == TimeoutSignal::First,
        s.fired(first).signal(second) == TimeoutSignal::Second,
        !s.fired(first).fired(second).escalated,
{
}

} // verus!
