//! What holds of the state machine over whole runs of events.

use vstd::prelude::*;
use crate::log::{lemma_reconciliation_exact, LogEntry, LogSpec};
use crate::message::{BatchId, EffectSpec, MessageSpec};
use crate::sync::{
    chosen, lemma_caught_up_wf, lemma_installed_wf, lemma_next_due, lemma_next_superseding,
    lemma_step_message_wf, lemma_step_timeout_wf, next_superseding, supersedes, Outcome, ProtoPhase,
    StatusSpec, SyncSpec,
};
use crate::timeouts::TimeoutSeqNo;
use crate::view_info::{lemma_quorum_bounds, NodeId, ViewSpec};

verus! {

/// Something the driver does to a replica.
pub enum Event {
    /// Delivers a protocol message from the sender the message layer
    /// vouches for.
    Message { from: NodeId, message: MessageSpec },
    /// Reports a firing of the timer numbered `seq`, armed for `batch`.
    Timeout { seq: TimeoutSeqNo, batch: BatchId },
    /// Reports that the batch watched by the timers up to `seq` was
    /// resolved.
    Resolved { seq: TimeoutSeqNo },
    /// Takes back a message that was held back.
    Poll,
    /// Has the replica look for a later view among the messages held back.
    CatchUp,
    /// Installs a view obtained outside the handshake.
    Install { view: ViewSpec },
}

/// Whether the event can occur: a view handed in from outside is valid.
pub open spec fn admissible(event: Event) -> bool {
    event matches Event::Install { view } ==> view.valid()
}

/// What one event leads to at the replica `me`.
pub open spec fn step(s: SyncSpec, me: NodeId, log: LogSpec, event: Event) -> Outcome {
    match event {
        Event::Message { from, message } => s.step_message(me, log, from, message),
        Event::Timeout { seq, batch } => s.step_timeout(me, log, seq, batch),
        Event::Resolved { seq } => SyncSpec { timeouts: s.timeouts.resolved(seq), ..s }.ignore(log),
        Event::Poll => s.polled().1.ignore(log),
        Event::CatchUp => s.caught_up(log),
        Event::Install { view } => s.with_view(view).ignore(log),
    }
}

/// One admissible event leaves a well-formed replica and a well-formed log
/// well formed.
pub proof fn lemma_step_wf(s: SyncSpec, me: NodeId, log: LogSpec, event: Event)
    requires
        s.wf(),
        log.wf(),
        admissible(event),
    ensures
        step(s, me, log, event).state.wf(),
        step(s, me, log, event).log.wf(),
{
    match event {
        Event::Message { from, message } => {
            lemma_step_message_wf(s, me, log, from, message);
        },
        Event::Timeout { seq, batch } => {
            lemma_step_timeout_wf(s, me, log, seq, batch);
        },
        Event::Resolved { seq } => {},
        Event::Poll => {
            lemma_next_due(s.buffered, s.view.target(), 0);
        },
        Event::CatchUp => {
            lemma_caught_up_wf(s, log);
        },
        Event::Install { view } => {
            lemma_installed_wf(s, view);
        },
    }
}

/// The replica and its log after a run of events, handled one at a time in
/// the order of their arrival.
pub open spec fn run(s: SyncSpec, me: NodeId, log: LogSpec, events: Seq<Event>) -> (SyncSpec, LogSpec)
    decreases events.len(),
{
    if events.len() == 0 {
        (s, log)
    } else {
        let (earlier, earlier_log) = run(s, me, log, events.drop_last());
        let out = step(earlier, me, earlier_log, events.last());
        (out.state, out.log)
    }
}

/// How many of the seven stages a stage is.
pub open spec fn stages_held(phase: ProtoPhase) -> nat {
    let one = |b: bool| if b { 1nat } else { 0nat };
    one(phase is Init) + one(phase is WatchingTimeout) + one(phase is Watching2ndTimeout) + one(
        phase is Stopping,
    ) + one(phase is Stopping2) + one(phase is StoppingData) + one(phase is Syncing)
}

/// After any run of events a replica is in exactly one stage, and that
/// stage agrees with what the replica has collected: the state stays well
/// formed, and so does the log.
pub proof fn lemma_single_active_phase(s: SyncSpec, me: NodeId, log: LogSpec, events: Seq<Event>)
    requires
        s.wf(),
        log.wf(),
        forall|i: int| 0 <= i < events.len() ==> admissible(#[trigger] events[i]),
    ensures
        stages_held(run(s, me, log, events).0.phase) == 1,
        run(s, me, log, events).0.wf(),
        run(s, me, log, events).1.wf(),
    decreases events.len(),
{
    if events.len() > 0 {
        assert forall|i: int| 0 <= i < events.drop_last().len() implies admissible(
            #[trigger] events.drop_last()[i],
        ) by {
            assert(events.drop_last()[i] == events[i]);
        }
        lemma_single_active_phase(s, me, log, events.drop_last());
        let (earlier, earlier_log) = run(s, me, log, events.drop_last());
        assert(admissible(events[events.len() - 1]));
        lemma_step_wf(earlier, me, earlier_log, events.last());
    }
}

/// The same STOP delivered twice is credited once: the second delivery
/// leaves the replica and its log as the first one left them and asks for
/// nothing, and the two together raise the number of senders credited by
/// one at most.
pub proof fn lemma_repeated_stop_ignored(s: SyncSpec, me: NodeId, log: LogSpec, from: NodeId, view: u64)
    requires
        s.wf(),
        log.wf(),
        view <= s.view.target(),
    ensures
        ({
            let stop = MessageSpec::Stop { view };
            let once = s.step_message(me, log, from, stop);
            let twice = once.state.step_message(me, once.log, from, stop);
            &&& twice.state == once.state
            &&& twice.log == once.log
            &&& twice.effects == Seq::<EffectSpec>::empty()
            &&& once.state.stops.len() <= s.stops.len() + 1
            &&& twice.state.stops.len() <= s.stops.len() + 1
        }),
{
    let stop = MessageSpec::Stop { view };
    let once = s.step_message(me, log, from, stop);
    if s.view.is_member(from) && view == s.view.target() && (s.phase is Stopping || s.phase is Stopping2)
        && !s.stops.contains(from) {
        assert(s.stops.push(from).last() == from);
        assert(once.state.stops.contains(from));
    }
}

/// Whether the event is a message for a view number that is not beyond
/// `installed`.
pub open spec fn stale(event: Event, installed: u64) -> bool {
    match event {
        Event::Message { message, .. } => message.target() <= installed,
        _ => false,
    }
}

/// Whether every event is a message for a view number that is not beyond
/// `installed`.
pub open spec fn all_stale(events: Seq<Event>, installed: u64) -> bool {
    forall|i: int| 0 <= i < events.len() ==> stale(#[trigger] events[i], installed)
}

/// A message for the installed view or an earlier one is dropped: it
/// changes neither the replica nor the log, asks for nothing, and yields
/// the status that goes with the stage.
pub proof fn lemma_stale_message_dropped(s: SyncSpec, me: NodeId, log: LogSpec, from: NodeId, m: MessageSpec)
    requires
        m.target() <= s.view.view_number,
    ensures
        s.step_message(me, log, from, m) == s.ignore(log),
        s.phase.idle() ==> s.step_message(me, log, from, m).status == StatusSpec::Nil,
{
}

/// Once a view is installed, delivering any STOP, STOP-DATA or SYNC for
/// that view or an earlier one again, in any number and order, changes
/// neither the installed view nor the log: the log is not reconciled a
/// second time.
pub proof fn lemma_idempotent_resync(s: SyncSpec, me: NodeId, log: LogSpec, events: Seq<Event>)
    requires
        all_stale(events, s.view.view_number),
    ensures
        run(s, me, log, events) == (s, log),
    decreases events.len(),
{
    if events.len() > 0 {
        let earlier = events.drop_last();
        assert forall|i: int| 0 <= i < earlier.len() implies stale(
            #[trigger] earlier[i],
            s.view.view_number,
        ) by {
            assert(earlier[i] == events[i]);
        }
        lemma_idempotent_resync(s, me, log, earlier);
        assert(stale(events[events.len() - 1], s.view.view_number));
    }
}

/// A view is installed inside the handshake only on the word of the
/// leader of that view, given with a certificate that names a quorum of
/// distinct members: by a SYNC for the next view at a replica that waits
/// for it, or by a SYNC for a later view that was held back.  The number of
/// the view installed is higher than that of the current one, and the log
/// is reconciled with the value of that SYNC.  No other message, and no
/// timer, changes the view or the log.
pub proof fn lemma_new_view_needs_quorum(s: SyncSpec, me: NodeId, log: LogSpec, event: Event)
    requires
        s.wf(),
    ensures
        step(s, me, log, event).status is NewView ==> !s.phase.idle(),
        step(s, me, log, event).status is NewView ==> match event {
            Event::Message { from, message } => {
                &&& message matches MessageSpec::Sync { view, value, certificate }
                &&& view == s.view.target()
                &&& s.accepts_sync(me, from, certificate)
                &&& from == s.view.successor().leader()
                &&& s.view.support(certificate) >= s.view.quorum_size()
                &&& step(s, me, log, event).status == StatusSpec::NewView(s.view.successor())
                &&& step(s, me, log, event).state.view == s.view.successor()
                &&& step(s, me, log, event).state.view.view_number == s.view.view_number + 1
                &&& step(s, me, log, event).state.phase is Init
                &&& step(s, me, log, event).log == log.reconciled(value)
            },
            Event::CatchUp => {
                let at = next_superseding(s.buffered, s.view, 0);
                &&& 0 <= at < s.buffered.len()
                &&& supersedes(s.view, s.buffered[at])
                &&& s.buffered[at].1 matches MessageSpec::Sync { view, value, certificate }
                &&& s.buffered[at].0 == s.view.at(view).leader()
                &&& s.view.support(certificate) >= s.view.quorum_size()
                &&& step(s, me, log, event).status == StatusSpec::NewView(s.view.at(view))
                &&& step(s, me, log, event).state.view == s.view.at(view)
                &&& view > s.view.view_number + 1
                &&& step(s, me, log, event).state.phase is Init
                &&& step(s, me, log, event).log == log.reconciled(value)
            },
            _ => false,
        },
        !(step(s, me, log, event).status is NewView || event is Install) ==> {
            &&& step(s, me, log, event).state.view == s.view
            &&& step(s, me, log, event).log == log
        },
        event matches Event::Install { view } ==> {
            &&& step(s, me, log, event).log == log
            &&& step(s, me, log, event).state.view == if view.view_number > s.view.view_number {
                view
            } else {
                s.view
            }
        },
{
    crate::view_info::lemma_leader_is_member(s.view);
    lemma_next_superseding(s.buffered, s.view, 0);
}

/// The next leader announces a value only once it has credited a quorum
/// of distinct members with a STOP-DATA, never from fewer, and only after
/// a quorum asked for the change.
pub proof fn lemma_sync_needs_quorum(s: SyncSpec, me: NodeId, log: LogSpec, event: Event, at: int)
    requires
        s.wf(),
        log.wf(),
        admissible(event),
        0 <= at < step(s, me, log, event).effects.len(),
        step(s, me, log, event).effects[at] matches EffectSpec::Broadcast(m) && m is Sync,
    ensures
        me == s.view.next_leader(),
        step(s, me, log, event).state.phase is Syncing,
        step(s, me, log, event).state.stop_data.len() >= s.view.quorum_size(),
        step(s, me, log, event).state.reports.len() == step(s, me, log, event).state.stop_data.len(),
        step(s, me, log, event).state.stops.len() >= s.view.quorum_size(),
        step(s, me, log, event).effects[at] == EffectSpec::Broadcast(
            MessageSpec::Sync {
                view: s.view.target() as u64,
                value: chosen(step(s, me, log, event).state.reports),
                certificate: step(s, me, log, event).state.stop_data,
            },
        ),
{
    lemma_quorum_bounds(s.view);
}

/// The number of the current view never goes down over a run.
pub proof fn lemma_view_number_monotone(s: SyncSpec, me: NodeId, log: LogSpec, events: Seq<Event>)
    requires
        s.wf(),
        log.wf(),
        forall|i: int| 0 <= i < events.len() ==> admissible(#[trigger] events[i]),
    ensures
        run(s, me, log, events).0.view.view_number >= s.view.view_number,
    decreases events.len(),
{
    if events.len() > 0 {
        assert forall|i: int| 0 <= i < events.drop_last().len() implies admissible(
            #[trigger] events.drop_last()[i],
        ) by {
            assert(events.drop_last()[i] == events[i]);
        }
        lemma_view_number_monotone(s, me, log, events.drop_last());
        lemma_single_active_phase(s, me, log, events.drop_last());
        let (earlier, earlier_log) = run(s, me, log, events.drop_last());
        lemma_new_view_needs_quorum(earlier, me, earlier_log, events.last());
    }
}

/// Two replicas in the same view that both accept a SYNC carrying the same
/// value install the same view number.  Their reconciled logs agree up to
/// and including the sequence number of that value exactly when the logs
/// agreed below it and hold the same at it afterwards; they do where the
/// logs agreed below it and neither replica had decided it.
pub proof fn lemma_reconciliation_safety(
    a: SyncSpec,
    a_me: NodeId,
    a_log: LogSpec,
    a_certificate: Seq<NodeId>,
    b: SyncSpec,
    b_me: NodeId,
    b_log: LogSpec,
    b_certificate: Seq<NodeId>,
    from: NodeId,
    value: Option<LogEntry>,
)
    requires
        a.wf(),
        b.wf(),
        a_log.wf(),
        b_log.wf(),
        a.view.view_number == b.view.view_number,
        a.accepts_sync(a_me, from, a_certificate),
        b.accepts_sync(b_me, from, b_certificate),
    ensures
        ({
            let a_out = a.on_sync(a_me, a_log, from, value, a_certificate);
            let b_out = b.on_sync(b_me, b_log, from, value, b_certificate);
            &&& a_out.status == StatusSpec::NewView(a.view.successor())
            &&& b_out.status == StatusSpec::NewView(b.view.successor())
            &&& a_out.state.view.view_number == b_out.state.view.view_number
            &&& a_out.state.view.view_number == a.view.view_number + 1
            &&& match value {
                Some(v) => {
                    &&& a_out.log.below(v.seq + 1) == b_out.log.below(v.seq + 1) <==> a_log.below(
                        v.seq as int,
                    ) == b_log.below(v.seq as int) && a_log.settled(v) == b_log.settled(v)
                    &&& a_log.open_at(v.seq) && b_log.open_at(v.seq) && a_log.below(v.seq as int)
                        == b_log.below(v.seq as int) ==> {
                        &&& a_out.log.below(v.seq + 1) == b_out.log.below(v.seq + 1)
                        &&& a_out.log.last_accepted() == Some(v)
                        &&& b_out.log.last_accepted() == Some(v)
                    }
                },
                None => a_out.log == a_log && b_out.log == b_log,
            }
        }),
{
    if let Some(v) = value {
        lemma_reconciliation_exact(a_log, b_log, v);
        if a_log.open_at(v.seq) && b_log.open_at(v.seq) {
            crate::log::lemma_reconciled_wf(a_log, v);
            crate::log::lemma_reconciled_wf(b_log, v);
        }
    }
}

/// The entry chosen from a run of reports is one of those reported, none
/// reported is numbered higher, and nothing is chosen only where nothing
/// was reported.
pub proof fn lemma_chosen_is_highest(reports: Seq<Option<LogEntry>>)
    ensures
        match chosen(reports) {
            Some(entry) => {
                &&& reports.contains(Some(entry))
                &&& forall|i: int|
                    0 <= i < reports.len() ==> ((#[trigger] reports[i]) matches Some(other) ==> other.seq
                        <= entry.seq)
            },
            None => forall|i: int| 0 <= i < reports.len() ==> (#[trigger] reports[i]) is None,
        },
    decreases reports.len(),
{
    if reports.len() > 0 {
        let earlier = reports.drop_last();
        lemma_chosen_is_highest(earlier);
        let result = chosen(reports);
        match result {
            Some(entry) => {
                if result == reports.last() {
                    assert(reports[reports.len() - 1] == Some(entry));
                } else {
                    let at = choose|at: int| 0 <= at < earlier.len() && earlier[at] == Some(entry);
                    assert(reports[at] == Some(entry));
                }
                assert forall|i: int| 0 <= i < reports.len() implies ((#[trigger] reports[i]) matches Some(
                    other,
                ) ==> other.seq <= entry.seq) by {
                    if i < reports.len() - 1 {
                        assert(earlier[i] == reports[i]);
                    }
                }
            },
            None => {
                assert forall|i: int| 0 <= i < reports.len() implies (#[trigger] reports[i]) is None by {
                    if i < reports.len() - 1 {
                        assert(earlier[i] == reports[i]);
                    }
                }
            },
        }
    }
}

} // verus!
