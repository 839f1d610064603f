//! The view-change state machine.
//!
//! A replica that suspects its leader runs a three-step handshake with the
//! others: STOP to abandon the view, STOP-DATA to tell the next leader what
//! each has accepted, and SYNC by which the next leader announces the value
//! the new view starts from.  [`SyncSpec`] states every transition as a
//! function of the state and the event; [`Synchronizer`] carries them out.

use vstd::prelude::*;
use crate::collector::Collector;
use crate::log::{Log, LogEntry, LogSpec};
use crate::message::{BatchId, Effect, EffectSpec, Header, MessageSpec, Node, ViewChangeMessage};
use crate::timeouts::{SequencerSpec, TimeoutSeqNo, TimeoutSequencer, TimeoutSignal};
use crate::view_info::{lemma_leader_is_member, NodeId, ViewInfo, ViewSpec};

verus! {

/// Most messages for later views that a replica holds back at one time.
pub const BUFFER_LIMIT: usize = 64;

/// The stage of the handshake a replica is in.  The count a stage carries
/// is the number of messages of that stage credited so far for the view the
/// change aims at.
///
/// The first three stages lie outside the handshake and are treated alike.
/// No transition enters the two watching stages: how far the timers of a
/// batch have escalated is kept by the timeout sequencer, so that a first
/// timeout leaves the stage as it is.
#[derive(Clone, Copy, Debug, PartialEq, Eq, Structural)]
pub enum ProtoPhase {
    /// Nothing is happening.
    Init,
    /// The timers of a batch of client requests are being watched.
    WatchingTimeout,
    /// The batch timed out once and its timers were armed again.
    Watching2ndTimeout,
    /// Collecting STOP messages; fewer than `f + 1` were seen.
    Stopping(usize),
    /// Collecting STOP messages; at least `f + 1` were seen, so at least
    /// one correct replica wants the change.
    Stopping2(usize),
    /// A quorum wants the change; the next leader collects STOP-DATA.
    StoppingData(usize),
    /// Waiting for the SYNC of the next leader.
    Syncing(usize),
}

impl ProtoPhase {
    /// Whether the replica is outside the handshake.
    pub open spec fn idle(self) -> bool {
        self is Init || self is WatchingTimeout || self is Watching2ndTimeout
    }

    pub fn is_idle(&self) -> (r: bool)
        ensures
            r == self.idle(),
    {
        match self {
            ProtoPhase::Init | ProtoPhase::WatchingTimeout | ProtoPhase::Watching2ndTimeout => true,
            _ => false,
        }
    }
}

/// What the dispatch layer has to do after an event.
#[derive(Debug, PartialEq, Eq)]
pub enum SynchronizerStatus {
    /// No view change is running: ordinary traffic goes on.
    Nil,
    /// A view change is running: ordinary traffic is held back.
    Running,
    /// A view was installed just now.
    NewView(ViewInfo),
}

/// Mathematical content of a [`SynchronizerStatus`].
pub enum StatusSpec {
    Nil,
    Running,
    NewView(ViewSpec),
}

impl View for SynchronizerStatus {
    type V = StatusSpec;

    open spec fn view(&self) -> StatusSpec {
        match self {
            SynchronizerStatus::Nil => StatusSpec::Nil,
            SynchronizerStatus::Running => StatusSpec::Running,
            SynchronizerStatus::NewView(v) => StatusSpec::NewView(v@),
        }
    }
}

/// Whether a reported entry can have been accepted while `view` was
/// current: it names that view or an earlier one.
pub open spec fn report_valid(report: Option<LogEntry>, view: ViewSpec) -> bool {
    report matches Some(entry) ==> entry.view <= view.view_number
}

/// The higher-numbered of the entry chosen so far and a newly reported
/// one; the earlier report wins a tie.
pub open spec fn better(best: Option<LogEntry>, report: Option<LogEntry>) -> Option<LogEntry> {
    match (best, report) {
        (_, None) => best,
        (None, Some(_)) => report,
        (Some(b), Some(p)) => if p.seq > b.seq {
            report
        } else {
            best
        },
    }
}

/// The entry chosen from a run of reports, oldest first: the
/// highest-numbered entry reported, and nothing where nothing was
/// reported.
pub open spec fn chosen(reports: Seq<Option<LogEntry>>) -> Option<LogEntry>
    decreases reports.len(),
{
    if reports.len() == 0 {
        None
    } else {
        better(chosen(reports.drop_last()), reports.last())
    }
}

/// The messages held back, with one more: at the limit the oldest gives
/// way.
pub open spec fn stashed(held: Seq<(NodeId, MessageSpec)>, item: (NodeId, MessageSpec)) -> Seq<
    (NodeId, MessageSpec),
> {
    if held.len() >= BUFFER_LIMIT {
        held.remove(0).push(item)
    } else {
        held.push(item)
    }
}

/// Position, at `from` or later, of the oldest message held back that is
/// no longer ahead of the view number `target`; the number of messages if
/// there is none.
pub open spec fn next_due(held: Seq<(NodeId, MessageSpec)>, target: int, from: int) -> int
    decreases held.len() - from,
{
    if from < 0 || from >= held.len() {
        held.len() as int
    } else if held[from].1.target() <= target {
        from
    } else {
        next_due(held, target, from + 1)
    }
}

/// Whether a message held back shows that the cluster has moved on to a
/// view beyond the one that `view` would change to: it is a SYNC for such
/// a view, sent by the leader of that view, with a certificate that names
/// a quorum of distinct members.
pub open spec fn supersedes(view: ViewSpec, item: (NodeId, MessageSpec)) -> bool {
    match item.1 {
        MessageSpec::Sync { view: number, certificate, .. } => {
            &&& number > view.target()
            &&& item.0 == view.at(number).leader()
            &&& view.covers_quorum(certificate)
        },
        _ => false,
    }
}

/// Position, at `from` or later, of the oldest message held back that
/// supersedes a change from `view`; the number of messages if there is
/// none.
pub open spec fn next_superseding(held: Seq<(NodeId, MessageSpec)>, view: ViewSpec, from: int) -> int
    decreases held.len() - from,
{
    if from < 0 || from >= held.len() {
        held.len() as int
    } else if supersedes(view, held[from]) {
        from
    } else {
        next_superseding(held, view, from + 1)
    }
}

/// Mathematical content of a [`Synchronizer`].
pub struct SyncSpec {
    pub phase: ProtoPhase,
    pub view: ViewSpec,
    pub timeouts: SequencerSpec,
    /// Senders credited with a STOP for the next view.
    pub stops: Seq<NodeId>,
    /// Senders credited with a STOP-DATA for the next view.
    pub stop_data: Seq<NodeId>,
    /// What those senders reported as the newest entry they had accepted,
    /// in the same order.
    pub reports: Seq<Option<LogEntry>>,
    /// Messages for later views, oldest first.
    pub buffered: Seq<(NodeId, MessageSpec)>,
}

/// What an event leads to.
pub struct Outcome {
    pub state: SyncSpec,
    pub log: LogSpec,
    /// Effects asked of the driver, in order.
    pub effects: Seq<EffectSpec>,
    pub status: StatusSpec,
}

impl SyncSpec {
    /// The stage agrees with what was collected: the count that a stage
    /// carries is the number of senders credited for it, the thresholds
    /// that separate the stages are respected, and outside the handshake
    /// nothing is collected.
    pub open spec fn wf(self) -> bool {
        &&& self.view.valid()
        &&& self.timeouts.wf()
        &&& self.buffered.len() <= BUFFER_LIMIT
        &&& self.stops.no_duplicates()
        &&& self.stop_data.no_duplicates()
        &&& forall|i: int| 0 <= i < self.stops.len() ==> self.view.is_member(#[trigger] self.stops[i])
        &&& forall|i: int|
            0 <= i < self.stop_data.len() ==> self.view.is_member(#[trigger] self.stop_data[i])
        &&& self.reports.len() == self.stop_data.len()
        &&& forall|i: int| 0 <= i < self.reports.len() ==> report_valid(#[trigger] self.reports[i], self.view)
        &&& match self.phase {
            ProtoPhase::Stopping(c) => {
                &&& self.view.has_successor()
                &&& c == self.stops.len()
                &&& 1 <= c < self.view.small_quorum()
                &&& self.stop_data.len() == 0
            },
            ProtoPhase::Stopping2(c) => {
                &&& self.view.has_successor()
                &&& c == self.stops.len()
                &&& self.view.small_quorum() <= c < self.view.quorum_size()
                &&& self.stop_data.len() == 0
            },
            ProtoPhase::StoppingData(c) => {
                &&& self.view.has_successor()
                &&& self.stops.len() >= self.view.quorum_size()
                &&& c == self.stop_data.len()
                &&& c < self.view.quorum_size()
            },
            ProtoPhase::Syncing(c) => {
                &&& self.view.has_successor()
                &&& self.stops.len() >= self.view.quorum_size()
                &&& c == 0
            },
            _ => {
                &&& self.stops.len() == 0
                &&& self.stop_data.len() == 0
            },
        }
    }

    /// A replica that has just started in `view`.
    pub open spec fn initial(view: ViewSpec) -> SyncSpec {
        SyncSpec {
            phase: ProtoPhase::Init,
            view,
            timeouts: SequencerSpec::initial(),
            stops: Seq::empty(),
            stop_data: Seq::empty(),
            reports: Seq::empty(),
            buffered: Seq::empty(),
        }
    }

    /// The status that goes with the stage alone.
    pub open spec fn status(self) -> StatusSpec {
        if self.phase.idle() {
            StatusSpec::Nil
        } else {
            StatusSpec::Running
        }
    }

    /// The replica with `view` in place of its view: back outside the
    /// handshake, with nothing collected and the escalation started over.
    /// What was held back for later views stays.
    pub open spec fn installed(self, view: ViewSpec) -> SyncSpec {
        SyncSpec {
            phase: ProtoPhase::Init,
            view,
            timeouts: self.timeouts.restarted(),
            stops: Seq::empty(),
            stop_data: Seq::empty(),
            reports: Seq::empty(),
            buffered: self.buffered,
        }
    }

    /// A view handed in from outside is installed if its number is higher
    /// than the current one, and left aside otherwise.
    pub open spec fn with_view(self, view: ViewSpec) -> SyncSpec {
        if view.view_number > self.view.view_number {
            self.installed(view)
        } else {
            self
        }
    }

    /// The event changes nothing and asks for nothing.
    pub open spec fn ignore(self, log: LogSpec) -> Outcome {
        Outcome { state: self, log, effects: Seq::empty(), status: self.status() }
    }

    /// The stage that the number of STOP messages credited calls for.  With
    /// a quorum the replica reports the newest entry it has accepted to the
    /// next leader, itself included, and waits for STOP-DATA or SYNC.
    pub open spec fn after_stops(self, log: LogSpec) -> Outcome {
        let c = self.stops.len();
        if c >= self.view.quorum_size() {
            Outcome {
                state: SyncSpec { phase: ProtoPhase::StoppingData(0), ..self },
                log,
                effects: seq![
                    EffectSpec::Send(
                        self.view.next_leader(),
                        MessageSpec::StopData {
                            view: self.view.target() as u64,
                            accepted: log.last_accepted(),
                        },
                    ),
                ],
                status: StatusSpec::Running,
            }
        } else if c >= self.view.small_quorum() {
            Outcome {
                state: SyncSpec { phase: ProtoPhase::Stopping2(c as usize), ..self },
                log,
                effects: Seq::empty(),
                status: StatusSpec::Running,
            }
        } else {
            Outcome {
                state: SyncSpec { phase: ProtoPhase::Stopping(c as usize), ..self },
                log,
                effects: Seq::empty(),
                status: StatusSpec::Running,
            }
        }
    }

    /// A STOP for the next view from a member.
    pub open spec fn on_stop(self, log: LogSpec, from: NodeId) -> Outcome {
        if (self.phase is Stopping || self.phase is Stopping2) && !self.stops.contains(from) {
            SyncSpec { stops: self.stops.push(from), ..self }.after_stops(log)
        } else {
            self.ignore(log)
        }
    }

    /// A STOP-DATA for the next view from a member.  Only the next leader
    /// collects them, one per sender, and only those whose entry can have
    /// been accepted by now.  With a quorum of them it announces the
    /// highest-numbered entry reported, and names the senders.
    pub open spec fn on_stop_data(
        self,
        me: NodeId,
        log: LogSpec,
        from: NodeId,
        report: Option<LogEntry>,
    ) -> Outcome {
        if self.phase is StoppingData && me == self.view.next_leader() && report_valid(report, self.view)
            && !self.stop_data.contains(from) {
            let collected = self.stop_data.push(from);
            let reports = self.reports.push(report);
            if collected.len() >= self.view.quorum_size() {
                Outcome {
                    state: SyncSpec { phase: ProtoPhase::Syncing(0), stop_data: collected, reports, ..self },
                    log,
                    effects: seq![
                        EffectSpec::Broadcast(
                            MessageSpec::Sync {
                                view: self.view.target() as u64,
                                value: chosen(reports),
                                certificate: collected,
                            },
                        ),
                    ],
                    status: StatusSpec::Running,
                }
            } else {
                Outcome {
                    state: SyncSpec {
                        phase: ProtoPhase::StoppingData(collected.len() as usize),
                        stop_data: collected,
                        reports,
                        ..self
                    },
                    log,
                    effects: Seq::empty(),
                    status: StatusSpec::Running,
                }
            }
        } else {
            self.ignore(log)
        }
    }

    /// Whether the replica waits for the SYNC of the next leader: it is in
    /// the last stage, or it has sent its STOP-DATA and collects none.
    pub open spec fn awaits_sync(self, me: NodeId) -> bool {
        self.phase is Syncing || (self.phase is StoppingData && me != self.view.next_leader())
    }

    /// Whether a SYNC for the next view is accepted: the replica waits for
    /// one, the next leader sent it, and its certificate names a quorum of
    /// distinct members.
    pub open spec fn accepts_sync(self, me: NodeId, from: NodeId, certificate: Seq<NodeId>) -> bool {
        &&& self.awaits_sync(me)
        &&& from == self.view.next_leader()
        &&& self.view.covers_quorum(certificate)
    }

    /// A SYNC for the next view from a member.  An accepted one installs
    /// the next view and reconciles the log with the value it carries.
    pub open spec fn on_sync(
        self,
        me: NodeId,
        log: LogSpec,
        from: NodeId,
        value: Option<LogEntry>,
        certificate: Seq<NodeId>,
    ) -> Outcome {
        if self.accepts_sync(me, from, certificate) {
            Outcome {
                state: self.installed(self.view.successor()),
                log: log.reconciled(value),
                effects: Seq::empty(),
                status: StatusSpec::NewView(self.view.successor()),
            }
        } else {
            self.ignore(log)
        }
    }

    /// What the message `m`, sent by `from`, leads to at the replica `me`.
    ///
    /// A message from a stranger, or for a view number below the next one,
    /// is dropped.  One for a view number beyond the next one is held back.
    /// One for the next view is handed to the stage it belongs to.
    pub open spec fn step_message(self, me: NodeId, log: LogSpec, from: NodeId, m: MessageSpec) -> Outcome {
        if !self.view.is_member(from) || m.target() < self.view.target() {
            self.ignore(log)
        } else if m.target() > self.view.target() {
            Outcome {
                state: SyncSpec { buffered: stashed(self.buffered, (from, m)), ..self },
                log,
                effects: Seq::empty(),
                status: self.status(),
            }
        } else {
            match m {
                MessageSpec::Stop { .. } => self.on_stop(log, from),
                MessageSpec::StopData { accepted, .. } => self.on_stop_data(me, log, from, accepted),
                MessageSpec::Sync { value, certificate, .. } => self.on_sync(
                    me,
                    log,
                    from,
                    value,
                    certificate,
                ),
            }
        }
    }

    /// Whether the replica `me` can start a view change: a next view
    /// exists and the replica is a member of the cluster.
    pub open spec fn can_begin(self, me: NodeId) -> bool {
        self.view.has_successor() && self.view.is_member(me)
    }

    /// The start of a view change at the replica `me`: it counts its own
    /// STOP and broadcasts it.
    pub open spec fn begin(self, me: NodeId, log: LogSpec) -> Outcome {
        let counted = SyncSpec { stops: seq![me], ..self }.after_stops(log);
        Outcome {
            effects: seq![
                EffectSpec::Broadcast(MessageSpec::Stop { view: self.view.target() as u64 }),
            ] + counted.effects,
            ..counted
        }
    }

    /// What a firing of the timer numbered `seq`, armed for `batch`, leads
    /// to at the replica `me`.
    ///
    /// Inside the handshake timers change nothing, and a stale timer never
    /// does.  The first live firing has the batch handed to the leader and
    /// its timer armed again.  The second starts a view change.
    pub open spec fn step_timeout(self, me: NodeId, log: LogSpec, seq: TimeoutSeqNo, batch: BatchId) -> Outcome {
        if !self.phase.idle() {
            self.ignore(log)
        } else {
            let fired = SyncSpec { timeouts: self.timeouts.fired(seq), ..self };
            match self.timeouts.signal(seq) {
                TimeoutSignal::Stale => self.ignore(log),
                TimeoutSignal::First => Outcome {
                    state: fired,
                    log,
                    effects: seq![
                        EffectSpec::ForwardBatch(self.view.leader(), batch),
                        EffectSpec::Rearm(batch),
                    ],
                    status: StatusSpec::Nil,
                },
                TimeoutSignal::Second => if self.can_begin(me) {
                    fired.begin(me, log)
                } else {
                    fired.ignore(log)
                },
            }
        }
    }

    /// What looking for a superseding message among those held back leads
    /// to.  Inside the handshake the oldest such message ends the attempt
    /// in progress: the view it names is installed directly, the log is
    /// reconciled with the value it carries, and the message is held no
    /// longer.  Otherwise nothing changes.
    pub open spec fn caught_up(self, log: LogSpec) -> Outcome {
        let at = next_superseding(self.buffered, self.view, 0);
        if self.phase.idle() || at >= self.buffered.len() {
            self.ignore(log)
        } else {
            match self.buffered[at].1 {
                MessageSpec::Sync { view: number, value, .. } => Outcome {
                    state: SyncSpec {
                        buffered: self.buffered.remove(at),
                        ..self.installed(self.view.at(number))
                    },
                    log: log.reconciled(value),
                    effects: Seq::empty(),
                    status: StatusSpec::NewView(self.view.at(number)),
                },
                _ => self.ignore(log),
            }
        }
    }

    /// The message that `poll` hands back, and the replica without it.
    /// Inside the handshake that is the oldest message held back that is
    /// no longer ahead of the next view; outside it nothing is handed back.
    pub open spec fn polled(self) -> (Option<(NodeId, MessageSpec)>, SyncSpec) {
        let at = next_due(self.buffered, self.view.target(), 0);
        if self.phase.idle() || at >= self.buffered.len() {
            (None, self)
        } else {
            (Some(self.buffered[at]), SyncSpec { buffered: self.buffered.remove(at), ..self })
        }
    }
}

/// A well-formed replica stays well formed when a view is installed.
pub proof fn lemma_installed_wf(s: SyncSpec, view: ViewSpec)
    requires
        s.wf(),
        view.valid(),
    ensures
        s.installed(view).wf(),
        s.with_view(view).wf(),
{
}

/// Every message leaves a well-formed replica and a well-formed log well
/// formed.
pub proof fn lemma_step_message_wf(s: SyncSpec, me: NodeId, log: LogSpec, from: NodeId, m: MessageSpec)
    requires
        s.wf(),
        log.wf(),
    ensures
        s.step_message(me, log, from, m).state.wf(),
        s.step_message(me, log, from, m).log.wf(),
{
    lemma_leader_is_member(s.view);
    if s.view.is_member(from) && m.target() == s.view.target() {
        match m {
            MessageSpec::Stop { .. } => {
                if (s.phase is Stopping || s.phase is Stopping2) && !s.stops.contains(from) {
                    lemma_credited_wf(s.stops, from, s.view);
                }
            },
            MessageSpec::StopData { accepted, .. } => {
                if s.phase is StoppingData && !s.stop_data.contains(from) {
                    lemma_credited_wf(s.stop_data, from, s.view);
                }
            },
            MessageSpec::Sync { value, certificate, .. } => {
                if s.accepts_sync(me, from, certificate) {
                    lemma_installed_wf(s, s.view.successor());
                    if let Some(v) = value {
                        if log.open_at(v.seq) {
                            crate::log::lemma_reconciled_wf(log, v);
                        }
                    }
                }
            },
        }
    }
}

/// Catching up leaves a well-formed replica and a well-formed log well
/// formed, and never lowers the view number.
pub proof fn lemma_caught_up_wf(s: SyncSpec, log: LogSpec)
    requires
        s.wf(),
        log.wf(),
    ensures
        s.caught_up(log).state.wf(),
        s.caught_up(log).log.wf(),
        s.caught_up(log).state.view.view_number >= s.view.view_number,
        s.caught_up(log).status is NewView ==> s.caught_up(log).state.view.view_number
            > s.view.view_number + 1,
{
    let at = next_superseding(s.buffered, s.view, 0);
    lemma_next_superseding(s.buffered, s.view, 0);
    if !s.phase.idle() && at < s.buffered.len() {
        match s.buffered[at].1 {
            MessageSpec::Sync { view: number, value, .. } => {
                lemma_installed_wf(s, s.view.at(number));
                if let Some(v) = value {
                    if log.open_at(v.seq) {
                        crate::log::lemma_reconciled_wf(log, v);
                    }
                }
            },
            _ => {},
        }
    }
}

/// The position that `next_superseding` gives is that of a superseding
/// message, unless it is the number of messages.
pub proof fn lemma_next_superseding(held: Seq<(NodeId, MessageSpec)>, view: ViewSpec, from: int)
    requires
        0 <= from,
    ensures
        from <= next_superseding(held, view, from) || next_superseding(held, view, from) == held.len(),
        next_superseding(held, view, from) < held.len() ==> supersedes(
            view,
            held[next_superseding(held, view, from)],
        ),
    decreases held.len() - from,
{
    if from < held.len() && !supersedes(view, held[from]) {
        lemma_next_superseding(held, view, from + 1);
    }
}

/// The position that `next_due` gives is that of a message that is no
/// longer ahead, unless it is the number of messages.
pub proof fn lemma_next_due(held: Seq<(NodeId, MessageSpec)>, target: int, from: int)
    requires
        0 <= from,
    ensures
        from <= next_due(held, target, from) || next_due(held, target, from) == held.len(),
        next_due(held, target, from) < held.len() ==> held[next_due(held, target, from)].1.target()
            <= target,
        forall|i: int| from <= i < next_due(held, target, from) ==> (#[trigger] held[i]).1.target() > target,
    decreases held.len() - from,
{
    if from < held.len() && held[from].1.target() > target {
        lemma_next_due(held, target, from + 1);
    }
}

/// Every timer firing leaves a well-formed replica well formed.
pub proof fn lemma_step_timeout_wf(s: SyncSpec, me: NodeId, log: LogSpec, seq: TimeoutSeqNo, batch: BatchId)
    requires
        s.wf(),
        log.wf(),
    ensures
        s.step_timeout(me, log, seq, batch).state.wf(),
        s.step_timeout(me, log, seq, batch).log == log,
{
    if s.phase.idle() && s.timeouts.signal(seq) == TimeoutSignal::Second && s.can_begin(me) {
        assert(seq![me].no_duplicates());
        assert(seq![me][0] == me);
    }
}

/// One more member among the senders credited keeps them distinct members.
proof fn lemma_credited_wf(senders: Seq<NodeId>, from: NodeId, view: ViewSpec)
    requires
        senders.no_duplicates(),
        forall|i: int| 0 <= i < senders.len() ==> view.is_member(#[trigger] senders[i]),
        view.is_member(from),
        !senders.contains(from),
    ensures
        senders.push(from).no_duplicates(),
        forall|i: int| 0 <= i < senders.push(from).len() ==> view.is_member(#[trigger] senders.push(from)[i]),
{
}

/// The content of the messages held back.
pub open spec fn held_of(items: Seq<(Header, ViewChangeMessage)>) -> Seq<(NodeId, MessageSpec)> {
    items.map_values(|p: (Header, ViewChangeMessage)| (p.0.from, p.1@))
}

/// The view number under which the votes for the next view are kept.
spec fn key(view: ViewSpec) -> u64 {
    if view.has_successor() {
        (view.view_number + 1) as u64
    } else {
        0
    }
}

/// The view-change engine of one replica.
#[derive(Debug)]
pub struct Synchronizer {
    phase: ProtoPhase,
    timeout_seq: TimeoutSequencer,
    view: ViewInfo,
    stops: Collector,
    stop_data: Collector,
    reports: Vec<Option<LogEntry>>,
    buffered: Vec<(Header, ViewChangeMessage)>,
}

impl Synchronizer {
    /// The state of the replica as the transitions of [`SyncSpec`] see it.
    pub closed spec fn model(&self) -> SyncSpec {
        SyncSpec {
            phase: self.phase,
            view: self.view@,
            timeouts: self.timeout_seq@,
            stops: self.stops.senders(key(self.view@)),
            stop_data: self.stop_data.senders(key(self.view@)),
            reports: self.reports@,
            buffered: held_of(self.buffered@),
        }
    }

    pub closed spec fn wf(&self) -> bool {
        &&& self.stops.wf()
        &&& self.stop_data.wf()
        &&& self.model().wf()
    }

    /// A well-formed replica has a well-formed state.
    pub proof fn lemma_wf(&self)
        requires
            self.wf(),
        ensures
            self.model().wf(),
    {
    }

    /// A replica that starts in `view`, outside the handshake.
    pub fn new(view: ViewInfo) -> (r: Synchronizer)
        ensures
            r.wf(),
            r.model() == SyncSpec::initial(view@),
    {
        proof {
            use_type_invariant(&view);
        }
        let r = Synchronizer {
            phase: ProtoPhase::Init,
            timeout_seq: TimeoutSequencer::new(),
            view,
            stops: Collector::new(),
            stop_data: Collector::new(),
            reports: Vec::new(),
            buffered: Vec::new(),
        };
        assert(held_of(r.buffered@) =~= Seq::<(NodeId, MessageSpec)>::empty());
        r
    }

    /// The current view.
    pub fn view(&self) -> (r: &ViewInfo)
        ensures
            r@ == self.model().view,
    {
        &self.view
    }

    /// The stage of the handshake the replica is in.
    pub fn phase(&self) -> (r: ProtoPhase)
        ensures
            r == self.model().phase,
    {
        self.phase
    }

    /// Number of messages held back for later views.
    pub fn buffered_len(&self) -> (r: usize)
        ensures
            r == self.model().buffered.len(),
    {
        self.buffered.len()
    }

    /// The status that goes with the current stage.
    fn status(&self) -> (r: SynchronizerStatus)
        ensures
            r@ == self.model().status(),
    {
        if self.phase.is_idle() {
            SynchronizerStatus::Nil
        } else {
            SynchronizerStatus::Running
        }
    }

    /// Forgets what was collected and leaves the handshake, under `view`.
    fn enter(&mut self, view: ViewInfo)
        requires
            old(self).wf(),
        ensures
            final(self).wf(),
            final(self).model() == old(self).model().installed(view@),
    {
        proof {
            use_type_invariant(&view);
            lemma_installed_wf(self.model(), view@);
        }
        self.phase = ProtoPhase::Init;
        self.view = view;
        self.stops.reset();
        self.stop_data.reset();
        self.reports.clear();
        self.timeout_seq.restart();
    }

    /// Installs a view obtained outside the handshake, such as one that a
    /// state transfer brought.  A view whose number is not higher than the
    /// current one is left aside.
    pub fn install_view(&mut self, view: ViewInfo)
        requires
            old(self).wf(),
        ensures
            final(self).wf(),
            final(self).model() == old(self).model().with_view(view@),
    {
        if view.view_number() > self.view.view_number() {
            self.enter(view);
        }
    }

    /// Retires the timers up to `seq` after their batch was resolved.
    pub fn batch_resolved(&mut self, seq: TimeoutSeqNo)
        requires
            old(self).wf(),
        ensures
            final(self).wf(),
            final(self).model() == (SyncSpec {
                timeouts: old(self).model().timeouts.resolved(seq),
                ..old(self).model()
            }),
    {
        self.timeout_seq.resolve(seq);
    }

    /// Holds a message for a later view back.
    fn hold_back(&mut self, header: Header, message: ViewChangeMessage)
        requires
            old(self).wf(),
        ensures
            final(self).wf(),
            final(self).model() == (SyncSpec {
                buffered: stashed(old(self).model().buffered, (header.from, message@)),
                ..old(self).model()
            }),
    {
        if self.buffered.len() >= BUFFER_LIMIT {
            self.buffered.remove(0);
            assert(held_of(self.buffered@) =~= held_of(old(self).buffered@).remove(0));
        }
        let ghost before = self.buffered@;
        self.buffered.push((header, message));
        assert(held_of(self.buffered@) =~= held_of(before).push((header.from, message@)));
    }

    /// Moves to the stage that the number of STOP messages credited calls
    /// for.
    fn after_stops(&mut self, target: u64, log: &Log, node: &mut Node)
        requires
            old(self).stops.wf(),
            old(self).model().view.has_successor(),
            target == old(self).model().view.target(),
        ensures
            final(self).stops.wf(),
            final(self).model() == old(self).model().after_stops(log@).state,
            final(self).stop_data == old(self).stop_data,
            final(node).effects() == old(node).effects() + old(self).model().after_stops(log@).effects,
            final(node).spec_id() == old(node).spec_id(),
    {
        proof {
            use_type_invariant(&self.view);
        }
        let c = self.stops.count(target);
        if c >= self.view.quorum_size() {
            let leader = self.view.next_leader().unwrap();
            let accepted = log.last_accepted_proof();
            node.emit(Effect::Send(leader, ViewChangeMessage::StopData { view: target, accepted }));
            self.phase = ProtoPhase::StoppingData(0);
            assert(node.effects() =~= old(node).effects() + old(self).model().after_stops(log@).effects);
        } else if c >= self.view.small_quorum() {
            self.phase = ProtoPhase::Stopping2(c);
            assert(node.effects() =~= old(node).effects() + old(self).model().after_stops(log@).effects);
        } else {
            self.phase = ProtoPhase::Stopping(c);
            assert(node.effects() =~= old(node).effects() + old(self).model().after_stops(log@).effects);
        }
    }

    /// Advances the view-change state machine by one message.
    ///
    /// `header` carries the sender that the message layer vouches for,
    /// `log` is the replica's operation log, and `node` takes the messages
    /// that the replica wants sent.  The result is the one that
    /// [`SyncSpec::step_message`] states.
    pub fn process_message(
        &mut self,
        header: Header,
        message: ViewChangeMessage,
        log: &mut Log,
        node: &mut Node,
    ) -> (status: SynchronizerStatus)
        requires
            old(self).wf(),
            old(log)@.wf(),
        ensures
            final(self).wf(),
            final(log)@.wf(),
            final(node).spec_id() == old(node).spec_id(),
            ({
                let out = old(self).model().step_message(
                    old(node).spec_id(),
                    old(log)@,
                    header.from,
                    message@,
                );
                &&& final(self).model() == out.state
                &&& final(log)@ == out.log
                &&& final(node).effects() == old(node).effects() + out.effects
                &&& status@ == out.status
            }),
    {
        proof {
            use_type_invariant(&self.view);
            lemma_step_message_wf(self.model(), node.spec_id(), log@, header.from, message@);
            lemma_leader_is_member(self.view@);
            assert(node.effects() + Seq::<EffectSpec>::empty() =~= node.effects());
        }
        let me = node.id();
        let from = header.from;
        if !self.view.is_member(from) {
            return self.status();
        }
        let target = match self.view.target() {
            Some(t) => t,
            None => {
                return self.status();
            },
        };
        let aim = message.target();
        if aim < target {
            return self.status();
        }
        if aim > target {
            self.hold_back(header, message);
            return self.status();
        }
        match message {
            ViewChangeMessage::Stop { .. } => {
                match self.phase {
                    ProtoPhase::Stopping(_) | ProtoPhase::Stopping2(_) => {
                        if self.stops.record(from, target) {
                            assert(self.model() == (SyncSpec {
                                stops: old(self).model().stops.push(from),
                                ..old(self).model()
                            }));
                            self.after_stops(target, log, node);
                            SynchronizerStatus::Running
                        } else {
                            self.status()
                        }
                    },
                    _ => self.status(),
                }
            },
            ViewChangeMessage::StopData { accepted, .. } => {
                let valid = match accepted {
                    Some(entry) => entry.view <= self.view.view_number(),
                    None => true,
                };
                let leader = self.view.next_leader().unwrap();
                match self.phase {
                    ProtoPhase::StoppingData(_) => {
                        if me == leader && valid && self.stop_data.record(from, target) {
                            self.reports.push(accepted);
                            let c = self.stop_data.count(target);
                            if c >= self.view.quorum_size() {
                                let certificate = self.stop_data.senders_of(target);
                                let value = select(&self.reports);
                                node.emit(
                                    Effect::Broadcast(ViewChangeMessage::Sync { view: target, value, certificate }),
                                );
                                self.phase = ProtoPhase::Syncing(0);
                            } else {
                                self.phase = ProtoPhase::StoppingData(c);
                            }
                            assert(node.effects() =~= old(node).effects() + old(self).model().step_message(
                                old(node).spec_id(),
                                old(log)@,
                                header.from,
                                message@,
                            ).effects);
                            SynchronizerStatus::Running
                        } else {
                            self.status()
                        }
                    },
                    _ => self.status(),
                }
            },
            ViewChangeMessage::Sync { value, certificate, .. } => {
                let leader = self.view.next_leader().unwrap();
                let waiting = match self.phase {
                    ProtoPhase::Syncing(_) => true,
                    ProtoPhase::StoppingData(_) => me != leader,
                    _ => false,
                };
                if waiting && from == leader && self.view.covers_quorum(&certificate) {
                    let next = self.view.successor().unwrap();
                    let installed = next.duplicate();
                    log.reconcile(value);
                    self.enter(next);
                    SynchronizerStatus::NewView(installed)
                } else {
                    self.status()
                }
            },
        }
    }

    /// Handles a firing of the timer numbered `seq`, armed for `batch`.
    ///
    /// The result is the one that [`SyncSpec::step_timeout`] states.
    pub fn timed_out(&mut self, seq: TimeoutSeqNo, batch: BatchId, log: &Log, node: &mut Node) -> (status:
        SynchronizerStatus)
        requires
            old(self).wf(),
            log@.wf(),
        ensures
            final(self).wf(),
            final(node).spec_id() == old(node).spec_id(),
            ({
                let out = old(self).model().step_timeout(old(node).spec_id(), log@, seq, batch);
                &&& final(self).model() == out.state
                &&& final(node).effects() == old(node).effects() + out.effects
                &&& status@ == out.status
            }),
    {
        proof {
            use_type_invariant(&self.view);
            lemma_step_timeout_wf(self.model(), node.spec_id(), log@, seq, batch);
            assert(node.effects() + Seq::<EffectSpec>::empty() =~= node.effects());
        }
        if !self.phase.is_idle() {
            return SynchronizerStatus::Running;
        }
        let me = node.id();
        match self.timeout_seq.fire(seq) {
            TimeoutSignal::Stale => SynchronizerStatus::Nil,
            TimeoutSignal::First => {
                node.emit(Effect::ForwardBatch(self.view.leader(), batch));
                node.emit(Effect::Rearm(batch));
                assert(node.effects() =~= old(node).effects() + old(self).model().step_timeout(
                    old(node).spec_id(),
                    log@,
                    seq,
                    batch,
                ).effects);
                SynchronizerStatus::Nil
            },
            TimeoutSignal::Second => {
                match self.view.target() {
                    Some(target) => {
                        if self.view.is_member(me) {
                            self.stops.record(me, target);
                            assert(self.stops.senders(target) =~= seq![me]);
                            node.emit(Effect::Broadcast(ViewChangeMessage::Stop { view: target }));
                            let ghost fired = SyncSpec {
                                timeouts: old(self).model().timeouts.fired(seq),
                                ..old(self).model()
                            };
                            assert(self.model() == (SyncSpec { stops: seq![me], ..fired }));
                            self.after_stops(target, log, node);
                            assert(node.effects() =~= old(node).effects() + fired.begin(me, log@).effects);
                            SynchronizerStatus::Running
                        } else {
                            SynchronizerStatus::Nil
                        }
                    },
                    None => SynchronizerStatus::Nil,
                }
            },
        }
    }

    /// Looks among the messages held back for one that shows that the
    /// cluster has moved on to a later view, and follows it there.
    ///
    /// The result is the one that [`SyncSpec::caught_up`] states.
    pub fn catch_up(&mut self, log: &mut Log) -> (status: SynchronizerStatus)
        requires
            old(self).wf(),
            old(log)@.wf(),
        ensures
            final(self).wf(),
            final(log)@.wf(),
            final(self).model() == old(self).model().caught_up(old(log)@).state,
            final(log)@ == old(self).model().caught_up(old(log)@).log,
            status@ == old(self).model().caught_up(old(log)@).status,
    {
        proof {
            use_type_invariant(&self.view);
            lemma_caught_up_wf(self.model(), log@);
        }
        if self.phase.is_idle() {
            return SynchronizerStatus::Nil;
        }
        let target = self.view.target();
        let ghost held = held_of(self.buffered@);
        let mut i: usize = 0;
        while i < self.buffered.len()
            invariant
                i <= self.buffered.len(),
                self.wf(),
                !self.phase.idle(),
                self.model() == old(self).model(),
                *log == *old(log),
                log@.wf(),
                held == held_of(self.buffered@),
                target == self.view@.next_number(),
                next_superseding(held, self.view@, 0) == next_superseding(held, self.view@, i as int),
            decreases self.buffered.len() - i,
        {
            assert(held[i as int] == (self.buffered@[i as int].0.from, self.buffered@[i as int].1@));
            let from = self.buffered[i].0.from;
            let found = match &self.buffered[i].1 {
                ViewChangeMessage::Sync { view, certificate, .. } => {
                    let beyond = match target {
                        Some(t) => *view > t,
                        None => false,
                    };
                    beyond && from == self.view.leader_at(*view) && self.view.covers_quorum(certificate)
                },
                _ => false,
            };
            if found {
                let item = self.buffered.remove(i);
                assert(held_of(self.buffered@) =~= held.remove(i as int));
                match item.1 {
                    ViewChangeMessage::Sync { view, value, .. } => {
                        let next = self.view.at(view);
                        let installed = next.duplicate();
                        log.reconcile(value);
                        self.enter(next);
                        return SynchronizerStatus::NewView(installed);
                    },
                    _ => {
                        return SynchronizerStatus::Running;
                    },
                }
            }
            i += 1;
        }
        SynchronizerStatus::Running
    }

    /// Hands back the oldest message held back that is no longer ahead of
    /// the replica, for the driver to deliver again.  Outside the handshake
    /// nothing is handed back.
    pub fn poll(&mut self) -> (r: Option<(Header, ViewChangeMessage)>)
        requires
            old(self).wf(),
        ensures
            final(self).wf(),
            final(self).model() == old(self).model().polled().1,
            match r {
                Some(p) => old(self).model().polled().0 == Some((p.0.from, p.1@)),
                None => old(self).model().polled().0 is None,
            },
    {
        if self.phase.is_idle() {
            return None;
        }
        let target = self.view.target();
        let ghost held = held_of(self.buffered@);
        let ghost aim = self.view@.target();
        let mut i: usize = 0;
        while i < self.buffered.len()
            invariant
                i <= self.buffered.len(),
                self.wf(),
                !self.phase.idle(),
                self.model() == old(self).model(),
                held == held_of(self.buffered@),
                aim == self.view@.target(),
                target == self.view@.next_number(),
                next_due(held, aim, 0) == next_due(held, aim, i as int),
            decreases self.buffered.len() - i,
        {
            assert(held[i as int] == (self.buffered@[i as int].0.from, self.buffered@[i as int].1@));
            let due = match target {
                Some(t) => self.buffered[i].1.target() <= t,
                None => true,
            };
            if due {
                let item = self.buffered.remove(i);
                assert(held_of(self.buffered@) =~= held.remove(i as int));
                return Some(item);
            }
            i += 1;
        }
        None
    }
}

/// The higher-numbered of the entry chosen so far and a newly reported one.
fn pick(best: Option<LogEntry>, report: Option<LogEntry>) -> (r: Option<LogEntry>)
    ensures
        r == better(best, report),
{
    match (best, report) {
        (_, None) => best,
        (None, Some(_)) => report,
        (Some(b), Some(p)) => if p.seq > b.seq {
            report
        } else {
            best
        },
    }
}

/// The highest-numbered entry among `reports`; the earliest of them where
/// several share that number.
pub fn select(reports: &Vec<Option<LogEntry>>) -> (r: Option<LogEntry>)
    ensures
        r == chosen(reports@),
{
    let mut best: Option<LogEntry> = None;
    let mut i: usize = 0;
    assert(reports@.take(0) =~= Seq::<Option<LogEntry>>::empty());
    while i < reports.len()
        invariant
            i <= reports.len(),
            best == chosen(reports@.take(i as int)),
        decreases reports.len() - i,
    {
        assert(reports@.take(i + 1).drop_last() =~= reports@.take(i as int));
        best = pick(best, reports[i]);
        i += 1;
    }
    assert(reports@.take(reports.len() as int) =~= reports@);
    best
}

} // verus!
