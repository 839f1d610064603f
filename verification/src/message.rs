//! Messages of the view-change handshake and the effects a replica asks
//! its driver to carry out.

use vstd::prelude::*;
use crate::log::LogEntry;
use crate::view_info::NodeId;

verus! {

/// Identifier of a batch of pending client requests.
pub type BatchId = u64;

/// What the message layer vouches for: the identity of the sender.
#[derive(Clone, Copy, Debug, PartialEq, Eq, Structural)]
pub struct Header {
    pub from: NodeId,
}

impl Header {
    pub fn new(from: NodeId) -> (r: Header)
        ensures
            r.from == from,
    {
        Header { from }
    }

    pub fn from(&self) -> (r: NodeId)
        ensures
            r == self.from,
    {
        self.from
    }
}

/// A message of the view-change handshake.
#[derive(Clone, Debug, PartialEq, Eq)]
pub enum ViewChangeMessage {
    /// Request to abandon the leader and move to `view`.
    Stop { view: u64 },
    /// The newest entry the sender has accepted, for the leader of `view`.
    StopData { view: u64, accepted: Option<LogEntry> },
    /// The value the leader of `view` chose, with the replicas whose state
    /// it was chosen from.
    Sync { view: u64, value: Option<LogEntry>, certificate: Vec<NodeId> },
}

/// Mathematical content of a [`ViewChangeMessage`].
pub enum MessageSpec {
    Stop { view: u64 },
    StopData { view: u64, accepted: Option<LogEntry> },
    Sync { view: u64, value: Option<LogEntry>, certificate: Seq<NodeId> },
}

impl MessageSpec {
    /// The view number the message refers to.
    pub open spec fn target(self) -> u64 {
        match self {
            MessageSpec::Stop { view } => view,
            MessageSpec::StopData { view, .. } => view,
            MessageSpec::Sync { view, .. } => view,
        }
    }
}

impl View for ViewChangeMessage {
    type V = MessageSpec;

    open spec fn view(&self) -> MessageSpec {
        match self {
            ViewChangeMessage::Stop { view } => MessageSpec::Stop { view: *view },
            ViewChangeMessage::StopData { view, accepted } => MessageSpec::StopData {
                view: *view,
                accepted: *accepted,
            },
            ViewChangeMessage::Sync { view, value, certificate } => MessageSpec::Sync {
                view: *view,
                value: *value,
                certificate: certificate@,
            },
        }
    }
}

impl ViewChangeMessage {
    /// The view number the message refers to.
    pub fn target(&self) -> (r: u64)
        ensures
            r == self@.target(),
    {
        match self {
            ViewChangeMessage::Stop { view } => *view,
            ViewChangeMessage::StopData { view, .. } => *view,
            ViewChangeMessage::Sync { view, .. } => *view,
        }
    }
}

/// Something a replica asks its driver to do on its behalf.
#[derive(Clone, Debug, PartialEq, Eq)]
pub enum Effect {
    /// Send the message to every replica, the sender included.
    Broadcast(ViewChangeMessage),
    /// Send the message to one replica.
    Send(NodeId, ViewChangeMessage),
    /// Hand the pending batch to the given replica directly.
    ForwardBatch(NodeId, BatchId),
    /// Arm the timer of the batch again.
    Rearm(BatchId),
}

/// Mathematical content of an [`Effect`].
pub enum EffectSpec {
    Broadcast(MessageSpec),
    Send(NodeId, MessageSpec),
    ForwardBatch(NodeId, BatchId),
    Rearm(BatchId),
}

impl View for Effect {
    type V = EffectSpec;

    open spec fn view(&self) -> EffectSpec {
        match self {
            Effect::Broadcast(m) => EffectSpec::Broadcast(m@),
            Effect::Send(to, m) => EffectSpec::Send(*to, m@),
            Effect::ForwardBatch(to, batch) => EffectSpec::ForwardBatch(*to, *batch),
            Effect::Rearm(batch) => EffectSpec::Rearm(*batch),
        }
    }
}

/// The effects of `effects`, each by its content.
pub open spec fn effects_of(effects: Seq<Effect>) -> Seq<EffectSpec> {
    effects.map_values(|e: Effect| e@)
}

/// A replica's handle on the communication layer: its own identity, and
/// the effects it has asked for and the driver has not collected yet.
#[derive(Debug)]
pub struct Node {
    id: NodeId,
    pending: Vec<Effect>,
}

impl Node {
    pub closed spec fn spec_id(&self) -> NodeId {
        self.id
    }

    /// The effects asked for and not collected yet, oldest first.
    pub closed spec fn effects(&self) -> Seq<EffectSpec> {
        effects_of(self.pending@)
    }

    pub fn new(id: NodeId) -> (r: Node)
        ensures
            r.spec_id() == id,
            r.effects() == Seq::<EffectSpec>::empty(),
    {
        let r = Node { id, pending: Vec::new() };
        assert(r.effects() =~= Seq::<EffectSpec>::empty());
        r
    }

    pub fn id(&self) -> (r: NodeId)
        ensures
            r == self.spec_id(),
    {
        self.id
    }

    /// Number of effects waiting for the driver.
    pub fn pending_len(&self) -> (r: usize)
        ensures
            r == self.effects().len(),
    {
        self.pending.len()
    }

    /// Asks the driver for one more effect.
    pub fn emit(&mut self, effect: Effect)
        ensures
            final(self).spec_id() == old(self).spec_id(),
            final(self).effects() == old(self).effects().push(effect@),
    {
        self.pending.push(effect);
        assert(self.effects() =~= old(self).effects().push(effect@));
    }

    /// Hands the waiting effects to the driver, oldest first, and leaves
    /// none behind.
    pub fn take_effects(&mut self) -> (r: Vec<Effect>)
        ensures
            final(self).spec_id() == old(self).spec_id(),
            final(self).effects() == Seq::<EffectSpec>::empty(),
            effects_of(r@) == old(self).effects(),
    {
        let mut out: Vec<Effect> = Vec::new();
        std::mem::swap(&mut out, &mut self.pending);
        assert(self.effects() =~= Seq::<EffectSpec>::empty());
        out
    }
}

} // verus!
