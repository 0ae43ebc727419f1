//! Durable local native execution: the record formats, the ledger and the
//! admission rules of the native node.
use vstd::prelude::*;
use crate::{NeuronId, Particle};

pub mod chain;
pub mod codec;
pub mod commit;
pub mod economics;
pub mod format;
pub mod import;
pub mod laws;
pub mod read;
pub mod recovery;

verus! {

/// Most events in one batch.
pub const MAX_EVENTS: usize = 64;
/// Most bytes in one encoded operation.
pub const MAX_OPERATION_BYTES: usize = 4194304;

/// A declared intent as it is recorded: neuron, inception height, scope
/// hash and signature.
#[derive(Debug, Clone, Copy, PartialEq, Eq)]
pub struct IntentRecord {
    pub neuron: NeuronId,
    pub h0: u64,
    pub scope_hash: Particle,
    pub signature: [u8; 64],
}

/// One cyberlink of a signal: who links, from which particle to which, in
/// which token, with what amount and valence, at which height.
#[derive(Debug, Clone, Copy, PartialEq, Eq)]
pub struct Link {
    pub neuron: NeuronId,
    pub from: Particle,
    pub to: Particle,
    pub token: Particle,
    pub amount: u64,
    pub valence: i8,
    pub height: u64,
}

/// The fields of a signal that admission, chain order and the ledger read:
/// its neuron and network, its links and payments, its chain position
/// (step and previous hash), its height, and whether it carries a proof.
#[derive(Debug)]
pub struct Signal {
    pub neuron: NeuronId,
    pub network: Particle,
    pub links: Vec<Link>,
    pub delta_pi: Vec<(NeuronId, u64)>,
    pub prev: Particle,
    pub step: u64,
    pub height: u64,
    pub proven: bool,
}

/// The mathematical value of a signal.
pub ghost struct SignalView {
    pub neuron: NeuronId,
    pub network: Particle,
    pub links: Seq<Link>,
    pub delta_pi: Seq<(NeuronId, u64)>,
    pub prev: Particle,
    pub step: u64,
    pub height: u64,
    pub proven: bool,
}

impl View for Signal {
    type V = SignalView;

    open spec fn view(&self) -> SignalView {
        SignalView {
            neuron: self.neuron,
            network: self.network,
            links: self.links@,
            delta_pi: self.delta_pi@,
            prev: self.prev,
            step: self.step,
            height: self.height,
            proven: self.proven,
        }
    }
}

/// The signals of a batch in order, `None` where the event is no signal.
pub open spec fn signal_views(events: Seq<Option<Signal>>) -> Seq<Option<SignalView>> {
    events.map_values(|e: Option<Signal>| match e {
        Some(s) => Some(s@),
        None => None,
    })
}

/// One event of a batch. A signal is carried by its canonical signal
/// encoding.
#[derive(Debug)]
pub enum Event {
    Signal(Vec<u8>),
    Intent(IntentRecord),
    /// Trusted local host adjustment; never decoded from peer signal tape.
    LocalCredit { neuron: NeuronId, token: Particle, amount: u64, focus: u64, reason: Particle },
}

/// The mathematical value of an event.
pub ghost enum EventView {
    Signal(Seq<u8>),
    Intent(IntentRecord),
    LocalCredit { neuron: NeuronId, token: Particle, amount: u64, focus: u64, reason: Particle },
}

impl View for Event {
    type V = EventView;

    open spec fn view(&self) -> EventView {
        match self {
            Event::Signal(b) => EventView::Signal(b@),
            Event::Intent(i) => EventView::Intent(*i),
            Event::LocalCredit { neuron, token, amount, focus, reason } => EventView::LocalCredit {
                neuron: *neuron,
                token: *token,
                amount: *amount,
                focus: *focus,
                reason: *reason,
            },
        }
    }
}

/// One command for the native node.
#[derive(Debug)]
#[allow(inconsistent_fields)]
pub enum Operation {
    Link { neuron: NeuronId, from: Particle, to: Particle, token: Particle, amount: u64, valence: i8 },
    Pay { from: NeuronId, to: NeuronId, amount: u64 },
    Events(Vec<Event>),
}

/// The mathematical value of an operation.
#[allow(inconsistent_fields)]
pub ghost enum OperationView {
    Link { neuron: NeuronId, from: Particle, to: Particle, token: Particle, amount: u64, valence: i8 },
    Pay { from: NeuronId, to: NeuronId, amount: u64 },
    Events(Seq<EventView>),
}

impl View for Operation {
    type V = OperationView;

    open spec fn view(&self) -> OperationView {
        match self {
            Operation::Link { neuron, from, to, token, amount, valence } => OperationView::Link {
                neuron: *neuron,
                from: *from,
                to: *to,
                token: *token,
                amount: *amount,
                valence: *valence,
            },
            Operation::Pay { from, to, amount } => OperationView::Pay {
                from: *from,
                to: *to,
                amount: *amount,
            },
            Operation::Events(es) => OperationView::Events(es@.map_values(|e: Event| e@)),
        }
    }
}

/// The durable answer to one accepted request.
#[derive(Debug, Clone, Copy, PartialEq, Eq)]
pub struct Receipt {
    pub request_id: Particle,
    pub position: u64,
    pub height: u64,
    pub root: Particle,
    pub signals: u64,
    pub balance: Option<u64>,
    pub supply: u64,
    pub weight: u64,
    pub timestamp: u64,
    pub applied: u64,
}

/// One committed block; its signal is carried by its canonical encoding.
#[derive(Debug)]
pub struct Block {
    pub height: u64,
    pub timestamp: u64,
    pub supply: u64,
    pub weight: u64,
    pub root: Particle,
    pub signal: Vec<u8>,
}

/// A block without its signal.
#[derive(Debug, Clone, Copy, PartialEq, Eq)]
pub struct BlockSummary {
    pub height: u64,
    pub timestamp: u64,
    pub supply: u64,
    pub weight: u64,
    pub root: Particle,
}

/// The coordinator head of the native history.
#[derive(Debug, Clone, Copy, PartialEq, Eq)]
pub struct Head {
    pub position: u64,
    pub signals: u64,
    pub wire_end: u64,
    pub wire_blocked: bool,
    pub history_hash: Particle,
}

/// One history entry: the request fingerprint, its receipt, the canonical
/// command, and the legacy wire frames it was imported from, if any.
#[derive(Debug)]
pub struct History {
    pub fingerprint: Particle,
    pub receipt: Receipt,
    pub command: Vec<u8>,
    pub original_wire: Option<Vec<Vec<u8>>>,
}

/// The mathematical value of a history entry.
pub ghost struct HistoryRecord {
    pub fingerprint: Particle,
    pub receipt: Receipt,
    pub command: Seq<u8>,
    pub original_wire: Option<Seq<Seq<u8>>>,
}

impl View for History {
    type V = HistoryRecord;

    open spec fn view(&self) -> HistoryRecord {
        HistoryRecord {
            fingerprint: self.fingerprint,
            receipt: self.receipt,
            command: self.command@,
            original_wire: match &self.original_wire {
                None => None,
                Some(frames) => Some(frames@.map_values(|f: Vec<u8>| f@)),
            },
        }
    }
}

/// One history entry for export: its receipt, the canonical operation, and
/// the signals it carried.
#[derive(Debug)]
pub struct HistoryView {
    pub receipt: Receipt,
    pub operation: Vec<u8>,
    pub signals: Vec<Signal>,
}

/// Why a native operation failed.
#[derive(Debug)]
pub enum Error {
    Conflict,
    Invalid(String),
    Limit(String),
    Unsupported(String),
    Storage(String),
    Corrupt(String),
}

/// A rejected operation.
pub fn invalid(s: &str) -> (e: Error)
    ensures
        e matches Error::Invalid(m) && m@ == s@,
{
    Error::Invalid(s.to_owned())
}

/// An inconsistent store.
pub fn corrupt(s: &str) -> (e: Error)
    ensures
        e matches Error::Corrupt(m) && m@ == s@,
{
    Error::Corrupt(s.to_owned())
}

} // verus!
