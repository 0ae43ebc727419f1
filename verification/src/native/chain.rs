//! Per-neuron signal chains: positions, the position hash, chain order of a
//! batch, and the admission of one operation into a batch.
use vstd::prelude::*;
use crate::content::particle_eq;
use crate::hash::{hemera, hemera_hash};
use crate::keyed::Keyed;
use crate::wire::{append, le64, put_u64_le};
use crate::{NeuronId, Particle};
use super::economics::{balance_of, held_in, Balances};
use super::{invalid, Error, Event, EventView, Link, Operation, OperationView, Signal, SignalView, MAX_EVENTS, signal_views};

verus! {

/// The next step and previous hash each known neuron's chain continues from.
pub type Positions = Keyed<(u64, Particle)>;

/// Thirty-two zero bytes: the network of a signal to the sender's own
/// network, and the previous hash of a chain's first signal.
pub open spec fn zero32() -> Seq<u8> {
    Seq::new(32, |_i: int| 0u8)
}

/// The chain-position hash of a signal: Hemera over neuron, step
/// (little-endian), previous hash and network.
pub open spec fn signal_hash(s: SignalView) -> Seq<u8> {
    hemera_hash(s.neuron@ + le64(s.step) + s.prev@ + s.network@)
}

/// The chain-position hash of a signal.
pub fn position_hash(s: &Signal) -> (h: Particle)
    ensures
        h@ == signal_hash(s@),
{
    let mut buf: Vec<u8> = Vec::new();
    append(&mut buf, &s.neuron);
    put_u64_le(&mut buf, s.step);
    append(&mut buf, &s.prev);
    append(&mut buf, &s.network);
    hemera(buf.as_slice())
}

/// Where a neuron's chain continues: from the batch so far, else from the
/// known chains, else from the start (step 0 after thirty-two zero bytes).
pub open spec fn expected(tips: Map<NeuronId, (u64, Particle)>, cur: Map<NeuronId, (u64, Seq<u8>)>, n: NeuronId) -> (u64, Seq<u8>) {
    if cur.contains_key(n) {
        cur[n]
    } else if tips.contains_key(n) {
        (tips[n].0, tips[n].1@)
    } else {
        (0, zero32())
    }
}

/// Every link of the signal is by the signal's own neuron.
pub open spec fn links_own(s: SignalView) -> bool {
    forall|i: int| 0 <= i < s.links.len() ==> #[trigger] s.links[i].neuron == s.neuron
}

/// The chain positions after a batch, where every signal continues its
/// neuron's chain exactly, links only as that neuron, and leaves a next step
/// that fits; `None` otherwise.
pub open spec fn chain_after(tips: Map<NeuronId, (u64, Particle)>, events: Seq<Option<SignalView>>) -> Option<Map<NeuronId, (u64, Seq<u8>)>>
    decreases events.len(),
{
    if events.len() == 0 {
        Some(Map::empty())
    } else {
        match chain_after(tips, events.drop_last()) {
            None => None,
            Some(cur) => match events.last() {
                None => Some(cur),
                Some(s) => {
                    let (step, prev) = expected(tips, cur, s.neuron);
                    if s.step == step && s.prev@ == prev && links_own(s) && step < u64::MAX {
                        Some(cur.insert(s.neuron, ((step + 1) as u64, signal_hash(s))))
                    } else {
                        None
                    }
                },
            },
        }
    }
}

/// A position map of the batch agrees with its mathematical value.
pub open spec fn agrees(m: Map<NeuronId, (u64, Particle)>, v: Map<NeuronId, (u64, Seq<u8>)>) -> bool {
    &&& forall|k: NeuronId| #[trigger] m.contains_key(k) == v.contains_key(k)
    &&& forall|k: NeuronId| #[trigger] m.contains_key(k) ==> m[k].0 == v[k].0 && m[k].1@ == v[k].1
}

fn zero_particle() -> (z: Particle)
    ensures
        z@ == zero32(),
{
    let z: Particle = [0u8; 32];
    proof {
        assert(z@ =~= zero32()) by {
            assert forall|i: int| 0 <= i < 32 implies z@[i] == 0u8 by {
                vstd::array::lemma_array_index(z, i);
            }
        }
    }
    z
}

fn links_by(s: &Signal) -> (r: bool)
    ensures
        r == links_own(s@),
{
    let mut i: usize = 0;
    while i < s.links.len()
        invariant
            i <= s.links@.len(),
            forall|j: int| 0 <= j < i ==> #[trigger] s.links@[j].neuron == s.neuron,
        decreases s.links@.len() - i,
    {
        if !particle_eq(&s.links[i].neuron, &s.neuron) {
            proof {
                assert(s@.links[i as int].neuron != s.neuron);
            }
            return false;
        }
        i = i + 1;
    }
    true
}

/// Once a prefix of the batch breaks chain order, the whole batch does.
proof fn lemma_chain_fail(tips: Map<NeuronId, (u64, Particle)>, events: Seq<Option<SignalView>>, j: int)
    requires
        0 <= j <= events.len(),
        chain_after(tips, events.take(j)) is None,
    ensures
        chain_after(tips, events) is None,
    decreases events.len() - j,
{
    if j < events.len() {
        assert(events.take(j + 1).drop_last() =~= events.take(j));
        lemma_chain_fail(tips, events, j + 1);
    } else {
        assert(events.take(j) =~= events);
    }
}

/// After an accepted batch, every neuron that signed in it continues from a
/// step past each of its signals.
proof fn lemma_chain_steps(tips: Map<NeuronId, (u64, Particle)>, events: Seq<Option<SignalView>>)
    requires
        chain_after(tips, events) is Some,
    ensures
        forall|i: int| 0 <= i < events.len() && #[trigger] events[i] is Some ==> {
            let cur = chain_after(tips, events)->0;
            cur.contains_key(events[i]->0.neuron) && cur[events[i]->0.neuron].0 > events[i]->0.step
        },
    decreases events.len(),
{
    if events.len() > 0 {
        let before = events.drop_last();
        lemma_chain_steps(tips, before);
        let cur0 = chain_after(tips, before)->0;
        assert forall|i: int| 0 <= i < events.len() && #[trigger] events[i] is Some implies {
            let cur = chain_after(tips, events)->0;
            cur.contains_key(events[i]->0.neuron) && cur[events[i]->0.neuron].0 > events[i]->0.step
        } by {
            if i < events.len() - 1 {
                assert(before[i] == events[i]);
                assert(cur0.contains_key(events[i]->0.neuron));
            }
        }
    }
}

/// Chains: an accepted batch never holds two signals of one neuron at the
/// same position; each neuron's signals come in strictly increasing steps.
pub proof fn law_no_equivocation(tips: Map<NeuronId, (u64, Particle)>, events: Seq<Option<SignalView>>, i: int, j: int)
    requires
        chain_after(tips, events) is Some,
        0 <= i < j < events.len(),
        events[i] is Some,
        events[j] is Some,
        events[i]->0.neuron == events[j]->0.neuron,
    ensures
        events[i]->0.step < events[j]->0.step,
{
    if chain_after(tips, events.take(j + 1)) is None {
        lemma_chain_fail(tips, events, j + 1);
    }
    let upto = events.take(j + 1);
    let prefix = events.take(j);
    assert(upto.drop_last() =~= prefix);
    assert(upto.last() == events[j]);
    assert(chain_after(tips, prefix) is Some);
    lemma_chain_steps(tips, prefix);
    assert(prefix[i] == events[i]);
}

/// Check that each signal of a batch continues its neuron's chain: the
/// expected step and previous hash, links only by that neuron, and a next
/// step that fits.
pub fn validate_chains(tips: &Positions, events: &[Option<Signal>]) -> (r: Result<(), Error>)
    ensures
        r is Ok <==> chain_after(tips@, signal_views(events@)) is Some,
        r matches Err(e) ==> e is Invalid,
{
    let ghost views = signal_views(events@);
    let mut cur: Keyed<(u64, Particle)> = Keyed::new();
    let ghost mut spec_cur: Map<NeuronId, (u64, Seq<u8>)> = Map::empty();
    let mut i: usize = 0;
    while i < events.len()
        invariant
            i <= events@.len(),
            views == signal_views(events@),
            chain_after(tips@, views.take(i as int)) == Some(spec_cur),
            agrees(cur@, spec_cur),
        decreases events@.len() - i,
    {
        proof {
            assert(views.take(i + 1).drop_last() =~= views.take(i as int));
        }
        if let Some(signal) = &events[i] {
            proof {
                assert(views[i as int] == Some(signal@));
                assert(views.take(i + 1).last() == Some(signal@));
            }
            let (step, prev) = match cur.get(&signal.neuron) {
                Some(p) => p,
                None => match tips.get(&signal.neuron) {
                    Some(p) => p,
                    None => (0, zero_particle()),
                },
            };
            proof {
                let e = expected(tips@, spec_cur, signal.neuron);
                assert(step == e.0 && prev@ == e.1);
            }
            let fits = signal.step == step && particle_eq(&signal.prev, &prev) && links_by(signal) && step < u64::MAX;
            if !fits {
                proof {
                    lemma_chain_fail(tips@, views, i + 1);
                }
                return Err(invalid("nonsequential signal step, previous hash or link neuron"));
            }
            let h = position_hash(signal);
            cur.set(signal.neuron, (step + 1, h));
            proof {
                spec_cur = spec_cur.insert(signal.neuron, ((step + 1) as u64, signal_hash(signal@)));
            }
        }
        i = i + 1;
    }
    proof {
        assert(views.take(events@.len() as int) =~= views);
    }
    Ok(())
}

/// Where a neuron's next signal goes: after its last known signal, else at
/// the start.
pub fn next_position(tips: &Positions, neuron: &NeuronId) -> (r: (u64, Particle))
    ensures
        r.0 == expected(tips@, Map::empty(), *neuron).0,
        r.1@ == expected(tips@, Map::empty(), *neuron).1,
{
    match tips.get(neuron) {
        Some(p) => p,
        None => (0, zero_particle()),
    }
}

/// An empty signal by `neuron` to its own network at its next position.
pub fn signal_for(tips: &Positions, neuron: NeuronId) -> (s: Signal)
    ensures
        s.neuron == neuron,
        s.network@ == zero32(),
        s.links@.len() == 0,
        s.delta_pi@.len() == 0,
        s.step == expected(tips@, Map::empty(), neuron).0,
        s.prev@ == expected(tips@, Map::empty(), neuron).1,
        s.height == 0,
        !s.proven,
{
    let (step, prev) = next_position(tips, &neuron);
    Signal {
        neuron,
        network: zero_particle(),
        links: Vec::new(),
        delta_pi: Vec::new(),
        prev,
        step,
        height: 0,
        proven: false,
    }
}

/// What an operation admits into a batch: its own events, or one signal
/// built for it together with the payer, for a payment.
pub enum Admission {
    Events(Vec<Event>),
    Built { signal: Signal, payer: Option<NeuronId> },
}

/// The signal a link or payment operation is carried by: an empty signal of
/// the neuron at its next position, with that one link or payment leg.
pub open spec fn built_for(tips: Map<NeuronId, (u64, Particle)>, s: SignalView, neuron: NeuronId) -> bool {
    &&& s.neuron == neuron
    &&& s.network@ == zero32()
    &&& s.step == expected(tips, Map::empty(), neuron).0
    &&& s.prev@ == expected(tips, Map::empty(), neuron).1
    &&& s.height == 0
    &&& !s.proven
}

/// The events one operation brings: a batch of 1 to 64 events as it is; a link as a new
/// signal of its neuron with that link at height 0; a payment, when its
/// amount is positive and the payer holds it, as a new signal of the payer
/// with that payment leg.
pub fn events(operation: Operation, tips: &Positions, balances: &Balances) -> (r: Result<Admission, Error>)
    ensures
        match operation@ {
            OperationView::Events(es) => match r {
                Ok(Admission::Events(out)) => out@.map_values(|e: Event| e@) == es && 1 <= es.len() <= MAX_EVENTS,
                Ok(_) => false,
                Err(e) => (es.len() == 0 || es.len() > MAX_EVENTS) && e is Invalid,
            },
            OperationView::Link { neuron, from, to, token, amount, valence } => match r {
                Ok(Admission::Built { signal, payer }) => {
                    &&& built_for(tips@, signal@, neuron)
                    &&& signal@.links == seq![Link { neuron, from, to, token, amount, valence, height: 0 }]
                    &&& signal@.delta_pi.len() == 0
                    &&& payer is None
                },
                _ => false,
            },
            OperationView::Pay { from, to, amount } => match r {
                Ok(Admission::Built { signal, payer }) => {
                    &&& amount > 0 && amount <= held_in(balances@, from)
                    &&& built_for(tips@, signal@, from)
                    &&& signal@.links.len() == 0
                    &&& signal@.delta_pi == seq![(to, amount)]
                    &&& payer == Some(from)
                },
                Ok(_) => false,
                Err(e) => (amount == 0 || amount > held_in(balances@, from)) && e is Invalid,
            },
        },
{
    match operation {
        Operation::Events(events) => {
            if events.len() == 0 || events.len() > MAX_EVENTS {
                return Err(invalid("event count must be 1..64"));
            }
            Ok(Admission::Events(events))
        },
        Operation::Link { neuron, from, to, token, amount, valence } => {
            let mut signal = signal_for(tips, neuron);
            signal.links.push(Link { neuron, from, to, token, amount, valence, height: 0 });
            proof {
                assert(signal@.links =~= seq![Link { neuron, from, to, token, amount, valence, height: 0 }]);
            }
            Ok(Admission::Built { signal, payer: None })
        },
        Operation::Pay { from, to, amount } => {
            if amount == 0 || balance_of(balances, &from) < amount {
                return Err(invalid("zero payment or insufficient funds"));
            }
            let mut signal = signal_for(tips, from);
            signal.delta_pi.push((to, amount));
            proof {
                assert(signal@.delta_pi =~= seq![(to, amount)]);
            }
            Ok(Admission::Built { signal, payer: Some(from) })
        },
    }
}

} // verus!
