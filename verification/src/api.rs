//! The public API: intent scopes and their hash, signals, the in-memory
//! processor with its three lifecycle verbs (`intend`, `seal`, `link`) and
//! its query verb, subscription filters, emitted events, and which events a
//! filter lets through.
use vstd::prelude::*;
use bbg::Bbg;
use foculus::chain::SignalChain;
use foculus::chain as sync;
use foculus::chain::ChainError as Refusal;
use crate::content::particle_eq;
use crate::hash::{hemera, hemera_collision_free, hemera_hash};
use crate::wire::{append, le64, put_u64_le};
use crate::{NeuronId, Particle};

verus! {

/// Structured description of an intended action.
#[derive(Debug, Clone)]
pub struct Scope {
    pub target: Particle,
    pub predicate: Vec<u8>,
    pub deadline: Option<u64>,
    pub constraints: Vec<u8>,
}

/// The canonical hash of a scope: Hemera over the target, the predicate,
/// the deadline (zero without one) as a little-endian `u64`, and the
/// constraints.
pub open spec fn scope_hash(target: Particle, predicate: Seq<u8>, deadline: Option<u64>, constraints: Seq<u8>) -> Seq<u8> {
    hemera_hash(target@ + predicate + le64(match deadline { Some(d) => d, None => 0 }) + constraints)
}

impl Scope {
    /// The canonical hash of the scope.
    pub fn hash(&self) -> (h: Particle)
        ensures
            h@ == scope_hash(self.target, self.predicate@, self.deadline, self.constraints@),
    {
        let mut buf: Vec<u8> = Vec::new();
        append(&mut buf, &self.target);
        append(&mut buf, self.predicate.as_slice());
        put_u64_le(&mut buf, match self.deadline { Some(d) => d, None => 0 });
        append(&mut buf, self.constraints.as_slice());
        hemera(buf.as_slice())
    }
}

/// The scope hash binds every field: where Hemera does not collide, two
/// scopes that differ in their constraints alone, in their target alone, in
/// their predicate alone, or in their deadline alone (a missing deadline
/// counting as zero) have different hashes.
pub proof fn law_scope_hash_binds_fields(target: Particle, predicate: Seq<u8>, deadline: Option<u64>, constraints: Seq<u8>,
    other_target: Particle, other_predicate: Seq<u8>, other_deadline: Option<u64>, other_constraints: Seq<u8>)
    requires
        hemera_collision_free(),
    ensures
        scope_hash(target, predicate, deadline, constraints) == scope_hash(target, predicate, deadline, other_constraints)
            ==> constraints == other_constraints,
        scope_hash(target, predicate, deadline, constraints) == scope_hash(other_target, predicate, deadline, constraints)
            ==> target == other_target,
        scope_hash(target, predicate, deadline, constraints) == scope_hash(target, other_predicate, deadline, constraints)
            ==> predicate == other_predicate,
        scope_hash(target, predicate, deadline, constraints) == scope_hash(target, predicate, other_deadline, constraints)
            ==> (match deadline { Some(d) => d, None => 0 }) == (match other_deadline { Some(d) => d, None => 0 }),
{
    crate::wire::lemma_int_codecs();
    let d = le64(match deadline { Some(d) => d, None => 0 });
    let d2 = le64(match other_deadline { Some(d) => d, None => 0 });
    let base = target@ + predicate + d;
    let a = base + constraints;
    if scope_hash(target, predicate, deadline, constraints) == scope_hash(target, predicate, deadline, other_constraints) {
        let b = base + other_constraints;
        assert(hemera_hash(a) == hemera_hash(b));
        assert(a == b);
        assert(a.subrange(base.len() as int, a.len() as int) =~= constraints);
        assert(b.subrange(base.len() as int, b.len() as int) =~= other_constraints);
    }
    if scope_hash(target, predicate, deadline, constraints) == scope_hash(other_target, predicate, deadline, constraints) {
        let b = other_target@ + predicate + d + constraints;
        assert(hemera_hash(a) == hemera_hash(b));
        assert(a == b);
        assert(a.subrange(0, 32) =~= target@);
        assert(b.subrange(0, 32) =~= other_target@);
        assert(target@ =~= other_target@);
    }
    if scope_hash(target, predicate, deadline, constraints) == scope_hash(target, other_predicate, deadline, constraints) {
        let b = target@ + other_predicate + d + constraints;
        assert(hemera_hash(a) == hemera_hash(b));
        assert(a == b);
        assert(a.subrange(32, 32 + predicate.len() as int) =~= predicate);
        assert(b.subrange(32, 32 + other_predicate.len() as int) =~= other_predicate);
    }
    if scope_hash(target, predicate, deadline, constraints) == scope_hash(target, predicate, other_deadline, constraints) {
        let b = target@ + predicate + d2 + constraints;
        assert(hemera_hash(a) == hemera_hash(b));
        assert(a == b);
        assert(a.subrange(32 + predicate.len() as int, 40 + predicate.len() as int) =~= d);
        assert(b.subrange(32 + predicate.len() as int, 40 + predicate.len() as int) =~= d2);
    }
}

/// A declared intent: neuron, inception height, scope and signature.
#[derive(Debug, Clone)]
pub struct Intent {
    pub neuron: NeuronId,
    pub h0: u64,
    pub scope: Scope,
    pub signature: [u8; 64],
}

/// Which events a subscriber observes.
#[derive(Debug, Clone, Copy)]
pub enum Filter {
    All,
    ByNeuron(NeuronId),
    ByTargetParticle(Particle),
}

/// An event the processor emits.
#[derive(Debug, Clone, Copy)]
pub enum Event {
    IntentDeclared { key: Particle, neuron: NeuronId, h0: u64 },
    SignalSealed { intent_key: Particle, neuron: NeuronId, step: u64 },
    Linked { neuron: NeuronId, step: u64 },
}

/// The neuron an event is about.
pub open spec fn event_neuron(e: Event) -> NeuronId {
    match e {
        Event::IntentDeclared { neuron, .. } => neuron,
        Event::SignalSealed { neuron, .. } => neuron,
        Event::Linked { neuron, .. } => neuron,
    }
}

/// A filter lets through every event, the events of its neuron, or (until
/// events carry targets) none by target.
pub open spec fn admits(filter: Filter, event: Event) -> bool {
    match filter {
        Filter::All => true,
        Filter::ByNeuron(n) => event_neuron(event) == n,
        Filter::ByTargetParticle(_) => false,
    }
}

/// A neuron's filter lets through exactly that neuron's events: a declared
/// intent, a sealed signal (whatever its intent key) and a link pass the
/// filter of the neuron that made them and no other neuron's; the filter of
/// every event passes all of them, and a target filter none.
pub proof fn law_neuron_filter(n: NeuronId, neuron: NeuronId, key: Particle, x: u64, target: Particle)
    ensures
        admits(Filter::ByNeuron(n), Event::IntentDeclared { key, neuron, h0: x }) <==> n == neuron,
        admits(Filter::ByNeuron(n), Event::SignalSealed { intent_key: key, neuron, step: x }) <==> n == neuron,
        admits(Filter::ByNeuron(n), Event::Linked { neuron, step: x }) <==> n == neuron,
        admits(Filter::All, Event::SignalSealed { intent_key: key, neuron, step: x }),
        admits(Filter::All, Event::IntentDeclared { key, neuron, h0: x }),
        admits(Filter::All, Event::Linked { neuron, step: x }),
        !admits(Filter::ByTargetParticle(target), Event::SignalSealed { intent_key: key, neuron, step: x }),
        !admits(Filter::ByTargetParticle(target), Event::IntentDeclared { key, neuron, h0: x }),
        !admits(Filter::ByTargetParticle(target), Event::Linked { neuron, step: x }),
{
}

/// Whether a filter lets an event through.
pub fn matches(filter: &Filter, event: &Event) -> (r: bool)
    ensures
        r == admits(*filter, *event),
{
    match filter {
        Filter::All => true,
        Filter::ByNeuron(n) => {
            let neuron = match event {
                Event::IntentDeclared { neuron, .. } => neuron,
                Event::SignalSealed { neuron, .. } => neuron,
                Event::Linked { neuron, .. } => neuron,
            };
            particle_eq(n, neuron)
        },
        Filter::ByTargetParticle(_) => false,
    }
}

/// A cyberlink inside a signal: who links which particle to which, under
/// which token, with what amount and valence, at what height.
#[derive(Debug, Clone, Copy)]
pub struct CyberlinkRecord {
    pub neuron: NeuronId,
    pub from: Particle,
    pub to: Particle,
    pub token: Particle,
    pub amount: u64,
    pub valence: i8,
    pub height: u64,
}

/// A private conviction spend: the nullifier of the spent box and the box
/// it creates, if any.
#[derive(Debug, Clone, Copy)]
pub struct BoxMoveRecord {
    pub nullifier: Particle,
    pub commitment: Option<(Particle, u64)>,
}

/// A batch of cyberlinks signed by a neuron at one step of its chain. Proofs
/// are not enforced yet, and a signal enters its chain without one.
#[derive(Debug, Clone)]
pub struct Signal {
    pub neuron: NeuronId,
    /// The destination network.
    pub network: Particle,
    pub links: Vec<CyberlinkRecord>,
    pub delta_pi: Vec<(Particle, u64)>,
    pub box_moves: Vec<BoxMoveRecord>,
    /// The chain-position hash of the previous signal of this neuron.
    pub prev: Particle,
    pub step: u64,
    pub height: u64,
}

/// Why a neuron's chain refuses a signal.
#[derive(Debug, Clone, Copy, PartialEq, Eq)]
pub enum ChainError {
    StepNotSequential,
    PrevMismatch,
    Equivocation,
}

/// Why the state refuses a signal's box moves.
#[derive(Debug, Clone, Copy, PartialEq, Eq)]
pub enum InsertError {
    DoubleSpend,
}

/// Errors from the public API.
#[derive(Debug, Clone, Copy, PartialEq, Eq)]
pub enum ApiError {
    /// The neuron's chain refused the signal (step, lineage or equivocation).
    SyncRejected(ChainError),
    /// The state refused the signal's box moves.
    BbgRejected(InsertError),
    /// `seal` named an intent that was never declared.
    UnknownIntent(Particle),
    /// A link would raise a balance past `u64::MAX`.
    AmountOverflow,
    /// The signal is for another network than the one the processor serves.
    WrongNetwork { expected: Particle, found: Particle },
}

#[verifier::external_type_specification]
#[verifier::external_body]
pub struct ExBbg(bbg::Bbg);

#[verifier::external_type_specification]
#[verifier::external_body]
pub struct ExSignalChain(foculus::chain::SignalChain);

/// What a neuron's chain holds: each step's signal by its neuron, its own
/// step, the hash it links back to and its network.
pub uninterp spec fn chain_entries(chain: SignalChain) -> Map<u64, (NeuronId, u64, Particle, Particle)>;

/// The intents the state holds, by key: neuron, inception height, scope
/// hash and signature.
pub uninterp spec fn bbg_intents(state: Bbg) -> Map<Particle, (NeuronId, u64, Particle, [u8; 64])>;

/// The signal headers the state holds, by step: neuron, network, link
/// count, block height and proof hash.
pub uninterp spec fn bbg_signals(state: Bbg) -> Map<u64, (NeuronId, Particle, u32, u64, Particle)>;

/// The nullifiers of the boxes the state has seen spent.
pub uninterp spec fn bbg_nullifiers(state: Bbg) -> Set<Particle>;

/// The particles the state holds: each one's energy and weight.
pub uninterp spec fn bbg_particles(state: Bbg) -> Map<Particle, (u64, u64)>;

/// The axons leaving each particle, in the order they were first linked.
pub uninterp spec fn bbg_axons_out(state: Bbg) -> Map<Particle, Seq<Particle>>;

/// The axons entering each particle, in the order they were first linked.
pub uninterp spec fn bbg_axons_in(state: Bbg) -> Map<Particle, Seq<Particle>>;

/// The focus of each neuron the state knows.
pub uninterp spec fn bbg_focus(state: Bbg) -> Map<NeuronId, u64>;

/// The public balances, by the key of owner and token.
pub uninterp spec fn bbg_balances(state: Bbg) -> Map<Particle, u64>;

/// The parts of the state that cyberlinks move.
pub ghost struct GraphView {
    pub particles: Map<Particle, (u64, u64)>,
    pub axons_out: Map<Particle, Seq<Particle>>,
    pub axons_in: Map<Particle, Seq<Particle>>,
    pub focus: Map<NeuronId, u64>,
    pub balances: Map<Particle, u64>,
}

/// The parts of a state that cyberlinks move.
pub open spec fn graph_of(state: Bbg) -> GraphView {
    GraphView {
        particles: bbg_particles(state),
        axons_out: bbg_axons_out(state),
        axons_in: bbg_axons_in(state),
        focus: bbg_focus(state),
        balances: bbg_balances(state),
    }
}

/// The particle whose bytes are the Hemera digest of `input`.
pub open spec fn digest_particle(input: Seq<u8>) -> Particle {
    choose|p: Particle| p@ == hemera_hash(input)
}

/// The axon particle of a link from `from` to `to`: the digest of the two.
pub open spec fn axon_id(from: Particle, to: Particle) -> Particle {
    digest_particle(from@ + to@)
}

/// The key of an owner's balance in a token: the digest of the two.
pub open spec fn balance_key(owner: Particle, token: Particle) -> Particle {
    digest_particle(owner@ + token@)
}

/// `x + a`, held at `u64::MAX`.
pub open spec fn sat_add(x: u64, a: u64) -> u64 {
    if x + a > u64::MAX { u64::MAX } else { (x + a) as u64 }
}

/// `x - a`, held at zero.
pub open spec fn sat_sub(x: u64, a: u64) -> u64 {
    if x < a { 0 } else { (x - a) as u64 }
}

/// A balance, zero where none is held.
pub open spec fn or_zero(m: Map<Particle, u64>, k: Particle) -> u64 {
    if m.contains_key(k) { m[k] } else { 0 }
}

/// A particle's energy and weight, zero where it is not held.
pub open spec fn record_of(m: Map<Particle, (u64, u64)>, k: Particle) -> (u64, u64) {
    if m.contains_key(k) { m[k] } else { (0, 0) }
}

/// `m` with axon `a` added to the list under `k`, where it is not there yet.
pub open spec fn with_axon(m: Map<Particle, Seq<Particle>>, k: Particle, a: Particle) -> Map<Particle, Seq<Particle>> {
    let l = if m.contains_key(k) { m[k] } else { Seq::empty() };
    m.insert(k, if l.contains(a) { l } else { l.push(a) })
}

/// The balances after one link: the target's balance in the token gains
/// the amount (`None` where that overflows), then the source's loses it,
/// held at zero.
pub open spec fn step_balances(b: Map<Particle, u64>, l: CyberlinkRecord) -> Option<Map<Particle, u64>> {
    let tk = balance_key(l.to, l.token);
    if or_zero(b, tk) + l.amount > u64::MAX {
        None
    } else {
        let b1 = b.insert(tk, (or_zero(b, tk) + l.amount) as u64);
        let fk = balance_key(l.from, l.token);
        Some(b1.insert(fk, sat_sub(or_zero(b1, fk), l.amount)))
    }
}

/// The balances after a signal's links, in order; `None` where one
/// overflows.
pub open spec fn balances_after(b: Map<Particle, u64>, links: Seq<CyberlinkRecord>) -> Option<Map<Particle, u64>>
    decreases links.len(),
{
    if links.len() == 0 {
        Some(b)
    } else {
        match balances_after(b, links.drop_last()) {
            Some(b1) => step_balances(b1, links.last()),
            None => None,
        }
    }
}

/// The state after one link of `neuron`'s signal: the axon's weight and the
/// target's energy gain the amount (held at `u64::MAX`), the axon is listed
/// out of the source and into the target, the neuron's focus loses the
/// amount (held at zero) where the neuron is known, and the balances move.
pub open spec fn step_graph(g: GraphView, neuron: NeuronId, l: CyberlinkRecord) -> Option<GraphView> {
    let a = axon_id(l.from, l.to);
    let p1 = g.particles.insert(a, (record_of(g.particles, a).0, sat_add(record_of(g.particles, a).1, l.amount)));
    let p2 = p1.insert(l.to, (sat_add(record_of(p1, l.to).0, l.amount), record_of(p1, l.to).1));
    match step_balances(g.balances, l) {
        None => None,
        Some(b) => Some(GraphView {
            particles: p2,
            axons_out: with_axon(g.axons_out, l.from, a),
            axons_in: with_axon(g.axons_in, l.to, a),
            focus: if g.focus.contains_key(neuron) { g.focus.insert(neuron, sat_sub(g.focus[neuron], l.amount)) } else { g.focus },
            balances: b,
        }),
    }
}

/// The state after a signal's links, applied in order; `None` where a
/// balance overflows.
pub open spec fn graph_after(g: GraphView, neuron: NeuronId, links: Seq<CyberlinkRecord>) -> Option<GraphView>
    decreases links.len(),
{
    if links.len() == 0 {
        Some(g)
    } else {
        match graph_after(g, neuron, links.drop_last()) {
            Some(g1) => step_graph(g1, neuron, links.last()),
            None => None,
        }
    }
}

/// Links overflow a balance exactly where the balances alone do.
proof fn lemma_graph_balances(g: GraphView, neuron: NeuronId, links: Seq<CyberlinkRecord>)
    ensures
        graph_after(g, neuron, links) is Some <==> balances_after(g.balances, links) is Some,
        graph_after(g, neuron, links) matches Some(h) ==> balances_after(g.balances, links) == Some(h.balances),
    decreases links.len(),
{
    if links.len() > 0 {
        lemma_graph_balances(g, neuron, links.drop_last());
    }
}

/// The chain-position hash of a signal: Hemera over its neuron, its step as
/// a little-endian `u64`, the hash it links back to and its network.
pub open spec fn signal_hash(neuron: NeuronId, step: u64, prev: Particle, network: Particle) -> Seq<u8> {
    hemera_hash(neuron@ + le64(step) + prev@ + network@)
}

/// The thirty-two zero bytes that the first signal of a chain links back to.
pub open spec fn zero_prev() -> Seq<u8> {
    Seq::new(32, |i: int| 0u8)
}

/// How a chain with `entries` answers a signal: an equivocation where it
/// holds a signal of the same neuron and lineage at that step; a step out of
/// sequence unless the step is the chain's length; a lineage mismatch unless
/// the signal links back to the zero bytes (first step) or to the hash of
/// the signal one step before; else acceptance.
pub open spec fn chain_answer(entries: Map<u64, (NeuronId, u64, Particle, Particle)>, neuron: NeuronId, step: u64, prev: Particle) -> Option<ChainError> {
    if entries.contains_key(step) && entries[step].0 == neuron && entries[step].2 == prev {
        Some(ChainError::Equivocation)
    } else if step != entries.dom().len() {
        Some(ChainError::StepNotSequential)
    } else if step == 0 {
        if prev@ == zero_prev() { None } else { Some(ChainError::PrevMismatch) }
    } else if !entries.contains_key((step - 1) as u64) {
        Some(ChainError::PrevMismatch)
    } else {
        let last = entries[(step - 1) as u64];
        if prev@ == signal_hash(last.0, last.1, last.2, last.3) { None } else { Some(ChainError::PrevMismatch) }
    }
}

/// An empty chain. Trusted: `foculus::chain::SignalChain::new` holds no
/// entries.
#[verifier::external_body]
fn chain_new() -> (chain: SignalChain)
    ensures
        chain_entries(chain).dom().is_empty(),
{
    SignalChain::new()
}

/// The number of signals a chain holds. Trusted: the length of its entry
/// map.
#[verifier::external_body]
fn chain_len(chain: &SignalChain) -> (n: usize)
    ensures
        n == chain_entries(*chain).dom().len(),
{
    chain.entries.len()
}

/// Calls `foculus::chain::SignalChain::append` on a copy of `s` without a
/// proof. Trusted, as its source shows: the chain answers as `chain_answer`
/// says over its entries (its map is finite, its length a `usize`); a
/// refused signal leaves the chain as it was, and an accepted one is entered
/// at its step.
#[verifier::external_body]
fn chain_append(chain: &mut SignalChain, s: &Signal) -> (r: Result<(), ChainError>)
    ensures
        chain_entries(*old(chain)).dom().finite(),
        chain_entries(*old(chain)).dom().len() <= usize::MAX,
        match chain_answer(chain_entries(*old(chain)), s.neuron, s.step, s.prev) {
            Some(e) => r == Err::<(), ChainError>(e) && *final(chain) == *old(chain),
            None => r is Ok && chain_entries(*final(chain)) == chain_entries(*old(chain)).insert(s.step, (s.neuron, s.step, s.prev, s.network)),
        },
{
    let links = s.links.iter().map(|&CyberlinkRecord { neuron, from, to, token, amount, valence, height }| sync::CyberlinkRecord { neuron, from, to, token, amount, valence, height }).collect();
    let box_moves = s.box_moves.iter().map(|&BoxMoveRecord { nullifier, commitment }| sync::BoxMoveRecord { nullifier, commitment }).collect();
    let Signal { neuron, network, ref delta_pi, prev, step, height, .. } = *s;
    chain.append(sync::Signal { neuron, network, links, delta_pi: delta_pi.clone(), box_moves, prev, step, height, proof: None }).map_err(|e| match e {
        Refusal::StepNotSequential => ChainError::StepNotSequential,
        Refusal::PrevMismatch => ChainError::PrevMismatch,
        Refusal::Equivocation => ChainError::Equivocation,
    })
}

/// Takes back the signal a chain holds at `step`. Trusted: removing `step`
/// from its entry map.
#[verifier::external_body]
fn chain_retract(chain: &mut SignalChain, step: u64)
    ensures
        chain_entries(*final(chain)) == chain_entries(*old(chain)).remove(step),
{
    chain.entries.remove(&step);
}

/// Empty state. Trusted: `bbg::Bbg::new` starts with no intents, signal
/// headers or nullifiers.
#[verifier::external_body]
fn bbg_new() -> (state: Bbg)
    ensures
        bbg_intents(state).dom().is_empty(),
        bbg_signals(state).dom().is_empty(),
        bbg_nullifiers(state).is_empty(),
        bbg_particles(state).dom().is_empty(),
        bbg_axons_out(state).dom().is_empty(),
        bbg_axons_in(state).dom().is_empty(),
        bbg_focus(state).dom().is_empty(),
        bbg_balances(state).dom().is_empty(),
{
    Bbg::new()
}

/// A public balance. Trusted: the entry of `state.balances` under `key`,
/// zero where there is none.
#[verifier::external_body]
fn bbg_balance(state: &Bbg, key: &Particle) -> (r: u64)
    ensures
        r == or_zero(bbg_balances(*state), *key),
{
    state.state.balances.get(key).copied().unwrap_or(0)
}

/// Whether the state has seen a nullifier spent. Trusted: membership in
/// `state.nullifiers`.
#[verifier::external_body]
fn bbg_spent(state: &Bbg, nullifier: &Particle) -> (r: bool)
    ensures
        r == bbg_nullifiers(*state).contains(*nullifier),
{
    state.state.nullifiers.contains(nullifier)
}

/// Whether the state holds an intent. Trusted: a key of `state.intents`.
#[verifier::external_body]
fn bbg_has_intent(state: &Bbg, key: &Particle) -> (r: bool)
    ensures
        r == bbg_intents(*state).contains_key(*key),
{
    state.state.intents.contains_key(key)
}

/// Calls `bbg::Bbg::insert` on the signal of `s`'s neuron, links (their
/// source, target, token, amount and valence), box moves and height.
/// Trusted, as its source and comments show: it refuses with a double spend
/// exactly where a box move spends a nullifier already seen, and then
/// changes nothing; otherwise the nullifiers gain those of the box moves,
/// the links move particles, axons, focus and balances as `graph_after`
/// says, and the intents and signal headers stay. A balance that would
/// overflow makes it panic, so the links must not overflow one. What it
/// does to commitments, the axon edge index and the pruning record is left
/// unsaid.
#[verifier::external_body]
fn bbg_insert(state: &mut Bbg, s: &Signal) -> (r: Result<(), InsertError>)
    requires
        graph_after(graph_of(*old(state)), s.neuron, s.links@) is Some,
    ensures
        r is Err <==> exists|i: int| 0 <= i < s.box_moves@.len() && bbg_nullifiers(*old(state)).contains(#[trigger] s.box_moves@[i].nullifier),
        r is Err ==> *final(state) == *old(state),
        r is Ok ==> bbg_nullifiers(*final(state)) == bbg_nullifiers(*old(state)) + nullifiers(s.box_moves@),
        r is Ok ==> bbg_intents(*final(state)) == bbg_intents(*old(state)),
        r is Ok ==> bbg_signals(*final(state)) == bbg_signals(*old(state)),
        r is Ok ==> graph_after(graph_of(*old(state)), s.neuron, s.links@) == Some(graph_of(*final(state))),
{
    let links = s.links.iter().map(|l| bbg::Cyberlink { from: l.from, to: l.to, token: l.token, amount: l.amount, valence: l.valence }).collect();
    let box_moves = s.box_moves.iter().map(|m| bbg::BoxMove { nullifier: m.nullifier, commitment: m.commitment }).collect();
    match state.insert(&bbg::Signal { neuron: s.neuron, links, box_moves, height: s.height }) {
        Ok(()) => Ok(()),
        Err(bbg::InsertError::DoubleSpend) => Err(InsertError::DoubleSpend),
    }
}

/// Calls `bbg::Bbg::apply_intent`. Trusted, as its source shows: the key is
/// Hemera over the neuron, the inception height as a little-endian `u64`
/// and the scope hash, the intent is held under it, and the signal headers
/// and nullifiers stay.
#[verifier::external_body]
fn bbg_apply_intent(state: &mut Bbg, neuron: NeuronId, h0: u64, scope_hash: Particle, signature: [u8; 64]) -> (key: Particle)
    ensures
        key@ == hemera_hash(neuron@ + le64(h0) + scope_hash@),
        bbg_intents(*final(state)) == bbg_intents(*old(state)).insert(key, (neuron, h0, scope_hash, signature)),
        bbg_signals(*final(state)) == bbg_signals(*old(state)),
        bbg_nullifiers(*final(state)) == bbg_nullifiers(*old(state)),
        graph_of(*final(state)) == graph_of(*old(state)),
{
    state.apply_intent(&bbg::IntentRecord { neuron, h0, scope_hash, signature })
}

/// Calls `bbg::Bbg::apply_signal_record`. Trusted, as its source shows: the
/// header is held under `step`, and the intents and nullifiers stay.
#[verifier::external_body]
fn bbg_apply_signal_record(state: &mut Bbg, step: u64, neuron: NeuronId, network: Particle, link_count: u32, block_height: u64, proof_hash: Particle)
    ensures
        bbg_signals(*final(state)) == bbg_signals(*old(state)).insert(step, (neuron, network, link_count, block_height, proof_hash)),
        bbg_intents(*final(state)) == bbg_intents(*old(state)),
        bbg_nullifiers(*final(state)) == bbg_nullifiers(*old(state)),
        graph_of(*final(state)) == graph_of(*old(state)),
{
    state.apply_signal_record(step, bbg::SignalRecord { neuron, network, link_count, block_height, proof_hash })
}

/// The nullifiers some box moves spend.
pub open spec fn nullifiers(moves: Seq<BoxMoveRecord>) -> Set<Particle> {
    Set::new(|p: Particle| exists|i: int| 0 <= i < moves.len() && #[trigger] moves[i].nullifier == p)
}

/// Box moves that the state `spent` accepts: none spends a nullifier it has
/// seen, and no two spend the same one.
pub open spec fn spend_ok(spent: Set<Particle>, moves: Seq<BoxMoveRecord>) -> bool {
    &&& forall|i: int| 0 <= i < moves.len() ==> !spent.contains(#[trigger] moves[i].nullifier)
    &&& forall|i: int, j: int| 0 <= i < j < moves.len() ==> #[trigger] moves[i].nullifier != #[trigger] moves[j].nullifier
}

/// Whether the state accepts some box moves.
fn spends_ok(state: &Bbg, moves: &Vec<BoxMoveRecord>) -> (r: bool)
    ensures
        r == spend_ok(bbg_nullifiers(*state), moves@),
{
    let mut i: usize = 0;
    while i < moves.len()
        invariant
            i <= moves@.len(),
            forall|k: int| 0 <= k < i ==> !bbg_nullifiers(*state).contains(#[trigger] moves@[k].nullifier),
            forall|k: int, j: int| 0 <= k < j < i ==> #[trigger] moves@[k].nullifier != #[trigger] moves@[j].nullifier,
        decreases moves@.len() - i,
    {
        if bbg_spent(state, &moves[i].nullifier) {
            return false;
        }
        let mut j: usize = 0;
        while j < i
            invariant
                j <= i,
                i < moves@.len(),
                forall|k: int| 0 <= k < j ==> #[trigger] moves@[k].nullifier != moves@[i as int].nullifier,
            decreases i - j,
        {
            if particle_eq(&moves[j].nullifier, &moves[i].nullifier) {
                proof {
                    assert(moves@[j as int].nullifier == moves@[i as int].nullifier);
                }
                return false;
            }
            j = j + 1;
        }
        i = i + 1;
    }
    true
}

/// The key of an owner's balance in a token.
fn key_of(owner: &Particle, token: &Particle) -> (k: Particle)
    ensures
        k == balance_key(*owner, *token),
{
    let mut buf: Vec<u8> = Vec::new();
    append(&mut buf, owner);
    append(&mut buf, token);
    let k = hemera(buf.as_slice());
    proof {
        assert(buf@ =~= owner@ + token@);
        let c = balance_key(*owner, *token);
        assert(c@ == hemera_hash(owner@ + token@));
        assert(c@ =~= k@);
    }
    k
}

/// The value pending for `k` among balances already moved, where any is.
pub open spec fn pending(o: Seq<(Particle, u64)>, k: Particle) -> Option<u64> {
    if exists|i: int| 0 <= i < o.len() && #[trigger] o[i].0 == k {
        Some(o[choose|i: int| 0 <= i < o.len() && #[trigger] o[i].0 == k].1)
    } else {
        None
    }
}

/// No key is pending twice.
pub open spec fn keys_distinct(o: Seq<(Particle, u64)>) -> bool {
    forall|i: int, j: int| 0 <= i < j < o.len() ==> #[trigger] o[i].0 != #[trigger] o[j].0
}

/// A balance as it stands after the moves pending so far.
pub open spec fn moved(o: Seq<(Particle, u64)>, b: Map<Particle, u64>, k: Particle) -> u64 {
    match pending(o, k) {
        Some(v) => v,
        None => or_zero(b, k),
    }
}

proof fn lemma_pending_at(o: Seq<(Particle, u64)>, i: int)
    requires
        keys_distinct(o),
        0 <= i < o.len(),
    ensures
        pending(o, o[i].0) == Some(o[i].1),
{
    let k = o[i].0;
    let j = choose|j: int| 0 <= j < o.len() && #[trigger] o[j].0 == k;
    if j != i {
        if j < i {
            assert(o[j].0 != o[i].0);
        } else {
            assert(o[i].0 != o[j].0);
        }
    }
}

fn pending_index(o: &Vec<(Particle, u64)>, k: &Particle) -> (r: Option<usize>)
    ensures
        match r {
            Some(i) => i < o@.len() && o@[i as int].0 == *k,
            None => pending(o@, *k) is None,
        },
{
    let mut i: usize = 0;
    while i < o.len()
        invariant
            i <= o@.len(),
            forall|j: int| 0 <= j < i ==> o@[j].0 != *k,
        decreases o@.len() - i,
    {
        if particle_eq(&o[i].0, k) {
            return Some(i);
        }
        i = i + 1;
    }
    None
}

/// Record that `k` now holds `v`.
fn set_pending(o: &mut Vec<(Particle, u64)>, k: Particle, v: u64)
    requires
        keys_distinct(old(o)@),
    ensures
        keys_distinct(final(o)@),
        forall|q: Particle| #[trigger] pending(final(o)@, q) == if q == k { Some(v) } else { pending(old(o)@, q) },
{
    let ghost o0 = o@;
    match pending_index(o, &k) {
        Some(i) => {
            o.set(i, (k, v));
            proof {
                assert forall|q: Particle| #[trigger] pending(o@, q) == if q == k { Some(v) } else { pending(o0, q) } by {
                    if q == k {
                        lemma_pending_at(o@, i as int);
                    } else {
                        assert forall|j: int| 0 <= j < o@.len() implies (o@[j].0 == q <==> o0[j].0 == q) by {}
                        if exists|j: int| 0 <= j < o0.len() && #[trigger] o0[j].0 == q {
                            let j = choose|j: int| 0 <= j < o0.len() && #[trigger] o0[j].0 == q;
                            assert(o@[j] == o0[j]);
                            lemma_pending_at(o@, j);
                            lemma_pending_at(o0, j);
                        }
                    }
                }
            }
        },
        None => {
            o.push((k, v));
            proof {
                assert forall|q: Particle| #[trigger] pending(o@, q) == if q == k { Some(v) } else { pending(o0, q) } by {
                    if q == k {
                        lemma_pending_at(o@, o0.len() as int);
                    } else if exists|j: int| 0 <= j < o0.len() && #[trigger] o0[j].0 == q {
                        let j = choose|j: int| 0 <= j < o0.len() && #[trigger] o0[j].0 == q;
                        assert(o@[j] == o0[j]);
                        lemma_pending_at(o@, j);
                        lemma_pending_at(o0, j);
                    } else {
                        assert(!exists|j: int| 0 <= j < o@.len() && #[trigger] o@[j].0 == q);
                    }
                }
            }
        },
    }
}

proof fn lemma_balances_stay_none(b: Map<Particle, u64>, ls: Seq<CyberlinkRecord>, i: int)
    requires
        0 <= i <= ls.len(),
        balances_after(b, ls.take(i)) is None,
    ensures
        balances_after(b, ls) is None,
    decreases ls.len() - i,
{
    if i == ls.len() {
        assert(ls.take(i) =~= ls);
    } else {
        assert(ls.take(i + 1).drop_last() =~= ls.take(i));
        lemma_balances_stay_none(b, ls, i + 1);
    }
}

/// Whether a signal's links, applied in order, leave every balance within
/// `u64`.
fn amounts_fit(state: &Bbg, links: &Vec<CyberlinkRecord>) -> (r: bool)
    ensures
        r == balances_after(bbg_balances(*state), links@) is Some,
{
    let ghost b = bbg_balances(*state);
    let mut o: Vec<(Particle, u64)> = Vec::new();
    let mut i: usize = 0;
    proof {
        assert(links@.take(0) =~= Seq::<CyberlinkRecord>::empty());
    }
    while i < links.len()
        invariant
            i <= links@.len(),
            b == bbg_balances(*state),
            keys_distinct(o@),
            balances_after(b, links@.take(i as int)) is Some,
            forall|k: Particle| #[trigger] moved(o@, b, k) == or_zero(balances_after(b, links@.take(i as int))->0, k),
        decreases links@.len() - i,
    {
        let l = links[i];
        let ghost m = balances_after(b, links@.take(i as int))->0;
        proof {
            assert(links@.take(i + 1).drop_last() =~= links@.take(i as int));
            assert(links@.take(i + 1).last() == l);
        }
        let tk = key_of(&l.to, &l.token);
        let have = match pending_index(&o, &tk) {
            Some(j) => {
                proof {
                    lemma_pending_at(o@, j as int);
                }
                o[j].1
            },
            None => bbg_balance(state, &tk),
        };
        proof {
            assert(have == moved(o@, b, tk));
        }
        let raised = match have.checked_add(l.amount) {
            Some(v) => v,
            None => {
                proof {
                    lemma_balances_stay_none(b, links@, i + 1);
                }
                return false;
            },
        };
        let ghost o1 = o@;
        set_pending(&mut o, tk, raised);
        let ghost m1 = m.insert(tk, raised);
        proof {
            assert forall|k: Particle| #[trigger] moved(o@, b, k) == or_zero(m1, k) by {
                if k != tk {
                    assert(moved(o1, b, k) == or_zero(m, k));
                }
            }
        }
        let fk = key_of(&l.from, &l.token);
        let held = match pending_index(&o, &fk) {
            Some(j) => {
                proof {
                    lemma_pending_at(o@, j as int);
                }
                o[j].1
            },
            None => bbg_balance(state, &fk),
        };
        proof {
            assert(held == moved(o@, b, fk));
            assert(held == or_zero(m1, fk));
        }
        let lowered: u64 = if held < l.amount { 0 } else { held - l.amount };
        let ghost o2 = o@;
        set_pending(&mut o, fk, lowered);
        proof {
            let m2 = m1.insert(fk, lowered);
            assert(step_balances(m, l) == Some(m2));
            assert(balances_after(b, links@.take(i + 1)) == Some(m2));
            assert forall|k: Particle| #[trigger] moved(o@, b, k) == or_zero(m2, k) by {
                if k != fk {
                    assert(moved(o2, b, k) == or_zero(m1, k));
                }
            }
        }
        i = i + 1;
    }
    proof {
        assert(links@.take(links@.len() as int) =~= links@);
    }
    true
}

/// The first entry of `chains` that belongs to `neuron` stands at `i`.
pub open spec fn first_chain(chains: Seq<(NeuronId, SignalChain)>, neuron: NeuronId, i: int) -> bool {
    &&& 0 <= i < chains.len()
    &&& chains[i].0 == neuron
    &&& forall|j: int| 0 <= j < i ==> chains[j].0 != neuron
}

/// What the chain of `neuron` holds: the first chain that belongs to it, or
/// nothing where it has none.
pub open spec fn chain_of(chains: Seq<(NeuronId, SignalChain)>, neuron: NeuronId) -> Map<u64, (NeuronId, u64, Particle, Particle)> {
    if exists|i: int| #[trigger] first_chain(chains, neuron, i) {
        chain_entries(chains[choose|i: int| #[trigger] first_chain(chains, neuron, i)].1)
    } else {
        Map::empty()
    }
}

proof fn lemma_first_unique(chains: Seq<(NeuronId, SignalChain)>, neuron: NeuronId, a: int, b: int)
    requires
        first_chain(chains, neuron, a),
        first_chain(chains, neuron, b),
    ensures
        a == b,
{
    if a < b {
        assert(chains[a].0 == neuron);
    } else if b < a {
        assert(chains[b].0 == neuron);
    }
}

proof fn lemma_chain_at(chains: Seq<(NeuronId, SignalChain)>, neuron: NeuronId, i: int)
    requires
        first_chain(chains, neuron, i),
    ensures
        chain_of(chains, neuron) == chain_entries(chains[i].1),
{
    let k = choose|k: int| #[trigger] first_chain(chains, neuron, k);
    lemma_first_unique(chains, neuron, i, k);
}

/// Whether `neuron` has a chain.
pub open spec fn chained(chains: Seq<(NeuronId, SignalChain)>, neuron: NeuronId) -> bool {
    exists|i: int| #[trigger] first_chain(chains, neuron, i)
}

/// Replacing the first chain of a neuron changes what that neuron's chain
/// holds and no other's.
proof fn lemma_chain_update(chains: Seq<(NeuronId, SignalChain)>, i: int, c: SignalChain, m: NeuronId)
    requires
        first_chain(chains, chains[i].0, i),
    ensures
        chain_of(chains.update(i, (chains[i].0, c)), m) == if m == chains[i].0 { chain_entries(c) } else { chain_of(chains, m) },
        chained(chains.update(i, (chains[i].0, c)), m) == chained(chains, m),
{
    let n = chains[i].0;
    let next = chains.update(i, (n, c));
    assert forall|k: int| #[trigger] first_chain(next, m, k) <==> first_chain(chains, m, k) by {
        assert forall|j: int| 0 <= j < chains.len() implies next[j].0 == chains[j].0 by {}
    }
    if m == n {
        assert(first_chain(next, m, i));
        lemma_chain_at(next, m, i);
    } else if exists|k: int| #[trigger] first_chain(chains, m, k) {
        let k = choose|k: int| #[trigger] first_chain(chains, m, k);
        assert(k != i);
        assert(first_chain(next, m, k));
        lemma_chain_at(next, m, k);
        lemma_chain_at(chains, m, k);
    } else {
        assert(!exists|k: int| #[trigger] first_chain(next, m, k));
    }
}

/// Adding a chain for a neuron that had none gives that neuron's chain and
/// no other's.
proof fn lemma_chain_push(chains: Seq<(NeuronId, SignalChain)>, n: NeuronId, c: SignalChain, m: NeuronId)
    requires
        forall|j: int| 0 <= j < chains.len() ==> chains[j].0 != n,
    ensures
        chain_of(chains.push((n, c)), m) == if m == n { chain_entries(c) } else { chain_of(chains, m) },
        chained(chains.push((n, c)), m) == (m == n || chained(chains, m)),
{
    let next = chains.push((n, c));
    if m == n {
        assert(first_chain(next, m, chains.len() as int));
        assert(!chained(chains, m));
        lemma_chain_at(next, m, chains.len() as int);
    } else {
        assert forall|k: int| #[trigger] first_chain(next, m, k) <==> first_chain(chains, m, k) by {
            assert forall|j: int| 0 <= j < chains.len() implies next[j].0 == chains[j].0 by {}
        }
        if exists|k: int| #[trigger] first_chain(chains, m, k) {
            let k = choose|k: int| #[trigger] first_chain(chains, m, k);
            assert(first_chain(next, m, k));
            lemma_chain_at(next, m, k);
            lemma_chain_at(chains, m, k);
        } else {
            assert(!exists|k: int| #[trigger] first_chain(next, m, k));
        }
    }
}

fn find_chain(chains: &Vec<(NeuronId, SignalChain)>, neuron: &NeuronId) -> (r: Option<usize>)
    ensures
        match r {
            Some(i) => first_chain(chains@, *neuron, i as int),
            None => forall|j: int| 0 <= j < chains@.len() ==> chains@[j].0 != *neuron,
        },
{
    let mut i: usize = 0;
    while i < chains.len()
        invariant
            i <= chains@.len(),
            forall|j: int| 0 <= j < i ==> chains@[j].0 != *neuron,
        decreases chains@.len() - i,
    {
        if particle_eq(&chains[i].0, neuron) {
            return Some(i);
        }
        i = i + 1;
    }
    None
}

/// An event and the subscribers, by the order they subscribed in, whose
/// filters let it through.
#[derive(Debug, Clone)]
pub struct Delivery {
    pub event: Event,
    pub to: Vec<usize>,
}

/// The subscribers, by position, whose filters admit `e`, in order.
pub open spec fn audience(filters: Seq<Filter>, e: Event) -> Seq<usize>
    decreases filters.len(),
{
    if filters.len() == 0 {
        Seq::empty()
    } else {
        audience(filters.drop_last(), e) + if admits(filters.last(), e) { seq![(filters.len() - 1) as usize] } else { Seq::empty() }
    }
}

/// A delivery reaches exactly the subscribers whose filters admit its
/// event, each once, in subscription order.
pub proof fn law_audience_is_admitting_subscribers(filters: Seq<Filter>, e: Event, i: int)
    requires
        filters.len() <= usize::MAX,
    ensures
        audience(filters, e).contains(i as usize) && 0 <= i < usize::MAX ==> 0 <= i < filters.len() && admits(filters[i], e),
        0 <= i < filters.len() && admits(filters[i], e) ==> audience(filters, e).contains(i as usize),
        forall|a: int, b: int| 0 <= a < b < audience(filters, e).len() ==> audience(filters, e)[a] < audience(filters, e)[b],
        forall|a: int| 0 <= a < audience(filters, e).len() ==> audience(filters, e)[a] < filters.len(),
    decreases filters.len(),
{
    if filters.len() > 0 {
        let f = filters.drop_last();
        law_audience_is_admitting_subscribers(f, e, i);
        let a0 = audience(f, e);
        let tail = if admits(filters.last(), e) { seq![(filters.len() - 1) as usize] } else { Seq::<usize>::empty() };
        let all = a0 + tail;
        assert(audience(filters, e) == all);
        if 0 <= i < f.len() {
            assert(filters[i] == f[i]);
        }
        if all.contains(i as usize) && 0 <= i < usize::MAX {
            let k = choose|k: int| 0 <= k < all.len() && all[k] == i as usize;
            if k < a0.len() {
                assert(a0[k] == all[k]);
                assert(a0.contains(i as usize));
            } else {
                assert(all[k] == (filters.len() - 1) as usize);
                assert(i == filters.len() - 1);
            }
        }
        if 0 <= i < filters.len() && admits(filters[i], e) {
            if i < f.len() {
                let k = choose|k: int| 0 <= k < a0.len() && a0[k] == i as usize;
                assert(all[k] == a0[k]);
            } else {
                assert(all[a0.len() as int] == i as usize);
            }
        }
        assert forall|a: int, b: int| 0 <= a < b < all.len() implies all[a] < all[b] by {
            if b < a0.len() {
                assert(all[a] == a0[a] && all[b] == a0[b]);
            } else {
                assert(all[a] == a0[a]);
            }
        }
        assert forall|a: int| 0 <= a < all.len() implies all[a] < filters.len() by {
            if a < a0.len() {
                assert(all[a] == a0[a]);
            }
        }
    }
}

/// A sealed signal's event reaches every subscriber of the signal's neuron
/// and every subscriber of all events, whatever its intent key.
pub proof fn law_seal_reaches_its_neuron(filters: Seq<Filter>, intent_key: Particle, neuron: NeuronId, step: u64, i: int)
    requires
        filters.len() <= usize::MAX,
        0 <= i < filters.len(),
        filters[i] == Filter::ByNeuron(neuron) || filters[i] == Filter::All,
    ensures
        audience(filters, Event::SignalSealed { intent_key, neuron, step }).contains(i as usize),
{
    law_neuron_filter(neuron, neuron, intent_key, step, intent_key);
    law_audience_is_admitting_subscribers(filters, Event::SignalSealed { intent_key, neuron, step }, i);
}

/// `next` is `before` with one more delivery: `e`, to its audience.
pub open spec fn announced(before: Seq<Delivery>, next: Seq<Delivery>, filters: Seq<Filter>, e: Event) -> bool {
    &&& next.len() == before.len() + 1
    &&& forall|i: int| 0 <= i < before.len() ==> #[trigger] next[i] == before[i]
    &&& next.last().event == e
    &&& next.last().to@ == audience(filters, e)
}

/// The in-memory processor: the authenticated state, the network it
/// serves (every network where none is named), one signal chain per
/// neuron (the first entry for a neuron being its chain), the subscribers'
/// filters, and the deliveries not yet handed out.
pub struct Cybergraph {
    pub bbg: Bbg,
    served: Option<Particle>,
    chains: Vec<(NeuronId, SignalChain)>,
    filters: Vec<Filter>,
    outbox: Vec<Delivery>,
}

/// The proof hash a signal header records before proofs are enforced.
pub open spec fn no_proof() -> Particle {
    choose|z: Particle| z@ == zero_prev()
}

/// How a processor serving `served` answers a signal: a signal for another
/// network is refused; else what the neuron's chain answers;
/// else a double spend where the state refuses its box moves; else an
/// overflow where a link would raise a balance past `u64::MAX`; else
/// nothing (acceptance).
pub open spec fn signal_answer(served: Option<Particle>, spent: Set<Particle>, balances: Map<Particle, u64>,
    chain: Map<u64, (NeuronId, u64, Particle, Particle)>, s: Signal) -> Option<ApiError> {
    if served matches Some(n) && s.network != n {
        Some(ApiError::WrongNetwork { expected: served->0, found: s.network })
    } else { match chain_answer(chain, s.neuron, s.step, s.prev) {
        Some(e) => Some(ApiError::SyncRejected(e)),
        None => if !spend_ok(spent, s.box_moves@) {
            Some(ApiError::BbgRejected(InsertError::DoubleSpend))
        } else if balances_after(balances, s.links@) is None {
            Some(ApiError::AmountOverflow)
        } else {
            None
        },
    } }
}

/// A chain that holds exactly the steps below its length.
pub open spec fn dense(entries: Map<u64, (NeuronId, u64, Particle, Particle)>) -> bool {
    &&& entries.dom().finite()
    &&& forall|k: u64| #[trigger] entries.contains_key(k) <==> k < entries.dom().len()
}

fn deliver(filters: &Vec<Filter>, e: Event) -> (d: Delivery)
    ensures
        d.event == e,
        d.to@ == audience(filters@, e),
{
    let mut to: Vec<usize> = Vec::new();
    let mut i: usize = 0;
    while i < filters.len()
        invariant
            i <= filters@.len(),
            to@ == audience(filters@.take(i as int), e),
        decreases filters@.len() - i,
    {
        proof {
            assert(filters@.take(i + 1).drop_last() =~= filters@.take(i as int));
            assert(filters@.take(i + 1).last() == filters@[i as int]);
        }
        if matches(&filters[i], &e) {
            to.push(i);
        }
        proof {
            assert(to@ =~= audience(filters@.take(i + 1), e));
        }
        i = i + 1;
    }
    proof {
        assert(filters@.take(filters@.len() as int) =~= filters@);
    }
    Delivery { event: e, to }
}

impl Cybergraph {
    /// The chains, by neuron.
    pub closed spec fn chains_view(&self) -> Seq<(NeuronId, SignalChain)> {
        self.chains@
    }

    /// The network served, where one is named.
    pub closed spec fn served_view(&self) -> Option<Particle> {
        self.served
    }

    /// The subscribers' filters, in the order they subscribed.
    pub closed spec fn filters_view(&self) -> Seq<Filter> {
        self.filters@
    }

    /// The deliveries not yet handed out, oldest first.
    pub closed spec fn outbox_view(&self) -> Seq<Delivery> {
        self.outbox@
    }

    /// The authenticated state.
    pub closed spec fn state(&self) -> Bbg {
        self.bbg
    }

    /// What the chain of `neuron` holds.
    pub open spec fn chain(&self, neuron: NeuronId) -> Map<u64, (NeuronId, u64, Particle, Particle)> {
        chain_of(self.chains_view(), neuron)
    }

    /// Whether `neuron` has a chain.
    pub open spec fn has_chain_view(&self, neuron: NeuronId) -> bool {
        chained(self.chains_view(), neuron)
    }

    /// Every chain holds exactly the steps below its length.
    pub closed spec fn wf(&self) -> bool {
        forall|i: int| 0 <= i < self.chains@.len() ==> dense(#[trigger] chain_entries(self.chains@[i].1))
    }

    /// Nothing changed: every neuron has the chain it had, holding what it
    /// held; the state, the subscribers and the pending deliveries are the
    /// same.
    pub open spec fn same(&self, other: &Cybergraph) -> bool {
        &&& forall|m: NeuronId| #[trigger] self.chain(m) == other.chain(m)
        &&& forall|m: NeuronId| #[trigger] self.has_chain_view(m) == other.has_chain_view(m)
        &&& self.state() == other.state()
        &&& self.served_view() == other.served_view()
        &&& self.filters_view() == other.filters_view()
        &&& self.outbox_view() == other.outbox_view()
    }

    /// How the processor answers `s`.
    pub open spec fn answer(&self, s: Signal) -> Option<ApiError> {
        signal_answer(self.served_view(), bbg_nullifiers(self.state()), bbg_balances(self.state()), self.chain(s.neuron), s)
    }

    /// `next` is this processor with `s` applied: the neuron has a chain
    /// that holds `s` at its step, and no other chain changed; the state
    /// has seen the nullifiers of its box moves, its links moved particles,
    /// axons, focus and balances, it holds the signal's header at its step
    /// and the same intents; the subscribers are the same.
    pub open spec fn applies(&self, next: &Cybergraph, s: Signal) -> bool {
        &&& forall|m: NeuronId| #[trigger] next.chain(m) == if m == s.neuron {
            self.chain(m).insert(s.step, (s.neuron, s.step, s.prev, s.network))
        } else {
            self.chain(m)
        }
        &&& forall|m: NeuronId| #[trigger] next.has_chain_view(m) == (m == s.neuron || self.has_chain_view(m))
        &&& bbg_nullifiers(next.state()) == bbg_nullifiers(self.state()) + nullifiers(s.box_moves@)
        &&& graph_after(graph_of(self.state()), s.neuron, s.links@) == Some(graph_of(next.state()))
        &&& bbg_intents(next.state()) == bbg_intents(self.state())
        &&& bbg_signals(next.state()) == bbg_signals(self.state()).insert(s.step,
            (s.neuron, s.network, s.links@.len() as u32, s.height, no_proof()))
        &&& next.filters_view() == self.filters_view()
        &&& next.served_view() == self.served_view()
    }

    /// A processor with empty state, no chains and no subscribers, serving
    /// every network.
    pub fn new() -> (g: Self)
        ensures
            g.wf(),
            g.served_view() is None,
            g.chains_view().len() == 0,
            forall|m: NeuronId| #[trigger] g.chain(m) == Map::<u64, (NeuronId, u64, Particle, Particle)>::empty(),
            forall|m: NeuronId| !#[trigger] g.has_chain_view(m),
            bbg_intents(g.state()).dom().is_empty(),
            bbg_signals(g.state()).dom().is_empty(),
            bbg_nullifiers(g.state()).is_empty(),
            bbg_particles(g.state()).dom().is_empty(),
            bbg_balances(g.state()).dom().is_empty(),
            g.filters_view().len() == 0,
            g.outbox_view().len() == 0,
    {
        let g = Cybergraph { bbg: bbg_new(), served: None, chains: Vec::new(), filters: Vec::new(), outbox: Vec::new() };
        proof {
            assert forall|m: NeuronId| #[trigger] g.chain(m) == Map::<u64, (NeuronId, u64, Particle, Particle)>::empty() by {
                assert(!exists|k: int| #[trigger] first_chain(g.chains@, m, k));
            }
        }
        g
    }

    /// A processor like `new`, serving only `network`.
    pub fn serving(network: Particle) -> (g: Self)
        ensures
            g.wf(),
            g.served_view() == Some(network),
            forall|m: NeuronId| !#[trigger] g.has_chain_view(m),
            g.filters_view().len() == 0,
            g.outbox_view().len() == 0,
    {
        let mut g = Cybergraph::new();
        g.served = Some(network);
        proof {
            assert forall|m: NeuronId| !#[trigger] g.has_chain_view(m) by {
                assert(!exists|k: int| #[trigger] first_chain(g.chains@, m, k));
            }
        }
        g
    }

    /// Register a subscriber's filter; its position identifies it in the
    /// deliveries.
    pub fn subscribe(&mut self, filter: Filter) -> (id: usize)
        requires
            old(self).filters_view().len() < usize::MAX,
        ensures
            id == old(self).filters_view().len(),
            final(self).filters_view() == old(self).filters_view().push(filter),
            final(self).chains_view() == old(self).chains_view(),
            final(self).state() == old(self).state(),
            final(self).outbox_view() == old(self).outbox_view(),
            final(self).served_view() == old(self).served_view(),
            final(self).wf() == old(self).wf(),
    {
        let id = self.filters.len();
        self.filters.push(filter);
        id
    }

    /// Hand out the deliveries made so far, oldest first.
    pub fn take_deliveries(&mut self) -> (r: Vec<Delivery>)
        ensures
            r@ == old(self).outbox_view(),
            final(self).outbox_view().len() == 0,
            final(self).chains_view() == old(self).chains_view(),
            final(self).state() == old(self).state(),
            final(self).filters_view() == old(self).filters_view(),
            final(self).served_view() == old(self).served_view(),
            final(self).wf() == old(self).wf(),
    {
        let mut out: Vec<Delivery> = Vec::new();
        std::mem::swap(&mut out, &mut self.outbox);
        out
    }

    /// How many signals the chain of `neuron` holds.
    pub fn chain_length(&self, neuron: &NeuronId) -> (n: usize)
        ensures
            n == self.chain(*neuron).dom().len(),
    {
        match find_chain(&self.chains, neuron) {
            Some(i) => {
                proof {
                    lemma_chain_at(self.chains@, *neuron, i as int);
                }
                chain_len(&self.chains[i].1)
            },
            None => {
                proof {
                    assert(!exists|k: int| #[trigger] first_chain(self.chains@, *neuron, k));
                    assert(self.chain(*neuron).dom() =~= Set::empty());
                }
                0
            },
        }
    }

    /// Whether `neuron` has a chain.
    pub fn has_chain(&self, neuron: &NeuronId) -> (r: bool)
        ensures
            r == self.has_chain_view(*neuron),
    {
        match find_chain(&self.chains, neuron) {
            Some(_) => true,
            None => {
                proof {
                    assert(!exists|k: int| #[trigger] first_chain(self.chains@, *neuron, k));
                }
                false
            },
        }
    }

    /// Whether an intent is on record under `key`.
    pub fn has_intent(&self, key: &Particle) -> (r: bool)
        ensures
            r == bbg_intents(self.state()).contains_key(*key),
    {
        bbg_has_intent(&self.bbg, key)
    }

    /// Whether the state has seen `nullifier` spent.
    pub fn spent(&self, nullifier: &Particle) -> (r: bool)
        ensures
            r == bbg_nullifiers(self.state()).contains(*nullifier),
    {
        bbg_spent(&self.bbg, nullifier)
    }

    /// Declare an unsealed intent: its record is kept under the key Hemera
    /// over the neuron, the inception height and the scope hash, which is
    /// returned, and `IntentDeclared` is delivered to the subscribers whose
    /// filters admit it. Nothing else changes.
    pub fn intend(&mut self, intent: Intent) -> (r: Result<Particle, ApiError>)
        ensures
            r matches Ok(key) && key@ == hemera_hash(intent.neuron@ + le64(intent.h0)
                + scope_hash(intent.scope.target, intent.scope.predicate@, intent.scope.deadline, intent.scope.constraints@)),
            r matches Ok(key) && exists|sh: Particle| #[trigger] sh@ == scope_hash(intent.scope.target, intent.scope.predicate@,
                intent.scope.deadline, intent.scope.constraints@)
                && bbg_intents(final(self).state()) == bbg_intents(old(self).state()).insert(key, (intent.neuron, intent.h0, sh, intent.signature)),
            r matches Ok(key) && announced(old(self).outbox_view(), final(self).outbox_view(), old(self).filters_view(),
                Event::IntentDeclared { key, neuron: intent.neuron, h0: intent.h0 }),
            final(self).chains_view() == old(self).chains_view(),
            final(self).filters_view() == old(self).filters_view(),
            final(self).served_view() == old(self).served_view(),
            final(self).wf() == old(self).wf(),
            bbg_signals(final(self).state()) == bbg_signals(old(self).state()),
            bbg_nullifiers(final(self).state()) == bbg_nullifiers(old(self).state()),
            graph_of(final(self).state()) == graph_of(old(self).state()),
    {
        let sh = intent.scope.hash();
        let key = bbg_apply_intent(&mut self.bbg, intent.neuron, intent.h0, sh, intent.signature);
        let d = deliver(&self.filters, Event::IntentDeclared { key, neuron: intent.neuron, h0: intent.h0 });
        self.outbox.push(d);
        proof {
            assert(self.chains@ == old(self).chains@);
            assert(self.wf() == old(self).wf());
        }
        Ok(key)
    }

    /// Finalize a declared intent into a signal. An undeclared intent is
    /// refused; otherwise the signal is answered and applied as by `link`,
    /// and `SignalSealed` is delivered. A refused call changes nothing and
    /// delivers nothing.
    pub fn seal(&mut self, intent_key: Particle, signal: Signal) -> (r: Result<(), ApiError>)
        requires
            old(self).wf(),
        ensures
            final(self).wf(),
            !bbg_intents(old(self).state()).contains_key(intent_key) ==> r == Err::<(), ApiError>(ApiError::UnknownIntent(intent_key)),
            bbg_intents(old(self).state()).contains_key(intent_key) ==> match old(self).answer(signal) {
                Some(e) => r == Err::<(), ApiError>(e),
                None => r is Ok && old(self).applies(final(self), signal)
                    && announced(old(self).outbox_view(), final(self).outbox_view(), old(self).filters_view(),
                        Event::SignalSealed { intent_key, neuron: signal.neuron, step: signal.step }),
            },
            r is Err ==> final(self).same(old(self)),
    {
        if !bbg_has_intent(&self.bbg, &intent_key) {
            return Err(ApiError::UnknownIntent(intent_key));
        }
        match self.commit_signal(&signal) {
            Ok(_) => {
                let ghost mid = *self;
                let d = deliver(&self.filters, Event::SignalSealed { intent_key, neuron: signal.neuron, step: signal.step });
                self.outbox.push(d);
                proof {
                    assert(self.chains_view() == mid.chains_view());
                    assert(self.state() == mid.state());
                    assert(self.filters_view() == mid.filters_view());
                    assert(self.outbox_view() == mid.outbox_view().push(d));
                    assert forall|m: NeuronId| #[trigger] self.chain(m) == mid.chain(m) by {}
                    assert forall|m: NeuronId| #[trigger] self.has_chain_view(m) == mid.has_chain_view(m) by {}
                }
                Ok(())
            },
            Err(e) => Err(e),
        }
    }

    /// Submit a signal in one step, with no intent phase. The neuron's chain
    /// answers first; then the state refuses box moves that spend a nullifier
    /// it has seen or spend one twice, and links that would raise a balance
    /// past `u64::MAX`. An accepted signal is entered in its chain (a new
    /// chain for a new neuron), its box moves and cyberlinks are applied to
    /// the state, its header recorded, and `Linked` delivered; a refused one
    /// changes nothing and delivers nothing.
    pub fn link(&mut self, signal: Signal) -> (r: Result<(), ApiError>)
        requires
            old(self).wf(),
        ensures
            final(self).wf(),
            match old(self).answer(signal) {
                Some(e) => r == Err::<(), ApiError>(e),
                None => r is Ok && old(self).applies(final(self), signal)
                    && announced(old(self).outbox_view(), final(self).outbox_view(), old(self).filters_view(),
                        Event::Linked { neuron: signal.neuron, step: signal.step }),
            },
            r is Err ==> final(self).same(old(self)),
    {
        match self.commit_signal(&signal) {
            Ok(_) => {
                let ghost mid = *self;
                let d = deliver(&self.filters, Event::Linked { neuron: signal.neuron, step: signal.step });
                self.outbox.push(d);
                proof {
                    assert(self.chains_view() == mid.chains_view());
                    assert(self.state() == mid.state());
                    assert(self.filters_view() == mid.filters_view());
                    assert(self.outbox_view() == mid.outbox_view().push(d));
                    assert forall|m: NeuronId| #[trigger] self.chain(m) == mid.chain(m) by {}
                    assert forall|m: NeuronId| #[trigger] self.has_chain_view(m) == mid.has_chain_view(m) by {}
                }
                Ok(())
            },
            Err(e) => Err(e),
        }
    }

    /// Run a query. Queries are answered by the inf engine over the state's
    /// relations; the processor hands the script on as it is.
    pub fn query(&self, inf_script: &str) -> (r: String)
        ensures
            r@ == inf_script@,
    {
        inf_script.to_owned()
    }

    /// Order, check and apply a signal; shared by `link` and `seal`.
    fn commit_signal(&mut self, s: &Signal) -> (r: Result<(NeuronId, u64), ApiError>)
        requires
            old(self).wf(),
        ensures
            final(self).wf(),
            match old(self).answer(*s) {
                Some(e) => r == Err::<(NeuronId, u64), ApiError>(e),
                None => r == Ok::<(NeuronId, u64), ApiError>((s.neuron, s.step)) && old(self).applies(final(self), *s)
                    && final(self).outbox_view() == old(self).outbox_view(),
            },
            r is Err ==> final(self).same(old(self)),
    {
        if let Some(n) = self.served {
            if !particle_eq(&s.network, &n) {
                return Err(ApiError::WrongNetwork { expected: n, found: s.network });
            }
        }
        let ghost chains0 = self.chains@;
        let found = find_chain(&self.chains, &s.neuron);
        let (n, mut chain) = match found {
            Some(i) => {
                proof {
                    lemma_chain_at(chains0, s.neuron, i as int);
                }
                self.chains.remove(i)
            },
            None => {
                proof {
                    assert(!exists|k: int| #[trigger] first_chain(chains0, s.neuron, k));
                }
                let c = chain_new();
                proof {
                    assert(chain_entries(c) =~= chain_of(chains0, s.neuron));
                }
                (s.neuron, c)
            },
        };
        let ghost e0 = chain_entries(chain);
        proof {
            assert(n == s.neuron);
            assert(e0 == chain_of(chains0, s.neuron));
            if let Some(i) = found {
                assert(dense(chain_entries(chains0[i as int].1)));
            }
            assert(dense(e0));
        }
        let ghost before = chain;
        let appended = chain_append(&mut chain, s);
        if let Err(e) = appended {
            if let Some(i) = found {
                self.chains.insert(i, (n, chain));
                proof {
                    assert(self.chains@ =~= chains0);
                }
            } else {
                proof {
                    assert(self.chains@ =~= chains0);
                }
            }
            return Err(ApiError::SyncRejected(e));
        }
        let ghost e1 = chain_entries(chain);
        proof {
            assert(!e0.contains_key(s.step));
            assert(e1 == e0.insert(s.step, (s.neuron, s.step, s.prev, s.network)));
            assert(e1.dom() =~= e0.dom().insert(s.step));
            assert(e1.dom().len() == e0.dom().len() + 1);
            assert(dense(e1));
        }
        let refusal = if !spends_ok(&self.bbg, &s.box_moves) {
            Some(ApiError::BbgRejected(InsertError::DoubleSpend))
        } else if !amounts_fit(&self.bbg, &s.links) {
            Some(ApiError::AmountOverflow)
        } else {
            None
        };
        if let Some(e) = refusal {
            chain_retract(&mut chain, s.step);
            proof {
                assert(chain_entries(chain) =~= e0);
            }
            if let Some(i) = found {
                self.chains.insert(i, (n, chain));
                proof {
                    assert(self.chains@ =~= chains0.update(i as int, (n, chain)));
                    assert forall|m: NeuronId| #[trigger] chain_of(self.chains@, m) == chain_of(chains0, m) by {
                        lemma_chain_update(chains0, i as int, chain, m);
                    }
                    assert forall|m: NeuronId| #[trigger] chained(self.chains@, m) == chained(chains0, m) by {
                        lemma_chain_update(chains0, i as int, chain, m);
                    }
                    assert forall|j: int| 0 <= j < self.chains@.len() implies dense(#[trigger] chain_entries(self.chains@[j].1)) by {
                        if j != i {
                            assert(self.chains@[j] == chains0[j]);
                        }
                    }
                }
            } else {
                proof {
                    assert(self.chains@ =~= chains0);
                }
            }
            return Err(e);
        }
        match found {
            Some(i) => {
                self.chains.insert(i, (n, chain));
                proof {
                    assert(self.chains@ =~= chains0.update(i as int, (n, chain)));
                    assert forall|m: NeuronId| #[trigger] chain_of(self.chains@, m) == if m == s.neuron {
                        chain_of(chains0, m).insert(s.step, (s.neuron, s.step, s.prev, s.network))
                    } else {
                        chain_of(chains0, m)
                    } by {
                        lemma_chain_update(chains0, i as int, chain, m);
                    }
                    assert forall|m: NeuronId| #[trigger] chained(self.chains@, m) == (m == s.neuron || chained(chains0, m)) by {
                        lemma_chain_update(chains0, i as int, chain, m);
                        assert(first_chain(chains0, s.neuron, i as int));
                    }
                    assert forall|j: int| 0 <= j < self.chains@.len() implies dense(#[trigger] chain_entries(self.chains@[j].1)) by {
                        if j != i {
                            assert(self.chains@[j] == chains0[j]);
                        }
                    }
                }
            },
            None => {
                self.chains.push((n, chain));
                proof {
                    assert forall|m: NeuronId| #[trigger] chain_of(self.chains@, m) == if m == s.neuron {
                        chain_of(chains0, m).insert(s.step, (s.neuron, s.step, s.prev, s.network))
                    } else {
                        chain_of(chains0, m)
                    } by {
                        lemma_chain_push(chains0, n, chain, m);
                    }
                    assert forall|m: NeuronId| #[trigger] chained(self.chains@, m) == (m == s.neuron || chained(chains0, m)) by {
                        lemma_chain_push(chains0, n, chain, m);
                    }
                    assert forall|j: int| 0 <= j < self.chains@.len() implies dense(#[trigger] chain_entries(self.chains@[j].1)) by {
                        if j < chains0.len() {
                            assert(self.chains@[j] == chains0[j]);
                        }
                    }
                }
            },
        }
        proof {
            lemma_graph_balances(graph_of(self.bbg), s.neuron, s.links@);
        }
        match bbg_insert(&mut self.bbg, s) {
            Ok(()) => {},
            Err(e) => {
                return Err(ApiError::BbgRejected(e));
            },
        }
        let zero: Particle = [0u8; 32];
        proof {
            assert(zero@ =~= zero_prev());
            let z = no_proof();
            assert(z@ == zero_prev());
            assert(z@ =~= zero@);
            assert(z == zero);
        }
        bbg_apply_signal_record(&mut self.bbg, s.step, s.neuron, s.network, s.links.len() as u32, s.height, zero);
        Ok((s.neuron, s.step))
    }
}

/// A signal is applied once: offered again to the processor it was applied
/// to, the same signal is answered as an equivocation, whatever its box
/// moves.
pub proof fn law_no_replay(g: Cybergraph, next: Cybergraph, s: Signal)
    requires
        g.answer(s) is None,
        g.applies(&next, s),
    ensures
        next.answer(s) == Some(ApiError::SyncRejected(ChainError::Equivocation)),
{
    assert(next.chain(s.neuron) == g.chain(s.neuron).insert(s.step, (s.neuron, s.step, s.prev, s.network)));
}

} // verus!
