use cybergraph::api::{
    ApiError, BoxMoveRecord, ChainError, Cybergraph, CyberlinkRecord, Event, Filter, InsertError, Intent, Scope, Signal,
};

fn n(seed: u8) -> [u8; 32] {
    [seed; 32]
}

fn p(seed: u8) -> [u8; 32] {
    [seed; 32]
}

fn signal(neuron: [u8; 32], step: u64, prev: [u8; 32], nullifiers: &[u8]) -> Signal {
    Signal {
        neuron,
        network: [0; 32],
        links: vec![],
        delta_pi: vec![],
        box_moves: nullifiers
            .iter()
            .map(|&v| BoxMoveRecord { nullifier: [v; 32], commitment: Some(([v.wrapping_add(1); 32], 7)) })
            .collect(),
        prev,
        step,
        height: 0,
    }
}

fn empty_signal(neuron: [u8; 32], step: u64, prev: [u8; 32]) -> Signal {
    signal(neuron, step, prev, &[])
}

fn one_link_signal(neuron: [u8; 32], step: u64, prev: [u8; 32], from: [u8; 32], to: [u8; 32]) -> Signal {
    let mut s = empty_signal(neuron, step, prev);
    s.links.push(CyberlinkRecord { neuron, from, to, token: p(0), amount: 1, valence: 1, height: 0 });
    s
}

fn link(neuron: [u8; 32], to: u8, amount: u64) -> CyberlinkRecord {
    CyberlinkRecord { neuron, from: [8; 32], to: [to; 32], token: [0; 32], amount, valence: 1, height: 0 }
}

/// The chain-position hash of a signal.
fn position(s: &Signal) -> [u8; 32] {
    let mut buf = s.neuron.to_vec();
    buf.extend_from_slice(&s.step.to_le_bytes());
    buf.extend_from_slice(&s.prev);
    buf.extend_from_slice(&s.network);
    *cyber_hemera::hash(&buf).as_bytes()
}

fn scope(target: [u8; 32]) -> Scope {
    Scope { target, predicate: b"do-thing".to_vec(), deadline: Some(100), constraints: vec![] }
}

fn intent(neuron: [u8; 32], h0: u64, target: [u8; 32]) -> Intent {
    Intent { neuron, h0, scope: scope(target), signature: [0u8; 64] }
}

/// The events delivered so far, counted as a subscriber of every event.
fn events(graph: &mut Cybergraph, seen: &mut usize) -> usize {
    for d in graph.take_deliveries() {
        *seen += d.to.len();
    }
    *seen
}

fn setup() -> (Cybergraph, usize, Signal) {
    let mut graph = Cybergraph::new();
    graph.subscribe(Filter::All);
    let first = signal([1; 32], 0, [0; 32], &[11]);
    graph.link(first.clone()).unwrap();
    let mut seen = 0;
    events(&mut graph, &mut seen);
    (graph, seen, first)
}

/// The root, which neurons have chains and how long, and the events
/// delivered.
fn snapshot(graph: &mut Cybergraph, seen: &mut usize) -> ([u8; 32], Vec<(bool, usize)>, usize) {
    (
        graph.bbg.state.root(),
        [n(1), n(2)].iter().map(|m| (graph.has_chain(m), graph.chain_length(m))).collect(),
        events(graph, seen),
    )
}

#[test]
fn intend_persists_and_returns_key() {
    let mut g = Cybergraph::new();
    let key = g.intend(intent(n(1), 0, p(2))).unwrap();
    assert!(g.bbg.state.intents.contains_key(&key));
}

#[test]
fn seal_unknown_intent_fails() {
    let mut g = Cybergraph::new();
    let s = empty_signal(n(1), 0, [0u8; 32]);
    let err = g.seal(p(99), s);
    assert!(matches!(err, Err(ApiError::UnknownIntent(_))));
}

#[test]
fn intend_then_seal_succeeds() {
    let mut g = Cybergraph::new();
    let key = g.intend(intent(n(1), 0, p(2))).unwrap();
    let s = empty_signal(n(1), 0, [0u8; 32]);
    g.seal(key, s).unwrap();
    assert!(g.bbg.state.signals.contains_key(&0));
}

#[test]
fn link_atomic_path() {
    let mut g = Cybergraph::new();
    let s = empty_signal(n(1), 0, [0u8; 32]);
    g.link(s).unwrap();
    assert!(g.bbg.state.signals.contains_key(&0));
}

#[test]
fn link_applies_cyberlinks_to_bbg_state() {
    let mut g = Cybergraph::new();
    let s = one_link_signal(n(1), 0, [0u8; 32], p(2), p(3));
    g.link(s).unwrap();
    let target = g.bbg.state.particles.get(&p(3)).expect("target particle materialized");
    assert_eq!(target.energy, 1, "target energy reflects the staked link");
    assert!(g.bbg.state.axons_out.get(&p(2)).is_some(), "outgoing axon recorded");
    assert!(g.bbg.state.axons_in.get(&p(3)).is_some(), "incoming axon recorded");
}

#[test]
fn link_moves_the_root() {
    let mut g = Cybergraph::new();
    let before = g.bbg.state.root();
    g.link(one_link_signal(n(1), 0, [0u8; 32], p(2), p(3))).unwrap();
    assert_ne!(g.bbg.state.root(), before, "applying cyberlinks advances BBG_root");
}

#[test]
fn seal_applies_cyberlinks_to_bbg_state() {
    let mut g = Cybergraph::new();
    let key = g.intend(intent(n(1), 0, p(3))).unwrap();
    let s = one_link_signal(n(1), 0, [0u8; 32], p(2), p(3));
    g.seal(key, s).unwrap();
    assert_eq!(g.bbg.state.particles.get(&p(3)).unwrap().energy, 1);
}

#[test]
fn link_accumulates_across_signals() {
    let mut g = Cybergraph::new();
    let s0 = one_link_signal(n(1), 0, [0u8; 32], p(2), p(3));
    let prev = position(&s0);
    g.link(s0).unwrap();
    let s1 = one_link_signal(n(1), 1, prev, p(2), p(3));
    g.link(s1).unwrap();
    assert_eq!(g.bbg.state.particles.get(&p(3)).unwrap().energy, 2);
}

#[test]
fn subscribe_receives_matching_events() {
    let mut g = Cybergraph::new();
    let all = g.subscribe(Filter::All);
    g.intend(intent(n(1), 0, p(2))).unwrap();
    let s = empty_signal(n(1), 0, [0u8; 32]);
    g.link(s).unwrap();
    let tags: Vec<&str> = g
        .take_deliveries()
        .into_iter()
        .filter(|d| d.to.contains(&all))
        .map(|d| match d.event {
            Event::IntentDeclared { .. } => "intent",
            Event::SignalSealed { .. } => "seal",
            Event::Linked { .. } => "link",
        })
        .collect();
    assert_eq!(tags, vec!["intent", "link"]);
}

#[test]
fn subscribe_by_neuron_filters() {
    let mut g = Cybergraph::new();
    let one = g.subscribe(Filter::ByNeuron(n(1)));
    g.link(empty_signal(n(1), 0, [0u8; 32])).unwrap();
    g.link(empty_signal(n(2), 0, [0u8; 32])).unwrap();
    let count = g.take_deliveries().iter().filter(|d| d.to.contains(&one)).count();
    assert_eq!(count, 1);
}

#[test]
fn query_returns_script_stub() {
    let g = Cybergraph::new();
    let q = g.query("?[x] := *cyberlinks{}");
    assert_eq!(q, "?[x] := *cyberlinks{}");
}

#[test]
fn rejected_spend_preserves_existing_chain_and_allows_same_step_repair() {
    let (mut graph, mut seen, first) = setup();
    let before = snapshot(&mut graph, &mut seen);
    let mut bad = signal(first.neuron, 1, position(&first), &[22, 11]);
    bad.links.push(link(first.neuron, 9, 3));
    assert!(matches!(graph.link(bad), Err(ApiError::BbgRejected(InsertError::DoubleSpend))));
    assert_eq!(snapshot(&mut graph, &mut seen), before);
    assert!(!graph.bbg.state.nullifiers.contains(&[22; 32]));
    graph.link(signal(first.neuron, 1, position(&first), &[22])).unwrap();
    assert_eq!(graph.chain_length(&first.neuron), 2);
}

#[test]
fn rejected_spend_does_not_create_an_empty_or_advanced_new_subject_chain() {
    let (mut graph, mut seen, _) = setup();
    let before = snapshot(&mut graph, &mut seen);
    assert!(matches!(
        graph.link(signal([2; 32], 0, [0; 32], &[11])),
        Err(ApiError::BbgRejected(InsertError::DoubleSpend))
    ));
    assert_eq!(snapshot(&mut graph, &mut seen), before);
    assert!(!graph.has_chain(&[2; 32]));
    graph.link(signal([2; 32], 0, [0; 32], &[33])).unwrap();
}

#[test]
fn duplicate_and_bad_lineage_leave_graph_and_chain_unchanged() {
    let (mut graph, mut seen, first) = setup();
    for mut bad in [
        first.clone(),
        signal(first.neuron, 5, position(&first), &[44]),
        signal(first.neuron, 1, [9; 32], &[44]),
        signal([2; 32], 1, [0; 32], &[44]),
    ] {
        bad.links.push(link(first.neuron, 9, 3));
        let before = snapshot(&mut graph, &mut seen);
        assert!(matches!(graph.link(bad), Err(ApiError::SyncRejected(_))));
        assert_eq!(snapshot(&mut graph, &mut seen), before);
    }
}

#[test]
fn repeated_nullifier_inside_one_signal_is_rejected_atomically() {
    let (mut graph, mut seen, first) = setup();
    let before = snapshot(&mut graph, &mut seen);
    assert!(matches!(
        graph.link(signal(first.neuron, 1, position(&first), &[44, 44])),
        Err(ApiError::BbgRejected(InsertError::DoubleSpend))
    ));
    assert_eq!(snapshot(&mut graph, &mut seen), before);
}

#[test]
fn overflowing_batch_amount_is_rejected_before_any_public_or_private_mutation() {
    let (mut graph, mut seen, first) = setup();
    graph.bbg.state.balances.insert(bbg::balance_key(&[9; 32], &[0; 32]), u64::MAX);
    graph.bbg.state.refresh_root();
    let before = snapshot(&mut graph, &mut seen);
    let mut bad = signal(first.neuron, 1, position(&first), &[44]);
    bad.links = vec![link(first.neuron, 7, 3), link(first.neuron, 9, 1)];
    assert!(matches!(graph.link(bad), Err(ApiError::AmountOverflow)));
    assert_eq!(snapshot(&mut graph, &mut seen), before);
    assert!(!graph.bbg.state.nullifiers.contains(&[44; 32]));
}

#[test]
fn rejected_seal_preserves_intent_chain_state_and_events() {
    let (mut graph, mut seen, first) = setup();
    let intent = graph
        .intend(Intent {
            neuron: first.neuron,
            h0: 0,
            signature: [0; 64],
            scope: Scope { target: [7; 32], predicate: vec![], deadline: None, constraints: vec![] },
        })
        .unwrap();
    let before = snapshot(&mut graph, &mut seen);
    assert!(matches!(
        graph.seal(intent, signal(first.neuron, 1, position(&first), &[11])),
        Err(ApiError::BbgRejected(InsertError::DoubleSpend))
    ));
    assert_eq!(snapshot(&mut graph, &mut seen), before);
    assert!(graph.bbg.state.intents.contains_key(&intent));
    graph.seal(intent, signal(first.neuron, 1, position(&first), &[55])).unwrap();
}

#[test]
fn amount_preflight_preserves_ordered_debits_and_u64_boundary_values() {
    let (mut graph, mut seen, first) = setup();
    let key7 = bbg::balance_key(&[7; 32], &[0; 32]);
    let key8 = bbg::balance_key(&[8; 32], &[0; 32]);
    graph.bbg.state.balances.insert(key7, u64::MAX);
    graph.bbg.state.refresh_root();
    let mut next = signal(first.neuron, 1, position(&first), &[]);
    let mut outbound = link(first.neuron, 8, 5);
    outbound.from = [7; 32];
    next.links = vec![outbound, link(first.neuron, 7, 5), link(first.neuron, 9, 0)];
    graph.link(next.clone()).unwrap();
    assert_eq!(graph.bbg.state.balances[&key7], u64::MAX);
    assert_eq!(graph.bbg.state.balances[&key8], 0);
    assert_eq!(graph.chain_length(&first.neuron), 2);
    let before = snapshot(&mut graph, &mut seen);
    let mut overflow = signal(first.neuron, 2, position(&next), &[]);
    overflow.links.push(link(first.neuron, 7, 1));
    assert!(matches!(graph.link(overflow), Err(ApiError::AmountOverflow)));
    assert_eq!(snapshot(&mut graph, &mut seen), before);
}

#[test]
fn wrong_network_cannot_install_a_subject_chain_or_touch_bbg() {
    let mut graph = Cybergraph::serving([3; 32]);
    let mut seen = 0;
    let before = snapshot(&mut graph, &mut seen);
    let mut wrong = signal([1; 32], 0, [0; 32], &[11]);
    wrong.network = [4; 32];
    wrong.links.push(link(wrong.neuron, 9, 1));
    assert!(matches!(graph.link(wrong), Err(ApiError::WrongNetwork { .. })));
    assert_eq!(snapshot(&mut graph, &mut seen), before);
}

#[test]
fn intent_key_is_the_hash_of_neuron_height_and_scope() {
    let mut graph = Cybergraph::new();
    let i = intent([3; 32], 0, [7; 32]);
    let scope = i.scope.hash();
    let key = graph.intend(i).unwrap();
    let mut buf = vec![3u8; 32];
    buf.extend_from_slice(&0u64.to_le_bytes());
    buf.extend_from_slice(&scope);
    assert_eq!(key, *cyber_hemera::hash(&buf).as_bytes());
    assert!(graph.has_intent(&key));
    assert!(!graph.has_intent(&[0; 32]));
    assert_eq!(graph.intend(intent([3; 32], 0, [7; 32])).unwrap(), key);
}

#[test]
fn refused_verbs_deliver_nothing_and_intents_are_announced() {
    let mut graph = Cybergraph::new();
    let all = graph.subscribe(Filter::All);
    let other = graph.subscribe(Filter::ByNeuron(n(9)));
    let target = graph.subscribe(Filter::ByTargetParticle(p(7)));
    let key = graph.intend(intent(n(1), 4, p(7))).unwrap();
    let ds = graph.take_deliveries();
    assert_eq!(ds.len(), 1);
    assert!(matches!(ds[0].event, Event::IntentDeclared { key: k, neuron, h0: 4 } if k == key && neuron == n(1)));
    assert_eq!(ds[0].to, vec![all]);
    assert!(!ds[0].to.contains(&other) && !ds[0].to.contains(&target));
    assert!(graph.seal(p(5), empty_signal(n(1), 0, [0; 32])).is_err());
    assert!(graph.link(empty_signal(n(1), 3, [0; 32])).is_err());
    assert!(graph.take_deliveries().is_empty());
    graph.seal(key, empty_signal(n(1), 0, [0; 32])).unwrap();
    let ds = graph.take_deliveries();
    assert!(matches!(ds[0].event, Event::SignalSealed { intent_key, step: 0, .. } if intent_key == key));
}

#[test]
fn chains_grow_one_step_at_a_time_per_neuron() {
    let mut graph = Cybergraph::new();
    let a0 = empty_signal([1; 32], 0, [0; 32]);
    let b0 = empty_signal([2; 32], 0, [0; 32]);
    graph.link(a0.clone()).unwrap();
    graph.link(b0.clone()).unwrap();
    graph.link(empty_signal([1; 32], 1, position(&a0))).unwrap();
    assert_eq!(graph.chain_length(&[1; 32]), 2);
    assert_eq!(graph.chain_length(&[2; 32]), 1);
    assert_eq!(graph.chain_length(&[3; 32]), 0);
    assert!(!graph.has_chain(&[3; 32]));
    assert!(matches!(
        graph.link(empty_signal([2; 32], 1, position(&a0))),
        Err(ApiError::SyncRejected(ChainError::PrevMismatch))
    ));
    graph.link(empty_signal([2; 32], 1, position(&b0))).unwrap();
    assert!(matches!(
        graph.link(empty_signal([4; 32], 0, [1; 32])),
        Err(ApiError::SyncRejected(ChainError::PrevMismatch))
    ));
}

#[test]
fn links_debit_focus_and_move_balances() {
    let mut g = Cybergraph::new();
    let mut s = empty_signal(n(1), 0, [0; 32]);
    s.links.push(CyberlinkRecord { neuron: n(1), from: p(2), to: p(3), token: p(0), amount: 4, valence: 1, height: 0 });
    g.link(s).unwrap();
    assert_eq!(g.bbg.state.balances[&bbg::balance_key(&p(3), &p(0))], 4);
    assert_eq!(g.bbg.state.balances[&bbg::balance_key(&p(2), &p(0))], 0);
    let axon = bbg::state::axon_id(&p(2), &p(3));
    assert_eq!(g.bbg.state.particles[&axon].weight, 4);
    assert_eq!(g.bbg.state.axons_out[&p(2)], vec![axon]);
}
