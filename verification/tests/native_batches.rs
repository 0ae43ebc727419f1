use cybergraph::native::codec::{decode_block, decode_history, decode_receipt};
use cybergraph::keyed::Keyed;
use cybergraph::native::chain::{events, next_position, position_hash, signal_for, validate_chains, Admission, Positions};
use cybergraph::native::commit::{
    accept, accept_step, check_original, check_retry, digest, AcceptNext, Batch, fingerprint, next_head, next_request, request_identity, request_weight, signal_positions,
    stored_receipt, validate_payments, wire_offsets, wire_plan, WirePlan,
};
use cybergraph::native::economics::{balance_of, Balances, Ledger};
use cybergraph::native::{Error, Event, Head, Link, Operation, Receipt, Signal};

fn hash(b: &[u8]) -> [u8; 32] {
    *cyber_hemera::hash(b).as_bytes()
}

fn signal(neuron: u8, step: u64, prev: [u8; 32]) -> Signal {
    Signal {
        neuron: [neuron; 32],
        network: [0; 32],
        links: vec![],
        delta_pi: vec![],
        prev,
        step,
        height: 0,
        proven: false,
    }
}

fn subsidy(neuron: u8, amount: u64) -> Link {
    Link { neuron: [neuron; 32], from: hash(b"zheng"), to: hash(b"pussy"), token: [0; 32], amount, valence: 1, height: 0 }
}

#[test]
fn subsidy_links_mint_to_the_signal_neuron() {
    let balances = Balances::new();
    let mut s = signal(1, 0, [0; 32]);
    s.links.push(subsidy(1, 10));
    s.links.push(Link { from: [7; 32], ..subsidy(1, 99) });
    let ledger = Ledger::prepare(&balances, 5, &[Some(s), None]).unwrap();
    assert_eq!(ledger.supply, 15);
    assert_eq!(ledger.observations, vec![(15, 10), (15, 0)]);
    assert_eq!(ledger.balance(&balances, &[1; 32]), 10);
    assert!(!ledger.skipped_payments);
}

#[test]
fn payments_move_funds_or_are_skipped() {
    let mut balances = Balances::new();
    balances.set([1; 32], 10);
    let mut s = signal(1, 0, [0; 32]);
    s.delta_pi.push(([2; 32], 4));
    s.delta_pi.push(([3; 32], 7));
    s.delta_pi.push(([2; 32], 6));
    let ledger = Ledger::prepare(&balances, 0, &[Some(s)]).unwrap();
    assert_eq!(ledger.balance(&balances, &[1; 32]), 0);
    assert_eq!(ledger.balance(&balances, &[2; 32]), 10);
    assert_eq!(ledger.balance(&balances, &[3; 32]), 0);
    assert!(ledger.skipped_payments);
    assert_eq!(balance_of(&balances, &[1; 32]), 10);
}

#[test]
fn ledger_overflow_is_invalid() {
    let mut s = signal(1, 0, [0; 32]);
    s.links.push(subsidy(1, u64::MAX));
    assert!(matches!(Ledger::prepare(&Balances::new(), 1, &[Some(s)]), Err(Error::Invalid(_))));
    let mut balances = Balances::new();
    balances.set([2; 32], u64::MAX);
    balances.set([1; 32], 1);
    let mut s = signal(1, 0, [0; 32]);
    s.delta_pi.push(([2; 32], 1));
    assert!(matches!(Ledger::prepare(&balances, 0, &[Some(s)]), Err(Error::Invalid(_))));
}

#[test]
fn chains_continue_from_known_tips_and_within_a_batch() {
    let tips: Positions = Keyed::new();
    let first = signal(1, 0, [0; 32]);
    let h = position_hash(&first);
    let second = signal(1, 1, h);
    assert!(validate_chains(&tips, &[Some(first), None, Some(second)]).is_ok());
    assert!(matches!(validate_chains(&tips, &[Some(signal(1, 1, [0; 32]))]), Err(Error::Invalid(_))));
    let mut tips: Positions = Keyed::new();
    tips.set([1; 32], (5, [9; 32]));
    assert!(validate_chains(&tips, &[Some(signal(1, 5, [9; 32]))]).is_ok());
    assert!(validate_chains(&tips, &[Some(signal(1, 0, [0; 32]))]).is_err());
    let mut foreign = signal(2, 0, [0; 32]);
    foreign.links.push(subsidy(3, 1));
    assert!(matches!(validate_chains(&tips, &[Some(foreign)]), Err(Error::Invalid(_))));
}

#[test]
fn position_hash_covers_neuron_step_prev_and_network() {
    let s = signal(1, 2, [3; 32]);
    let mut buf = [1u8; 32].to_vec();
    buf.extend_from_slice(&2u64.to_le_bytes());
    buf.extend_from_slice(&[3; 32]);
    buf.extend_from_slice(&[0; 32]);
    assert_eq!(position_hash(&s), hash(&buf));
}

#[test]
fn operations_admit_events_links_and_payments() {
    let mut tips: Positions = Keyed::new();
    tips.set([1; 32], (3, [8; 32]));
    let mut balances = Balances::new();
    balances.set([1; 32], 5);
    assert_eq!(next_position(&tips, &[1; 32]), (3, [8; 32]));
    assert_eq!(next_position(&tips, &[2; 32]), (0, [0; 32]));
    let s = signal_for(&tips, [1; 32]);
    assert_eq!((s.step, s.prev), (3, [8; 32]));
    match events(Operation::Link { neuron: [1; 32], from: [2; 32], to: [3; 32], token: [4; 32], amount: 1, valence: 1 }, &tips, &balances) {
        Ok(Admission::Built { signal, payer }) => {
            assert_eq!(signal.links.len(), 1);
            assert_eq!(signal.step, 3);
            assert!(payer.is_none());
        },
        _ => panic!("link not admitted"),
    }
    match events(Operation::Pay { from: [1; 32], to: [2; 32], amount: 5 }, &tips, &balances) {
        Ok(Admission::Built { signal, payer }) => {
            assert_eq!(signal.delta_pi, vec![([2; 32], 5)]);
            assert_eq!(payer, Some([1; 32]));
        },
        _ => panic!("payment not admitted"),
    }
    assert!(matches!(events(Operation::Pay { from: [1; 32], to: [2; 32], amount: 6 }, &tips, &balances), Err(Error::Invalid(_))));
    assert!(matches!(events(Operation::Pay { from: [1; 32], to: [2; 32], amount: 0 }, &tips, &balances), Err(Error::Invalid(_))));
    assert!(matches!(events(Operation::Events(vec![]), &tips, &balances), Err(Error::Invalid(_))));
    assert!(matches!(events(Operation::Events(vec![Event::Signal(vec![1])]), &tips, &balances), Ok(Admission::Events(_))));
}

#[test]
fn digests_frame_each_part_by_length() {
    let d = digest(b"dom", &[b"ab", b"c"]);
    let mut buf = b"dom".to_vec();
    buf.extend_from_slice(&2u64.to_le_bytes());
    buf.extend_from_slice(b"ab");
    buf.extend_from_slice(&1u64.to_le_bytes());
    buf.extend_from_slice(b"c");
    assert_eq!(d, hash(&buf));
    assert_ne!(digest(b"dom", &[b"a", b"bc"]), d);
}

#[test]
fn request_identity_is_named_or_derived() {
    let f = fingerprint(&[1; 32], b"command");
    assert_eq!(request_identity(Some([7; 32]), &[1; 32], 1, &f), [7; 32]);
    let a = request_identity(None, &[1; 32], 1, &f);
    let b = request_identity(None, &[1; 32], 2, &f);
    assert_ne!(a, b);
    assert_eq!(a, digest(b"cybergraph/server-request/v1\0", &[&[1; 32], &1u64.to_le_bytes(), &f]));
    assert_ne!(fingerprint(&[1; 32], b"command"), fingerprint(&[2; 32], b"command"));
}

fn sample_receipt(id: [u8; 32]) -> Receipt {
    Receipt { request_id: id, position: 1, height: 1, root: [0; 32], signals: 1, balance: None, supply: 0, weight: 0, timestamp: 0, applied: 1 }
}

#[test]
fn retries_return_the_first_receipt() {
    let f = [3; 32];
    let r = sample_receipt([4; 32]);
    let stored = stored_receipt(&f, &r);
    assert_eq!(check_retry(&stored, &f, &[4; 32]).unwrap(), r);
    assert!(matches!(check_retry(&stored, &[5; 32], &[4; 32]), Err(Error::Conflict)));
    assert!(matches!(check_retry(&stored, &f, &[6; 32]), Err(Error::Corrupt(_))));
    assert!(matches!(check_retry(&stored[..10], &f, &[4; 32]), Err(Error::Corrupt(_))));
}

#[test]
fn counters_and_offsets_advance_or_overflow() {
    let evs = vec![Event::Signal(vec![]), Event::Signal(vec![]), Event::Intent(cybergraph::native::IntentRecord { neuron: [0; 32], h0: 0, scope_hash: [0; 32], signature: [0; 64] })];
    let (positions, end) = signal_positions(10, &evs).unwrap();
    assert_eq!(positions, vec![Some(10), Some(11), None]);
    assert_eq!(end, 12);
    assert!(matches!(signal_positions(u64::MAX - 1, &evs), Err(Error::Invalid(_))));
    let (offsets, end) = wire_offsets(5, &[vec![1, 2], vec![3]]).unwrap();
    assert_eq!(offsets, vec![5, 7]);
    assert_eq!(end, 8);
    assert!(wire_offsets(u64::MAX, &[vec![1]]).is_err());
    assert_eq!(request_weight(&[(1, 2), (3, 4)]).unwrap(), 6);
    assert!(request_weight(&[(0, u64::MAX), (0, 1)]).is_err());
    let head = Head { position: 4, signals: 0, wire_end: 0, wire_blocked: false, history_hash: [0; 32] };
    assert_eq!(next_request(&head).unwrap(), 5);
    assert!(next_request(&Head { position: u64::MAX, ..head }).is_err());
    let next = next_head(&head, 5, 1, 2, true, b"entry");
    assert_eq!((next.position, next.signals, next.wire_end, next.wire_blocked), (5, 1, 2, true));
    assert_eq!(next.history_hash, digest(b"cybergraph/native-history/v1\0", &[&[0; 32], b"entry"]));
}

#[test]
fn wire_plans_stop_at_the_first_unrepresentable_signal() {
    let mut remote = signal(1, 0, [0; 32]);
    remote.network = [5; 32];
    let batch = vec![None, Some(signal(1, 0, [0; 32])), Some(remote), None];
    assert!(matches!(wire_plan(&batch, None, false), Ok(WirePlan::Frames { count: 2, blocked: true })));
    assert!(matches!(wire_plan(&batch[..2], None, false), Ok(WirePlan::Frames { count: 2, blocked: false })));
    assert!(matches!(wire_plan(&batch, None, true), Ok(WirePlan::Frames { count: 0, blocked: true })));
    assert!(matches!(wire_plan(&batch, Some(4), false), Ok(WirePlan::Original)));
    assert!(matches!(wire_plan(&batch, Some(3), false), Err(Error::Corrupt(_))));
    assert!(matches!(wire_plan(&batch, Some(4), true), Err(Error::Corrupt(_))));
}

#[test]
fn strict_payments_refuse_skipped_legs() {
    let mut balances = Balances::new();
    balances.set([1; 32], 3);
    let pay = Operation::Pay { from: [1; 32], to: [2; 32], amount: 4 };
    assert!(matches!(validate_payments(&pay, &balances, 0, &[]), Err(Error::Invalid(_))));
    let pay = Operation::Pay { from: [1; 32], to: [2; 32], amount: 3 };
    assert!(validate_payments(&pay, &balances, 0, &[]).is_ok());
    let mut s = signal(1, 0, [0; 32]);
    s.delta_pi.push(([2; 32], 4));
    let batch = Operation::Events(vec![Event::Signal(vec![])]);
    assert!(validate_payments(&batch, &balances, 0, &[Some(s)]).is_err());
    let link = Operation::Link { neuron: [1; 32], from: [2; 32], to: [3; 32], token: [4; 32], amount: 1, valence: 1 };
    assert!(validate_payments(&link, &balances, 0, &[]).is_ok());
}

#[test]
fn imported_frames_must_stand_for_their_events() {
    let rec = |n: u8| cybergraph::native::IntentRecord { neuron: [n; 32], h0: 1, scope_hash: [2; 32], signature: [3; 64] };
    let events = vec![Event::Intent(rec(1)), Event::Signal(vec![9, 8, 7])];
    let same = vec![vec![Event::Intent(rec(1))], vec![Event::Signal(vec![9, 8, 7])]];
    assert!(check_original(&same, &events).is_ok());
    let other = vec![vec![Event::Intent(rec(1))], vec![Event::Signal(vec![9, 8])]];
    assert!(matches!(check_original(&other, &events), Err(Error::Corrupt(_))));
    let doubled = vec![vec![Event::Intent(rec(1)), Event::Intent(rec(1))], vec![Event::Signal(vec![9, 8, 7])]];
    assert!(matches!(check_original(&doubled, &events), Err(Error::Corrupt(_))));
    let short = vec![vec![Event::Intent(rec(1))]];
    assert!(matches!(check_original(&short, &events), Err(Error::Corrupt(_))));
    let empty = vec![vec![], vec![Event::Signal(vec![9, 8, 7])]];
    assert!(matches!(check_original(&empty, &events), Err(Error::Invalid(_))));
}

#[test]
fn accepted_requests_record_receipt_blocks_exports_and_head() {
    let head = Head { position: 4, signals: 10, wire_end: 100, wire_blocked: false, history_hash: [5; 32] };
    let rec = cybergraph::native::IntentRecord { neuron: [1; 32], h0: 1, scope_hash: [2; 32], signature: [3; 64] };
    let events = vec![Event::Signal(vec![7, 7, 7]), Event::Intent(rec)];
    let ledger = Ledger { changes: Keyed::new(), supply: 1000, observations: vec![(1000, 5), (1000, 0)], skipped_payments: false };
    let batch = Batch { height: 9, root: [8; 32], snapshots: vec![(8, [6; 32]), (9, [8; 32])] };
    let wire = vec![vec![1, 2, 3], vec![4]];
    let a = accept(&head, 5, [4; 32], [9; 32], &events, &ledger, Some(42), &batch, &wire, false, vec![1, 2], None, 77).unwrap();
    let r = a.receipt;
    assert_eq!(
        r,
        Receipt { request_id: [4; 32], position: 5, height: 9, root: [8; 32], signals: 11, balance: Some(42), supply: 1000, weight: 5, timestamp: 77, applied: 2 }
    );
    assert_eq!(a.blocks.len(), 1);
    assert_eq!(a.blocks[0].0, 8);
    let b = decode_block(&a.blocks[0].1).unwrap();
    assert_eq!((b.height, b.timestamp, b.supply, b.weight, b.root, b.signal.clone()), (8, 77, 1000, 5, [6; 32], vec![7, 7, 7]));
    assert_eq!(a.exports, vec![100, 103]);
    assert_eq!(a.head.wire_end, 104);
    assert_eq!((a.head.position, a.head.signals, a.head.wire_blocked), (5, 11, false));
    assert_eq!(a.head.history_hash, digest(b"cybergraph/native-history/v1\0", &[&[5u8; 32][..], &a.history[..]]));
    let h = decode_history(&a.history).unwrap();
    assert_eq!(h.receipt, r);
    assert_eq!(h.command, vec![1, 2]);
    assert_eq!(&a.stored[..32], &[9; 32]);
    assert_eq!(decode_receipt(&a.stored[32..]).unwrap(), r);
    let full = Head { signals: u64::MAX, ..head };
    assert!(matches!(accept(&full, 5, [4; 32], [9; 32], &events, &ledger, None, &batch, &wire, false, vec![], None, 0), Err(Error::Invalid(_))));
    let short = Batch { height: 9, root: [8; 32], snapshots: vec![] };
    let none = accept(&head, 5, [4; 32], [9; 32], &events, &ledger, None, &short, &wire, true, vec![], None, 0).unwrap();
    assert!(none.blocks.is_empty());
    assert!(none.head.wire_blocked);
}

#[test]
fn a_batch_rejects_two_signals_at_one_position() {
    let tips: Positions = Keyed::new();
    let first = signal(4, 0, [0; 32]);
    let twin = signal(4, 0, [0; 32]);
    assert!(matches!(validate_chains(&tips, &[Some(first), Some(twin)]), Err(Error::Invalid(_))));
    let a = signal(4, 0, [0; 32]);
    let mut b = signal(4, 0, [0; 32]);
    b.network = [1; 32];
    assert!(matches!(validate_chains(&tips, &[Some(a), None, Some(b)]), Err(Error::Invalid(_))));
}

#[test]
fn requests_on_record_are_answered_before_anything_executes() {
    let head = Head { position: 4, signals: 0, wire_end: 0, wire_blocked: false, history_hash: [0; 32] };
    let instance = [1; 32];
    let f = fingerprint(&instance, b"command");
    let id = request_identity(None, &instance, 5, &f);
    match accept_step(&head, &instance, None, b"command", None).unwrap() {
        AcceptNext::Execute { position, id: got, fingerprint: fp } => {
            assert_eq!((position, got, fp), (5, id, f));
        }
        other => panic!("{:?}", other),
    }
    let r = sample_receipt(id);
    let stored = stored_receipt(&f, &r);
    assert!(matches!(accept_step(&head, &instance, None, b"command", Some(&stored)), Ok(AcceptNext::Answered(Ok(got))) if got == r));
    assert!(matches!(
        accept_step(&head, &instance, None, b"other", Some(&stored)),
        Ok(AcceptNext::Answered(Err(Error::Conflict)))
    ));
    let named = accept_step(&head, &instance, Some([9; 32]), b"command", None).unwrap();
    assert!(matches!(named, AcceptNext::Execute { id, .. } if id == [9; 32]));
    let full = Head { position: u64::MAX, ..head };
    assert!(matches!(accept_step(&full, &instance, None, b"command", Some(&stored)), Err(Error::Invalid(_))));
}
