use cybergraph::native::codec::{
    block, decode_block, decode_head, decode_history, decode_operation, decode_receipt, head, history, operation, receipt,
    Reader,
};
use cybergraph::native::{Block, Error, Event, Head, History, IntentRecord, Operation, Receipt};

fn sample_receipt(balance: Option<u64>) -> Receipt {
    Receipt {
        request_id: [1; 32],
        position: 2,
        height: 3,
        root: [4; 32],
        signals: 5,
        balance,
        supply: 6,
        weight: 7,
        timestamp: 8,
        applied: 9,
    }
}

#[test]
fn receipts_round_trip_with_and_without_balance() {
    for balance in [None, Some(42)] {
        let r = sample_receipt(balance);
        let bytes = receipt(&r);
        assert_eq!(&bytes[..4], b"CGR\x01");
        assert_eq!(bytes.len(), if balance.is_some() { 133 } else { 125 });
        assert_eq!(decode_receipt(&bytes).unwrap(), r);
    }
}

#[test]
fn receipt_decoding_rejects_trailing_and_truncated_bytes() {
    let mut bytes = receipt(&sample_receipt(None));
    bytes.push(0);
    assert!(matches!(decode_receipt(&bytes), Err(Error::Corrupt(_))));
    bytes.truncate(100);
    assert!(matches!(decode_receipt(&bytes), Err(Error::Corrupt(_))));
    let mut bad_flag = receipt(&sample_receipt(None));
    bad_flag[92] = 2;
    assert!(matches!(decode_receipt(&bad_flag), Err(Error::Corrupt(_))));
}

#[test]
fn heads_round_trip() {
    let h = Head { position: 1, signals: 2, wire_end: 3, wire_blocked: true, history_hash: [5; 32] };
    let bytes = head(&h);
    assert_eq!(decode_head(&bytes).unwrap(), h);
    let mut other = bytes.clone();
    other[0] = b'X';
    assert!(matches!(decode_head(&other), Err(Error::Corrupt(_))));
}

#[test]
fn blocks_round_trip() {
    let b = Block { height: 1, timestamp: 2, supply: 3, weight: 4, root: [5; 32], signal: vec![1, 2, 3] };
    let bytes = block(&b).unwrap();
    assert_eq!(bytes.len(), 72 + 3);
    let back = decode_block(&bytes).unwrap();
    assert_eq!((back.height, back.timestamp, back.supply, back.weight, back.root), (1, 2, 3, 4, [5; 32]));
    assert_eq!(back.signal, vec![1, 2, 3]);
}

#[test]
fn operations_round_trip() {
    let link = Operation::Link { neuron: [1; 32], from: [2; 32], to: [3; 32], token: [4; 32], amount: 5, valence: -1 };
    let bytes = operation(&link).unwrap();
    assert_eq!(&bytes[..5], b"CGOP\x01");
    match decode_operation(&bytes).unwrap() {
        Operation::Link { neuron, from, to, token, amount, valence } => {
            assert_eq!((neuron, from, to, token, amount, valence), ([1; 32], [2; 32], [3; 32], [4; 32], 5, -1));
        },
        _ => panic!("wrong kind"),
    }
    let pay = Operation::Pay { from: [1; 32], to: [2; 32], amount: 9 };
    let bytes = operation(&pay).unwrap();
    assert!(matches!(decode_operation(&bytes).unwrap(), Operation::Pay { amount: 9, .. }));
    let intent = IntentRecord { neuron: [1; 32], h0: 2, scope_hash: [3; 32], signature: [4; 64] };
    let events = Operation::Events(vec![
        Event::Signal(vec![7; 10]),
        Event::Intent(intent),
        Event::LocalCredit { neuron: [1; 32], token: [2; 32], amount: 3, focus: 4, reason: [5; 32] },
    ]);
    let bytes = operation(&events).unwrap();
    assert_eq!(bytes.len(), 10 + (5 + 10) + 137 + 113);
    match decode_operation(&bytes).unwrap() {
        Operation::Events(es) => {
            assert_eq!(es.len(), 3);
            assert!(matches!(&es[0], Event::Signal(b) if b == &vec![7; 10]));
            assert!(matches!(&es[1], Event::Intent(i) if *i == intent));
            assert!(matches!(&es[2], Event::LocalCredit { amount: 3, focus: 4, .. }));
        },
        _ => panic!("wrong kind"),
    }
}

#[test]
fn an_operation_followed_by_more_bytes_is_refused() {
    let pay = Operation::Pay { from: [1; 32], to: [2; 32], amount: 9 };
    let mut bytes = operation(&pay).unwrap();
    bytes.push(0);
    assert!(matches!(decode_operation(&bytes), Err(Error::Corrupt(_))));
    let mut events = operation(&Operation::Events(vec![Event::Signal(vec![1, 2])])).unwrap();
    events.extend_from_slice(&[0, 0, 0, 0, 0]);
    assert!(matches!(decode_operation(&events), Err(Error::Corrupt(_))));
}

#[test]
fn batches_must_hold_one_to_sixty_four_events() {
    assert!(matches!(operation(&Operation::Events(vec![])), Err(Error::Invalid(_))));
    let many = (0..65).map(|_| Event::Signal(vec![])).collect();
    assert!(matches!(operation(&Operation::Events(many)), Err(Error::Invalid(_))));
    let mut zero = operation(&Operation::Events(vec![Event::Signal(vec![])])).unwrap();
    zero[6] = 0;
    assert!(matches!(decode_operation(&zero), Err(Error::Corrupt(_))));
}

#[test]
fn histories_round_trip() {
    for wire in [None, Some(vec![vec![1, 2], vec![3]])] {
        let h = History { fingerprint: [9; 32], receipt: sample_receipt(Some(1)), command: vec![1, 2, 3], original_wire: wire.clone() };
        let bytes = history(&h).unwrap();
        let back = decode_history(&bytes).unwrap();
        assert_eq!(back.fingerprint, [9; 32]);
        assert_eq!(back.receipt, sample_receipt(Some(1)));
        assert_eq!(back.command, vec![1, 2, 3]);
        assert_eq!(back.original_wire, wire);
    }
}

#[test]
fn reader_reads_fields_in_order() {
    let mut bytes = b"AB".to_vec();
    bytes.push(7);
    bytes.extend_from_slice(&9u64.to_le_bytes());
    bytes.extend_from_slice(&3u32.to_le_bytes());
    bytes.extend_from_slice(&2u32.to_le_bytes());
    bytes.extend_from_slice(b"xy");
    bytes.extend_from_slice(&[1, 2, 3, 4]);
    let mut r = Reader::new(&bytes);
    r.expect(b"AB").unwrap();
    assert_eq!(r.byte().unwrap(), 7);
    assert_eq!(r.u64().unwrap(), 9);
    assert_eq!(r.u32().unwrap(), 3);
    assert_eq!(r.bytes(2).unwrap(), b"xy");
    assert!(r.end().is_err());
    let a: [u8; 4] = r.array().unwrap();
    assert_eq!(a, [1, 2, 3, 4]);
    assert!(r.end().is_ok());
    assert!(matches!(r.take(1), Err(Error::Corrupt(_))));
}

#[test]
fn reader_limits_framed_bytes() {
    let mut bytes = 5u32.to_le_bytes().to_vec();
    bytes.extend_from_slice(b"hello");
    let mut r = Reader::new(&bytes);
    assert!(matches!(r.bytes(4), Err(Error::Corrupt(_))));
    let mut r = Reader::new(&bytes);
    assert_eq!(r.bytes(5).unwrap(), b"hello");
    let mut r = Reader::new(&bytes);
    assert!(r.expect(b"zz").is_err());
}
