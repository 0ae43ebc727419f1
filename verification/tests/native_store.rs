use cybergraph::native::codec::{block, head, history, operation};
use cybergraph::native::format::{equivalent, legacy, recovery_error};
use cybergraph::native::import::{
    import_next, import_plan, ImportNext, ImportOffer,
    batch_len, decode_marker, encode_marker, event_size, import_start, known_limit, request_id, retry_len, source, validate_import,
    ImportStart, Marker,
};
use cybergraph::native::read::{block_page, check_block, history_page, wire_cursor, wire_first, wire_page};
use cybergraph::native::recovery::{
    check_export, check_metadata, compare, configuration, count, pinned, replay_key, replay_row, replayed_head, reopen_start,
};
use cybergraph::native::{Block, Error, Event, Head, History, Operation, Receipt};

fn receipt_at(position: u64, id: [u8; 32], applied: u64) -> Receipt {
    Receipt { request_id: id, position, height: 0, root: [0; 32], signals: 0, balance: None, supply: 0, weight: 0, timestamp: 0, applied }
}

#[test]
fn configuration_pins_profile_and_genesis() {
    let c = configuration(b"genesis").unwrap();
    let mut want = b"CGCONFIG\x01".to_vec();
    want.extend_from_slice(&28u32.to_le_bytes());
    want.extend_from_slice(b"cybergraph/local-chaosnet/v1");
    want.extend_from_slice(&7u32.to_le_bytes());
    want.extend_from_slice(b"genesis");
    assert_eq!(c, want);
    assert!(matches!(configuration(b""), Err(Error::Invalid(_))));
    assert!(matches!(configuration(&[0; 4097]), Err(Error::Invalid(_))));
    assert!(configuration(&[0; 4096]).is_ok());
    assert!(matches!(pinned(Some(&c), &c, false), Ok(false)));
    assert!(matches!(pinned(Some(b"other"), &c, true), Err(Error::Corrupt(_))));
    assert!(matches!(pinned(None, &c, true), Ok(true)));
    assert!(matches!(pinned(None, &c, false), Err(Error::Corrupt(_))));
}

#[test]
fn a_store_pinned_to_one_genesis_refuses_another() {
    let stored = configuration(b"genesis").unwrap();
    let other = configuration(b"genesis2").unwrap();
    assert_ne!(stored, other);
    assert!(matches!(pinned(Some(&stored), &other, false), Err(Error::Corrupt(_))));
    assert!(matches!(pinned(Some(&stored), &stored, false), Ok(false)));
}

#[test]
fn legacy_metadata_is_equivalent_after_its_version() {
    let mut old = 1u32.to_le_bytes().to_vec();
    old.extend_from_slice(b"rest");
    let mut new = 2u32.to_le_bytes().to_vec();
    new.extend_from_slice(b"rest");
    assert!(legacy(&old));
    assert!(!legacy(&new));
    assert!(!legacy(&[1, 0]));
    assert!(equivalent(&old, &new, 2));
    assert!(!equivalent(&old, &new, 3));
    assert!(equivalent(&new, &new, 9));
    assert!(!equivalent(&new, &old, 1));
    assert!(matches!(recovery_error(&old, Error::Corrupt("x".into())), Error::Unsupported(_)));
    match recovery_error(&old, Error::Corrupt("bad head".into())) {
        Error::Unsupported(m) => {
            assert!(m.starts_with("legacy native state format 1 does not replay"));
            assert!(m.contains("(bad head)"));
            assert!(m.ends_with("explicit export"));
        },
        other => panic!("unexpected {other:?}"),
    }
    assert!(matches!(recovery_error(&new, Error::Corrupt("x".into())), Error::Corrupt(_)));
    assert!(matches!(recovery_error(&old, Error::Conflict), Error::Conflict));
}

#[test]
fn stored_records_must_match_exactly() {
    let rows = vec![(vec![0], b"meta-a".to_vec()), (vec![1], b"x".to_vec())];
    let mut old_meta = 1u32.to_le_bytes().to_vec();
    old_meta.extend_from_slice(b"m");
    let mut new_meta = 2u32.to_le_bytes().to_vec();
    new_meta.extend_from_slice(b"m");
    assert!(compare(&rows, &rows, false, 2).is_ok());
    assert!(matches!(compare(&rows, &rows[..1], false, 2), Err(Error::Corrupt(_))));
    assert!(matches!(compare(&rows[..1], &rows, false, 2), Err(Error::Corrupt(_))));
    let stored = vec![(vec![0], old_meta)];
    let current = vec![(vec![0], new_meta)];
    assert!(compare(&stored, &current, true, 2).is_ok());
    assert!(compare(&stored, &current, false, 2).is_err());
    assert_eq!(count(&[256, 10]).unwrap(), 266);
    assert_eq!(count(&[]).unwrap(), 0);
}

#[test]
fn exports_are_contiguous_and_end_at_the_head() {
    let rows = vec![(0u64.to_be_bytes().to_vec(), vec![1, 2]), (2u64.to_be_bytes().to_vec(), vec![3])];
    assert!(check_export(&rows, 3).is_ok());
    assert!(matches!(check_export(&rows, 4), Err(Error::Corrupt(_))));
    let gap = vec![(0u64.to_be_bytes().to_vec(), vec![1, 2]), (3u64.to_be_bytes().to_vec(), vec![3])];
    assert!(check_export(&gap, 4).is_err());
    assert!(check_metadata(&[b"head".to_vec(), b"config".to_vec(), b"import".to_vec()]).is_ok());
    assert!(matches!(check_metadata(&[b"other".to_vec()]), Err(Error::Corrupt(_))));
    assert_eq!(replay_key(4, &5u64.to_be_bytes()).unwrap(), 5);
    assert!(replay_key(4, &6u64.to_be_bytes()).is_err());
    assert!(replay_key(u64::MAX, &[0; 8]).is_err());
}

#[test]
fn block_pages_go_newest_first() {
    assert_eq!(block_page(None, 3, 5).unwrap(), vec![5, 4, 3]);
    assert_eq!(block_page(Some(3), 10, 5).unwrap(), vec![2, 1]);
    assert_eq!(block_page(Some(100), 2, 5).unwrap(), vec![5, 4]);
    assert_eq!(block_page(Some(1), 2, 5).unwrap(), Vec::<u64>::new());
    assert_eq!(block_page(None, 2, 0).unwrap(), Vec::<u64>::new());
    assert!(matches!(block_page(None, 0, 5), Err(Error::Invalid(_))));
    assert!(matches!(block_page(None, 501, 5), Err(Error::Invalid(_))));
    assert_eq!(block_page(None, 1, u64::MAX).unwrap(), vec![u64::MAX - 1]);
}

#[test]
fn blocks_are_checked_against_their_height() {
    let b = Block { height: 2, timestamp: 0, supply: 0, weight: 0, root: [0; 32], signal: vec![] };
    let bytes = block(&b).unwrap();
    assert_eq!(check_block(2, 5, Some(&bytes)).unwrap().unwrap().height, 2);
    assert!(matches!(check_block(3, 5, Some(&bytes)), Err(Error::Corrupt(_))));
    assert!(matches!(check_block(3, 5, None), Err(Error::Corrupt(_))));
    assert!(check_block(6, 5, None).unwrap().is_none());
    assert!(check_block(0, 5, None).unwrap().is_none());
}

#[test]
fn wire_pages_hold_whole_frames() {
    assert!(matches!(wire_cursor(0, 0, 10, false), Err(Error::Invalid(_))));
    assert!(matches!(wire_cursor(11, 5, 10, false), Err(Error::Invalid(_))));
    assert!(matches!(wire_cursor(10, 5, 10, true), Err(Error::Unsupported(_))));
    assert_eq!(wire_cursor(10, 5, 10, false).unwrap(), None);
    assert_eq!(wire_cursor(3, 5, 10, false).unwrap(), Some(3));
    assert!(wire_first(None, 5).is_err());
    assert!(wire_first(Some(vec![0; 6]), 5).is_err());
    let mut out = wire_first(Some(vec![1, 2]), 5).unwrap();
    let rows = vec![(2u64.to_be_bytes().to_vec(), vec![3, 4]), (4u64.to_be_bytes().to_vec(), vec![5, 6])];
    assert!(wire_page(0, 5, &mut out, &rows).unwrap());
    assert_eq!(out, vec![1, 2, 3, 4]);
    let mut out = vec![1, 2];
    let gap = vec![(3u64.to_be_bytes().to_vec(), vec![3])];
    assert!(matches!(wire_page(0, 5, &mut out, &gap), Err(Error::Corrupt(_))));
    let mut out = vec![1, 2];
    assert!(!wire_page(0, 10, &mut out, &rows).unwrap());
    assert_eq!(out, vec![1, 2, 3, 4, 5, 6]);
}

fn entry(position: u64, command: &[u8]) -> (Vec<u8>, Vec<u8>) {
    let h = History { fingerprint: [0; 32], receipt: receipt_at(position, [0; 32], 1), command: command.to_vec(), original_wire: None };
    (position.to_be_bytes().to_vec(), history(&h).unwrap())
}

#[test]
fn history_pages_are_contiguous() {
    let rows = vec![entry(1, b"a"), entry(2, b"b")];
    let page = history_page(None, 10, 2, &rows).unwrap();
    assert_eq!(page.len(), 2);
    assert_eq!(page[1].0.position, 2);
    assert_eq!(page[1].1, b"b".to_vec());
    assert!(matches!(history_page(Some(1), 10, 2, &rows), Err(Error::Corrupt(_))));
    assert!(matches!(history_page(None, 10, 2, &[]), Err(Error::Corrupt(_))));
    assert!(history_page(Some(2), 10, 2, &[]).unwrap().is_empty());
    assert!(matches!(history_page(None, 65, 2, &rows), Err(Error::Invalid(_))));
    let mut wrong_key = rows.clone();
    wrong_key[0].0 = 7u64.to_be_bytes().to_vec();
    assert!(history_page(None, 10, 2, &wrong_key).is_err());
}

#[test]
fn import_markers_round_trip() {
    let m = Marker { complete: true, source: [3; 32], events: 9 };
    let bytes = encode_marker(&m);
    assert_eq!(&bytes[..9], b"CGIMPORT\x01");
    assert_eq!(decode_marker(&bytes, 9).unwrap(), m);
    assert!(matches!(decode_marker(&bytes, 8), Err(Error::Corrupt(_))));
    let mut bad = bytes.clone();
    bad[9] = 2;
    assert!(decode_marker(&bad, 9).is_err());
}

#[test]
fn sources_and_import_requests_are_digests() {
    let mut buf = b"cybergraph/legacy-source/v1\0".to_vec();
    buf.extend_from_slice(b"log");
    assert_eq!(source(b"log"), *cyber_hemera::hash(&buf).as_bytes());
    assert_ne!(request_id(&[1; 32], 0), request_id(&[1; 32], 1));
}

fn imported(batch: u64, src: [u8; 32], frames: Vec<Vec<u8>>) -> (Vec<u8>, Vec<u8>) {
    let n = frames.len() as u64;
    let h = History {
        fingerprint: [0; 32],
        receipt: receipt_at(batch + 1, request_id(&src, batch), n),
        command: vec![],
        original_wire: Some(frames),
    };
    ((batch + 1).to_be_bytes().to_vec(), history(&h).unwrap())
}

#[test]
fn imports_validate_their_exact_prefix() {
    let log = b"abcdef".to_vec();
    let src = source(&log);
    let marker = Marker { complete: true, source: src, events: 3 };
    let rows = vec![imported(0, src, vec![b"ab".to_vec(), b"cd".to_vec()]), imported(1, src, vec![b"ef".to_vec()])];
    let p = validate_import(Some(marker), &rows, Some(&log), 1 << 20).unwrap();
    assert_eq!((p.events, p.batches, p.bytes), (3, 2, 6));
    assert!(validate_import(Some(marker), &rows, None, 1 << 20).is_ok());
    assert!(validate_import(Some(marker), &rows[..1], Some(&log), 1 << 20).is_err());
    let partial = Marker { complete: false, ..marker };
    let p = validate_import(Some(partial), &rows[..1], Some(&log), 1 << 20).unwrap();
    assert_eq!(p.events, 2);
    assert!(validate_import(None, &rows, Some(&log), 1 << 20).is_err());
    assert!(validate_import(Some(marker), &rows, Some(b"abcdeX"), 1 << 20).is_err());
    assert!(validate_import(Some(marker), &rows, Some(&log), 5).is_err());
    let wrong = Marker { source: [0; 32], ..marker };
    assert!(validate_import(Some(wrong), &rows, None, 1 << 20).is_err());
}

#[test]
fn legacy_logs_split_into_bounded_batches() {
    assert_eq!(batch_len(&[100; 70]).unwrap(), 64);
    assert_eq!(batch_len(&[100; 3]).unwrap(), 3);
    assert_eq!(batch_len(&[2_000_000, 2_000_000, 2_000_000]).unwrap(), 2);
    assert!(matches!(batch_len(&[4 * 1024 * 1024]), Err(Error::Invalid(_))));
    assert_eq!(batch_len(&[]).unwrap(), 0);
    assert_eq!(event_size(&Event::Signal(vec![0; 10])), 15);
    assert!(known_limit(&Error::Limit("x".into())));
    assert!(!known_limit(&Error::Conflict));
    assert_eq!(retry_len(8, &Error::Limit("x".into())), Some(4));
    assert_eq!(retry_len(1, &Error::Limit("x".into())), None);
    assert_eq!(retry_len(8, &Error::Conflict), None);
}

#[test]
fn imports_begin_from_the_marker_they_find() {
    let src = source(b"log");
    assert_eq!(import_start(None, &src, 3).unwrap(), ImportStart::Fresh);
    let open = Marker { complete: false, source: src, events: 3 };
    assert_eq!(import_start(Some(open), &src, 3).unwrap(), ImportStart::Resume);
    let done = Marker { complete: true, ..open };
    assert_eq!(import_start(Some(done), &src, 3).unwrap(), ImportStart::Done);
    assert!(matches!(import_start(Some(open), &src, 4), Err(Error::Corrupt(_))));
    assert!(matches!(import_start(Some(open), &source(b"other"), 3), Err(Error::Corrupt(_))));
}

#[test]
fn imports_advance_halve_on_limits_and_stop_on_other_errors() {
    assert!(matches!(import_next(10, 3, 5, Ok(())), ImportNext::Advance { cursor: 15, batch: 4 }));
    assert!(matches!(import_next(10, 3, 5, Err(Error::Limit("batch".into()))), ImportNext::Retry { count: 2 }));
    assert!(matches!(import_next(10, 3, 1, Err(Error::Limit("batch".into()))), ImportNext::Fail(Error::Limit(_))));
    assert!(matches!(import_next(10, 3, 5, Err(Error::Invalid("event".into()))), ImportNext::Fail(Error::Invalid(_))));
}

#[test]
fn imports_plan_batches_until_the_log_is_done() {
    let sizes = [100usize, 200, 300];
    assert_eq!(import_plan(&sizes, 0, 0, 0).unwrap(), ImportOffer::Batch { cursor: 0, count: 3 });
    assert_eq!(import_plan(&sizes, 2, 1, 1).unwrap(), ImportOffer::Batch { cursor: 2, count: 1 });
    assert_eq!(import_plan(&sizes, 3, 2, 2).unwrap(), ImportOffer::Done);
    assert!(matches!(import_plan(&sizes, 3, 5, 2), Err(Error::Corrupt(_))));
    let many = vec![1usize; 70];
    assert_eq!(import_plan(&many, 0, 0, 0).unwrap(), ImportOffer::Batch { cursor: 0, count: 64 });
    assert!(matches!(import_plan(&[usize::MAX / 2], 0, 0, 0), Err(Error::Invalid(_))));
}

#[test]
fn reopening_pins_the_configuration_replays_in_order_and_checks_the_head() {
    let genesis = b"genesis";
    let config = configuration(genesis).unwrap();
    let opened = reopen_start(genesis, Some(&config), false, None, 10, false).unwrap();
    assert!(!opened.fresh);
    assert_eq!(opened.config, config);
    assert!(reopen_start(genesis, None, true, None, 10, false).unwrap().fresh);
    assert!(matches!(reopen_start(genesis, None, false, None, 10, false), Err(Error::Corrupt(_))));
    assert!(matches!(reopen_start(genesis, Some(b"other"), false, None, 10, false), Err(Error::Corrupt(_))));
    assert!(matches!(reopen_start(b"", None, true, None, 10, false), Err(Error::Invalid(_))));
    let partial = encode_marker(&Marker { complete: false, source: [1; 32], events: 3 });
    assert!(matches!(reopen_start(genesis, Some(&config), false, Some(&partial), 10, false), Err(Error::Corrupt(_))));
    assert!(reopen_start(genesis, Some(&config), false, Some(&partial), 10, true).is_ok());
    let done = encode_marker(&Marker { complete: true, source: [1; 32], events: 3 });
    assert!(reopen_start(genesis, Some(&config), false, Some(&done), 10, false).is_ok());

    let command = operation(&Operation::Pay { from: [1; 32], to: [2; 32], amount: 5 }).unwrap();
    let (key, bytes) = entry(1, &command);
    let row = replay_row(0, &key, &bytes).unwrap();
    assert_eq!(row.position, 1);
    assert_eq!(row.history.command, command);
    assert!(matches!(replay_row(1, &key, &bytes), Err(Error::Corrupt(_))));
    assert!(matches!(replay_row(0, &key, &bytes[..5]), Err(Error::Corrupt(_))));
    let (key, bytes) = entry(1, b"not an operation");
    assert!(matches!(replay_row(0, &key, &bytes), Err(Error::Corrupt(_))));

    let h = Head { position: 1, signals: 1, wire_end: 0, wire_blocked: false, history_hash: [2; 32] };
    assert!(replayed_head(&h, &head(&h)).is_ok());
    assert!(matches!(replayed_head(&Head { signals: 2, ..h }, &head(&h)), Err(Error::Corrupt(_))));
    assert!(matches!(replayed_head(&h, b"short"), Err(Error::Corrupt(_))));
}
