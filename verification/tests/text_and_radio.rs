use cybergraph::application::Head;
use cybergraph::content::{Codec, Content};
use cybergraph::keyed::Keyed;
use cybergraph::radio::{missing_parts, part_aligned};
use cybergraph::text_archive::{
    answers, check_text, extend_projection, finish_step, import_request, normalize_line, observation_budget, observation_head,
    prepare_step, Error, Observation, PrepareNext, Projection, Provenance, Walked, MAX_OBSERVATIONS, MAX_PROJECTION_BYTES,
};

fn hex(b: &[u8]) -> String {
    b.iter().map(|x| format!("{x:02x}")).collect()
}

#[test]
fn legacy_lines_escape_tabs_and_returns_inside_strings() {
    let raw = b"{\"text\":\"a\tb\rc\",\t\"x\":\"q\\\"\t\"}\n";
    let out = normalize_line(raw).unwrap();
    assert_eq!(out, b"{\"text\":\"a\\tb\\rc\",\t\"x\":\"q\\\"\\t\"}\n".to_vec());
    assert!(matches!(normalize_line(b"{}"), Err(Error::Rejected(_))));
    assert!(matches!(normalize_line(b""), Err(Error::Rejected(_))));
    let big = vec![b' '; 8 * 1024 * 1024 + 1];
    assert!(matches!(normalize_line(&big), Err(Error::Rejected(_))));
}

#[test]
fn legacy_particles_must_be_the_text_digest() {
    let id = *cyber_hemera::hash(b"hello").as_bytes();
    assert_eq!(check_text(&hex(&id), "hello").unwrap(), id);
    assert_eq!(check_text(&hex(&id).to_uppercase(), "hello").unwrap(), id);
    assert!(matches!(check_text(&hex(&id), "other"), Err(Error::Rejected(_))));
    assert!(matches!(check_text("abc", "hello"), Err(Error::Rejected(_))));
    assert!(matches!(check_text(&"g".repeat(64), "hello"), Err(Error::Rejected(_))));
}

#[test]
fn observation_heads_and_budgets() {
    assert_eq!(observation_head(None, [1; 32]).unwrap(), Head { index: 0, commit: [1; 32] });
    assert_eq!(observation_head(Some(Head { index: 4, commit: [0; 32] }), [1; 32]).unwrap().index, 5);
    assert!(matches!(observation_head(Some(Head { index: 999_999, commit: [0; 32] }), [1; 32]), Err(Error::Rejected(_))));
    assert!(matches!(observation_head(Some(Head { index: u64::MAX, commit: [0; 32] }), [1; 32]), Err(Error::InvalidProposal)));
    let text = Content::new(Codec::Blob, vec![1; 10]).unwrap();
    let record = Content::new(Codec::Blob, vec![2; 20]).unwrap();
    assert!(observation_budget(&text, &record, Some(&text)).is_ok());
    assert!(observation_budget(&record, &record, None).is_ok());
}

#[test]
fn projections_count_each_text_once() {
    let mut sizes: Keyed<usize> = Keyed::new();
    let mut bytes = 0usize;
    extend_projection(&mut sizes, &mut bytes, [1; 32], 10).unwrap();
    extend_projection(&mut sizes, &mut bytes, [1; 32], 10).unwrap();
    assert_eq!(bytes, 10);
    extend_projection(&mut sizes, &mut bytes, [2; 32], 5).unwrap();
    assert_eq!(bytes, 15);
    assert!(matches!(extend_projection(&mut sizes, &mut bytes, [3; 32], MAX_PROJECTION_BYTES), Err(Error::Rejected(_))));
    assert_eq!(bytes, 15);
}

fn observation(previous: Option<[u8; 32]>, text: [u8; 32], provenance: Option<Provenance>) -> Observation {
    Observation { schema: "cybergraph/text-observation/1".into(), previous, request: [0; 32], text, created: None, provenance }
}

#[test]
fn projection_walks_the_observation_chain() {
    let t1 = Content::new(Codec::Blob, b"one".to_vec()).unwrap();
    let t2 = Content::new(Codec::Blob, b"two!".to_vec()).unwrap();
    let selected = Head { index: 1, commit: [9; 32] };
    let mut p = Projection::new();
    let o1 = observation(None, t1.id(), None);
    assert!(matches!(p.step(selected, Head { index: 0, commit: [8; 32] }, &o1, Some(&t1), None), Ok(Walked::More)));
    let o2 = observation(Some([8; 32]), t2.id(), None);
    assert!(matches!(p.step(selected, selected, &o2, Some(&t2), None), Ok(Walked::Done)));
    assert_eq!(p.bytes, 7);
    let mut q = Projection::new();
    assert!(matches!(q.step(selected, Head { index: 1, commit: [8; 32] }, &o1, Some(&t1), None), Err(Error::InvalidProposal)));
    assert!(matches!(q.step(selected, Head { index: 0, commit: [8; 32] }, &o2, Some(&t2), None), Err(Error::InvalidProposal)));
    assert!(matches!(q.step(selected, Head { index: 0, commit: [8; 32] }, &o1, None, None), Err(Error::MissingContent(_))));
    let prov = Provenance { source: [1; 32], line: 1, raw: [2; 32] };
    let o3 = observation(None, t1.id(), Some(prov));
    assert!(matches!(q.step(selected, Head { index: 0, commit: [8; 32] }, &o3, Some(&t1), None), Err(Error::MissingContent(_))));
    let bad = Content::new(Codec::Blob, vec![0xff, 0xfe]).unwrap();
    let o4 = observation(None, bad.id(), None);
    assert!(matches!(q.step(selected, Head { index: 0, commit: [8; 32] }, &o4, Some(&bad), None), Err(Error::Rejected(_))));
    let first = Head { index: 0, commit: [7; 32] };
    assert!(matches!(q.step(first, Head { index: 0, commit: [8; 32] }, &o1, Some(&t1), None), Err(Error::InvalidProposal)));
    let atom = Content::atom(3).unwrap();
    assert!(matches!(q.step(first, first, &o1, Some(&atom), None), Err(Error::InvalidProposal)));
    let o5 = observation(None, t1.id(), Some(prov));
    assert!(matches!(q.step(first, first, &o5, Some(&t1), Some(&atom)), Err(Error::InvalidProposal)));
    assert!(matches!(q.step(first, first, &o5, Some(&t1), Some(&t2)), Ok(Walked::Done)));
    assert_eq!(q.bytes, 3);
}

#[test]
fn repeated_requests_are_answered_by_equal_observations() {
    let o = observation(None, [5; 32], None);
    assert!(answers(&o, &[0; 32], &[5; 32], None, &None));
    assert!(!answers(&o, &[0; 32], &[5; 32], Some(1), &None));
    assert!(!answers(&o, &[1; 32], &[5; 32], None, &None));
    let mut buf = b"cybergraph/text-import-request/1\0".to_vec();
    buf.extend_from_slice(&[4; 32]);
    buf.extend_from_slice(&3u64.to_le_bytes());
    assert_eq!(import_request(&[4; 32], 3), *cyber_hemera::hash(&buf).as_bytes());
}

#[test]
fn file_parts_are_aligned_and_missing_ones_requested() {
    assert!(part_aligned(0, 4, 4, 10));
    assert!(part_aligned(8, 2, 4, 10));
    assert!(!part_aligned(8, 4, 4, 10));
    assert!(!part_aligned(2, 4, 4, 10));
    assert!(!part_aligned(10, 0, 4, 10));
    assert!(!part_aligned(0, 4, 0, 10));
    assert_eq!(missing_parts(&[(0, true), (1, false), (2, false)], 4, 10), vec![(4, 4), (8, 2)]);
    assert!(missing_parts(&[(0, true)], 4, 10).is_empty());
}

#[test]
fn observations_are_prepared_answered_and_proposed() {
    let request = [1; 32];
    let origin: Option<([u8; 32], u64, &[u8])> = Some(([2; 32], 7, b"raw line\n"));
    let (record, text, raw) = match prepare_step(request, "hello", Some(5), origin, None, None).unwrap() {
        PrepareNext::Record { record, text, raw } => (record, text, raw),
        PrepareNext::Existing(_) => panic!("nothing is on record"),
    };
    assert_eq!(record.schema, "cybergraph/text-observation/1");
    assert_eq!(record.previous, None);
    assert_eq!(record.text, *cyber_hemera::hash(b"hello").as_bytes());
    let raw = raw.unwrap();
    assert_eq!(record.provenance, Some(Provenance { source: [2; 32], line: 7, raw: raw.id() }));
    // the same request again is answered with its head; a different text is refused
    let h = Head { index: 0, commit: [9; 32] };
    assert!(matches!(prepare_step(request, "hello", Some(5), origin, None, Some((h, record.clone()))), Ok(PrepareNext::Existing(x)) if x == h));
    assert!(matches!(prepare_step(request, "other", Some(5), origin, None, Some((h, record.clone()))), Err(Error::InvalidProposal)));
    // the record's bytes make the head; the proposal stores and refers to the parts
    let expected = Some(Head { index: 3, commit: [4; 32] });
    let p = finish_step([8; 32], request, expected, text.clone(), Some(raw.clone()), b"{record}".to_vec()).unwrap();
    assert_eq!(p.head, Head { index: 4, commit: *cyber_hemera::hash(b"{record}").as_bytes() });
    assert_eq!(p.required, vec![text.id(), raw.id(), [4; 32]]);
    assert_eq!(p.content.len(), 3);
    let last = Some(Head { index: MAX_OBSERVATIONS - 1, commit: [4; 32] });
    assert!(matches!(finish_step([8; 32], request, last, text, None, b"{record}".to_vec()), Err(Error::Rejected(_))));
    assert!(matches!(Projection::begin(None), Ok(None)));
    assert!(matches!(Projection::begin(Some(Head { index: MAX_OBSERVATIONS, commit: [0; 32] })), Err(Error::InvalidProposal)));
    assert!(Projection::begin(Some(h)).unwrap().is_some());
}
