use cybergraph::application::Head;
use cybergraph::content::{Codec, Content};
use cybergraph::keyed::Keyed;
use cybergraph::text_archive::{
    import_request, import_source, line_request, prepare_step, source_lines, Error, ImportAction, LinePrepared, Observation,
    PrepareNext, Projection, Provenance, TextImport, Walked, MAX_PROJECTION_BYTES, MAX_SOURCE_BYTES,
};

fn digest(b: &[u8]) -> [u8; 32] {
    *cyber_hemera::hash(b).as_bytes()
}

fn head(i: u64) -> Head {
    Head { index: i, commit: [i as u8 + 10; 32] }
}

#[test]
fn a_source_is_named_by_its_digest() {
    let bytes = b"{\"text\":\"a\"}\n";
    assert_eq!(import_source(bytes).unwrap(), digest(bytes));
    assert_ne!(import_source(b"other").unwrap(), digest(bytes));
    let huge = vec![0u8; MAX_SOURCE_BYTES + 1];
    assert!(matches!(import_source(&huge), Err(Error::InvalidProposal)));
}

#[test]
fn sources_split_after_each_line_feed() {
    assert_eq!(source_lines(b"a\nbb\n\nc"), vec![(0, 2), (2, 5), (5, 6), (6, 7)]);
    assert_eq!(source_lines(b"x\n"), vec![(0, 2)]);
    assert_eq!(source_lines(b"no feed"), vec![(0, 7)]);
    assert!(source_lines(b"").is_empty());
}

#[test]
fn lines_are_numbered_from_one() {
    let source = digest(b"source");
    assert!(matches!(line_request(&source, 0, b"x\n"), Err(Error::InvalidProposal)));
    assert_eq!(line_request(&source, 2, b"x\n").unwrap(), import_request(&source, 2));
    assert_ne!(line_request(&source, 1, b"x\n").unwrap(), import_request(&source, 2));
    let long = vec![b'a'; 8 * 1024 * 1024 + 1];
    assert!(matches!(line_request(&source, 1, &long), Err(Error::InvalidProposal)));
}

#[test]
fn an_import_checks_every_line_before_publishing() {
    let mut import = TextImport::new(3, None, Keyed::new(), 0);
    assert_eq!(import.next_line(), 1);
    assert!(matches!(import.settle_line("a", Ok(LinePrepared::Append(head(0)))), Ok(ImportAction::Check)));
    assert_eq!(import.expected(), Some(head(0)));
    assert!(matches!(import.settle_line("b", Ok(LinePrepared::Existing(head(7)))), Ok(ImportAction::Check)));
    assert_eq!(import.expected(), Some(head(0)));
    assert!(matches!(import.settle_line("c", Ok(LinePrepared::Append(head(1)))), Ok(ImportAction::Publish)));
    // publication restarts from the first line against the starting head
    assert_eq!(import.next_line(), 1);
    assert_eq!(import.expected(), None);
    assert!(!import.is_finished());
    assert!(matches!(import.settle_line("a", Ok(LinePrepared::Append(head(0)))), Ok(ImportAction::Commit)));
    assert!(matches!(import.settle_line("b", Ok(LinePrepared::Existing(head(7)))), Ok(ImportAction::Commit)));
    assert!(matches!(import.settle_line("c", Ok(LinePrepared::Append(head(1)))), Ok(ImportAction::Finish)));
    assert!(import.is_finished());
    let report = import.report([5; 32], 9);
    assert_eq!(report.observations, 3);
    assert_eq!(report.bytes, 9);
    assert_eq!(report.head, Some(head(1)));
}

#[test]
fn a_bad_late_line_publishes_nothing() {
    let mut import = TextImport::new(3, Some(head(4)), Keyed::new(), 0);
    assert!(matches!(import.settle_line("a", Ok(LinePrepared::Append(head(5)))), Ok(ImportAction::Check)));
    assert!(matches!(import.settle_line("b", Ok(LinePrepared::Append(head(6)))), Ok(ImportAction::Check)));
    assert!(matches!(import.settle_line("c", Err(Error::InvalidProposal)), Err(Error::InvalidProposal)));
    assert!(!import.is_finished());
    // a late text that overflows the projection is refused in the dry run too
    let mut full = TextImport::new(2, None, Keyed::new(), MAX_PROJECTION_BYTES - 1);
    assert!(matches!(full.settle_line("a", Ok(LinePrepared::Append(head(0)))), Ok(ImportAction::Check)));
    assert!(matches!(full.settle_line("bc", Ok(LinePrepared::Append(head(1)))), Err(Error::Rejected(_))));
    // a text already in the projection costs nothing more
    let mut sizes: Keyed<usize> = Keyed::new();
    sizes.set(digest(b"bc"), 2);
    let mut known = TextImport::new(1, None, sizes, MAX_PROJECTION_BYTES);
    assert!(matches!(known.settle_line("bc", Ok(LinePrepared::Append(head(0)))), Ok(ImportAction::Publish)));
}

#[test]
fn an_empty_source_is_already_imported() {
    let import = TextImport::new(0, Some(head(2)), Keyed::new(), 0);
    assert!(import.is_finished());
    assert_eq!(import.report([1; 32], 0).head, None);
}

#[test]
fn a_retried_line_is_answered_with_its_head() {
    let request = [3; 32];
    let raw: &[u8] = b"{\"text\":\"hi\"}\n";
    let origin = Some(([2; 32], 4, raw));
    let record = match prepare_step(request, "hi", None, origin, None, None).unwrap() {
        PrepareNext::Record { record, .. } => record,
        PrepareNext::Existing(_) => panic!("nothing is on record"),
    };
    let h = head(0);
    assert!(matches!(prepare_step(request, "hi", None, origin, None, Some((h, record.clone()))), Ok(PrepareNext::Existing(x)) if x == h));
    let other_line = Some(([2; 32], 5, raw));
    assert!(matches!(prepare_step(request, "hi", None, other_line, None, Some((h, record.clone()))), Err(Error::InvalidProposal)));
    assert!(matches!(prepare_step(request, "hi", Some(1), origin, None, Some((h, record.clone()))), Err(Error::InvalidProposal)));
    assert!(matches!(prepare_step(request, "hi", None, None, None, Some((h, record))), Err(Error::InvalidProposal)));
}

#[test]
fn a_projection_keeps_each_text_with_its_latest_observation() {
    let t = Content::new(Codec::Blob, b"same".to_vec()).unwrap();
    let selected = head(1);
    let mut p = Projection::new();
    let o1 = Observation { schema: "cybergraph/text-observation/1".into(), previous: None, request: [0; 32], text: t.id(), created: Some(3), provenance: None };
    assert!(matches!(p.step(selected, head(0), &o1, Some(&t), None), Ok(Walked::More)));
    let prov = Provenance { source: [1; 32], line: 2, raw: t.id() };
    let o2 = Observation { schema: o1.schema.clone(), previous: Some(head(0).commit), request: [1; 32], text: t.id(), created: None, provenance: Some(prov) };
    assert!(matches!(p.step(selected, selected, &o2, Some(&t), Some(&t)), Ok(Walked::Done)));
    assert_eq!(p.bytes, 4);
    let texts = p.texts.into_entries();
    assert_eq!(texts.len(), 1);
    assert_eq!(texts[0].0, t.id());
    assert_eq!(texts[0].1.text, "same");
    assert_eq!(texts[0].1.created, None);
    assert_eq!(texts[0].1.observation, selected.commit);
    assert_eq!(texts[0].1.provenance, Some(prov));
}
