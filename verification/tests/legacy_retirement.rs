use cybergraph::legacy_file::{check_pinned, locate, pin, same, schema_ok, Located, PathKind, Place, RecordAt};

#[test]
fn legacy_files_are_found_from_their_paths() {
    let plain = Located { place: Place::Path, record: RecordAt::Nowhere, retired: false };
    assert_eq!(locate(PathKind::File, false, false).unwrap(), Some(plain));
    assert_eq!(locate(PathKind::File, true, false).unwrap(), Some(Located { record: RecordAt::Stage, ..plain }));
    assert_eq!(locate(PathKind::Directory, false, false).unwrap(), None);
    assert!(locate(PathKind::Directory, true, false).is_err());
    assert!(locate(PathKind::Directory, true, true).is_err());
    assert_eq!(
        locate(PathKind::Directory, false, true).unwrap(),
        Some(Located { place: Place::Retired, record: RecordAt::Path, retired: true })
    );
    assert!(locate(PathKind::Other, false, false).is_err());
    assert_eq!(locate(PathKind::Absent, false, false).unwrap(), None);
    assert_eq!(
        locate(PathKind::Absent, true, false).unwrap(),
        Some(Located { place: Place::Staged, record: RecordAt::Stage, retired: false })
    );
}

#[test]
fn retirement_records_pin_kind_and_bytes() {
    let m = pin("graph", b"old log");
    assert_eq!(m.schema, "cybergraph/legacy-file-retirement/1");
    assert_eq!(m.kind, "graph");
    assert_eq!(m.hash, *cyber_hemera::hash(b"old log").as_bytes());
    assert!(schema_ok(&m));
    assert!(same(&m, &pin("graph", b"old log")));
    assert!(!same(&m, &pin("graph", b"old log!")));
    assert!(!same(&m, &pin("text", b"old log")));
    assert!(check_pinned(None, &m).is_ok());
    assert!(check_pinned(Some(&pin("graph", b"old log")), &m).is_ok());
    assert!(check_pinned(Some(&pin("text", b"old log")), &m).is_err());
    let mut other = m.clone();
    other.schema = "something/else".to_string();
    assert!(!schema_ok(&other));
}
