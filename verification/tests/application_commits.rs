use cybergraph::application::{
    answer_retry, check_present, check_proposal, commit_step, commit_write, content_order, CommitNext, particle_less, requirements, Error, Head, Migration, Need, Proposal,
};
use cybergraph::content::{Codec, Content};

fn hash(b: &[u8]) -> [u8; 32] {
    *cyber_hemera::hash(b).as_bytes()
}

fn blob(b: &[u8]) -> Content {
    Content::new(Codec::Blob, b.to_vec()).unwrap()
}

fn proposal(content: Vec<Content>) -> Proposal {
    Proposal {
        namespace: [1; 32],
        request: [2; 32],
        expected: Some(Head { index: 3, commit: [4; 32] }),
        head: Head { index: 4, commit: [5; 32] },
        content,
        required: vec![[6; 32]],
        claims: vec![([7; 32], [8; 32])],
    }
}

#[test]
fn particles_compare_bytewise() {
    assert!(particle_less(&[0; 32], &[1; 32]));
    let mut a = [9; 32];
    a[31] = 1;
    assert!(particle_less(&a, &[9; 32]));
    assert!(!particle_less(&[9; 32], &a));
    assert!(!particle_less(&a, &a));
}

#[test]
fn contents_are_ordered_by_identity_and_must_be_distinct() {
    let cs = vec![blob(b"one"), blob(b"two"), blob(b"three")];
    let order = content_order(&cs).unwrap();
    assert_eq!(order.len(), 3);
    for w in order.windows(2) {
        assert!(cs[w[0]].id() < cs[w[1]].id());
    }
    let mut seen = order.clone();
    seen.sort();
    assert_eq!(seen, vec![0, 1, 2]);
    let dup = vec![blob(b"one"), blob(b"two"), blob(b"one")];
    assert!(matches!(content_order(&dup), Err(Error::InvalidProposal)));
}

#[test]
fn fingerprints_cover_the_whole_transaction() {
    let a = blob(b"alpha");
    let b = blob(b"beta");
    let p = proposal(vec![a.clone(), b.clone()]);
    let checked = check_proposal(&p, &[], None).unwrap();
    let (first, second) = if a.id() < b.id() { (a.id(), b.id()) } else { (b.id(), a.id()) };
    let mut bytes = b"cybergraph/application-transaction/1\0".to_vec();
    bytes.extend([1; 32]);
    bytes.extend([2; 32]);
    bytes.push(1);
    bytes.extend(3u64.to_le_bytes());
    bytes.extend([4; 32]);
    bytes.extend(4u64.to_le_bytes());
    bytes.extend([5; 32]);
    bytes.extend(2u64.to_le_bytes());
    bytes.extend(first);
    bytes.extend(second);
    bytes.extend(1u64.to_le_bytes());
    bytes.extend([6; 32]);
    bytes.extend(1u64.to_le_bytes());
    bytes.extend([7; 32]);
    bytes.extend([8; 32]);
    assert_eq!(checked.fingerprint, hash(&bytes));
    let swapped = proposal(vec![b.clone(), a.clone()]);
    assert_eq!(check_proposal(&swapped, &[], None).unwrap().fingerprint, checked.fingerprint);
    let blobs = [[10; 32], [11; 32]];
    let with_files = check_proposal(&p, &blobs, None).unwrap().fingerprint;
    let mut ext = b"cybergraph/application-files\0".to_vec();
    ext.extend(checked.fingerprint);
    ext.extend(hash(b"cybergraph/blob/hemera-sponge"));
    ext.extend(2u64.to_le_bytes());
    ext.extend([10; 32]);
    ext.extend([11; 32]);
    assert_eq!(with_files, hash(&ext));
    let m = Migration { manifest: [12; 32], sources: vec![([13; 32], Head { index: 1, commit: [14; 32] })] };
    let migrated = check_proposal(&p, &[], Some(&m)).unwrap().fingerprint;
    let mut mig = b"cybergraph/namespace-migration/1\0".to_vec();
    mig.extend(checked.fingerprint);
    mig.extend([12; 32]);
    mig.extend(1u64.to_le_bytes());
    mig.extend([13; 32]);
    mig.extend(1u64.to_le_bytes());
    mig.extend([14; 32]);
    assert_eq!(migrated, hash(&mig));
}

#[test]
fn proposals_outside_their_limits_are_refused() {
    let p = proposal(vec![]);
    assert!(matches!(check_proposal(&p, &[[2; 32], [1; 32]], None), Err(Error::InvalidProposal)));
    assert!(matches!(check_proposal(&p, &[[1; 32], [1; 32]], None), Err(Error::InvalidProposal)));
    let mut many = proposal(vec![]);
    many.claims = vec![([0; 32], [0; 32]); 4097];
    assert!(matches!(check_proposal(&many, &[], None), Err(Error::InvalidProposal)));
    let empty = Migration { manifest: [0; 32], sources: vec![] };
    assert!(matches!(check_proposal(&p, &[], Some(&empty)), Err(Error::InvalidProposal)));
    let own = Migration { manifest: [0; 32], sources: vec![([1; 32], Head { index: 0, commit: [0; 32] })] };
    assert!(matches!(check_proposal(&p, &[], Some(&own)), Err(Error::InvalidProposal)));
    let unsorted = Migration {
        manifest: [0; 32],
        sources: vec![([9; 32], Head { index: 0, commit: [0; 32] }), ([8; 32], Head { index: 0, commit: [0; 32] })],
    };
    assert!(matches!(check_proposal(&p, &[], Some(&unsorted)), Err(Error::InvalidProposal)));
    let dup = proposal(vec![blob(b"x"), blob(b"x")]);
    assert!(matches!(check_proposal(&dup, &[], None), Err(Error::InvalidProposal)));
}

#[test]
fn retries_are_answered_from_the_record() {
    let h = Head { index: 2, commit: [3; 32] };
    assert!(answer_retry(None, &[1; 32], false).is_none());
    assert!(matches!(answer_retry(Some(([1; 32], h)), &[1; 32], false), Some(Ok(x)) if x == h));
    assert!(matches!(answer_retry(Some(([1; 32], h)), &[2; 32], false), Some(Err(Error::Conflict))));
    assert!(matches!(answer_retry(Some(([1; 32], h)), &[1; 32], true), Some(Err(Error::Conflict))));
}

#[test]
fn commits_need_their_references_in_order() {
    let leaf = blob(b"leaf");
    let file = [20; 32];
    let missing = [21; 32];
    let pair = Content::pair(leaf.id(), file).unwrap();
    let other = Content::pair(missing, leaf.id()).unwrap();
    let mut p = proposal(vec![pair.clone(), leaf.clone(), other.clone()]);
    p.head.commit = pair.id();
    p.required = vec![missing, leaf.id(), file];
    let blobs = [file];
    let checked = check_proposal(&p, &blobs, None).unwrap();
    let needs = requirements(&p, &blobs, &checked.order);
    let mut expected = vec![Need::File(file), Need::Stored(missing), Need::File(file)];
    let (a, b) = if pair.id() < other.id() {
        (vec![Need::File(file)], vec![Need::Stored(missing)])
    } else {
        (vec![Need::Stored(missing)], vec![Need::File(file)])
    };
    expected.extend(a);
    expected.extend(b);
    assert_eq!(needs, expected);
    p.head.commit = [30; 32];
    let needs = requirements(&p, &blobs, &checked.order);
    assert_eq!(needs[0], Need::Stored([30; 32]));
}

#[test]
fn the_first_lookup_that_finds_nothing_refuses_the_commit() {
    let needs = [Need::Stored([1; 32]), Need::File([2; 32]), Need::Stored([3; 32])];
    assert!(check_present(&needs, &[true, true, true]).is_ok());
    assert!(check_present(&[], &[]).is_ok());
    assert!(matches!(check_present(&needs, &[true, false, false]), Err(Error::MissingContent(p)) if p == [2; 32]));
    assert!(matches!(check_present(&needs, &[false, true, false]), Err(Error::MissingContent(p)) if p == [1; 32]));
    assert!(matches!(check_present(&needs, &[true, true, false]), Err(Error::MissingContent(p)) if p == [3; 32]));
}

#[test]
fn commits_check_first_then_answer_retries_then_look_up() {
    let p = proposal(vec![blob(b"a")]);
    let blobs = [[9; 32]];
    let f = check_proposal(&p, &blobs, None).unwrap().fingerprint;
    let h = Head { index: 4, commit: [5; 32] };
    // an invalid proposal is refused before its record is read
    let unordered = [[9; 32], [1; 32]];
    assert!(matches!(commit_step(&p, &unordered, None, false, Some((f, h))), Err(Error::InvalidProposal)));
    // a request on record with the same transaction gets its head back
    assert!(matches!(commit_step(&p, &blobs, None, false, Some((f, h))), Ok(CommitNext::Answered(got)) if got == h));
    assert!(matches!(commit_step(&p, &blobs, None, false, Some(([0; 32], h))), Err(Error::Conflict)));
    assert!(matches!(commit_step(&p, &blobs, None, true, Some((f, h))), Err(Error::Conflict)));
    // a new request lists its lookups: the head commit, the file, the reference
    match commit_step(&p, &blobs, None, false, None).unwrap() {
        CommitNext::Lookup { fingerprint, needs } => {
            assert_eq!(fingerprint, f);
            assert_eq!(needs, vec![Need::Stored([5; 32]), Need::File([9; 32]), Need::Stored([6; 32])]);
            let expected = p.expected;
            assert!(commit_write(&needs, &[true, true, true], expected, expected).is_ok());
            assert!(matches!(commit_write(&needs, &[true, false, false], expected, expected), Err(Error::MissingContent(x)) if x == [9; 32]));
            assert!(matches!(commit_write(&needs, &[true, true, true], expected, Some(h)), Err(Error::Conflict)));
            assert!(matches!(commit_write(&needs, &[true, true, true], expected, None), Err(Error::Conflict)));
        }
        CommitNext::Answered(_) => panic!("a new request is not on record"),
    }
}
