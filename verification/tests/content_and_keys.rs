use cybergraph::content::{Codec, Content, ContentError};
use cybergraph::keys::{h32, hex};
use cybergraph::api::{Event, Filter, Scope};

#[test]
fn blob_identity_is_the_hemera_digest() {
    let c = Content::new(Codec::Blob, b"hello".to_vec()).unwrap();
    assert_eq!(c.id(), *cyber_hemera::hash(b"hello").as_bytes());
    assert_ne!(&c.id()[..5], b"hello");
    assert_eq!(c.codec(), Codec::Blob);
    assert_eq!(c.bytes(), b"hello");
    assert_eq!(c.children(), None);
}

#[test]
fn atoms_are_field_elements() {
    let a = Content::atom(7).unwrap();
    assert_eq!(a.bytes(), &7u64.to_le_bytes());
    assert_eq!(a.codec(), Codec::Data);
    assert_eq!(a.id(), nox::encode::particle_of(&7u64.to_le_bytes()).unwrap());
    assert!(matches!(Content::atom(u64::MAX), Err(ContentError::InvalidData)));
    assert!(matches!(Content::atom(0xffff_ffff_0000_0001), Err(ContentError::InvalidData)));
    assert!(Content::atom(0xffff_ffff_0000_0000).is_ok());
}

#[test]
fn pairs_expose_their_children() {
    let l = Content::atom(1).unwrap().id();
    let r = Content::atom(2).unwrap().id();
    let p = Content::pair(l, r).unwrap();
    assert_eq!(p.children(), Some((l, r)));
    let mut bytes = l.to_vec();
    bytes.extend_from_slice(&r);
    assert_eq!(p.bytes(), bytes.as_slice());
}

#[test]
fn noncanonical_pair_limbs_are_refused() {
    let bytes = vec![0xff; 64];
    assert!(matches!(Content::new(Codec::Data, bytes), Err(ContentError::NoncanonicalParticle)));
    assert!(matches!(Content::new(Codec::Data, vec![1, 2, 3]), Err(ContentError::InvalidData)));
}

#[test]
fn oversized_content_is_refused() {
    let bytes = vec![0u8; 16 * 1024 * 1024 + 1];
    assert!(matches!(Content::new(Codec::Blob, bytes), Err(ContentError::TooLarge)));
}

#[test]
fn stored_form_round_trips_and_checks_identity() {
    let c = Content::new(Codec::Blob, b"abc".to_vec()).unwrap();
    let stored = c.stored();
    assert_eq!(stored[0], 1);
    let back = Content::from_stored(c.id(), stored.clone()).unwrap();
    assert_eq!(back.bytes(), b"abc");
    assert_eq!(back.id(), c.id());
    assert!(matches!(Content::from_stored([9; 32], stored), Err(ContentError::IdentityMismatch)));
    assert!(matches!(Content::from_stored(c.id(), vec![]), Err(ContentError::InvalidData)));
    assert!(matches!(Content::from_stored(c.id(), vec![7, 1]), Err(ContentError::InvalidData)));
}

#[test]
fn hex_is_lowercase_two_digits_per_byte() {
    assert_eq!(hex(&[0x00, 0xab, 0x10, 0xff]), "00ab10ff");
    assert_eq!(hex(&[]), "");
}

#[test]
fn h32_accepts_prefix_padding_and_both_cases() {
    let mut want = [0u8; 32];
    want[31] = 0xab;
    assert_eq!(h32("ab"), Some(want));
    assert_eq!(h32("0xAB"), Some(want));
    let full = "ff".repeat(32);
    assert_eq!(h32(&full), Some([0xff; 32]));
    want[30] = 0x01;
    assert_eq!(h32("1ab"), Some(want));
}

#[test]
fn h32_refuses_empty_long_and_non_hex() {
    assert_eq!(h32(""), None);
    assert_eq!(h32("0x"), None);
    assert_eq!(h32(&"0".repeat(65)), None);
    assert_eq!(h32("xyz"), None);
    assert_eq!(h32("é"), None);
}

#[test]
fn hex_then_h32_gives_the_key_back() {
    let key: [u8; 32] = core::array::from_fn(|i| (i * 7) as u8);
    assert_eq!(h32(&hex(&key)), Some(key));
}

#[test]
fn scope_hash_covers_every_field() {
    let s = Scope { target: [2; 32], predicate: b"do-thing".to_vec(), deadline: Some(100), constraints: vec![] };
    let mut buf = [2u8; 32].to_vec();
    buf.extend_from_slice(b"do-thing");
    buf.extend_from_slice(&100u64.to_le_bytes());
    assert_eq!(s.hash(), *cyber_hemera::hash(&buf).as_bytes());
    let none = Scope { deadline: None, ..s.clone() };
    let zero = Scope { deadline: Some(0), ..s.clone() };
    assert_eq!(none.hash(), zero.hash());
    assert_ne!(none.hash(), s.hash());
}

#[test]
fn filters_select_events() {
    let e1 = Event::Linked { neuron: [1; 32], step: 0 };
    let e2 = Event::IntentDeclared { key: [9; 32], neuron: [2; 32], h0: 0 };
    assert!(cybergraph::api::matches(&Filter::All, &e1));
    assert!(cybergraph::api::matches(&Filter::ByNeuron([1; 32]), &e1));
    assert!(!cybergraph::api::matches(&Filter::ByNeuron([1; 32]), &e2));
    assert!(!cybergraph::api::matches(&Filter::ByTargetParticle([9; 32]), &e2));
}
