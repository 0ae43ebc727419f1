use cybergraph::application::{commit_step, commit_write, CommitNext, ContentSet, Error as AppError, Head, Need};
use cybergraph::catalog::{Catalog, Change, Entry, Error};
use cybergraph::content::{Codec, Content};
use std::collections::BTreeMap;

const NAMESPACE: [u8; 32] = [61; 32];

fn request(n: u64) -> [u8; 32] {
    let mut id = [0; 32];
    id[..8].copy_from_slice(&n.to_be_bytes());
    id
}

/// The records a sequence of accepted changes stored.
struct Store {
    nodes: Vec<Content>,
}

impl Store {
    fn graph(&self) -> ContentSet {
        ContentSet::new(self.nodes.clone())
    }

    fn apply(&mut self, req: [u8; 32], expected: Option<Head>, change: Change) -> Result<Head, Error> {
        let graph = self.graph();
        let catalog = Catalog::new(&graph, NAMESPACE);
        let prepared = catalog.apply(req, expected, change)?;
        self.nodes.extend(prepared.content);
        Ok(prepared.head)
    }

    fn resolve(&self, at: Option<Head>, path: &str) -> Option<Entry> {
        let graph = self.graph();
        Catalog::new(&graph, NAMESPACE).resolve(at, path).unwrap()
    }

    fn all(&self, at: Option<Head>, page_size: usize) -> Vec<(String, Entry)> {
        let graph = self.graph();
        let catalog = Catalog::new(&graph, NAMESPACE);
        let mut after: Option<String> = None;
        let mut entries = Vec::new();
        loop {
            let page = catalog.list(at, after.as_deref(), page_size).unwrap();
            assert!(page.entries.len() <= page_size);
            entries.extend(page.entries);
            after = page.next;
            if after.is_none() {
                return entries;
            }
        }
    }
}

#[test]
fn ordered_pages_match_a_model_across_prefixes_unicode_and_mutations() {
    let mut store = Store { nodes: Vec::new() };
    let particle = Content::new(Codec::Blob, b"shared content".to_vec()).unwrap().id();
    let mut head = None;
    let mut model = BTreeMap::new();
    let mut paths = vec![
        "a".to_owned(),
        "a/b".to_owned(),
        "aa".to_owned(),
        "α/β".to_owned(),
        "e\u{301}".to_owned(),
        "é".to_owned(),
        "A".to_owned(),
    ];
    paths.extend((0..151).map(|n| format!("dir/{:03}", (n * 67) % 151)));
    paths.extend(["x".repeat(4096), "x".repeat(4095), "z".repeat(4080)]);
    for (i, path) in paths.iter().enumerate() {
        head = Some(store.apply(request(i as u64 + 1), head, Change::Create { path, particle }).unwrap());
        model.insert(path.clone(), store.resolve(head, path).unwrap());
    }
    let snapshot = head;
    assert_eq!(model["a"].particle, model["A"].particle);
    assert_ne!(model["a"].binding, model["A"].binding);
    assert!(matches!(
        store.apply(request(9999), head, Change::Rename { from: "a", to: "A", expected: model["a"] }),
        Err(Error::Conflict)
    ));
    assert_eq!(head, snapshot);
    let expected: Vec<_> = model.clone().into_iter().collect();
    for page_size in [1, 7, 31, 4096] {
        assert_eq!(store.all(head, page_size), expected);
    }
    for (i, path) in paths.iter().enumerate() {
        if i % 3 == 0 {
            let entry = model.remove(path).unwrap();
            head = Some(store.apply(request(i as u64 + 1000), head, Change::Remove { path, expected: entry }).unwrap());
        } else if i % 3 == 1 {
            let entry = model.remove(path).unwrap();
            let to = format!("moved/{path}");
            head = Some(store.apply(request(i as u64 + 1000), head, Change::Rename { from: path, to: &to, expected: entry }).unwrap());
            model.insert(to, entry);
        }
    }
    assert_eq!(store.all(head, 7), model.into_iter().collect::<Vec<_>>());
    assert_eq!(store.all(snapshot, 7), expected);
    let graph = store.graph();
    let catalog = Catalog::new(&graph, NAMESPACE);
    assert!(matches!(catalog.list(head, Some("missing"), 1), Err(Error::InvalidCursor)));
    assert!(matches!(catalog.list(head, None, 0), Err(Error::Limit)));
    assert!(matches!(catalog.list(head, None, 4097), Err(Error::Limit)));
}

#[test]
fn edits_keep_the_binding_and_change_the_revision() {
    let mut store = Store { nodes: Vec::new() };
    let first = Content::new(Codec::Blob, b"one".to_vec()).unwrap().id();
    let second = Content::new(Codec::Blob, b"two".to_vec()).unwrap().id();
    let h0 = store.apply(request(1), None, Change::Create { path: "notes/start", particle: first }).unwrap();
    let entry = store.resolve(Some(h0), "notes/start").unwrap();
    assert_eq!(entry.binding, entry.revision);
    assert_eq!(entry.particle, first);
    let h1 = store
        .apply(request(2), Some(h0), Change::Edit { path: "notes/start", expected: entry, particle: second })
        .unwrap();
    let edited = store.resolve(Some(h1), "notes/start").unwrap();
    assert_eq!(edited.binding, entry.binding);
    assert_eq!(edited.particle, second);
    assert_ne!(edited.revision, entry.revision);
    assert_eq!(store.resolve(Some(h0), "notes/start"), Some(entry));
    assert!(matches!(
        store.apply(request(3), Some(h1), Change::Edit { path: "notes/start", expected: entry, particle: first }),
        Err(Error::Conflict)
    ));
    let h2 = store.apply(request(4), Some(h1), Change::Remove { path: "notes/start", expected: edited }).unwrap();
    assert_eq!(store.resolve(Some(h2), "notes/start"), None);
    assert_eq!(store.all(Some(h2), 3), Vec::new());
    assert_eq!(h2.index, 2);
}

#[test]
fn prepared_changes_retain_their_payload_and_list_references_in_order() {
    let graph = ContentSet::new(Vec::new());
    let catalog = Catalog::new(&graph, NAMESPACE);
    let payload = [5; 32];
    let p = catalog.apply(request(1), None, Change::Create { path: "a/b", particle: payload }).unwrap();
    assert_eq!(p.blobs, vec![payload]);
    assert_eq!(p.head.index, 0);
    assert!(p.required.windows(2).all(|w| w[0] < w[1]));
    assert!(p.required.contains(&p.root.unwrap()));
    let mut store = Store { nodes: Vec::new() };
    store.nodes.extend(p.content);
    let h0 = p.head;
    let graph = store.graph();
    let catalog = Catalog::new(&graph, NAMESPACE);
    let q = catalog.apply(request(2), Some(h0), Change::Create { path: "a/c", particle: [6; 32] }).unwrap();
    assert_eq!(q.blobs, vec![[6; 32]]);
    assert!(q.required.windows(2).all(|w| w[0] < w[1]));
    assert!(q.required.contains(&h0.commit));
    assert!(q.required.contains(&q.root.unwrap()));
    let entry = catalog.resolve(Some(h0), "a/b").unwrap().unwrap();
    let r = catalog.apply(request(3), Some(h0), Change::Remove { path: "a/b", expected: entry }).unwrap();
    assert!(r.blobs.is_empty());
    assert_eq!(r.root, None);
    assert_eq!(r.required, vec![h0.commit]);
}

#[test]
fn an_empty_catalog_lists_nothing_and_knows_no_cursor() {
    let graph = ContentSet::new(Vec::new());
    let catalog = Catalog::new(&graph, NAMESPACE);
    for k in [1, 7, 4096] {
        let page = catalog.list(None, None, k).unwrap();
        assert!(page.entries.is_empty());
        assert_eq!(page.next, None);
    }
    assert!(matches!(catalog.list(None, Some("missing"), 5), Err(Error::InvalidCursor)));
    assert!(matches!(catalog.list(None, Some("a//b"), 5), Err(Error::InvalidPath)));
    assert!(matches!(catalog.list(None, Some("a//b"), 0), Err(Error::Limit)));
    assert!(matches!(catalog.list(None, None, 4097), Err(Error::Limit)));
}

/// The store's answers to a commit's lookups: stored contents are in the
/// graph, sealed files in `sealed`.
fn answers(graph: &ContentSet, sealed: &[[u8; 32]], needs: &[Need]) -> Vec<bool> {
    needs
        .iter()
        .map(|n| match n {
            Need::Stored(id) => graph.get(id).is_some(),
            Need::File(id) => sealed.contains(id),
        })
        .collect()
}

/// Commit a prepared change against a store whose current head is
/// `current`, whose sealed files are `sealed`, and which has `recorded` on
/// file for the request.
fn publish(
    graph: &ContentSet,
    request: [u8; 32],
    expected: Option<Head>,
    change: Change,
    sealed: &[[u8; 32]],
    recorded: Option<([u8; 32], Head)>,
    current: Option<Head>,
) -> Result<(Head, [u8; 32]), AppError> {
    let catalog = Catalog::new(graph, NAMESPACE);
    let prepared = catalog.apply(request, expected, change).map_err(|_| AppError::InvalidProposal)?;
    let head = prepared.head;
    let (proposal, blobs) = catalog.propose(request, expected, prepared);
    match commit_step(&proposal, &blobs, None, false, recorded)? {
        CommitNext::Answered(h) => Ok((h, [0; 32])),
        CommitNext::Lookup { fingerprint, needs } => {
            let present = answers(graph, sealed, &needs);
            commit_write(&needs, &present, expected, current)?;
            Ok((head, fingerprint))
        }
    }
}

#[test]
fn unsealed_payloads_and_competing_writers_publish_nothing() {
    let graph = ContentSet::new(Vec::new());
    let missing = request(99);
    let sealed = [request(98)];
    // a payload that was never sealed is missing, and nothing is written
    assert!(matches!(
        publish(&graph, request(1), None, Change::Create { path: "file", particle: missing }, &sealed, None, None),
        Err(AppError::MissingContent(p)) if p == missing
    ));
    // with the payload sealed, the first of two writers from the same head wins
    let (h1, f1) =
        publish(&graph, request(1), None, Change::Create { path: "file", particle: sealed[0] }, &sealed, None, None).unwrap();
    assert_eq!(h1.index, 0);
    assert!(matches!(
        publish(&graph, request(2), None, Change::Create { path: "other", particle: sealed[0] }, &sealed, None, Some(h1)),
        Err(AppError::Conflict)
    ));
    // a retry of the winner is answered with its head; another change under
    // its request is a conflict
    let retry =
        publish(&graph, request(1), None, Change::Create { path: "file", particle: sealed[0] }, &sealed, Some((f1, h1)), Some(h1));
    assert_eq!(retry.unwrap().0, h1);
    assert!(matches!(
        publish(&graph, request(1), None, Change::Create { path: "else", particle: sealed[0] }, &sealed, Some((f1, h1)), Some(h1)),
        Err(AppError::Conflict)
    ));
}
