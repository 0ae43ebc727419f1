use cybergraph::application::{ContentSet, Head};
use cybergraph::catalog::codec::{event, node, read_node, read_state, state, Input, Node};
use cybergraph::catalog::tree::{difference, increasing, path_bit, Tree};
use cybergraph::catalog::{require_entry, valid_path, Catalog, Change, Entry, Error};
use cybergraph::content::{Codec, Content};

fn e(n: u8) -> Entry {
    Entry { binding: [n; 32], particle: [n + 1; 32], revision: [n + 2; 32] }
}

#[test]
fn paths_are_checked() {
    assert!(valid_path("a/b.txt").is_ok());
    assert!(valid_path("dir/.hidden").is_ok());
    assert!(valid_path("ünïcode/ok").is_ok());
    for bad in ["", "/a", "a/", "a//b", ".", "..", "a/./b", "a/../b", "a\0b"] {
        assert!(matches!(valid_path(bad), Err(Error::InvalidPath)), "{bad:?}");
    }
    assert!(matches!(valid_path(&"a".repeat(4097)), Err(Error::Limit)));
    assert!(valid_path(&"a".repeat(4096)).is_ok());
}

#[test]
fn path_bits_mark_presence_then_byte_bits() {
    assert!(path_bit("a", 0));
    assert!(!path_bit("a", 9));
    // 'a' is 0x61 = 0110_0001: bits 1..=8 are its bits from the highest.
    let bits: Vec<bool> = (1..=8).map(|b| path_bit("a", b)).collect();
    assert_eq!(bits, vec![false, true, true, false, false, false, false, true]);
    assert_eq!(difference("a", "b").unwrap(), 7);
    assert_eq!(difference("a", "ab").unwrap(), 9);
    assert!(matches!(difference("same", "same"), Err(Error::Corrupt)));
    assert!(increasing(None, 0).is_ok());
    assert!(increasing(Some(3), 4).is_ok());
    assert!(matches!(increasing(Some(4), 4), Err(Error::Corrupt)));
}

#[test]
fn entries_must_match_what_a_change_expects() {
    assert!(require_entry(Some(e(1)), e(1)).is_ok());
    assert!(matches!(require_entry(Some(e(1)), e(2)), Err(Error::Conflict)));
    assert!(matches!(require_entry(None, e(2)), Err(Error::Conflict)));
}

#[test]
fn nodes_round_trip() {
    let leaf = node(&Node::Leaf("dir/file".to_string(), e(3))).unwrap();
    assert_eq!(leaf.codec(), Codec::Blob);
    assert!(leaf.bytes().starts_with(b"cybergraph/catalog/node\0"));
    match read_node(&leaf).unwrap() {
        Node::Leaf(p, entry) => {
            assert_eq!(p, "dir/file");
            assert_eq!(entry, e(3));
        },
        _ => panic!("leaf expected"),
    }
    let branch = node(&Node::Branch { bit: 17, left: [1; 32], right: [2; 32] }).unwrap();
    assert!(matches!(read_node(&branch).unwrap(), Node::Branch { bit: 17, .. }));
    let too_deep = node(&Node::Branch { bit: 36865, left: [1; 32], right: [2; 32] }).unwrap();
    assert!(matches!(read_node(&too_deep), Err(Error::Corrupt)));
    let bad_path = node(&Node::Leaf("a//b".to_string(), e(1))).unwrap();
    assert!(matches!(read_node(&bad_path), Err(Error::Corrupt)));
    let other = Content::new(Codec::Blob, b"not a node".to_vec()).unwrap();
    assert!(matches!(read_node(&other), Err(Error::Corrupt)));
}

#[test]
fn states_record_their_root() {
    let first = state([1; 32], 0, None, [2; 32], Some([3; 32])).unwrap();
    assert_eq!(read_state(&first, [1; 32], 0).unwrap(), Some([3; 32]));
    assert!(matches!(read_state(&first, [9; 32], 0), Err(Error::Corrupt)));
    assert!(matches!(read_state(&first, [1; 32], 1), Err(Error::Corrupt)));
    let prev = Head { index: 0, commit: first.id() };
    let second = state([1; 32], 1, Some(prev), [2; 32], None).unwrap();
    assert_eq!(read_state(&second, [1; 32], 1).unwrap(), None);
    let skipped = state([1; 32], 2, Some(prev), [2; 32], None).unwrap();
    assert!(matches!(read_state(&skipped, [1; 32], 2), Err(Error::Corrupt)));
}

#[test]
fn events_refuse_bad_paths() {
    assert!(event([1; 32], [2; 32], None, Change::Create { path: "ok", particle: [3; 32] }).is_ok());
    assert!(matches!(event([1; 32], [2; 32], None, Change::Create { path: "a//b", particle: [3; 32] }), Err(Error::InvalidPath)));
    let long = "x".repeat(5000);
    assert!(matches!(event([1; 32], [2; 32], None, Change::Rename { from: &long, to: "..", expected: e(1) }), Err(Error::Limit)));
    assert!(matches!(event([1; 32], [2; 32], None, Change::Rename { from: "a", to: "..", expected: e(1) }), Err(Error::InvalidPath)));
}

#[test]
fn input_reads_after_its_prefix() {
    let c = Content::new(Codec::Blob, b"PFXabcd".to_vec()).unwrap();
    let mut input = Input::new(&c, b"PFX").unwrap();
    assert_eq!(input.byte().unwrap(), b'a');
    let two: [u8; 2] = input.array().unwrap();
    assert_eq!(&two, b"bc");
    assert_eq!(input.take(1).unwrap(), b"d");
    assert!(input.take(1).is_err());
    assert!(input.end().is_ok());
    assert!(Input::new(&c, b"XYZ").is_err());
    let data = Content::atom(1).unwrap();
    assert!(Input::new(&data, b"").is_err());
}

/// Apply a sequence of sets to a fresh tree and return the nodes and root.
fn build(pairs: &[(&str, Option<Entry>)]) -> (Vec<Content>, Option<[u8; 32]>) {
    let mut nodes: Vec<Content> = Vec::new();
    let mut root = None;
    for (path, value) in pairs {
        let graph = ContentSet::new(nodes.clone());
        let mut tree = Tree::new(&graph);
        root = tree.set(root, path, *value).unwrap();
        let (fresh, _) = tree.into_parts();
        nodes.extend(fresh);
    }
    (nodes, root)
}

#[test]
fn tree_reads_back_what_was_written() {
    let paths = ["b", "a", "ab", "c/d", "c", "abc", "z"];
    let pairs: Vec<(&str, Option<Entry>)> = paths.iter().enumerate().map(|(i, p)| (*p, Some(e(i as u8)))).collect();
    let (nodes, root) = build(&pairs);
    let graph = ContentSet::new(nodes);
    let tree = Tree::new(&graph);
    for (i, p) in paths.iter().enumerate() {
        assert_eq!(tree.get(root, p).unwrap(), Some(e(i as u8)), "{p}");
    }
    assert_eq!(tree.get(root, "missing").unwrap(), None);
    assert_eq!(tree.get(None, "a").unwrap(), None);
}

#[test]
fn tree_lists_in_bytewise_order_with_cursors() {
    let paths = ["b", "a", "ab", "c/d", "c", "abc", "z"];
    let pairs: Vec<(&str, Option<Entry>)> = paths.iter().map(|p| (*p, Some(e(1)))).collect();
    let (nodes, root) = build(&pairs);
    let graph = ContentSet::new(nodes);
    let tree = Tree::new(&graph);
    let page = tree.list(root, None, 100).unwrap();
    let names: Vec<String> = page.entries.iter().map(|(p, _)| p.clone()).collect();
    let mut sorted: Vec<String> = paths.iter().map(|p| p.to_string()).collect();
    sorted.sort();
    assert_eq!(names, sorted);
    assert_eq!(page.next, None);
    let first = tree.list(root, None, 3).unwrap();
    assert_eq!(first.entries.len(), 3);
    assert_eq!(first.next, Some(sorted[2].clone()));
    let rest = tree.list(root, first.next.as_deref(), 100).unwrap();
    let rest_names: Vec<String> = rest.entries.iter().map(|(p, _)| p.clone()).collect();
    assert_eq!(rest_names, sorted[3..].to_vec());
    assert!(matches!(tree.list(root, Some("nope"), 3), Err(Error::InvalidCursor)));
    assert!(matches!(tree.list(None, Some("a"), 3), Err(Error::InvalidCursor)));
    assert!(tree.list(None, None, 3).unwrap().entries.is_empty());
}

#[test]
fn tree_removals_leave_the_other_names() {
    let (nodes, root) = build(&[("a", Some(e(1))), ("b", Some(e(2))), ("c", Some(e(3))), ("b", None), ("zz", None)]);
    let graph = ContentSet::new(nodes.clone());
    let tree = Tree::new(&graph);
    assert_eq!(tree.get(root, "a").unwrap(), Some(e(1)));
    assert_eq!(tree.get(root, "b").unwrap(), None);
    assert_eq!(tree.get(root, "c").unwrap(), Some(e(3)));
    let (nodes, root) = build(&[("only", Some(e(1))), ("only", None)]);
    assert_eq!(root, None);
    assert!(!nodes.is_empty());
}

#[test]
fn catalog_changes_are_conditional() {
    let ns = [7; 32];
    let mut nodes: Vec<Content> = Vec::new();
    let graph = ContentSet::new(nodes.clone());
    let cat = Catalog::new(&graph, ns);
    let p = cat.apply([1; 32], None, Change::Create { path: "a", particle: [5; 32] }).unwrap();
    assert_eq!(p.head.index, 0);
    assert_eq!(p.blobs, vec![[5; 32]]);
    nodes.extend(p.content);
    let head = p.head;
    let graph = ContentSet::new(nodes.clone());
    let cat = Catalog::new(&graph, ns);
    let entry = cat.resolve(Some(head), "a").unwrap().unwrap();
    assert_eq!(entry.particle, [5; 32]);
    assert_eq!(entry.binding, entry.revision);
    assert!(matches!(cat.apply([2; 32], Some(head), Change::Create { path: "a", particle: [6; 32] }), Err(Error::Conflict)));
    assert!(matches!(cat.apply([2; 32], Some(head), Change::Remove { path: "a", expected: e(9) }), Err(Error::Conflict)));
    let renamed = cat.apply([3; 32], Some(head), Change::Rename { from: "a", to: "b", expected: entry }).unwrap();
    assert_eq!(renamed.head.index, 1);
    nodes.extend(renamed.content);
    let graph = ContentSet::new(nodes.clone());
    let cat = Catalog::new(&graph, ns);
    assert_eq!(cat.resolve(Some(renamed.head), "a").unwrap(), None);
    assert_eq!(cat.resolve(Some(renamed.head), "b").unwrap(), Some(entry));
    assert_eq!(cat.resolve(Some(head), "a").unwrap(), Some(entry));
    let page = cat.list(Some(renamed.head), None, 10).unwrap();
    assert_eq!(page.entries.len(), 1);
    assert!(matches!(cat.list(Some(renamed.head), None, 0), Err(Error::Limit)));
    assert!(matches!(cat.resolve(Some(head), "a//b"), Err(Error::InvalidPath)));
    let edited = cat.apply([4; 32], Some(renamed.head), Change::Edit { path: "b", expected: entry, particle: [8; 32] }).unwrap();
    nodes.extend(edited.content);
    let graph = ContentSet::new(nodes);
    let cat = Catalog::new(&graph, ns);
    let now = cat.resolve(Some(edited.head), "b").unwrap().unwrap();
    assert_eq!(now.binding, entry.binding);
    assert_eq!(now.particle, [8; 32]);
    assert_ne!(now.revision, entry.revision);
    assert!(matches!(cat.root(Some(Head { index: 0, commit: [0; 32] })), Err(Error::Corrupt)));
}
