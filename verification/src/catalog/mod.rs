//! Versioned local file names: entries, conditional namespace changes,
//! listings, the validity of paths, and the record codecs and crit-bit name
//! tree below them.
use vstd::prelude::*;
use vstd::string::StringSliceAdditionalSpecFns;
use crate::application::{content_views, find_first, particle_less, strictly_increasing, ContentSet, Head, Proposal};
use crate::content::{particle_eq, Codec, Content, ContentError, ContentView};
use crate::hash::hemera_hash;
use crate::Particle;
use crate::wire::{byte_less, lemma_byte_less_total};
use codec::{event, holds_state, law_state_round_trip, path_error, read_state, spec_event, spec_state, state, ChangeView};
use tree::{branch_refs, coherent, cursor, get_walk, lemma_coherent_prefix, lemma_contents_stable, lemma_get_contents, lemma_nodes_coherent, listed, node_collision_free, page_view, read_at, rebind, tree_contents, Tree};

pub mod codec;
pub mod tree;

verus! {

/// Most encoded bytes in one path.
pub const MAX_PATH_BYTES: usize = 4096;
/// Most entries in one listing or history page.
pub const MAX_PAGE_ENTRIES: usize = 4096;

/// A stable name binding and its current immutable payload revision.
#[derive(Debug, Clone, Copy, PartialEq, Eq)]
pub struct Entry {
    pub binding: Particle,
    pub particle: Particle,
    pub revision: Particle,
}

/// One conditional namespace operation.
#[derive(Debug, Clone, Copy)]
pub enum Change<'a> {
    Create { path: &'a str, particle: Particle },
    Edit { path: &'a str, expected: Entry, particle: Particle },
    Rename { from: &'a str, to: &'a str, expected: Entry },
    Remove { path: &'a str, expected: Entry },
}

/// A bounded listing in bytewise path order.
#[derive(Debug, PartialEq, Eq)]
pub struct Page {
    pub entries: Vec<(String, Entry)>,
    /// The last returned path, where further entries exist.
    pub next: Option<String>,
}

/// Why a catalog request failed.
#[derive(Debug)]
pub enum Error {
    Content(ContentError),
    InvalidPath,
    InvalidCursor,
    Conflict,
    Corrupt,
    Limit,
}

/// The slash that separates path segments.
pub open spec fn slash() -> u8 {
    47u8
}

/// The dot of the `.` and `..` segments.
pub open spec fn dot() -> u8 {
    46u8
}

/// A path segment starts at byte `i`.
pub open spec fn seg_start(b: Seq<u8>, i: int) -> bool {
    i == 0 || b[i - 1] == slash()
}

/// A path segment ends just before byte `i`.
pub open spec fn seg_end(b: Seq<u8>, i: int) -> bool {
    i == b.len() || b[i] == slash()
}

/// Some segment of the path is empty, `.` or `..`.
pub open spec fn bad_segment(b: Seq<u8>) -> bool {
    exists|i: int| 0 <= i <= b.len() && #[trigger] seg_start(b, i) && {
        ||| seg_end(b, i)
        ||| (i + 1 <= b.len() && b[i] == dot() && seg_end(b, i + 1))
        ||| (i + 2 <= b.len() && b[i] == dot() && b[i + 1] == dot() && seg_end(b, i + 2))
    }
}

/// A well-formed path: segments separated by single slashes, none empty,
/// `.` or `..`, and no zero byte.
pub open spec fn path_ok(b: Seq<u8>) -> bool {
    &&& forall|i: int| 0 <= i < b.len() ==> b[i] != 0u8
    &&& !bad_segment(b)
}

/// Whether a segment that starts at `i` is bad.
fn bad_at(b: &[u8], i: usize) -> (r: bool)
    requires
        i <= b@.len(),
        b@.len() <= MAX_PATH_BYTES,
        seg_start(b@, i as int),
    ensures
        r == {
            ||| seg_end(b@, i as int)
            ||| (i + 1 <= b@.len() && b@[i as int] == dot() && seg_end(b@, i + 1))
            ||| (i + 2 <= b@.len() && b@[i as int] == dot() && b@[i + 1] == dot() && seg_end(b@, i + 2))
        },
{
    let n = b.len();
    let end0 = i == n || b[i] == 47;
    let one = i + 1 <= n && b[i] == 46 && (i + 1 == n || b[i + 1] == 47);
    let two = i + 2 <= n && b[i] == 46 && b[i + 1] == 46 && (i + 2 == n || b[i + 2] == 47);
    end0 || one || two
}

/// Check a path: at most 4096 bytes (else a limit), and well formed (else
/// an invalid path).
pub fn valid_path(path: &str) -> (r: Result<(), Error>)
    ensures
        path.spec_bytes().len() > MAX_PATH_BYTES ==> r matches Err(Error::Limit),
        path.spec_bytes().len() <= MAX_PATH_BYTES ==> if path_ok(path.spec_bytes()) {
            r is Ok
        } else {
            r matches Err(Error::InvalidPath)
        },
{
    let b = path.as_bytes();
    if b.len() > MAX_PATH_BYTES {
        return Err(Error::Limit);
    }
    let mut i: usize = 0;
    while i <= b.len()
        invariant
            b@ == path.spec_bytes(),
            b@.len() <= MAX_PATH_BYTES,
            i <= b@.len() + 1,
            forall|j: int| 0 <= j < i && j < b@.len() ==> b@[j] != 0u8,
            forall|j: int| 0 <= j < i && j <= b@.len() && #[trigger] seg_start(b@, j) ==> !{
                ||| seg_end(b@, j)
                ||| (j + 1 <= b@.len() && b@[j] == dot() && seg_end(b@, j + 1))
                ||| (j + 2 <= b@.len() && b@[j] == dot() && b@[j + 1] == dot() && seg_end(b@, j + 2))
            },
        decreases b@.len() + 1 - i,
    {
        if i < b.len() && b[i] == 0 {
            return Err(Error::InvalidPath);
        }
        if i == 0 || b[i - 1] == 47 {
            if bad_at(b, i) {
                proof {
                    assert(seg_start(b@, i as int));
                }
                return Err(Error::InvalidPath);
            }
        }
        i = i + 1;
    }
    Ok(())
}

/// Spec equality of entries.
pub fn entry_eq(a: &Entry, b: &Entry) -> (r: bool)
    ensures
        r == (*a == *b),
{
    particle_eq(&a.binding, &b.binding) && particle_eq(&a.particle, &b.particle) && particle_eq(&a.revision, &b.revision)
}

/// A change applies only to the entry it expects.
pub fn require_entry(actual: Option<Entry>, expected: Entry) -> (r: Result<(), Error>)
    ensures
        actual == Some(expected) ==> r is Ok,
        actual != Some(expected) ==> r matches Err(Error::Conflict),
{
    match actual {
        Some(a) => {
            if entry_eq(&a, &expected) {
                Ok(())
            } else {
                Err(Error::Conflict)
            }
        },
        None => Err(Error::Conflict),
    }
}

/// The tree root the state at `at` records (none before the first state).
pub open spec fn roots(graph: Seq<ContentView>, namespace: Particle, at: Option<Head>, root: Option<Particle>) -> bool {
    match at {
        None => root is None,
        Some(h) => match find_first(graph, h.commit@) {
            Some(c) => c.codec == Codec::Blob && holds_state(c.bytes, namespace, h.index, root),
            None => false,
        },
    }
}

/// What looking up a path below a root finds in the graph alone.
pub open spec fn lookup_at(graph: Seq<ContentView>, root: Option<Particle>, path: Seq<u8>) -> Option<Option<Entry>> {
    match root {
        None => Some(None),
        Some(id) => get_walk(graph, Seq::empty(), id, None, path),
    }
}

/// A change fits the names below a root: a created or renamed-to path is
/// free, and an edited, renamed or removed path holds the expected entry.
pub open spec fn allowed(graph: Seq<ContentView>, root: Option<Particle>, c: ChangeView) -> bool {
    match c {
        ChangeView::Create { path, .. } => lookup_at(graph, root, path) == Some(None::<Entry>),
        ChangeView::Edit { path, expected, .. } => lookup_at(graph, root, path) == Some(Some(expected)),
        ChangeView::Rename { from, to, expected } => lookup_at(graph, root, from) == Some(Some(expected))
            && lookup_at(graph, root, to) == Some(None::<Entry>),
        ChangeView::Remove { path, expected } => lookup_at(graph, root, path) == Some(Some(expected)),
    }
}

/// Every lookup a change makes below a root reads the tree: none meets a
/// missing node or bits that do not increase.
pub open spec fn decided(graph: Seq<ContentView>, root: Option<Particle>, c: ChangeView) -> bool {
    match c {
        ChangeView::Create { path, .. } => lookup_at(graph, root, path) is Some,
        ChangeView::Edit { path, .. } => lookup_at(graph, root, path) is Some,
        ChangeView::Rename { from, to, .. } => lookup_at(graph, root, from) is Some && lookup_at(graph, root, to) is Some,
        ChangeView::Remove { path, .. } => lookup_at(graph, root, path) is Some,
    }
}

/// A change that rebinds one path: any but a rename.
pub open spec fn single(c: ChangeView) -> bool {
    !(c is Rename)
}

/// The index of the state after `expected`.
pub open spec fn next_index(expected: Option<Head>) -> int {
    match expected {
        Some(h) => h.index + 1,
        None => 0,
    }
}

proof fn lemma_roots_unique(graph: Seq<ContentView>, namespace: Particle, at: Option<Head>, a: Option<Particle>, b: Option<Particle>)
    requires
        roots(graph, namespace, at, a),
        roots(graph, namespace, at, b),
    ensures
        a == b,
{
    if let Some(h) = at {
        let c = find_first(graph, h.commit@)->0;
        let (p, ev) = choose|p: Option<Head>, ev: Particle| #[trigger] spec_state(namespace, h.index, p, ev, a) == c.bytes && codec::prior_fits(h.index, p);
        law_state_round_trip(namespace, h.index, p, ev, a, b);
    }
}

/// What committing a change proposes: the new head and tree root, the
/// records to store, the particles they refer to in bytewise order, and the
/// payloads they retain.
pub struct Prepared {
    pub head: Head,
    pub root: Option<Particle>,
    pub content: Vec<Content>,
    pub required: Vec<Particle>,
    pub blobs: Vec<Particle>,
}

/// The tree nodes among the records of a prepared change: all but the change
/// event and the state, which come last.
pub open spec fn tree_records(content: Seq<Content>) -> Seq<ContentView> {
    content_views(content).take(content.len() - 2)
}

/// What a prepared change refers to: the children of its new branches, its
/// new root and the commit of the head it expects.
pub open spec fn referenced(content: Seq<Content>, root: Option<Particle>, expected: Option<Head>, q: Particle) -> bool {
    ||| branch_refs(tree_records(content)).contains(q)
    ||| root == Some(q)
    ||| (expected matches Some(h) && h.commit == q)
}

/// Add `p` to a strictly increasing list, which stays strictly increasing.
fn insert_sorted(v: &mut Vec<Particle>, p: Particle)
    requires
        strictly_increasing(old(v)@),
    ensures
        strictly_increasing(final(v)@),
        forall|q: Particle| #[trigger] final(v)@.contains(q) <==> (old(v)@.contains(q) || q == p),
{
    let ghost w0 = v@;
    let mut k: usize = 0;
    while k < v.len() && particle_less(&v[k], &p)
        invariant
            k <= v@.len(),
            v@ == w0,
            k > 0 ==> byte_less(v@[k - 1]@, p@),
        decreases v@.len() - k,
    {
        k = k + 1;
    }
    if k < v.len() && particle_eq(&v[k], &p) {
        proof {
            assert forall|q: Particle| #[trigger] v@.contains(q) <==> (w0.contains(q) || q == p) by {
                if q == p {
                    assert(v@[k as int] == q);
                }
            }
        }
        return;
    }
    proof {
        if k < w0.len() {
            lemma_byte_less_total(w0[k as int]@, p@);
            assert(w0[k as int]@ != p@);
        }
    }
    v.insert(k, p);
    proof {
        let w = v@;
        assert(w == w0.insert(k as int, p));
        assert forall|i: int| 0 <= i < w.len() - 1 implies byte_less(#[trigger] w[i]@, w[i + 1]@) by {
            if i + 1 < k {
                assert(byte_less(w0[i]@, w0[i + 1]@));
            } else if i + 1 == k {
            } else if i == k {
            } else {
                assert(byte_less(w0[i - 1]@, w0[i]@));
            }
        }
        assert forall|q: Particle| #[trigger] w.contains(q) <==> (w0.contains(q) || q == p) by {
            if w.contains(q) {
                let j = choose|j: int| 0 <= j < w.len() && w[j] == q;
                if j < k {
                    assert(w0[j] == q);
                } else if j > k {
                    assert(w0[j - 1] == q);
                }
            }
            if w0.contains(q) {
                let j = choose|j: int| 0 <= j < w0.len() && w0[j] == q;
                if j < k {
                    assert(w[j] == q);
                } else {
                    assert(w[j + 1] == q);
                }
            }
            if q == p {
                assert(w[k as int] == q);
            }
        }
    }
}

/// The names of one namespace over the contents of its graph.
pub struct Catalog<'a> {
    graph: &'a ContentSet,
    namespace: Particle,
}

impl<'a> Catalog<'a> {
    /// The names of `namespace` in `graph`.
    pub fn new(graph: &'a ContentSet, namespace: Particle) -> (r: Self)
        ensures
            r.graph_view() == graph@,
            r.namespace() == namespace,
    {
        Catalog { graph, namespace }
    }

    /// The contents of the graph.
    pub closed spec fn graph_view(&self) -> Seq<ContentView> {
        self.graph@
    }

    /// The namespace.
    pub closed spec fn namespace(&self) -> Particle {
        self.namespace
    }

    /// The tree root of the state at `at`.
    pub fn root(&self, at: Option<Head>) -> (r: Result<Option<Particle>, Error>)
        ensures
            r matches Ok(root) ==> roots(self.graph_view(), self.namespace(), at, root),
            (exists|root: Option<Particle>| roots(self.graph_view(), self.namespace(), at, root)) ==> r is Ok,
            r matches Err(e) ==> e is Corrupt,
    {
        match at {
            None => Ok(None),
            Some(head) => {
                let content = match self.graph.get(&head.commit) {
                    Some(c) => c,
                    None => return Err(Error::Corrupt),
                };
                read_state(&content, self.namespace, head.index)
            },
        }
    }

    /// The entry of a path at the state `at`.
    pub fn resolve(&self, at: Option<Head>, path: &str) -> (r: Result<Option<Entry>, Error>)
        ensures
            match path_error(path.spec_bytes()) {
                Some(Error::Limit) => r matches Err(Error::Limit),
                Some(_) => r matches Err(Error::InvalidPath),
                None => {
                    &&& r matches Ok(x) ==> exists|root: Option<Particle>| roots(self.graph_view(), self.namespace(), at, root)
                        && lookup_at(self.graph_view(), root, path.spec_bytes()) == Some(x)
                    &&& forall|root: Option<Particle>| roots(self.graph_view(), self.namespace(), at, root) ==>
                        match lookup_at(self.graph_view(), root, path.spec_bytes()) {
                            Some(x) => r matches Ok(y) && y == x,
                            None => r matches Err(Error::Corrupt),
                        }
                    &&& r matches Err(e) ==> e is Corrupt
                },
            },
    {
        match valid_path(path) {
            Ok(()) => {},
            Err(e) => return Err(e),
        }
        let root = match self.root(at) {
            Ok(root) => root,
            Err(e) => return Err(e),
        };
        let tree = Tree::new(self.graph);
        let r = tree.get(root, path);
        proof {
            assert(tree.graph_view() == self.graph_view());
            if let Ok(x) = r {
                assert(roots(self.graph_view(), self.namespace(), at, root) && lookup_at(self.graph_view(), root, path.spec_bytes()) == Some(x));
            }
            assert forall|other: Option<Particle>| roots(self.graph_view(), self.namespace(), at, other) implies other == root by {
                lemma_roots_unique(self.graph_view(), self.namespace(), at, other, root);
            }
        }
        r
    }

    /// A page of the names at the state `at`, after the path `after`.
    pub fn list(&self, at: Option<Head>, after: Option<&str>, limit: usize) -> (r: Result<Page, Error>)
        ensures
            limit == 0 || limit > MAX_PAGE_ENTRIES ==> r matches Err(Error::Limit),
            1 <= limit <= MAX_PAGE_ENTRIES ==> (after matches Some(p) ==> (p.spec_bytes().len() > MAX_PATH_BYTES ==> r matches Err(Error::Limit))),
            1 <= limit <= MAX_PAGE_ENTRIES ==> (after matches Some(p) ==> (p.spec_bytes().len() <= MAX_PATH_BYTES && !path_ok(p.spec_bytes()) ==> r matches Err(Error::InvalidPath))),
            r matches Ok(p) ==> p.entries@.len() <= limit,
            1 <= limit <= MAX_PAGE_ENTRIES && (after matches Some(p) ==> path_error(p.spec_bytes()) is None) ==>
                forall|root: Option<Particle>| #[trigger] roots(self.graph_view(), self.namespace(), at, root)
                    && tree_contents(self.graph_view(), Seq::empty(), root) is Some ==>
                    match listed(self.graph_view(), Seq::empty(), root, cursor(after), limit) {
                        Some(page) => r matches Ok(p) && page_view(p) == page,
                        None => r matches Err(Error::InvalidCursor),
                    },
    {
        if limit == 0 || limit > MAX_PAGE_ENTRIES {
            return Err(Error::Limit);
        }
        if let Some(path) = after {
            valid_path(path)?;
        }
        let root = self.root(at)?;
        let tree = Tree::new(self.graph);
        let r = tree.list(root, after, limit);
        proof {
            assert forall|other: Option<Particle>| roots(self.graph_view(), self.namespace(), at, other) implies other == root by {
                lemma_roots_unique(self.graph_view(), self.namespace(), at, other, root);
            }
        }
        r
    }

    /// The transaction that publishes a prepared change for `request`: the
    /// namespace's proposal from `expected` to the prepared head, with the
    /// prepared records and references and no claims, and the payloads it
    /// retains.
    pub fn propose(&self, request: Particle, expected: Option<Head>, prepared: Prepared) -> (r: (Proposal, Vec<Particle>))
        ensures
            r.0.namespace == self.namespace(),
            r.0.request == request,
            r.0.expected == expected,
            r.0.head == prepared.head,
            r.0.content@ == prepared.content@,
            r.0.required@ == prepared.required@,
            r.0.claims@.len() == 0,
            r.1@ == prepared.blobs@,
    {
        let Prepared { head, root: _, content, required, blobs } = prepared;
        (Proposal { namespace: self.namespace, request, expected, head, content, required, claims: Vec::new() }, blobs)
    }

    /// Prepare a conditional change against the state `expected`: the change
    /// event, the new tree, the next state and head, the records to store,
    /// the particles they refer to and the payloads they retain. This writes
    /// and publishes nothing: `Ok` says that the change is allowed at
    /// `expected`. Publishing is the application commit of `propose`'s
    /// transaction: `commit_step` answers a request on record from its
    /// record, and `commit_write` refuses the change where a referenced
    /// content or a retained payload is missing or where `expected` is no
    /// longer the head.
    pub fn apply(&self, request: Particle, expected: Option<Head>, change: Change) -> (r: Result<Prepared, Error>)
        ensures
            match codec::change_error(change@) {
                Some(Error::Limit) => r matches Err(Error::Limit),
                Some(_) => r matches Err(Error::InvalidPath),
                None => {
                    &&& r matches Ok(p) ==> {
                        &&& p.blobs@ == retained(change@)
                        &&& exists|root: Option<Particle>| #[trigger] roots(self.graph_view(), self.namespace(), expected, root)
                            && allowed(self.graph_view(), root, change@)
                            && publishes(self.graph_view(), self.namespace(), p.head, expected, request, change@, root, content_views(p.content@))
                        &&& p.head.index == next_index(expected)
                        &&& commits(self.namespace(), p.head, expected, request, change@, p.root)
                        &&& strictly_increasing(p.required@)
                        &&& forall|q: Particle| #[trigger] p.required@.contains(q) <==> referenced(p.content@, p.root, expected, q)
                    }
                    &&& r matches Err(Error::Conflict) ==> exists|root: Option<Particle>| #[trigger] roots(self.graph_view(), self.namespace(), expected, root)
                        && !allowed(self.graph_view(), root, change@)
                    &&& forall|root: Option<Particle>| #[trigger] roots(self.graph_view(), self.namespace(), expected, root)
                        && decided(self.graph_view(), root, change@) && !allowed(self.graph_view(), root, change@)
                        ==> (r matches Err(Error::Conflict))
                    &&& forall|root: Option<Particle>| #[trigger] roots(self.graph_view(), self.namespace(), expected, root)
                        && single(change@) && allowed(self.graph_view(), root, change@) && (tree_contents(self.graph_view(), Seq::empty(), root) is Some)
                        && next_index(expected) <= u64::MAX ==> (r is Ok)
                    &&& forall|root: Option<Particle>| #[trigger] roots(self.graph_view(), self.namespace(), expected, root)
                        && change@ is Rename && allowed(self.graph_view(), root, change@) && (tree_contents(self.graph_view(), Seq::empty(), root) is Some)
                        && next_index(expected) <= u64::MAX && node_collision_free(self.graph_view()) ==> (r is Ok)
                },
            },
    {
        let ev = event(self.namespace, request, expected, change)?;
        let ev_id = ev.id();
        let ghost g = self.graph_view();
        let mut tree = Tree::new(self.graph);
        let root0 = self.root(expected)?;
        proof {
            assert(tree.graph_view() == g);
            assert(roots(g, self.namespace(), expected, root0));
            assert forall|other: Option<Particle>| roots(g, self.namespace(), expected, other) implies other == root0 by {
                lemma_roots_unique(g, self.namespace(), expected, other, root0);
            }
        }
        let mut root = root0;
        let mut blobs: Vec<Particle> = Vec::new();
        let ghost m0_some = tree_contents(g, Seq::empty(), root0) is Some;
        let ghost m0 = tree_contents(g, Seq::empty(), root0)->0;
        let ghost mut mid: Seq<ContentView> = Seq::empty();
        let ghost mut root_mid: Option<Particle> = None;
        match change {
            Change::Create { path, particle } => {
                let found = tree.get(root, path)?;
                if found.is_some() {
                    proof {
                        assert(!allowed(g, root0, change@));
                    }
                    return Err(Error::Conflict);
                }
                proof {
                    assert(allowed(g, root0, change@));
                }
                let entry = Entry { binding: ev_id, particle, revision: ev_id };
                root = tree.set(root, path, Some(entry))?;
                blobs.push(particle);
                proof {
                    assert(rebind(m0, path.spec_bytes(), Some(entry)) == changed(m0, change@, ev_id));
                }
            },
            Change::Edit { path, expected: want, particle } => {
                let found = tree.get(root, path)?;
                match require_entry(found, want) {
                    Ok(()) => {},
                    Err(e) => {
                        proof {
                            assert(!allowed(g, root0, change@));
                        }
                        return Err(e);
                    },
                }
                proof {
                    assert(allowed(g, root0, change@));
                }
                let entry = Entry { binding: want.binding, particle, revision: ev_id };
                root = tree.set(root, path, Some(entry))?;
                blobs.push(particle);
                proof {
                    assert(rebind(m0, path.spec_bytes(), Some(entry)) == changed(m0, change@, ev_id));
                }
            },
            Change::Rename { from, to, expected: want } => {
                let found = tree.get(root, from)?;
                match require_entry(found, want) {
                    Ok(()) => {},
                    Err(e) => {
                        proof {
                            assert(!allowed(g, root0, change@));
                        }
                        return Err(e);
                    },
                }
                let taken = tree.get(root, to)?;
                if taken.is_some() {
                    proof {
                        assert(!allowed(g, root0, change@));
                    }
                    return Err(Error::Conflict);
                }
                proof {
                    assert(allowed(g, root0, change@));
                }
                root = tree.set(root, from, None)?;
                proof {
                    mid = tree.fresh();
                    root_mid = root;
                    if node_collision_free(g) {
                        tree.lemma_tracks_nodes();
                        lemma_nodes_coherent(g, mid);
                    }
                }
                root = tree.set(root, to, Some(want))?;
                proof {
                    if coherent(g, tree.fresh()) && m0_some {
                        lemma_coherent_prefix(g, mid, tree.fresh());
                        assert(tree_contents(g, mid, root_mid) == Some(rebind(m0, from.spec_bytes(), None)));
                        assert(rebind(rebind(m0, from.spec_bytes(), None), to.spec_bytes(), Some(want)) == changed(m0, change@, ev_id));
                    }
                }
            },
            Change::Remove { path, expected: want } => {
                let found = tree.get(root, path)?;
                match require_entry(found, want) {
                    Ok(()) => {},
                    Err(e) => {
                        proof {
                            assert(!allowed(g, root0, change@));
                        }
                        return Err(e);
                    },
                }
                proof {
                    assert(allowed(g, root0, change@));
                }
                root = tree.set(root, path, None)?;
                proof {
                    assert(rebind(m0, path.spec_bytes(), None) == changed(m0, change@, ev_id));
                }
            },
        }
        proof {
            if m0_some && coherent(g, tree.fresh()) {
                assert(tree_contents(g, tree.fresh(), root) == Some(changed(m0, change@, ev_id)));
            }
        }
        let index: u64 = match expected {
            Some(head) => match head.index.checked_add(1) {
                Some(i) => i,
                None => return Err(Error::Limit),
            },
            None => 0,
        };
        let st = state(self.namespace, index, expected, ev_id, root)?;
        let head = Head { index, commit: st.id() };
        proof {
            assert(allowed(g, root0, change@));
            assert(roots(self.graph_view(), self.namespace(), expected, root0) && allowed(self.graph_view(), root0, change@));
            assert(ev_id@ == hemera_hash(spec_event(self.namespace(), request, expected, change@)));
            assert(state_commit(self.namespace(), index, expected, ev_id, root) == head.commit@);
        }
        let ghost fresh0 = tree.fresh();
        let ghost tracking = tree.tracks();
        let (mut content, parts) = tree.into_parts();
        content.push(ev);
        content.push(st);
        let mut required: Vec<Particle> = Vec::new();
        let mut i: usize = 0;
        while i < parts.len()
            invariant
                i <= parts@.len(),
                strictly_increasing(required@),
                forall|q: Particle| #[trigger] required@.contains(q) <==> exists|j: int| 0 <= j < i && parts@[j] == q,
            decreases parts@.len() - i,
        {
            insert_sorted(&mut required, parts[i]);
            proof {
                assert forall|q: Particle| #[trigger] required@.contains(q) <==> exists|j: int| 0 <= j < i + 1 && parts@[j] == q by {
                    if q == parts@[i as int] {
                        assert(parts@[i as int] == q);
                    }
                }
            }
            i = i + 1;
        }
        proof {
            assert forall|q: Particle| #[trigger] required@.contains(q) <==> parts@.contains(q) by {
                if parts@.contains(q) {
                    let j = choose|j: int| 0 <= j < parts@.len() && parts@[j] == q;
                    assert(exists|j: int| 0 <= j < i && parts@[j] == q);
                }
            }
        }
        if let Some(id) = root {
            insert_sorted(&mut required, id);
        }
        if let Some(h) = expected {
            insert_sorted(&mut required, h.commit);
        }
        let prepared = Prepared { head, root, content, required, blobs };
        proof {
            assert(tree_records(prepared.content@) =~= fresh0);
            assert(tracking);
            assert forall|q: Particle| #[trigger] prepared.required@.contains(q) <==> referenced(prepared.content@, root, expected, q) by {
                assert(parts@.contains(q) <==> branch_refs(fresh0).contains(q));
            }
        }
        proof {
            let fresh = tree.fresh();
            let all = content_views(prepared.content@);
            assert(all =~= fresh.push(ev@).push(st@));
            assert(fresh.is_prefix_of(all));
            if m0_some && coherent(g, all) {
                lemma_coherent_prefix(g, fresh, all);
                if let Some(id) = root {
                    lemma_contents_stable(g, fresh, all, id, None);
                }
            }
            assert(publishes(g, self.namespace(), head, expected, request, change@, root0, all)) by {
                assert(state_commit(self.namespace(), head.index, expected, ev_id, root) == head.commit@);
            }
            assert(codec::change_error(change@) is None);
            assert(exists|root: Option<Particle>| #[trigger] roots(self.graph_view(), self.namespace(), expected, root)
                && allowed(self.graph_view(), root, change@));
            assert(prepared.head.index == next_index(expected));
            assert(commits(self.namespace(), prepared.head, expected, request, change@, root));
        }
        Ok(prepared)
    }
}

/// The payloads a change retains: the one it creates or edits, none for a
/// rename or a removal.
pub open spec fn retained(c: ChangeView) -> Seq<Particle> {
    match c {
        ChangeView::Create { particle, .. } => seq![particle],
        ChangeView::Edit { particle, .. } => seq![particle],
        _ => Seq::empty(),
    }
}

/// The names after a change: the entry it creates, edits or moves is bound,
/// the path it removes or moves from is free, and nothing else changes.
pub open spec fn changed(m: Map<Seq<u8>, Entry>, c: ChangeView, event: Particle) -> Map<Seq<u8>, Entry> {
    match c {
        ChangeView::Create { path, particle } => m.insert(path, Entry { binding: event, particle, revision: event }),
        ChangeView::Edit { path, expected, particle } => m.insert(path, Entry { binding: expected.binding, particle, revision: event }),
        ChangeView::Rename { from, to, expected } => m.remove(from).insert(to, expected),
        ChangeView::Remove { path, .. } => m.remove(path),
    }
}

/// What path `q` reads after change `c` with event `event`, where it read
/// `before`: a created or edited path its new entry, a renamed-to path the
/// moved entry, a renamed or removed path nothing, any other path `before`.
pub open spec fn read_after(c: ChangeView, event: Particle, q: Seq<u8>, before: Option<Entry>) -> Option<Entry> {
    match c {
        ChangeView::Create { path, particle } => if q == path { Some(Entry { binding: event, particle, revision: event }) } else { before },
        ChangeView::Edit { path, expected, particle } => if q == path {
            Some(Entry { binding: expected.binding, particle, revision: event })
        } else {
            before
        },
        ChangeView::Rename { from, to, expected } => if q == to { Some(expected) } else if q == from { None } else { before },
        ChangeView::Remove { path, .. } => if q == path { None } else { before },
    }
}

/// A published change reads back: where the names of the new root are the
/// names at `root` with the change applied (as `publishes` states), every
/// path reads from the new root what `read_after` says of what it read at
/// `root`.
pub proof fn law_change_reads(g: Seq<ContentView>, content: Seq<ContentView>, root: Option<Particle>, new_root: Option<Particle>,
    c: ChangeView, ev: Particle, q: Seq<u8>)
    requires
        tree_contents(g, Seq::empty(), root) is Some,
        tree_contents(g, content, new_root) == Some(changed(tree_contents(g, Seq::empty(), root)->0, c, ev)),
    ensures
        read_at(g, content, new_root, q) == Some(read_after(c, ev, q, lookup_at(g, root, q)->0)),
{
    let m = tree_contents(g, Seq::empty(), root)->0;
    let n = changed(m, c, ev);
    match root {
        Some(id) => lemma_get_contents(g, Seq::empty(), id, None, q),
        None => assert(!m.contains_key(q)),
    }
    match new_root {
        Some(id) => lemma_get_contents(g, content, id, None, q),
        None => assert(!n.contains_key(q)),
    }
}

/// A head commits the state that records the change event of `request` and
/// a new root whose names, read over the graph and `content`, are the names
/// at `root` with the change applied, wherever the tree at `root` is well
/// formed and no two stored contents share a digest.
pub open spec fn publishes(graph: Seq<ContentView>, namespace: Particle, head: Head, expected: Option<Head>, request: Particle, c: ChangeView,
    root: Option<Particle>, content: Seq<ContentView>) -> bool {
    exists|ev: Particle, new_root: Option<Particle>| #[trigger] state_commit(namespace, head.index, expected, ev, new_root) == head.commit@
        && ev@ == hemera_hash(spec_event(namespace, request, expected, c))
        && (tree_contents(graph, Seq::empty(), root) is Some && coherent(graph, content) ==>
            tree_contents(graph, content, new_root) == Some(changed(tree_contents(graph, Seq::empty(), root)->0, c, ev)))
}

/// A head commits the state after `expected` that records the change event
/// of `request` and the tree root `root`.
pub open spec fn commits(namespace: Particle, head: Head, expected: Option<Head>, request: Particle, c: ChangeView, root: Option<Particle>) -> bool {
    exists|ev: Particle| #[trigger] state_commit(namespace, head.index, expected, ev, root) == head.commit@
        && ev@ == hemera_hash(spec_event(namespace, request, expected, c))
}

/// The commit particle of a namespace state.
pub open spec fn state_commit(namespace: Particle, index: u64, previous: Option<Head>, event: Particle, root: Option<Particle>) -> Seq<u8> {
    hemera_hash(spec_state(namespace, index, previous, event, root))
}

} // verus!
