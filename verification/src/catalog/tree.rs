//! The crit-bit name tree: each path is split into nine-bit groups per byte
//! (a presence bit, then the byte's bits from the highest), branches test
//! strictly increasing bits, and leaves hold entries.
use vstd::prelude::*;
use vstd::string::StringSliceAdditionalSpecFns;
use crate::application::{content_views, find_first, find_last, ContentSet};
use crate::content::{particle_eq, Codec, Content, ContentView};
use crate::hash::hemera_hash;
use crate::keyed::Keyed;
use crate::Particle;
use crate::wire::{byte_less, lemma_byte_less_asymmetric, lemma_byte_less_at};
use super::codec::{blob, is_node, law_node_round_trip, lemma_branch_bytes, node, node_ok, read_node, spec_node, Node, NodeView, MAX_BIT};
use super::{path_ok, Entry, Error, Page, MAX_PATH_BYTES};

verus! {

/// Bit `bit` of a path: past its end every bit is clear; the first bit of
/// each nine-bit group says the byte is present; the other eight are the
/// byte's bits from the highest.
pub open spec fn spec_path_bit(p: Seq<u8>, bit: u32) -> bool {
    let i = bit as int / 9;
    if i >= p.len() {
        false
    } else if bit % 9 == 0 {
        true
    } else {
        p[i] & (1u8 << ((8 - bit % 9) as u32)) != 0
    }
}

fn bit_of(b: &[u8], bit: u32) -> (r: bool)
    ensures
        r == spec_path_bit(b@, bit),
{
    let i = (bit / 9) as usize;
    if i >= b.len() {
        false
    } else if bit % 9 == 0 {
        true
    } else {
        let shift: u32 = 8 - bit % 9;
        b[i] & (1u8 << shift) != 0
    }
}

/// Bit `bit` of a path.
pub fn path_bit(path: &str, bit: u32) -> (r: bool)
    ensures
        r == spec_path_bit(path.spec_bytes(), bit),
{
    bit_of(path.as_bytes(), bit)
}

proof fn lemma_byte_bits(a: u8, b: u8)
    requires
        (a & (1u8 << 7u32) != 0) == (b & (1u8 << 7u32) != 0),
        (a & (1u8 << 6u32) != 0) == (b & (1u8 << 6u32) != 0),
        (a & (1u8 << 5u32) != 0) == (b & (1u8 << 5u32) != 0),
        (a & (1u8 << 4u32) != 0) == (b & (1u8 << 4u32) != 0),
        (a & (1u8 << 3u32) != 0) == (b & (1u8 << 3u32) != 0),
        (a & (1u8 << 2u32) != 0) == (b & (1u8 << 2u32) != 0),
        (a & (1u8 << 1u32) != 0) == (b & (1u8 << 1u32) != 0),
        (a & (1u8 << 0u32) != 0) == (b & (1u8 << 0u32) != 0),
    ensures
        a == b,
{
    assert(
        (a & (1u8 << 7u32) != 0) == (b & (1u8 << 7u32) != 0)
        && (a & (1u8 << 6u32) != 0) == (b & (1u8 << 6u32) != 0)
        && (a & (1u8 << 5u32) != 0) == (b & (1u8 << 5u32) != 0)
        && (a & (1u8 << 4u32) != 0) == (b & (1u8 << 4u32) != 0)
        && (a & (1u8 << 3u32) != 0) == (b & (1u8 << 3u32) != 0)
        && (a & (1u8 << 2u32) != 0) == (b & (1u8 << 2u32) != 0)
        && (a & (1u8 << 1u32) != 0) == (b & (1u8 << 1u32) != 0)
        && (a & (1u8 << 0u32) != 0) == (b & (1u8 << 0u32) != 0)
        ==> a == b
    ) by (bit_vector);
}

/// Of two bytes that agree above bit `s`, the one with bit `s` clear is
/// smaller.
proof fn lemma_byte_order(x: u8, y: u8, s: u32)
    requires
        s < 8,
        forall|t: u32| s < t < 8 ==> (#[trigger] (x & (1u8 << t)) != 0) == (y & (1u8 << t) != 0),
        x & (1u8 << s) == 0,
        y & (1u8 << s) != 0,
    ensures
        x < y,
{
    assert((x & (1u8 << 7u32) != 0) == (y & (1u8 << 7u32) != 0) || s == 7);
    assert((x & (1u8 << 6u32) != 0) == (y & (1u8 << 6u32) != 0) || s >= 6);
    assert((x & (1u8 << 5u32) != 0) == (y & (1u8 << 5u32) != 0) || s >= 5);
    assert((x & (1u8 << 4u32) != 0) == (y & (1u8 << 4u32) != 0) || s >= 4);
    assert((x & (1u8 << 3u32) != 0) == (y & (1u8 << 3u32) != 0) || s >= 3);
    assert((x & (1u8 << 2u32) != 0) == (y & (1u8 << 2u32) != 0) || s >= 2);
    assert((x & (1u8 << 1u32) != 0) == (y & (1u8 << 1u32) != 0) || s >= 1);
    assert(
        s < 8
        && ((x & (1u8 << 7u32) != 0) == (y & (1u8 << 7u32) != 0) || s == 7)
        && ((x & (1u8 << 6u32) != 0) == (y & (1u8 << 6u32) != 0) || s >= 6)
        && ((x & (1u8 << 5u32) != 0) == (y & (1u8 << 5u32) != 0) || s >= 5)
        && ((x & (1u8 << 4u32) != 0) == (y & (1u8 << 4u32) != 0) || s >= 4)
        && ((x & (1u8 << 3u32) != 0) == (y & (1u8 << 3u32) != 0) || s >= 3)
        && ((x & (1u8 << 2u32) != 0) == (y & (1u8 << 2u32) != 0) || s >= 2)
        && ((x & (1u8 << 1u32) != 0) == (y & (1u8 << 1u32) != 0) || s >= 1)
        && x & (1u8 << s) == 0
        && y & (1u8 << s) != 0
        ==> x < y
    ) by (bit_vector);
}

/// Below the byte of a bit where two paths agree on every earlier bit and
/// the second has that bit set, both paths hold the same bytes.
proof fn lemma_byte_below(a: Seq<u8>, b: Seq<u8>, c: u32, j: int)
    requires
        forall|d: u32| d < c ==> #[trigger] spec_path_bit(a, d) == spec_path_bit(b, d),
        spec_path_bit(b, c),
        0 <= j < c as int / 9,
    ensures
        j < a.len(),
        j < b.len(),
        a[j] == b[j],
{
    let base: u32 = (9 * j) as u32;
    assert(spec_path_bit(b, base));
    assert(spec_path_bit(a, base) == spec_path_bit(b, base));
    assert(spec_path_bit(a, (base + 1) as u32) == spec_path_bit(b, (base + 1) as u32));
    assert(spec_path_bit(a, (base + 2) as u32) == spec_path_bit(b, (base + 2) as u32));
    assert(spec_path_bit(a, (base + 3) as u32) == spec_path_bit(b, (base + 3) as u32));
    assert(spec_path_bit(a, (base + 4) as u32) == spec_path_bit(b, (base + 4) as u32));
    assert(spec_path_bit(a, (base + 5) as u32) == spec_path_bit(b, (base + 5) as u32));
    assert(spec_path_bit(a, (base + 6) as u32) == spec_path_bit(b, (base + 6) as u32));
    assert(spec_path_bit(a, (base + 7) as u32) == spec_path_bit(b, (base + 7) as u32));
    assert(spec_path_bit(a, (base + 8) as u32) == spec_path_bit(b, (base + 8) as u32));
    lemma_byte_bits(a[j], b[j]);
}

/// Paths that agree below a bit where the first has it clear and the
/// second set are in bytewise order.
pub proof fn lemma_bits_order(a: Seq<u8>, b: Seq<u8>, c: u32)
    requires
        forall|d: u32| d < c ==> #[trigger] spec_path_bit(a, d) == spec_path_bit(b, d),
        !spec_path_bit(a, c),
        spec_path_bit(b, c),
    ensures
        byte_less(a, b),
{
    let i: int = c as int / 9;
    let t: int = c as int % 9;
    assert(i < b.len());
    assert forall|j: int| 0 <= j < i implies j < a.len() && #[trigger] a[j] == b[j] by {
        lemma_byte_below(a, b, c, j);
    }
    if i > 0 {
        lemma_byte_below(a, b, c, i - 1);
    }
    if t == 0 {
        assert(a.len() == i);
        lemma_byte_less_at(a, b, i);
    } else {
        let base: u32 = (9 * i) as u32;
        assert(spec_path_bit(a, base) == spec_path_bit(b, base));
        assert(i < a.len());
        let s: u32 = (8 - t) as u32;
        assert forall|u: u32| s < u < 8 implies (#[trigger] (a[i] & (1u8 << u)) != 0) == (b[i] & (1u8 << u) != 0) by {
            let d: u32 = (base + 8 - u) as u32;
            assert(d < c);
            assert(spec_path_bit(a, d) == spec_path_bit(b, d));
        }
        lemma_byte_order(a[i], b[i], s);
        lemma_byte_less_at(a, b, i);
    }
}

/// The first bit where two paths differ; equal paths have none.
pub fn difference(left: &str, right: &str) -> (r: Result<u32, Error>)
    requires
        left.spec_bytes().len() <= MAX_PATH_BYTES,
        right.spec_bytes().len() <= MAX_PATH_BYTES,
    ensures
        match r {
            Ok(b) => spec_path_bit(left.spec_bytes(), b) != spec_path_bit(right.spec_bytes(), b)
                && forall|c: u32| c < b ==> #[trigger] spec_path_bit(left.spec_bytes(), c) == spec_path_bit(right.spec_bytes(), c),
            Err(e) => e is Corrupt && left.spec_bytes() == right.spec_bytes(),
        },
{
    let l = left.as_bytes();
    let r = right.as_bytes();
    let mut same: usize = 0;
    while same < l.len() && same < r.len() && l[same] == r[same]
        invariant
            same <= l@.len(),
            same <= r@.len(),
            forall|j: int| 0 <= j < same ==> l@[j] == r@[j],
        decreases l@.len() - same,
    {
        same = same + 1;
    }
    let first: u32 = (same * 9) as u32;
    proof {
        assert forall|c: u32| c < first implies #[trigger] spec_path_bit(l@, c) == spec_path_bit(r@, c) by {
            assert((c as int / 9) < same);
        }
    }
    let mut bit: u32 = first;
    while bit < first + 9
        invariant
            first == same * 9,
            l@ == left.spec_bytes(),
            r@ == right.spec_bytes(),
            same <= l@.len() && same <= r@.len(),
            same <= MAX_PATH_BYTES,
            first <= bit <= first + 9,
            forall|j: int| 0 <= j < same ==> l@[j] == r@[j],
            forall|c: u32| c < bit ==> #[trigger] spec_path_bit(l@, c) == spec_path_bit(r@, c),
        decreases first + 9 - bit,
    {
        if bit_of(l, bit) != bit_of(r, bit) {
            return Ok(bit);
        }
        bit = bit + 1;
    }
    proof {
        assert(spec_path_bit(l@, first) == spec_path_bit(r@, first));
        if same < l@.len() && same < r@.len() {
            assert(spec_path_bit(l@, (first + 1) as u32) == spec_path_bit(r@, (first + 1) as u32));
            assert(spec_path_bit(l@, (first + 2) as u32) == spec_path_bit(r@, (first + 2) as u32));
            assert(spec_path_bit(l@, (first + 3) as u32) == spec_path_bit(r@, (first + 3) as u32));
            assert(spec_path_bit(l@, (first + 4) as u32) == spec_path_bit(r@, (first + 4) as u32));
            assert(spec_path_bit(l@, (first + 5) as u32) == spec_path_bit(r@, (first + 5) as u32));
            assert(spec_path_bit(l@, (first + 6) as u32) == spec_path_bit(r@, (first + 6) as u32));
            assert(spec_path_bit(l@, (first + 7) as u32) == spec_path_bit(r@, (first + 7) as u32));
            assert(spec_path_bit(l@, (first + 8) as u32) == spec_path_bit(r@, (first + 8) as u32));
            lemma_byte_bits(l@[same as int], r@[same as int]);
        }
        assert(l@.len() == same && r@.len() == same);
        assert(l@ =~= r@);
    }
    Err(Error::Corrupt)
}

/// Branch bits must strictly increase along a walk.
pub fn increasing(previous: Option<u32>, bit: u32) -> (r: Result<(), Error>)
    ensures
        r is Err <==> (previous matches Some(p) && p >= bit),
        r matches Err(e) ==> e is Corrupt,
{
    match previous {
        Some(p) => {
            if p >= bit {
                return Err(Error::Corrupt);
            }
            Ok(())
        },
        None => Ok(()),
    }
}

/// The node a record decodes to.
pub open spec fn decoded_node(b: Seq<u8>) -> NodeView {
    choose|n: NodeView| spec_node(n) == b && node_ok(n)
}

/// The content a tree reads under `id`: what it stored last, else what the
/// graph holds.
pub open spec fn lookup(graph: Seq<ContentView>, fresh: Seq<ContentView>, id: Particle) -> Option<ContentView> {
    match find_last(fresh, id@) {
        Some(c) => Some(c),
        None => find_first(graph, id@),
    }
}

/// The node a tree reads under `id`, where that content is a node blob.
pub open spec fn spec_load(graph: Seq<ContentView>, fresh: Seq<ContentView>, id: Particle) -> Option<NodeView> {
    match lookup(graph, fresh, id) {
        Some(c) => if c.codec == Codec::Blob && is_node(c.bytes) { Some(decoded_node(c.bytes)) } else { None },
        None => None,
    }
}

/// How many more branches a walk below bit `prev` may pass.
pub open spec fn depth(prev: Option<u32>) -> nat {
    match prev {
        None => (MAX_BIT + 2) as nat,
        Some(p) => if p <= MAX_BIT { (MAX_BIT + 1 - p) as nat } else { 0 },
    }
}

/// What a lookup of `path` below `id` finds: the entry of the leaf the
/// path's bits lead to when that leaf holds the path, nothing when it holds
/// another; `None` where a node is missing or bits do not increase.
pub open spec fn get_walk(graph: Seq<ContentView>, fresh: Seq<ContentView>, id: Particle, prev: Option<u32>, path: Seq<u8>) -> Option<Option<Entry>>
    decreases depth(prev),
{
    match spec_load(graph, fresh, id) {
        None => None,
        Some(NodeView::Leaf(k, e)) => Some(if k == path { Some(e) } else { None }),
        Some(NodeView::Branch { bit, left, right }) => {
            if (prev matches Some(p) && p >= bit) || bit > MAX_BIT {
                None
            } else {
                get_walk(graph, fresh, if spec_path_bit(path, bit) { right } else { left }, Some(bit), path)
            }
        },
    }
}

/// Record `c` is a stored branch node with child `p`.
pub open spec fn refers(c: ContentView, p: Particle) -> bool {
    exists|n: NodeView| #[trigger] spec_node(n) == c.bytes && c == blob(c.bytes)
        && (n matches NodeView::Branch { left, right, .. } && (left == p || right == p))
}

/// The children of the branch nodes among some records.
pub open spec fn branch_refs(f: Seq<ContentView>) -> Set<Particle> {
    Set::new(|p: Particle| exists|i: int| 0 <= i < f.len() && #[trigger] refers(f[i], p))
}

/// Record `c` is the blob of an encoded node.
pub open spec fn is_node_blob(c: ContentView) -> bool {
    exists|n: NodeView| c == blob(#[trigger] spec_node(n))
}

/// Every record is the blob of an encoded node.
pub open spec fn node_records(f: Seq<ContentView>) -> bool {
    forall|i: int| 0 <= i < f.len() ==> #[trigger] is_node_blob(f[i])
}

/// Hemera does not collide on node encodings, and the graph holds the blob
/// of a node under that node's digest, if anything.
pub open spec fn node_collision_free(g: Seq<ContentView>) -> bool {
    &&& forall|n: NodeView, m: NodeView| #![trigger spec_node(n), spec_node(m)]
        hemera_hash(spec_node(n)) == hemera_hash(spec_node(m)) ==> spec_node(n) == spec_node(m)
    &&& forall|i: int, n: NodeView| #![trigger g[i], spec_node(n)]
        0 <= i < g.len() && g[i].id == hemera_hash(spec_node(n)) ==> g[i] == blob(spec_node(n))
}

proof fn lemma_find_first_member(g: Seq<ContentView>, id: Seq<u8>)
    ensures
        find_first(g, id) matches Some(x) ==> exists|k: int| 0 <= k < g.len() && g[k] == x && x.id == id,
    decreases g.len(),
{
    if g.len() > 0 && g[0].id != id {
        let t = g.drop_first();
        lemma_find_first_member(t, id);
        if let Some(x) = find_first(t, id) {
            let k = choose|k: int| 0 <= k < t.len() && t[k] == x && x.id == id;
            assert(g[k + 1] == t[k]);
        }
    }
}

/// Node records over a graph on which Hemera does not collide are
/// coherent with it.
pub proof fn lemma_nodes_coherent(g: Seq<ContentView>, f: Seq<ContentView>)
    requires
        node_records(f),
        node_collision_free(g),
    ensures
        coherent(g, f),
{
    assert forall|i: int, j: int| #![trigger f[i], f[j]] 0 <= i < f.len() && 0 <= j < f.len() && f[i].id == f[j].id implies f[i] == f[j] by {
        assert(is_node_blob(f[i]) && is_node_blob(f[j]));
        let n = choose|n: NodeView| f[i] == blob(#[trigger] spec_node(n));
        let m = choose|m: NodeView| f[j] == blob(#[trigger] spec_node(m));
        assert(hemera_hash(spec_node(n)) == hemera_hash(spec_node(m)));
    }
    assert forall|i: int| 0 <= i < f.len() implies (find_first(g, #[trigger] f[i].id) matches Some(y) ==> y == f[i]) by {
        assert(is_node_blob(f[i]));
        let n = choose|n: NodeView| f[i] == blob(#[trigger] spec_node(n));
        lemma_find_first_member(g, f[i].id);
        if let Some(y) = find_first(g, f[i].id) {
            let k = choose|k: int| 0 <= k < g.len() && g[k] == y && y.id == f[i].id;
            assert(g[k].id == hemera_hash(spec_node(n)));
        }
    }
}

/// The tree of nodes a request reads and writes: the graph it reads, the
/// nodes it stores, and the particles its new nodes refer to.
pub struct Tree<'a> {
    graph: &'a ContentSet,
    content: Vec<Content>,
    required: Keyed<()>,
}

impl<'a> Tree<'a> {
    /// The contents of the graph.
    pub closed spec fn graph_view(&self) -> Seq<ContentView> {
        self.graph@
    }

    /// The nodes stored so far, in order.
    pub closed spec fn fresh(&self) -> Seq<ContentView> {
        content_views(self.content@)
    }

    /// The particles the stored nodes refer to.
    pub closed spec fn requires_view(&self) -> Map<Particle, ()> {
        self.required@
    }

    /// The particles the stored nodes refer to are the children of the
    /// stored branches.
    pub closed spec fn tracks(&self) -> bool {
        &&& self.required@.dom() == branch_refs(self.fresh())
        &&& node_records(self.fresh())
    }

    /// A tree that tracks its references has stored node records only.
    pub proof fn lemma_tracks_nodes(&self)
        requires
            self.tracks(),
        ensures
            node_records(self.fresh()),
    {
    }

    /// A tree over `graph` that has stored nothing.
    pub fn new(graph: &'a ContentSet) -> (r: Self)
        ensures
            r.graph_view() == graph@,
            r.fresh() == Seq::<ContentView>::empty(),
            r.requires_view() == Map::<Particle, ()>::empty(),
            r.tracks(),
    {
        let r = Tree { graph, content: Vec::new(), required: Keyed::new() };
        proof {
            assert(r.fresh() =~= Seq::<ContentView>::empty());
            assert(r.required@.dom() =~= branch_refs(r.fresh()));
        }
        r
    }

    fn find_fresh(&self, id: &Particle) -> (r: Option<Content>)
        ensures
            match find_last(self.fresh(), id@) {
                Some(v) => r matches Some(c) && c@ == v,
                None => r is None,
            },
    {
        let mut i: usize = self.content.len();
        proof {
            assert(self.fresh().take(i as int) =~= self.fresh());
        }
        while i > 0
            invariant
                i <= self.content@.len(),
                find_last(self.fresh(), id@) == find_last(self.fresh().take(i as int), id@),
            decreases i,
        {
            proof {
                assert(self.fresh().take(i as int).drop_last() =~= self.fresh().take(i - 1));
                assert(self.fresh().take(i as int).last() == self.content@[i - 1]@);
            }
            let c = &self.content[i - 1];
            let cid = c.id();
            if particle_eq(&cid, id) {
                return Some(c.clone());
            }
            i = i - 1;
        }
        None
    }

    /// The node under `id`.
    pub fn load(&self, id: &Particle) -> (r: Result<Node, Error>)
        ensures
            match spec_load(self.graph_view(), self.fresh(), *id) {
                Some(n) => r matches Ok(m) && m@ == n,
                None => r matches Err(Error::Corrupt),
            },
    {
        let found = match self.find_fresh(id) {
            Some(c) => Some(c),
            None => self.graph.get(id),
        };
        match found {
            None => Err(Error::Corrupt),
            Some(c) => {
                let n = read_node(&c)?;
                proof {
                    law_node_round_trip(n@, decoded_node(c@.bytes));
                }
                Ok(n)
            },
        }
    }

    /// Store a node and return its particle; a branch requires its children.
    pub fn store(&mut self, node_value: Node) -> (r: Result<Particle, Error>)
        requires
            node_value@ matches NodeView::Leaf(p, _) ==> p.len() <= MAX_PATH_BYTES,
        ensures
            r matches Ok(id) && id@ == hemera_hash(spec_node(node_value@)),
            final(self).fresh() == old(self).fresh().push(blob(spec_node(node_value@))),
            final(self).graph_view() == old(self).graph_view(),
            match node_value@ {
                NodeView::Branch { left, right, .. } => final(self).requires_view() == old(self).requires_view().insert(left, ()).insert(right, ()),
                _ => final(self).requires_view() == old(self).requires_view(),
            },
            old(self).tracks() ==> final(self).tracks(),
    {
        if let Node::Branch { left, right, .. } = &node_value {
            self.required.set(*left, ());
            self.required.set(*right, ());
        }
        let content = node(&node_value)?;
        let id = content.id();
        self.content.push(content);
        proof {
            let n = node_value@;
            let c = blob(spec_node(n));
            let f0 = old(self).fresh();
            assert(self.fresh() =~= f0.push(c));
            if old(self).tracks() {
                assert forall|p: Particle| #[trigger] branch_refs(self.fresh()).contains(p) <==> self.required@.dom().contains(p) by {
                    let in_old = exists|i: int| 0 <= i < f0.len() && #[trigger] refers(f0[i], p);
                    assert(branch_refs(f0).contains(p) == in_old);
                    if refers(c, p) {
                        let m = choose|m: NodeView| #[trigger] spec_node(m) == c.bytes && c == blob(c.bytes)
                            && (m matches NodeView::Branch { left, right, .. } && (left == p || right == p));
                        lemma_branch_bytes(m, n);
                    }
                    if let NodeView::Branch { left, right, .. } = n {
                        if p == left || p == right {
                            assert(refers(c, p));
                        }
                    }
                    if branch_refs(self.fresh()).contains(p) {
                        let i = choose|i: int| 0 <= i < self.fresh().len() && #[trigger] refers(self.fresh()[i], p);
                        if i < f0.len() {
                            assert(self.fresh()[i] == f0[i]);
                        }
                    }
                    if in_old {
                        let i = choose|i: int| 0 <= i < f0.len() && #[trigger] refers(f0[i], p);
                        assert(self.fresh()[i] == f0[i]);
                        assert(refers(self.fresh()[i], p));
                    }
                    if refers(c, p) {
                        assert(self.fresh()[f0.len() as int] == c);
                    }
                }
                assert(self.required@.dom() =~= branch_refs(self.fresh()));
                assert forall|i: int| 0 <= i < self.fresh().len() implies #[trigger] is_node_blob(self.fresh()[i]) by {
                    if i < f0.len() {
                        assert(self.fresh()[i] == f0[i]);
                        assert(is_node_blob(f0[i]));
                    } else {
                        assert(self.fresh()[i] == blob(spec_node(n)));
                    }
                }
            }
        }
        Ok(id)
    }

    /// Look up a path.
    pub fn get(&self, root: Option<Particle>, path: &str) -> (r: Result<Option<Entry>, Error>)
        ensures
            match root {
                None => r matches Ok(None),
                Some(id) => match get_walk(self.graph_view(), self.fresh(), id, None, path.spec_bytes()) {
                    Some(x) => r matches Ok(y) && y == x,
                    None => r matches Err(Error::Corrupt),
                },
            },
    {
        let mut id = match root {
            Some(id) => id,
            None => return Ok(None),
        };
        let ghost target = get_walk(self.graph_view(), self.fresh(), id, None, path.spec_bytes());
        let ghost r0 = id;
        let mut previous: Option<u32> = None;
        loop
            invariant
                root == Some(r0),
                target == get_walk(self.graph_view(), self.fresh(), r0, None, path.spec_bytes()),
                get_walk(self.graph_view(), self.fresh(), id, previous, path.spec_bytes()) == target,
                previous matches Some(p) ==> p <= MAX_BIT,
            decreases depth(previous),
        {
            let n = self.load(&id)?;
            match n {
                Node::Leaf(key, entry) => {
                    let k = key.as_str();
                    proof {
                        assert(encode_key(key@) == k.spec_bytes());
                    }
                    if crate::wire::bytes_eq(k.as_bytes(), path.as_bytes()) {
                        return Ok(Some(entry));
                    }
                    return Ok(None);
                },
                Node::Branch { bit, left, right } => {
                    increasing(previous, bit)?;
                    if bit > MAX_BIT {
                        return Err(Error::Corrupt);
                    }
                    previous = Some(bit);
                    id = if path_bit(path, bit) { right } else { left };
                },
            }
        }
    }
}

/// Two sides of a branch at `bit` split properly: paths on the left have the
/// bit clear, paths on the right have it set, and all of them agree on every
/// earlier bit.
pub open spec fn splits(a: Map<Seq<u8>, Entry>, b: Map<Seq<u8>, Entry>, bit: u32) -> bool {
    &&& forall|k: Seq<u8>| #[trigger] a.contains_key(k) ==> !spec_path_bit(k, bit)
    &&& forall|k: Seq<u8>| #[trigger] b.contains_key(k) ==> spec_path_bit(k, bit)
    &&& forall|k1: Seq<u8>, k2: Seq<u8>, c: u32| #![trigger a.union_prefer_right(b).contains_key(k1), a.union_prefer_right(b).contains_key(k2), spec_path_bit(k1, c)]
        a.union_prefer_right(b).contains_key(k1) && a.union_prefer_right(b).contains_key(k2) && c < bit
            ==> spec_path_bit(k1, c) == spec_path_bit(k2, c)
}

/// The entries of the tree below `id`, by path: where every node loads,
/// branch bits increase, and every branch splits properly. `None` otherwise.
pub open spec fn contents(g: Seq<ContentView>, f: Seq<ContentView>, id: Particle, prev: Option<u32>) -> Option<Map<Seq<u8>, Entry>>
    decreases depth(prev),
{
    match spec_load(g, f, id) {
        None => None,
        Some(NodeView::Leaf(k, e)) => Some(Map::empty().insert(k, e)),
        Some(NodeView::Branch { bit, left, right }) => {
            if (prev matches Some(p) && p >= bit) || bit > MAX_BIT {
                None
            } else {
                match (contents(g, f, left, Some(bit)), contents(g, f, right, Some(bit))) {
                    (Some(a), Some(b)) => if splits(a, b, bit) { Some(a.union_prefer_right(b)) } else { None },
                    _ => None,
                }
            }
        },
    }
}

/// The entries of a tree with an optional root: none for the empty tree.
pub open spec fn tree_contents(g: Seq<ContentView>, f: Seq<ContentView>, root: Option<Particle>) -> Option<Map<Seq<u8>, Entry>> {
    match root {
        None => Some(Map::empty()),
        Some(id) => contents(g, f, id, None),
    }
}

/// The entries below `id` in tree order: a branch lists its left side, then
/// its right.
pub open spec fn leaves(g: Seq<ContentView>, f: Seq<ContentView>, id: Particle, prev: Option<u32>) -> Seq<(Seq<u8>, Entry)>
    decreases depth(prev),
{
    match spec_load(g, f, id) {
        None => Seq::empty(),
        Some(NodeView::Leaf(k, e)) => seq![(k, e)],
        Some(NodeView::Branch { bit, left, right }) => {
            if (prev matches Some(p) && p >= bit) || bit > MAX_BIT {
                Seq::empty()
            } else {
                leaves(g, f, left, Some(bit)) + leaves(g, f, right, Some(bit))
            }
        },
    }
}

/// The entries below `id` that follow, in tree order, the leaf the walk of
/// `after` reaches: every right side that walk passes on its left.
pub open spec fn leaves_after(g: Seq<ContentView>, f: Seq<ContentView>, id: Particle, prev: Option<u32>, after: Seq<u8>) -> Seq<(Seq<u8>, Entry)>
    decreases depth(prev),
{
    match spec_load(g, f, id) {
        Some(NodeView::Branch { bit, left, right }) => {
            if (prev matches Some(p) && p >= bit) || bit > MAX_BIT {
                Seq::empty()
            } else if spec_path_bit(after, bit) {
                leaves_after(g, f, right, Some(bit), after)
            } else {
                leaves_after(g, f, left, Some(bit), after) + leaves(g, f, right, Some(bit))
            }
        },
        _ => Seq::empty(),
    }
}

/// The entries a stack of subtrees still holds, topmost first.
pub open spec fn pending_leaves(g: Seq<ContentView>, f: Seq<ContentView>, ps: Seq<(Particle, Option<u32>)>) -> Seq<(Seq<u8>, Entry)>
    decreases ps.len(),
{
    if ps.len() == 0 {
        Seq::empty()
    } else {
        leaves(g, f, ps.last().0, ps.last().1) + pending_leaves(g, f, ps.drop_last())
    }
}

/// The first `limit` of `s`, and the path of the last of them where more
/// follow.
pub open spec fn page_of(s: Seq<(Seq<u8>, Entry)>, limit: usize) -> (Seq<(Seq<u8>, Entry)>, Option<Seq<u8>>) {
    if s.len() <= limit {
        (s, None)
    } else {
        (s.take(limit as int), if limit > 0 { Some(s[limit - 1].0) } else { None })
    }
}

/// Listed entries by the bytes of their paths.
pub open spec fn entry_views(s: Seq<(String, Entry)>) -> Seq<(Seq<u8>, Entry)> {
    s.map_values(|x: (String, Entry)| (encode_key(x.0@), x.1))
}

/// A page by the bytes of its paths.
pub open spec fn page_view(p: Page) -> (Seq<(Seq<u8>, Entry)>, Option<Seq<u8>>) {
    (entry_views(p.entries@), match p.next { Some(n) => Some(encode_key(n@)), None => None })
}

/// Where a listing resumes: the bytes of the path it names, if any.
pub open spec fn cursor(after: Option<&str>) -> Option<Seq<u8>> {
    match after {
        Some(a) => Some(a.spec_bytes()),
        None => None,
    }
}

/// What listing the tree at `root` gives: a page of its entries in tree
/// order, from the start or after the leaf of `after`; `None` where `after`
/// names no entry.
pub open spec fn listed(g: Seq<ContentView>, f: Seq<ContentView>, root: Option<Particle>, after: Option<Seq<u8>>, limit: usize)
    -> Option<(Seq<(Seq<u8>, Entry)>, Option<Seq<u8>>)> {
    match root {
        None => match after {
            None => Some((Seq::empty(), None)),
            Some(_) => None,
        },
        Some(top) => match after {
            None => Some(page_of(leaves(g, f, top, None), limit)),
            Some(a) => if contents(g, f, top, None)->0.contains_key(a) {
                Some(page_of(leaves_after(g, f, top, None, a), limit))
            } else {
                None
            },
        },
    }
}

/// A well-formed tree lists each of its entries exactly once, in strictly
/// increasing bytewise order of their paths.
pub proof fn law_leaves_sorted(g: Seq<ContentView>, f: Seq<ContentView>, id: Particle, prev: Option<u32>)
    requires
        contents(g, f, id, prev) is Some,
    ensures
        ({
            let l = leaves(g, f, id, prev);
            let m = contents(g, f, id, prev)->0;
            &&& forall|i: int, j: int| #![trigger l[i], l[j]] 0 <= i < j < l.len() ==> byte_less(l[i].0, l[j].0)
            &&& forall|i: int| 0 <= i < l.len() ==> m.contains_key(#[trigger] l[i].0) && m[l[i].0] == l[i].1
            &&& forall|k: Seq<u8>| #[trigger] m.contains_key(k) ==> exists|i: int| 0 <= i < l.len() && #[trigger] l[i].0 == k
        }),
    decreases depth(prev),
{
    match spec_load(g, f, id) {
        Some(NodeView::Branch { bit, left, right }) => {
            law_leaves_sorted(g, f, left, Some(bit));
            law_leaves_sorted(g, f, right, Some(bit));
            let la = leaves(g, f, left, Some(bit));
            let lb = leaves(g, f, right, Some(bit));
            let a = contents(g, f, left, Some(bit))->0;
            let b = contents(g, f, right, Some(bit))->0;
            let l = leaves(g, f, id, prev);
            let m = contents(g, f, id, prev)->0;
            assert(l == la + lb);
            assert(m == a.union_prefer_right(b));
            assert forall|i: int, j: int| #![trigger l[i], l[j]] 0 <= i < j < l.len() implies byte_less(l[i].0, l[j].0) by {
                if j < la.len() {
                    assert(l[i] == la[i] && l[j] == la[j]);
                } else if i >= la.len() {
                    assert(l[i] == lb[i - la.len()] && l[j] == lb[j - la.len()]);
                } else {
                    let x = la[i].0;
                    let y = lb[j - la.len()].0;
                    assert(l[i] == la[i] && l[j] == lb[j - la.len()]);
                    assert(a.contains_key(x) && b.contains_key(y));
                    assert(m.contains_key(x) && m.contains_key(y));
                    assert forall|d: u32| d < bit implies #[trigger] spec_path_bit(x, d) == spec_path_bit(y, d) by {
                        assert(m.contains_key(x) && m.contains_key(y) && spec_path_bit(x, d) == spec_path_bit(x, d));
                    }
                    lemma_bits_order(x, y, bit);
                }
            }
            assert forall|i: int| 0 <= i < l.len() implies m.contains_key(#[trigger] l[i].0) && m[l[i].0] == l[i].1 by {
                if i < la.len() {
                    assert(l[i] == la[i]);
                    assert(a.contains_key(la[i].0));
                    assert(!b.contains_key(la[i].0));
                } else {
                    assert(l[i] == lb[i - la.len()]);
                    assert(b.contains_key(lb[i - la.len()].0));
                }
            }
            assert forall|k: Seq<u8>| #[trigger] m.contains_key(k) implies exists|i: int| 0 <= i < l.len() && #[trigger] l[i].0 == k by {
                if b.contains_key(k) {
                    let j = choose|j: int| 0 <= j < lb.len() && #[trigger] lb[j].0 == k;
                    assert(l[la.len() + j] == lb[j]);
                } else {
                    assert(a.contains_key(k));
                    let j = choose|j: int| 0 <= j < la.len() && #[trigger] la[j].0 == k;
                    assert(l[j] == la[j]);
                }
            }
        },
        _ => {
            let l = leaves(g, f, id, prev);
            assert forall|i: int, j: int| #![trigger l[i], l[j]] 0 <= i < j < l.len() implies byte_less(l[i].0, l[j].0) by {}
            let m = contents(g, f, id, prev)->0;
            assert forall|k: Seq<u8>| #[trigger] m.contains_key(k) implies exists|i: int| 0 <= i < l.len() && #[trigger] l[i].0 == k by {
                assert(l[0].0 == k);
            }
        },
    }
}

/// A listing resumed after a path of a well-formed tree yields exactly the
/// entries that follow that path's leaf in tree order.
pub proof fn law_leaves_after(g: Seq<ContentView>, f: Seq<ContentView>, id: Particle, prev: Option<u32>, after: Seq<u8>)
    requires
        contents(g, f, id, prev) is Some,
        contents(g, f, id, prev)->0.contains_key(after),
    ensures
        exists|j: int| 0 <= j < leaves(g, f, id, prev).len() && #[trigger] leaves(g, f, id, prev)[j].0 == after
            && leaves_after(g, f, id, prev, after) == leaves(g, f, id, prev).skip(j + 1),
    decreases depth(prev),
{
    let l = leaves(g, f, id, prev);
    match spec_load(g, f, id) {
        Some(NodeView::Branch { bit, left, right }) => {
            let la = leaves(g, f, left, Some(bit));
            let lb = leaves(g, f, right, Some(bit));
            let a = contents(g, f, left, Some(bit))->0;
            let b = contents(g, f, right, Some(bit))->0;
            assert(l == la + lb);
            if spec_path_bit(after, bit) {
                assert(!a.contains_key(after));
                assert(b.contains_key(after));
                law_leaves_after(g, f, right, Some(bit), after);
                let j = choose|j: int| 0 <= j < lb.len() && #[trigger] lb[j].0 == after
                    && leaves_after(g, f, right, Some(bit), after) == lb.skip(j + 1);
                assert(l[la.len() + j] == lb[j]);
                assert(lb.skip(j + 1) =~= l.skip(la.len() + j + 1));
            } else {
                assert(!b.contains_key(after));
                assert(a.contains_key(after));
                law_leaves_after(g, f, left, Some(bit), after);
                let j = choose|j: int| 0 <= j < la.len() && #[trigger] la[j].0 == after
                    && leaves_after(g, f, left, Some(bit), after) == la.skip(j + 1);
                assert(l[j] == la[j]);
                assert(la.skip(j + 1) + lb =~= l.skip(j + 1));
            }
        },
        _ => {
            assert(l[0].0 == after);
            assert(l.skip(1) =~= Seq::<(Seq<u8>, Entry)>::empty());
        },
    }
}

/// Resuming a listing of a well-formed tree after the path of any entry it
/// lists yields exactly the entries after that one, in order: pages chained
/// by their last paths cover every entry once.
pub proof fn law_resume_at(g: Seq<ContentView>, f: Seq<ContentView>, top: Particle, j: int)
    requires
        contents(g, f, top, None) is Some,
        0 <= j < leaves(g, f, top, None).len(),
    ensures
        leaves_after(g, f, top, None, leaves(g, f, top, None)[j].0) == leaves(g, f, top, None).skip(j + 1),
{
    let l = leaves(g, f, top, None);
    let k = l[j].0;
    law_leaves_sorted(g, f, top, None);
    assert(contents(g, f, top, None)->0.contains_key(k));
    law_leaves_after(g, f, top, None, k);
    let j2 = choose|j2: int| 0 <= j2 < l.len() && #[trigger] l[j2].0 == k && leaves_after(g, f, top, None, k) == l.skip(j2 + 1);
    if j2 < j {
        assert(byte_less(l[j2].0, l[j].0));
        lemma_byte_less_asymmetric(k, k);
    } else if j < j2 {
        assert(byte_less(l[j].0, l[j2].0));
        lemma_byte_less_asymmetric(k, k);
    }
}

/// Every entry of the tree at `root`, in tree order.
pub open spec fn all_entries(g: Seq<ContentView>, f: Seq<ContentView>, root: Option<Particle>) -> Seq<(Seq<u8>, Entry)> {
    match root {
        None => Seq::empty(),
        Some(top) => leaves(g, f, top, None),
    }
}

/// The entries of up to `n` pages of `limit` entries each, listed from the
/// tree at `root` after `after`, each page resuming after the path the one
/// before it names.
pub open spec fn paged(g: Seq<ContentView>, f: Seq<ContentView>, root: Option<Particle>, after: Option<Seq<u8>>, limit: usize, n: nat)
    -> Seq<(Seq<u8>, Entry)>
    decreases n,
{
    if n == 0 {
        Seq::empty()
    } else {
        match listed(g, f, root, after, limit) {
            None => Seq::empty(),
            Some((entries, next)) => entries + match next {
                None => Seq::empty(),
                Some(c) => paged(g, f, root, Some(c), limit, (n - 1) as nat),
            },
        }
    }
}

proof fn lemma_paged_from(g: Seq<ContentView>, f: Seq<ContentView>, top: Particle, j: int, limit: usize, n: nat)
    requires
        contents(g, f, top, None) is Some,
        0 <= j <= leaves(g, f, top, None).len(),
        limit >= 1,
        n > leaves(g, f, top, None).len() - j,
    ensures
        paged(g, f, Some(top), if j == 0 { None } else { Some(leaves(g, f, top, None)[j - 1].0) }, limit, n)
            == leaves(g, f, top, None).skip(j),
    decreases n,
{
    let l = leaves(g, f, top, None);
    let after = if j == 0 { None } else { Some(l[j - 1].0) };
    if j > 0 {
        law_leaves_sorted(g, f, top, None);
        assert(contents(g, f, top, None)->0.contains_key(l[j - 1].0));
        law_resume_at(g, f, top, j - 1);
    } else {
        assert(l.skip(0) =~= l);
    }
    let s = l.skip(j);
    assert(listed(g, f, Some(top), after, limit) == Some(page_of(s, limit)));
    if s.len() > limit {
        let k = j + limit;
        assert(s[limit - 1] == l[k - 1]);
        lemma_paged_from(g, f, top, k, limit, (n - 1) as nat);
        assert(s.take(limit as int) + l.skip(k) =~= s);
    }
}

/// Paging through a well-formed tree `limit` entries at a time, each page
/// resuming after the path the one before it names, lists each of its
/// entries exactly once, in strictly increasing bytewise order of their
/// paths, and nothing else; every page holds at most `limit` entries.
pub proof fn law_paging_lists_everything(g: Seq<ContentView>, f: Seq<ContentView>, root: Option<Particle>,
    after: Option<Seq<u8>>, limit: usize, n: nat)
    requires
        tree_contents(g, f, root) is Some,
        limit >= 1,
        n > all_entries(g, f, root).len(),
    ensures
        paged(g, f, root, None, limit, n) == all_entries(g, f, root),
        ({
            let l = all_entries(g, f, root);
            let m = tree_contents(g, f, root)->0;
            &&& forall|i: int, j: int| #![trigger l[i], l[j]] 0 <= i < j < l.len() ==> byte_less(l[i].0, l[j].0)
            &&& forall|i: int| 0 <= i < l.len() ==> m.contains_key(#[trigger] l[i].0) && m[l[i].0] == l[i].1
            &&& forall|k: Seq<u8>| #[trigger] m.contains_key(k) ==> exists|i: int| 0 <= i < l.len() && #[trigger] l[i].0 == k
        }),
        listed(g, f, root, after, limit) matches Some((page, _)) ==> page.len() <= limit,
{
    match root {
        None => {
            assert(tree_contents(g, f, root)->0 =~= Map::<Seq<u8>, Entry>::empty());
        },
        Some(top) => {
            lemma_paged_from(g, f, top, 0, limit, n);
            law_leaves_sorted(g, f, top, None);
        },
    }
}

/// What a lookup finds in a well-formed tree is what its contents hold.
pub proof fn lemma_get_contents(g: Seq<ContentView>, f: Seq<ContentView>, id: Particle, prev: Option<u32>, q: Seq<u8>)
    requires
        contents(g, f, id, prev) is Some,
    ensures
        ({
            let m = contents(g, f, id, prev)->0;
            get_walk(g, f, id, prev, q) == Some(if m.contains_key(q) { Some(m[q]) } else { None::<Entry> })
        }),
    decreases depth(prev),
{
    match spec_load(g, f, id) {
        Some(NodeView::Branch { bit, left, right }) => {
            let a = contents(g, f, left, Some(bit))->0;
            let b = contents(g, f, right, Some(bit))->0;
            lemma_get_contents(g, f, left, Some(bit), q);
            lemma_get_contents(g, f, right, Some(bit), q);
            if a.contains_key(q) {
                assert(!spec_path_bit(q, bit));
                assert(!b.contains_key(q));
            }
            if b.contains_key(q) {
                assert(spec_path_bit(q, bit));
            }
        },
        _ => {},
    }
}

/// What a lookup from an optional root finds: nothing in the empty tree.
pub open spec fn read_at(g: Seq<ContentView>, f: Seq<ContentView>, root: Option<Particle>, path: Seq<u8>) -> Option<Option<Entry>> {
    match root {
        None => Some(None),
        Some(id) => get_walk(g, f, id, None, path),
    }
}

/// Reading a path after rebinding one in a well-formed tree finds the new
/// binding at that path and what was there before at every other path.
pub proof fn law_read_after_write(g: Seq<ContentView>, s: Seq<ContentView>, f: Seq<ContentView>, root: Option<Particle>,
    new_root: Option<Particle>, p: Seq<u8>, v: Option<Entry>, q: Seq<u8>)
    requires
        tree_contents(g, s, root) is Some,
        tree_contents(g, f, new_root) == Some(rebind(tree_contents(g, s, root)->0, p, v)),
    ensures
        read_at(g, f, new_root, q) == Some(if q == p { v } else { read_at(g, s, root, q)->0 }),
{
    let m = tree_contents(g, s, root)->0;
    let n = rebind(m, p, v);
    match root {
        Some(id) => lemma_get_contents(g, s, id, None, q),
        None => assert(!m.contains_key(q)),
    }
    match new_root {
        Some(id) => lemma_get_contents(g, f, id, None, q),
        None => {
            assert(!n.contains_key(q));
        },
    }
}

/// Contents do not depend on the bit above the root, as long as it is below
/// the root's own bit.
pub proof fn lemma_contents_prev(g: Seq<ContentView>, f: Seq<ContentView>, id: Particle, p1: Option<u32>, p2: Option<u32>)
    requires
        contents(g, f, id, p1) is Some,
        spec_load(g, f, id) matches Some(NodeView::Branch { bit, .. }) ==> (p2 matches Some(p) ==> p < bit),
    ensures
        contents(g, f, id, p2) == contents(g, f, id, p1),
{
}

/// No two stored contents share an identity unless they are equal, and none
/// differs from the graph content of its identity.
pub open spec fn coherent(g: Seq<ContentView>, f: Seq<ContentView>) -> bool {
    &&& consistent(f)
    &&& forall|i: int| 0 <= i < f.len() ==> (find_first(g, #[trigger] f[i].id) matches Some(y) ==> y == f[i])
}

/// Coherence of stored contents carries to every prefix of them.
pub proof fn lemma_coherent_prefix(g: Seq<ContentView>, s: Seq<ContentView>, f: Seq<ContentView>)
    requires
        s.is_prefix_of(f),
        coherent(g, f),
    ensures
        coherent(g, s),
{
    assert forall|i: int, j: int| #![trigger s[i], s[j]] 0 <= i < s.len() && 0 <= j < s.len() && s[i].id == s[j].id implies s[i] == s[j] by {
        assert(s[i] == f[i] && s[j] == f[j]);
    }
    assert forall|i: int| 0 <= i < s.len() implies (find_first(g, #[trigger] s[i].id) matches Some(y) ==> y == s[i]) by {
        assert(s[i] == f[i]);
    }
}

proof fn lemma_find_last_in(f: Seq<ContentView>, id: Seq<u8>)
    ensures
        find_last(f, id) matches Some(x) ==> exists|j: int| 0 <= j < f.len() && f[j] == x && x.id == id,
        (exists|j: int| 0 <= j < f.len() && f[j].id == id) ==> find_last(f, id) is Some,
    decreases f.len(),
{
    if f.len() > 0 {
        let p = f.drop_last();
        lemma_find_last_in(p, id);
        if f.last().id != id {
            if let Some(x) = find_last(p, id) {
                let j = choose|j: int| 0 <= j < p.len() && p[j] == x && x.id == id;
                assert(f[j] == p[j]);
            }
            if exists|j: int| 0 <= j < f.len() && f[j].id == id {
                let j = choose|j: int| 0 <= j < f.len() && f[j].id == id;
                assert(j < f.len() - 1);
                assert(p[j] == f[j]);
            }
        } else {
            assert(f[f.len() - 1] == f.last());
        }
    }
}

proof fn lemma_find_first_in(g: Seq<ContentView>, id: Seq<u8>)
    ensures
        find_first(g, id) matches Some(x) ==> x.id == id,
    decreases g.len(),
{
    if g.len() > 0 {
        lemma_find_first_in(g.drop_first(), id);
    }
}

/// Lookups that succeed keep their result as nodes are added without
/// collisions.
proof fn lemma_lookup_stable(g: Seq<ContentView>, s: Seq<ContentView>, f: Seq<ContentView>, id: Particle)
    requires
        s.is_prefix_of(f),
        coherent(g, f),
        lookup(g, s, id) is Some,
    ensures
        lookup(g, f, id) == lookup(g, s, id),
{
    lemma_find_last_in(s, id@);
    lemma_find_last_in(f, id@);
    lemma_find_first_in(g, id@);
    match find_last(s, id@) {
        Some(x) => {
            let j = choose|j: int| 0 <= j < s.len() && s[j] == x && x.id == id@;
            assert(f[j] == s[j]);
            let y = find_last(f, id@)->0;
            let k = choose|k: int| 0 <= k < f.len() && f[k] == y && y.id == id@;
            assert(f[j] == f[k]);
        },
        None => {
            if let Some(y) = find_last(f, id@) {
                let k = choose|k: int| 0 <= k < f.len() && f[k] == y && y.id == id@;
                assert(find_first(g, f[k].id) matches Some(z) ==> z == f[k]);
            }
        },
    }
}

/// The contents of a well-formed tree keep as nodes are added without
/// collisions.
pub proof fn lemma_contents_stable(g: Seq<ContentView>, s: Seq<ContentView>, f: Seq<ContentView>, id: Particle, prev: Option<u32>)
    requires
        s.is_prefix_of(f),
        coherent(g, f),
        contents(g, s, id, prev) is Some,
    ensures
        contents(g, f, id, prev) == contents(g, s, id, prev),
    decreases depth(prev),
{
    lemma_lookup_stable(g, s, f, id);
    match spec_load(g, s, id) {
        Some(NodeView::Branch { bit, left, right }) => {
            lemma_contents_stable(g, s, f, left, Some(bit));
            lemma_contents_stable(g, s, f, right, Some(bit));
        },
        _ => {},
    }
}

/// The map `m` with `p` bound to `v`, or unbound where `v` is `None`.
pub open spec fn rebind(m: Map<Seq<u8>, Entry>, p: Seq<u8>, v: Option<Entry>) -> Map<Seq<u8>, Entry> {
    match v {
        Some(e) => m.insert(p, e),
        None => m.remove(p),
    }
}

/// Every path of `m` agrees with `p` on the bits below `bit`.
spec fn agrees(m: Map<Seq<u8>, Entry>, p: Seq<u8>, bit: u32) -> bool {
    forall|k: Seq<u8>, c: u32| #![trigger m.contains_key(k), spec_path_bit(k, c)]
        m.contains_key(k) && c < bit ==> spec_path_bit(k, c) == spec_path_bit(p, c)
}

/// In every collision-free extension of the stored nodes `s`, the tree
/// below `id` holds exactly `m`.
spec fn holds(g: Seq<ContentView>, s: Seq<ContentView>, id: Particle, prev: Option<u32>, m: Map<Seq<u8>, Entry>) -> bool {
    forall|f: Seq<ContentView>| s.is_prefix_of(f) && #[trigger] coherent(g, f) ==> contents(g, f, id, prev) == Some(m)
}

/// A path of a split map agrees with all of it below the split bit.
proof fn lemma_splits_agree(a: Map<Seq<u8>, Entry>, b: Map<Seq<u8>, Entry>, bit: u32, x: Seq<u8>)
    requires
        splits(a, b, bit),
        a.union_prefer_right(b).contains_key(x),
    ensures
        agrees(a.union_prefer_right(b), x, bit),
{
    let u = a.union_prefer_right(b);
    assert forall|k: Seq<u8>, c: u32| #![trigger u.contains_key(k), spec_path_bit(k, c)]
        u.contains_key(k) && c < bit implies spec_path_bit(k, c) == spec_path_bit(x, c) by {
        assert(u.contains_key(x) && spec_path_bit(x, c) == spec_path_bit(x, c));
    }
}

/// Agreement carries over to a path that agrees with the first below a
/// higher bit.
proof fn lemma_agrees_through(m: Map<Seq<u8>, Entry>, x: Seq<u8>, p: Seq<u8>, bit: u32, limit: int)
    requires
        agrees(m, x, bit),
        bit <= limit,
        forall|c: u32| c < limit ==> #[trigger] spec_path_bit(p, c) == spec_path_bit(x, c),
    ensures
        agrees(m, p, bit),
{
}

/// Rebinding a path on its own side of a split keeps the split, and
/// rebinding the whole is rebinding that side.
proof fn lemma_rebind_side(a: Map<Seq<u8>, Entry>, b: Map<Seq<u8>, Entry>, bit: u32, p: Seq<u8>, v: Option<Entry>)
    requires
        splits(a, b, bit),
        v is Some ==> agrees(a.union_prefer_right(b), p, bit),
    ensures
        spec_path_bit(p, bit) ==> splits(a, rebind(b, p, v), bit)
            && rebind(a.union_prefer_right(b), p, v) == a.union_prefer_right(rebind(b, p, v)),
        !spec_path_bit(p, bit) ==> splits(rebind(a, p, v), b, bit)
            && rebind(a.union_prefer_right(b), p, v) == rebind(a, p, v).union_prefer_right(b),
{
    let u = a.union_prefer_right(b);
    if spec_path_bit(p, bit) {
        let b2 = rebind(b, p, v);
        let u2 = a.union_prefer_right(b2);
        assert(!a.contains_key(p));
        assert(rebind(u, p, v) =~= u2);
        assert forall|k1: Seq<u8>, k2: Seq<u8>, c: u32| #![trigger u2.contains_key(k1), u2.contains_key(k2), spec_path_bit(k1, c)]
            u2.contains_key(k1) && u2.contains_key(k2) && c < bit implies spec_path_bit(k1, c) == spec_path_bit(k2, c) by {
            if k1 != p && k2 != p {
                assert(u.contains_key(k1) && u.contains_key(k2));
            } else if k1 == p && k2 != p {
                assert(u.contains_key(k2) && spec_path_bit(k2, c) == spec_path_bit(p, c));
            } else if k2 == p && k1 != p {
                assert(u.contains_key(k1) && spec_path_bit(k1, c) == spec_path_bit(p, c));
            }
        }
        assert forall|k: Seq<u8>| #[trigger] b2.contains_key(k) implies spec_path_bit(k, bit) by {
            if k != p {
                assert(b.contains_key(k));
            }
        }
    } else {
        let a2 = rebind(a, p, v);
        let u2 = a2.union_prefer_right(b);
        assert(!b.contains_key(p));
        assert(rebind(u, p, v) =~= u2);
        assert forall|k1: Seq<u8>, k2: Seq<u8>, c: u32| #![trigger u2.contains_key(k1), u2.contains_key(k2), spec_path_bit(k1, c)]
            u2.contains_key(k1) && u2.contains_key(k2) && c < bit implies spec_path_bit(k1, c) == spec_path_bit(k2, c) by {
            if k1 != p && k2 != p {
                assert(u.contains_key(k1) && u.contains_key(k2));
            } else if k1 == p && k2 != p {
                assert(u.contains_key(k2) && spec_path_bit(k2, c) == spec_path_bit(p, c));
            } else if k2 == p && k1 != p {
                assert(u.contains_key(k1) && spec_path_bit(k1, c) == spec_path_bit(p, c));
            }
        }
        assert forall|k: Seq<u8>| #[trigger] a2.contains_key(k) implies !spec_path_bit(k, bit) by {
            if k != p {
                assert(a.contains_key(k));
            }
        }
    }
}

/// A new leaf split off a subtree at the first bit where its path leaves a
/// path of the subtree, below every bit the subtree tests.
proof fn lemma_split_leaf(m: Map<Seq<u8>, Entry>, x: Seq<u8>, p: Seq<u8>, e: Entry, split: u32, top: u32)
    requires
        m.contains_key(x),
        agrees(m, x, top),
        split < top,
        spec_path_bit(x, split) != spec_path_bit(p, split),
        forall|c: u32| c < split ==> #[trigger] spec_path_bit(p, c) == spec_path_bit(x, c),
    ensures
        spec_path_bit(p, split) ==> splits(m, Map::empty().insert(p, e), split)
            && m.union_prefer_right(Map::empty().insert(p, e)) == m.insert(p, e),
        !spec_path_bit(p, split) ==> splits(Map::empty().insert(p, e), m, split)
            && Map::empty().insert(p, e).union_prefer_right(m) == m.insert(p, e),
{
    let l = Map::<Seq<u8>, Entry>::empty().insert(p, e);
    assert(spec_path_bit(x, split) == spec_path_bit(x, split));
    assert forall|k: Seq<u8>| #[trigger] m.contains_key(k) implies spec_path_bit(k, split) == spec_path_bit(x, split) by {
        assert(spec_path_bit(k, split) == spec_path_bit(x, split));
    }
    assert(!m.contains_key(p));
    let u = m.insert(p, e);
    assert forall|k1: Seq<u8>, k2: Seq<u8>, c: u32| #![trigger u.contains_key(k1), u.contains_key(k2), spec_path_bit(k1, c)]
        u.contains_key(k1) && u.contains_key(k2) && c < split implies spec_path_bit(k1, c) == spec_path_bit(k2, c) by {
        if k1 != p {
            assert(m.contains_key(k1) && spec_path_bit(k1, c) == spec_path_bit(x, c));
        }
        if k2 != p {
            assert(m.contains_key(k2) && spec_path_bit(k2, c) == spec_path_bit(x, c));
        }
    }
    if spec_path_bit(p, split) {
        assert(m.union_prefer_right(l) =~= u);
    } else {
        assert(l.union_prefer_right(m) =~= u);
    }
}

/// What holds in a prefix holds in every longer sequence of stored nodes.
proof fn lemma_holds_grow(g: Seq<ContentView>, s: Seq<ContentView>, t: Seq<ContentView>, id: Particle, prev: Option<u32>, m: Map<Seq<u8>, Entry>)
    requires
        holds(g, s, id, prev, m),
        s.is_prefix_of(t),
    ensures
        holds(g, t, id, prev, m),
{
    assert forall|f: Seq<ContentView>| t.is_prefix_of(f) && #[trigger] coherent(g, f) implies contents(g, f, id, prev) == Some(m) by {
        assert forall|i: int| 0 <= i < s.len() implies s[i] == f[i] by {
            assert(s[i] == t[i]);
        }
        assert(s =~= f.subrange(0, s.len() as int));
    }
}

/// The contents of a well-formed tree hold in every collision-free
/// extension.
proof fn lemma_holds_from(g: Seq<ContentView>, s: Seq<ContentView>, id: Particle, prev: Option<u32>)
    requires
        contents(g, s, id, prev) is Some,
    ensures
        holds(g, s, id, prev, contents(g, s, id, prev)->0),
{
    assert forall|f: Seq<ContentView>| s.is_prefix_of(f) && #[trigger] coherent(g, f) implies contents(g, f, id, prev) == contents(g, s, id, prev) by {
        lemma_contents_stable(g, s, f, id, prev);
    }
}

/// A leaf just stored holds its one entry.
proof fn lemma_holds_leaf(g: Seq<ContentView>, s: Seq<ContentView>, id: Particle, prev: Option<u32>, p: Seq<u8>, e: Entry)
    requires
        s.len() > 0,
        s.last() == blob(spec_node(NodeView::Leaf(p, e))),
        node_ok(NodeView::Leaf(p, e)),
        id@ == hemera_hash(spec_node(NodeView::Leaf(p, e))),
    ensures
        holds(g, s, id, prev, Map::empty().insert(p, e)),
{
    assert forall|f: Seq<ContentView>| s.is_prefix_of(f) && #[trigger] coherent(g, f) implies contents(g, f, id, prev) == Some(Map::empty().insert(p, e)) by {
        assert(f[s.len() - 1] == s[s.len() - 1]);
        lemma_load_stored(g, f, s.len() - 1, NodeView::Leaf(p, e), id);
    }
}

/// A branch just stored over two subtrees that split at its bit holds the
/// entries of both.
proof fn lemma_holds_branch(g: Seq<ContentView>, s: Seq<ContentView>, id: Particle, prev: Option<u32>,
    bit: u32, left: Particle, right: Particle, a: Map<Seq<u8>, Entry>, b: Map<Seq<u8>, Entry>)
    requires
        s.len() > 0,
        s.last() == blob(spec_node(NodeView::Branch { bit, left, right })),
        bit <= MAX_BIT,
        id@ == hemera_hash(spec_node(NodeView::Branch { bit, left, right })),
        prev matches Some(p) ==> p < bit,
        holds(g, s.drop_last(), left, Some(bit), a),
        holds(g, s.drop_last(), right, Some(bit), b),
        splits(a, b, bit),
    ensures
        holds(g, s, id, prev, a.union_prefer_right(b)),
{
    let n = NodeView::Branch { bit, left, right };
    assert forall|f: Seq<ContentView>| s.is_prefix_of(f) && #[trigger] coherent(g, f) implies contents(g, f, id, prev) == Some(a.union_prefer_right(b)) by {
        assert(f[s.len() - 1] == s[s.len() - 1]);
        lemma_load_stored(g, f, s.len() - 1, n, id);
        assert(s.drop_last().is_prefix_of(f));
    }
}

/// A branch passed on the way down to a leaf: its bit, the child the path
/// does not take, and whether the path went right.
struct Frame {
    bit: u32,
    sibling: Particle,
    right: bool,
}

/// The bit above level `i` of a walk: none at the root, else the bit of the
/// frame just above.
spec fn prev_of(frames: Seq<Frame>, i: int) -> Option<u32> {
    if i <= 0 { None } else { Some(frames[i - 1].bit) }
}

/// The bit of the deepest frame, if any.
spec fn top_bit(frames: Seq<Frame>) -> Option<u32> {
    prev_of(frames, frames.len() as int)
}

/// Level `i` of a walk is the branch its frame records, with the walk's
/// next node on the side the frame took.
spec fn level_ok(g: Seq<ContentView>, s: Seq<ContentView>, frames: Seq<Frame>, walk: Seq<Particle>, i: int) -> bool {
    spec_load(g, s, walk[i]) == Some(NodeView::Branch {
        bit: frames[i].bit,
        left: if frames[i].right { frames[i].sibling } else { walk[i + 1] },
        right: if frames[i].right { walk[i + 1] } else { frames[i].sibling },
    })
}

/// The entries below level `i` of a walk.
spec fn below(g: Seq<ContentView>, s: Seq<ContentView>, frames: Seq<Frame>, walk: Seq<Particle>, i: int) -> Map<Seq<u8>, Entry> {
    contents(g, s, walk[i], prev_of(frames, i))->0
}

/// One level of a walk through a well-formed tree: the entries there are
/// those of the next level and of the sibling, split at the frame's bit.
proof fn lemma_level(g: Seq<ContentView>, s: Seq<ContentView>, frames: Seq<Frame>, walk: Seq<Particle>, i: int)
    requires
        walk.len() == frames.len() + 1,
        0 <= i < frames.len(),
        level_ok(g, s, frames, walk, i),
        contents(g, s, walk[i], prev_of(frames, i)) is Some,
    ensures
        contents(g, s, frames[i].sibling, Some(frames[i].bit)) is Some,
        contents(g, s, walk[i + 1], prev_of(frames, i + 1)) is Some,
        frames[i].bit <= MAX_BIT,
        prev_of(frames, i) matches Some(p) ==> p < frames[i].bit,
        ({
            let sib = contents(g, s, frames[i].sibling, Some(frames[i].bit))->0;
            let next = below(g, s, frames, walk, i + 1);
            if frames[i].right {
                splits(sib, next, frames[i].bit) && below(g, s, frames, walk, i) == sib.union_prefer_right(next)
            } else {
                splits(next, sib, frames[i].bit) && below(g, s, frames, walk, i) == next.union_prefer_right(sib)
            }
        }),
{
    assert(prev_of(frames, i + 1) == Some(frames[i].bit));
}

/// A path held at the bottom of a walk is held at every level above it.
proof fn lemma_in_all(g: Seq<ContentView>, s: Seq<ContentView>, frames: Seq<Frame>, walk: Seq<Particle>, i: int, x: Seq<u8>)
    requires
        walk.len() == frames.len() + 1,
        0 <= i <= frames.len(),
        forall|j: int| 0 <= j < frames.len() ==> #[trigger] level_ok(g, s, frames, walk, j),
        forall|j: int| 0 <= j <= frames.len() ==> #[trigger] contents(g, s, walk[j], prev_of(frames, j)) is Some,
        below(g, s, frames, walk, frames.len() as int).contains_key(x),
    ensures
        below(g, s, frames, walk, i).contains_key(x),
    decreases frames.len() - i,
{
    if i < frames.len() {
        lemma_in_all(g, s, frames, walk, i + 1, x);
        assert(level_ok(g, s, frames, walk, i));
        assert(contents(g, s, walk[i], prev_of(frames, i)) is Some);
        lemma_level(g, s, frames, walk, i);
    }
}

/// Paths no longer than the limit differ only at bits the tree may test.
proof fn lemma_bit_in_range(p: Seq<u8>, q: Seq<u8>, bit: u32)
    requires
        p.len() <= MAX_PATH_BYTES,
        q.len() <= MAX_PATH_BYTES,
        spec_path_bit(p, bit) != spec_path_bit(q, bit),
    ensures
        bit <= MAX_BIT,
{
    if bit > MAX_BIT {
        assert(bit as int / 9 >= 4096);
    }
}

/// All stored contents with one identity are the same content: no two
/// different blobs collided on their digest.
pub open spec fn consistent(f: Seq<ContentView>) -> bool {
    forall|i: int, j: int| #![trigger f[i], f[j]] 0 <= i < f.len() && 0 <= j < f.len() && f[i].id == f[j].id ==> f[i] == f[j]
}

/// A lookup of `path` from `id`, below bit `prev`, finds `e` in every
/// collision-free extension of the stored nodes `s`.
pub open spec fn finds(g: Seq<ContentView>, s: Seq<ContentView>, id: Particle, prev: Option<u32>, path: Seq<u8>, e: Entry) -> bool {
    forall|f: Seq<ContentView>| s.is_prefix_of(f) && #[trigger] consistent(f) ==> get_walk(g, f, id, prev, path) == Some(Some(e))
}

proof fn lemma_find_last(f: Seq<ContentView>, i: int)
    requires
        consistent(f),
        0 <= i < f.len(),
    ensures
        find_last(f, f[i].id) == Some(f[i]),
    decreases f.len(),
{
    let n = f.len() - 1;
    if f.last().id == f[i].id {
        assert(f[n] == f[i]);
    } else {
        let p = f.drop_last();
        assert(i < n);
        assert(consistent(p)) by {
            assert forall|a: int, b: int| #![trigger p[a], p[b]] 0 <= a < p.len() && 0 <= b < p.len() && p[a].id == p[b].id implies p[a] == p[b] by {
                assert(f[a] == p[a] && f[b] == p[b]);
            }
        }
        assert(p[i] == f[i]);
        lemma_find_last(p, i);
    }
}

proof fn lemma_load_stored(g: Seq<ContentView>, f: Seq<ContentView>, i: int, n: NodeView, id: Particle)
    requires
        consistent(f),
        0 <= i < f.len(),
        f[i] == blob(spec_node(n)),
        node_ok(n),
        id@ == hemera_hash(spec_node(n)),
    ensures
        spec_load(g, f, id) == Some(n),
{
    lemma_find_last(f, i);
    law_node_round_trip(n, n);
    let c = decoded_node(spec_node(n));
    law_node_round_trip(n, c);
}

proof fn lemma_leaf_finds(g: Seq<ContentView>, s: Seq<ContentView>, id: Particle, prev: Option<u32>, path: Seq<u8>, e: Entry)
    requires
        s.len() > 0,
        s.last() == blob(spec_node(NodeView::Leaf(path, e))),
        node_ok(NodeView::Leaf(path, e)),
        id@ == hemera_hash(spec_node(NodeView::Leaf(path, e))),
    ensures
        finds(g, s, id, prev, path, e),
{
    assert forall|f: Seq<ContentView>| s.is_prefix_of(f) && #[trigger] consistent(f) implies get_walk(g, f, id, prev, path) == Some(Some(e)) by {
        assert(f[s.len() - 1] == s[s.len() - 1]);
        lemma_load_stored(g, f, s.len() - 1, NodeView::Leaf(path, e), id);
    }
}

proof fn lemma_branch_finds(g: Seq<ContentView>, s: Seq<ContentView>, id: Particle, prev: Option<u32>, path: Seq<u8>, e: Entry,
    bit: u32, left: Particle, right: Particle)
    requires
        s.len() > 0,
        s.last() == blob(spec_node(NodeView::Branch { bit, left, right })),
        bit <= MAX_BIT,
        id@ == hemera_hash(spec_node(NodeView::Branch { bit, left, right })),
        prev matches Some(p) ==> p < bit,
        finds(g, s.drop_last(), if spec_path_bit(path, bit) { right } else { left }, Some(bit), path, e),
    ensures
        finds(g, s, id, prev, path, e),
{
    let n = NodeView::Branch { bit, left, right };
    assert forall|f: Seq<ContentView>| s.is_prefix_of(f) && #[trigger] consistent(f) implies get_walk(g, f, id, prev, path) == Some(Some(e)) by {
        assert(f[s.len() - 1] == s[s.len() - 1]);
        lemma_load_stored(g, f, s.len() - 1, n, id);
        assert(s.drop_last().is_prefix_of(f));
    }
}

proof fn lemma_prefix_push(s: Seq<ContentView>, x: ContentView, f: Seq<ContentView>)
    requires
        s.push(x).is_prefix_of(f),
    ensures
        s.is_prefix_of(f),
{
    assert forall|i: int| 0 <= i < s.len() implies s[i] == f[i] by {
        assert(s.push(x)[i] == s[i]);
    }
}

impl<'a> Tree<'a> {
    /// Bind `path` to `value` (or unbind it, for `None`) below `root`,
    /// storing the new nodes, and return the new root. Where an entry is
    /// bound to a well-formed path and no two stored blobs share a digest,
    /// looking the path up from the new root finds that entry; where the
    /// tree below `root` is well formed, the new tree holds its entries with
    /// `path` rebound and nothing else changed.
    #[verifier::rlimit(100)]
    #[verifier::spinoff_prover]
    pub fn set(&mut self, root: Option<Particle>, path: &str, value: Option<Entry>) -> (r: Result<Option<Particle>, Error>)
        requires
            path.spec_bytes().len() <= MAX_PATH_BYTES,
        ensures
            final(self).graph_view() == old(self).graph_view(),
            old(self).fresh().is_prefix_of(final(self).fresh()),
            root is None && value is None ==> (r matches Ok(None) && final(self).fresh() == old(self).fresh()),
            root is None && value is Some ==> r matches Ok(Some(_)),
            r matches Err(e) ==> e is Corrupt,
            tree_contents(old(self).graph_view(), old(self).fresh(), root) is Some ==> r is Ok,
            old(self).tracks() ==> final(self).tracks(),
            value matches Some(e) ==> (path_ok(path.spec_bytes()) && consistent(final(self).fresh()) && r is Ok ==>
                (r matches Ok(Some(nr)) && get_walk(final(self).graph_view(), final(self).fresh(), nr, None, path.spec_bytes()) == Some(Some(e)))),
            tree_contents(old(self).graph_view(), old(self).fresh(), root) is Some
                && coherent(final(self).graph_view(), final(self).fresh())
                && (value is Some ==> path_ok(path.spec_bytes()))
                ==> (r matches Ok(nr) && tree_contents(final(self).graph_view(), final(self).fresh(), nr)
                    == Some(rebind(tree_contents(old(self).graph_view(), old(self).fresh(), root)->0, path.spec_bytes(), value))),
    {
        let ghost pb = path.spec_bytes();
        let ghost g = self.graph_view();
        proof {
            vstd::utf8::encode_utf8_valid_utf8(path@);
        }
        let top = match root {
            Some(id) => id,
            None => {
                return match value {
                    Some(entry) => {
                        let leaf_node = Node::Leaf(path.to_owned(), entry);
                        let id = self.store(leaf_node)?;
                        proof {
                            if path_ok(pb) {
                                lemma_leaf_finds(g, self.fresh(), id, None, pb, entry);
                                if consistent(self.fresh()) {
                                    assert(self.fresh().is_prefix_of(self.fresh()));
                                }
                                lemma_holds_leaf(g, self.fresh(), id, None, pb, entry);
                                if coherent(g, self.fresh()) {
                                    assert(self.fresh().is_prefix_of(self.fresh()));
                                    assert(Map::<Seq<u8>, Entry>::empty().insert(pb, entry) == rebind(Map::empty(), pb, value));
                                }
                            }
                            assert(old(self).fresh().is_prefix_of(self.fresh()));
                        }
                        Ok(Some(id))
                    },
                    None => {
                        proof {
                            assert(old(self).fresh().is_prefix_of(self.fresh()));
                            assert(rebind(Map::<Seq<u8>, Entry>::empty(), pb, value) =~= Map::empty());
                        }
                        Ok(None)
                    },
                };
            },
        };
        let ghost start = self.fresh();
        let ghost wf = contents(g, start, top, None) is Some;
        let ghost law = wf && (value is Some ==> path_ok(pb));
        let ghost mut walk: Seq<Particle> = seq![top];
        let mut id = top;
        let mut frames: Vec<Frame> = Vec::new();
        let mut previous: Option<u32> = None;
        let mut found: Option<String> = None;
        loop
            invariant_except_break
                found is None,
            invariant
                self.fresh() == start,
                old(self).tracks() ==> self.tracks(),
                root == Some(top),
                pb == path.spec_bytes(),
                g == old(self).graph_view(),
                self.graph_view() == old(self).graph_view(),
                start == old(self).fresh(),
                wf == (contents(g, start, top, None) is Some),
                previous matches Some(p) ==> p <= MAX_BIT,
                forall|i: int| 0 <= i < frames@.len() ==> #[trigger] frames@[i].bit <= MAX_BIT,
                forall|i: int| 0 <= i < frames@.len() ==> #[trigger] frames@[i].right == spec_path_bit(pb, frames@[i].bit),
                forall|i: int, j: int| 0 <= i < j < frames@.len() ==> frames@[i].bit < frames@[j].bit,
                previous == prev_of(frames@, frames@.len() as int),
                walk.len() == frames@.len() + 1,
                walk[0] == top,
                walk.last() == id,
                forall|i: int| 0 <= i < frames@.len() ==> #[trigger] level_ok(g, start, frames@, walk, i),
                wf ==> forall|i: int| 0 <= i <= frames@.len() ==> #[trigger] contents(g, start, walk[i], prev_of(frames@, i)) is Some,
                get_walk(g, start, id, previous, pb) == get_walk(g, start, top, None, pb),
            ensures
                found matches Some(k) && encode_key(k@).len() <= MAX_PATH_BYTES
                    && (spec_load(g, start, id) matches Some(NodeView::Leaf(k2, _)) && k2 == encode_key(k@)),
            decreases depth(previous),
        {
            match self.load(&id)? {
                Node::Leaf(key, _) => {
                    found = Some(key);
                    break;
                },
                Node::Branch { bit, left, right } => {
                    proof {
                        if wf {
                            assert(contents(g, start, walk[frames@.len() as int], prev_of(frames@, frames@.len() as int)) is Some);
                        }
                    }
                    increasing(previous, bit)?;
                    if bit > MAX_BIT {
                        return Err(Error::Corrupt);
                    }
                    let goes_right = path_bit(path, bit);
                    let ghost before = frames@;
                    let ghost walk0 = walk;
                    frames.push(Frame { bit, sibling: if goes_right { left } else { right }, right: goes_right });
                    previous = Some(bit);
                    id = if goes_right { right } else { left };
                    proof {
                        walk = walk.push(id);
                        assert forall|i: int| 0 <= i < frames@.len() implies #[trigger] level_ok(g, start, frames@, walk, i) by {
                            if i < before.len() {
                                assert(frames@[i] == before[i]);
                                assert(walk[i] == walk0[i] && walk[i + 1] == walk0[i + 1]);
                                assert(level_ok(g, start, before, walk0, i));
                            } else {
                                assert(walk[i] == walk0.last());
                            }
                        }
                        if wf {
                            assert forall|i: int| 0 <= i <= frames@.len() implies #[trigger] contents(g, start, walk[i], prev_of(frames@, i)) is Some by {
                                if i <= before.len() {
                                    assert(walk[i] == walk0[i]);
                                    assert(prev_of(frames@, i) == prev_of(before, i));
                                    assert(contents(g, start, walk0[i], prev_of(before, i)) is Some);
                                } else {
                                    assert(prev_of(frames@, i) == Some(bit));
                                }
                            }
                        }
                    }
                },
            }
        }
        proof {
            assert(old(self).fresh().is_prefix_of(self.fresh()));
        }
        let existing = found.unwrap();
        let ghost all = frames@;
        let ghost ex = encode_key(existing@);
        let ghost d = frames@.len() as int;
        proof {
            if wf {
                assert(contents(g, start, walk[d], prev_of(all, d)) is Some);
                assert(below(g, start, all, walk, d).contains_key(ex));
            }
        }
        let ghost mut limit: int = MAX_BIT + 1;
        let next = if crate::wire::bytes_eq(existing.as_str().as_bytes(), path.as_bytes()) {
            proof {
                assert(ex == pb);
            }
            match value {
                Some(entry) => {
                    let leaf_node = Node::Leaf(path.to_owned(), entry);
                    let leaf = self.store(leaf_node)?;
                    proof {
                        if path_ok(pb) {
                            lemma_leaf_finds(g, self.fresh(), leaf, top_bit(frames@), pb, entry);
                            lemma_holds_leaf(g, self.fresh(), leaf, top_bit(frames@), pb, entry);
                            if wf {
                                assert(rebind(below(g, start, all, walk, d), pb, value) =~= Map::empty().insert(pb, entry));
                            }
                        }
                    }
                    leaf
                },
                None => match frames.pop() {
                    Some(frame) => {
                        proof {
                            assert(frame == all[d - 1]);
                            assert(frames@ == all.take(d - 1));
                            if wf {
                                let i = d - 1;
                                assert(level_ok(g, start, all, walk, i));
                                assert(contents(g, start, walk[i], prev_of(all, i)) is Some);
                                lemma_level(g, start, all, walk, i);
                                let sib = contents(g, start, frame.sibling, Some(frame.bit))->0;
                                assert(!sib.contains_key(ex));
                                assert(rebind(below(g, start, all, walk, i), pb, value) =~= sib);
                                lemma_contents_prev(g, start, frame.sibling, Some(frame.bit), prev_of(all, i));
                                lemma_holds_from(g, start, frame.sibling, prev_of(all, i));
                                assert(top_bit(frames@) == prev_of(all, i));
                            }
                        }
                        frame.sibling
                    },
                    None => {
                        proof {
                            if wf {
                                assert(walk[0] == id);
                                assert(rebind(below(g, start, all, walk, 0), pb, value) =~= Map::empty());
                            }
                        }
                        return Ok(None);
                    },
                },
            }
        } else {
            let entry = match value {
                Some(entry) => entry,
                None => {
                    proof {
                        if wf {
                            let m = contents(g, start, top, None)->0;
                            lemma_get_contents(g, start, top, None, pb);
                            assert(!m.contains_key(pb));
                            assert(rebind(m, pb, value) =~= m);
                        }
                    }
                    return Ok(Some(top));
                },
            };
            let existing_bytes = existing.as_str();
            let split = difference(existing_bytes, path)?;
            proof {
                lemma_bit_in_range(ex, pb, split);
                limit = split as int;
            }
            while frames.len() > 0 && frames[frames.len() - 1].bit >= split
                invariant
                    self.fresh() == start,
                    root is Some,
                    pb == path.spec_bytes(),
                    self.graph_view() == old(self).graph_view(),
                    start == old(self).fresh(),
                    forall|i: int| 0 <= i < frames@.len() ==> #[trigger] frames@[i].bit <= MAX_BIT,
                    forall|i: int| 0 <= i < frames@.len() ==> #[trigger] frames@[i].right == spec_path_bit(pb, frames@[i].bit),
                    forall|i: int, j: int| 0 <= i < j < frames@.len() ==> frames@[i].bit < frames@[j].bit,
                    frames@.len() <= all.len(),
                    frames@ == all.take(frames@.len() as int),
                    forall|i: int| frames@.len() <= i < all.len() ==> #[trigger] all[i].bit >= split,
                decreases frames@.len(),
            {
                let ghost before = frames@;
                frames.pop();
                proof {
                    assert(frames@ == all.take(frames@.len() as int));
                    assert(before.last() == all[frames@.len() as int]);
                }
            }
            let ghost kept = frames@.len() as int;
            let mut subtree = top;
            let mut k: usize = 0;
            while k < frames.len()
                invariant
                    self.fresh() == start,
                    root is Some,
                    self.graph_view() == old(self).graph_view(),
                    g == old(self).graph_view(),
                    start == old(self).fresh(),
                    k <= frames@.len(),
                    frames@.len() == kept,
                    kept <= all.len(),
                    frames@ == all.take(kept),
                    walk.len() == all.len() + 1,
                    forall|i: int| 0 <= i < all.len() ==> #[trigger] level_ok(g, start, all, walk, i),
                    subtree == walk[k as int],
                decreases frames@.len() - k,
            {
                proof {
                    assert(level_ok(g, start, all, walk, k as int));
                    assert(frames@[k as int] == all[k as int]);
                }
                match self.load(&subtree)? {
                    Node::Branch { left, right, .. } => {
                        subtree = if frames[k].right { right } else { left };
                    },
                    Node::Leaf(..) => return Err(Error::Corrupt),
                }
                k = k + 1;
            }
            let leaf_node = Node::Leaf(path.to_owned(), entry);
            let leaf = self.store(leaf_node)?;
            let ghost fresh1 = self.fresh();
            proof {
                if path_ok(pb) {
                    lemma_leaf_finds(g, self.fresh(), leaf, Some(split), pb, entry);
                    lemma_holds_leaf(g, self.fresh(), leaf, Some(split), pb, entry);
                }
            }
            let goes_right = path_bit(path, split);
            let (left, right) = if goes_right { (subtree, leaf) } else { (leaf, subtree) };
            let branch = self.store(Node::Branch { bit: split, left, right })?;
            proof {
                if path_ok(pb) {
                    lemma_branch_finds(g, self.fresh(), branch, top_bit(frames@), pb, entry, split, left, right);
                }
                if law {
                    assert(frames@.len() > 0 ==> frames@.last().bit < split);
                    assert forall|i: int| 0 <= i < kept implies #[trigger] all[i].bit < split by {
                        assert(all[i] == frames@[i]);
                        if i < kept - 1 {
                            assert(frames@[i].bit < frames@[kept - 1].bit);
                        }
                    }
                    assert(top_bit(frames@) == prev_of(all, kept));
                    lemma_in_all(g, start, all, walk, kept, ex);
                    let m = below(g, start, all, walk, kept);
                    let top_of: u32 = if kept < d { all[kept].bit } else { (split + 1) as u32 };
                    if kept < d {
                        assert(level_ok(g, start, all, walk, kept));
                        assert(contents(g, start, walk[kept], prev_of(all, kept)) is Some);
                        lemma_level(g, start, all, walk, kept);
                        lemma_in_all(g, start, all, walk, kept + 1, ex);
                        let sib = contents(g, start, all[kept].sibling, Some(all[kept].bit))->0;
                        let nxt = below(g, start, all, walk, kept + 1);
                        if all[kept].right {
                            lemma_splits_agree(sib, nxt, all[kept].bit, ex);
                            assert(spec_path_bit(ex, all[kept].bit));
                        } else {
                            lemma_splits_agree(nxt, sib, all[kept].bit, ex);
                            assert(!spec_path_bit(ex, all[kept].bit));
                        }
                        assert(all[kept].right == spec_path_bit(pb, all[kept].bit)) by {
                            assert(all[kept] == all[kept]);
                        }
                        assert(all[kept].bit != split);
                    } else {
                        assert(m =~= Map::empty().insert(ex, m[ex]));
                        assert(agrees(m, ex, top_of));
                    }
                    lemma_contents_prev(g, start, walk[kept], prev_of(all, kept), Some(split));
                    lemma_holds_from(g, start, subtree, Some(split));
                    lemma_holds_grow(g, start, fresh1.drop_last(), subtree, Some(split), m);
                    assert(fresh1.drop_last() == start);
                    lemma_holds_grow(g, start, fresh1, subtree, Some(split), m);
                    lemma_split_leaf(m, ex, pb, entry, split, top_of);
                    lemma_holds_branch(g, self.fresh(), branch, top_bit(frames@), split, left, right,
                        if goes_right { m } else { Map::empty().insert(pb, entry) },
                        if goes_right { Map::empty().insert(pb, entry) } else { m });
                }
            }
            branch
        };
        let mut next = next;
        while frames.len() > 0
            invariant
                self.graph_view() == old(self).graph_view(),
                old(self).tracks() ==> self.tracks(),
                g == old(self).graph_view(),
                root is Some,
                pb == path.spec_bytes(),
                old(self).fresh().is_prefix_of(self.fresh()),
                start == old(self).fresh(),
                forall|i: int| 0 <= i < frames@.len() ==> #[trigger] frames@[i].bit <= MAX_BIT,
                forall|i: int| 0 <= i < frames@.len() ==> #[trigger] frames@[i].right == spec_path_bit(pb, frames@[i].bit),
                forall|i: int, j: int| 0 <= i < j < frames@.len() ==> frames@[i].bit < frames@[j].bit,
                value matches Some(e) ==> (path_ok(pb) ==> finds(g, self.fresh(), next, top_bit(frames@), pb, e)),
                frames@.len() <= all.len(),
                frames@ == all.take(frames@.len() as int),
                walk.len() == all.len() + 1,
                walk[0] == top,
                forall|i: int| 0 <= i < all.len() ==> #[trigger] level_ok(g, start, all, walk, i),
                wf ==> forall|i: int| 0 <= i <= all.len() ==> #[trigger] contents(g, start, walk[i], prev_of(all, i)) is Some,
                law ==> holds(g, self.fresh(), next, prev_of(all, frames@.len() as int), rebind(below(g, start, all, walk, frames@.len() as int), pb, value)),
                law ==> below(g, start, all, walk, frames@.len() as int).contains_key(ex),
                law && value is Some ==> (forall|i: int| 0 <= i < frames@.len() ==> #[trigger] all[i].bit < limit),
                law && value is Some ==> (forall|c: u32| c < limit ==> #[trigger] spec_path_bit(pb, c) == spec_path_bit(ex, c)),
                law == (wf && (value is Some ==> path_ok(pb))),
                wf == (contents(g, start, top, None) is Some),
            decreases frames@.len(),
        {
            let ghost before = frames@;
            let frame = frames.pop().unwrap();
            proof {
                assert(frame == before.last());
                assert(frames@ == before.drop_last());
                if frames@.len() > 0 {
                    assert(frames@.last() == before[before.len() - 2]);
                }
            }
            let (left, right) = if frame.right { (frame.sibling, next) } else { (next, frame.sibling) };
            let ghost prior = self.fresh();
            next = self.store(Node::Branch { bit: frame.bit, left, right })?;
            proof {
                lemma_prefix_push(prior, blob(spec_node(NodeView::Branch { bit: frame.bit, left, right })), self.fresh());
                assert(self.fresh().drop_last() == prior);
                if let Some(e) = value {
                    if path_ok(pb) {
                        lemma_branch_finds(g, self.fresh(), next, top_bit(frames@), pb, e, frame.bit, left, right);
                    }
                }
                assert(old(self).fresh().is_prefix_of(self.fresh())) by {
                    assert forall|i: int| 0 <= i < old(self).fresh().len() implies old(self).fresh()[i] == self.fresh()[i] by {
                        assert(old(self).fresh()[i] == prior[i]);
                    }
                }
                let k = before.len() as int;
                assert(frames@ == all.take(k - 1));
                if law {
                    let i = k - 1;
                    assert(frame == all[i]);
                    assert(level_ok(g, start, all, walk, i));
                    assert(contents(g, start, walk[i], prev_of(all, i)) is Some);
                    lemma_level(g, start, all, walk, i);
                    let sib = contents(g, start, frame.sibling, Some(frame.bit))->0;
                    let nxt = below(g, start, all, walk, k);
                    let u = below(g, start, all, walk, i);
                    assert(u.contains_key(ex));
                    if frame.right {
                        if value is Some {
                            lemma_splits_agree(sib, nxt, frame.bit, ex);
                            lemma_agrees_through(u, ex, pb, frame.bit, limit);
                        }
                        lemma_rebind_side(sib, nxt, frame.bit, pb, value);
                    } else {
                        if value is Some {
                            lemma_splits_agree(nxt, sib, frame.bit, ex);
                            lemma_agrees_through(u, ex, pb, frame.bit, limit);
                        }
                        lemma_rebind_side(nxt, sib, frame.bit, pb, value);
                    }
                    lemma_holds_from(g, start, frame.sibling, Some(frame.bit));
                    lemma_holds_grow(g, start, prior, frame.sibling, Some(frame.bit), sib);
                    assert(prev_of(all, k) == Some(frame.bit));
                    assert(top_bit(frames@) == prev_of(all, i));
                    if frame.right {
                        lemma_holds_branch(g, self.fresh(), next, prev_of(all, i), frame.bit, left, right, sib, rebind(nxt, pb, value));
                    } else {
                        lemma_holds_branch(g, self.fresh(), next, prev_of(all, i), frame.bit, left, right, rebind(nxt, pb, value), sib);
                    }
                }
            }
        }
        proof {
            if let Some(e) = value {
                if path_ok(pb) && consistent(self.fresh()) {
                    assert(self.fresh().is_prefix_of(self.fresh()));
                }
            }
            if law && coherent(g, self.fresh()) {
                assert(self.fresh().is_prefix_of(self.fresh()));
                assert(prev_of(all, 0) is None);
            }
        }
        Ok(Some(next))
    }
}

impl<'a> Tree<'a> {
    /// List the entries below `root` in tree order, starting after the leaf
    /// of path `after`, at most `limit` of them; `next` names the last one
    /// returned where more follow.
    #[verifier::rlimit(40)]
    pub fn list(&self, root: Option<Particle>, after: Option<&str>, limit: usize) -> (r: Result<Page, Error>)
        ensures
            root is None ==> match after {
                Some(_) => r matches Err(Error::InvalidCursor),
                None => r matches Ok(p) && p.entries@.len() == 0 && p.next is None,
            },
            r matches Ok(p) ==> p.entries@.len() <= limit,
            r matches Ok(p) ==> (p.next matches Some(n) ==> p.entries@.len() == limit && limit > 0 && n@ == p.entries@.last().0@),
            tree_contents(self.graph_view(), self.fresh(), root) is Some ==> match listed(self.graph_view(), self.fresh(), root, cursor(after), limit) {
                Some(page) => r matches Ok(p) && page_view(p) == page,
                None => r matches Err(Error::InvalidCursor),
            },
    {
        let top = match root {
            Some(id) => id,
            None => {
                return match after {
                    Some(_) => Err(Error::InvalidCursor),
                    None => Ok(Page { entries: Vec::new(), next: None }),
                };
            },
        };
        let ghost g = self.graph_view();
        let ghost f = self.fresh();
        let ghost wf = contents(g, f, top, None) is Some;
        let ghost mut target: Seq<(Seq<u8>, Entry)> = Seq::empty();
        let mut pending: Vec<(Particle, Option<u32>)> = Vec::new();
        match after {
            Some(path) => {
                let ghost a = path.spec_bytes();
                let mut id = top;
                let mut previous: Option<u32> = None;
                proof {
                    assert(leaves_after(g, f, top, None, a) + pending_leaves(g, f, pending@) =~= leaves_after(g, f, top, None, a));
                }
                loop
                    invariant
                        root == Some(top),
                        after == Some(path),
                        g == self.graph_view(),
                        f == self.fresh(),
                        wf == (contents(g, f, top, None) is Some),
                        a == path.spec_bytes(),
                        previous matches Some(p) ==> p <= MAX_BIT,
                        wf ==> contents(g, f, id, previous) is Some,
                        wf ==> forall|i: int| 0 <= i < pending@.len() ==> #[trigger] contents(g, f, pending@[i].0, pending@[i].1) is Some
                            && (pending@[i].1 matches Some(p) ==> p <= MAX_BIT),
                        wf ==> leaves_after(g, f, top, None, a) == leaves_after(g, f, id, previous, a) + pending_leaves(g, f, pending@),
                        get_walk(g, f, id, previous, a) == get_walk(g, f, top, None, a),
                    ensures
                        wf ==> pending_leaves(g, f, pending@) == leaves_after(g, f, top, None, a)
                            && contents(g, f, top, None)->0.contains_key(a),
                    decreases depth(previous),
                {
                    match self.load(&id)? {
                        Node::Leaf(key, _) => {
                            let k = key.as_str();
                            proof {
                                assert(encode_key(key@) == k.spec_bytes());
                                if wf {
                                    lemma_get_contents(g, f, top, None, a);
                                }
                            }
                            if !crate::wire::bytes_eq(k.as_bytes(), path.as_bytes()) {
                                return Err(Error::InvalidCursor);
                            }
                            proof {
                                if wf {
                                    assert(leaves_after(g, f, id, previous, a) =~= Seq::empty());
                                    assert(leaves_after(g, f, top, None, a) =~= pending_leaves(g, f, pending@));
                                }
                            }
                            break;
                        },
                        Node::Branch { bit, left, right } => {
                            increasing(previous, bit)?;
                            if bit > MAX_BIT {
                                return Err(Error::Corrupt);
                            }
                            let ghost before = pending@;
                            let ghost prev0 = previous;
                            let ghost id0 = id;
                            previous = Some(bit);
                            if path_bit(path, bit) {
                                id = right;
                            } else {
                                pending.push((right, Some(bit)));
                                id = left;
                            }
                            proof {
                                if wf {
                                    assert(contents(g, f, id0, prev0) is Some);
                                    if !spec_path_bit(a, bit) {
                                        assert(pending@.drop_last() == before);
                                        assert(pending_leaves(g, f, pending@) == leaves(g, f, right, Some(bit)) + pending_leaves(g, f, before));
                                        assert(leaves_after(g, f, id0, prev0, a) == leaves_after(g, f, left, Some(bit), a) + leaves(g, f, right, Some(bit)));
                                        assert(leaves_after(g, f, top, None, a) =~= leaves_after(g, f, id, previous, a) + pending_leaves(g, f, pending@));
                                        assert forall|i: int| 0 <= i < pending@.len() implies #[trigger] contents(g, f, pending@[i].0, pending@[i].1) is Some
                                            && (pending@[i].1 matches Some(p) ==> p <= MAX_BIT) by {
                                            if i < before.len() {
                                                assert(pending@[i] == before[i]);
                                            }
                                        }
                                    }
                                }
                            }
                        },
                    }
                }
                proof {
                    if wf {
                        target = leaves_after(g, f, top, None, a);
                    }
                }
            },
            None => {
                pending.push((top, None));
                proof {
                    if wf {
                        target = leaves(g, f, top, None);
                        assert(pending@.drop_last() =~= Seq::<(Particle, Option<u32>)>::empty());
                        assert(pending_leaves(g, f, Seq::<(Particle, Option<u32>)>::empty()) =~= Seq::empty());
                        assert(pending_leaves(g, f, pending@) =~= leaves(g, f, top, None));
                    }
                }
            },
        }
        let mut entries: Vec<(String, Entry)> = Vec::new();
        proof {
            assert(entry_views(entries@) =~= Seq::<(Seq<u8>, Entry)>::empty());
            if wf {
                assert(entry_views(entries@) + pending_leaves(g, f, pending@) =~= target);
            }
        }
        while pending.len() > 0
            invariant
                root is Some,
                g == self.graph_view(),
                f == self.fresh(),
                wf == (contents(g, f, top, None) is Some),
                root == Some(top),
                wf ==> match after {
                    None => target == leaves(g, f, top, None),
                    Some(p) => target == leaves_after(g, f, top, None, p.spec_bytes())
                        && contents(g, f, top, None)->0.contains_key(p.spec_bytes()),
                },
                entries@.len() <= limit,
                wf ==> forall|i: int| 0 <= i < pending@.len() ==> #[trigger] contents(g, f, pending@[i].0, pending@[i].1) is Some
                    && (pending@[i].1 matches Some(p) ==> p <= MAX_BIT),
                wf ==> entry_views(entries@) + pending_leaves(g, f, pending@) == target,
            decreases limit - entries@.len(),
        {
            let ghost e0 = entries@.len();
            let ghost before = pending@;
            let (first, first_prev) = pending.pop().unwrap();
            proof {
                assert(pending@ == before.drop_last());
                assert((first, first_prev) == before.last());
                if wf {
                    assert(contents(g, f, before[before.len() - 1].0, before[before.len() - 1].1) is Some);
                    assert(entry_views(entries@) + leaves(g, f, first, first_prev) + pending_leaves(g, f, pending@) =~= target);
                    assert forall|i: int| 0 <= i < pending@.len() implies #[trigger] contents(g, f, pending@[i].0, pending@[i].1) is Some
                        && (pending@[i].1 matches Some(p) ==> p <= MAX_BIT) by {
                        assert(pending@[i] == before[i]);
                    }
                }
            }
            let mut id = first;
            let mut previous = first_prev;
            if previous matches Some(p) && p > MAX_BIT {
                return Err(Error::Corrupt);
            }
            loop
                invariant_except_break
                    entries@.len() == e0,
                    wf ==> entry_views(entries@) + leaves(g, f, id, previous) + pending_leaves(g, f, pending@) == target,
                invariant
                    root is Some,
                    g == self.graph_view(),
                    f == self.fresh(),
                    wf == (contents(g, f, top, None) is Some),
                    root == Some(top),
                    wf ==> match after {
                        None => target == leaves(g, f, top, None),
                        Some(p) => target == leaves_after(g, f, top, None, p.spec_bytes())
                            && contents(g, f, top, None)->0.contains_key(p.spec_bytes()),
                    },
                    previous matches Some(p) ==> p <= MAX_BIT,
                    e0 <= limit,
                    wf ==> contents(g, f, id, previous) is Some,
                    wf ==> forall|i: int| 0 <= i < pending@.len() ==> #[trigger] contents(g, f, pending@[i].0, pending@[i].1) is Some
                        && (pending@[i].1 matches Some(p) ==> p <= MAX_BIT),
                ensures
                    entries@.len() == e0 + 1,
                    e0 < limit,
                    wf ==> entry_views(entries@) + pending_leaves(g, f, pending@) == target,
                decreases depth(previous),
            {
                match self.load(&id)? {
                    Node::Leaf(path, entry) => {
                        if entries.len() == limit {
                            let next = match entries.last() {
                                Some(last) => Some(last.0.clone()),
                                None => None,
                            };
                            let page = Page { next, entries };
                            proof {
                                if wf {
                                    let t = target;
                                    assert(leaves(g, f, id, previous) =~= seq![(encode_key(path@), entry)]);
                                    assert(t.len() > limit);
                                    assert(t.take(limit as int) =~= entry_views(page.entries@)) by {
                                        assert forall|i: int| 0 <= i < limit implies t[i] == entry_views(page.entries@)[i] by {
                                            assert((entry_views(page.entries@) + leaves(g, f, id, previous) + pending_leaves(g, f, pending@))[i] == t[i]);
                                        }
                                    }
                                    if limit > 0 {
                                        assert(t[limit - 1] == entry_views(page.entries@)[limit - 1]);
                                    }
                                    assert(page_view(page) == page_of(t, limit));
                                }
                            }
                            return Ok(page);
                        }
                        let ghost ev0 = entry_views(entries@);
                        entries.push((path, entry));
                        proof {
                            assert(entry_views(entries@) =~= ev0.push((encode_key(path@), entry)));
                            if wf {
                                assert(leaves(g, f, id, previous) =~= seq![(encode_key(path@), entry)]);
                                assert(entry_views(entries@) + pending_leaves(g, f, pending@) =~= target) by {
                                    assert(ev0 + leaves(g, f, id, previous) =~= entry_views(entries@));
                                }
                            }
                        }
                        break;
                    },
                    Node::Branch { bit, left, right } => {
                        increasing(previous, bit)?;
                        if bit > MAX_BIT {
                            return Err(Error::Corrupt);
                        }
                        let ghost before2 = pending@;
                        let ghost id0 = id;
                        let ghost prev0 = previous;
                        previous = Some(bit);
                        pending.push((right, previous));
                        id = left;
                        proof {
                            assert(pending@.drop_last() == before2);
                            if wf {
                                assert(contents(g, f, id0, prev0) is Some);
                                assert(leaves(g, f, id0, prev0) == leaves(g, f, left, Some(bit)) + leaves(g, f, right, Some(bit)));
                                assert(pending_leaves(g, f, pending@) == leaves(g, f, right, Some(bit)) + pending_leaves(g, f, before2));
                                assert(entry_views(entries@) + leaves(g, f, id, previous) + pending_leaves(g, f, pending@) =~= target);
                                assert forall|i: int| 0 <= i < pending@.len() implies #[trigger] contents(g, f, pending@[i].0, pending@[i].1) is Some
                                    && (pending@[i].1 matches Some(p) ==> p <= MAX_BIT) by {
                                    if i < before2.len() {
                                        assert(pending@[i] == before2[i]);
                                    }
                                }
                            }
                        }
                    },
                }
            }
        }
        let page = Page { entries, next: None };
        proof {
            if wf {
                assert(pending_leaves(g, f, pending@) =~= Seq::<(Seq<u8>, Entry)>::empty());
                assert(entry_views(page.entries@) =~= target);
            }
        }
        Ok(page)
    }
}

impl<'a> Tree<'a> {
    /// The stored nodes, in order, and the particles they refer to.
    pub fn into_parts(self) -> (r: (Vec<Content>, Vec<Particle>))
        ensures
            content_views(r.0@) == self.fresh(),
            forall|p: Particle| #[trigger] r.1@.contains(p) <==> self.requires_view().contains_key(p),
            self.tracks() ==> forall|p: Particle| #[trigger] r.1@.contains(p) <==> branch_refs(self.fresh()).contains(p),
    {
        let entries = self.required.entries();
        let mut required: Vec<Particle> = Vec::new();
        let mut i: usize = 0;
        while i < entries.len()
            invariant
                i <= entries@.len(),
                crate::keyed::distinct(entries@),
                crate::keyed::as_map(entries@) == self.required@,
                required@ == entries@.take(i as int).map_values(|e: (Particle, ())| e.0),
            decreases entries@.len() - i,
        {
            required.push(entries[i].0);
            proof {
                assert(required@ =~= entries@.take(i + 1).map_values(|e: (Particle, ())| e.0));
            }
            i = i + 1;
        }
        proof {
            crate::keyed::lemma_as_map(entries@);
            assert(entries@.take(entries@.len() as int) =~= entries@);
            assert forall|p: Particle| #[trigger] required@.contains(p) <==> self.required@.contains_key(p) by {
                if required@.contains(p) {
                    let j = choose|j: int| 0 <= j < required@.len() && required@[j] == p;
                    assert(entries@[j].0 == p);
                }
                if self.required@.contains_key(p) {
                    let j = choose|j: int| 0 <= j < entries@.len() && entries@[j].0 == p;
                    assert(required@[j] == p);
                }
            }
        }
        (self.content, required)
    }
}

/// The UTF-8 bytes of a text.
pub open spec fn encode_key(s: Seq<char>) -> Seq<u8> {
    vstd::utf8::encode_utf8(s)
}

} // verus!
