//! The catalog's content records: tree nodes, namespace states and change
//! events, each a blob under its own domain prefix.
use vstd::prelude::*;
use vstd::string::StringSliceAdditionalSpecFns;
use vstd::utf8::{encode_utf8, valid_utf8};
use crate::application::Head;
use crate::content::{Codec, Content, ContentView, spec_content};
use crate::hash::hemera_hash;
use crate::wire::{append, be32, be64, bytes_eq, get_u32_be, get_u64_be, lemma_int_codecs, put_u32_be, put_u64_be, to_array};
use crate::Particle;
use super::{path_ok, valid_path, Change, Entry, Error, MAX_PATH_BYTES};

verus! {

/// `cybergraph/catalog/node` and a zero byte.
pub open spec fn node_domain() -> Seq<u8> {
    seq![99u8, 121, 98, 101, 114, 103, 114, 97, 112, 104, 47, 99, 97, 116, 97, 108, 111, 103, 47, 110, 111, 100, 101, 0]
}

/// `cybergraph/catalog/state` and a zero byte.
pub open spec fn state_domain() -> Seq<u8> {
    seq![99u8, 121, 98, 101, 114, 103, 114, 97, 112, 104, 47, 99, 97, 116, 97, 108, 111, 103, 47, 115, 116, 97, 116, 101, 0]
}

/// `cybergraph/catalog/change` and a zero byte.
pub open spec fn event_domain() -> Seq<u8> {
    seq![99u8, 121, 98, 101, 114, 103, 114, 97, 112, 104, 47, 99, 97, 116, 97, 108, 111, 103, 47, 99, 104, 97, 110, 103, 101, 0]
}

fn node_domain_bytes() -> (d: [u8; 24])
    ensures
        d@ == node_domain(),
{
    let d: [u8; 24] = [99, 121, 98, 101, 114, 103, 114, 97, 112, 104, 47, 99, 97, 116, 97, 108, 111, 103, 47, 110, 111, 100, 101, 0];
    assert(d@ =~= node_domain());
    d
}

fn state_domain_bytes() -> (d: [u8; 25])
    ensures
        d@ == state_domain(),
{
    let d: [u8; 25] = [99, 121, 98, 101, 114, 103, 114, 97, 112, 104, 47, 99, 97, 116, 97, 108, 111, 103, 47, 115, 116, 97, 116, 101, 0];
    assert(d@ =~= state_domain());
    d
}

fn event_domain_bytes() -> (d: [u8; 26])
    ensures
        d@ == event_domain(),
{
    let d: [u8; 26] = [99, 121, 98, 101, 114, 103, 114, 97, 112, 104, 47, 99, 97, 116, 97, 108, 111, 103, 47, 99, 104, 97, 110, 103, 101, 0];
    assert(d@ =~= event_domain());
    d
}

/// Most path bits a branch may test: nine per path byte.
pub const MAX_BIT: u32 = 36864;

/// A node of the name tree: a leaf binding a path to an entry, or a branch
/// that sends paths with `bit` clear left and set right.
#[derive(Debug)]
pub enum Node {
    Leaf(String, Entry),
    Branch { bit: u32, left: Particle, right: Particle },
}

/// The mathematical value of a node, a leaf's path by its UTF-8 bytes.
pub ghost enum NodeView {
    Leaf(Seq<u8>, Entry),
    Branch { bit: u32, left: Particle, right: Particle },
}

impl View for Node {
    type V = NodeView;

    open spec fn view(&self) -> NodeView {
        match self {
            Node::Leaf(p, e) => NodeView::Leaf(encode_utf8(p@), *e),
            Node::Branch { bit, left, right } => NodeView::Branch { bit: *bit, left: *left, right: *right },
        }
    }
}

/// A text framed by its big-endian `u32` byte length.
pub open spec fn spec_string(t: Seq<u8>) -> Seq<u8> {
    be32(t.len() as u32) + t
}

/// An entry's three particles in order.
pub open spec fn spec_binding(e: Entry) -> Seq<u8> {
    e.binding@ + e.particle@ + e.revision@
}

/// The canonical bytes of a node.
pub open spec fn spec_node(n: NodeView) -> Seq<u8> {
    node_domain() + match n {
        NodeView::Leaf(p, e) => seq![0u8] + spec_string(p) + spec_binding(e),
        NodeView::Branch { bit, left, right } => seq![1u8] + be32(bit) + left@ + right@,
    }
}

/// The bounds a stored node keeps: a leaf's path is valid UTF-8 and a
/// valid path; a branch tests a bit within the longest path.
pub open spec fn node_ok(n: NodeView) -> bool {
    match n {
        NodeView::Leaf(p, _) => valid_utf8(p) && p.len() <= MAX_PATH_BYTES && path_ok(p),
        NodeView::Branch { bit, .. } => bit <= MAX_BIT,
    }
}

/// Blob bytes that decode to a node.
pub open spec fn is_node(b: Seq<u8>) -> bool {
    exists|n: NodeView| spec_node(n) == b && node_ok(n)
}

/// The blob content of some bytes.
pub open spec fn blob(b: Seq<u8>) -> ContentView {
    ContentView { id: hemera_hash(b), codec: Codec::Blob, bytes: b }
}

fn blob_content(bytes: Vec<u8>) -> (r: Result<Content, Error>)
    requires
        bytes@.len() <= crate::content::MAX_CONTENT_BYTES,
    ensures
        r matches Ok(c) && c@ == blob(bytes@),
{
    match Content::new(Codec::Blob, bytes) {
        Ok(c) => Ok(c),
        Err(e) => Err(Error::Content(e)),
    }
}

/// Appends a text framed by its length.
pub fn string(bytes: &mut Vec<u8>, text: &str)
    requires
        text.spec_bytes().len() <= MAX_PATH_BYTES,
    ensures
        final(bytes)@ == old(bytes)@ + spec_string(text.spec_bytes()),
{
    let t = text.as_bytes();
    put_u32_be(bytes, t.len() as u32);
    append(bytes, t);
    assert(final(bytes)@ =~= old(bytes)@ + spec_string(text.spec_bytes()));
}

/// Appends an entry's three particles.
pub fn binding(bytes: &mut Vec<u8>, entry: Entry)
    ensures
        final(bytes)@ == old(bytes)@ + spec_binding(entry),
{
    append(bytes, &entry.binding);
    append(bytes, &entry.particle);
    append(bytes, &entry.revision);
    assert(final(bytes)@ =~= old(bytes)@ + spec_binding(entry));
}

/// The previous head a record refers to: a flag, then its index and commit.
pub open spec fn spec_prior(h: Option<Head>) -> Seq<u8> {
    match h {
        Some(h) => seq![1u8] + be64(h.index) + h.commit@,
        None => seq![0u8],
    }
}

/// Appends the previous head.
pub fn prior(bytes: &mut Vec<u8>, head: Option<Head>)
    ensures
        final(bytes)@ == old(bytes)@ + spec_prior(head),
{
    match head {
        Some(h) => {
            bytes.push(1);
            put_u64_be(bytes, h.index);
            append(bytes, &h.commit);
        },
        None => bytes.push(0),
    }
    assert(final(bytes)@ =~= old(bytes)@ + spec_prior(head));
}

/// The blob of a node.
pub fn node(value: &Node) -> (r: Result<Content, Error>)
    requires
        value@ matches NodeView::Leaf(p, _) ==> p.len() <= MAX_PATH_BYTES,
    ensures
        r matches Ok(c) && c@ == blob(spec_node(value@)),
{
    let d = node_domain_bytes();
    let mut bytes: Vec<u8> = Vec::new();
    append(&mut bytes, d.as_slice());
    match value {
        Node::Leaf(path, entry) => {
            bytes.push(0);
            string(&mut bytes, path.as_str());
            binding(&mut bytes, *entry);
        },
        Node::Branch { bit, left, right } => {
            bytes.push(1);
            put_u32_be(&mut bytes, *bit);
            append(&mut bytes, left);
            append(&mut bytes, right);
        },
    }
    proof {
        lemma_int_codecs();
        assert(bytes@ =~= spec_node(value@));
    }
    blob_content(bytes)
}

/// A reader over a blob record after its domain prefix.
pub struct Input<'a> {
    bytes: &'a [u8],
    pos: usize,
}

impl<'a> Input<'a> {
    #[verifier::type_invariant]
    closed spec fn inside(self) -> bool {
        self.pos <= self.bytes@.len()
    }

    /// The record being read.
    pub closed spec fn data(&self) -> Seq<u8> {
        self.bytes@
    }

    /// The position of the next unread byte.
    pub closed spec fn at(&self) -> int {
        self.pos as int
    }

    /// A reader after `prefix`: the content must be a blob that starts with it.
    pub fn new(content: &'a Content, prefix: &[u8]) -> (r: Result<Self, Error>)
        ensures
            match r {
                Ok(i) => content@.codec == Codec::Blob && prefix@.len() <= content@.bytes.len()
                    && content@.bytes.subrange(0, prefix@.len() as int) == prefix@
                    && i.data() == content@.bytes && i.at() == prefix@.len(),
                Err(e) => e is Corrupt && !(content@.codec == Codec::Blob && prefix@.len() <= content@.bytes.len()
                    && content@.bytes.subrange(0, prefix@.len() as int) == prefix@),
            },
    {
        if content.codec() != Codec::Blob {
            return Err(Error::Corrupt);
        }
        let bytes = content.bytes();
        if prefix.len() > bytes.len() || !bytes_eq(vstd::slice::slice_subrange(bytes, 0, prefix.len()), prefix) {
            return Err(Error::Corrupt);
        }
        Ok(Input { bytes, pos: prefix.len() })
    }

    /// The next `n` bytes; an error when fewer remain.
    pub fn take(&mut self, n: usize) -> (r: Result<&'a [u8], Error>)
        ensures
            final(self).data() == old(self).data(),
            old(self).at() + n <= old(self).data().len() ==> {
                &&& r matches Ok(s)
                &&& s@ == old(self).data().subrange(old(self).at(), old(self).at() + n)
                &&& final(self).at() == old(self).at() + n
            },
            old(self).at() + n > old(self).data().len() ==> r matches Err(Error::Corrupt),
    {
        proof { use_type_invariant(&*self); }
        if n > self.bytes.len() - self.pos {
            return Err(Error::Corrupt);
        }
        let end = self.pos + n;
        let b = vstd::slice::slice_subrange(self.bytes, self.pos, end);
        self.pos = end;
        Ok(b)
    }

    /// The next `N` bytes as an array.
    pub fn array<const N: usize>(&mut self) -> (r: Result<[u8; N], Error>)
        ensures
            final(self).data() == old(self).data(),
            r is Ok <==> old(self).at() + N <= old(self).data().len(),
            r matches Ok(a) ==> a@ == old(self).data().subrange(old(self).at(), old(self).at() + N)
                && final(self).at() == old(self).at() + N,
            r matches Err(e) ==> e is Corrupt,
    {
        let s = self.take(N)?;
        match to_array(s) {
            Some(a) => Ok(a),
            None => Err(Error::Corrupt),
        }
    }

    /// The next byte.
    pub fn byte(&mut self) -> (r: Result<u8, Error>)
        ensures
            final(self).data() == old(self).data(),
            r is Ok <==> old(self).at() + 1 <= old(self).data().len(),
            r matches Ok(x) ==> x == old(self).data()[old(self).at()] && final(self).at() == old(self).at() + 1,
            r matches Err(e) ==> e is Corrupt,
    {
        let a: [u8; 1] = self.array()?;
        Ok(a[0])
    }

    /// Checks that every byte was read.
    pub fn end(self) -> (r: Result<(), Error>)
        ensures
            r is Ok <==> self.at() == self.data().len(),
            r matches Err(e) ==> e is Corrupt,
    {
        if self.pos != self.bytes.len() {
            return Err(Error::Corrupt);
        }
        Ok(())
    }
}

/// Decode a node blob.
pub fn read_node(content: &Content) -> (r: Result<Node, Error>)
    ensures
        r is Ok <==> content@.codec == Codec::Blob && is_node(content@.bytes),
        r matches Ok(n) ==> spec_node(n@) == content@.bytes && node_ok(n@),
        r matches Err(e) ==> e is Corrupt,
{
    let ghost b = content@.bytes;
    let ghost t = choose|n: NodeView| spec_node(n) == b && node_ok(n);
    let ghost found = content@.codec == Codec::Blob && is_node(b);
    proof {
        lemma_int_codecs();
        if found {
            assert(b.subrange(0, 24) =~= node_domain());
            match t {
                NodeView::Leaf(p, e) => {
                    let n: int = p.len() as int;
                    assert(b[24] == 0u8);
                    assert(b.subrange(25, 29) =~= be32(p.len() as u32));
                    assert(b.subrange(29, 29 + n) =~= p);
                    assert(b.subrange(29 + n, 61 + n) =~= e.binding@);
                    assert(b.subrange(61 + n, 93 + n) =~= e.particle@);
                    assert(b.subrange(93 + n, 125 + n) =~= e.revision@);
                    assert(b.len() == 125 + n);
                },
                NodeView::Branch { bit, left, right } => {
                    assert(b[24] == 1u8);
                    assert(b.subrange(25, 29) =~= be32(bit));
                    assert(b.subrange(29, 61) =~= left@);
                    assert(b.subrange(61, 93) =~= right@);
                    assert(b.len() == 93);
                },
            }
        }
    }
    let d = node_domain_bytes();
    let mut input = Input::new(content, d.as_slice())?;
    let tag = input.byte()?;
    if tag == 0 {
        let len_bytes: [u8; 4] = input.array()?;
        let length = get_u32_be(len_bytes.as_slice());
        let raw = input.take(length as usize)?;
        let text = match crate::strings::utf8(raw) {
            Some(s) => s,
            None => return Err(Error::Corrupt),
        };
        let path = text.to_owned();
        proof {
            assert(path@ == text@);
            assert(encode_utf8(path@) == text.spec_bytes());
        }
        match valid_path(path.as_str()) {
            Ok(()) => {},
            Err(_) => return Err(Error::Corrupt),
        }
        let binding: [u8; 32] = input.array()?;
        let particle: [u8; 32] = input.array()?;
        let revision: [u8; 32] = input.array()?;
        let at_end = input.end();
        if at_end.is_err() {
            return Err(Error::Corrupt);
        }
        let n = Node::Leaf(path, Entry { binding, particle, revision });
        proof {
            assert(b =~= spec_node(n@));
        }
        Ok(n)
    } else if tag == 1 {
        let bit_bytes: [u8; 4] = input.array()?;
        let bit = get_u32_be(bit_bytes.as_slice());
        if bit > MAX_BIT {
            return Err(Error::Corrupt);
        }
        let left: [u8; 32] = input.array()?;
        let right: [u8; 32] = input.array()?;
        let at_end = input.end();
        if at_end.is_err() {
            return Err(Error::Corrupt);
        }
        let n = Node::Branch { bit, left, right };
        proof {
            assert(b =~= spec_node(n@));
        }
        Ok(n)
    } else {
        Err(Error::Corrupt)
    }
}

/// How a root is recorded: a flag, then the root.
pub open spec fn spec_root(root: Option<Particle>) -> Seq<u8> {
    match root {
        Some(r) => seq![1u8] + r@,
        None => seq![0u8],
    }
}

/// The canonical bytes of a namespace state: its namespace and index, the
/// previous head, the change event, and the tree root.
pub open spec fn spec_state(namespace: Particle, index: u64, previous: Option<Head>, event: Particle, root: Option<Particle>) -> Seq<u8> {
    state_domain() + namespace@ + be64(index) + spec_prior(previous) + event@ + spec_root(root)
}

/// A state's previous head is absent exactly for the first state, and is
/// otherwise the state just before.
pub open spec fn prior_fits(index: u64, previous: Option<Head>) -> bool {
    match previous {
        None => index == 0,
        Some(h) => index > 0 && h.index == index - 1,
    }
}

/// Blob bytes that are the state of `namespace` at `index` with `root`.
pub open spec fn holds_state(b: Seq<u8>, namespace: Particle, index: u64, root: Option<Particle>) -> bool {
    exists|previous: Option<Head>, event: Particle| #[trigger] spec_state(namespace, index, previous, event, root) == b && prior_fits(index, previous)
}

/// The blob of a namespace state.
pub fn state(namespace: Particle, index: u64, previous: Option<Head>, event: Particle, root: Option<Particle>) -> (r: Result<Content, Error>)
    ensures
        r matches Ok(c) && c@ == blob(spec_state(namespace, index, previous, event, root)),
{
    let d = state_domain_bytes();
    let mut bytes: Vec<u8> = Vec::new();
    append(&mut bytes, d.as_slice());
    append(&mut bytes, &namespace);
    put_u64_be(&mut bytes, index);
    prior(&mut bytes, previous);
    append(&mut bytes, &event);
    match root {
        Some(id) => {
            bytes.push(1);
            append(&mut bytes, &id);
        },
        None => bytes.push(0),
    }
    proof {
        lemma_int_codecs();
        assert(bytes@ =~= spec_state(namespace, index, previous, event, root));
    }
    blob_content(bytes)
}

/// Read the tree root recorded by the state of `namespace` at `index`.
pub fn read_state(content: &Content, namespace: Particle, index: u64) -> (r: Result<Option<Particle>, Error>)
    ensures
        r matches Ok(root) ==> content@.codec == Codec::Blob && holds_state(content@.bytes, namespace, index, root),
        (content@.codec == Codec::Blob && exists|root: Option<Particle>| holds_state(content@.bytes, namespace, index, root)) ==> r is Ok,
        r matches Err(e) ==> e is Corrupt,
{
    let ghost b = content@.bytes;
    let ghost found = content@.codec == Codec::Blob && exists|root: Option<Particle>| holds_state(b, namespace, index, root);
    let ghost wr = choose|root: Option<Particle>| holds_state(b, namespace, index, root);
    let ghost w = choose|p: Option<Head>, ev: Particle| #[trigger] spec_state(namespace, index, p, ev, wr) == b && prior_fits(index, p);
    let ghost wp = w.0;
    let ghost we = w.1;
    let ghost after: int = if index == 0 { 66 } else { 106 };
    proof {
        lemma_int_codecs();
        if found {
            assert(spec_state(namespace, index, wp, we, wr) == b && prior_fits(index, wp));
            assert(b.subrange(0, 25) =~= state_domain());
            assert(b.subrange(25, 57) =~= namespace@);
            assert(b.subrange(57, 65) =~= be64(index));
            match wp {
                None => {
                    assert(b[65] == 0u8);
                },
                Some(h) => {
                    assert(b[65] == 1u8);
                    assert(b.subrange(66, 74) =~= be64(h.index));
                    assert(b.subrange(74, 106) =~= h.commit@);
                },
            }
            assert(b.subrange(after, after + 32) =~= we@);
            match wr {
                None => {
                    assert(b[after + 32] == 0u8);
                    assert(b.len() == after + 33);
                },
                Some(x) => {
                    assert(b[after + 32] == 1u8);
                    assert(b.subrange(after + 33, after + 65) =~= x@);
                    assert(b.len() == after + 65);
                },
            }
        }
    }
    let d = state_domain_bytes();
    let mut input = Input::new(content, d.as_slice())?;
    let ns: [u8; 32] = input.array()?;
    let ix: [u8; 8] = input.array()?;
    let got_index = get_u64_be(ix.as_slice());
    if !crate::content::particle_eq(&ns, &namespace) || got_index != index {
        return Err(Error::Corrupt);
    }
    let flag = input.byte()?;
    let previous: Option<Head> = if flag == 0 && index == 0 {
        None
    } else if flag == 1 && index > 0 {
        let prev: [u8; 8] = input.array()?;
        let p = get_u64_be(prev.as_slice());
        if p != index - 1 {
            return Err(Error::Corrupt);
        }
        let commit: [u8; 32] = input.array()?;
        Some(Head { index: p, commit })
    } else {
        return Err(Error::Corrupt);
    };
    let event: [u8; 32] = input.array()?;
    let tag = input.byte()?;
    let root = if tag == 0 {
        None
    } else if tag == 1 {
        let a: [u8; 32] = input.array()?;
        Some(a)
    } else {
        return Err(Error::Corrupt);
    };
    input.end()?;
    proof {
        assert(b =~= spec_state(namespace, index, previous, event, root));
        assert(prior_fits(index, previous));
        assert(holds_state(b, namespace, index, root));
    }
    Ok(root)
}

/// The mathematical value of a change, paths by their UTF-8 bytes.
pub ghost enum ChangeView {
    Create { path: Seq<u8>, particle: Particle },
    Edit { path: Seq<u8>, expected: Entry, particle: Particle },
    Rename { from: Seq<u8>, to: Seq<u8>, expected: Entry },
    Remove { path: Seq<u8>, expected: Entry },
}

impl<'a> View for Change<'a> {
    type V = ChangeView;

    open spec fn view(&self) -> ChangeView {
        match self {
            Change::Create { path, particle } => ChangeView::Create { path: path.spec_bytes(), particle: *particle },
            Change::Edit { path, expected, particle } => ChangeView::Edit { path: path.spec_bytes(), expected: *expected, particle: *particle },
            Change::Rename { from, to, expected } => ChangeView::Rename { from: from.spec_bytes(), to: to.spec_bytes(), expected: *expected },
            Change::Remove { path, expected } => ChangeView::Remove { path: path.spec_bytes(), expected: *expected },
        }
    }
}

/// The canonical bytes of a change: its kind, paths, expected entry and new
/// particle.
pub open spec fn spec_change(c: ChangeView) -> Seq<u8> {
    match c {
        ChangeView::Create { path, particle } => seq![0u8] + spec_string(path) + particle@,
        ChangeView::Edit { path, expected, particle } => seq![1u8] + spec_string(path) + spec_binding(expected) + particle@,
        ChangeView::Rename { from, to, expected } => seq![2u8] + spec_string(from) + spec_string(to) + spec_binding(expected),
        ChangeView::Remove { path, expected } => seq![3u8] + spec_string(path) + spec_binding(expected),
    }
}

/// The canonical bytes of a change event: namespace, request, the head it
/// expects, and the change.
pub open spec fn spec_event(namespace: Particle, request: Particle, expected: Option<Head>, c: ChangeView) -> Seq<u8> {
    event_domain() + namespace@ + request@ + spec_prior(expected) + spec_change(c)
}

/// A path's error, if it has one: too long, or malformed.
pub open spec fn path_error(p: Seq<u8>) -> Option<Error> {
    if p.len() > MAX_PATH_BYTES {
        Some(Error::Limit)
    } else if !path_ok(p) {
        Some(Error::InvalidPath)
    } else {
        None
    }
}

/// The first error among a change's paths, in order.
pub open spec fn change_error(c: ChangeView) -> Option<Error> {
    match c {
        ChangeView::Create { path, .. } => path_error(path),
        ChangeView::Edit { path, .. } => path_error(path),
        ChangeView::Rename { from, to, .. } => if path_error(from) is Some { path_error(from) } else { path_error(to) },
        ChangeView::Remove { path, .. } => path_error(path),
    }
}

fn checked_path(path: &str) -> (r: Result<(), Error>)
    ensures
        match path_error(path.spec_bytes()) {
            None => r is Ok,
            Some(Error::Limit) => r matches Err(Error::Limit),
            Some(_) => r matches Err(Error::InvalidPath),
        },
{
    valid_path(path)
}

/// The blob of a change event; a change with a bad path is refused.
pub fn event(namespace: Particle, request: Particle, expected: Option<Head>, change: Change) -> (r: Result<Content, Error>)
    ensures
        match change_error(change@) {
            None => r matches Ok(c) && c@ == blob(spec_event(namespace, request, expected, change@)),
            Some(Error::Limit) => r matches Err(Error::Limit),
            Some(_) => r matches Err(Error::InvalidPath),
        },
{
    let d = event_domain_bytes();
    let mut bytes: Vec<u8> = Vec::new();
    append(&mut bytes, d.as_slice());
    append(&mut bytes, &namespace);
    append(&mut bytes, &request);
    prior(&mut bytes, expected);
    match change {
        Change::Create { path, particle } => {
            checked_path(path)?;
            bytes.push(0);
            string(&mut bytes, path);
            append(&mut bytes, &particle);
        },
        Change::Edit { path, expected, particle } => {
            checked_path(path)?;
            bytes.push(1);
            string(&mut bytes, path);
            binding(&mut bytes, expected);
            append(&mut bytes, &particle);
        },
        Change::Rename { from, to, expected } => {
            checked_path(from)?;
            checked_path(to)?;
            bytes.push(2);
            string(&mut bytes, from);
            string(&mut bytes, to);
            binding(&mut bytes, expected);
        },
        Change::Remove { path, expected } => {
            checked_path(path)?;
            bytes.push(3);
            string(&mut bytes, path);
            binding(&mut bytes, expected);
        },
    }
    proof {
        lemma_int_codecs();
        assert(bytes@ =~= spec_event(namespace, request, expected, change@));
        assert(spec_prior(expected).len() <= 41);
        assert(spec_change(change@).len() <= 9000);
    }
    blob_content(bytes)
}

/// Nodes: the canonical bytes of a valid node decode, and only that node
/// encodes to them.
pub proof fn law_node_round_trip(n: NodeView, v: NodeView)
    requires
        node_ok(n),
    ensures
        is_node(spec_node(n)),
        spec_node(v) == spec_node(n) && node_ok(v) ==> v == n,
{
    lemma_int_codecs();
    let s = spec_node(n);
    let t = spec_node(v);
    if s == t && node_ok(v) {
        assert(s[24] == t[24]);
        match n {
            NodeView::Leaf(p, e) => {
                if let NodeView::Leaf(q, f) = v {
                    let a: int = p.len() as int;
                    let b: int = q.len() as int;
                    assert(s.subrange(25, 29) =~= be32(p.len() as u32));
                    assert(t.subrange(25, 29) =~= be32(q.len() as u32));
                    assert(a == b);
                    assert(s.subrange(29, 29 + a) =~= p);
                    assert(t.subrange(29, 29 + a) =~= q);
                    assert(s.subrange(29 + a, 61 + a) =~= e.binding@);
                    assert(t.subrange(29 + a, 61 + a) =~= f.binding@);
                    assert(s.subrange(61 + a, 93 + a) =~= e.particle@);
                    assert(t.subrange(61 + a, 93 + a) =~= f.particle@);
                    assert(s.subrange(93 + a, 125 + a) =~= e.revision@);
                    assert(t.subrange(93 + a, 125 + a) =~= f.revision@);
                    assert(e.binding@ =~= f.binding@ && e.particle@ =~= f.particle@ && e.revision@ =~= f.revision@);
                    assert(e.binding == f.binding && e.particle == f.particle && e.revision == f.revision);
                }
            },
            NodeView::Branch { bit, left, right } => {
                if let NodeView::Branch { bit: b2, left: l2, right: r2 } = v {
                    assert(s.subrange(25, 29) =~= be32(bit));
                    assert(t.subrange(25, 29) =~= be32(b2));
                    assert(s.subrange(29, 61) =~= left@);
                    assert(t.subrange(29, 61) =~= l2@);
                    assert(s.subrange(61, 93) =~= right@);
                    assert(t.subrange(61, 93) =~= r2@);
                    assert(left@ =~= l2@ && right@ =~= r2@);
                    assert(left == l2 && right == r2);
                }
            },
        }
    }
}

/// Branches: bytes that encode a branch encode no leaf, and no branch with
/// other children.
pub proof fn lemma_branch_bytes(m: NodeView, n: NodeView)
    requires
        spec_node(m) == spec_node(n),
        m is Branch,
    ensures
        n is Branch,
        n->left == m->left,
        n->right == m->right,
{
    lemma_int_codecs();
    let s = spec_node(m);
    let t = spec_node(n);
    assert(s[24] == 1u8);
    match n {
        NodeView::Leaf(p, e) => {
            assert(t[24] == 0u8);
        },
        NodeView::Branch { bit, left, right } => {
            if let NodeView::Branch { bit: b2, left: l2, right: r2 } = m {
                assert(s.subrange(29, 61) =~= l2@);
                assert(t.subrange(29, 61) =~= left@);
                assert(s.subrange(61, 93) =~= r2@);
                assert(t.subrange(61, 93) =~= right@);
                assert(left@ =~= l2@ && right@ =~= r2@);
                assert(left == l2 && right == r2);
            }
        },
    }
}

/// States: the canonical bytes of a state record give back its root.
pub proof fn law_state_round_trip(namespace: Particle, index: u64, previous: Option<Head>, event: Particle, root: Option<Particle>, other: Option<Particle>)
    requires
        prior_fits(index, previous),
    ensures
        holds_state(spec_state(namespace, index, previous, event, root), namespace, index, root),
        holds_state(spec_state(namespace, index, previous, event, root), namespace, index, other) ==> other == root,
{
    lemma_int_codecs();
    let s = spec_state(namespace, index, previous, event, root);
    assert(spec_state(namespace, index, previous, event, root) == s && prior_fits(index, previous));
    if holds_state(s, namespace, index, other) {
        let (p, ev) = choose|p: Option<Head>, ev: Particle| #[trigger] spec_state(namespace, index, p, ev, other) == s && prior_fits(index, p);
        let a: int = if index == 0 { 66 } else { 106 };
        let t = spec_state(namespace, index, p, ev, other);
        assert(spec_prior(previous).len() == spec_prior(p).len());
        assert(s.len() == t.len());
        match root {
            None => {
                assert(s[a + 32] == 0u8);
                if let Some(x) = other {
                    assert(t[a + 32] == 1u8);
                }
            },
            Some(x) => {
                assert(s[a + 32] == 1u8);
                match other {
                    None => {
                        assert(t[a + 32] == 0u8);
                    },
                    Some(y) => {
                        assert(s.subrange(a + 33, a + 65) =~= x@);
                        assert(t.subrange(a + 33, a + 65) =~= y@);
                        assert(x@ =~= y@);
                        assert(x == y);
                    },
                }
            },
        }
    }
}

} // verus!
