//! Application namespaces: their commit heads.
use vstd::prelude::*;
use vstd::string::StringSliceAdditionalSpecFns;
use crate::content::{particle_eq, Codec, Content, ContentView, MAX_CONTENT_BYTES};
use crate::hash::{hemera, hemera_hash};
use crate::wire::{append, byte_less, flat, le64, lemma_byte_less_asymmetric, lemma_byte_less_at, lemma_byte_less_total, lemma_byte_less_transitive, lemma_flat_step, put_u64_le};
use crate::Particle;

verus! {

/// The head of an application namespace: how many commits precede the
/// current one, and the particle of the current commit's state.
#[derive(Debug, Clone, Copy, PartialEq, Eq)]
pub struct Head {
    pub index: u64,
    pub commit: Particle,
}

/// The first content in a list with identity `id`.
pub open spec fn find_first(items: Seq<ContentView>, id: Seq<u8>) -> Option<ContentView>
    decreases items.len(),
{
    if items.len() == 0 {
        None
    } else if items[0].id == id {
        Some(items[0])
    } else {
        find_first(items.drop_first(), id)
    }
}

/// The last content in a list with identity `id`.
pub open spec fn find_last(items: Seq<ContentView>, id: Seq<u8>) -> Option<ContentView>
    decreases items.len(),
{
    if items.len() == 0 {
        None
    } else if items.last().id == id {
        Some(items.last())
    } else {
        find_last(items.drop_last(), id)
    }
}

/// The views of a list of contents.
pub open spec fn content_views(items: Seq<Content>) -> Seq<ContentView> {
    items.map_values(|c: Content| c@)
}

/// The contents of an application graph that a request reads.
pub struct ContentSet {
    items: Vec<Content>,
}

impl View for ContentSet {
    type V = Seq<ContentView>;

    closed spec fn view(&self) -> Seq<ContentView> {
        content_views(self.items@)
    }
}

impl ContentSet {
    /// A set holding `items`.
    pub fn new(items: Vec<Content>) -> (r: Self)
        ensures
            r@ == content_views(items@),
    {
        ContentSet { items }
    }

    /// The content with identity `id`, if the set holds one.
    pub fn get(&self, id: &Particle) -> (r: Option<Content>)
        ensures
            match find_first(self@, id@) {
                Some(v) => r matches Some(c) && c@ == v,
                None => r is None,
            },
    {
        let mut i: usize = 0;
        proof {
            assert(self@.skip(0) =~= self@);
        }
        while i < self.items.len()
            invariant
                i <= self.items@.len(),
                find_first(self@, id@) == find_first(self@.skip(i as int), id@),
            decreases self.items@.len() - i,
        {
            proof {
                assert(self@.skip(i as int).drop_first() =~= self@.skip(i + 1));
                assert(self@.skip(i as int)[0] == self.items@[i as int]@);
            }
            let c = &self.items[i];
            let cid = c.id();
            if particle_eq(&cid, id) {
                return Some(c.clone());
            }
            i = i + 1;
        }
        proof {
            assert(self@.skip(self.items@.len() as int) =~= Seq::<ContentView>::empty());
        }
        None
    }
}

/// Why an application commit is refused before it is written.
#[derive(Debug)]
pub enum Error {
    /// A content the commit needs is neither in it nor stored.
    MissingContent(Particle),
    /// The proposal breaks a limit or a rule of its shape.
    InvalidProposal,
    /// The request was already answered by a different transaction.
    Conflict,
}

/// Whether particle `a` comes before particle `b` in bytewise order.
pub fn particle_less(a: &Particle, b: &Particle) -> (r: bool)
    ensures
        r == byte_less(a@, b@),
{
    let mut i: usize = 0;
    while i < 32 && a[i] == b[i]
        invariant
            i <= 32,
            forall|j: int| 0 <= j < i ==> a@[j] == b@[j],
        decreases 32 - i,
    {
        i = i + 1;
    }
    if i == 32 {
        proof {
            assert(a@ =~= b@);
            lemma_byte_less_asymmetric(a@, b@);
        }
        false
    } else if a[i] < b[i] {
        proof {
            lemma_byte_less_at(a@, b@, i as int);
        }
        true
    } else {
        proof {
            lemma_byte_less_at(b@, a@, i as int);
            lemma_byte_less_asymmetric(b@, a@);
        }
        false
    }
}

/// The bytes a list of contents takes inline: each content's bytes and one
/// byte more.
pub open spec fn inline_bytes(cs: Seq<ContentView>) -> nat
    decreases cs.len(),
{
    if cs.len() == 0 { 0 } else { inline_bytes(cs.drop_last()) + cs.last().bytes.len() + 1 }
}

/// No two contents of a list share an identity.
pub open spec fn distinct_ids(cs: Seq<ContentView>) -> bool {
    forall|i: int, j: int| #![trigger cs[i], cs[j]] 0 <= i < cs.len() && 0 <= j < cs.len() && i != j ==> cs[i].id != cs[j].id
}

/// `order` lists positions of `cs` in strictly increasing order of identity,
/// every position once.
pub open spec fn orders(order: Seq<usize>, cs: Seq<ContentView>) -> bool {
    &&& order.len() == cs.len()
    &&& forall|i: int| 0 <= i < order.len() ==> #[trigger] order[i] < cs.len()
    &&& forall|i: int, j: int| #![trigger order[i], order[j]] 0 <= i < j < order.len() ==> byte_less(cs[order[i] as int].id, cs[order[j] as int].id)
}

/// Position `m` appears in `order`.
pub open spec fn placed(order: Seq<usize>, m: int) -> bool {
    exists|i: int| 0 <= i < order.len() && #[trigger] order[i] == m
}

proof fn lemma_inline_grows(cs: Seq<ContentView>, j: int)
    requires
        0 <= j <= cs.len(),
    ensures
        inline_bytes(cs.take(j)) <= inline_bytes(cs),
    decreases cs.len() - j,
{
    if j < cs.len() {
        assert(cs.take(j + 1).drop_last() =~= cs.take(j));
        lemma_inline_grows(cs, j + 1);
    } else {
        assert(cs.take(j) =~= cs);
    }
}

/// Check the inline contents of a proposal: their bytes, each with one more,
/// fit the content limit and no identity repeats. Returns the positions of
/// the contents in increasing order of identity.
pub fn content_order(content: &Vec<Content>) -> (r: Result<Vec<usize>, Error>)
    ensures
        r is Ok <==> inline_bytes(content_views(content@)) <= MAX_CONTENT_BYTES && distinct_ids(content_views(content@)),
        r matches Ok(order) ==> orders(order@, content_views(content@)),
        r matches Err(e) ==> e is InvalidProposal,
{
    let ghost cs = content_views(content@);
    let mut order: Vec<usize> = Vec::new();
    let mut bytes: usize = 0;
    let mut k: usize = 0;
    while k < content.len()
        invariant
            k <= content@.len(),
            cs == content_views(content@),
            bytes == inline_bytes(cs.take(k as int)),
            bytes <= MAX_CONTENT_BYTES,
            distinct_ids(cs.take(k as int)),
            order@.len() == k,
            forall|i: int| 0 <= i < order@.len() ==> #[trigger] order@[i] < k,
            forall|i: int, j: int| #![trigger order@[i], order@[j]] 0 <= i < j < order@.len() ==> byte_less(cs[order@[i] as int].id, cs[order@[j] as int].id),
            forall|m: int| 0 <= m < k ==> #[trigger] placed(order@, m),
        decreases content@.len() - k,
    {
        proof {
            assert(cs.take(k + 1).drop_last() =~= cs.take(k as int));
            assert(cs[k as int] == content@[k as int]@);
        }
        let len = content[k].bytes().len();
        let total = match bytes.checked_add(len) {
            Some(t) => match t.checked_add(1) {
                Some(t) => t,
                None => {
                    proof { lemma_inline_grows(cs, k + 1); }
                    return Err(Error::InvalidProposal);
                },
            },
            None => {
                proof { lemma_inline_grows(cs, k + 1); }
                return Err(Error::InvalidProposal);
            },
        };
        if total > MAX_CONTENT_BYTES {
            proof { lemma_inline_grows(cs, k + 1); }
            return Err(Error::InvalidProposal);
        }
        let id = content[k].id();
        let mut pos: usize = 0;
        while pos < order.len() && particle_less(&content[order[pos]].id(), &id)
            invariant
                pos <= order@.len(),
                k < content@.len(),
                cs == content_views(content@),
                id@ == cs[k as int].id,
                forall|i: int| 0 <= i < order@.len() ==> #[trigger] order@[i] < k,
                forall|q: int| 0 <= q < pos ==> byte_less(cs[#[trigger] order@[q] as int].id, id@),
            decreases order@.len() - pos,
        {
            proof {
                assert(cs[order@[pos as int] as int] == content@[order@[pos as int] as int]@);
            }
            pos = pos + 1;
        }
        if pos < order.len() {
            proof {
                assert(cs[order@[pos as int] as int] == content@[order@[pos as int] as int]@);
            }
            if particle_eq(&content[order[pos]].id(), &id) {
                proof {
                    let m = order@[pos as int] as int;
                    assert(cs[m].id == cs[k as int].id && m != k as int);
                    assert(!distinct_ids(cs));
                }
                return Err(Error::InvalidProposal);
            }
        }
        let ghost old_order = order@;
        proof {
            if pos < old_order.len() {
                let m = old_order[pos as int] as int;
                lemma_byte_less_total(cs[m].id, id@);
                assert forall|q: int| pos <= q < old_order.len() implies byte_less(id@, cs[#[trigger] old_order[q] as int].id) by {
                    if q > pos {
                        assert(byte_less(cs[old_order[pos as int] as int].id, cs[old_order[q] as int].id));
                        lemma_byte_less_transitive(id@, cs[m].id, cs[old_order[q] as int].id);
                    }
                }
            }
        }
        order.insert(pos, k);
        proof {
            assert(order@ == old_order.insert(pos as int, k));
            assert forall|i: int, j: int| #![trigger order@[i], order@[j]] 0 <= i < j < order@.len() implies byte_less(cs[order@[i] as int].id, cs[order@[j] as int].id) by {
                if i < pos && j < pos {
                    assert(order@[i] == old_order[i] && order@[j] == old_order[j]);
                } else if i < pos && j == pos {
                    assert(order@[i] == old_order[i]);
                } else if i < pos {
                    assert(order@[i] == old_order[i] && order@[j] == old_order[j - 1]);
                    assert(byte_less(cs[old_order[i] as int].id, id@));
                    assert(byte_less(id@, cs[old_order[j - 1] as int].id));
                    lemma_byte_less_transitive(cs[old_order[i] as int].id, id@, cs[old_order[j - 1] as int].id);
                } else if i == pos {
                    assert(order@[j] == old_order[j - 1]);
                } else {
                    assert(order@[i] == old_order[i - 1] && order@[j] == old_order[j - 1]);
                }
            }
            assert forall|m: int| 0 <= m < k + 1 implies #[trigger] placed(order@, m) by {
                if m == k {
                    assert(order@[pos as int] == m);
                } else {
                    assert(placed(old_order, m));
                    let i0 = choose|i: int| 0 <= i < old_order.len() && #[trigger] old_order[i] == m;
                    if i0 < pos {
                        assert(order@[i0] == m);
                    } else {
                        assert(order@[i0 + 1] == m);
                    }
                }
            }
            let t = cs.take(k + 1);
            assert forall|i: int, j: int| #![trigger t[i], t[j]] 0 <= i < t.len() && 0 <= j < t.len() && i != j implies t[i].id != t[j].id by {
                if i < k && j < k {
                    assert(cs.take(k as int)[i] == t[i] && cs.take(k as int)[j] == t[j]);
                } else {
                    let other = if i == k { j } else { i };
                    assert(placed(old_order, other));
                    let p = choose|p: int| 0 <= p < old_order.len() && #[trigger] old_order[p] == other;
                    lemma_byte_less_asymmetric(id@, cs[other].id);
                    if p < pos {
                        assert(byte_less(cs[other].id, id@));
                    } else {
                        assert(byte_less(id@, cs[other].id));
                    }
                    lemma_byte_less_asymmetric(cs[other].id, id@);
                }
            }
        }
        bytes = total;
        k = k + 1;
    }
    proof {
        assert(cs.take(content@.len() as int) =~= cs);
    }
    Ok(order)
}

/// Most inline contents, required particles or sealed files in one commit.
pub const MAX_COMMIT_ITEMS: usize = 131072;
/// Most claims in one commit.
pub const MAX_CLAIMS: usize = 4096;
/// Most source namespaces one migration merges.
pub const MAX_MIGRATION_SOURCES: usize = 256;

/// A transaction proposed for an application namespace: the request it
/// answers, the head it expects and the head it sets, the contents it
/// stores inline, the particles it refers to as data, and its claims.
pub struct Proposal {
    pub namespace: Particle,
    pub request: Particle,
    pub expected: Option<Head>,
    pub head: Head,
    pub content: Vec<Content>,
    /// Application references encoded as data, rather than structural children.
    pub required: Vec<Particle>,
    pub claims: Vec<(Particle, Particle)>,
}

/// A namespace migration: the manifest it follows and the heads of the
/// namespaces it merges, by namespace.
pub struct Migration {
    pub manifest: Particle,
    pub sources: Vec<(Particle, Head)>,
}

/// `cybergraph/application-transaction/1` and a zero byte.
pub open spec fn transaction_domain() -> Seq<u8> {
    "cybergraph/application-transaction/1\0".spec_bytes()
}

/// `cybergraph/application-files` and a zero byte.
pub open spec fn files_domain() -> Seq<u8> {
    "cybergraph/application-files\0".spec_bytes()
}

/// `cybergraph/namespace-migration/1` and a zero byte.
pub open spec fn migration_domain() -> Seq<u8> {
    "cybergraph/namespace-migration/1\0".spec_bytes()
}

/// The profile of sealed files: the hash of `cybergraph/blob/hemera-sponge`.
pub open spec fn blob_profile() -> Seq<u8> {
    hemera_hash("cybergraph/blob/hemera-sponge".spec_bytes())
}

/// Particles end to end.
pub open spec fn particle_bytes(ps: Seq<Particle>) -> Seq<u8> {
    flat(ps.map_values(|p: Particle| p@))
}

/// Claims end to end, each key then value.
pub open spec fn claim_bytes(cs: Seq<(Particle, Particle)>) -> Seq<u8> {
    flat(cs.map_values(|c: (Particle, Particle)| c.0@ + c.1@))
}

/// Migration sources end to end, each namespace, head index and commit.
pub open spec fn source_bytes(ss: Seq<(Particle, Head)>) -> Seq<u8> {
    flat(ss.map_values(|s: (Particle, Head)| s.0@ + le64(s.1.index) + s.1.commit@))
}

/// The identities of contents in the given order.
pub open spec fn ordered_ids(order: Seq<usize>, cs: Seq<ContentView>) -> Seq<Seq<u8>> {
    order.map_values(|i: usize| cs[i as int].id)
}

/// The bytes a transaction is fingerprinted by: its namespace, request,
/// expected and new heads, then the counted identities of its contents in
/// order, its required particles and its claims.
pub open spec fn transaction_bytes(p: &Proposal, ids: Seq<Seq<u8>>) -> Seq<u8> {
    transaction_domain() + p.namespace@ + p.request@
        + seq![if p.expected is Some { 1u8 } else { 0u8 }]
        + match p.expected {
            Some(h) => le64(h.index) + h.commit@,
            None => Seq::empty(),
        }
        + le64(p.head.index) + p.head.commit@
        + le64(ids.len() as u64) + flat(ids)
        + le64(p.required@.len() as u64) + particle_bytes(p.required@)
        + le64(p.claims@.len() as u64) + claim_bytes(p.claims@)
}

/// The fingerprint of a commit: the transaction's, extended by the sealed
/// files it retains, where there are any, and by its migration, where it is
/// one.
pub open spec fn commit_fingerprint(p: &Proposal, ids: Seq<Seq<u8>>, blobs: Seq<Particle>, migration: Option<&Migration>) -> Seq<u8> {
    let base = hemera_hash(transaction_bytes(p, ids));
    let with_files = if blobs.len() == 0 {
        base
    } else {
        hemera_hash(files_domain() + base + blob_profile() + le64(blobs.len() as u64) + particle_bytes(blobs))
    };
    match migration {
        None => with_files,
        Some(m) => hemera_hash(migration_domain() + with_files + m.manifest@ + le64(m.sources@.len() as u64)
            + source_bytes(m.sources@)),
    }
}

/// Particles in strictly increasing bytewise order, each before the next.
pub open spec fn strictly_increasing(ps: Seq<Particle>) -> bool {
    forall|i: int| 0 <= i < ps.len() - 1 ==> byte_less(#[trigger] ps[i]@, ps[i + 1]@)
}

/// A proposal within the limits, with its sealed files in strictly
/// increasing order.
pub open spec fn shape_ok(p: &Proposal, blobs: Seq<Particle>) -> bool {
    &&& p.content@.len() <= MAX_COMMIT_ITEMS
    &&& p.required@.len() <= MAX_COMMIT_ITEMS
    &&& p.claims@.len() <= MAX_CLAIMS
    &&& blobs.len() <= MAX_COMMIT_ITEMS
    &&& strictly_increasing(blobs)
}

/// A migration merges between one and the most sources, in strictly
/// increasing order of namespace, none of them the target itself.
pub open spec fn migration_ok(m: Option<&Migration>, namespace: Particle) -> bool {
    match m {
        None => true,
        Some(m) => {
            &&& 1 <= m.sources@.len() <= MAX_MIGRATION_SOURCES
            &&& strictly_increasing(m.sources@.map_values(|s: (Particle, Head)| s.0))
            &&& forall|i: int| 0 <= i < m.sources@.len() ==> #[trigger] m.sources@[i].0 != namespace
        },
    }
}

/// A checked proposal: its fingerprint and the positions of its contents in
/// increasing order of identity.
pub struct Checked {
    pub fingerprint: Particle,
    pub order: Vec<usize>,
}

fn put_particles(out: &mut Vec<u8>, ps: &[Particle])
    ensures
        final(out)@ == old(out)@ + particle_bytes(ps@),
{
    let ghost views = ps@.map_values(|p: Particle| p@);
    let ghost start = out@;
    let mut i: usize = 0;
    while i < ps.len()
        invariant
            i <= ps@.len(),
            views == ps@.map_values(|p: Particle| p@),
            out@ == start + flat(views.take(i as int)),
        decreases ps@.len() - i,
    {
        proof {
            lemma_flat_step(views, i as int);
        }
        append(out, &ps[i]);
        proof {
            assert(views[i as int] == ps@[i as int]@);
        }
        i = i + 1;
    }
    proof {
        assert(views.take(ps@.len() as int) =~= views);
    }
}

fn put_claims(out: &mut Vec<u8>, cs: &[(Particle, Particle)])
    ensures
        final(out)@ == old(out)@ + claim_bytes(cs@),
{
    let ghost views = cs@.map_values(|c: (Particle, Particle)| c.0@ + c.1@);
    let ghost start = out@;
    let mut i: usize = 0;
    while i < cs.len()
        invariant
            i <= cs@.len(),
            views == cs@.map_values(|c: (Particle, Particle)| c.0@ + c.1@),
            out@ == start + flat(views.take(i as int)),
        decreases cs@.len() - i,
    {
        proof {
            lemma_flat_step(views, i as int);
        }
        append(out, &cs[i].0);
        append(out, &cs[i].1);
        proof {
            assert(views[i as int] == cs@[i as int].0@ + cs@[i as int].1@);
        }
        i = i + 1;
    }
    proof {
        assert(views.take(cs@.len() as int) =~= views);
    }
}

fn put_sources(out: &mut Vec<u8>, ss: &[(Particle, Head)])
    ensures
        final(out)@ == old(out)@ + source_bytes(ss@),
{
    let ghost views = ss@.map_values(|s: (Particle, Head)| s.0@ + le64(s.1.index) + s.1.commit@);
    let ghost start = out@;
    let mut i: usize = 0;
    while i < ss.len()
        invariant
            i <= ss@.len(),
            views == ss@.map_values(|s: (Particle, Head)| s.0@ + le64(s.1.index) + s.1.commit@),
            out@ == start + flat(views.take(i as int)),
        decreases ss@.len() - i,
    {
        proof {
            lemma_flat_step(views, i as int);
        }
        append(out, &ss[i].0);
        put_u64_le(out, ss[i].1.index);
        append(out, &ss[i].1.commit);
        proof {
            assert(views[i as int] == ss@[i as int].0@ + le64(ss@[i as int].1.index) + ss@[i as int].1.commit@);
        }
        i = i + 1;
    }
    proof {
        assert(views.take(ss@.len() as int) =~= views);
    }
}

fn put_ids(out: &mut Vec<u8>, content: &Vec<Content>, order: &Vec<usize>)
    requires
        forall|i: int| 0 <= i < order@.len() ==> #[trigger] order@[i] < content@.len(),
    ensures
        final(out)@ == old(out)@ + flat(ordered_ids(order@, content_views(content@))),
{
    let ghost views = ordered_ids(order@, content_views(content@));
    let ghost start = out@;
    let mut i: usize = 0;
    while i < order.len()
        invariant
            i <= order@.len(),
            forall|j: int| 0 <= j < order@.len() ==> #[trigger] order@[j] < content@.len(),
            views == ordered_ids(order@, content_views(content@)),
            out@ == start + flat(views.take(i as int)),
        decreases order@.len() - i,
    {
        proof {
            lemma_flat_step(views, i as int);
        }
        let id = content[order[i]].id();
        append(out, &id);
        proof {
            assert(views[i as int] == content_views(content@)[order@[i as int] as int].id);
            assert(content_views(content@)[order@[i as int] as int] == content@[order@[i as int] as int]@);
        }
        i = i + 1;
    }
    proof {
        assert(views.take(order@.len() as int) =~= views);
    }
}

/// Whether particles are in strictly increasing bytewise order.
fn increasing_particles(ps: &[Particle]) -> (r: bool)
    ensures
        r == strictly_increasing(ps@),
{
    let mut i: usize = 1;
    while i < ps.len()
        invariant
            1 <= i,
            forall|j: int| 0 <= j < i - 1 && j < ps@.len() - 1 ==> byte_less(#[trigger] ps@[j]@, ps@[j + 1]@),
        decreases ps@.len() - i,
    {
        if !particle_less(&ps[i - 1], &ps[i]) {
            return false;
        }
        i = i + 1;
    }
    true
}

/// Check a proposal before it is committed and fingerprint it: the limits,
/// the order of its sealed files, its inline contents, and its migration.
pub fn check_proposal(p: &Proposal, blobs: &[Particle], migration: Option<&Migration>) -> (r: Result<Checked, Error>)
    ensures
        r is Ok <==> shape_ok(p, blobs@)
            && inline_bytes(content_views(p.content@)) <= MAX_CONTENT_BYTES && distinct_ids(content_views(p.content@))
            && migration_ok(migration, p.namespace),
        r matches Err(e) ==> e is InvalidProposal,
        r matches Ok(c) ==> orders(c.order@, content_views(p.content@))
            && c.fingerprint@ == commit_fingerprint(p, ordered_ids(c.order@, content_views(p.content@)), blobs@, migration),
{
    if p.content.len() > MAX_COMMIT_ITEMS || p.required.len() > MAX_COMMIT_ITEMS || p.claims.len() > MAX_CLAIMS
        || blobs.len() > MAX_COMMIT_ITEMS || !increasing_particles(blobs) {
        return Err(Error::InvalidProposal);
    }
    let order = content_order(&p.content)?;
    let ghost ids = ordered_ids(order@, content_views(p.content@));
    let mut bytes: Vec<u8> = Vec::new();
    append(&mut bytes, "cybergraph/application-transaction/1\0".as_bytes());
    append(&mut bytes, &p.namespace);
    append(&mut bytes, &p.request);
    match p.expected {
        Some(h) => {
            bytes.push(1u8);
            put_u64_le(&mut bytes, h.index);
            append(&mut bytes, &h.commit);
        },
        None => {
            bytes.push(0u8);
        },
    }
    put_u64_le(&mut bytes, p.head.index);
    append(&mut bytes, &p.head.commit);
    put_u64_le(&mut bytes, order.len() as u64);
    put_ids(&mut bytes, &p.content, &order);
    put_u64_le(&mut bytes, p.required.len() as u64);
    put_particles(&mut bytes, p.required.as_slice());
    put_u64_le(&mut bytes, p.claims.len() as u64);
    put_claims(&mut bytes, p.claims.as_slice());
    proof {
        assert(ids.len() == order@.len());
        assert(bytes@ =~= transaction_bytes(p, ids));
    }
    let mut fingerprint = hemera(bytes.as_slice());
    if blobs.len() > 0 {
        let mut ext: Vec<u8> = Vec::new();
        append(&mut ext, "cybergraph/application-files\0".as_bytes());
        append(&mut ext, &fingerprint);
        let profile = hemera("cybergraph/blob/hemera-sponge".as_bytes());
        append(&mut ext, &profile);
        put_u64_le(&mut ext, blobs.len() as u64);
        put_particles(&mut ext, blobs);
        proof {
            assert(ext@ =~= files_domain() + hemera_hash(transaction_bytes(p, ids)) + blob_profile() + le64(blobs@.len() as u64)
                + particle_bytes(blobs@));
        }
        fingerprint = hemera(ext.as_slice());
    }
    let ghost with_files = fingerprint@;
    if let Some(m) = migration {
        let n = m.sources.len();
        if n == 0 || n > MAX_MIGRATION_SOURCES {
            return Err(Error::InvalidProposal);
        }
        let mut i: usize = 0;
        while i < n
            invariant
                i <= n,
                n == m.sources@.len(),
                migration == Some(m),
                forall|j: int| 0 <= j < i ==> #[trigger] m.sources@[j].0 != p.namespace,
                forall|j: int| 0 <= j < i - 1 && j < n - 1 ==> byte_less(#[trigger] m.sources@[j].0@, m.sources@[j + 1].0@),
            decreases n - i,
        {
            if particle_eq(&m.sources[i].0, &p.namespace) {
                return Err(Error::InvalidProposal);
            }
            if i > 0 && !particle_less(&m.sources[i - 1].0, &m.sources[i].0) {
                proof {
                    let ks = m.sources@.map_values(|s: (Particle, Head)| s.0);
                    assert(ks[i - 1] == m.sources@[i - 1].0 && ks[i as int] == m.sources@[i as int].0);
                    assert(!byte_less(ks[i - 1]@, ks[i - 1 + 1]@));
                }
                return Err(Error::InvalidProposal);
            }
            i = i + 1;
        }
        proof {
            let ks = m.sources@.map_values(|s: (Particle, Head)| s.0);
            assert forall|j: int| 0 <= j < ks.len() - 1 implies byte_less(#[trigger] ks[j]@, ks[j + 1]@) by {
                assert(ks[j] == m.sources@[j].0 && ks[j + 1] == m.sources@[j + 1].0);
            }
        }
        let mut ext: Vec<u8> = Vec::new();
        append(&mut ext, "cybergraph/namespace-migration/1\0".as_bytes());
        append(&mut ext, &fingerprint);
        append(&mut ext, &m.manifest);
        put_u64_le(&mut ext, n as u64);
        put_sources(&mut ext, m.sources.as_slice());
        proof {
            assert(ext@ =~= migration_domain() + with_files + m.manifest@ + le64(m.sources@.len() as u64) + source_bytes(m.sources@));
        }
        fingerprint = hemera(ext.as_slice());
    }
    Ok(Checked { fingerprint, order })
}

/// How a request already on record is answered: a fresh commit never reuses
/// one; otherwise the same fingerprint gets its recorded head and a
/// different one is a conflict. `None` where nothing is on record.
pub open spec fn retry_answer(prior: Option<(Particle, Head)>, fingerprint: Particle, fresh: bool) -> Option<Result<Head, Error>> {
    match prior {
        None => None,
        Some((f, h)) => if !fresh && f == fingerprint { Some(Ok(h)) } else { Some(Err(Error::Conflict)) },
    }
}

/// How a request already on record is answered (`retry_answer`).
pub fn answer_retry(prior: Option<(Particle, Head)>, fingerprint: &Particle, fresh: bool) -> (r: Option<Result<Head, Error>>)
    ensures
        r == retry_answer(prior, *fingerprint, fresh),
{
    match prior {
        None => None,
        Some((f, h)) => {
            if fresh {
                return Some(Err(Error::Conflict));
            }
            if particle_eq(&f, fingerprint) {
                Some(Ok(h))
            } else {
                Some(Err(Error::Conflict))
            }
        },
    }
}

/// Requests are idempotent: a request on record is answered with the head
/// it set when the same transaction is proposed again, and is a conflict
/// when another transaction is proposed under it or a fresh commit reuses
/// it.
pub proof fn law_retry_idempotent(f: Particle, h: Head, other: Particle)
    ensures
        retry_answer(Some((f, h)), f, false) == Some(Ok::<Head, Error>(h)),
        other != f ==> retry_answer(Some((f, h)), other, false) == Some(Err::<Head, Error>(Error::Conflict)),
        retry_answer(Some((f, h)), f, true) == Some(Err::<Head, Error>(Error::Conflict)),
{
}

/// A lookup a commit needs before it is written: a content that must be
/// stored in the graph, or a sealed file that must exist in the namespace.
#[derive(Debug, Clone, Copy, PartialEq, Eq)]
pub enum Need {
    Stored(Particle),
    File(Particle),
}

/// The mathematical value of a lookup.
pub ghost enum NeedView {
    Stored(Seq<u8>),
    File(Seq<u8>),
}

impl View for Need {
    type V = NeedView;

    open spec fn view(&self) -> NeedView {
        match self {
            Need::Stored(p) => NeedView::Stored(p@),
            Need::File(p) => NeedView::File(p@),
        }
    }
}

/// The views of a list of lookups.
pub open spec fn need_views(ns: Seq<Need>) -> Seq<NeedView> {
    ns.map_values(|n: Need| n@)
}

/// A list of contents holds one with identity `id`.
pub open spec fn inline_has(cs: Seq<ContentView>, id: Seq<u8>) -> bool {
    exists|i: int| 0 <= i < cs.len() && #[trigger] cs[i].id == id
}

/// What a reference asks of a commit: a sealed file it retains must exist,
/// a content it carries inline asks nothing, any other content must be
/// stored.
pub open spec fn need_for(id: Seq<u8>, cs: Seq<ContentView>, blobs: Seq<Seq<u8>>) -> Seq<NeedView> {
    if blobs.contains(id) {
        seq![NeedView::File(id)]
    } else if inline_has(cs, id) {
        Seq::empty()
    } else {
        seq![NeedView::Stored(id)]
    }
}

/// What a list of references asks, in order.
pub open spec fn refs_need(ids: Seq<Seq<u8>>, cs: Seq<ContentView>, blobs: Seq<Seq<u8>>) -> Seq<NeedView>
    decreases ids.len(),
{
    if ids.len() == 0 {
        Seq::empty()
    } else {
        refs_need(ids.drop_last(), cs, blobs) + need_for(ids.last(), cs, blobs)
    }
}

/// What the children of the inline contents ask, contents in the given
/// order, each pair's left child before its right.
pub open spec fn children_need(order: Seq<usize>, cs: Seq<ContentView>, blobs: Seq<Seq<u8>>) -> Seq<NeedView>
    decreases order.len(),
{
    if order.len() == 0 {
        Seq::empty()
    } else {
        let c = cs[order.last() as int];
        children_need(order.drop_last(), cs, blobs) + if c.codec == Codec::Data && c.bytes.len() == 64 {
            need_for(c.bytes.subrange(0, 32), cs, blobs) + need_for(c.bytes.subrange(32, 64), cs, blobs)
        } else {
            Seq::empty()
        }
    }
}

/// The particles of a list by their bytes.
pub open spec fn particle_views(ps: Seq<Particle>) -> Seq<Seq<u8>> {
    ps.map_values(|p: Particle| p@)
}

/// Everything a commit needs, in the order it is checked: its head's
/// commit, unless inline; each sealed file; each required particle; then
/// the children of its inline contents in order of identity.
pub open spec fn commit_needs(p: &Proposal, blobs: Seq<Particle>, order: Seq<usize>) -> Seq<NeedView> {
    let cs = content_views(p.content@);
    let bs = particle_views(blobs);
    (if inline_has(cs, p.head.commit@) { Seq::empty() } else { seq![NeedView::Stored(p.head.commit@)] })
        + refs_need(bs, cs, bs)
        + refs_need(particle_views(p.required@), cs, bs)
        + children_need(order, cs, bs)
}

fn has_inline(content: &Vec<Content>, id: &Particle) -> (r: bool)
    ensures
        r == inline_has(content_views(content@), id@),
{
    let ghost cs = content_views(content@);
    let mut i: usize = 0;
    while i < content.len()
        invariant
            i <= content@.len(),
            cs == content_views(content@),
            forall|j: int| 0 <= j < i ==> cs[j].id != id@,
        decreases content@.len() - i,
    {
        let cid = content[i].id();
        proof {
            assert(cs[i as int] == content@[i as int]@);
        }
        if particle_eq(&cid, id) {
            return true;
        }
        i = i + 1;
    }
    false
}

fn has_blob(blobs: &[Particle], id: &[u8]) -> (r: bool)
    ensures
        r == particle_views(blobs@).contains(id@),
{
    let ghost bs = particle_views(blobs@);
    let mut i: usize = 0;
    while i < blobs.len()
        invariant
            i <= blobs@.len(),
            bs == particle_views(blobs@),
            forall|j: int| 0 <= j < i ==> bs[j] != id@,
        decreases blobs@.len() - i,
    {
        proof {
            assert(bs[i as int] == blobs@[i as int]@);
        }
        if crate::wire::bytes_eq(&blobs[i], id) {
            return true;
        }
        i = i + 1;
    }
    false
}

fn push_need(out: &mut Vec<Need>, id: Particle, content: &Vec<Content>, blobs: &[Particle])
    ensures
        need_views(final(out)@) == need_views(old(out)@) + need_for(id@, content_views(content@), particle_views(blobs@)),
{
    let ghost before = out@;
    if has_blob(blobs, &id) {
        out.push(Need::File(id));
    } else if !has_inline(content, &id) {
        out.push(Need::Stored(id));
    }
    proof {
        assert(need_views(out@) =~= need_views(before) + need_for(id@, content_views(content@), particle_views(blobs@)));
    }
}

fn push_refs(out: &mut Vec<Need>, ids: &[Particle], content: &Vec<Content>, blobs: &[Particle])
    ensures
        need_views(final(out)@) == need_views(old(out)@) + refs_need(particle_views(ids@), content_views(content@), particle_views(blobs@)),
{
    let ghost cs = content_views(content@);
    let ghost bs = particle_views(blobs@);
    let ghost vs = particle_views(ids@);
    let ghost start = need_views(out@);
    let mut i: usize = 0;
    while i < ids.len()
        invariant
            i <= ids@.len(),
            cs == content_views(content@),
            bs == particle_views(blobs@),
            vs == particle_views(ids@),
            need_views(out@) == start + refs_need(vs.take(i as int), cs, bs),
        decreases ids@.len() - i,
    {
        proof {
            assert(vs.take(i + 1).drop_last() =~= vs.take(i as int));
            assert(vs.take(i + 1).last() == ids@[i as int]@);
        }
        push_need(out, ids[i], content, blobs);
        proof {
            assert(start + refs_need(vs.take(i as int), cs, bs) + need_for(ids@[i as int]@, cs, bs)
                =~= start + refs_need(vs.take(i + 1), cs, bs));
        }
        i = i + 1;
    }
    proof {
        assert(vs.take(ids@.len() as int) =~= vs);
    }
}

/// The lookups a checked proposal needs before it is written, in the order
/// they are checked; the first that fails makes the commit miss that
/// content.
pub fn requirements(p: &Proposal, blobs: &[Particle], order: &Vec<usize>) -> (r: Vec<Need>)
    requires
        forall|i: int| 0 <= i < order@.len() ==> #[trigger] order@[i] < p.content@.len(),
    ensures
        need_views(r@) == commit_needs(p, blobs@, order@),
{
    let ghost cs = content_views(p.content@);
    let ghost bs = particle_views(blobs@);
    let mut out: Vec<Need> = Vec::new();
    if !has_inline(&p.content, &p.head.commit) {
        out.push(Need::Stored(p.head.commit));
    }
    let ghost head_part = need_views(out@);
    proof {
        assert(head_part =~= if inline_has(cs, p.head.commit@) { Seq::<NeedView>::empty() } else { seq![NeedView::Stored(p.head.commit@)] });
    }
    push_refs(&mut out, blobs, &p.content, blobs);
    push_refs(&mut out, p.required.as_slice(), &p.content, blobs);
    let ghost mid = need_views(out@);
    let mut i: usize = 0;
    while i < order.len()
        invariant
            i <= order@.len(),
            forall|j: int| 0 <= j < order@.len() ==> #[trigger] order@[j] < p.content@.len(),
            cs == content_views(p.content@),
            bs == particle_views(blobs@),
            need_views(out@) == mid + children_need(order@.take(i as int), cs, bs),
        decreases order@.len() - i,
    {
        proof {
            assert(order@.take(i + 1).drop_last() =~= order@.take(i as int));
            assert(cs[order@[i as int] as int] == p.content@[order@[i as int] as int]@);
        }
        let ghost before = need_views(out@);
        if let Some((left, right)) = p.content[order[i]].children() {
            push_need(&mut out, left, &p.content, blobs);
            push_need(&mut out, right, &p.content, blobs);
        }
        proof {
            assert(need_views(out@) =~= mid + children_need(order@.take(i + 1), cs, bs));
        }
        i = i + 1;
    }
    proof {
        assert(order@.take(order@.len() as int) =~= order@);
    }
    out
}


/// The particle a lookup asks for.
pub open spec fn need_particle(n: Need) -> Particle {
    match n {
        Need::Stored(p) => p,
        Need::File(p) => p,
    }
}

/// Answer a commit's lookups: `present[i]` says whether the store found
/// what `needs[i]` asks for. The first lookup that found nothing makes the
/// commit miss that content, and nothing is written; where every lookup
/// found its content the commit may be written.
pub fn check_present(needs: &[Need], present: &[bool]) -> (r: Result<(), Error>)
    requires
        needs@.len() == present@.len(),
    ensures
        r is Ok <==> forall|i: int| 0 <= i < present@.len() ==> #[trigger] present@[i],
        r matches Err(e) ==> exists|i: int| 0 <= i < present@.len() && !#[trigger] present@[i]
            && (forall|j: int| 0 <= j < i ==> present@[j])
            && e == Error::MissingContent(need_particle(needs@[i])),
{
    let mut i: usize = 0;
    while i < needs.len()
        invariant
            i <= needs@.len(),
            needs@.len() == present@.len(),
            forall|j: int| 0 <= j < i ==> present@[j],
        decreases needs@.len() - i,
    {
        if !present[i] {
            let id = match needs[i] {
                Need::Stored(p) => p,
                Need::File(p) => p,
            };
            return Err(Error::MissingContent(id));
        }
        i = i + 1;
    }
    Ok(())
}


/// A proposal passes the checks that come before everything else: its
/// limits and the order of its sealed files, its inline budget and distinct
/// identities, and its migration.
pub open spec fn proposal_ok(p: &Proposal, blobs: Seq<Particle>, migration: Option<&Migration>) -> bool {
    &&& shape_ok(p, blobs)
    &&& inline_bytes(content_views(p.content@)) <= MAX_CONTENT_BYTES
    &&& distinct_ids(content_views(p.content@))
    &&& migration_ok(migration, p.namespace)
}

/// What a commit does once its proposal is checked and the record of its
/// request is read.
pub enum CommitNext {
    /// The request was answered before with this head; nothing is written.
    Answered(Head),
    /// A new request: the store looks each of `needs` up, then `commit_write`
    /// decides.
    Lookup { fingerprint: Particle, needs: Vec<Need> },
}

/// The first step of an application commit: check the proposal, then answer
/// a request already on record from its record, else list the lookups the
/// commit needs. The checks come before the record is consulted.
pub fn commit_step(p: &Proposal, blobs: &[Particle], migration: Option<&Migration>, fresh: bool, recorded: Option<(Particle, Head)>)
    -> (r: Result<CommitNext, Error>)
    ensures
        !proposal_ok(p, blobs@, migration) ==> r matches Err(Error::InvalidProposal),
        proposal_ok(p, blobs@, migration) ==> (exists|order: Seq<usize>, fingerprint: Particle|
            #![trigger orders(order, content_views(p.content@)), retry_answer(recorded, fingerprint, fresh)] {
            &&& orders(order, content_views(p.content@))
            &&& fingerprint@ == commit_fingerprint(p, ordered_ids(order, content_views(p.content@)), blobs@, migration)
            &&& match retry_answer(recorded, fingerprint, fresh) {
                Some(Ok(h)) => r == Ok::<CommitNext, Error>(CommitNext::Answered(h)),
                Some(Err(e)) => r == Err::<CommitNext, Error>(e),
                None => r matches Ok(CommitNext::Lookup { fingerprint: f, needs }) && f == fingerprint
                    && need_views(needs@) == commit_needs(p, blobs@, order),
            }
        }),
{
    let checked = check_proposal(p, blobs, migration)?;
    match answer_retry(recorded, &checked.fingerprint, fresh) {
        Some(Ok(h)) => Ok(CommitNext::Answered(h)),
        Some(Err(e)) => Err(e),
        None => {
            let needs = requirements(p, blobs, &checked.order);
            Ok(CommitNext::Lookup { fingerprint: checked.fingerprint, needs })
        },
    }
}

/// Every lookup found its content.
pub open spec fn all_present(present: Seq<bool>) -> bool {
    forall|i: int| 0 <= i < present.len() ==> #[trigger] present[i]
}

/// Lookup `i` is the first that found nothing.
pub open spec fn first_missing(present: Seq<bool>, i: int) -> bool {
    &&& 0 <= i < present.len()
    &&& !present[i]
    &&& forall|j: int| 0 <= j < i ==> #[trigger] present[j]
}

/// How the write of a new request is decided, from the store's answers to
/// its lookups and the namespace's current head: the first lookup that
/// found nothing makes it miss that content; else a head other than the
/// one it expects makes it a conflict; else it is written.
pub open spec fn write_outcome(needs: Seq<Need>, present: Seq<bool>, expected: Option<Head>, current: Option<Head>) -> Result<(), Error> {
    if !all_present(present) {
        Err(Error::MissingContent(need_particle(needs[choose|i: int| first_missing(present, i)])))
    } else if current != expected {
        Err(Error::Conflict)
    } else {
        Ok(())
    }
}

proof fn lemma_first_missing(present: Seq<bool>, i: int, k: int)
    requires
        first_missing(present, i),
        first_missing(present, k),
    ensures
        i == k,
{
    if i < k {
        assert(present[i]);
    } else if k < i {
        assert(present[k]);
    }
}

/// The second step of an application commit: the store's answers to the
/// lookups (`present[i]` for `needs[i]`) and the namespace's current head
/// decide whether the write happens (`write_outcome`).
pub fn commit_write(needs: &[Need], present: &[bool], expected: Option<Head>, current: Option<Head>) -> (r: Result<(), Error>)
    requires
        needs@.len() == present@.len(),
    ensures
        r == write_outcome(needs@, present@, expected, current),
{
    match check_present(needs, present) {
        Err(e) => {
            proof {
                let i = choose|i: int| 0 <= i < present@.len() && !#[trigger] present@[i]
                    && (forall|j: int| 0 <= j < i ==> present@[j]) && e == Error::MissingContent(need_particle(needs@[i]));
                assert(first_missing(present@, i));
                let k = choose|k: int| first_missing(present@, k);
                lemma_first_missing(present@, i, k);
            }
            Err(e)
        },
        Ok(()) => {
            let same = match (current, expected) {
                (None, None) => true,
                (Some(a), Some(b)) => a.index == b.index && particle_eq(&a.commit, &b.commit),
                _ => false,
            };
            if same {
                Ok(())
            } else {
                Err(Error::Conflict)
            }
        },
    }
}

/// A commit whose lookup of a content finds nothing is refused, missing
/// that content or one looked up before it, and writes nothing.
pub proof fn law_missing_content_refused(needs: Seq<Need>, present: Seq<bool>, expected: Option<Head>, current: Option<Head>, i: int)
    requires
        needs.len() == present.len(),
        0 <= i < present.len(),
        !present[i],
    ensures
        write_outcome(needs, present, expected, current) matches Err(Error::MissingContent(_)),
{
}

/// Of two requests written from the same head, exactly one wins: once one
/// is written the namespace's head is the one it set, which is not the head
/// the other expects, so the other is a conflict.
pub proof fn law_one_writer_wins(needs: Seq<Need>, present: Seq<bool>, expected: Option<Head>, written: Head)
    requires
        written.index == match expected { Some(e) => e.index + 1, None => 0 },
        all_present(present),
    ensures
        write_outcome(needs, present, expected, expected) == Ok::<(), Error>(()),
        write_outcome(needs, present, expected, Some(written)) == Err::<(), Error>(Error::Conflict),
{
}

/// A commit that retains a sealed file looks that file up.
pub proof fn law_retained_files_are_looked_up(p: &Proposal, blobs: Seq<Particle>, order: Seq<usize>, x: Particle)
    requires
        blobs.contains(x),
    ensures
        commit_needs(p, blobs, order).contains(NeedView::File(x@)),
{
    let cs = content_views(p.content@);
    let bs = particle_views(blobs);
    let j = choose|j: int| 0 <= j < blobs.len() && blobs[j] == x;
    assert(bs[j] == x@);
    lemma_refs_need_has(bs, cs, bs, j);
    let head_part = if inline_has(cs, p.head.commit@) { Seq::<NeedView>::empty() } else { seq![NeedView::Stored(p.head.commit@)] };
    let a = refs_need(bs, cs, bs);
    let k = choose|k: int| 0 <= k < a.len() && a[k] == NeedView::File(x@);
    let all = commit_needs(p, blobs, order);
    assert(all == head_part + a + refs_need(particle_views(p.required@), cs, bs) + children_need(order, cs, bs));
    assert(all[head_part.len() + k] == NeedView::File(x@));
}

proof fn lemma_refs_need_has(ids: Seq<Seq<u8>>, cs: Seq<ContentView>, bs: Seq<Seq<u8>>, j: int)
    requires
        0 <= j < ids.len(),
        bs.contains(ids[j]),
    ensures
        exists|k: int| 0 <= k < refs_need(ids, cs, bs).len() && refs_need(ids, cs, bs)[k] == NeedView::File(ids[j]),
    decreases ids.len(),
{
    let front = refs_need(ids.drop_last(), cs, bs);
    if j == ids.len() - 1 {
        assert(need_for(ids.last(), cs, bs) == seq![NeedView::File(ids[j])]);
        assert(refs_need(ids, cs, bs)[front.len() as int] == NeedView::File(ids[j]));
    } else {
        assert(ids.drop_last()[j] == ids[j]);
        lemma_refs_need_has(ids.drop_last(), cs, bs, j);
        let k = choose|k: int| 0 <= k < front.len() && front[k] == NeedView::File(ids[j]);
        assert(refs_need(ids, cs, bs)[k] == front[k]);
    }
}
} // verus!
