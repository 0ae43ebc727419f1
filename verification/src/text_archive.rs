//! Local text observations: their records and provenance, the budgets an
//! observation and the projection keep, the chain of observations a
//! projection walks, and the strict reader of legacy JSONL lines.
use vstd::prelude::*;
use vstd::string::StringSliceAdditionalSpecFns;
use vstd::utf8::{encode_utf8, valid_utf8};
use crate::application::{Head, Proposal};
use crate::content::{particle_eq, Codec, Content, ContentError, ContentView, MAX_CONTENT_BYTES};
use crate::hash::{hemera, hemera_hash};
use crate::keyed::Keyed;
use crate::keys::{is_hex_digit, nibble};
use crate::wire::{append, le64, put_u64_le};
use crate::Particle;

verus! {

/// Most bytes of one text.
pub const MAX_TEXT_BYTES: usize = 8388608;
/// Most text bytes of a projection.
pub const MAX_PROJECTION_BYTES: usize = 67108864;
/// Most observations of a namespace.
pub const MAX_OBSERVATIONS: u64 = 1000000;
/// Most bytes of a legacy source.
pub const MAX_SOURCE_BYTES: usize = 268435456;
/// Most bytes of an observation record.
pub const MAX_RECORD_BYTES: usize = 8192;

/// Where an imported observation came from: the source digest, its line,
/// and the particle of the raw line.
#[derive(Debug, Clone, Copy, PartialEq, Eq)]
pub struct Provenance {
    pub source: Particle,
    pub line: u64,
    pub raw: Particle,
}

/// One observation record: its schema, the previous observation, the
/// request it answers, its text, when it was created, and its provenance.
#[derive(Debug, Clone, PartialEq, Eq)]
pub struct Observation {
    pub schema: String,
    pub previous: Option<Particle>,
    pub request: Particle,
    pub text: Particle,
    pub created: Option<u64>,
    pub provenance: Option<Provenance>,
}

/// A text of the projection with its observation.
#[derive(Debug, Clone, PartialEq, Eq)]
pub struct TextMeta {
    pub text: String,
    pub created: Option<u64>,
    pub observation: Particle,
    pub provenance: Option<Provenance>,
}

/// What a legacy import did.
#[derive(Debug, Clone, Copy, PartialEq, Eq)]
pub struct ImportReport {
    pub source: Particle,
    pub observations: u64,
    pub bytes: u64,
    pub head: Option<Head>,
}

/// Why a text request failed.
#[derive(Debug)]
pub enum Error {
    Content(ContentError),
    MissingContent(Particle),
    InvalidProposal,
    Rejected(String),
}

/// Whether two optional provenances are the same.
pub fn provenance_eq(a: &Option<Provenance>, b: &Option<Provenance>) -> (r: bool)
    ensures
        r == (*a == *b),
{
    match (a, b) {
        (None, None) => true,
        (Some(x), Some(y)) => particle_eq(&x.source, &y.source) && x.line == y.line && particle_eq(&x.raw, &y.raw),
        _ => false,
    }
}

/// An existing observation answers a repeated request when it records the
/// same request, text, creation time and provenance.
pub fn answers(prior: &Observation, request: &Particle, text: &Particle, created: Option<u64>, provenance: &Option<Provenance>) -> (r: bool)
    ensures
        r == (prior.request == *request && prior.text == *text && prior.created == created && prior.provenance == *provenance),
{
    particle_eq(&prior.request, request) && particle_eq(&prior.text, text) && prior.created == created
        && provenance_eq(&prior.provenance, provenance)
}

/// The head an appended observation gets: the index after `expected`
/// (0 for the first), which must stay below the observation limit.
pub fn observation_head(expected: Option<Head>, commit: Particle) -> (r: Result<Head, Error>)
    ensures
        match expected {
            Some(h) => if h.index == u64::MAX {
                r matches Err(Error::InvalidProposal)
            } else if h.index + 1 >= MAX_OBSERVATIONS {
                r matches Err(Error::Rejected(_))
            } else {
                r matches Ok(head) && head.index == h.index + 1 && head.commit == commit
            },
            None => r matches Ok(head) && head.index == 0 && head.commit == commit,
        },
{
    let index = match expected {
        Some(h) => match h.index.checked_add(1) {
            Some(i) => i,
            None => return Err(Error::InvalidProposal),
        },
        None => 0,
    };
    if index >= MAX_OBSERVATIONS {
        return Err(Error::Rejected("text observation count limit".to_string()));
    }
    Ok(Head { index, commit })
}

/// What storing a content costs: its bytes and its codec byte.
pub open spec fn cost(c: ContentView) -> nat {
    c.bytes.len() + 1
}

/// The bytes an observation stores: its text, its record unless that is
/// the same content, and its raw line unless that is one of the others.
pub open spec fn observation_cost(text: ContentView, record: ContentView, raw: Option<ContentView>) -> nat {
    cost(text) + (if record.id == text.id { 0 } else { cost(record) }) + match raw {
        Some(r) => if r.id == text.id || r.id == record.id { 0 } else { cost(r) },
        None => 0,
    }
}

/// Check that an observation fits one transaction.
pub fn observation_budget(text: &Content, record: &Content, raw: Option<&Content>) -> (r: Result<(), Error>)
    ensures
        ({
            let raw_view = match raw { Some(c) => Some(c@), None => None };
            r is Ok <==> observation_cost(text@, record@, raw_view) <= MAX_CONTENT_BYTES
        }),
        r matches Err(e) ==> e is Rejected,
{
    let t = text.bytes().len();
    if t >= MAX_CONTENT_BYTES {
        return Err(Error::Rejected("text observation transaction byte limit".to_string()));
    }
    let mut total: usize = t + 1;
    let tid = text.id();
    let rid = record.id();
    if !particle_eq(&rid, &tid) {
        let rl = record.bytes().len();
        if rl >= MAX_CONTENT_BYTES - total {
            return Err(Error::Rejected("text observation transaction byte limit".to_string()));
        }
        total = total + rl + 1;
    }
    if let Some(c) = raw {
        let cid = c.id();
        if !particle_eq(&cid, &tid) && !particle_eq(&cid, &rid) {
            let cl = c.bytes().len();
            if cl >= MAX_CONTENT_BYTES - total {
                return Err(Error::Rejected("text observation transaction byte limit".to_string()));
            }
            total = total + cl + 1;
        }
    }
    Ok(())
}

/// Add a text to the projection unless it is there: the projection's text
/// bytes grow by its length and must stay within the projection limit.
pub fn extend_projection(sizes: &mut Keyed<usize>, bytes: &mut usize, id: Particle, len: usize) -> (r: Result<(), Error>)
    ensures
        old(sizes)@.contains_key(id) ==> (r is Ok && final(sizes)@ == old(sizes)@ && *final(bytes) == *old(bytes)),
        !old(sizes)@.contains_key(id) ==> if *old(bytes) + len > MAX_PROJECTION_BYTES {
            r is Err && final(sizes)@ == old(sizes)@ && *final(bytes) == *old(bytes)
        } else {
            r is Ok && final(sizes)@ == old(sizes)@.insert(id, len) && *final(bytes) == *old(bytes) + len
        },
{
    if sizes.get(&id).is_some() {
        return Ok(());
    }
    let total = match bytes.checked_add(len) {
        Some(t) => t,
        None => return Err(Error::InvalidProposal),
    };
    if total > MAX_PROJECTION_BYTES {
        return Err(Error::Rejected("text projection byte limit".to_string()));
    }
    sizes.set(id, len);
    *bytes = total;
    Ok(())
}

/// Whether a projection walk stops or goes on.
pub enum Walked {
    More,
    Done,
}

/// A projection being built from the observation chain: each text, by its
/// particle, with its latest observation, the text sizes and their total,
/// the previous observation, and the next index expected.
pub struct Projection {
    pub texts: Keyed<TextMeta>,
    pub sizes: Keyed<usize>,
    pub bytes: usize,
    pub previous: Option<Particle>,
    pub index: u64,
}

/// A head continues the walk of a projection: it has the next index and
/// its observation points back to the previous one.
pub open spec fn in_chain(p: Projection, head: Head, observation: &Observation) -> bool {
    head.index == p.index && observation.previous == p.previous
}

/// A content is a blob within the text limit.
pub open spec fn blob_fits(c: Option<&Content>) -> bool {
    c matches Some(t) && t@.codec == Codec::Blob && t@.bytes.len() <= MAX_TEXT_BYTES
}

/// The head continues the walk, its text is a fitting blob, and so is its
/// raw payload when it was imported.
pub open spec fn blobs_fit(p: Projection, head: Head, observation: &Observation, text: Option<&Content>, raw: Option<&Content>) -> bool {
    &&& in_chain(p, head, observation)
    &&& blob_fits(text)
    &&& observation.provenance is Some ==> blob_fits(raw)
}

/// The text bytes of a projection once the text `id` of length `len` takes
/// the place of what it held under that particle.
pub open spec fn total_after(p: Projection, id: Particle, len: nat) -> int {
    p.bytes - (if p.sizes@.contains_key(id) { p.sizes@[id] as int } else { 0 }) + len
}

/// `meta` is the projection entry of the observation at `head` whose text
/// is made of `text`: that text, its creation time, the observation's
/// commit and its provenance.
pub open spec fn meta_of(head: Head, observation: &Observation, text: Seq<u8>, meta: TextMeta) -> bool {
    &&& encode_utf8(meta.text@) == text
    &&& meta.created == observation.created
    &&& meta.observation == head.commit
    &&& meta.provenance == observation.provenance
}

/// The projection has room for the text `id` of length `len`.
pub open spec fn room(p: Projection, id: Particle, len: nat) -> bool {
    &&& p.sizes@.contains_key(id) ==> p.sizes@[id] <= p.bytes
    &&& total_after(p, id, len) <= MAX_PROJECTION_BYTES
}

impl Projection {
    /// A projection before the first observation.
    pub fn new() -> (r: Self)
        ensures
            r.texts@ == Map::<Particle, TextMeta>::empty(),
            r.sizes@ == Map::<Particle, usize>::empty(),
            r.bytes == 0,
            r.previous is None,
            r.index == 0,
    {
        Projection { texts: Keyed::new(), sizes: Keyed::new(), bytes: 0, previous: None, index: 0 }
    }

    /// Begin loading the projection at `selected`: nothing is selected for
    /// an empty namespace, whose projection is empty; a selected head beyond
    /// the observation limit is refused; otherwise the walk starts from the
    /// first observation. A history that ends before the walk reaches the
    /// selected head is refused as an invalid proposal.
    pub fn begin(selected: Option<Head>) -> (r: Result<Option<Projection>, Error>)
        ensures
            selected is None ==> r matches Ok(None),
            selected matches Some(h) && h.index >= MAX_OBSERVATIONS ==> r matches Err(Error::InvalidProposal),
            selected matches Some(h) && h.index < MAX_OBSERVATIONS ==> (r matches Ok(Some(p)) && p.texts@ == Map::<Particle, TextMeta>::empty()
                && p.sizes@ == Map::<Particle, usize>::empty()
                && p.bytes == 0 && p.previous is None && p.index == 0),
    {
        match selected {
            None => Ok(None),
            Some(h) => {
                if h.index >= MAX_OBSERVATIONS {
                    Err(Error::InvalidProposal)
                } else {
                    Ok(Some(Projection::new()))
                }
            },
        }
    }

    /// Take the next head of the chain toward `selected`: it must be the
    /// next index, point back to the previous observation, have a text blob
    /// (and raw blob, when imported) within the text limit, keep the text
    /// bytes of the projection within its limit, and end the walk at the
    /// selected head exactly.
    pub fn step(&mut self, selected: Head, head: Head, observation: &Observation, text: Option<&Content>, raw: Option<&Content>) -> (r: Result<Walked, Error>)
        requires
            old(self).index < MAX_OBSERVATIONS,
            selected.index < MAX_OBSERVATIONS,
        ensures
            head.index != old(self).index ==> r matches Err(Error::InvalidProposal),
            head.index == old(self).index && observation.previous != old(self).previous ==> r matches Err(Error::InvalidProposal),
            in_chain(*old(self), head, observation) && text is None ==> r == Err::<Walked, Error>(Error::MissingContent(observation.text)),
            in_chain(*old(self), head, observation) && text is Some && !blob_fits(text) ==> r matches Err(Error::InvalidProposal),
            in_chain(*old(self), head, observation) && blob_fits(text) && observation.provenance is Some && raw is None
                ==> r == Err::<Walked, Error>(Error::MissingContent(observation.provenance->0.raw)),
            in_chain(*old(self), head, observation) && blob_fits(text) && observation.provenance is Some && raw is Some && !blob_fits(raw)
                ==> r matches Err(Error::InvalidProposal),
            blobs_fit(*old(self), head, observation, text, raw) && !valid_utf8(text->0@.bytes) ==> r matches Err(Error::Rejected(_)),
            blobs_fit(*old(self), head, observation, text, raw) && valid_utf8(text->0@.bytes) && !room(*old(self), observation.text, text->0@.bytes.len())
                ==> r matches Err(Error::InvalidProposal),
            blobs_fit(*old(self), head, observation, text, raw) && valid_utf8(text->0@.bytes) && room(*old(self), observation.text, text->0@.bytes.len()) ==> {
                &&& head.index == selected.index && head.commit == selected.commit ==> (r matches Ok(Walked::Done))
                &&& head.index == selected.index && head.commit != selected.commit ==> (r matches Err(Error::InvalidProposal))
                &&& head.index != selected.index ==> (r matches Ok(Walked::More) && final(self).index == old(self).index + 1
                    && final(self).previous == Some(head.commit))
                &&& r is Ok ==> final(self).sizes@ == old(self).sizes@.insert(observation.text, text->0@.bytes.len() as usize)
                    && final(self).bytes == total_after(*old(self), observation.text, text->0@.bytes.len())
                    && final(self).texts@ == old(self).texts@.insert(observation.text, final(self).texts@[observation.text])
                    && meta_of(head, observation, text->0@.bytes, final(self).texts@[observation.text])
            },
            r matches Ok(Walked::Done) ==> (head.index == selected.index && head.commit == selected.commit),
            r is Ok ==> blobs_fit(*old(self), head, observation, text, raw) && valid_utf8(text->0@.bytes)
                && room(*old(self), observation.text, text->0@.bytes.len()),
    {
        if head.index != self.index {
            return Err(Error::InvalidProposal);
        }
        if !optional_eq(&observation.previous, &self.previous) {
            return Err(Error::InvalidProposal);
        }
        let text = match text {
            Some(t) => t,
            None => return Err(Error::MissingContent(observation.text)),
        };
        if text.codec() != Codec::Blob || text.bytes().len() > MAX_TEXT_BYTES {
            return Err(Error::InvalidProposal);
        }
        if let Some(p) = &observation.provenance {
            let raw = match raw {
                Some(c) => c,
                None => return Err(Error::MissingContent(p.raw)),
            };
            if raw.codec() != Codec::Blob || raw.bytes().len() > MAX_TEXT_BYTES {
                return Err(Error::InvalidProposal);
            }
        }
        let decoded = match crate::strings::utf8(text.bytes()) {
            Some(d) => d,
            None => return Err(Error::Rejected("text is not UTF-8".to_string())),
        };
        let len = text.bytes().len();
        let mut bytes = self.bytes;
        if let Some(prior) = self.sizes.get(&observation.text) {
            if prior > bytes {
                return Err(Error::InvalidProposal);
            }
            bytes = bytes - prior;
        }
        let total = match bytes.checked_add(len) {
            Some(t) => t,
            None => return Err(Error::InvalidProposal),
        };
        if total > MAX_PROJECTION_BYTES {
            return Err(Error::InvalidProposal);
        }
        let meta = TextMeta { text: decoded.to_owned(), created: observation.created, observation: head.commit, provenance: observation.provenance };
        self.texts.set(observation.text, meta);
        self.sizes.set(observation.text, len);
        self.bytes = total;
        if head.index == selected.index {
            if particle_eq(&head.commit, &selected.commit) {
                return Ok(Walked::Done);
            }
            return Err(Error::InvalidProposal);
        }
        self.index = self.index + 1;
        self.previous = Some(head.commit);
        Ok(Walked::More)
    }
}

/// Whether two optional particles are the same.
pub fn optional_eq(a: &Option<Particle>, b: &Option<Particle>) -> (r: bool)
    ensures
        r == (*a == *b),
{
    match (a, b) {
        (None, None) => true,
        (Some(x), Some(y)) => particle_eq(x, y),
        _ => false,
    }
}

/// The reader state while normalizing a legacy line: the bytes so far,
/// inside a string, and just after a backslash there.
pub ghost struct Scan {
    pub out: Seq<u8>,
    pub quoted: bool,
    pub escaped: bool,
}

/// One byte of a legacy line: a literal tab or carriage return inside a
/// string becomes its JSON escape; every other byte is kept, and quotes and
/// backslashes track where strings and escapes are.
pub open spec fn scan_step(s: Scan, c: u8) -> Scan {
    if s.quoted && !s.escaped && (c == 9 || c == 13) {
        Scan { out: s.out + seq![92u8, if c == 9 { 116u8 } else { 114u8 }], ..s }
    } else {
        let out = s.out.push(c);
        if s.escaped {
            Scan { out, quoted: s.quoted, escaped: false }
        } else if s.quoted && c == 92 {
            Scan { out, quoted: true, escaped: true }
        } else if c == 34 {
            Scan { out, quoted: !s.quoted, escaped: false }
        } else {
            Scan { out, quoted: s.quoted, escaped: false }
        }
    }
}

/// The scan of a whole line.
pub open spec fn scan(raw: Seq<u8>) -> Scan
    decreases raw.len(),
{
    if raw.len() == 0 {
        Scan { out: Seq::empty(), quoted: false, escaped: false }
    } else {
        scan_step(scan(raw.drop_last()), raw.last())
    }
}

/// An escape covers one byte: the byte after a backslash in a string is
/// kept as it is and ends the escape, whatever it is, a backslash included.
pub proof fn law_escape_covers_one_byte(p: Seq<u8>, c: u8)
    requires
        scan(p).escaped,
    ensures
        scan(p.push(c)) == (Scan { out: scan(p).out.push(c), quoted: scan(p).quoted, escaped: false }),
{
    assert(p.push(c).drop_last() =~= p);
}

/// Inside a string, an escaped backslash followed by a literal tab or
/// carriage return keeps the escaped backslash and escapes the tab or
/// carriage return, and the string goes on unescaped.
pub proof fn law_tab_after_escaped_backslash(p: Seq<u8>, c: u8)
    requires
        scan(p).quoted,
        !scan(p).escaped,
        c == 9 || c == 13,
    ensures
        scan(p + seq![92u8, 92u8, c]) == (Scan {
            out: scan(p).out + seq![92u8, 92u8, 92u8, if c == 9 { 116u8 } else { 114u8 }],
            quoted: true,
            escaped: false,
        }),
{
    let q1 = p.push(92u8);
    let q2 = q1.push(92u8);
    let q3 = q2.push(c);
    assert(q1.drop_last() =~= p);
    assert(q2.drop_last() =~= q1);
    assert(q3.drop_last() =~= q2);
    assert(p + seq![92u8, 92u8, c] =~= q3);
    let e = if c == 9 { 116u8 } else { 114u8 };
    assert(scan(q1) == scan_step(scan(p), 92u8));
    assert(scan(q1) == (Scan { out: scan(p).out.push(92u8), quoted: true, escaped: true }));
    assert(scan(q2) == scan_step(scan(q1), 92u8));
    assert(scan(q2) == (Scan { out: scan(p).out.push(92u8).push(92u8), quoted: true, escaped: false }));
    assert(scan(q3) == scan_step(scan(q2), c));
    assert(scan(q3).out =~= scan(p).out + seq![92u8, 92u8, 92u8, e]);
}

/// Outside an escape, a literal tab or carriage return in a string never
/// reaches the output: it becomes its two-byte JSON escape.
pub proof fn law_tabs_in_strings_escaped(p: Seq<u8>, c: u8)
    requires
        scan(p).quoted,
        !scan(p).escaped,
        c == 9 || c == 13,
    ensures
        scan(p.push(c)) == (Scan { out: scan(p).out + seq![92u8, if c == 9 { 116u8 } else { 114u8 }], quoted: true, escaped: false }),
{
    assert(p.push(c).drop_last() =~= p);
}

/// A scan is only ever escaping inside a string.
pub proof fn lemma_escape_in_string(p: Seq<u8>)
    ensures
        scan(p).escaped ==> scan(p).quoted,
    decreases p.len(),
{
    if p.len() > 0 {
        lemma_escape_in_string(p.drop_last());
    }
}

/// Outside strings every byte is kept as it is; a quote opens a string.
pub proof fn law_bytes_outside_strings_kept(p: Seq<u8>, c: u8)
    requires
        !scan(p).quoted,
    ensures
        scan(p.push(c)) == (Scan { out: scan(p).out.push(c), quoted: c == 34, escaped: false }),
{
    lemma_escape_in_string(p);
    assert(p.push(c).drop_last() =~= p);
}

/// Inside a string and outside an escape, a byte other than a tab or a
/// carriage return is kept as it is; a quote closes the string and a
/// backslash starts an escape.
pub proof fn law_bytes_inside_strings_kept(p: Seq<u8>, c: u8)
    requires
        scan(p).quoted,
        !scan(p).escaped,
        c != 9 && c != 13,
    ensures
        scan(p.push(c)) == (Scan { out: scan(p).out.push(c), quoted: c != 34, escaped: c == 92 }),
{
    assert(p.push(c).drop_last() =~= p);
}

/// Normalize one legacy JSONL line: it must fit the text limit and end in a
/// line feed; literal tabs and carriage returns inside strings, which the
/// former writer left unescaped, become JSON escapes.
pub fn normalize_line(raw: &[u8]) -> (r: Result<Vec<u8>, Error>)
    ensures
        raw@.len() > MAX_TEXT_BYTES ==> r matches Err(Error::Rejected(_)),
        raw@.len() <= MAX_TEXT_BYTES && (raw@.len() == 0 || raw@.last() != 10u8) ==> r matches Err(Error::Rejected(_)),
        raw@.len() <= MAX_TEXT_BYTES && raw@.len() > 0 && raw@.last() == 10u8 ==> (r matches Ok(out) && out@ == scan(raw@).out),
{
    if raw.len() > MAX_TEXT_BYTES {
        return Err(Error::Rejected("line byte limit".to_string()));
    }
    if raw.len() == 0 || raw[raw.len() - 1] != 10 {
        return Err(Error::Rejected("unterminated source line".to_string()));
    }
    let mut out: Vec<u8> = Vec::new();
    let mut quoted = false;
    let mut escaped = false;
    let mut i: usize = 0;
    while i < raw.len()
        invariant
            i <= raw@.len(),
            scan(raw@.take(i as int)) == (Scan { out: out@, quoted, escaped }),
        decreases raw@.len() - i,
    {
        proof {
            assert(raw@.take(i + 1).drop_last() =~= raw@.take(i as int));
        }
        let c = raw[i];
        if quoted && !escaped && (c == 9 || c == 13) {
            out.push(92);
            out.push(if c == 9 { 116 } else { 114 });
            proof {
                assert(out@ =~= scan(raw@.take(i as int)).out + seq![92u8, if c == 9 { 116u8 } else { 114u8 }]);
            }
        } else {
            out.push(c);
            if escaped {
                escaped = false;
            } else if quoted && c == 92 {
                escaped = true;
            } else if c == 34 {
                quoted = !quoted;
            }
        }
        i = i + 1;
    }
    proof {
        assert(raw@.take(raw@.len() as int) =~= raw@);
    }
    Ok(out)
}

/// The 32 bytes that 64 hex digits denote.
pub open spec fn spec_particle_hex(h: Seq<u8>) -> Option<Seq<u8>> {
    if h.len() != 64 || !(forall|i: int| 0 <= i < 64 ==> #[trigger] is_hex_digit(h[i])) {
        None
    } else {
        Some(Seq::new(32, |i: int| (nibble(h[2 * i]) * 16 + nibble(h[2 * i + 1])) as u8))
    }
}

fn hex_value(c: u8) -> (v: u8)
    requires
        is_hex_digit(c),
    ensures
        v == nibble(c),
        v < 16,
{
    if 48 <= c && c <= 57 {
        c - 48
    } else if 97 <= c && c <= 102 {
        c - 87
    } else {
        c - 55
    }
}

/// Check a legacy line's particle against its text: the particle must be 64
/// hex digits, and the Hemera digest of the text.
pub fn check_text(particle: &str, text: &str) -> (r: Result<Particle, Error>)
    ensures
        match spec_particle_hex(particle.spec_bytes()) {
            None => r matches Err(Error::Rejected(_)),
            Some(id) => if hemera_hash(text.spec_bytes()) == id {
                r matches Ok(p) && p@ == id
            } else {
                r matches Err(Error::Rejected(_))
            },
        },
{
    let h = particle.as_bytes();
    if h.len() != 64 {
        return Err(Error::Rejected("particle must contain 64 hex digits".to_string()));
    }
    let mut i: usize = 0;
    while i < 64
        invariant
            i <= 64,
            h@.len() == 64,
            h@ == particle.spec_bytes(),
            forall|j: int| 0 <= j < i ==> #[trigger] is_hex_digit(h@[j]),
        decreases 64 - i,
    {
        let c = h[i];
        if !((48 <= c && c <= 57) || (97 <= c && c <= 102) || (65 <= c && c <= 70)) {
            proof {
                assert(!is_hex_digit(h@[i as int]));
            }
            return Err(Error::Rejected("particle must contain 64 hex digits".to_string()));
        }
        i = i + 1;
    }
    let mut id = [0u8; 32];
    let mut k: usize = 0;
    while k < 32
        invariant
            k <= 32,
            h@.len() == 64,
            forall|j: int| 0 <= j < 64 ==> #[trigger] is_hex_digit(h@[j]),
            forall|j: int| 0 <= j < k ==> id@[j] == (nibble(h@[2 * j]) * 16 + nibble(h@[2 * j + 1])) as u8,
        decreases 32 - k,
    {
        let hi = hex_value(h[2 * k]);
        let lo = hex_value(h[2 * k + 1]);
        id[k] = hi * 16 + lo;
        k = k + 1;
    }
    proof {
        assert(id@ =~= Seq::new(32, |i: int| (nibble(h@[2 * i]) * 16 + nibble(h@[2 * i + 1])) as u8));
    }
    let digest = hemera(text.as_bytes());
    if !particle_eq(&digest, &id) {
        return Err(Error::Rejected("text hash mismatch".to_string()));
    }
    Ok(id)
}

/// `cybergraph/text-import-request/1` and a zero byte.
pub open spec fn import_domain() -> Seq<u8> {
    seq![99u8, 121, 98, 101, 114, 103, 114, 97, 112, 104, 47, 116, 101, 120, 116, 45, 105, 109, 112, 111, 114, 116, 45, 114, 101, 113, 117, 101, 115, 116, 47, 49, 0]
}

/// The request under which a legacy source's import ends after `lines`
/// lines: Hemera over the domain, the source and the line count.
pub fn import_request(source: &Particle, lines: u64) -> (r: Particle)
    ensures
        r@ == hemera_hash(import_domain() + source@ + le64(lines)),
{
    let d: [u8; 33] = [99, 121, 98, 101, 114, 103, 114, 97, 112, 104, 47, 116, 101, 120, 116, 45, 105, 109, 112, 111, 114, 116, 45, 114, 101, 113, 117, 101, 115, 116, 47, 49, 0];
    proof {
        assert(d@ =~= import_domain());
    }
    let mut buf: Vec<u8> = Vec::new();
    append(&mut buf, d.as_slice());
    append(&mut buf, source);
    put_u64_le(&mut buf, lines);
    hemera(buf.as_slice())
}


/// What preparing an observation does next.
#[derive(Debug)]
pub enum PrepareNext {
    /// The request is on record with the same observation: the head it set.
    Existing(Head),
    /// A new observation: the record to serialise, and the text and raw
    /// line contents it refers to.
    Record { record: Observation, text: Content, raw: Option<Content> },
}

/// The schema every observation record names.
pub open spec fn schema() -> Seq<char> {
    "cybergraph/text-observation/1"@
}

/// An observation on record is the one a request would record: the same
/// request, text, creation time and origin.
pub open spec fn same_observation(po: Observation, request: Particle, text: Seq<u8>, created: Option<u64>,
    origin: Option<(Particle, u64, &[u8])>) -> bool {
    &&& po.request == request
    &&& po.text@ == hemera_hash(text)
    &&& po.created == created
    &&& match origin {
        None => po.provenance is None,
        Some((source, line, bytes)) => po.provenance matches Some(pv) && pv.source == source && pv.line == line
            && pv.raw@ == hemera_hash(bytes@),
    }
}

/// The first step of recording a text observation for `request`: the text
/// must fit the text limit and, with the raw line of its origin, be stored
/// as blobs; then, where the request is on record (`prior`: the head it set
/// and its observation), it is answered with that head if the observation
/// is the same and refused otherwise; else the record of a new observation
/// after `expected` is returned, for the caller to serialise.
pub fn prepare_step(request: Particle, text: &str, created: Option<u64>, origin: Option<(Particle, u64, &[u8])>,
    expected: Option<Head>, prior: Option<(Head, Observation)>) -> (r: Result<PrepareNext, Error>)
    ensures
        text.spec_bytes().len() > MAX_TEXT_BYTES ==> r matches Err(Error::InvalidProposal),
        r matches Ok(PrepareNext::Existing(h)) ==> prior matches Some((ph, po)) && h == ph && po.request == request
            && po.text@ == hemera_hash(text.spec_bytes()) && po.created == created
            && (origin is None ==> po.provenance is None)
            && (origin matches Some((source, line, bytes)) ==> po.provenance matches Some(pv) && pv.source == source && pv.line == line
                && pv.raw@ == hemera_hash(bytes@)),
        r matches Ok(PrepareNext::Record { record, text: t, raw }) ==> {
            &&& prior is None
            &&& t@ == (ContentView { id: hemera_hash(text.spec_bytes()), codec: Codec::Blob, bytes: text.spec_bytes() })
            &&& (origin is None <==> raw is None)
            &&& (origin matches Some((_, _, bytes)) ==> raw matches Some(c) && c@ == (ContentView { id: hemera_hash(bytes@), codec: Codec::Blob, bytes: bytes@ }))
            &&& record.schema@ == schema()
            &&& record.previous == (match expected { Some(h) => Some(h.commit), None => None::<Particle> })
            &&& record.request == request
            &&& record.text@ == t@.id
            &&& record.created == created
            &&& (origin is None ==> record.provenance is None)
            &&& (origin matches Some((source, line, _)) ==> record.provenance matches Some(pv) && pv.source == source
                && pv.line == line && pv.raw@ == raw->0@.id)
        },
        prior is None && text.spec_bytes().len() <= MAX_TEXT_BYTES
            && (origin matches Some((_, _, bytes)) ==> bytes@.len() <= MAX_CONTENT_BYTES) ==> r matches Ok(PrepareNext::Record { .. }),
        prior is Some && text.spec_bytes().len() <= MAX_TEXT_BYTES
            && (origin matches Some((_, _, bytes)) ==> bytes@.len() <= MAX_CONTENT_BYTES) ==>
            if same_observation((prior->0).1, request, text.spec_bytes(), created, origin) {
                r == Ok::<PrepareNext, Error>(PrepareNext::Existing((prior->0).0))
            } else {
                r matches Err(Error::InvalidProposal)
            },
        prior is Some && text.spec_bytes().len() <= MAX_TEXT_BYTES
            && (origin matches Some((_, _, bytes)) ==> bytes@.len() <= MAX_CONTENT_BYTES) ==> match r {
                Ok(PrepareNext::Existing(h)) => h == (prior->0).0,
                Ok(_) => false,
                Err(e) => e is InvalidProposal,
            },
{
    let bytes = text.as_bytes();
    if bytes.len() > MAX_TEXT_BYTES {
        return Err(Error::InvalidProposal);
    }
    let mut tb: Vec<u8> = Vec::new();
    append(&mut tb, bytes);
    let content = match Content::new(Codec::Blob, tb) {
        Ok(c) => c,
        Err(e) => return Err(Error::Content(e)),
    };
    let raw = match origin {
        Some((_, _, bytes)) => {
            let mut rb: Vec<u8> = Vec::new();
            append(&mut rb, bytes);
            match Content::new(Codec::Blob, rb) {
                Ok(c) => Some(c),
                Err(e) => return Err(Error::Content(e)),
            }
        },
        None => None,
    };
    let provenance = match (origin, &raw) {
        (Some((source, line, _)), Some(c)) => Some(Provenance { source, line, raw: c.id() }),
        _ => None,
    };
    let tid = content.id();
    if let Some((head, prior)) = prior {
        if answers(&prior, &request, &tid, created, &provenance) {
            return Ok(PrepareNext::Existing(head));
        }
        proof {
            if same_observation(prior, request, text.spec_bytes(), created, origin) {
                assert(prior.text@ =~= tid@);
                assert(prior.text == tid);
                if let Some((source, line, b)) = origin {
                    let pv = prior.provenance->0;
                    let q = provenance->0.raw;
                    assert(pv.raw@ =~= q@);
                    assert(pv.raw == q);
                    assert(prior.provenance == provenance);
                }
                assert(false);
            }
        }
        return Err(Error::InvalidProposal);
    }
    let previous = match expected {
        Some(h) => Some(h.commit),
        None => None,
    };
    let record = Observation { schema: String::from_str("cybergraph/text-observation/1"), previous, request, text: tid, created, provenance };
    Ok(PrepareNext::Record { record, text: content, raw })
}

/// The stored contents of an observation: its text, its record unless that
/// is the same content, and its raw line unless that is one of the others.
pub open spec fn observation_contents(text: ContentView, record: ContentView, raw: Option<ContentView>) -> Seq<ContentView> {
    seq![text] + (if record.id == text.id { Seq::empty() } else { seq![record] }) + match raw {
        Some(c) => if c.id == text.id || c.id == record.id { Seq::empty() } else { seq![c] },
        None => Seq::empty(),
    }
}

/// The second step of recording a new observation, once its record is
/// serialised as `record_bytes`: the record is stored as a blob, the head
/// after `expected` commits it, the observation must fit one transaction,
/// and the proposal for the namespace stores the text, the record and the
/// raw line and refers to the text, the raw line and the expected commit.
pub fn finish_step(namespace: Particle, request: Particle, expected: Option<Head>, text: Content, raw: Option<Content>, record_bytes: Vec<u8>)
    -> (r: Result<Proposal, Error>)
    ensures
        record_bytes@.len() > MAX_CONTENT_BYTES ==> r is Err,
        record_bytes@.len() <= MAX_CONTENT_BYTES ==> ({
            let rec = ContentView { id: hemera_hash(record_bytes@), codec: Codec::Blob, bytes: record_bytes@ };
            let rawv = match raw { Some(c) => Some(c@), None => None::<ContentView> };
            match expected {
                Some(h) if h.index == u64::MAX => r matches Err(Error::InvalidProposal),
                Some(h) if h.index + 1 >= MAX_OBSERVATIONS => r matches Err(Error::Rejected(_)),
                _ => if observation_cost(text@, rec, rawv) > MAX_CONTENT_BYTES {
                    r matches Err(Error::Rejected(_))
                } else {
                    r matches Ok(p) && p.namespace == namespace && p.request == request && p.expected == expected
                        && p.head.index == (match expected { Some(h) => h.index + 1, None => 0 })
                        && p.head.commit@ == rec.id
                        && p.content@.map_values(|c: Content| c@) == observation_contents(text@, rec, rawv)
                        && p.required@.map_values(|q: Particle| q@) == seq![text@.id]
                            + (match raw { Some(c) => seq![c@.id], None => Seq::empty() })
                            + (match expected { Some(h) => seq![h.commit@], None => Seq::empty() })
                        && p.claims@.len() == 0
                },
            }
        }),
{
    let record = match Content::new(Codec::Blob, record_bytes) {
        Ok(c) => c,
        Err(e) => return Err(Error::Content(e)),
    };
    let head = observation_head(expected, record.id())?;
    match &raw {
        Some(c) => observation_budget(&text, &record, Some(c))?,
        None => observation_budget(&text, &record, None)?,
    }
    let tid = text.id();
    let rid = record.id();
    let mut required: Vec<Particle> = Vec::new();
    required.push(tid);
    let mut contents: Vec<Content> = Vec::new();
    let ghost tv = text@;
    let ghost rv = record@;
    let ghost rawv = match &raw { Some(c) => Some(c@), None => None::<ContentView> };
    contents.push(text);
    if !particle_eq(&rid, &tid) {
        contents.push(record);
    }
    match raw {
        Some(c) => {
            let cid = c.id();
            required.push(cid);
            if !particle_eq(&cid, &tid) && !particle_eq(&cid, &rid) {
                contents.push(c);
            }
        },
        None => {},
    }
    if let Some(h) = expected {
        required.push(h.commit);
    }
    proof {
        assert(contents@.map_values(|c: Content| c@) =~= observation_contents(tv, rv, rawv));
        assert(required@.map_values(|q: Particle| q@) =~= seq![tv.id]
            + (match rawv { Some(c) => seq![c.id], None => Seq::empty() })
            + (match expected { Some(h) => seq![h.commit@], None => Seq::empty() }));
    }
    Ok(Proposal { namespace, request, expected, head, content: contents, required, claims: Vec::new() })
}

/// The identity of a legacy source: Hemera over its bytes, which must fit
/// the source limit.
pub fn import_source(bytes: &[u8]) -> (r: Result<Particle, Error>)
    ensures
        bytes@.len() > MAX_SOURCE_BYTES ==> r matches Err(Error::InvalidProposal),
        bytes@.len() <= MAX_SOURCE_BYTES ==> (r matches Ok(s) && s@ == hemera_hash(bytes@)),
{
    if bytes.len() > MAX_SOURCE_BYTES {
        return Err(Error::InvalidProposal);
    }
    Ok(hemera(bytes))
}

/// `ranges` split `n` bytes of `b` into lines as `split_inclusive` on LF
/// does: non-empty, end to end from the start to the end, each but the last
/// ending at an LF, and no LF before a line's last byte.
pub open spec fn splits_lines(b: Seq<u8>, ranges: Seq<(usize, usize)>) -> bool {
    &&& (ranges.len() == 0 <==> b.len() == 0)
    &&& ranges.len() > 0 ==> ranges[0].0 == 0 && ranges.last().1 == b.len()
    &&& forall|i: int| 0 <= i < ranges.len() ==> #[trigger] ranges[i].0 < ranges[i].1
    &&& forall|i: int| 0 <= i < ranges.len() - 1 ==> #[trigger] ranges[i].1 == ranges[i + 1].0
    &&& forall|i: int| 0 <= i < ranges.len() - 1 ==> b[#[trigger] ranges[i].1 - 1] == 10u8
    &&& forall|i: int, k: int| 0 <= i < ranges.len() && #[trigger] ranges[i].0 <= k < ranges[i].1 - 1 ==> #[trigger] b[k] != 10u8
}

/// The lines of a source, as byte ranges.
pub fn source_lines(bytes: &[u8]) -> (r: Vec<(usize, usize)>)
    ensures
        splits_lines(bytes@, r@),
{
    let mut out: Vec<(usize, usize)> = Vec::new();
    let mut start: usize = 0;
    let mut k: usize = 0;
    while k < bytes.len()
        invariant
            start <= k <= bytes@.len(),
            out@.len() == 0 <==> start == 0,
            out@.len() > 0 ==> out@[0].0 == 0 && out@.last().1 == start,
            forall|i: int| 0 <= i < out@.len() ==> #[trigger] out@[i].0 < out@[i].1,
            forall|i: int| 0 <= i < out@.len() - 1 ==> #[trigger] out@[i].1 == out@[i + 1].0,
            forall|i: int| 0 <= i < out@.len() ==> bytes@[#[trigger] out@[i].1 - 1] == 10u8,
            forall|i: int, j: int| 0 <= i < out@.len() && #[trigger] out@[i].0 <= j < out@[i].1 - 1 ==> #[trigger] bytes@[j] != 10u8,
            forall|j: int| start <= j < k ==> #[trigger] bytes@[j] != 10u8,
        decreases bytes@.len() - k,
    {
        if bytes[k] == 10u8 {
            let ghost before = out@;
            out.push((start, k + 1));
            proof {
                assert forall|i: int, j: int| 0 <= i < out@.len() && #[trigger] out@[i].0 <= j < out@[i].1 - 1 implies #[trigger] bytes@[j] != 10u8 by {
                    if i < before.len() {
                        assert(out@[i] == before[i]);
                    }
                }
                assert forall|i: int| 0 <= i < out@.len() - 1 implies #[trigger] out@[i].1 == out@[i + 1].0 by {
                    if i + 1 < before.len() {
                        assert(out@[i] == before[i] && out@[i + 1] == before[i + 1]);
                    } else {
                        assert(out@[i] == before[i]);
                    }
                }
            }
            start = k + 1;
        }
        k = k + 1;
    }
    if start < bytes.len() {
        let ghost before = out@;
        out.push((start, bytes.len()));
        proof {
            assert forall|i: int, j: int| 0 <= i < out@.len() && #[trigger] out@[i].0 <= j < out@[i].1 - 1 implies #[trigger] bytes@[j] != 10u8 by {
                if i < before.len() {
                    assert(out@[i] == before[i]);
                }
            }
            assert forall|i: int| 0 <= i < out@.len() - 1 implies #[trigger] out@[i].1 == out@[i + 1].0 by {
                if i + 1 < before.len() {
                    assert(out@[i] == before[i] && out@[i + 1] == before[i + 1]);
                } else {
                    assert(out@[i] == before[i]);
                }
            }
            assert forall|i: int| 0 <= i < out@.len() - 1 implies bytes@[#[trigger] out@[i].1 - 1] == 10u8 by {
                assert(out@[i] == before[i]);
            }
        }
    }
    out
}

/// The request under which line `number` of a source is imported: the
/// line must be numbered from one and fit the text limit.
pub fn line_request(source: &Particle, number: u64, raw: &[u8]) -> (r: Result<Particle, Error>)
    ensures
        number == 0 || raw@.len() > MAX_TEXT_BYTES ==> r matches Err(Error::InvalidProposal),
        number > 0 && raw@.len() <= MAX_TEXT_BYTES ==> (r matches Ok(q) && q@ == hemera_hash(import_domain() + source@ + le64(number))),
{
    if number == 0 || raw.len() > MAX_TEXT_BYTES {
        return Err(Error::InvalidProposal);
    }
    Ok(import_request(source, number))
}

/// How a line of an import was prepared: answered by the observation on
/// record for its request, or appended as a new observation with this head.
#[derive(Debug, Clone, Copy, PartialEq, Eq)]
pub enum LinePrepared {
    Existing(Head),
    Append(Head),
}

/// The two passes of an import: a dry run over every line, then the
/// publication of every line.
#[derive(Debug, Clone, Copy, PartialEq, Eq)]
pub enum ImportPhase {
    DryRun,
    Publish,
}

/// What an import does after a line.
#[derive(Debug, Clone, Copy, PartialEq, Eq)]
pub enum ImportAction {
    /// Go on to the next line of the dry run.
    Check,
    /// Every line passed the dry run: publish from the first line, preparing
    /// each against the returned head.
    Publish,
    /// Publish this line's prepared observation, then go on.
    Commit,
    /// This line's observation is the last one: publish it; the import is
    /// then done.
    Finish,
}

/// An import of a legacy source of `lines` lines: the phase, the lines
/// taken in the phase, the lines the dry run accepted, the head the next
/// line is prepared against, the projection's text sizes and bytes, and the
/// head of the last published line.
pub struct TextImport {
    lines: u64,
    start: Option<Head>,
    phase: ImportPhase,
    line: u64,
    checked: u64,
    expected: Option<Head>,
    sizes: Keyed<usize>,
    bytes: usize,
    head: Option<Head>,
}

/// The next head after a prepared line.
pub open spec fn after_line(expected: Option<Head>, p: LinePrepared) -> Option<Head> {
    match p {
        LinePrepared::Append(h) => Some(h),
        LinePrepared::Existing(_) => expected,
    }
}

/// The head a published line leaves.
pub open spec fn published_head(p: LinePrepared) -> Head {
    match p {
        LinePrepared::Append(h) => h,
        LinePrepared::Existing(h) => h,
    }
}

impl TextImport {
    pub closed spec fn lines_view(&self) -> u64 { self.lines }
    pub closed spec fn start_view(&self) -> Option<Head> { self.start }
    pub closed spec fn phase_view(&self) -> ImportPhase { self.phase }
    pub closed spec fn line_view(&self) -> u64 { self.line }
    pub closed spec fn checked_view(&self) -> u64 { self.checked }
    pub closed spec fn expected_view(&self) -> Option<Head> { self.expected }
    pub closed spec fn sizes_view(&self) -> Map<Particle, usize> { self.sizes@ }
    pub closed spec fn bytes_view(&self) -> usize { self.bytes }
    pub closed spec fn head_view(&self) -> Option<Head> { self.head }

    /// Nothing is published before the dry run accepted every line, and
    /// no phase runs past the last line.
    pub open spec fn wf(&self) -> bool {
        &&& self.line_view() <= self.lines_view()
        &&& self.checked_view() <= self.lines_view()
        &&& self.phase_view() is DryRun ==> self.checked_view() == self.line_view() && self.line_view() < self.lines_view()
        &&& self.phase_view() is Publish ==> self.checked_view() == self.lines_view()
    }

    /// Every line was published.
    pub open spec fn finished(&self) -> bool {
        self.phase_view() is Publish && self.line_view() == self.lines_view()
    }

    /// An import of `lines` lines onto a namespace at `start`, whose
    /// projection holds `sizes` and `bytes` text bytes. A source without
    /// lines has nothing to check or publish.
    pub fn new(lines: u64, start: Option<Head>, sizes: Keyed<usize>, bytes: usize) -> (r: Self)
        ensures
            r.wf(),
            r.lines_view() == lines,
            r.start_view() == start,
            r.expected_view() == start,
            r.line_view() == 0,
            r.checked_view() == 0,
            r.phase_view() == (if lines == 0 { ImportPhase::Publish } else { ImportPhase::DryRun }),
            r.sizes_view() == sizes@,
            r.bytes_view() == bytes,
            r.head_view() is None,
    {
        let phase = if lines == 0 { ImportPhase::Publish } else { ImportPhase::DryRun };
        TextImport { lines, start, phase, line: 0, checked: 0, expected: start, sizes, bytes, head: None }
    }

    /// The number of the next line, counted from one.
    pub fn next_line(&self) -> (n: u64)
        requires
            self.wf(),
            !self.finished(),
        ensures
            n == self.line_view() + 1,
    {
        self.line + 1
    }

    /// The head the next line is prepared against.
    pub fn expected(&self) -> (h: Option<Head>)
        ensures
            h == self.expected_view(),
    {
        self.expected
    }

    /// Whether every line was published.
    pub fn is_finished(&self) -> (r: bool)
        ensures
            r == self.finished(),
    {
        match self.phase {
            ImportPhase::Publish => self.line == self.lines,
            ImportPhase::DryRun => false,
        }
    }

    /// The report of a finished import of `source`, `total` bytes long.
    pub fn report(&self, source: Particle, total: u64) -> (r: ImportReport)
        ensures
            r == (ImportReport { source, observations: self.lines_view(), bytes: total, head: self.head_view() }),
    {
        ImportReport { source, observations: self.lines, bytes: total, head: self.head }
    }

    /// Take the next line, whose text is `text` and which was prepared as
    /// `prepared` (or refused). In the dry run a refused line, or a text
    /// that would overflow the projection, stops the import before anything
    /// is published; an accepted line extends the projection and moves the
    /// expected head; after the last line the import restarts from the
    /// first head to publish. In the publication every line is published
    /// in turn; a refused line stops it.
    pub fn settle_line(&mut self, text: &str, prepared: Result<LinePrepared, Error>) -> (r: Result<ImportAction, Error>)
        requires
            old(self).wf(),
            !old(self).finished(),
        ensures
            final(self).wf(),
            final(self).lines_view() == old(self).lines_view(),
            final(self).start_view() == old(self).start_view(),
            (r == Ok::<ImportAction, Error>(ImportAction::Commit) || r == Ok::<ImportAction, Error>(ImportAction::Finish)) ==> old(self).phase_view() is Publish
                && old(self).checked_view() == old(self).lines_view(),
            prepared matches Err(e) ==> r == Err::<ImportAction, Error>(e),
            old(self).phase_view() is DryRun && prepared is Ok ==> ({
                let id = choose|p: Particle| p@ == hemera_hash(text.spec_bytes());
                let len = text.spec_bytes().len();
                if old(self).sizes_view().contains_key(id) || old(self).bytes_view() + len <= MAX_PROJECTION_BYTES {
                    &&& final(self).sizes_view() == (if old(self).sizes_view().contains_key(id) { old(self).sizes_view() }
                        else { old(self).sizes_view().insert(id, len as usize) })
                    &&& final(self).checked_view() == old(self).checked_view() + 1
                    &&& if old(self).line_view() + 1 == old(self).lines_view() {
                        &&& r == Ok::<ImportAction, Error>(ImportAction::Publish)
                        &&& final(self).phase_view() is Publish
                        &&& final(self).line_view() == 0
                        &&& final(self).expected_view() == old(self).start_view()
                    } else {
                        &&& r == Ok::<ImportAction, Error>(ImportAction::Check)
                        &&& final(self).phase_view() is DryRun
                        &&& final(self).line_view() == old(self).line_view() + 1
                        &&& final(self).expected_view() == after_line(old(self).expected_view(), prepared->Ok_0)
                    }
                } else {
                    r is Err
                }
            }),
            old(self).phase_view() is Publish && prepared is Ok ==> {
                &&& final(self).line_view() == old(self).line_view() + 1
                &&& final(self).phase_view() is Publish
                &&& final(self).expected_view() == after_line(old(self).expected_view(), prepared->Ok_0)
                &&& final(self).head_view() == Some(published_head(prepared->Ok_0))
                &&& r == Ok::<ImportAction, Error>(if old(self).line_view() + 1 == old(self).lines_view() { ImportAction::Finish } else { ImportAction::Commit })
            },
    {
        let p = match prepared {
            Ok(p) => p,
            Err(e) => return Err(e),
        };
        let next = match p {
            LinePrepared::Append(h) => Some(h),
            LinePrepared::Existing(_) => self.expected,
        };
        match self.phase {
            ImportPhase::DryRun => {
                let bytes = text.as_bytes();
                let id = hemera(bytes);
                proof {
                    assert(bytes@ == text.spec_bytes());
                    let c = choose|q: Particle| q@ == hemera_hash(text.spec_bytes());
                    assert(c@ =~= id@);
                    assert(c == id);
                }
                extend_projection(&mut self.sizes, &mut self.bytes, id, bytes.len())?;
                self.checked = self.checked + 1;
                if self.line + 1 == self.lines {
                    self.phase = ImportPhase::Publish;
                    self.line = 0;
                    self.expected = self.start;
                    Ok(ImportAction::Publish)
                } else {
                    self.line = self.line + 1;
                    self.expected = next;
                    Ok(ImportAction::Check)
                }
            },
            ImportPhase::Publish => {
                self.head = Some(match p {
                    LinePrepared::Append(h) => h,
                    LinePrepared::Existing(h) => h,
                });
                self.line = self.line + 1;
                self.expected = next;
                if self.line == self.lines {
                    Ok(ImportAction::Finish)
                } else {
                    Ok(ImportAction::Commit)
                }
            },
        }
    }
}
} // verus!
