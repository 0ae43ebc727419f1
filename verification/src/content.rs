//! Verified graph content: bytes together with the identity their codec gives them.
use vstd::prelude::*;
use vstd::bytes::spec_u64_from_le_bytes;
use crate::Particle;
use crate::hash::{hemera, hemera_hash, nox_accepts, nox_particle, nox_particle_of, FIELD_P};
use crate::wire::{append, get_u64_le, to_array};

verus! {

/// Largest payload of one content value.
pub const MAX_CONTENT_BYTES: usize = 16777216;

/// How a content value's identity is derived from its bytes.
#[derive(Debug, Clone, Copy, PartialEq, Eq, Structural)]
pub enum Codec {
    /// nox data: an atom or a pair, identified by its tree hash.
    Data,
    /// Opaque bytes, identified by their Hemera digest.
    Blob,
}

/// Why bytes could not become content.
#[derive(Debug, Clone, Copy, PartialEq, Eq, Structural)]
pub enum ContentError {
    InvalidData,
    NoncanonicalParticle,
    TooLarge,
    IdentityMismatch,
}

/// The mathematical value of a content item.
pub ghost struct ContentView {
    pub id: Seq<u8>,
    pub codec: Codec,
    pub bytes: Seq<u8>,
}

/// The `i`-th little-endian 8-byte limb of a byte string.
pub open spec fn limb(bytes: Seq<u8>, i: int) -> u64 {
    spec_u64_from_le_bytes(bytes.subrange(8 * i, 8 * i + 8))
}

/// Every limb of a 64-byte pair is a field element.
pub open spec fn canonical_limbs(bytes: Seq<u8>) -> bool {
    forall|i: int| 0 <= i < 8 ==> #[trigger] limb(bytes, i) < FIELD_P
}

/// The identity that a codec gives to a byte string, or why it gives none.
pub open spec fn spec_identity(codec: Codec, bytes: Seq<u8>) -> Result<Seq<u8>, ContentError> {
    if bytes.len() > MAX_CONTENT_BYTES {
        Err(ContentError::TooLarge)
    } else {
        match codec {
            Codec::Blob => Ok(hemera_hash(bytes)),
            Codec::Data => {
                if bytes.len() == 64 && !canonical_limbs(bytes) {
                    Err(ContentError::NoncanonicalParticle)
                } else if nox_accepts(bytes) {
                    Ok(nox_particle(bytes))
                } else {
                    Err(ContentError::InvalidData)
                }
            },
        }
    }
}

/// The content value that `Content::new` builds from a codec and bytes.
pub open spec fn spec_content(codec: Codec, bytes: Seq<u8>) -> Result<ContentView, ContentError> {
    match spec_identity(codec, bytes) {
        Ok(id) => Ok(ContentView { id, codec, bytes }),
        Err(e) => Err(e),
    }
}

/// The one-byte codec tag of the stored form.
pub open spec fn codec_tag(codec: Codec) -> u8 {
    match codec {
        Codec::Data => 0,
        Codec::Blob => 1,
    }
}

/// The stored form: the codec tag followed by the bytes.
pub open spec fn spec_stored(v: ContentView) -> Seq<u8> {
    seq![codec_tag(v.codec)] + v.bytes
}

/// The content that a stored form under an expected identity reads back as.
pub open spec fn spec_from_stored(id: Seq<u8>, stored: Seq<u8>) -> Result<ContentView, ContentError> {
    if stored.len() == 0 || (stored[0] != 0 && stored[0] != 1) {
        Err(ContentError::InvalidData)
    } else {
        let codec = if stored[0] == 0 { Codec::Data } else { Codec::Blob };
        match spec_content(codec, stored.subrange(1, stored.len() as int)) {
            Err(e) => Err(e),
            Ok(v) => if v.id == id { Ok(v) } else { Err(ContentError::IdentityMismatch) },
        }
    }
}

/// The pair encoding of two children: the left particle followed by the right.
pub open spec fn spec_pair(left: Seq<u8>, right: Seq<u8>) -> Seq<u8> {
    left + right
}

/// Verified content: its identity always matches its codec and bytes.
#[derive(Debug)]
pub struct Content {
    id: Particle,
    codec: Codec,
    bytes: Vec<u8>,
}

impl Clone for Content {
    fn clone(&self) -> (r: Self)
        ensures
            r@ == self@,
    {
        proof { use_type_invariant(self); }
        let mut bytes = Vec::new();
        append(&mut bytes, self.bytes.as_slice());
        assert(bytes@ =~= self.bytes@);
        Content { id: self.id, codec: self.codec, bytes }
    }
}

impl View for Content {
    type V = ContentView;

    closed spec fn view(&self) -> ContentView {
        ContentView { id: self.id@, codec: self.codec, bytes: self.bytes@ }
    }
}

/// Whether two particles are equal.
pub fn particle_eq(a: &Particle, b: &Particle) -> (r: bool)
    ensures
        r == (a@ == b@),
        r == (*a == *b),
{
    let mut i: usize = 0;
    while i < 32
        invariant
            i <= 32,
            a@.len() == 32,
            b@.len() == 32,
            forall|j: int| 0 <= j < i ==> a@[j] == b@[j],
        decreases 32 - i,
    {
        if a[i] != b[i] {
            return false;
        }
        i = i + 1;
    }
    assert(a@ =~= b@);
    assert(*a =~= *b);
    true
}

/// The 64-byte pair encoding of two particles.
pub fn encode_pair(left: &Particle, right: &Particle) -> (out: Vec<u8>)
    ensures
        out@ == spec_pair(left@, right@),
{
    let mut out = Vec::new();
    append(&mut out, left);
    append(&mut out, right);
    assert(out@ =~= left@ + right@);
    out
}

impl Content {
    #[verifier::type_invariant]
    closed spec fn well_formed(self) -> bool {
        spec_identity(self.codec, self.bytes@) == Ok::<Seq<u8>, ContentError>(self.id@)
    }

    /// Builds content, deriving its identity from the codec.
    pub fn new(codec: Codec, bytes: Vec<u8>) -> (r: Result<Self, ContentError>)
        ensures
            match spec_content(codec, bytes@) {
                Ok(v) => r matches Ok(c) && c@ == v,
                Err(e) => r == Err::<Self, ContentError>(e),
            },
    {
        if bytes.len() > MAX_CONTENT_BYTES {
            return Err(ContentError::TooLarge);
        }
        let id = match codec {
            Codec::Blob => hemera(bytes.as_slice()),
            Codec::Data => {
                if bytes.len() == 64 {
                    let mut i: usize = 0;
                    while i < 8
                        invariant
                            i <= 8,
                            bytes@.len() == 64,
                            codec == Codec::Data,
                            forall|j: int| 0 <= j < i ==> #[trigger] limb(bytes@, j) < FIELD_P,
                        decreases 8 - i,
                    {
                        let chunk = &bytes.as_slice()[8 * i..8 * i + 8];
                        let value = get_u64_le(chunk);
                        proof {
                            vstd::bytes::lemma_auto_spec_u64_to_from_le_bytes();
                            assert(chunk@ == bytes@.subrange(8 * i as int, 8 * i as int + 8));
                        }
                        assert(limb(bytes@, i as int) == value);
                        if value >= FIELD_P {
                            return Err(ContentError::NoncanonicalParticle);
                        }
                        i = i + 1;
                    }
                }
                match nox_particle_of(bytes.as_slice()) {
                    Some(id) => id,
                    None => return Err(ContentError::InvalidData),
                }
            },
        };
        Ok(Content { id, codec, bytes })
    }

    /// The atom holding one field value.
    pub fn atom(value: u64) -> (r: Result<Self, ContentError>)
        ensures
            match spec_content(Codec::Data, crate::wire::le64(value)) {
                Ok(v) => r matches Ok(c) && c@ == v,
                Err(e) => r == Err::<Self, ContentError>(e),
            },
    {
        let bytes = vstd::bytes::u64_to_le_bytes(value);
        Self::new(Codec::Data, bytes)
    }

    /// The pair of two child particles.
    pub fn pair(left: Particle, right: Particle) -> (r: Result<Self, ContentError>)
        ensures
            match spec_content(Codec::Data, spec_pair(left@, right@)) {
                Ok(v) => r matches Ok(c) && c@ == v,
                Err(e) => r == Err::<Self, ContentError>(e),
            },
    {
        Self::new(Codec::Data, encode_pair(&left, &right))
    }

    /// The identity.
    pub fn id(&self) -> (r: Particle)
        ensures
            r@ == self@.id,
            spec_identity(self@.codec, self@.bytes) == Ok::<Seq<u8>, ContentError>(self@.id),
    {
        proof { use_type_invariant(self); }
        self.id
    }

    /// The codec.
    pub fn codec(&self) -> (r: Codec)
        ensures
            r == self@.codec,
            spec_identity(self@.codec, self@.bytes) == Ok::<Seq<u8>, ContentError>(self@.id),
    {
        proof { use_type_invariant(self); }
        self.codec
    }

    /// The bytes.
    pub fn bytes(&self) -> (r: &[u8])
        ensures
            r@ == self@.bytes,
            spec_identity(self@.codec, self@.bytes) == Ok::<Seq<u8>, ContentError>(self@.id),
    {
        proof { use_type_invariant(self); }
        self.bytes.as_slice()
    }

    /// The two child particles of a data pair; `None` for atoms and blobs.
    pub fn children(&self) -> (r: Option<(Particle, Particle)>)
        ensures
            r is Some <==> (self@.codec == Codec::Data && self@.bytes.len() == 64),
            r matches Some((l, rt)) ==> l@ == self@.bytes.subrange(0, 32)
                && rt@ == self@.bytes.subrange(32, 64),
    {
        if self.codec != Codec::Data || self.bytes.len() != 64 {
            return None;
        }
        let s = self.bytes.as_slice();
        let l: Option<Particle> = to_array(&s[0..32]);
        let rt: Option<Particle> = to_array(&s[32..64]);
        match (l, rt) {
            (Some(l), Some(rt)) => Some((l, rt)),
            _ => None,
        }
    }

    /// The stored form: the codec tag followed by the bytes.
    pub fn stored(&self) -> (r: Vec<u8>)
        ensures
            r@ == spec_stored(self@),
    {
        let mut r = Vec::new();
        r.push(match self.codec {
            Codec::Data => 0u8,
            Codec::Blob => 1u8,
        });
        append(&mut r, self.bytes.as_slice());
        assert(r@ =~= spec_stored(self@));
        r
    }

    /// Reads a stored form back, checking it against the expected identity.
    pub fn from_stored(id: Particle, stored: Vec<u8>) -> (r: Result<Self, ContentError>)
        ensures
            match spec_from_stored(id@, stored@) {
                Ok(v) => r matches Ok(c) && c@ == v,
                Err(e) => r == Err::<Self, ContentError>(e),
            },
    {
        if stored.len() == 0 {
            return Err(ContentError::InvalidData);
        }
        let codec = if stored[0] == 0 {
            Codec::Data
        } else if stored[0] == 1 {
            Codec::Blob
        } else {
            return Err(ContentError::InvalidData);
        };
        let mut rest = Vec::new();
        append(&mut rest, &stored.as_slice()[1..stored.len()]);
        assert(rest@ =~= stored@.subrange(1, stored@.len() as int));
        let content = Self::new(codec, rest)?;
        let cid = content.id();
        if !particle_eq(&cid, &id) {
            return Err(ContentError::IdentityMismatch);
        }
        Ok(content)
    }
}

/// Reading back the stored form of any content under its own identity gives
/// the same content.
pub proof fn law_stored_round_trip(v: ContentView)
    requires
        spec_identity(v.codec, v.bytes) == Ok::<Seq<u8>, ContentError>(v.id),
    ensures
        spec_from_stored(v.id, spec_stored(v)) == Ok::<ContentView, ContentError>(v),
{
    let s = spec_stored(v);
    assert(s.subrange(1, s.len() as int) =~= v.bytes);
}

} // verus!
