//! Fixed-width integer framing shared by the record codecs.
use vstd::prelude::*;
use vstd::bytes::*;

verus! {

/// Little-endian bytes of a `u64`.
pub open spec fn le64(x: u64) -> Seq<u8> {
    spec_u64_to_le_bytes(x)
}

/// Little-endian bytes of a `u32`.
pub open spec fn le32(x: u32) -> Seq<u8> {
    spec_u32_to_le_bytes(x)
}

/// A byte string in the opposite order.
pub open spec fn flip(s: Seq<u8>) -> Seq<u8> {
    Seq::new(s.len(), |i: int| s[s.len() - 1 - i])
}

/// Big-endian bytes of a `u64`.
pub open spec fn be64(x: u64) -> Seq<u8> {
    flip(le64(x))
}

/// Big-endian bytes of a `u32`.
pub open spec fn be32(x: u32) -> Seq<u8> {
    flip(le32(x))
}

/// The fixed widths and the round trips of the integer encodings.
pub proof fn lemma_int_codecs()
    ensures
        forall|x: u64| #[trigger] le64(x).len() == 8 && spec_u64_from_le_bytes(le64(x)) == x,
        forall|x: u32| #[trigger] le32(x).len() == 4 && spec_u32_from_le_bytes(le32(x)) == x,
        forall|x: u64| #[trigger] be64(x).len() == 8,
        forall|x: u32| #[trigger] be32(x).len() == 4,
        forall|s: Seq<u8>| s.len() == 8 ==> #[trigger] le64(spec_u64_from_le_bytes(s)) == s,
        forall|s: Seq<u8>| s.len() == 4 ==> #[trigger] le32(spec_u32_from_le_bytes(s)) == s,
        forall|x: u64, y: u64| #[trigger] le64(x) == #[trigger] le64(y) ==> x == y,
        forall|x: u32, y: u32| #[trigger] le32(x) == #[trigger] le32(y) ==> x == y,
        forall|x: u64, y: u64| #[trigger] be64(x) == #[trigger] be64(y) ==> x == y,
        forall|x: u32, y: u32| #[trigger] be32(x) == #[trigger] be32(y) ==> x == y,
{
    lemma_auto_spec_u64_to_from_le_bytes();
    lemma_auto_spec_u32_to_from_le_bytes();
    assert forall|x: u32, y: u32| #[trigger] le32(x) == #[trigger] le32(y) implies x == y by {
        assert(le32(x).len() == 4);
        assert(le32(y).len() == 4);
        assert(spec_u32_from_le_bytes(le32(x)) == x);
        assert(spec_u32_from_le_bytes(le32(y)) == y);
    }
    assert forall|x: u64, y: u64| #[trigger] le64(x) == #[trigger] le64(y) implies x == y by {
        assert(spec_u64_from_le_bytes(le64(x)) == x);
        assert(spec_u64_from_le_bytes(le64(y)) == y);
    }
    assert forall|x: u64, y: u64| #[trigger] be64(x) == #[trigger] be64(y) implies x == y by {
        assert(le64(x) =~= flip(be64(x)));
        assert(le64(y) =~= flip(be64(y)));
    }
    assert forall|x: u32, y: u32| #[trigger] be32(x) == #[trigger] be32(y) implies x == y by {
        assert(le32(x) =~= flip(be32(x)));
        assert(le32(y) =~= flip(be32(y)));
    }
}

/// The concatenation of a sequence of byte strings.
pub open spec fn flat(parts: Seq<Seq<u8>>) -> Seq<u8>
    decreases parts.len(),
{
    if parts.len() == 0 {
        Seq::empty()
    } else {
        parts[0] + flat(parts.drop_first())
    }
}

/// Concatenation distributes over joining the sequences of parts.
pub proof fn lemma_flat_append(a: Seq<Seq<u8>>, b: Seq<Seq<u8>>)
    ensures
        flat(a + b) == flat(a) + flat(b),
    decreases a.len(),
{
    if a.len() == 0 {
        assert(a + b =~= b);
        assert(flat(a) + flat(b) =~= flat(b));
    } else {
        lemma_flat_append(a.drop_first(), b);
        assert((a + b).drop_first() =~= a.drop_first() + b);
        assert(flat(a + b) =~= flat(a) + flat(b));
    }
}

/// One part more: taking one more part adds it at the end, and the rest
/// after `i` starts with the `i`-th part.
pub proof fn lemma_flat_step(p: Seq<Seq<u8>>, i: int)
    requires
        0 <= i < p.len(),
    ensures
        flat(p.take(i + 1)) == flat(p.take(i)) + p[i],
        flat(p.skip(i)) == p[i] + flat(p.skip(i + 1)),
{
    assert(p.take(i + 1) =~= p.take(i) + seq![p[i]]);
    lemma_flat_append(p.take(i), seq![p[i]]);
    let one = seq![p[i]];
    assert(one.drop_first() =~= Seq::<Seq<u8>>::empty());
    assert(flat(one.drop_first()) == Seq::<u8>::empty());
    assert(flat(one) =~= p[i]);
    assert(p.skip(i).drop_first() =~= p.skip(i + 1));
}

/// The parts split at any index.
pub proof fn lemma_flat_split(p: Seq<Seq<u8>>, i: int)
    requires
        0 <= i <= p.len(),
    ensures
        flat(p) == flat(p.take(i)) + flat(p.skip(i)),
        flat(p.take(0)) == Seq::<u8>::empty(),
        flat(p.skip(p.len() as int)) == Seq::<u8>::empty(),
        flat(p.take(p.len() as int)) == flat(p),
{
    assert(p =~= p.take(i) + p.skip(i));
    lemma_flat_append(p.take(i), p.skip(i));
    assert(p.take(0) =~= Seq::<Seq<u8>>::empty());
    assert(p.skip(p.len() as int) =~= Seq::<Seq<u8>>::empty());
    assert(p.take(p.len() as int) =~= p);
}

/// A range inside a range is a range of the whole.
pub proof fn lemma_sub(s: Seq<u8>, a: int, b: int, c: int, d: int)
    requires
        0 <= a <= b <= s.len(),
        0 <= c <= d <= b - a,
    ensures
        s.subrange(a, b).subrange(c, d) == s.subrange(a + c, a + d),
{
    assert(s.subrange(a, b).subrange(c, d) =~= s.subrange(a + c, a + d));
}

/// Appends a byte string.
pub fn append(out: &mut Vec<u8>, s: &[u8])
    ensures
        final(out)@ == old(out)@ + s@,
{
    let mut i: usize = 0;
    while i < s.len()
        invariant
            i <= s@.len(),
            out@ == old(out)@ + s@.subrange(0, i as int),
        decreases s@.len() - i,
    {
        out.push(s[i]);
        i = i + 1;
        assert(out@ =~= old(out)@ + s@.subrange(0, i as int));
    }
    assert(s@.subrange(0, s@.len() as int) =~= s@);
}

/// Appends a `u64` in little-endian order.
pub fn put_u64_le(out: &mut Vec<u8>, x: u64)
    ensures
        final(out)@ == old(out)@ + le64(x),
{
    let b = u64_to_le_bytes(x);
    append(out, b.as_slice());
}

/// Appends a `u32` in little-endian order.
pub fn put_u32_le(out: &mut Vec<u8>, x: u32)
    ensures
        final(out)@ == old(out)@ + le32(x),
{
    let b = u32_to_le_bytes(x);
    append(out, b.as_slice());
}

/// Appends a byte string in the opposite order.
fn append_flipped(out: &mut Vec<u8>, s: &[u8])
    ensures
        final(out)@ == old(out)@ + flip(s@),
{
    let mut i: usize = s.len();
    while i > 0
        invariant
            i <= s@.len(),
            out@ == old(out)@ + flip(s@).subrange(0, s@.len() - i),
        decreases i,
    {
        i = i - 1;
        out.push(s[i]);
        assert(out@ =~= old(out)@ + flip(s@).subrange(0, s@.len() - i));
    }
    assert(flip(s@).subrange(0, s@.len() as int) =~= flip(s@));
}

/// Appends a `u64` in big-endian order.
pub fn put_u64_be(out: &mut Vec<u8>, x: u64)
    ensures
        final(out)@ == old(out)@ + be64(x),
{
    let b = u64_to_le_bytes(x);
    append_flipped(out, b.as_slice());
}

/// Appends a `u32` in big-endian order.
pub fn put_u32_be(out: &mut Vec<u8>, x: u32)
    ensures
        final(out)@ == old(out)@ + be32(x),
{
    let b = u32_to_le_bytes(x);
    append_flipped(out, b.as_slice());
}

/// The big-endian bytes of a `u64`, as a vector.
pub fn u64_be(x: u64) -> (b: Vec<u8>)
    ensures
        b@ == be64(x),
{
    let mut b = Vec::new();
    put_u64_be(&mut b, x);
    assert(b@ =~= be64(x));
    b
}

/// Reads a little-endian `u64`.
pub fn get_u64_le(s: &[u8]) -> (x: u64)
    requires
        s@.len() == 8,
    ensures
        le64(x) == s@,
{
    proof { lemma_int_codecs(); }
    u64_from_le_bytes(s)
}

/// Reads a little-endian `u32`.
pub fn get_u32_le(s: &[u8]) -> (x: u32)
    requires
        s@.len() == 4,
    ensures
        le32(x) == s@,
{
    proof { lemma_int_codecs(); }
    u32_from_le_bytes(s)
}

/// Reads a big-endian `u64`.
pub fn get_u64_be(s: &[u8]) -> (x: u64)
    requires
        s@.len() == 8,
    ensures
        be64(x) == s@,
{
    let mut r: Vec<u8> = Vec::new();
    append_flipped(&mut r, s);
    proof { lemma_int_codecs(); }
    let x = u64_from_le_bytes(r.as_slice());
    assert(le64(x) == flip(s@));
    assert(be64(x) =~= s@);
    x
}

/// Reads a big-endian `u32`.
pub fn get_u32_be(s: &[u8]) -> (x: u32)
    requires
        s@.len() == 4,
    ensures
        be32(x) == s@,
{
    let mut r: Vec<u8> = Vec::new();
    append_flipped(&mut r, s);
    proof { lemma_int_codecs(); }
    let x = u32_from_le_bytes(r.as_slice());
    assert(le32(x) == flip(s@));
    assert(be32(x) =~= s@);
    x
}

/// Whether two byte strings are equal.
pub fn bytes_eq(a: &[u8], b: &[u8]) -> (r: bool)
    ensures
        r == (a@ == b@),
{
    if a.len() != b.len() {
        return false;
    }
    let mut i: usize = 0;
    while i < a.len()
        invariant
            i <= a@.len(),
            a@.len() == b@.len(),
            forall|j: int| 0 <= j < i ==> a@[j] == b@[j],
        decreases a@.len() - i,
    {
        if a[i] != b[i] {
            return false;
        }
        i = i + 1;
    }
    assert(a@ =~= b@);
    true
}

/// A slice copied into an array of its length, or `None` when the lengths
/// differ.
pub fn to_array<const N: usize>(s: &[u8]) -> (r: Option<[u8; N]>)
    ensures
        r is Some <==> s@.len() == N,
        r matches Some(a) ==> a@ == s@,
{
    if s.len() != N {
        return None;
    }
    let mut a = [0u8; N];
    let mut i: usize = 0;
    while i < N
        invariant
            i <= N,
            s@.len() == N,
            forall|j: int| 0 <= j < i ==> a@[j] == s@[j],
        decreases N - i,
    {
        a[i] = s[i];
        i = i + 1;
    }
    assert(a@ =~= s@);
    Some(a)
}

/// Bytewise order of byte strings: a proper prefix comes first, else the
/// first byte where they differ decides.
pub open spec fn byte_less(a: Seq<u8>, b: Seq<u8>) -> bool
    decreases a.len(),
{
    if a.len() == 0 {
        b.len() > 0
    } else if b.len() == 0 {
        false
    } else if a[0] != b[0] {
        a[0] < b[0]
    } else {
        byte_less(a.drop_first(), b.drop_first())
    }
}

/// Paths that agree up to byte `i`, where the first ends or has the smaller
/// byte, are in bytewise order.
pub proof fn lemma_byte_less_at(a: Seq<u8>, b: Seq<u8>, i: int)
    requires
        0 <= i <= a.len(),
        i <= b.len(),
        forall|j: int| 0 <= j < i ==> a[j] == b[j],
        (i == a.len() && i < b.len()) || (i < a.len() && i < b.len() && a[i] < b[i]),
    ensures
        byte_less(a, b),
    decreases i,
{
    if i > 0 {
        assert(a[0] == b[0]);
        lemma_byte_less_at(a.drop_first(), b.drop_first(), i - 1);
    }
}

/// Bytewise order is asymmetric.
pub proof fn lemma_byte_less_asymmetric(a: Seq<u8>, b: Seq<u8>)
    ensures
        byte_less(a, b) ==> !byte_less(b, a),
    decreases a.len(),
{
    if a.len() > 0 && b.len() > 0 && a[0] == b[0] {
        lemma_byte_less_asymmetric(a.drop_first(), b.drop_first());
    }
}

/// Bytewise order is total: of two different strings one comes first.
pub proof fn lemma_byte_less_total(a: Seq<u8>, b: Seq<u8>)
    ensures
        a == b || byte_less(a, b) || byte_less(b, a),
    decreases a.len(),
{
    if a.len() > 0 && b.len() > 0 && a[0] == b[0] {
        lemma_byte_less_total(a.drop_first(), b.drop_first());
        if a.drop_first() == b.drop_first() {
            assert(a =~= seq![a[0]] + a.drop_first());
            assert(b =~= seq![b[0]] + b.drop_first());
        }
    }
}

/// Bytewise order is transitive.
pub proof fn lemma_byte_less_transitive(a: Seq<u8>, b: Seq<u8>, c: Seq<u8>)
    requires
        byte_less(a, b),
        byte_less(b, c),
    ensures
        byte_less(a, c),
    decreases a.len(),
{
    if a.len() > 0 && b.len() > 0 && c.len() > 0 && a[0] == b[0] && b[0] == c[0] {
        lemma_byte_less_transitive(a.drop_first(), b.drop_first(), c.drop_first());
    }
}

} // verus!
