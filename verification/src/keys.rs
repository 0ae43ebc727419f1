//! Hex text of keys: lowercase hex of bytes, and 32-byte keys parsed from
//! hex with an optional `0x` prefix and left zero padding.
use vstd::prelude::*;
use vstd::string::StringSliceAdditionalSpecFns;
use vstd::utf8::{encode_utf8, is_leading_byte_width_1, partial_valid_utf8, valid_utf8};

verus! {

/// The lowercase hex digit of a nibble.
pub open spec fn digit(n: u8) -> u8 {
    if n < 10 { (48 + n) as u8 } else { (87 + n) as u8 }
}

/// The lowercase hex text of a byte string, two digits per byte.
pub open spec fn spec_hex(bytes: Seq<u8>) -> Seq<u8>
    decreases bytes.len(),
{
    if bytes.len() == 0 {
        Seq::empty()
    } else {
        spec_hex(bytes.drop_last()) + seq![digit(bytes.last() / 16), digit(bytes.last() % 16)]
    }
}

proof fn lemma_ascii_valid(b: Seq<u8>)
    requires
        forall|i: int| 0 <= i < b.len() ==> #[trigger] b[i] < 128,
    ensures
        valid_utf8(b),
{
    assert(b.subrange(0, 0) =~= Seq::<u8>::empty());
    assert(partial_valid_utf8(b, 0));
    assert forall|i: int| 0 <= 0 <= i < b.len() <= b.len() implies #[trigger] is_leading_byte_width_1(b[i]) by {
        assert(b[i] < 128);
    }
    vstd::utf8::partial_valid_utf8_extend_ascii_block(b, 0, b.len() as int);
    assert(b.subrange(0, b.len() as int) =~= b);
}

/// The lowercase hex text of bytes.
pub fn hex(bytes: &[u8]) -> (r: String)
    ensures
        encode_utf8(r@) == spec_hex(bytes@),
{
    let mut out: Vec<u8> = Vec::new();
    let mut i: usize = 0;
    while i < bytes.len()
        invariant
            i <= bytes@.len(),
            out@ == spec_hex(bytes@.take(i as int)),
            forall|j: int| 0 <= j < out@.len() ==> #[trigger] out@[j] < 128,
        decreases bytes@.len() - i,
    {
        proof {
            assert(bytes@.take(i + 1).drop_last() =~= bytes@.take(i as int));
        }
        let b = bytes[i];
        let hi = b / 16;
        let lo = b % 16;
        out.push(if hi < 10 { 48 + hi } else { 87 + hi });
        out.push(if lo < 10 { 48 + lo } else { 87 + lo });
        proof {
            assert(out@ =~= spec_hex(bytes@.take(i + 1)));
        }
        i = i + 1;
    }
    proof {
        assert(bytes@.take(bytes@.len() as int) =~= bytes@);
        lemma_ascii_valid(out@);
    }
    let ghost expect = out@;
    match crate::strings::utf8_string(out) {
        Some(s) => s,
        None => {
            proof {
                assert(false);
            }
            String::new()
        },
    }
}

/// Whether a byte is an ASCII hex digit.
pub open spec fn is_hex_digit(c: u8) -> bool {
    (48 <= c <= 57) || (97 <= c <= 102) || (65 <= c <= 70)
}

/// The value of an ASCII hex digit.
pub open spec fn nibble(c: u8) -> u8 {
    if 48 <= c <= 57 {
        (c - 48) as u8
    } else if 97 <= c <= 102 {
        (c - 87) as u8
    } else {
        (c - 55) as u8
    }
}

/// The hex text without a leading `0x`.
pub open spec fn unprefixed(s: Seq<u8>) -> Seq<u8> {
    if s.len() >= 2 && s[0] == 48 && s[1] == 120 { s.subrange(2, s.len() as int) } else { s }
}

/// The hex digits left-padded with zeros to 64.
pub open spec fn padded(t: Seq<u8>) -> Seq<u8> {
    Seq::new((64 - t.len()) as nat, |_i: int| 48u8) + t
}

/// The key that hex text denotes: 1 to 64 hex digits after an optional
/// `0x`, left-padded with zeros, two digits per byte.
pub open spec fn spec_h32(s: Seq<u8>) -> Option<Seq<u8>> {
    let t = unprefixed(s);
    if t.len() == 0 || t.len() > 64 || !(forall|i: int| 0 <= i < t.len() ==> #[trigger] is_hex_digit(t[i])) {
        None
    } else {
        Some(Seq::new(32, |i: int| (nibble(padded(t)[2 * i]) * 16 + nibble(padded(t)[2 * i + 1])) as u8))
    }
}

/// Parse a 32-byte key from hex text.
pub fn h32(s: &str) -> (r: Option<[u8; 32]>)
    ensures
        match spec_h32(s.spec_bytes()) {
            Some(k) => r matches Some(a) && a@ == k,
            None => r is None,
        },
{
    let b = s.as_bytes();
    let ghost t = unprefixed(b@);
    let start: usize = if b.len() >= 2 && b[0] == 48 && b[1] == 120 { 2 } else { 0 };
    let n = b.len() - start;
    proof {
        assert(t =~= b@.subrange(start as int, b@.len() as int));
    }
    if n == 0 || n > 64 {
        return None;
    }
    let mut i: usize = start;
    while i < b.len()
        invariant
            start <= i <= b@.len(),
            b@ == s.spec_bytes(),
            t == unprefixed(b@),
            t == b@.subrange(start as int, b@.len() as int),
            forall|j: int| 0 <= j < i - start ==> #[trigger] is_hex_digit(t[j]),
        decreases b@.len() - i,
    {
        let c = b[i];
        if !((48 <= c && c <= 57) || (97 <= c && c <= 102) || (65 <= c && c <= 70)) {
            proof {
                assert(!is_hex_digit(t[i - start]));
            }
            return None;
        }
        i = i + 1;
    }
    let ghost p = padded(t);
    let pad = 64 - n;
    let mut out = [0u8; 32];
    let mut k: usize = 0;
    while k < 32
        invariant
            k <= 32,
            n == t.len(),
            1 <= n <= 64,
            pad == 64 - n,
            p == padded(t),
            b@ == s.spec_bytes(),
            t == unprefixed(b@),
            t == b@.subrange(start as int, b@.len() as int),
            start + n == b@.len(),
            forall|j: int| 0 <= j < t.len() ==> #[trigger] is_hex_digit(t[j]),
            forall|j: int| 0 <= j < k ==> out@[j] == (nibble(p[2 * j]) * 16 + nibble(p[2 * j + 1])) as u8,
        decreases 32 - k,
    {
        let hi = digit_value(b, start, pad, 2 * k, Ghost(t));
        let lo = digit_value(b, start, pad, 2 * k + 1, Ghost(t));
        let v: u8 = hi * 16 + lo;
        out[k] = v;
        proof {
            assert(hi == nibble(p[2 * k as int]));
            assert(lo == nibble(p[2 * k + 1]));
        }
        k = k + 1;
    }
    proof {
        assert(out@ =~= Seq::new(32, |i: int| (nibble(p[2 * i]) * 16 + nibble(p[2 * i + 1])) as u8));
    }
    Some(out)
}

/// The value of digit `at` of the padded text.
fn digit_value(b: &[u8], start: usize, pad: usize, at: usize, Ghost(t): Ghost<Seq<u8>>) -> (v: u8)
    requires
        at < 64,
        t == b@.subrange(start as int, b@.len() as int),
        pad == 64 - t.len(),
        t.len() <= 64,
        start + t.len() == b@.len(),
        forall|j: int| 0 <= j < t.len() ==> #[trigger] is_hex_digit(t[j]),
    ensures
        v == nibble(padded(t)[at as int]),
        v < 16,
{
    if at < pad {
        return 0;
    }
    let off = at - pad;
    let blen = b.len();
    proof {
        assert(off < t.len());
        assert(start + off < blen);
    }
    let idx = start + off;
    let c = b[idx];
    proof {
        assert(padded(t)[at as int] == t[at - pad]);
        assert(is_hex_digit(t[at - pad]));
    }
    if 48 <= c && c <= 57 {
        c - 48
    } else if 97 <= c && c <= 102 {
        c - 87
    } else {
        c - 55
    }
}

proof fn lemma_hex_shape(bytes: Seq<u8>)
    ensures
        spec_hex(bytes).len() == 2 * bytes.len(),
        forall|i: int| 0 <= i < bytes.len() ==> {
            &&& #[trigger] spec_hex(bytes)[2 * i] == digit(bytes[i] / 16)
            &&& spec_hex(bytes)[2 * i + 1] == digit(bytes[i] % 16)
        },
    decreases bytes.len(),
{
    if bytes.len() > 0 {
        let p = bytes.drop_last();
        lemma_hex_shape(p);
        assert forall|i: int| 0 <= i < bytes.len() implies {
            &&& #[trigger] spec_hex(bytes)[2 * i] == digit(bytes[i] / 16)
            &&& spec_hex(bytes)[2 * i + 1] == digit(bytes[i] % 16)
        } by {
            if i < p.len() {
                assert(spec_hex(p)[2 * i] == digit(p[i] / 16));
            }
        }
    }
}

/// Keys: the hex text of a 32-byte key parses back to that key.
pub proof fn law_hex_round_trip(key: Seq<u8>)
    requires
        key.len() == 32,
    ensures
        spec_h32(spec_hex(key)) == Some(key),
{
    lemma_hex_shape(key);
    let t = spec_hex(key);
    assert forall|i: int| 0 <= i < t.len() implies #[trigger] is_hex_digit(t[i]) by {
        let j = i / 2;
        if i % 2 == 0 {
            assert(t[2 * j] == digit(key[j] / 16));
        } else {
            assert(t[2 * j] == digit(key[j] / 16));
            assert(t[2 * j + 1] == digit(key[j] % 16));
        }
    }
    let z: int = 0;
    assert(t[2 * z] == digit(key[z] / 16));
    assert(t[2 * z + 1] == digit(key[z] % 16));
    assert(t[1] == digit(key[0] % 16));
    assert(unprefixed(t) == t);
    assert(padded(t) =~= t);
    let r = Seq::new(32, |i: int| (nibble(padded(t)[2 * i]) * 16 + nibble(padded(t)[2 * i + 1])) as u8);
    assert forall|i: int| 0 <= i < 32 implies r[i] == key[i] by {
        assert(t[2 * i] == digit(key[i] / 16));
        assert(t[2 * i + 1] == digit(key[i] % 16));
    }
    assert(r =~= key);
}

} // verus!
