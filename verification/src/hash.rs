//! Content hashing.
//!
//! Every hash the engine produces is domain-separated: the tag identifying *what*
//! is being hashed is mixed in before the payload. Two different structures can
//! therefore never collide by encoding to the same bytes, and a value hashed for
//! one purpose is not a valid hash for another.

use crate::canonical::{self, Canonical, CanonicalWriter};
use vstd::prelude::*;
use vstd::string::*;
use vstd::utf8::*;

verus! {

// ── hexadecimal text ────────────────────────────────────────────────────────

/// The lowercase hex digit of a nibble.
pub open spec fn hex_char(nibble: int) -> char {
    if nibble < 10 {
        (48 + nibble) as char
    } else {
        (87 + nibble) as char
    }
}

/// The two-digits-per-byte lowercase hex rendering of `data`.
pub open spec fn hex_text(data: Seq<u8>) -> Seq<char> {
    Seq::new(
        2 * data.len(),
        |i: int| hex_char(if i % 2 == 0 { data[i / 2] as int / 16 } else { data[i / 2] as int % 16 }),
    )
}

/// The value of a hex digit in either case, given as an ASCII byte.
pub open spec fn hex_digit_value(c: u8) -> Option<int> {
    if 48 <= c <= 57 {
        Some(c - 48)
    } else if 97 <= c <= 102 {
        Some(c - 87)
    } else if 65 <= c <= 70 {
        Some(c - 55)
    } else {
        None
    }
}

/// True when every byte of `text` is a hex digit.
pub open spec fn all_hex(text: Seq<u8>) -> bool {
    forall|i: int| 0 <= i < text.len() ==> hex_digit_value(#[trigger] text[i]) is Some
}

/// The bytes that pairs of hex digits spell.
pub open spec fn unhex(text: Seq<u8>) -> Seq<u8> {
    Seq::new(
        text.len() / 2,
        |i: int|
            (16 * hex_digit_value(text[2 * i])->0 + hex_digit_value(text[2 * i + 1])->0) as u8,
    )
}

/// Reading back the hex rendering of some bytes gives those bytes.
pub proof fn law_hex_round_trips(data: Seq<u8>)
    ensures
        is_ascii_chars(hex_text(data)),
        encode_utf8(hex_text(data)).len() == 2 * data.len(),
        all_hex(encode_utf8(hex_text(data))),
        unhex(encode_utf8(hex_text(data))) == data,
{
    let text = hex_text(data);
    assert forall|i: int| 0 <= i < text.len() implies (#[trigger] text[i] as u32) < 128 by {
        assert(0 <= i / 2 < data.len());
    }
    is_ascii_chars_encode_utf8(text);
    let bytes = encode_utf8(text);
    assert forall|i: int| 0 <= i < bytes.len() implies hex_digit_value(#[trigger] bytes[i]) == Some(
        if i % 2 == 0 {
            data[i / 2] as int / 16
        } else {
            data[i / 2] as int % 16
        },
    ) by {
        assert(0 <= i / 2 < data.len());
        assert(bytes[i] == text[i] as u8);
    }
    assert forall|i: int| 0 <= i < data.len() implies #[trigger] unhex(bytes)[i] == data[i] by {
        assert((2 * i) / 2 == i && (2 * i + 1) / 2 == i);
        assert((2 * i) % 2 == 0 && (2 * i + 1) % 2 == 1);
        assert(hex_digit_value(bytes[2 * i]) == Some(data[i] as int / 16));
        assert(hex_digit_value(bytes[2 * i + 1]) == Some(data[i] as int % 16));
    }
    assert(unhex(bytes) =~= data);
}

/// The lowercase hex digit of the low nibble.
pub fn hex_digit(nibble: u8) -> (c: char)
    ensures
        c == hex_char(nibble as int % 16),
{
    match nibble % 16 {
        0 => '0',
        1 => '1',
        2 => '2',
        3 => '3',
        4 => '4',
        5 => '5',
        6 => '6',
        7 => '7',
        8 => '8',
        9 => '9',
        10 => 'a',
        11 => 'b',
        12 => 'c',
        13 => 'd',
        14 => 'e',
        _ => 'f',
    }
}

/// The value of a hex digit, in either case.
pub fn hex_val(c: u8) -> (r: Result<u8, ParseHashError>)
    ensures
        match hex_digit_value(c) {
            Some(v) => r == Ok::<u8, ParseHashError>(v as u8),
            None => r == Err::<u8, ParseHashError>(ParseHashError::InvalidDigit),
        },
{
    if 48 <= c && c <= 57 {
        Ok(c - 48)
    } else if 97 <= c && c <= 102 {
        Ok(c - 87)
    } else if 65 <= c && c <= 70 {
        Ok(c - 55)
    } else {
        Err(ParseHashError::InvalidDigit)
    }
}

/// Renders bytes as lowercase hex, two digits per byte.
pub fn to_hex_text(data: &[u8]) -> (s: String)
    ensures
        s@ == hex_text(data@),
{
    let mut s = String::new();
    let mut i: usize = 0;
    while i < data.len()
        invariant
            i <= data.len(),
            s@ == hex_text(data@.take(i as int)),
        decreases data.len() - i,
    {
        s.push(hex_digit(data[i] / 16));
        s.push(hex_digit(data[i] % 16));
        proof {
            let next = hex_text(data@.take(i + 1));
            assert(next.len() == 2 * (i + 1));
            assert forall|j: int| 0 <= j < 2 * i implies #[trigger] next[j] == hex_text(
                data@.take(i as int),
            )[j] by {
                assert(0 <= j / 2 < i);
            }
            assert((2 * i) / 2 == i && (2 * i + 1) / 2 == i);
            assert(s@ =~= next);
        }
        i += 1;
    }
    assert(data@.take(data@.len() as int) =~= data@);
    s
}

// ── digests ─────────────────────────────────────────────────────────────────

/// A 256-bit BLAKE3 digest.
///
/// Rendered and parsed as lowercase hex.
#[derive(Clone, Copy, Debug, Eq, PartialOrd, Ord, Hash)]
pub struct Hash {
    pub bytes: [u8; 32],
}

/// The name other modules use for [`Hash`], so that it is not mistaken for the
/// standard library's trait.
pub type Digest = Hash;

impl PartialEq for Hash {
    fn eq(&self, other: &Self) -> (same: bool) {
        let mut i: usize = 0;
        while i < 32
            invariant
                i <= 32,
                forall|j: int| 0 <= j < i ==> self.bytes[j] == other.bytes[j],
            decreases 32 - i,
        {
            if self.bytes[i] != other.bytes[i] {
                return false;
            }
            i += 1;
        }
        assert(self.bytes =~= other.bytes);
        true
    }
}

impl vstd::std_specs::cmp::PartialEqSpecImpl for Hash {
    open spec fn obeys_eq_spec() -> bool {
        true
    }

    open spec fn eq_spec(&self, other: &Self) -> bool {
        self == other
    }
}

impl View for Hash {
    type V = Seq<u8>;

    open spec fn view(&self) -> Seq<u8> {
        self.bytes@
    }
}

/// Two digests with the same bytes are the same digest.
pub proof fn lemma_hash_bytes_determine(a: Hash, b: Hash)
    requires
        a@ == b@,
    ensures
        a == b,
{
    assert forall|i: int| 0 <= i < 32 implies a.bytes[i] == b.bytes[i] by {
        assert(a@[i] == b@[i]);
    }
    assert(a.bytes =~= b.bytes);
}

/// Failure parsing a [`Hash`] from hex.
#[derive(Debug, Clone, Copy, PartialEq, Eq, Structural)]
#[non_exhaustive]
pub enum ParseHashError {
    /// The input was not exactly 64 characters.
    Length {
        /// Length actually supplied.
        got: usize,
    },
    /// The input contained a character outside `[0-9a-fA-F]`.
    InvalidDigit,
}

impl Hash {
    /// Width of a digest in bytes.
    pub const LEN: usize = 32;

    /// Wraps raw digest bytes.
    #[must_use]
    pub fn from_bytes(bytes: [u8; 32]) -> (h: Self)
        ensures
            h.bytes == bytes,
    {
        Hash { bytes }
    }

    /// The raw digest bytes.
    #[must_use]
    pub fn as_bytes(&self) -> (bytes: &[u8; 32])
        ensures
            bytes == self.bytes,
    {
        &self.bytes
    }

    /// Parses a 64-character lowercase or uppercase hex string.
    pub fn parse_hex(s: &str) -> (r: Result<Self, ParseHashError>)
        ensures
            match r {
                Ok(h) => encode_utf8(s@).len() == 64 && all_hex(encode_utf8(s@)) && h@ == unhex(
                    encode_utf8(s@),
                ),
                Err(ParseHashError::Length { got }) => got != 64 && got == encode_utf8(s@).len(),
                Err(ParseHashError::InvalidDigit) => encode_utf8(s@).len() == 64 && !all_hex(
                    encode_utf8(s@),
                ),
            },
    {
        let text = s.as_bytes();
        if text.len() != 64 {
            return Err(ParseHashError::Length { got: text.len() });
        }
        let mut out: [u8; 32] = [0u8;32];
        let mut i: usize = 0;
        while i < 32
            invariant
                i <= 32,
                text@.len() == 64,
                text@ == encode_utf8(s@),
                forall|j: int| 0 <= j < 2 * i ==> hex_digit_value(#[trigger] text@[j]) is Some,
                forall|j: int| 0 <= j < i ==> #[trigger] out@[j] == unhex(text@)[j],
            decreases 32 - i,
        {
            let hi: u8 = match hex_val(text[2 * i]) {
                Ok(v) => v,
                Err(e) => {
                    assert(hex_digit_value(text@[2 * i]) is None);
                    return Err(e);
                },
            };
            let lo: u8 = match hex_val(text[2 * i + 1]) {
                Ok(v) => v,
                Err(e) => {
                    assert(hex_digit_value(text@[2 * i + 1]) is None);
                    return Err(e);
                },
            };
            out[i] = 16 * hi + lo;
            i += 1;
        }
        assert(out@ =~= unhex(text@));
        Ok(Hash { bytes: out })
    }

    /// Hashes `payload` under a caller-chosen domain separation tag.
    ///
    /// This is the same construction the engine uses for its own digests, with
    /// the tag length-prefixed so `domain || payload` is unambiguous.
    ///
    /// Pick a domain that names *your* document type, not this crate's. Tags
    /// beginning `doubleentry/` are reserved for the engine, and reusing one
    /// would let a document hash be mistaken for an entry hash.
    #[must_use]
    pub fn digest(domain: &[u8], payload: &[u8]) -> (h: Self)
        ensures
            h == tagged_hash(domain@, payload@),
    {
        tagged(domain, payload)
    }

    /// Renders as a 64-character lowercase hex string.
    #[must_use]
    pub fn to_hex(&self) -> (s: String)
        ensures
            s@ == hex_text(self@),
    {
        to_hex_text(self.bytes.as_slice())
    }
}

impl Canonical for Hash {
    open spec fn encoding(&self) -> Seq<u8> {
        self@
    }

    fn encode(&self, w: &mut CanonicalWriter) {
        w.fixed(self.bytes.as_slice());
    }
}

/// The prefix every tag this crate uses starts with.
///
/// Callers of [`Hash::digest`] should stay out of this namespace so a document
/// digest can never be mistaken for one of the engine's own.
pub const RESERVED_DOMAIN_PREFIX: &'static str = "doubleentry/";

/// What [`blake3::hash`] returns for these bytes.
pub uninterp spec fn blake3_digest(data: Seq<u8>) -> [u8; 32];

/// [`blake3::hash`]: the BLAKE3 digest of `data`, with the default 32-byte
/// output. The contract claims only that the digest is a function of the bytes;
/// it says nothing of how hard collisions are to find.
#[verifier::external_body]
fn blake3_hash(data: &[u8]) -> (digest: [u8; 32])
    ensures
        digest == blake3_digest(data@),
{
    *blake3::hash(data).as_bytes()
}

/// The bytes hashed for `payload` under `tag`: the tag's length in eight bytes,
/// the tag, and the payload.
pub open spec fn tagged_preimage(tag: Seq<u8>, payload: Seq<u8>) -> Seq<u8> {
    canonical::le_bytes(tag.len(), 8) + tag + payload
}

/// The digest of `payload` under a domain separation tag.
pub open spec fn tagged_hash(tag: Seq<u8>, payload: Seq<u8>) -> Hash {
    Hash { bytes: blake3_digest(tagged_preimage(tag, payload)) }
}

/// True when no two different members of `strings` share a BLAKE3 digest.
///
/// Every tamper-evidence law of this crate is stated of the byte strings that a
/// computation actually hashed: what it rules out, it rules out up to a
/// collision among those.
pub open spec fn collision_free(strings: Set<Seq<u8>>) -> bool {
    forall|x: Seq<u8>, y: Seq<u8>|
        strings.contains(x) && strings.contains(y) && #[trigger] blake3_digest(x)
            == #[trigger] blake3_digest(y) ==> x == y
}

/// Tag and payload can be read back from the preimage in one way only, so two
/// different structures never hash the same bytes.
pub proof fn lemma_preimage_unambiguous(
    tag_a: Seq<u8>,
    payload_a: Seq<u8>,
    tag_b: Seq<u8>,
    payload_b: Seq<u8>,
)
    requires
        tag_a.len() <= u64::MAX,
        tag_b.len() <= u64::MAX,
        tagged_preimage(tag_a, payload_a) == tagged_preimage(tag_b, payload_b),
    ensures
        tag_a == tag_b,
        payload_a == payload_b,
{
    let la = canonical::le_bytes(tag_a.len(), 8);
    let lb = canonical::le_bytes(tag_b.len(), 8);
    canonical::lemma_le_bytes_len(tag_a.len(), 8);
    canonical::lemma_le_bytes_len(tag_b.len(), 8);
    assert(tagged_preimage(tag_a, payload_a) =~= la + (tag_a + payload_a));
    assert(tagged_preimage(tag_b, payload_b) =~= lb + (tag_b + payload_b));
    canonical::lemma_split_at(la, lb, tag_a + payload_a, tag_b + payload_b);
    canonical::lemma_byte_range_values();
    canonical::lemma_le_bytes_injective(tag_a.len(), tag_b.len(), 8);
    canonical::lemma_split_at(tag_a, tag_b, payload_a, payload_b);
}

/// Equal digests under tags mean equal tags and equal payloads, where the two
/// preimages do not collide.
pub proof fn lemma_tagged_hash_binds(
    tag_a: Seq<u8>,
    payload_a: Seq<u8>,
    tag_b: Seq<u8>,
    payload_b: Seq<u8>,
    hashed: Set<Seq<u8>>,
)
    requires
        tag_a.len() <= u64::MAX,
        tag_b.len() <= u64::MAX,
        tagged_hash(tag_a, payload_a) == tagged_hash(tag_b, payload_b),
        collision_free(hashed),
        hashed.contains(tagged_preimage(tag_a, payload_a)),
        hashed.contains(tagged_preimage(tag_b, payload_b)),
    ensures
        tag_a == tag_b,
        payload_a == payload_b,
{
    let x = tagged_preimage(tag_a, payload_a);
    let y = tagged_preimage(tag_b, payload_b);
    assert(blake3_digest(x) == blake3_digest(y));
    lemma_preimage_unambiguous(tag_a, payload_a, tag_b, payload_b);
}

/// Hashes `payload` under a domain separation `tag`.
#[must_use]
pub fn tagged(tag: &[u8], payload: &[u8]) -> (h: Hash)
    ensures
        h == tagged_hash(tag@, payload@),
{
    let mut w = CanonicalWriter::new();
    // Length-prefix the tag so `tag || payload` is unambiguous.
    w.u64(tag.len() as u64);
    w.fixed(tag);
    w.fixed(payload);
    assert(w@ =~= tagged_preimage(tag@, payload@));
    Hash { bytes: blake3_hash(w.as_slice()) }
}

} // verus!
