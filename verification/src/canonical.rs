//! Canonical binary encoding.
//!
//! Hashes are only meaningful if the bytes fed to them are reproducible. This
//! module defines a fixed, field-ordered, length-prefixed encoding with exactly
//! one representation per value.
//!
//! The rules:
//!
//! - Integers are little-endian, fixed width. No varints, no leading-zero
//!   ambiguity.
//! - Variable-length data carries a `u32` byte-length prefix, so no concatenation
//!   of two fields can be reinterpreted as a different split.
//! - `Option` is a `0x00` / `0x01` discriminant followed by the payload when set.
//! - Sequences carry a `u32` element count and are written in the order the
//!   producer chose; the producer is responsible for that order being canonical.

use vstd::prelude::*;
use vstd::string::*;
use vstd::utf8::*;

verus! {

// ── the mathematical encoding ───────────────────────────────────────────────

/// The `width` least significant base-256 digits of `v`, least significant first.
pub open spec fn le_bytes(v: nat, width: nat) -> Seq<u8>
    decreases width,
{
    if width == 0 {
        Seq::empty()
    } else {
        seq![(v % 256) as u8] + le_bytes(v / 256, (width - 1) as nat)
    }
}

/// `256^width`, the number of values `width` bytes can hold.
pub open spec fn byte_range(width: nat) -> nat
    decreases width,
{
    if width == 0 {
        1
    } else {
        256 * byte_range((width - 1) as nat)
    }
}

/// The two's complement image of `v` in 64 bits.
pub open spec fn twos64(v: int) -> nat {
    if v >= 0 {
        v as nat
    } else {
        (v + 0x1_0000_0000_0000_0000) as nat
    }
}

/// The two's complement image of `v` in 32 bits.
pub open spec fn twos32(v: int) -> nat {
    if v >= 0 {
        v as nat
    } else {
        (v + 0x1_0000_0000) as nat
    }
}

/// A length as its `u32` prefix holds it: lengths beyond `u32::MAX` saturate.
pub open spec fn prefix_of(len: nat) -> nat {
    if len <= u32::MAX {
        len
    } else {
        u32::MAX as nat
    }
}

/// A length-prefixed byte string.
pub open spec fn prefixed(data: Seq<u8>) -> Seq<u8> {
    le_bytes(prefix_of(data.len()), 4) + data
}

/// A length-prefixed UTF-8 string.
pub open spec fn text_bytes(text: Seq<char>) -> Seq<u8> {
    prefixed(encode_utf8(text))
}

/// An optional field: `0x00`, or `0x01` followed by the payload.
pub open spec fn option_bytes(payload: Option<Seq<u8>>) -> Seq<u8> {
    match payload {
        None => seq![0u8],
        Some(bytes) => seq![1u8] + bytes,
    }
}

/// The concatenation of `parts`.
pub open spec fn concat_all(parts: Seq<Seq<u8>>) -> Seq<u8>
    decreases parts.len(),
{
    if parts.len() == 0 {
        Seq::empty()
    } else {
        concat_all(parts.drop_last()) + parts.last()
    }
}

/// A counted sequence of already encoded elements.
pub open spec fn counted(parts: Seq<Seq<u8>>) -> Seq<u8> {
    le_bytes(prefix_of(parts.len()), 4) + concat_all(parts)
}

// ── lemmas ──────────────────────────────────────────────────────────────────

/// A fixed-width integer occupies exactly its width.
pub proof fn lemma_le_bytes_len(v: nat, width: nat)
    ensures
        le_bytes(v, width).len() == width,
    decreases width,
{
    if width > 0 {
        lemma_le_bytes_len(v / 256, (width - 1) as nat);
    }
}

/// Distinct integers that fit a width have distinct encodings at that width.
pub proof fn lemma_le_bytes_injective(v: nat, w: nat, width: nat)
    requires
        v < byte_range(width),
        w < byte_range(width),
        le_bytes(v, width) == le_bytes(w, width),
    ensures
        v == w,
    decreases width,
{
    if width > 0 {
        let a = le_bytes(v, width);
        let b = le_bytes(w, width);
        let rest = (width - 1) as nat;
        lemma_le_bytes_len(v / 256, rest);
        lemma_le_bytes_len(w / 256, rest);
        assert(a[0] == (v % 256) as u8 && b[0] == (w % 256) as u8);
        assert(a.subrange(1, a.len() as int) =~= le_bytes(v / 256, rest));
        assert(b.subrange(1, b.len() as int) =~= le_bytes(w / 256, rest));
        lemma_le_bytes_injective(v / 256, w / 256, rest);
    }
}

/// How many values one, two, four, eight and sixteen bytes can hold.
pub proof fn lemma_byte_range_values()
    ensures
        byte_range(1) == 0x100,
        byte_range(2) == 0x1_0000,
        byte_range(4) == 0x1_0000_0000,
        byte_range(8) == 0x1_0000_0000_0000_0000,
        byte_range(16) == 0x1_0000_0000_0000_0000_0000_0000_0000_0000,
{
    reveal_with_fuel(byte_range, 17);
}

/// A concatenation splits in one way only once the length of its first half is
/// known.
pub proof fn lemma_split_at<T>(a: Seq<T>, b: Seq<T>, x: Seq<T>, y: Seq<T>)
    requires
        a + x == b + y,
        a.len() == b.len(),
    ensures
        a == b,
        x == y,
{
    assert(a =~= (a + x).subrange(0, a.len() as int));
    assert(b =~= (b + y).subrange(0, b.len() as int));
    assert(x =~= (a + x).subrange(a.len() as int, (a + x).len() as int));
    assert(y =~= (b + y).subrange(b.len() as int, (b + y).len() as int));
}

/// No two length-prefixed byte strings can be split differently out of the same
/// bytes: what was written first is what is read first.
pub proof fn lemma_prefixed_unambiguous(a: Seq<u8>, b: Seq<u8>, x: Seq<u8>, y: Seq<u8>)
    requires
        a.len() <= u32::MAX,
        b.len() <= u32::MAX,
        prefixed(a) + x == prefixed(b) + y,
    ensures
        a == b,
        x == y,
{
    let pa = le_bytes(a.len(), 4);
    let pb = le_bytes(b.len(), 4);
    lemma_le_bytes_len(a.len(), 4);
    lemma_le_bytes_len(b.len(), 4);
    assert(prefixed(a) + x =~= pa + (a + x));
    assert(prefixed(b) + y =~= pb + (b + y));
    lemma_split_at(pa, pb, a + x, b + y);
    lemma_byte_range_values();
    lemma_le_bytes_injective(a.len(), b.len(), 4);
    lemma_split_at(a, b, x, y);
}

/// No two length-prefixed strings can be split differently out of the same
/// bytes.
pub proof fn lemma_text_unambiguous(a: Seq<char>, b: Seq<char>, x: Seq<u8>, y: Seq<u8>)
    requires
        encode_utf8(a).len() <= u32::MAX,
        encode_utf8(b).len() <= u32::MAX,
        text_bytes(a) + x == text_bytes(b) + y,
    ensures
        a == b,
        x == y,
{
    lemma_prefixed_unambiguous(encode_utf8(a), encode_utf8(b), x, y);
    encode_utf8_decode_utf8(a);
    encode_utf8_decode_utf8(b);
}

/// An absent field and a present one never encode alike, even when the present
/// payload is empty.
pub proof fn law_none_and_some_are_distinct(payload: Seq<u8>)
    ensures
        option_bytes(None) != option_bytes(Some(payload)),
{
    assert(option_bytes(None)[0] != option_bytes(Some(payload))[0]);
}

/// Concatenating one part more appends it.
pub proof fn lemma_concat_all_push(parts: Seq<Seq<u8>>, part: Seq<u8>)
    ensures
        concat_all(parts.push(part)) == concat_all(parts) + part,
{
    assert(parts.push(part).drop_last() =~= parts);
}

/// A fixed-width integer is read back in one way only, whatever follows it.
pub proof fn lemma_le_bytes_unambiguous(v: nat, w: nat, width: nat, x: Seq<u8>, y: Seq<u8>)
    requires
        v < byte_range(width),
        w < byte_range(width),
        le_bytes(v, width) + x == le_bytes(w, width) + y,
    ensures
        v == w,
        x == y,
{
    lemma_le_bytes_len(v, width);
    lemma_le_bytes_len(w, width);
    lemma_split_at(le_bytes(v, width), le_bytes(w, width), x, y);
    lemma_le_bytes_injective(v, w, width);
}

/// UTF-8 spends at most four bytes on a character.
pub proof fn lemma_utf8_len(text: Seq<char>)
    ensures
        encode_utf8(text).len() <= 4 * text.len(),
    decreases text.len(),
{
    if text.len() > 0 {
        lemma_utf8_len(text.drop_first());
    }
}

/// Whether an optional field is present is read back in one way only, and so is
/// what remains after that.
pub proof fn lemma_option_split(a: Option<Seq<u8>>, b: Option<Seq<u8>>, x: Seq<u8>, y: Seq<u8>)
    requires
        option_bytes(a) + x == option_bytes(b) + y,
    ensures
        a is Some <==> b is Some,
        a is None ==> x == y,
        a is Some ==> a->0 + x == b->0 + y,
{
    let (p, q) = (option_bytes(a) + x, option_bytes(b) + y);
    assert(p[0] == q[0]);
    let (ta, tb) = (p.skip(1), q.skip(1));
    if a is Some {
        assert(ta =~= a->0 + x);
        assert(tb =~= b->0 + y);
    } else {
        assert(ta =~= x);
        assert(tb =~= y);
    }
}

/// True when what `f` writes for a value that is `ok` is read back in one way
/// only, whatever follows it.
pub open spec fn self_delimiting<T>(f: spec_fn(T) -> Seq<u8>, ok: spec_fn(T) -> bool) -> bool {
    forall|t: T, u: T, p: Seq<u8>, q: Seq<u8>|
        ok(t) && ok(u) && #[trigger] (f(t) + p) == #[trigger] (f(u) + q) ==> t == u && p == q
}

proof fn lemma_concat_all_first(parts: Seq<Seq<u8>>)
    requires
        parts.len() > 0,
    ensures
        concat_all(parts) == parts[0] + concat_all(parts.skip(1)),
    decreases parts.len(),
{
    if parts.len() == 1 {
        assert(parts.drop_last() =~= Seq::empty());
        assert(parts.skip(1) =~= Seq::empty());
        assert(concat_all(parts) =~= parts[0] + concat_all(parts.skip(1)));
    } else {
        lemma_concat_all_first(parts.drop_last());
        assert(parts.skip(1).drop_last() =~= parts.drop_last().skip(1));
        assert(concat_all(parts) =~= parts[0] + concat_all(parts.skip(1)));
    }
}

proof fn lemma_concat_unambiguous<T>(
    a: Seq<T>,
    b: Seq<T>,
    f: spec_fn(T) -> Seq<u8>,
    ok: spec_fn(T) -> bool,
    x: Seq<u8>,
    y: Seq<u8>,
)
    requires
        self_delimiting(f, ok),
        a.len() == b.len(),
        forall|i: int| 0 <= i < a.len() ==> ok(#[trigger] a[i]),
        forall|i: int| 0 <= i < b.len() ==> ok(#[trigger] b[i]),
        concat_all(a.map_values(f)) + x == concat_all(b.map_values(f)) + y,
    ensures
        a == b,
        x == y,
    decreases a.len(),
{
    let pa = a.map_values(f);
    let pb = b.map_values(f);
    if a.len() == 0 {
        assert(a =~= b);
        assert(concat_all(pa) + x =~= x);
        assert(concat_all(pb) + y =~= y);
    } else {
        lemma_concat_all_first(pa);
        lemma_concat_all_first(pb);
        let ra = a.skip(1);
        let rb = b.skip(1);
        assert(ra.map_values(f) =~= pa.skip(1));
        assert(rb.map_values(f) =~= pb.skip(1));
        assert(concat_all(pa) + x =~= f(a[0]) + (concat_all(pa.skip(1)) + x));
        assert(concat_all(pb) + y =~= f(b[0]) + (concat_all(pb.skip(1)) + y));
        assert(a[0] == b[0]);
        lemma_concat_unambiguous(ra, rb, f, ok, x, y);
        assert(a =~= seq![a[0]] + ra);
        assert(b =~= seq![b[0]] + rb);
    }
}

/// A counted sequence of self-delimiting elements is read back in one way only,
/// whatever follows it.
pub proof fn lemma_counted_unambiguous<T>(
    a: Seq<T>,
    b: Seq<T>,
    f: spec_fn(T) -> Seq<u8>,
    ok: spec_fn(T) -> bool,
    x: Seq<u8>,
    y: Seq<u8>,
)
    requires
        self_delimiting(f, ok),
        a.len() <= u32::MAX,
        b.len() <= u32::MAX,
        forall|i: int| 0 <= i < a.len() ==> ok(#[trigger] a[i]),
        forall|i: int| 0 <= i < b.len() ==> ok(#[trigger] b[i]),
        counted(a.map_values(f)) + x == counted(b.map_values(f)) + y,
    ensures
        a == b,
        x == y,
{
    let ca = concat_all(a.map_values(f));
    let cb = concat_all(b.map_values(f));
    assert(counted(a.map_values(f)) + x =~= le_bytes(a.len(), 4) + (ca + x));
    assert(counted(b.map_values(f)) + y =~= le_bytes(b.len(), 4) + (cb + y));
    lemma_byte_range_values();
    lemma_le_bytes_unambiguous(a.len(), b.len(), 4, ca + x, cb + y);
    lemma_concat_unambiguous(a, b, f, ok, x, y);
}

// ── the writer ──────────────────────────────────────────────────────────────

/// Appends canonically encoded values to a byte buffer.
#[derive(Debug)]
pub struct CanonicalWriter {
    buf: Vec<u8>,
}

impl View for CanonicalWriter {
    type V = Seq<u8>;

    /// The bytes written so far.
    closed spec fn view(&self) -> Seq<u8> {
        self.buf@
    }
}

impl Default for CanonicalWriter {
    fn default() -> (w: Self)
        ensures
            w@ == Seq::<u8>::empty(),
    {
        CanonicalWriter::new()
    }
}

impl CanonicalWriter {
    /// Creates an empty writer.
    #[must_use]
    pub fn new() -> (w: Self)
        ensures
            w@ == Seq::<u8>::empty(),
    {
        CanonicalWriter { buf: Vec::new() }
    }

    /// Creates a writer with room for `cap` bytes.
    #[must_use]
    pub fn with_capacity(cap: usize) -> (w: Self)
        ensures
            w@ == Seq::<u8>::empty(),
    {
        CanonicalWriter { buf: Vec::with_capacity(cap) }
    }

    /// Appends the `width` low bytes of `v`, least significant first.
    fn push_le(&mut self, v: u128, width: usize)
        ensures
            final(self)@ == old(self)@ + le_bytes(v as nat, width as nat),
    {
        let mut rest: u128 = v;
        let mut i: usize = 0;
        while i < width
            invariant
                i <= width,
                self@ + le_bytes(rest as nat, (width - i) as nat) == old(self)@ + le_bytes(
                    v as nat,
                    width as nat,
                ),
            decreases width - i,
        {
            let ghost before = self@;
            self.buf.push((rest % 256) as u8);
            assert(self@ + le_bytes((rest / 256) as nat, (width - i - 1) as nat) =~= before
                + le_bytes(rest as nat, (width - i) as nat));
            rest = rest / 256;
            i += 1;
        }
        assert(self@ + le_bytes(rest as nat, 0) =~= self@);
    }

    /// Writes a single byte, typically a discriminant.
    pub fn u8(&mut self, v: u8) -> (w: &mut Self)
        ensures
            w@ == old(self)@.push(v),
            *final(self) == *final(w),
    {
        self.buf.push(v);
        self
    }

    /// Writes a `u16`.
    pub fn u16(&mut self, v: u16) -> (w: &mut Self)
        ensures
            w@ == old(self)@ + le_bytes(v as nat, 2),
            *final(self) == *final(w),
    {
        self.push_le(v as u128, 2);
        self
    }

    /// Writes a `u32`.
    pub fn u32(&mut self, v: u32) -> (w: &mut Self)
        ensures
            w@ == old(self)@ + le_bytes(v as nat, 4),
            *final(self) == *final(w),
    {
        self.push_le(v as u128, 4);
        self
    }

    /// Writes a `u64`.
    pub fn u64(&mut self, v: u64) -> (w: &mut Self)
        ensures
            w@ == old(self)@ + le_bytes(v as nat, 8),
            *final(self) == *final(w),
    {
        self.push_le(v as u128, 8);
        self
    }

    /// Writes an `i32` in two's complement.
    pub fn i32(&mut self, v: i32) -> (w: &mut Self)
        ensures
            w@ == old(self)@ + le_bytes(twos32(v as int), 4),
            *final(self) == *final(w),
    {
        let image: u32 = if v >= 0 {
            v as u32
        } else {
            u32::MAX - ((-(v + 1)) as u32)
        };
        self.push_le(image as u128, 4);
        self
    }

    /// Writes an `i64` in two's complement.
    pub fn i64(&mut self, v: i64) -> (w: &mut Self)
        ensures
            w@ == old(self)@ + le_bytes(twos64(v as int), 8),
            *final(self) == *final(w),
    {
        let image: u64 = if v >= 0 {
            v as u64
        } else {
            u64::MAX - ((-(v + 1)) as u64)
        };
        self.push_le(image as u128, 8);
        self
    }

    /// Writes a `u128`.
    pub fn u128(&mut self, v: u128) -> (w: &mut Self)
        ensures
            w@ == old(self)@ + le_bytes(v as nat, 16),
            *final(self) == *final(w),
    {
        self.push_le(v, 16);
        self
    }

    /// Writes a bool as `0x00` or `0x01`.
    pub fn bool(&mut self, v: bool) -> (w: &mut Self)
        ensures
            w@ == old(self)@.push(if v { 1u8 } else { 0u8 }),
            *final(self) == *final(w),
    {
        self.buf.push(if v { 1 } else { 0 });
        self
    }

    /// Writes a length-prefixed byte string.
    ///
    /// A prefix saturates at `u32::MAX`; no field in this crate approaches that
    /// bound, and the callers that build entries enforce much smaller limits.
    pub fn bytes(&mut self, v: &[u8]) -> (w: &mut Self)
        ensures
            w@ == old(self)@ + prefixed(v@),
            *final(self) == *final(w),
    {
        let len: u32 = saturating_len(v.len());
        self.push_le(len as u128, 4);
        self.buf.extend_from_slice(v);
        assert(self@ =~= old(self)@ + prefixed(v@));
        self
    }

    /// Writes a length-prefixed UTF-8 string.
    pub fn str(&mut self, v: &str) -> (w: &mut Self)
        ensures
            w@ == old(self)@ + text_bytes(v@),
            *final(self) == *final(w),
    {
        self.bytes(v.as_bytes())
    }

    /// Writes a fixed-width byte array without a length prefix.
    ///
    /// Only valid for widths fixed by the schema, such as a digest or a UUID.
    pub fn fixed(&mut self, v: &[u8]) -> (w: &mut Self)
        ensures
            w@ == old(self)@ + v@,
            *final(self) == *final(w),
    {
        self.buf.extend_from_slice(v);
        assert(self@ =~= old(self)@ + v@);
        self
    }

    /// Writes an optional value: `0x00`, or `0x01` followed by its encoding.
    pub fn option<T: Canonical + ?Sized>(&mut self, v: Option<&T>) -> (w: &mut Self)
        ensures
            w@ == old(self)@ + option_bytes(
                match v {
                    None => None,
                    Some(inner) => Some(inner.encoding()),
                },
            ),
            *final(self) == *final(w),
    {
        match v {
            None => {
                self.buf.push(0);
                assert(self@ =~= old(self)@ + option_bytes(None));
            },
            Some(inner) => {
                self.buf.push(1);
                inner.encode(self);
                assert(self@ =~= old(self)@ + option_bytes(Some(inner.encoding())));
            },
        }
        self
    }

    /// Writes a counted sequence.
    pub fn seq<T: Canonical>(&mut self, items: &[T]) -> (w: &mut Self)
        ensures
            w@ == old(self)@ + counted(encodings(items@)),
            *final(self) == *final(w),
    {
        let len: u32 = saturating_len(items.len());
        self.push_le(len as u128, 4);
        let mut i: usize = 0;
        let ghost head = self@;
        assert(encodings(items@).take(0) =~= Seq::empty());
        assert(head =~= head + concat_all(encodings(items@).take(0)));
        while i < items.len()
            invariant
                i <= items.len(),
                self@ == head + concat_all(encodings(items@).take(i as int)),
            decreases items.len() - i,
        {
            items[i].encode(self);
            proof {
                let all = encodings(items@);
                lemma_concat_all_push(all.take(i as int), all[i as int]);
                assert(all.take(i as int).push(all[i as int]) =~= all.take(i + 1));
                assert(self@ =~= head + concat_all(all.take(i + 1)));
            }
            i += 1;
        }
        assert(encodings(items@).take(items.len() as int) =~= encodings(items@));
        assert(self@ =~= old(self)@ + counted(encodings(items@)));
        self
    }

    /// Consumes the writer and returns the encoded bytes.
    #[must_use]
    pub fn finish(self) -> (bytes: Vec<u8>)
        ensures
            bytes@ == self@,
    {
        self.buf
    }

    /// The bytes written so far.
    #[must_use]
    pub fn as_slice(&self) -> (bytes: &[u8])
        ensures
            bytes@ == self@,
    {
        self.buf.as_slice()
    }
}

fn saturating_len(len: usize) -> (prefix: u32)
    ensures
        prefix as nat == prefix_of(len as nat),
{
    if len as u128 <= u32::MAX as u128 {
        len as u32
    } else {
        u32::MAX
    }
}

/// The encoding of each element of `items`.
pub open spec fn encodings<T: Canonical>(items: Seq<T>) -> Seq<Seq<u8>> {
    Seq::new(items.len(), |i: int| items[i].encoding())
}

/// A value with a canonical byte encoding.
pub trait Canonical {
    /// The canonical encoding, as a sequence of bytes.
    spec fn encoding(&self) -> Seq<u8>;

    /// Appends this value's canonical encoding to `w`.
    fn encode(&self, w: &mut CanonicalWriter)
        ensures
            final(w)@ == old(w)@ + self.encoding(),
    ;

    /// Returns this value's canonical encoding as a fresh buffer.
    #[must_use]
    fn to_canonical_bytes(&self) -> (bytes: Vec<u8>)
        ensures
            bytes@ == self.encoding(),
    {
        let mut w = CanonicalWriter::new();
        self.encode(&mut w);
        assert(w@ =~= self.encoding());
        w.finish()
    }
}

impl Canonical for u8 {
    open spec fn encoding(&self) -> Seq<u8> {
        seq![*self]
    }

    fn encode(&self, w: &mut CanonicalWriter) {
        w.u8(*self);
        assert(w@ =~= old(w)@ + self.encoding());
    }
}

impl Canonical for u64 {
    open spec fn encoding(&self) -> Seq<u8> {
        le_bytes(*self as nat, 8)
    }

    fn encode(&self, w: &mut CanonicalWriter) {
        w.u64(*self);
    }
}

impl Canonical for str {
    open spec fn encoding(&self) -> Seq<u8> {
        text_bytes(self@)
    }

    fn encode(&self, w: &mut CanonicalWriter) {
        w.str(self);
    }
}

impl Canonical for String {
    open spec fn encoding(&self) -> Seq<u8> {
        text_bytes(self@)
    }

    fn encode(&self, w: &mut CanonicalWriter) {
        w.str(self.as_str());
    }
}

} // verus!
