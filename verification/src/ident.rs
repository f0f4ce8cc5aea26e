//! Identifiers.

use crate::canonical;
use crate::hash::{self, to_hex_text};
use crate::text::push_text;
use vstd::prelude::*;
use vstd::slice::slice_subrange;

verus! {

/// True for the value of a version 7 UUID of the standard variant.
pub open spec fn time_ordered_uuid(value: u128) -> bool {
    &&& (value as nat / 0x1000_0000_0000_0000_0000) % 16 == 7
    &&& (value as nat / 0x4000_0000_0000_0000) % 4 == 2
}

/// `uuid::Uuid::now_v7`: a fresh identifier out of the clock and a random
/// number. Of its value only the version and the variant are fixed.
#[verifier::external_body]
pub(crate) fn fresh_uuid() -> (value: u128)
    ensures
        time_ordered_uuid(value),
{
    uuid::Uuid::now_v7().as_u128()
}

/// The 16 bytes of an identifier, most significant first.
pub open spec fn uuid_bytes(value: u128) -> Seq<u8> {
    canonical::le_bytes(value as nat, 16).reverse()
}

/// An identifier has 16 bytes, and they determine it.
pub proof fn lemma_uuid_bytes(a: u128, b: u128)
    ensures
        uuid_bytes(a).len() == 16,
        uuid_bytes(a) == uuid_bytes(b) ==> a == b,
{
    let (x, y) = (canonical::le_bytes(a as nat, 16), canonical::le_bytes(b as nat, 16));
    canonical::lemma_le_bytes_len(a as nat, 16);
    canonical::lemma_le_bytes_len(b as nat, 16);
    canonical::lemma_byte_range_values();
    if uuid_bytes(a) == uuid_bytes(b) {
        assert(x =~= x.reverse().reverse());
        assert(y =~= y.reverse().reverse());
        canonical::lemma_le_bytes_injective(a as nat, b as nat, 16);
    }
}

/// The 16 bytes of an identifier, most significant first.
pub fn uuid_to_bytes(value: u128) -> (bytes: Vec<u8>)
    ensures
        bytes@ == uuid_bytes(value),
{
    let mut bytes: Vec<u8> = Vec::with_capacity(16);
    push_be(&mut bytes, value, 16);
    bytes
}

fn push_be(out: &mut Vec<u8>, v: u128, width: usize)
    ensures
        final(out)@ == old(out)@ + canonical::le_bytes(v as nat, width as nat).reverse(),
    decreases width,
{
    if width > 0 {
        push_be(out, v / 256, width - 1);
        out.push((v % 256) as u8);
        proof {
            let low = canonical::le_bytes(v as nat, width as nat);
            let high = canonical::le_bytes((v / 256) as nat, (width - 1) as nat);
            assert(low =~= seq![(v % 256) as u8] + high);
            assert(low.reverse() =~= high.reverse().push((v % 256) as u8));
        }
    }
    assert(out@ =~= old(out)@ + canonical::le_bytes(v as nat, width as nat).reverse());
}

/// An identifier as text: lowercase hexadecimal digits in groups of 8, 4, 4, 4
/// and 12, with a hyphen between any two groups.
pub open spec fn uuid_text(value: u128) -> Seq<char> {
    let hex = hash::hex_text(uuid_bytes(value));
    hex.subrange(0, 8).push('-') + hex.subrange(8, 12).push('-') + hex.subrange(12, 16).push('-')
        + hex.subrange(16, 20).push('-') + hex.subrange(20, 32)
}

/// An identifier as text, in groups of 8, 4, 4, 4 and 12 hexadecimal digits.
pub fn uuid_to_text(value: u128) -> (s: String)
    ensures
        s@ == uuid_text(value),
{
    let bytes = uuid_to_bytes(value);
    proof {
        canonical::lemma_le_bytes_len(value as nat, 16);
    }
    let mut s: String = String::new();
    push_hex(&mut s, slice_subrange(bytes.as_slice(), 0, 4));
    s.push('-');
    push_hex(&mut s, slice_subrange(bytes.as_slice(), 4, 6));
    s.push('-');
    push_hex(&mut s, slice_subrange(bytes.as_slice(), 6, 8));
    s.push('-');
    push_hex(&mut s, slice_subrange(bytes.as_slice(), 8, 10));
    s.push('-');
    push_hex(&mut s, slice_subrange(bytes.as_slice(), 10, 16));
    proof {
        lemma_hex_of_part(bytes@, 0, 4);
        lemma_hex_of_part(bytes@, 4, 6);
        lemma_hex_of_part(bytes@, 6, 8);
        lemma_hex_of_part(bytes@, 8, 10);
        lemma_hex_of_part(bytes@, 10, 16);
        assert(s@ =~= uuid_text(value));
    }
    s
}

proof fn lemma_hex_of_part(data: Seq<u8>, from: int, to: int)
    requires
        0 <= from <= to <= data.len(),
    ensures
        hash::hex_text(data.subrange(from, to)) == hash::hex_text(data).subrange(2 * from, 2 * to),
{
    assert(hash::hex_text(data.subrange(from, to)) =~= hash::hex_text(data).subrange(
        2 * from,
        2 * to,
    ));
}

fn push_hex(s: &mut String, data: &[u8])
    ensures
        final(s)@ == old(s)@ + hash::hex_text(data@),
{
    push_text(s, to_hex_text(data).as_str());
}

} // verus!
