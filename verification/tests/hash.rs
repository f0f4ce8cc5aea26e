//! Digests: hex text and domain separation.

use doubleentry::hash::tagged;
use doubleentry::{tag, Digest, ParseHashError, RESERVED_DOMAIN_PREFIX};

#[test]
fn hex_round_trips() {
    let h = tagged(b"test", b"payload");
    let parsed = Digest::parse_hex(&h.to_hex()).expect("valid hex");
    assert_eq!(h, parsed);
}

#[test]
fn hex_is_lowercase_and_64_chars() {
    let h = tagged(b"test", b"payload");
    let s = h.to_hex();
    assert_eq!(s.len(), 64);
    assert!(
        s.chars()
            .all(|c| c.is_ascii_digit() || ('a'..='f').contains(&c))
    );
}

#[test]
fn parse_rejects_wrong_length() {
    assert!(matches!(
        Digest::parse_hex("abcd"),
        Err(ParseHashError::Length { got: 4 })
    ));
}

#[test]
fn parse_rejects_non_hex() {
    let bad = "z".repeat(64);
    assert!(matches!(
        Digest::parse_hex(&bad),
        Err(ParseHashError::InvalidDigit)
    ));
}

#[test]
fn parse_accepts_uppercase() {
    let h = tagged(b"test", b"payload");
    let upper = h.to_hex().to_uppercase();
    assert_eq!(Digest::parse_hex(&upper).expect("valid"), h);
}

#[test]
fn different_tags_produce_different_hashes() {
    assert_ne!(tagged(b"a", b"payload"), tagged(b"b", b"payload"));
}

#[test]
fn tag_length_prefix_prevents_boundary_collision() {
    // Without the length prefix, ("ab", "c") and ("a", "bc") would collide.
    assert_ne!(tagged(b"ab", b"c"), tagged(b"a", b"bc"));
}

#[test]
fn the_public_digest_is_the_engines_own_construction() {
    assert_eq!(
        Digest::digest(b"acme/doc/v1", b"x"),
        tagged(b"acme/doc/v1", b"x")
    );
}

#[test]
fn every_engine_tag_lives_under_the_reserved_prefix() {
    // A caller told to stay out of this namespace can only do so if the
    // engine actually stays inside it.
    for t in [
        tag::ENTRY_V1,
        tag::ACCOUNT_V1,
        tag::SEAL_V1,
        tag::TRIAL_BALANCE_V1,
        tag::ACCOUNT_BINDING_V1,
    ] {
        assert!(
            t.starts_with(RESERVED_DOMAIN_PREFIX),
            "{t} escapes the reserved prefix"
        );
    }
}

// ── edges ───────────────────────────────────────────────────────────────

#[test]
fn a_tagged_digest_is_blake3_over_the_length_the_tag_and_the_payload() {
    let mut input = 4u64.to_le_bytes().to_vec();
    input.extend_from_slice(b"test");
    input.extend_from_slice(b"payload");
    assert_eq!(
        tagged(b"test", b"payload").as_bytes(),
        blake3::hash(&input).as_bytes()
    );
    assert_eq!(
        tagged(b"", b"").as_bytes(),
        blake3::hash(&[0u8; 8]).as_bytes()
    );
}

#[test]
fn digests_read_back_from_bytes_and_hex() {
    let mut bytes = [0u8; 32];
    bytes[0] = 0xab;
    bytes[31] = 0x01;
    let digest = Digest::from_bytes(bytes);
    assert_eq!(digest.as_bytes(), &bytes);
    let text = digest.to_hex();
    assert!(text.starts_with("ab00") && text.ends_with("0001"));
    assert_eq!(Digest::parse_hex(&text), Ok(digest));
    assert_eq!(
        Digest::parse_hex(""),
        Err(ParseHashError::Length { got: 0 })
    );
    // The length is a length in bytes, and it is looked at first.
    assert_eq!(
        Digest::parse_hex(&"é".repeat(64)),
        Err(ParseHashError::Length { got: 128 })
    );
    assert_eq!(
        Digest::parse_hex(&"é".repeat(32)),
        Err(ParseHashError::InvalidDigit)
    );
}
