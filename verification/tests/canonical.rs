//! The canonical encoding: fixed widths, counts and length prefixes.

use doubleentry::{Canonical, CanonicalWriter};

#[test]
fn integers_are_little_endian_fixed_width() {
    let mut w = CanonicalWriter::new();
    w.u32(1);
    assert_eq!(w.finish(), vec![1, 0, 0, 0]);
}

#[test]
fn length_prefix_disambiguates_concatenation() {
    let mut a = CanonicalWriter::new();
    a.str("ab").str("c");

    let mut b = CanonicalWriter::new();
    b.str("a").str("bc");

    assert_ne!(a.finish(), b.finish());
}

#[test]
fn none_and_empty_are_distinct() {
    let mut none = CanonicalWriter::new();
    none.option(Option::<&str>::None);

    let mut empty = CanonicalWriter::new();
    empty.option(Some(""));

    assert_ne!(none.finish(), empty.finish());
}

#[test]
fn sequence_counts_are_written() {
    let mut w = CanonicalWriter::new();
    w.seq(&[1u8, 2, 3]);
    assert_eq!(w.finish(), vec![3, 0, 0, 0, 1, 2, 3]);
}

#[test]
fn empty_sequence_encodes_as_zero_count() {
    let mut w = CanonicalWriter::new();
    w.seq(&Vec::<u8>::new());
    assert_eq!(w.finish(), vec![0, 0, 0, 0]);
}

#[test]
fn encoding_is_deterministic() {
    let build = || {
        let mut w = CanonicalWriter::new();
        w.u64(42)
            .str("hello")
            .bool(true)
            .option(Some(&7u8));
        w.finish()
    };
    assert_eq!(build(), build());
}

// ── edges ───────────────────────────────────────────────────────────────

#[test]
fn every_width_is_written_low_byte_first() {
    let mut w = CanonicalWriter::new();
    w.u8(0xfe)
        .u16(0x0102)
        .u32(0x0102_0304)
        .u64(0x0102_0304_0506_0708)
        .i32(-2)
        .i64(-3)
        .bool(true)
        .bool(false);
    assert_eq!(
        w.finish(),
        vec![
            0xfe, 2, 1, 4, 3, 2, 1, 8, 7, 6, 5, 4, 3, 2, 1, 0xfe, 0xff, 0xff, 0xff, 0xfd, 0xff,
            0xff, 0xff, 0xff, 0xff, 0xff, 0xff, 1, 0
        ]
    );
    let mut w = CanonicalWriter::default();
    w.u128(1 << 120);
    let mut expected = vec![0u8; 16];
    expected[15] = 1;
    assert_eq!(w.as_slice(), expected.as_slice());
}

#[test]
fn bytes_and_text_carry_their_length() {
    let mut w = CanonicalWriter::with_capacity(16);
    w.bytes(&[9, 8]).str("é").fixed(&[7]);
    assert_eq!(
        w.finish(),
        vec![2, 0, 0, 0, 9, 8, 2, 0, 0, 0, 0xc3, 0xa9, 7]
    );
}

#[test]
fn optional_values_say_whether_they_are_there() {
    let mut w = CanonicalWriter::new();
    w.option(Some(&5u64)).option(Option::<&u64>::None);
    assert_eq!(w.finish(), vec![1, 5, 0, 0, 0, 0, 0, 0, 0, 0]);
    assert_eq!("ab".to_canonical_bytes(), vec![2, 0, 0, 0, 97, 98]);
    assert_eq!(
        "ab".to_string().to_canonical_bytes(),
        "ab".to_canonical_bytes()
    );
    assert_eq!(3u8.to_canonical_bytes(), vec![3]);
}
