//! What text, dates and identifiers are accepted, and how they are ordered.

use crate::canonical;
use crate::date;
use crate::dimensions::{self, DimensionError};
use crate::entry::{self, EntryFieldError};
use crate::hash;
use crate::ident;
use crate::ordered;
use crate::text;
use vstd::prelude::*;

verus! {

// ── characters ──────────────────────────────────────────────────────────────

/// Whitespace is the twenty-five characters with the Unicode property, and no
/// other.
pub proof fn law_white_space_is_the_unicode_property(c: char)
    ensures
        text::white_space(c) <==> seq![
            0x09int,
            0x0a,
            0x0b,
            0x0c,
            0x0d,
            0x20,
            0x85,
            0xa0,
            0x1680,
            0x2000,
            0x2001,
            0x2002,
            0x2003,
            0x2004,
            0x2005,
            0x2006,
            0x2007,
            0x2008,
            0x2009,
            0x200a,
            0x2028,
            0x2029,
            0x202f,
            0x205f,
            0x3000,
        ].contains(c as int),
{
    let all = seq![
        0x09int,
        0x0a,
        0x0b,
        0x0c,
        0x0d,
        0x20,
        0x85,
        0xa0,
        0x1680,
        0x2000,
        0x2001,
        0x2002,
        0x2003,
        0x2004,
        0x2005,
        0x2006,
        0x2007,
        0x2008,
        0x2009,
        0x200a,
        0x2028,
        0x2029,
        0x202f,
        0x205f,
        0x3000,
    ];
    let v = c as int;
    if text::white_space(c) {
        if v <= 0x0d {
            assert(all[v - 0x09] == v);
        } else if 0x2000 <= v <= 0x200a {
            assert(all[9 + v - 0x2000] == v);
        } else {
            assert(all[5] == 0x20 && all[6] == 0x85 && all[7] == 0xa0 && all[8] == 0x1680 && all[20]
                == 0x2028 && all[21] == 0x2029 && all[22] == 0x202f && all[23] == 0x205f && all[24]
                == 0x3000);
        }
    }
    if all.contains(v) {
        let i = choose|i: int| 0 <= i < all.len() && all[i] == v;
        assert(all.len() == 25);
    }
}

/// The control characters are the first thirty-two, delete, and the thirty-two
/// after it.
pub proof fn law_control_characters_come_in_two_runs(c: char)
    ensures
        text::control(c) <==> c < ' ' || ('~' < c && 0xa0 > c as int),
{
}

/// True of text with a control character in it.
pub open spec fn has_controls(t: Seq<char>) -> bool {
    exists|i: int|
        0 <= i < t.len() && ((#[trigger] t[i] as int) < 0x20 || 0x7f <= t[i] as int <= 0x9f)
}

proof fn lemma_controls(t: Seq<char>)
    ensures
        text::has_control(t) <==> has_controls(t),
{
    if text::has_control(t) {
        let i = choose|i: int| 0 <= i < t.len() && text::control(#[trigger] t[i]);
        law_control_characters_come_in_two_runs(t[i]);
        assert((t[i] as int) < 0x20 || 0x7f <= t[i] as int <= 0x9f);
    }
    if has_controls(t) {
        let i = choose|i: int|
            0 <= i < t.len() && ((#[trigger] t[i] as int) < 0x20 || 0x7f <= t[i] as int <= 0x9f);
        law_control_characters_come_in_two_runs(t[i]);
        assert(text::control(t[i]));
    }
}

// ── fields ──────────────────────────────────────────────────────────────────

/// A label is one to sixty-four characters, none of them a control character. Any
/// other text is refused for the first of these that it breaks.
pub proof fn law_labels_are_short_and_plain(t: Seq<char>)
    ensures
        match dimensions::label_error(t) {
            None => 1 <= t.len() <= 64 && !has_controls(t),
            Some(DimensionError::Empty) => t.len() == 0,
            Some(DimensionError::TooLong) => t.len() > 64,
            Some(DimensionError::ControlCharacter) => 1 <= t.len() <= 64 && has_controls(t),
            Some(_) => false,
        },
{
    lemma_controls(t);
}

/// An idempotency key is one to a hundred and twenty-eight bytes.
pub proof fn law_keys_are_short(bytes: Seq<u8>)
    ensures
        match entry::key_fault(bytes) {
            None => 1 <= bytes.len() <= 128,
            Some(EntryFieldError::EmptyIdempotencyKey) => bytes.len() == 0,
            Some(EntryFieldError::IdempotencyKeyTooLong) => bytes.len() > 128,
            Some(_) => false,
        },
{
}

/// A description is at most five hundred and twelve characters, none of them a
/// control character but the newline.
pub proof fn law_descriptions_are_bounded_and_plain(t: Seq<char>)
    ensures
        match entry::description_fault(t) {
            None => t.len() <= 512 && forall|i: int|
                0 <= i < t.len() ==> #[trigger] t[i] == '\n' || (0x20 <= t[i] as int && 0x7f > t[i] as int)
                    || 0x9f < t[i] as int,
            Some(EntryFieldError::DescriptionTooLong) => t.len() > 512,
            Some(EntryFieldError::DescriptionControlCharacter) => t.len() <= 512 && exists|i: int|
                0 <= i < t.len() && #[trigger] t[i] != '\n' && ((t[i] as int) < 0x20 || 0x7f
                    <= t[i] as int <= 0x9f),
            Some(_) => false,
        },
{
    if entry::has_stray_control(t) {
        let i = choose|i: int|
            0 <= i < t.len() && text::control(#[trigger] t[i]) && t[i] != '\n';
        law_control_characters_come_in_two_runs(t[i]);
        assert((t[i] as int) < 0x20 || 0x7f <= t[i] as int <= 0x9f);
    } else {
        assert forall|i: int| 0 <= i < t.len() implies #[trigger] t[i] == '\n' || (0x20
            <= t[i] as int && 0x7f > t[i] as int) || 0x9f < t[i] as int by {
            assert(!(text::control(t[i]) && t[i] != '\n'));
            law_control_characters_come_in_two_runs(t[i]);
        }
    }
}

/// True when pair `i` is the last one given for an axis.
pub open spec fn is_last_for(
    pairs: Seq<(Seq<char>, Seq<char>)>,
    i: int,
    axis: Seq<char>,
) -> bool {
    &&& 0 <= i < pairs.len()
    &&& pairs[i].0 == axis
    &&& forall|j: int| i < j < pairs.len() ==> (#[trigger] pairs[j]).0 != axis
}

/// The value set for an axis is the last one given for it, and only axes that were
/// given have one.
pub proof fn law_later_pairs_replace_earlier_ones(
    pairs: Seq<(Seq<char>, Seq<char>)>,
    axis: Seq<char>,
)
    ensures
        dimensions::mapping_of_pairs(pairs).contains_key(axis) <==> exists|i: int| #[trigger]
            is_last_for(pairs, i, axis),
        forall|i: int| #[trigger]
            is_last_for(pairs, i, axis) ==> dimensions::mapping_of_pairs(pairs)[axis]
                == pairs[i].1,
    decreases pairs.len(),
{
    if pairs.len() > 0 {
        let fewer = pairs.drop_last();
        let n = pairs.len() - 1;
        law_later_pairs_replace_earlier_ones(fewer, axis);
        if pairs[n].0 == axis {
            assert(is_last_for(pairs, n, axis));
            assert forall|i: int| #[trigger] is_last_for(pairs, i, axis) implies i == n by {
                if i < n {
                    assert(pairs[n].0 != axis);
                }
            }
        } else {
            assert forall|i: int| #[trigger] is_last_for(pairs, i, axis) implies is_last_for(
                fewer,
                i,
                axis,
            ) && fewer[i] == pairs[i] by {
                assert(i != n);
                assert forall|j: int| i < j < fewer.len() implies (#[trigger] fewer[j]).0
                    != axis by {
                    assert(fewer[j] == pairs[j]);
                }
            }
            if dimensions::mapping_of_pairs(fewer).contains_key(axis) {
                let i = choose|i: int| #[trigger] is_last_for(fewer, i, axis);
                assert forall|j: int| i < j < pairs.len() implies (#[trigger] pairs[j]).0
                    != axis by {
                    if j < n {
                        assert(fewer[j] == pairs[j]);
                    }
                }
                assert(is_last_for(pairs, i, axis));
            }
        }
    }
}

// ── dates ───────────────────────────────────────────────────────────────────

/// The days of the months in turn, in a common year.
pub open spec fn month_lengths() -> Seq<int> {
    seq![31, 28, 31, 30, 31, 30, 31, 31, 30, 31, 30, 31]
}

/// A day exists when its year is supported, its month is one of twelve, and the
/// month has that many days: those of a common year, and one more in February
/// every fourth year but for the centuries that four hundred does not divide.
pub proof fn law_days_exist_by_the_gregorian_calendar(year: int, month: int, day: int)
    ensures
        date::calendar_day(year, month, day) <==> {
            let leaps = (year % 4 == 0 && year % 100 != 0) || year % 400 == 0;
            &&& -9999 <= year <= 9999
            &&& 1 <= month <= 12
            &&& 1 <= day <= month_lengths()[month - 1] + if leaps && month == 2 {
                1int
            } else {
                0
            }
        },
{
    if 1 <= month <= 12 {
        let t = month_lengths();
        assert(t[0] == 31 && t[1] == 28 && t[2] == 31 && t[3] == 30 && t[4] == 31 && t[5] == 30
            && t[6] == 31 && t[7] == 31 && t[8] == 30 && t[9] == 31 && t[10] == 30 && t[11] == 31);
        assert(year % 400 == 0 ==> year % 4 == 0);
    }
}

/// Days are numbered in turn, through the ends of months and years, and the first
/// of January of the year 2000 has the number 2451545.
pub proof fn law_days_are_numbered_in_turn(year: int, month: int, day: int)
    requires
        date::calendar_day(year, month, day),
    ensures
        ({
            let number = date::julian_day_number(year, month, day);
            let last = date::days_in_month(year, month);
            &&& day < last ==> date::julian_day_number(year, month, day + 1) == number + 1
            &&& day == last && month < 12 ==> date::julian_day_number(year, month + 1, 1) == number
                + 1
            &&& day == last && month == 12 ==> date::julian_day_number(year + 1, 1, 1) == number
                + 1
        }),
        date::julian_day_number(2000, 1, 1) == 2451545,
{
    reveal_with_fuel(date::days_before_month, 13);
    date::lemma_next_year(year);
}

// ── numerals, bytes and text ────────────────────────────────────────────────

/// The number that bytes spell, the least significant first.
pub open spec fn number_of(bytes: Seq<u8>) -> int
    decreases bytes.len(),
{
    if bytes.len() == 0 {
        0
    } else {
        bytes[0] as int + 256 * number_of(bytes.skip(1))
    }
}

/// An integer is encoded in as many bytes as its width, the least significant
/// first, and they spell it.
pub proof fn law_integers_are_encoded_least_significant_first(v: nat, width: nat)
    requires
        v < canonical::byte_range(width),
    ensures
        canonical::le_bytes(v, width).len() == width,
        number_of(canonical::le_bytes(v, width)) == v,
    decreases width,
{
    if width > 0 {
        let bytes = canonical::le_bytes(v, width);
        let rest = canonical::le_bytes(v / 256, (width - 1) as nat);
        assert(v / 256 < canonical::byte_range((width - 1) as nat)) by {
            let r = canonical::byte_range((width - 1) as nat);
            assert(v < 256 * r);
        }
        law_integers_are_encoded_least_significant_first(v / 256, (width - 1) as nat);
        assert(bytes.skip(1) =~= rest);
    }
}

/// Signed integers are encoded in two's complement: those at or above zero as they
/// are, the others as far below the end of the range.
pub proof fn law_signed_integers_are_in_twos_complement(v: int)
    ensures
        0 <= v <= i64::MAX ==> canonical::twos64(v) == v,
        i64::MIN <= v < 0 ==> canonical::twos64(v) == v + 0x1_0000_0000_0000_0000
            && canonical::twos64(v) > i64::MAX,
        0 <= v <= i32::MAX ==> canonical::twos32(v) == v,
        i32::MIN <= v < 0 ==> canonical::twos32(v) == v + 0x1_0000_0000 && canonical::twos32(v)
            > i32::MAX,
{
}

/// Variable parts are counted ahead of what they hold, in four bytes: byte strings
/// by their bytes and lists by their elements. An option is a byte that says whether
/// anything follows.
pub proof fn law_variable_parts_are_counted_first(
    data: Seq<u8>,
    parts: Seq<Seq<u8>>,
    part: Seq<u8>,
)
    requires
        data.len() <= u32::MAX,
        parts.len() < u32::MAX,
    ensures
        canonical::prefixed(data).len() == 4 + data.len(),
        number_of(canonical::prefixed(data).take(4)) == data.len(),
        canonical::prefixed(data).skip(4) == data,
        number_of(canonical::counted(parts).take(4)) == parts.len(),
        canonical::counted(Seq::<Seq<u8>>::empty()).skip(4) == Seq::<u8>::empty(),
        canonical::counted(parts.push(part)).skip(4) == canonical::counted(parts).skip(4) + part,
        canonical::option_bytes(None) == seq![0u8],
        canonical::option_bytes(Some(part)) == seq![1u8] + part,
{
    canonical::lemma_byte_range_values();
    law_integers_are_encoded_least_significant_first(data.len(), 4);
    law_integers_are_encoded_least_significant_first(parts.len(), 4);
    law_integers_are_encoded_least_significant_first(0, 4);
    law_integers_are_encoded_least_significant_first(parts.len() + 1, 4);
    assert(canonical::prefixed(data).take(4) =~= canonical::le_bytes(data.len(), 4));
    assert(canonical::prefixed(data).skip(4) =~= data);
    assert(canonical::counted(parts).take(4) =~= canonical::le_bytes(parts.len(), 4));
    assert(canonical::counted(parts).skip(4) =~= canonical::concat_all(parts));
    assert(parts.push(part).drop_last() =~= parts);
    assert(canonical::counted(parts.push(part)).skip(4) =~= canonical::concat_all(
        parts.push(part),
    ));
    assert(canonical::counted(Seq::<Seq<u8>>::empty()).skip(4) =~= Seq::<u8>::empty());
}

/// A count that four bytes cannot hold is written as the largest they can.
pub proof fn law_counts_saturate(len: nat)
    ensures
        len <= 0xffff_ffff ==> canonical::prefix_of(len) == len,
        len > 0xffff_ffff ==> canonical::prefix_of(len) == 0xffff_ffff,
{
}

/// A byte is written as two hexadecimal digits, the high one first, in lower case.
pub proof fn law_bytes_are_written_in_hexadecimal(data: Seq<u8>, i: int)
    requires
        0 <= i < data.len(),
    ensures
        hash::hex_text(data).len() == 2 * data.len(),
        ({
            let digits = "0123456789abcdef"@;
            &&& hash::hex_text(data)[2 * i] == digits[data[i] as int / 16]
            &&& hash::hex_text(data)[2 * i + 1] == digits[data[i] as int % 16]
        }),
{
    reveal_strlit("0123456789abcdef");
    let b = data[i] as int;
    assert(2 * i / 2 == i && (2 * i) % 2 == 0);
    assert((2 * i + 1) / 2 == i && (2 * i + 1) % 2 == 1);
    lemma_hex(b / 16);
    lemma_hex(b % 16);
}

proof fn lemma_hex(n: int)
    requires
        0 <= n < 16,
    ensures
        hash::hex_char(n) == "0123456789abcdef"@[n],
{
    reveal_strlit("0123456789abcdef");
}

/// Hexadecimal digits are read in either case, and nothing else is.
pub proof fn law_hexadecimal_digits_are_read_in_either_case(c: u8)
    ensures
        match hash::hex_digit_value(c) {
            Some(n) => 0 <= n < 16 && (c as int == "0123456789abcdef"@[n] as int || c as int
                == "0123456789ABCDEF"@[n] as int),
            None => forall|n: int|
                0 <= n < 16 ==> c as int != (#[trigger] "0123456789abcdef"@[n]) as int && c as int
                    != "0123456789ABCDEF"@[n] as int,
        },
{
    reveal_strlit("0123456789abcdef");
    reveal_strlit("0123456789ABCDEF");
    if hash::hex_digit_value(c) is None {
        assert forall|n: int| 0 <= n < 16 implies c as int != (
        #[trigger] "0123456789abcdef"@[n]) as int && c as int != "0123456789ABCDEF"@[n] as int by {
            lemma_hex(n);
        }
    }
}

/// An idempotency key in hexadecimal is refused exactly when its digits are odd in
/// number, one of them is no digit, or the bytes they spell are no key.
pub proof fn law_hexadecimal_keys_are_read_in_pairs(t: Seq<u8>)
    ensures
        match entry::hex_key_fault(t) {
            Some(EntryFieldError::MalformedIdempotencyKey) => t.len() % 2 == 1 || exists|i: int|
                0 <= i < t.len() && hash::hex_digit_value(#[trigger] t[i]) is None,
            Some(EntryFieldError::EmptyIdempotencyKey) => t.len() == 0,
            Some(EntryFieldError::IdempotencyKeyTooLong) => t.len() > 256,
            Some(_) => false,
            None => {
                &&& 2 <= t.len() <= 256
                &&& t.len() % 2 == 0
                &&& hash::unhex(t).len() == t.len() / 2
                &&& forall|i: int|
                    0 <= i < t.len() / 2 ==> (#[trigger] hash::unhex(t)[i]) as int == 16
                        * hash::hex_digit_value(t[2 * i])->0 + hash::hex_digit_value(
                        t[2 * i + 1],
                    )->0
            },
        },
{
    if entry::hex_key_fault(t) is None {
        assert forall|i: int| 0 <= i < t.len() / 2 implies (
        #[trigger] hash::unhex(t)[i]) as int == 16 * hash::hex_digit_value(t[2 * i])->0
            + hash::hex_digit_value(t[2 * i + 1])->0 by {
            assert(hash::hex_digit_value(t[2 * i]) is Some);
            assert(hash::hex_digit_value(t[2 * i + 1]) is Some);
        }
    }
}

/// Pairs of hexadecimal digits spell bytes, the high digit first.
pub proof fn law_pairs_of_digits_spell_bytes(t: Seq<u8>, i: int)
    requires
        hash::all_hex(t),
        0 <= i < t.len() / 2,
    ensures
        hash::unhex(t).len() == t.len() / 2,
        hash::unhex(t)[i] as int == 16 * hash::hex_digit_value(t[2 * i])->0
            + hash::hex_digit_value(t[2 * i + 1])->0,
{
    assert(hash::hex_digit_value(t[2 * i]) is Some);
    assert(hash::hex_digit_value(t[2 * i + 1]) is Some);
}

/// An identifier is written in hexadecimal, the most significant digit first, with
/// hyphens after the eighth, twelfth, sixteenth and twentieth digit.
pub proof fn law_identifiers_are_written_in_groups(value: u128)
    ensures
        ident::uuid_text(value).len() == 36,
        ident::uuid_bytes(value).len() == 16,
        number_of(ident::uuid_bytes(value).reverse()) == value,
        forall|i: int|
            0 <= i < 36 ==> #[trigger] ident::uuid_text(value)[i] == (if i == 8 || i == 13 || i
                == 18 || i == 23 {
                '-'
            } else {
                hash::hex_text(ident::uuid_bytes(value))[i - if i > 23 {
                    4int
                } else if i > 18 {
                    3
                } else if i > 13 {
                    2
                } else if i > 8 {
                    1
                } else {
                    0
                }]
            }),
{
    canonical::lemma_byte_range_values();
    let low = canonical::le_bytes(value as nat, 16);
    canonical::lemma_le_bytes_len(value as nat, 16);
    law_integers_are_encoded_least_significant_first(value as nat, 16);
    assert(low.reverse().reverse() =~= low);
}

// ── order ───────────────────────────────────────────────────────────────────

/// One byte string comes before another exactly when it runs out first or has the
/// smaller byte at the first place where they differ.
pub proof fn law_bytes_are_ordered_lexicographically(a: Seq<u8>, b: Seq<u8>)
    ensures
        ordered::bytes_before(a, b) <==> exists|k: int| #[trigger] first_smaller_at(a, b, k),
    decreases b.len(),
{
    if b.len() == 0 {
        assert forall|k: int| !#[trigger] first_smaller_at(a, b, k) by {}
    } else if a.len() == 0 {
        assert(first_smaller_at(a, b, 0));
    } else if a[0] == b[0] {
        let (x, y) = (a.skip(1), b.skip(1));
        law_bytes_are_ordered_lexicographically(x, y);
        if ordered::bytes_before(x, y) {
            let k = choose|k: int| #[trigger] first_smaller_at(x, y, k);
            assert forall|i: int| 0 <= i < k + 1 implies #[trigger] a[i] == b[i] by {
                if i > 0 {
                    assert(x[i - 1] == y[i - 1]);
                }
            }
            assert(first_smaller_at(a, b, k + 1));
        }
        if exists|k: int| #[trigger] first_smaller_at(a, b, k) {
            let k = choose|k: int| #[trigger] first_smaller_at(a, b, k);
            assert forall|i: int| 0 <= i < k - 1 implies #[trigger] x[i] == y[i] by {
                assert(a[i + 1] == b[i + 1]);
            }
            assert(first_smaller_at(x, y, k - 1));
        }
    } else {
        if a[0] < b[0] {
            assert(first_smaller_at(a, b, 0));
        }
        assert forall|k: int| #[trigger] first_smaller_at(a, b, k) implies a[0] < b[0] by {
            if k > 0 {
                assert(a[0] == b[0]);
            }
        }
    }
}

/// True when two byte strings agree up to a place where the first has ended, or has
/// the smaller byte.
pub open spec fn first_smaller_at(a: Seq<u8>, b: Seq<u8>, k: int) -> bool {
    &&& 0 <= k <= a.len()
    &&& k < b.len()
    &&& forall|i: int| 0 <= i < k ==> #[trigger] a[i] == b[i]
    &&& k == a.len() || a[k] < b[k]
}

} // verus!
