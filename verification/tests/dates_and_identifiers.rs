//! Calendar dates and identifiers.

use doubleentry::{Canonical, ClearingId, Date, EntryId, LogIndex, PostingRef};

fn day(year: i32, month: u8, day: u8) -> Date {
    Date::from_calendar_date(year, month, day).expect("a date of the calendar")
}

#[test]
fn only_days_of_the_calendar_are_dates() {
    assert!(Date::from_calendar_date(2024, 2, 29).is_some());
    assert!(Date::from_calendar_date(2000, 2, 29).is_some());
    for (year, month, day) in [
        (2026, 2, 29),
        (1900, 2, 29),
        (2026, 4, 31),
        (2026, 0, 1),
        (2026, 13, 1),
        (2026, 1, 0),
        (10_000, 1, 1),
        (-10_000, 12, 31),
    ] {
        assert!(
            Date::from_calendar_date(year, month, day).is_none(),
            "{year}-{month}-{day}"
        );
    }
    let date = day(-9999, 12, 31);
    assert_eq!((date.year(), date.month(), date.day()), (-9999, 12, 31));
}

#[test]
fn days_are_numbered_as_julian_days() {
    assert_eq!(day(2000, 1, 1).to_julian_day(), 2_451_545);
    assert_eq!(day(1970, 1, 1).to_julian_day(), 2_440_588);
    assert_eq!(day(2024, 3, 1).to_julian_day(), day(2024, 2, 29).to_julian_day() + 1);
    assert_eq!(day(-4713, 11, 24).to_julian_day(), 0);
    assert_eq!(
        day(9999, 12, 31).to_julian_day(),
        time::Date::MAX.to_julian_day()
    );
    assert_eq!(
        day(-9999, 1, 1).to_julian_day(),
        time::Date::MIN.to_julian_day()
    );
}

#[test]
fn dates_order_and_encode() {
    assert!(day(2025, 12, 31).is_before(&day(2026, 1, 1)));
    assert!(!day(2026, 1, 1).is_before(&day(2026, 1, 1)));
    assert!(day(2026, 1, 1).at_most(&day(2026, 1, 1)));
    assert!(!day(2026, 2, 1).at_most(&day(2026, 1, 31)));
    assert_eq!(
        day(2026, 3, 15).to_canonical_bytes(),
        vec![0xea, 0x07, 0, 0, 3, 15]
    );
}

#[test]
fn identifiers_render_as_uuids() {
    let id = EntryId::from_uuid(0x0123_4567_89ab_cdef_0123_4567_89ab_cdef);
    assert_eq!(id.to_string(), "01234567-89ab-cdef-0123-456789abcdef");
    assert_eq!(id.as_uuid(), 0x0123_4567_89ab_cdef_0123_4567_89ab_cdef);
    assert_eq!(
        id.to_canonical_bytes(),
        vec![
            0x01, 0x23, 0x45, 0x67, 0x89, 0xab, 0xcd, 0xef, 0x01, 0x23, 0x45, 0x67, 0x89, 0xab,
            0xcd, 0xef
        ]
    );
    assert_eq!(
        ClearingId::from_uuid(1).to_string(),
        "00000000-0000-0000-0000-000000000001"
    );
    assert_eq!(
        PostingRef::new(EntryId::from_uuid(1), 3).to_string(),
        "00000000-0000-0000-0000-000000000001#3"
    );
    assert_eq!(LogIndex::from(7).to_string(), "7");
}

#[test]
fn generated_identifiers_are_time_ordered_uuids_and_differ() {
    let ids: Vec<u128> = (0..50)
        .map(|_| EntryId::generate().as_uuid())
        .chain((0..50).map(|_| ClearingId::generate().as_uuid()))
        .collect();
    for (i, a) in ids.iter().enumerate() {
        assert_eq!((a >> 76) & 0xf, 7);
        assert_eq!((a >> 62) & 0x3, 2);
        assert!(ids[i + 1..].iter().all(|b| a != b));
    }
}
