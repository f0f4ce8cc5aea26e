//! Accounting periods and the calendar.

use doubleentry::{Date, Period, PeriodCalendar, PeriodError, PeriodId, PeriodState};

fn day(year: i32, month: u8, day: u8) -> Date {
    Date::from_calendar_date(year, month, day).expect("a date of the calendar")
}

fn pid(s: &str) -> PeriodId {
    PeriodId::new(s).expect("valid identifier")
}

fn march() -> Period {
    Period::new(pid("2026-03"), day(2026, 3, 1), day(2026, 3, 31))
        .expect("valid range")
}

#[test]
fn rejects_inverted_ranges() {
    assert!(matches!(
        Period::new(pid("bad"), day(2026, 3, 31), day(2026, 3, 1)),
        Err(PeriodError::EndBeforeStart { .. })
    ));
}

#[test]
fn contains_is_inclusive_at_both_ends() {
    let p = march();
    assert!(p.contains(day(2026, 3, 1)));
    assert!(p.contains(day(2026, 3, 31)));
    assert!(!p.contains(day(2026, 2, 28)));
    assert!(!p.contains(day(2026, 4, 1)));
}

#[test]
fn empty_calendar_accepts_everything() {
    let c = PeriodCalendar::new();
    assert!(c.accepts(day(2026, 3, 15)));
    assert_eq!(c.state_on(day(2026, 3, 15)), PeriodState::Open);
}

#[test]
fn dates_outside_every_period_are_unrestricted() {
    let mut c = PeriodCalendar::new();
    c.define(march()).expect("defines");
    c.transition(&pid("2026-03"), PeriodState::Closing)
        .expect("ok");
    c.transition(&pid("2026-03"), PeriodState::Sealed)
        .expect("ok");
    assert!(!c.accepts(day(2026, 3, 15)));
    assert!(c.accepts(day(2026, 4, 15)));
}

#[test]
fn rejects_overlapping_periods() {
    let mut c = PeriodCalendar::new();
    c.define(march()).expect("defines");
    let overlapping = Period::new(
        pid("2026-03b"),
        day(2026, 3, 15),
        day(2026, 4, 15),
    )
    .expect("valid range");
    assert!(matches!(
        c.define(overlapping),
        Err(PeriodError::Overlap { .. })
    ));
}

#[test]
fn rejects_duplicate_identifiers() {
    let mut c = PeriodCalendar::new();
    c.define(march()).expect("defines");
    assert!(matches!(
        c.define(march()),
        Err(PeriodError::Duplicate { .. })
    ));
}

#[test]
fn adjacent_periods_do_not_overlap() {
    let mut c = PeriodCalendar::new();
    c.define(march()).expect("defines");
    let april = Period::new(pid("2026-04"), day(2026, 4, 1), day(2026, 4, 30))
        .expect("valid range");
    assert!(c.define(april).is_ok());
    assert_eq!(c.len(), 2);
}

#[test]
fn lifecycle_follows_the_permitted_transitions() {
    let mut c = PeriodCalendar::new();
    c.define(march()).expect("defines");
    let id = pid("2026-03");

    // Cannot seal directly from open.
    assert!(matches!(
        c.transition(&id, PeriodState::Sealed),
        Err(PeriodError::InvalidTransition { .. })
    ));

    c.transition(&id, PeriodState::Closing)
        .expect("open to closing");
    // A failed close may be abandoned.
    c.transition(&id, PeriodState::Open)
        .expect("closing to open");
    c.transition(&id, PeriodState::Closing)
        .expect("open to closing");
    c.transition(&id, PeriodState::Sealed)
        .expect("closing to sealed");

    // Sealed is terminal.
    for to in [PeriodState::Open, PeriodState::Closing, PeriodState::Sealed] {
        assert!(matches!(
            c.transition(&id, to),
            Err(PeriodError::InvalidTransition { .. })
        ));
    }
}

#[test]
fn closing_periods_stop_accepting_postings() {
    let mut c = PeriodCalendar::new();
    c.define(march()).expect("defines");
    c.transition(&pid("2026-03"), PeriodState::Closing)
        .expect("ok");
    assert!(!c.accepts(day(2026, 3, 15)));
}

#[test]
fn unknown_period_transition_is_an_error() {
    let mut c = PeriodCalendar::new();
    assert!(matches!(
        c.transition(&pid("nope"), PeriodState::Closing),
        Err(PeriodError::Unknown { .. })
    ));
}

// ── edges ───────────────────────────────────────────────────────────────

fn month(id: &str, m: u8, last: u8) -> Period {
    Period::new(pid(id), day(2026, m, 1), day(2026, m, last)).expect("valid range")
}

#[test]
fn a_calendar_comes_back_from_its_periods() {
    let mut sealed = month("2026-02", 2, 28);
    sealed.state = PeriodState::Sealed;
    let calendar =
        PeriodCalendar::from_periods(vec![month("2026-03", 3, 31), sealed]).expect("no overlap");
    assert_eq!(calendar.len(), 2);
    assert_eq!(calendar.sealed_through(), Some(day(2026, 2, 28)));
    assert_eq!(calendar.state_on(day(2026, 1, 5)), PeriodState::Sealed);
    assert_eq!(calendar.state_on(day(2026, 3, 5)), PeriodState::Open);
    let starts: Vec<Date> = calendar.iter().iter().map(|p| p.start).collect();
    assert_eq!(starts, vec![day(2026, 2, 1), day(2026, 3, 1)]);
    assert!(matches!(
        PeriodCalendar::from_periods(vec![march(), march()]),
        Err(PeriodError::Duplicate { .. })
    ));
}

#[test]
fn a_period_is_confirmed_but_not_moved() {
    let mut c = PeriodCalendar::new();
    c.ensure(march()).expect("defines");
    c.transition(&pid("2026-03"), PeriodState::Closing)
        .expect("ok");
    // The same range again is a no-op, whatever state it is in.
    c.ensure(march()).expect("confirms");
    assert_eq!(
        c.get(&pid("2026-03")).expect("defined").state,
        PeriodState::Closing
    );
    let moved =
        Period::new(pid("2026-03"), day(2026, 3, 1), day(2026, 3, 30)).expect("valid range");
    assert!(matches!(
        c.ensure(moved),
        Err(PeriodError::Duplicate { .. })
    ));
    assert_eq!(c.len(), 1);
}

#[test]
fn periods_seal_in_date_order() {
    let mut c = PeriodCalendar::new();
    c.define(month("2026-02", 2, 28)).expect("defines");
    c.define(month("2026-03", 3, 31)).expect("defines");
    assert!(matches!(
        c.check_sealable(&pid("2026-03")),
        Err(PeriodError::NotClosing {
            state: PeriodState::Open,
            ..
        })
    ));
    c.transition(&pid("2026-03"), PeriodState::Closing)
        .expect("ok");
    assert!(matches!(
        c.check_sealable(&pid("2026-03")),
        Err(PeriodError::UnsealedPredecessor { ref predecessor, .. }) if *predecessor == pid("2026-02")
    ));
    c.transition(&pid("2026-02"), PeriodState::Closing)
        .expect("ok");
    assert_eq!(
        c.check_sealable(&pid("2026-02")).expect("nothing earlier").id,
        pid("2026-02")
    );
    c.transition(&pid("2026-02"), PeriodState::Sealed)
        .expect("ok");
    assert!(c.check_sealable(&pid("2026-03")).is_ok());
    assert!(matches!(
        c.check_sealable(&pid("nope")),
        Err(PeriodError::Unknown { .. })
    ));
}

#[test]
fn one_shared_day_is_an_overlap() {
    let touching =
        Period::new(pid("next"), day(2026, 3, 31), day(2026, 4, 30)).expect("valid range");
    assert!(march().overlaps(&touching) && touching.overlaps(&march()));
    assert!(!march().overlaps(&month("2026-04", 4, 30)));
    assert_eq!(PeriodState::Closing.name(), "closing");
    assert!(PeriodState::Open.accepts_postings() && !PeriodState::Closing.accepts_postings());
    let mut c = PeriodCalendar::default();
    c.define(march()).expect("defines");
    assert_eq!(
        c.period_on(day(2026, 3, 31)).map(|p| p.id.to_string()),
        Some("2026-03".to_string())
    );
    assert_eq!(c.period_on(day(2026, 4, 1)), None);
    assert!(!c.is_empty());
}
