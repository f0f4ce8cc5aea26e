//! Entries: validation, hashing, reversal and rehydration.

use doubleentry::entry::{MAX_DESCRIPTION_LEN, MAX_IDEMPOTENCY_KEY_LEN, MAX_POSTINGS};
use doubleentry::hash::tagged;
use doubleentry::{
    Account, AccountId, AccountPath, AccountRegistry, Amount, Balanced, Currency, CurrencyPolicy,
    Date, Description, Dimensions, DocumentRef, Draft, Entry, EntryFieldError, EntryId,
    IdempotencyKey, Label, Layer, LedgerPolicy, Period, PeriodCalendar, PeriodId, PeriodState,
    Posting, Provenance, SealContext, TrialBalance, ValidationError,
};

fn day(year: i32, month: u8, day: u8) -> Date {
    Date::from_calendar_date(year, month, day).expect("a date of the calendar")
}

type Eur = Amount<2>;

struct Fixture {
    accounts: AccountRegistry,
    calendar: PeriodCalendar,
    policy: LedgerPolicy,
    cash: AccountId,
    revenue: AccountId,
}

impl Fixture {
    fn new() -> Self {
        let mut accounts = AccountRegistry::new();
        let cash = accounts
            .register_path("Assets:Cash", day(2026, 1, 1))
            .expect("registers");
        let revenue = accounts
            .register_path("Income:Sales", day(2026, 1, 1))
            .expect("registers");
        Self {
            accounts,
            calendar: PeriodCalendar::new(),
            policy: LedgerPolicy::default(),
            cash,
            revenue,
        }
    }

    fn ctx(&self) -> SealContext<'_> {
        SealContext {
            accounts: &self.accounts,
            calendar: &self.calendar,
            policy: &self.policy,
        }
    }

    fn draft(&self) -> Entry<Draft, 2> {
        Entry::new(
            EntryId::generate(),
            IdempotencyKey::new(b"key-1".to_vec()).expect("valid"),
            day(2026, 3, 15),
        )
    }

    fn balanced(&self) -> Entry<Balanced, 2> {
        self.draft()
            .debit(self.cash, Eur::from_minor(1000), Currency::eur())
            .credit(self.revenue, Eur::from_minor(1000), Currency::eur())
            .seal(&self.ctx())
            .expect("balances")
    }
}

#[test]
fn a_balanced_entry_seals() {
    let f = Fixture::new();
    let entry = f.balanced();
    assert_eq!(entry.postings().len(), 2);
    let totals = entry.totals().expect("no overflow");
    assert!(totals
        .get(&Currency::eur())
        .expect("a total in euros")
        .is_balanced());
}

#[test]
fn an_unbalanced_entry_is_rejected() {
    let f = Fixture::new();
    let err = f
        .draft()
        .debit(f.cash, Eur::from_minor(1000), Currency::eur())
        .credit(f.revenue, Eur::from_minor(999), Currency::eur())
        .seal(&f.ctx())
        .expect_err("must not balance");
    assert!(err.any(|e| matches!(e, ValidationError::Unbalanced { .. })));
}

#[test]
fn a_single_posting_is_not_double_entry() {
    let f = Fixture::new();
    let err = f
        .draft()
        .debit(f.cash, Eur::from_minor(1000), Currency::eur())
        .seal(&f.ctx())
        .expect_err("too few postings");
    assert!(err.any(|e| matches!(e, ValidationError::TooFewPostings { count: 1 })));
}

#[test]
fn zero_and_negative_amounts_are_rejected() {
    let f = Fixture::new();
    let err = f
        .draft()
        .debit(f.cash, Eur::zero(), Currency::eur())
        .credit(f.revenue, Eur::from_minor(-5), Currency::eur())
        .seal(&f.ctx())
        .expect_err("invalid amounts");
    assert!(err.any(|e| matches!(e, ValidationError::ZeroAmount { index: 0 })));
    assert!(err.any(|e| matches!(e, ValidationError::NegativeAmount { index: 1 })));
}

#[test]
fn all_violations_are_reported_at_once() {
    let f = Fixture::new();
    let missing = AccountId::from_index(999);
    let err = f
        .draft()
        .debit(missing, Eur::zero(), Currency::eur())
        .credit(f.revenue, Eur::from_minor(500), Currency::eur())
        .seal(&f.ctx())
        .expect_err("multiple problems");

    // A caller repairing a batch should see every problem in one pass.
    assert!(err.any(|e| matches!(e, ValidationError::ZeroAmount { index: 0 })));
    assert!(err.any(|e| matches!(e, ValidationError::UnknownAccount { index: 0, .. })));
    assert!(err.any(|e| matches!(e, ValidationError::Unbalanced { .. })));
    assert_eq!(err.len(), 3, "expected exactly three violations, got {err:?}");
}

#[test]
fn an_entry_of_only_zero_postings_is_not_reported_as_unbalanced() {
    // Zero on both sides balances; the real defects are the zero amounts.
    let f = Fixture::new();
    let err = f
        .draft()
        .debit(f.cash, Eur::zero(), Currency::eur())
        .credit(f.revenue, Eur::zero(), Currency::eur())
        .seal(&f.ctx())
        .expect_err("zero amounts");
    assert!(!err.any(|e| matches!(e, ValidationError::Unbalanced { .. })));
    assert_eq!(err.len(), 2);
}

#[test]
fn unknown_accounts_are_rejected() {
    let f = Fixture::new();
    let missing = AccountId::from_index(999);
    let err = f
        .draft()
        .debit(missing, Eur::from_minor(10), Currency::eur())
        .credit(f.revenue, Eur::from_minor(10), Currency::eur())
        .seal(&f.ctx())
        .expect_err("unknown account");
    assert!(err.any(|e| matches!(e, ValidationError::UnknownAccount { index: 0, .. })));
}

#[test]
fn posting_to_an_aggregation_node_is_rejected() {
    let mut f = Fixture::new();
    let parent = f
        .accounts
        .register_path("Assets", day(2026, 1, 1))
        .expect("registers");
    let err = f
        .draft()
        .debit(parent, Eur::from_minor(10), Currency::eur())
        .credit(f.revenue, Eur::from_minor(10), Currency::eur())
        .seal(&f.ctx())
        .expect_err("non-leaf account");
    assert!(err.any(|e| matches!(e, ValidationError::NonLeafAccount { index: 0, .. })));
}

#[test]
fn postings_outside_the_account_window_are_rejected() {
    let mut f = Fixture::new();
    let closed = f
        .accounts
        .register(
            Account::new(
                AccountPath::parse("Assets:Old").expect("valid"),
                day(2026, 1, 1),
            )
            .closing_on(day(2026, 2, 1)),
        )
        .expect("registers");
    let err = f
        .draft()
        .debit(closed, Eur::from_minor(10), Currency::eur())
        .credit(f.revenue, Eur::from_minor(10), Currency::eur())
        .seal(&f.ctx())
        .expect_err("account closed");
    assert!(err.any(|e| matches!(e, ValidationError::AccountNotOpen { index: 0, .. })));
}

#[test]
fn sealed_periods_reject_postings() {
    let mut f = Fixture::new();
    let id = PeriodId::new("2026-03").expect("valid");
    f.calendar
        .define(
            Period::new(id.clone(), day(2026, 3, 1), day(2026, 3, 31))
                .expect("valid range"),
        )
        .expect("defines");
    f.calendar
        .transition(&id, PeriodState::Closing)
        .expect("ok");
    f.calendar.transition(&id, PeriodState::Sealed).expect("ok");

    let err = f
        .draft()
        .debit(f.cash, Eur::from_minor(10), Currency::eur())
        .credit(f.revenue, Eur::from_minor(10), Currency::eur())
        .seal(&f.ctx())
        .expect_err("period sealed");
    assert!(err.any(|e| matches!(
        e,
        ValidationError::ClosedPeriod {
            state: PeriodState::Sealed,
            ..
        }
    )));
}

#[test]
fn each_currency_balances_independently() {
    let mut f = Fixture::new();
    let fx = f
        .accounts
        .register_path("Assets:FX", day(2026, 1, 1))
        .expect("registers");

    // EUR balances, USD balances: a legitimate cross-currency booking.
    let entry = f
        .draft()
        .debit(f.cash, Eur::from_minor(1000), Currency::eur())
        .credit(f.revenue, Eur::from_minor(1000), Currency::eur())
        .debit(fx, Eur::from_minor(500), Currency::usd())
        .credit(f.revenue, Eur::from_minor(500), Currency::usd())
        .seal(&f.ctx());
    assert!(entry.is_ok(), "per-currency balance should succeed");
}

#[test]
fn a_currency_that_does_not_balance_is_named() {
    let mut f = Fixture::new();
    let fx = f
        .accounts
        .register_path("Assets:FX", day(2026, 1, 1))
        .expect("registers");
    let err = f
        .draft()
        .debit(f.cash, Eur::from_minor(1000), Currency::eur())
        .credit(f.revenue, Eur::from_minor(1000), Currency::eur())
        .debit(fx, Eur::from_minor(500), Currency::usd())
        .seal(&f.ctx())
        .expect_err("USD is unbalanced");
    assert!(err.any(|e| matches!(
        e,
        ValidationError::Unbalanced { currency, .. } if *currency == Currency::usd()
    )));
}

#[test]
fn single_currency_policy_rejects_others() {
    let mut f = Fixture::new();
    f.policy.currency = CurrencyPolicy::Single(Currency::eur());
    let err = f
        .draft()
        .debit(f.cash, Eur::from_minor(10), Currency::usd())
        .credit(f.revenue, Eur::from_minor(10), Currency::usd())
        .seal(&f.ctx())
        .expect_err("USD not permitted");
    assert!(err.any(|e| matches!(
        e,
        ValidationError::CurrencyNotAllowed { currency } if *currency == Currency::usd()
    )));
}

#[test]
fn dimensions_can_be_required_on_every_posting() {
    let mut f = Fixture::new();
    let activity = Label::new("activity").expect("valid");
    f.policy = f.policy.clone().requiring(activity.clone());

    let err = f
        .draft()
        .debit(f.cash, Eur::from_minor(10), Currency::eur())
        .credit(f.revenue, Eur::from_minor(10), Currency::eur())
        .seal(&f.ctx())
        .expect_err("activity missing");
    assert_eq!(
        err.errors()
            .iter()
            .filter(|e| matches!(e, ValidationError::MissingDimension { .. }))
            .count(),
        2
    );

    let dims = Dimensions::none()
        .with(activity, Label::new("Network").expect("valid"))
        .expect("fits");
    let ok = f
        .draft()
        .post(
            Posting::debit(f.cash, Eur::from_minor(10), Currency::eur())
                .with_dimensions(dims.clone()),
        )
        .post(
            Posting::credit(f.revenue, Eur::from_minor(10), Currency::eur())
                .with_dimensions(dims),
        )
        .seal(&f.ctx());
    assert!(ok.is_ok());
}

#[test]
fn a_posting_carrying_the_wrong_axis_does_not_satisfy_the_policy() {
    let mut f = Fixture::new();
    f.policy = f
        .policy
        .clone()
        .requiring(Label::new("activity").expect("valid"));

    let dims = Dimensions::none()
        .with(
            Label::new("segment").expect("valid"),
            Label::new("Electricity").expect("valid"),
        )
        .expect("fits");
    let err = f
        .draft()
        .post(
            Posting::debit(f.cash, Eur::from_minor(10), Currency::eur())
                .with_dimensions(dims.clone()),
        )
        .post(
            Posting::credit(f.revenue, Eur::from_minor(10), Currency::eur())
                .with_dimensions(dims),
        )
        .seal(&f.ctx())
        .expect_err("wrong axis");
    assert!(err.any(|e| matches!(e, ValidationError::MissingDimension { .. })));
}

#[test]
fn value_date_drift_can_be_bounded() {
    let mut f = Fixture::new();
    f.policy.max_value_date_drift_days = Some(5);
    let err = f
        .draft()
        .with_value_date(day(2026, 4, 15))
        .debit(f.cash, Eur::from_minor(10), Currency::eur())
        .credit(f.revenue, Eur::from_minor(10), Currency::eur())
        .seal(&f.ctx())
        .expect_err("drift too large");
    assert!(err.any(|e| matches!(e, ValidationError::ValueDateDrift { .. })));
}

#[test]
fn content_hash_is_stable_across_identical_entries() {
    let f = Fixture::new();
    let a = f.balanced();
    let b = f.balanced();
    // Different identifiers, same logical transaction.
    assert_ne!(a.id(), b.id());
    assert_eq!(a.content_hash(), b.content_hash());
}

#[test]
fn content_hash_changes_with_any_semantic_field() {
    let f = Fixture::new();
    let base = f.balanced();

    let different_amount = f
        .draft()
        .debit(f.cash, Eur::from_minor(1001), Currency::eur())
        .credit(f.revenue, Eur::from_minor(1001), Currency::eur())
        .seal(&f.ctx())
        .expect("balances");
    assert_ne!(base.content_hash(), different_amount.content_hash());

    let different_description = f
        .draft()
        .with_description(Description::new("something else").expect("valid"))
        .debit(f.cash, Eur::from_minor(1000), Currency::eur())
        .credit(f.revenue, Eur::from_minor(1000), Currency::eur())
        .seal(&f.ctx())
        .expect("balances");
    assert_ne!(base.content_hash(), different_description.content_hash());

    let different_provenance = f
        .draft()
        .with_provenance(Provenance::none().with_actor("auditor").expect("valid"))
        .debit(f.cash, Eur::from_minor(1000), Currency::eur())
        .credit(f.revenue, Eur::from_minor(1000), Currency::eur())
        .seal(&f.ctx())
        .expect("balances");
    assert_ne!(base.content_hash(), different_provenance.content_hash());
}

#[test]
fn swapping_debit_and_credit_changes_the_hash() {
    let f = Fixture::new();
    let a = f.balanced();
    let b = f
        .draft()
        .credit(f.cash, Eur::from_minor(1000), Currency::eur())
        .debit(f.revenue, Eur::from_minor(1000), Currency::eur())
        .seal(&f.ctx())
        .expect("balances");
    assert_ne!(a.content_hash(), b.content_hash());
}

#[test]
fn reversal_flips_every_side_and_keeps_the_reference() {
    let f = Fixture::new();
    let original = f.balanced();
    let reversal = original
        .reverse(
            EntryId::generate(),
            IdempotencyKey::new(b"reversal-1".to_vec()).expect("valid"),
            day(2026, 4, 1),
        )
        .seal(&f.ctx())
        .expect("reversal balances");

    assert_eq!(reversal.reverses(), Some(original.id()));
    assert_eq!(
        reversal.original_booking_date(),
        Some(original.booking_date())
    );
    assert_eq!(reversal.booking_date(), day(2026, 4, 1));

    for (orig, rev) in original.postings().iter().zip(reversal.postings()) {
        assert_eq!(rev.direction, orig.direction.inverse());
        assert_eq!(rev.amount, orig.amount);
        assert_eq!(rev.account, orig.account);
    }
}

#[test]
fn reversal_of_a_sealed_period_books_into_an_open_one() {
    let mut f = Fixture::new();
    let original = f.balanced();

    let march = PeriodId::new("2026-03").expect("valid");
    f.calendar
        .define(
            Period::new(march.clone(), day(2026, 3, 1), day(2026, 3, 31))
                .expect("valid range"),
        )
        .expect("defines");
    f.calendar
        .transition(&march, PeriodState::Closing)
        .expect("ok");
    f.calendar
        .transition(&march, PeriodState::Sealed)
        .expect("ok");

    // Booking the reversal back into March is refused.
    let refused = original
        .reverse(
            EntryId::generate(),
            IdempotencyKey::new(b"r1".to_vec()).expect("valid"),
            day(2026, 3, 20),
        )
        .seal(&f.ctx());
    assert!(refused.is_err());

    // Booking it into April succeeds and retains the original date.
    let accepted = original
        .reverse(
            EntryId::generate(),
            IdempotencyKey::new(b"r2".to_vec()).expect("valid"),
            day(2026, 4, 1),
        )
        .seal(&f.ctx())
        .expect("books into an open period");
    assert_eq!(
        accepted.original_booking_date(),
        Some(day(2026, 3, 15))
    );
}

#[test]
fn a_reversal_nets_the_original_to_zero() {
    let f = Fixture::new();
    let original = f.balanced();
    let reversal = original
        .reverse(
            EntryId::generate(),
            IdempotencyKey::new(b"r".to_vec()).expect("valid"),
            day(2026, 4, 1),
        )
        .seal(&f.ctx())
        .expect("balances");

    let mut tb = TrialBalance::<2>::new();
    for p in original.postings().iter().chain(reversal.postings()) {
        tb.apply(p).expect("no overflow");
    }
    for (_, balance) in tb.iter() {
        assert!(balance.is_balanced(), "every account must net to zero");
    }
}

#[test]
fn a_rehydrated_entry_must_match_its_recorded_hash() {
    let f = Fixture::new();
    let original = f.balanced();
    let hash = original.content_hash();

    // Reconstructing the same bytes is accepted.
    let rebuilt = f
        .draft()
        .debit(f.cash, Eur::from_minor(1000), Currency::eur())
        .credit(f.revenue, Eur::from_minor(1000), Currency::eur())
        .adopt_verified(hash)
        .expect("matches");
    assert_eq!(rebuilt.content_hash(), hash);

    // A row altered underneath the engine is refused, even though the
    // altered entry balances perfectly well on its own.
    let tampered = f
        .draft()
        .debit(f.cash, Eur::from_minor(1001), Currency::eur())
        .credit(f.revenue, Eur::from_minor(1001), Currency::eur())
        .adopt_verified(hash)
        .expect_err("must not be adopted");
    assert_eq!(tampered.expected, hash);
    assert_ne!(tampered.actual, hash);
}

#[test]
fn adoption_does_not_consult_the_current_ledger_state() {
    // An entry stays readable after its account closes: validation is about
    // what may be written next, not about what was written.
    let mut f = Fixture::new();
    let original = f.balanced();
    let hash = original.content_hash();

    f.accounts
        .close(f.cash, day(2026, 1, 31))
        .expect("closes");

    // Sealing now fails …
    assert!(
        f.draft()
            .debit(f.cash, Eur::from_minor(1000), Currency::eur())
            .credit(f.revenue, Eur::from_minor(1000), Currency::eur())
            .seal(&f.ctx())
            .is_err()
    );
    // … but the historical entry still rehydrates.
    assert!(
        f.draft()
            .debit(f.cash, Eur::from_minor(1000), Currency::eur())
            .credit(f.revenue, Eur::from_minor(1000), Currency::eur())
            .adopt_verified(hash)
            .is_ok()
    );
}

#[test]
fn the_posting_count_is_bounded_by_what_a_position_can_address() {
    // A posting is addressed by a `u16` in `PostingRef` and a `SMALLINT` in
    // the reference schema. Beyond `MAX_POSTINGS` those would truncate, and
    // a truncated position is a clearing or a statement line silently
    // pointing at the wrong movement — so validation refuses the entry.
    let f = Fixture::new();
    let mut draft = f.draft();
    for _ in 0..=MAX_POSTINGS {
        draft = draft.debit(f.cash, Eur::from_minor(1), Currency::eur());
    }
    // Balance it, so `TooManyPostings` is the only thing left to report.
    draft = draft.credit(
        f.revenue,
        Eur::from_minor(MAX_POSTINGS as i64 + 1),
        Currency::eur(),
    );

    let err = draft.seal(&f.ctx()).expect_err("too many postings");
    assert!(err.any(|e| matches!(e, ValidationError::TooManyPostings { .. })));
}

#[test]
fn an_entry_at_the_posting_bound_is_accepted() {
    let f = Fixture::new();
    let mut draft = f.draft();
    for _ in 0..MAX_POSTINGS - 1 {
        draft = draft.debit(f.cash, Eur::from_minor(1), Currency::eur());
    }
    draft = draft.credit(
        f.revenue,
        Eur::from_minor(MAX_POSTINGS as i64 - 1),
        Currency::eur(),
    );
    assert_eq!(
        draft.seal(&f.ctx()).expect("at the bound").postings().len(),
        MAX_POSTINGS
    );
}

#[test]
fn field_bounds_are_enforced() {
    assert_eq!(
        IdempotencyKey::new(Vec::new()),
        Err(EntryFieldError::EmptyIdempotencyKey)
    );
    assert_eq!(
        IdempotencyKey::new(vec![0u8; MAX_IDEMPOTENCY_KEY_LEN + 1]),
        Err(EntryFieldError::IdempotencyKeyTooLong)
    );
    assert_eq!(
        Description::new(&"x".repeat(MAX_DESCRIPTION_LEN + 1)),
        Err(EntryFieldError::DescriptionTooLong)
    );
    assert_eq!(
        Description::new("bad\u{7}"),
        Err(EntryFieldError::DescriptionControlCharacter)
    );
    assert!(Description::new("multi\nline").is_ok());
}

#[test]
fn document_reference_is_covered_by_the_hash() {
    let f = Fixture::new();
    let base = f.balanced();
    let with_doc = f
        .draft()
        .with_document(
            DocumentRef::new("INV-2026-0001", tagged(b"doc", b"content"))
                .expect("valid"),
        )
        .debit(f.cash, Eur::from_minor(1000), Currency::eur())
        .credit(f.revenue, Eur::from_minor(1000), Currency::eur())
        .seal(&f.ctx())
        .expect("balances");
    assert_ne!(base.content_hash(), with_doc.content_hash());
}

#[test]
fn pending_postings_are_distinguished_from_settled() {
    let f = Fixture::new();
    let settled = f.balanced();
    let pending = f
        .draft()
        .post(
            Posting::debit(f.cash, Eur::from_minor(1000), Currency::eur())
                .in_layer(Layer::Pending),
        )
        .post(
            Posting::credit(f.revenue, Eur::from_minor(1000), Currency::eur())
                .in_layer(Layer::Pending),
        )
        .seal(&f.ctx())
        .expect("balances");
    assert_ne!(settled.content_hash(), pending.content_hash());
}

// ── edges ───────────────────────────────────────────────────────────────

#[test]
fn violations_come_in_a_fixed_order() {
    let mut f = Fixture::new();
    f.policy = LedgerPolicy::permissive()
        .in_currency(Currency::eur())
        .requiring(Label::new("activity").expect("valid"))
        .with_max_value_date_drift(3);
    let unknown = AccountId::from_index(77);
    let err = f
        .draft()
        .with_value_date(day(2026, 3, 19))
        .debit(unknown, Eur::from_minor(-1), Currency::usd())
        .seal(&f.ctx())
        .expect_err("everything is wrong");
    let kinds: Vec<&str> = err
        .errors()
        .iter()
        .map(|e| match e {
            ValidationError::TooFewPostings { .. } => "few",
            ValidationError::ClosedPeriod { .. } => "period",
            ValidationError::ValueDateDrift { .. } => "drift",
            ValidationError::NegativeAmount { .. } => "negative",
            ValidationError::UnknownAccount { .. } => "unknown",
            ValidationError::CurrencyNotAllowed { .. } => "currency",
            ValidationError::MissingDimension { .. } => "dimension",
            ValidationError::Unbalanced { .. } => "unbalanced",
            _ => "other",
        })
        .collect();
    assert_eq!(
        kinds,
        vec![
            "few",
            "negative",
            "unknown",
            "currency",
            "dimension",
            "unbalanced",
            "drift"
        ]
    );
    assert!(!err.is_empty());
}

#[test]
fn the_value_date_may_drift_up_to_the_bound_in_either_direction() {
    let mut f = Fixture::new();
    f.policy = LedgerPolicy::permissive().with_max_value_date_drift(5);
    for (on, accepted) in [
        (day(2026, 3, 20), true),
        (day(2026, 3, 10), true),
        (day(2026, 3, 21), false),
        (day(2026, 3, 9), false),
    ] {
        let outcome = f
            .draft()
            .with_value_date(on)
            .debit(f.cash, Eur::from_minor(1), Currency::eur())
            .credit(f.revenue, Eur::from_minor(1), Currency::eur())
            .seal(&f.ctx());
        assert_eq!(outcome.is_ok(), accepted);
    }
}

#[test]
fn totals_that_do_not_fit_are_a_violation() {
    let f = Fixture::new();
    let err = f
        .draft()
        .debit(f.cash, Eur::max(), Currency::eur())
        .debit(f.cash, Eur::max(), Currency::eur())
        .credit(f.revenue, Eur::max(), Currency::eur())
        .credit(f.revenue, Eur::max(), Currency::eur())
        .seal(&f.ctx())
        .expect_err("overflows");
    assert!(err.any(|e| matches!(e, ValidationError::Overflow { currency } if *currency == Currency::eur())));
}

#[test]
fn an_imbalance_names_its_amounts() {
    let f = Fixture::new();
    let err = f
        .draft()
        .debit(f.cash, Eur::from_minor(1000), Currency::eur())
        .credit(f.revenue, Eur::from_minor(999), Currency::eur())
        .seal(&f.ctx())
        .expect_err("must not balance");
    assert_eq!(
        err.errors(),
        &[ValidationError::Unbalanced {
            currency: Currency::eur(),
            debits_minor: 1000,
            credits_minor: 999,
            difference_minor: 1,
            scale: 2,
        }]
    );
}

#[test]
fn keys_read_back_from_hex() {
    let key = IdempotencyKey::new(vec![0x00, 0xff, 0x1a]).expect("valid");
    assert_eq!(key.to_hex(), "00ff1a");
    assert_eq!(IdempotencyKey::parse_hex("00FF1a"), Ok(key.clone()));
    assert_eq!(key.as_bytes(), &[0x00, 0xff, 0x1a]);
    for bad in ["0", "zz", "0g", "é1"] {
        assert_eq!(
            IdempotencyKey::parse_hex(bad),
            Err(EntryFieldError::MalformedIdempotencyKey),
            "{bad}"
        );
    }
    assert_eq!(
        IdempotencyKey::parse_hex(""),
        Err(EntryFieldError::EmptyIdempotencyKey)
    );
    assert_eq!(
        IdempotencyKey::parse_hex(&"00".repeat(MAX_IDEMPOTENCY_KEY_LEN + 1)),
        Err(EntryFieldError::IdempotencyKeyTooLong)
    );
}

#[test]
fn an_entry_tells_what_was_put_in() {
    let f = Fixture::new();
    let provenance = Provenance::none()
        .with_actor("anna")
        .expect("valid")
        .with_source("shop")
        .expect("valid")
        .with_correlation("order-7")
        .expect("valid");
    let document = DocumentRef::unverified("INV-1").expect("valid");
    assert!(!document.is_verifiable());
    let entry = f
        .draft()
        .with_kind(Label::new("invoice").expect("valid"))
        .with_description(Description::new("a sale").expect("valid"))
        .with_provenance(provenance.clone())
        .with_document(document.clone())
        .with_value_date(day(2026, 3, 16))
        .debit(f.cash, Eur::from_minor(5), Currency::eur())
        .credit(f.revenue, Eur::from_minor(5), Currency::eur())
        .seal(&f.ctx())
        .expect("balances");
    assert_eq!(entry.kind().map(Label::as_str), Some("invoice"));
    assert_eq!(entry.description().as_str(), "a sale");
    assert_eq!(entry.provenance(), &provenance);
    assert_eq!(entry.document(), Some(&document));
    assert_eq!(entry.booking_date(), day(2026, 3, 15));
    assert_eq!(entry.value_date(), day(2026, 3, 16));
    assert_eq!(entry.idempotency_key().as_bytes(), b"key-1");
    assert_eq!(entry.reverses(), None);
    assert_eq!(entry.original_booking_date(), None);
}

#[test]
fn reversing_twice_gives_the_postings_back() {
    let f = Fixture::new();
    let original = f.balanced();
    let once = original
        .reverse(
            EntryId::from_uuid(1),
            IdempotencyKey::new(b"r".to_vec()).expect("valid"),
            day(2026, 4, 1),
        )
        .seal(&f.ctx())
        .expect("balances");
    let twice = once.reverse(
        EntryId::from_uuid(2),
        IdempotencyKey::new(b"rr".to_vec()).expect("valid"),
        day(2026, 4, 2),
    );
    assert_eq!(twice.postings(), original.postings());
}

#[test]
fn reversal_fields_are_read_back_as_they_were() {
    let f = Fixture::new();
    let draft = f.draft().with_reversal(Some(EntryId::from_uuid(9)), None);
    assert_eq!(draft.reverses(), Some(EntryId::from_uuid(9)));
    assert_eq!(draft.original_booking_date(), None);
    let draft = draft.reversing(EntryId::from_uuid(8), day(2026, 3, 1));
    assert_eq!(draft.reverses(), Some(EntryId::from_uuid(8)));
    assert_eq!(draft.original_booking_date(), Some(day(2026, 3, 1)));
    let draft = draft.with_reversal(None, None);
    assert_eq!(draft.reverses(), None);
}
