//! The journal: recording, proofs, corrections, balances, periods and batches.

use doubleentry::{
    trial_balance_root, AccountId, Amount, AssertionOutcome, BalanceAssertion, BalanceKey,
    BalanceLimit, Balanced, CheckpointError, Clearing, ClearingError, ClearingId, Currency, Date,
    Description, Digest, Direction, Draft, Entry, EntryId, IdempotencyKey, Journal, JournalError,
    Layer, LedgerId, LedgerPolicy, LogIndex, MoneyError, Period, PeriodCalendar, PeriodError,
    PeriodId, PeriodState, Posting, PostingRef, Recorded, SealedBalanceError, SealedBalanceOutcome,
    TrialBalanceCommitment, ValidationError,
};

fn day(year: i32, month: u8, day: u8) -> Date {
    Date::from_calendar_date(year, month, day).expect("a date of the calendar")
}

type Eur = Amount<2>;

/// A journal with two accounts, ready to post to.
struct Books {
    journal: Journal<2>,
    cash: AccountId,
    revenue: AccountId,
}

impl Books {
    fn new() -> Self {
        let mut journal = Journal::<2>::new(LedgerId::new("test-ledger").expect("valid"));
        let cash = journal
            .accounts_mut()
            .register_path("Assets:Cash", day(2026, 1, 1))
            .expect("registers");
        let revenue = journal
            .accounts_mut()
            .register_path("Income:Sales", day(2026, 1, 1))
            .expect("registers");
        Self {
            journal,
            cash,
            revenue,
        }
    }

    fn draft(&self, key: &[u8], minor: i64) -> Entry<Draft, 2> {
        self.draft_on(key, minor, day(2026, 3, 15))
    }

    fn draft_on(&self, key: &[u8], minor: i64, on: Date) -> Entry<Draft, 2> {
        Entry::new(
            EntryId::generate(),
            IdempotencyKey::new(key.to_vec()).expect("valid"),
            on,
        )
        .debit(self.cash, Eur::from_minor(minor), Currency::eur())
        .credit(self.revenue, Eur::from_minor(minor), Currency::eur())
    }

    fn sealed(&self, key: &[u8], minor: i64) -> Entry<Balanced, 2> {
        self.draft(key, minor)
            .seal(&self.journal.context())
            .expect("balances")
    }

    fn record(&mut self, key: &[u8], minor: i64) -> Recorded {
        let draft = self.draft(key, minor);
        self.journal.record(draft).expect("records")
    }

    fn cash_key(&self) -> BalanceKey {
        BalanceKey {
            account: self.cash,
            currency: Currency::eur(),
            layer: Layer::Settled,
        }
    }

    fn march(&mut self) -> PeriodId {
        let id = PeriodId::new("2026-03").expect("valid");
        self.journal
            .define_period(
                Period::new(id.clone(), day(2026, 3, 1), day(2026, 3, 31))
                    .expect("valid range"),
            )
            .expect("defines");
        id
    }
}

// ── recording ───────────────────────────────────────────────────────────

#[test]
fn records_entries_in_order() {
    let mut b = Books::new();
    let first = b.record(b"a", 100);
    let second = b.record(b"b", 200);
    assert_eq!(first.index.expect("sequenced inline").get(), 0);
    assert_eq!(second.index.expect("sequenced inline").get(), 1);
    assert_eq!(b.journal.len(), 2);
    assert!(first.is_new && second.is_new);
}

#[test]
fn a_draft_is_validated_against_the_journals_own_accounts() {
    let mut b = Books::new();
    let missing = AccountId::from_index(999);
    let bad = Entry::<Draft, 2>::new(
        EntryId::generate(),
        IdempotencyKey::new(b"missing".to_vec()).expect("valid"),
        day(2026, 3, 15),
    )
    .debit(missing, Eur::from_minor(10), Currency::eur())
    .credit(b.revenue, Eur::from_minor(10), Currency::eur());

    assert!(matches!(
        b.journal.record(bad),
        Err(JournalError::Invalid(_))
    ));
    assert!(b.journal.is_empty());
}

#[test]
fn an_identical_resubmission_is_a_no_op() {
    let mut b = Books::new();
    let first = b.record(b"same-key", 100);

    // A different entry identifier, but the same logical transaction.
    let replay = b.record(b"same-key", 100);
    assert!(!replay.is_new);
    assert_eq!(replay.id, first.id);
    assert_eq!(replay.index, first.index);
    assert_eq!(b.journal.len(), 1, "a replay must not append");
}

#[test]
fn the_same_key_with_different_content_is_a_conflict() {
    let mut b = Books::new();
    b.record(b"key", 100);
    let draft = b.draft(b"key", 999);
    let err = b.journal.record(draft).expect_err("must not overwrite");
    assert!(matches!(err, JournalError::IdempotencyConflict { .. }));
    assert_eq!(b.journal.len(), 1, "a conflict must not append");
}

#[test]
fn duplicate_entry_ids_are_refused() {
    let mut b = Books::new();
    let entry = b.sealed(b"k1", 100);
    let id = entry.id();
    b.journal.record_validated(entry).expect("records");

    let clash = Entry::<Draft, 2>::new(
        id,
        IdempotencyKey::new(b"k2".to_vec()).expect("valid"),
        day(2026, 3, 15),
    )
    .debit(b.cash, Eur::from_minor(1), Currency::eur())
    .credit(b.revenue, Eur::from_minor(1), Currency::eur());

    assert!(matches!(
        b.journal.record(clash),
        Err(JournalError::DuplicateId { .. })
    ));
}

#[test]
fn a_policy_applies_to_what_is_recorded_next() {
    let mut b = Books::new();
    b.record(b"before", 100);

    b.journal = std::mem::replace(
        &mut b.journal,
        Journal::<2>::new(LedgerId::new("scratch").expect("valid")),
    )
    .with_policy(LedgerPolicy::permissive().in_currency(Currency::usd()));

    // What was already recorded stays readable …
    assert_eq!(b.journal.len(), 1);
    // … and the new rule applies to the next booking.
    let draft = b.draft(b"after", 100);
    assert!(matches!(
        b.journal.record(draft),
        Err(JournalError::Invalid(_))
    ));
}

// ── proofs ──────────────────────────────────────────────────────────────

#[test]
fn every_recorded_entry_can_be_proven_included() {
    let mut b = Books::new();
    for i in 0..12i64 {
        b.record(format!("k{i}").as_bytes(), 100 + i);
    }
    let head = b.journal.head();
    for (i, entry) in b.journal.entries().iter().enumerate() {
        let proof = b
            .journal
            .prove_inclusion(LogIndex::new(i as u64))
            .expect("in range");
        assert!(
            proof.verify(&entry.content_hash(), &head),
            "entry {i} must be provably included"
        );
        assert_eq!(proof.leaf_index, i as u64);
    }
}

#[test]
fn growth_is_provably_append_only() {
    let mut b = Books::new();
    for i in 0..5i64 {
        b.record(format!("a{i}").as_bytes(), 10 + i);
    }
    let early = b.journal.head();
    for i in 0..7i64 {
        b.record(format!("b{i}").as_bytes(), 20 + i);
    }
    let later = b.journal.head();

    let proof = b.journal.prove_consistency(early.size).expect("in range");
    assert!(proof.verify(&early, &later));
}

#[test]
fn a_historical_head_matches_the_log_as_it_stood() {
    let mut b = Books::new();
    b.record(b"a", 100);
    let snapshot = b.journal.head();
    b.record(b"b", 200);

    let reconstructed = b.journal.head_at(snapshot.size).expect("in range");
    assert_eq!(reconstructed, snapshot);
    assert_ne!(b.journal.head(), snapshot);
}

// ── corrections ─────────────────────────────────────────────────────────

#[test]
fn a_reversal_requires_a_known_original() {
    let b = Books::new();
    let orphan = b.sealed(b"orphan", 100);
    let reversal = orphan
        .reverse(
            EntryId::generate(),
            IdempotencyKey::new(b"rev".to_vec()).expect("valid"),
            day(2026, 4, 1),
        )
        .seal(&b.journal.context())
        .expect("balances");
    let mut journal = b.journal;
    assert!(matches!(
        journal.record_validated(reversal),
        Err(JournalError::UnknownOriginal { .. })
    ));
}

#[test]
fn an_entry_can_only_be_reversed_once() {
    let mut b = Books::new();
    let original = b.sealed(b"orig", 100);
    b.journal
        .record_validated(original.clone())
        .expect("records");

    for (key, on) in [
        (b"rev1".as_slice(), day(2026, 4, 1)),
        (b"rev2".as_slice(), day(2026, 4, 2)),
    ] {
        let reversal = original.reverse(
            EntryId::generate(),
            IdempotencyKey::new(key.to_vec()).expect("valid"),
            on,
        );
        let outcome = b.journal.record(reversal);
        if key == b"rev1" {
            outcome.expect("the first reversal is accepted");
        } else {
            assert!(matches!(outcome, Err(JournalError::AlreadyReversed { .. })));
        }
    }
}

#[test]
fn a_reversal_cannot_itself_be_reversed() {
    let mut b = Books::new();
    let original = b.sealed(b"orig", 100);
    b.journal
        .record_validated(original.clone())
        .expect("records");

    let reversal = original
        .reverse(
            EntryId::generate(),
            IdempotencyKey::new(b"rev".to_vec()).expect("valid"),
            day(2026, 4, 1),
        )
        .seal(&b.journal.context())
        .expect("balances");
    let reversal_id = reversal.id();
    b.journal
        .record_validated(reversal.clone())
        .expect("records");

    let double = reversal.reverse(
        EntryId::generate(),
        IdempotencyKey::new(b"rev-rev".to_vec()).expect("valid"),
        day(2026, 4, 2),
    );
    assert!(matches!(
        b.journal.record(double),
        Err(JournalError::ReversalOfReversal { id }) if id == reversal_id
    ));
}

#[test]
fn an_entry_claiming_a_reversal_it_does_not_perform_is_refused() {
    let mut b = Books::new();
    let original = b.sealed(b"orig", 1000);
    let original_id = original.id();
    b.journal.record_validated(original).expect("records");

    // Names the original, but the postings do not invert it.
    let forged = Entry::<Draft, 2>::new(
        EntryId::generate(),
        IdempotencyKey::new(b"forged".to_vec()).expect("valid"),
        day(2026, 4, 1),
    )
    .reversing(original_id, day(2026, 3, 15))
    .debit(b.revenue, Eur::from_minor(1), Currency::eur())
    .credit(b.cash, Eur::from_minor(1), Currency::eur());

    assert!(matches!(
        b.journal.record(forged),
        Err(JournalError::NotAnInversion { .. })
    ));
    assert_eq!(b.journal.reversal_of(original_id), None, "stays unreversed");
    assert_eq!(b.journal.len(), 1);
}

#[test]
fn a_reversal_nets_the_original_out() {
    let mut b = Books::new();
    let original = b.sealed(b"orig", 4200);
    b.journal
        .record_validated(original.clone())
        .expect("records");

    let key = b.cash_key();
    assert_eq!(
        b.journal.balance(&key, None).expect("no overflow").debits,
        Eur::from_minor(4200)
    );

    let reversal = original.reverse(
        EntryId::generate(),
        IdempotencyKey::new(b"rev".to_vec()).expect("valid"),
        day(2026, 4, 1),
    );
    b.journal.record(reversal).expect("records");

    // Net is zero, but both gross totals survive: the reversal is visible.
    let after = b.journal.balance(&key, None).expect("no overflow");
    assert_eq!(after.signed_net().expect("ok"), Eur::zero());
    assert_eq!(after.debits, Eur::from_minor(4200));
    assert_eq!(after.credits, Eur::from_minor(4200));
}

#[test]
fn a_reversal_of_a_sealed_period_books_into_an_open_one() {
    let mut b = Books::new();
    let original = b.sealed(b"orig", 100);
    b.journal
        .record_validated(original.clone())
        .expect("records");

    let march = b.march();
    b.journal
        .transition_period(&march, PeriodState::Closing)
        .expect("ok");
    b.journal.seal_period(&march).expect("seals");

    // Back into March: refused, because March no longer accepts postings.
    let refused = original.reverse(
        EntryId::generate(),
        IdempotencyKey::new(b"r1".to_vec()).expect("valid"),
        day(2026, 3, 20),
    );
    assert!(matches!(
        b.journal.record(refused),
        Err(JournalError::Invalid(_))
    ));

    // Into April: accepted, and it still says which period it belongs to.
    let accepted = original.reverse(
        EntryId::generate(),
        IdempotencyKey::new(b"r2".to_vec()).expect("valid"),
        day(2026, 4, 1),
    );
    let recorded = b.journal.record(accepted).expect("books into April");
    let stored = b.journal.get(recorded.id).expect("recorded");
    assert_eq!(stored.original_booking_date(), Some(day(2026, 3, 15)));
}

// ── balances ────────────────────────────────────────────────────────────

#[test]
fn the_journal_always_balances() {
    let mut b = Books::new();
    for i in 0..6i64 {
        b.record(format!("k{i}").as_bytes(), 10 + i);
    }
    assert!(b.journal.verify_balanced().expect("no overflow"));
    assert!(b.journal.verify_balances().expect("no overflow"));
    assert!(b.journal.verify_log());
}

#[test]
fn maintained_balances_match_a_full_recomputation_at_every_size() {
    // The incremental trial balance is derived state and has to be checked
    // the same way the Merkle subtree stack is.
    let mut b = Books::new();
    for i in 0..40i64 {
        b.record(format!("k{i}").as_bytes(), 1 + i);
        assert!(
            b.journal.verify_balances().expect("no overflow"),
            "diverged after {i} entries"
        );
    }
}

#[test]
fn a_prefix_fold_reconstructs_an_earlier_state() {
    let mut b = Books::new();
    b.record(b"a", 100);
    b.record(b"b", 200);
    b.record(b"c", 300);

    let key = b.cash_key();
    // The prefix is a *count* of entries, so zero is the empty ledger.
    for (size, expected) in [(0u64, 0i64), (1, 100), (2, 300), (3, 600)] {
        assert_eq!(
            b.journal.balance(&key, Some(size)).expect("ok").debits,
            Eur::from_minor(expected),
            "balance over the first {size} entries"
        );
    }
    assert_eq!(
        b.journal.balance(&key, None).expect("ok").debits,
        Eur::from_minor(600)
    );

    // A size past the end is the whole log rather than an error.
    assert_eq!(
        b.journal.balance(&key, Some(99)).expect("ok").debits,
        Eur::from_minor(600)
    );

    // And the whole trial balance agrees with the per-key answer.
    let tb = b.journal.trial_balance(Some(2)).expect("ok");
    assert_eq!(tb.get_or_zero(&key).debits, Eur::from_minor(300));
    assert!(b.journal.trial_balance(Some(0)).expect("ok").is_empty());
}

#[test]
fn a_rejected_entry_leaves_the_balances_untouched() {
    let mut b = Books::new();
    b.record(b"a", 100);
    let before = b.journal.trial_balance(None).expect("ok");

    let draft = b.draft(b"a", 999);
    assert!(b.journal.record(draft).is_err());
    assert_eq!(before, b.journal.trial_balance(None).expect("ok"));
    assert!(b.journal.verify_balances().expect("ok"));
}

// ── balance limits ──────────────────────────────────────────────────────

#[test]
fn an_account_can_be_forbidden_from_going_negative() {
    let mut b = Books::new();
    b.journal
        .accounts_mut()
        .set_limit(b.cash, BalanceLimit::NoCreditBalance)
        .expect("registered");

    // Funding it is fine.
    b.record(b"funding", 1_000);

    // Drawing more than it holds is not.
    let overdraw = Entry::<Draft, 2>::new(
        EntryId::generate(),
        IdempotencyKey::new(b"overdraw".to_vec()).expect("valid"),
        day(2026, 3, 20),
    )
    .credit(b.cash, Eur::from_minor(1_001), Currency::eur())
    .debit(b.revenue, Eur::from_minor(1_001), Currency::eur());

    let err = b.journal.record(overdraw).expect_err("would overdraw");
    assert!(matches!(
        err,
        JournalError::LimitBreached {
            limit: BalanceLimit::NoCreditBalance,
            net_minor: -1,
            ..
        }
    ));

    // Refused whole: nothing about the journal moved.
    assert_eq!(b.journal.len(), 1);
    assert_eq!(
        b.journal.balance(&b.cash_key(), None).expect("ok").debits,
        Eur::from_minor(1_000)
    );
    assert!(b.journal.verify_balances().expect("ok"));
    assert!(b.journal.verify_log());
}

#[test]
fn a_limit_permits_the_entry_that_lands_exactly_on_zero() {
    let mut b = Books::new();
    b.journal
        .accounts_mut()
        .set_limit(b.cash, BalanceLimit::NoCreditBalance)
        .expect("registered");
    b.record(b"funding", 1_000);

    let drain = Entry::<Draft, 2>::new(
        EntryId::generate(),
        IdempotencyKey::new(b"drain".to_vec()).expect("valid"),
        day(2026, 3, 20),
    )
    .credit(b.cash, Eur::from_minor(1_000), Currency::eur())
    .debit(b.revenue, Eur::from_minor(1_000), Currency::eur());
    b.journal.record(drain).expect("zero is on the right side");
}

#[test]
fn a_limit_is_judged_on_the_whole_entry_not_posting_by_posting() {
    // An entry that dips the account below its limit and back within one
    // booking is one movement. Judging it posting by posting would make the
    // answer depend on the order the caller listed them in.
    let mut b = Books::new();
    b.journal
        .accounts_mut()
        .set_limit(b.cash, BalanceLimit::NoCreditBalance)
        .expect("registered");

    let round_trip = Entry::<Draft, 2>::new(
        EntryId::generate(),
        IdempotencyKey::new(b"round-trip".to_vec()).expect("valid"),
        day(2026, 3, 20),
    )
    .credit(b.cash, Eur::from_minor(500), Currency::eur())
    .debit(b.revenue, Eur::from_minor(500), Currency::eur())
    .debit(b.cash, Eur::from_minor(500), Currency::eur())
    .credit(b.revenue, Eur::from_minor(500), Currency::eur());
    b.journal.record(round_trip).expect("nets to zero");
}

#[test]
fn a_limit_binds_each_currency_and_layer_on_its_own() {
    let mut b = Books::new();
    b.journal
        .accounts_mut()
        .set_limit(b.cash, BalanceLimit::NoCreditBalance)
        .expect("registered");
    b.record(b"eur-funding", 1_000);

    // A different currency is a different balance and starts at zero.
    let usd = Entry::<Draft, 2>::new(
        EntryId::generate(),
        IdempotencyKey::new(b"usd".to_vec()).expect("valid"),
        day(2026, 3, 20),
    )
    .credit(b.cash, Eur::from_minor(1), Currency::usd())
    .debit(b.revenue, Eur::from_minor(1), Currency::usd());
    assert!(
        matches!(
            b.journal.record(usd),
            Err(JournalError::LimitBreached { currency, .. }) if currency == Currency::usd()
        ),
        "the EUR funding must not cover a USD draw"
    );

    // As is a different layer.
    let reserved = Entry::<Draft, 2>::new(
        EntryId::generate(),
        IdempotencyKey::new(b"reserved".to_vec()).expect("valid"),
        day(2026, 3, 20),
    )
    .post(Posting::credit(b.cash, Eur::from_minor(1), Currency::eur()).in_layer(Layer::Pending))
    .post(
        Posting::debit(b.revenue, Eur::from_minor(1), Currency::eur()).in_layer(Layer::Pending),
    );
    assert!(matches!(
        b.journal.record(reserved),
        Err(JournalError::LimitBreached {
            layer: Layer::Pending,
            ..
        })
    ));
}

#[test]
fn a_liability_can_be_forbidden_from_going_into_debit() {
    let mut b = Books::new();
    b.journal
        .accounts_mut()
        .set_limit(b.revenue, BalanceLimit::NoDebitBalance)
        .expect("registered");
    // The fixture credits revenue, so this stays within the limit.
    b.record(b"sale", 1_000);

    let clawback = Entry::<Draft, 2>::new(
        EntryId::generate(),
        IdempotencyKey::new(b"too-much".to_vec()).expect("valid"),
        day(2026, 3, 20),
    )
    .debit(b.revenue, Eur::from_minor(1_001), Currency::eur())
    .credit(b.cash, Eur::from_minor(1_001), Currency::eur());
    assert!(matches!(
        b.journal.record(clawback),
        Err(JournalError::LimitBreached {
            limit: BalanceLimit::NoDebitBalance,
            net_minor: 1,
            ..
        })
    ));
}

#[test]
fn tightening_a_limit_does_not_invalidate_what_is_already_booked() {
    // Master data governs the next booking, never the last one. An account
    // already past a newly imposed limit keeps its balance and simply
    // refuses to move further the wrong way.
    let mut b = Books::new();
    let overdrawn = Entry::<Draft, 2>::new(
        EntryId::generate(),
        IdempotencyKey::new(b"draw".to_vec()).expect("valid"),
        day(2026, 3, 15),
    )
    .credit(b.cash, Eur::from_minor(500), Currency::eur())
    .debit(b.revenue, Eur::from_minor(500), Currency::eur());
    b.journal.record(overdrawn).expect("records");

    b.journal
        .accounts_mut()
        .set_limit(b.cash, BalanceLimit::NoCreditBalance)
        .expect("registered");

    // What is recorded stays recorded and stays readable.
    assert_eq!(b.journal.len(), 1);
    assert_eq!(
        b.journal
            .balance(&b.cash_key(), None)
            .expect("ok")
            .signed_net()
            .expect("ok"),
        Eur::from_minor(-500)
    );

    // Moving further the wrong way is refused …
    let worse = Entry::<Draft, 2>::new(
        EntryId::generate(),
        IdempotencyKey::new(b"worse".to_vec()).expect("valid"),
        day(2026, 3, 16),
    )
    .credit(b.cash, Eur::from_minor(1), Currency::eur())
    .debit(b.revenue, Eur::from_minor(1), Currency::eur());
    assert!(matches!(
        b.journal.record(worse),
        Err(JournalError::LimitBreached { .. })
    ));

    // … while repairing it is not.
    b.record(b"repair", 500);
}

#[test]
fn a_limit_can_refuse_a_reversal() {
    // Worth pinning, because it is the one place a limit collides with the
    // correction rules: reversing a funding entry withdraws money the
    // account may since have committed. A limit constrains the *resulting
    // balance*, so it cannot make an exception for a correction — and
    // silently letting one through would be a limit that does not hold.
    //
    // The way out is the ordinary one: reverse whatever consumed the
    // funding first, or lift the limit deliberately.
    let mut b = Books::new();
    let funding = b.sealed(b"funding", 1_000);
    b.journal
        .record_validated(funding.clone())
        .expect("records");

    let spend = Entry::<Draft, 2>::new(
        EntryId::generate(),
        IdempotencyKey::new(b"spend".to_vec()).expect("valid"),
        day(2026, 3, 16),
    )
    .credit(b.cash, Eur::from_minor(1_000), Currency::eur())
    .debit(b.revenue, Eur::from_minor(1_000), Currency::eur());
    b.journal.record(spend).expect("records");

    b.journal
        .accounts_mut()
        .set_limit(b.cash, BalanceLimit::NoCreditBalance)
        .expect("registered");

    let undo = funding.reverse(
        EntryId::generate(),
        IdempotencyKey::new(b"undo".to_vec()).expect("valid"),
        day(2026, 3, 17),
    );
    assert!(matches!(
        b.journal.record(undo),
        Err(JournalError::LimitBreached { .. })
    ));
    assert_eq!(
        b.journal.reversal_of(funding.id()),
        None,
        "a refused reversal must not mark the original as corrected"
    );
}

#[test]
fn a_batch_that_breaches_a_limit_lands_in_full_or_not_at_all() {
    let mut b = Books::new();
    b.journal
        .accounts_mut()
        .set_limit(b.cash, BalanceLimit::NoCreditBalance)
        .expect("registered");
    let before = b.journal.head();

    let fund = b.sealed(b"fund", 1_000);
    let draw = Entry::<Draft, 2>::new(
        EntryId::generate(),
        IdempotencyKey::new(b"draw".to_vec()).expect("valid"),
        day(2026, 3, 15),
    )
    .credit(b.cash, Eur::from_minor(1_500), Currency::eur())
    .debit(b.revenue, Eur::from_minor(1_500), Currency::eur())
    .seal(&b.journal.context())
    .expect("balances");

    assert!(matches!(
        b.journal.record_batch(vec![fund, draw]),
        Err(JournalError::LimitBreached { .. })
    ));
    assert!(b.journal.is_empty(), "the funding entry must unwind too");
    assert_eq!(b.journal.head(), before);
    assert!(b.journal.verify_balances().expect("ok"));
    assert!(b.journal.verify_log());
}

#[test]
fn a_statement_shows_movements_and_the_running_balance() {
    let mut b = Books::new();
    b.record(b"a", 100);
    b.record(b"b", 250);

    let lines = b.journal.statement(&b.cash_key()).expect("no overflow");
    assert_eq!(lines.len(), 2);

    let first = lines.first().expect("present");
    assert_eq!(first.amount, Eur::from_minor(100));
    assert_eq!(first.direction, Direction::Debit);
    assert_eq!(first.running.debits, Eur::from_minor(100));

    let second = lines.get(1).expect("present");
    assert_eq!(second.running.debits, Eur::from_minor(350));
    assert_eq!(second.booking_date, day(2026, 3, 15));
}

#[test]
fn a_statement_ignores_other_accounts_and_layers() {
    let mut b = Books::new();
    b.record(b"a", 100);

    let pending = Entry::<Draft, 2>::new(
        EntryId::generate(),
        IdempotencyKey::new(b"p".to_vec()).expect("valid"),
        day(2026, 3, 16),
    )
    .post(Posting::debit(b.cash, Eur::from_minor(500), Currency::eur()).in_layer(Layer::Pending))
    .post(
        Posting::credit(b.revenue, Eur::from_minor(500), Currency::eur())
            .in_layer(Layer::Pending),
    );
    b.journal.record(pending).expect("records");

    let settled = b.cash_key();
    assert_eq!(b.journal.statement(&settled).expect("ok").len(), 1);

    let reserved = BalanceKey {
        layer: Layer::Pending,
        ..settled
    };
    assert_eq!(b.journal.statement(&reserved).expect("ok").len(), 1);
    assert_eq!(
        b.journal.balance(&reserved, None).expect("ok").debits,
        Eur::from_minor(500)
    );
}

#[test]
fn description_does_not_affect_ordering_or_balance() {
    let mut b = Books::new();
    let entry = b
        .draft(b"k", 500)
        .with_description(Description::new("annotated").expect("valid"));
    b.journal.record(entry).expect("records");
    assert!(b.journal.verify_balanced().expect("ok"));
}

// ── clearing ────────────────────────────────────────────────────────────

#[test]
fn open_items_track_invoices_against_payments() {
    let mut b = Books::new();

    // An invoice raises a receivable; a payment settles part of it.
    let invoice = b.record(b"invoice", 1000);

    let payment = Entry::<Draft, 2>::new(
        EntryId::generate(),
        IdempotencyKey::new(b"payment".to_vec()).expect("valid"),
        day(2026, 3, 20),
    )
    .credit(b.cash, Eur::from_minor(400), Currency::eur())
    .debit(b.revenue, Eur::from_minor(400), Currency::eur());
    let payment = b.journal.record(payment).expect("records");

    let key = b.cash_key();

    // Before clearing, both postings are open.
    assert_eq!(b.journal.open_items(&key).expect("ok").len(), 2);

    b.journal
        .clear(
            Clearing::new(ClearingId::generate(), key, day(2026, 3, 20))
                .apply(PostingRef::new(invoice.id, 0), Eur::from_minor(400))
                .apply(PostingRef::new(payment.id, 0), Eur::from_minor(400)),
        )
        .expect("clears");

    // The payment is fully applied; the invoice keeps its remainder open.
    let open = b.journal.open_items(&key).expect("ok");
    assert_eq!(open.len(), 1);
    assert_eq!(
        open.first().expect("present").residual,
        Eur::from_minor(600)
    );
    assert_eq!(b.journal.clearings().len(), 1);
}

#[test]
fn clearing_does_not_change_any_balance() {
    let mut b = Books::new();
    let invoice = b.record(b"invoice", 1000);
    let payment = Entry::<Draft, 2>::new(
        EntryId::generate(),
        IdempotencyKey::new(b"payment".to_vec()).expect("valid"),
        day(2026, 3, 20),
    )
    .credit(b.cash, Eur::from_minor(1000), Currency::eur())
    .debit(b.revenue, Eur::from_minor(1000), Currency::eur());
    let payment = b.journal.record(payment).expect("records");

    let before = b.journal.trial_balance(None).expect("ok");
    b.journal
        .clear(
            Clearing::new(ClearingId::generate(), b.cash_key(), day(2026, 3, 20))
                .apply(PostingRef::new(invoice.id, 0), Eur::from_minor(1000))
                .apply(PostingRef::new(payment.id, 0), Eur::from_minor(1000)),
        )
        .expect("clears");

    // Clearing is an assignment, not a movement.
    assert_eq!(before, b.journal.trial_balance(None).expect("ok"));
    assert!(b.journal.verify_log());
}

#[test]
fn a_clearing_cannot_cross_layers() {
    let mut b = Books::new();
    let settled = b.record(b"settled", 500);
    let reserved = Entry::<Draft, 2>::new(
        EntryId::generate(),
        IdempotencyKey::new(b"reserved".to_vec()).expect("valid"),
        day(2026, 3, 16),
    )
    .post(Posting::credit(b.cash, Eur::from_minor(500), Currency::eur()).in_layer(Layer::Pending))
    .post(
        Posting::debit(b.revenue, Eur::from_minor(500), Currency::eur()).in_layer(Layer::Pending),
    );
    let reserved = b.journal.record(reserved).expect("records");

    let attempt = Clearing::new(ClearingId::generate(), b.cash_key(), day(2026, 3, 20))
        .apply(PostingRef::new(settled.id, 0), Eur::from_minor(500))
        .apply(PostingRef::new(reserved.id, 0), Eur::from_minor(500));
    assert!(matches!(
        b.journal.clear(attempt),
        Err(JournalError::Clearing(ClearingError::WrongLayer { .. }))
    ));
}

// ── periods and seals ───────────────────────────────────────────────────

#[test]
fn sealing_requires_a_closing_period() {
    let mut b = Books::new();
    let id = b.march();
    b.record(b"a", 100);

    // Open is not enough: postings must be stopped before verification runs.
    assert!(matches!(
        b.journal.seal_period(&id),
        Err(JournalError::Period(PeriodError::NotClosing {
            state: PeriodState::Open,
            ..
        }))
    ));

    b.journal
        .transition_period(&id, PeriodState::Closing)
        .expect("ok");
    let seal = b.journal.seal_period(&id).expect("seals");
    assert!(seal.is_self_consistent());
    assert_eq!(seal.entry_count, 1);
    assert_eq!(
        b.journal.calendar().state_on(day(2026, 3, 15)),
        PeriodState::Sealed
    );
}

#[test]
fn a_sealed_closing_balance_cannot_be_restated_afterwards() {
    // A seal's closing balance is *cumulative* through the period's last
    // day. That claim is only worth anything if nothing can be booked at or
    // before that day afterwards.
    let mut b = Books::new();
    let feb = PeriodId::new("2026-02").expect("valid");
    b.journal
        .define_period(
            Period::new(feb.clone(), day(2026, 2, 1), day(2026, 2, 28))
                .expect("valid range"),
        )
        .expect("defines");
    let march = b.march();
    b.record(b"m1", 100);

    // 1. March cannot be sealed while February is still open, because a
    //    later February booking would restate March's closing balance.
    b.journal
        .transition_period(&march, PeriodState::Closing)
        .expect("ok");
    assert!(matches!(
        b.journal.seal_period(&march),
        Err(JournalError::Period(PeriodError::UnsealedPredecessor {
            ref predecessor,
            ..
        })) if *predecessor == feb
    ));

    // Seal them in order instead. March is already closing.
    b.journal
        .transition_period(&feb, PeriodState::Closing)
        .expect("ok");
    b.journal.seal_period(&feb).expect("February seals first");
    b.journal.seal_period(&march).expect("then March");
    let sealed = b
        .journal
        .seals()
        .get(&march)
        .expect("March is sealed")
        .clone();

    // 2. Nothing may be booked at or before the watermark any more — not
    //    into February, and not into a gap the calendar never defined.
    assert_eq!(
        b.journal.calendar().sealed_through(),
        Some(day(2026, 3, 31))
    );
    for (key, on) in [
        (b"f1".as_slice(), day(2026, 2, 10)),
        (b"gap".as_slice(), day(2025, 11, 30)),
        (b"last".as_slice(), day(2026, 3, 31)),
    ] {
        let draft = b.draft_on(key, 500, on);
        let err = b
            .journal
            .record(draft)
            .expect_err("the books are sealed through 2026-03-31");
        assert!(matches!(err, JournalError::Invalid(ref e)
        if e.any(|v| matches!(v, ValidationError::ClosedPeriod {
            state: PeriodState::Sealed, ..
        }))));
    }

    // So the sealed closing balance still describes the books exactly.
    let recomputed = b
        .journal
        .trial_balance_through_date(day(2026, 3, 31))
        .expect("no overflow");
    assert_eq!(
        trial_balance_root(&recomputed),
        sealed.trial_balance_root
    );

    // And the next day forward is still perfectly open.
    let draft = b.draft_on(b"apr", 700, day(2026, 4, 1));
    b.journal.record(draft).expect("April is open");
}

#[test]
fn sealing_an_unknown_period_is_an_error() {
    let mut b = Books::new();
    let missing = PeriodId::new("nope").expect("valid");
    assert!(matches!(
        b.journal.seal_period(&missing),
        Err(JournalError::Period(PeriodError::Unknown { .. }))
    ));
}

#[test]
fn a_sealed_period_cannot_be_sealed_twice() {
    let mut b = Books::new();
    let id = b.march();
    b.record(b"a", 100);
    b.journal
        .transition_period(&id, PeriodState::Closing)
        .expect("ok");
    b.journal.seal_period(&id).expect("seals");
    assert!(matches!(
        b.journal.seal_period(&id),
        Err(JournalError::Period(PeriodError::NotClosing {
            state: PeriodState::Sealed,
            ..
        }))
    ));
    assert_eq!(b.journal.seals().len(), 1);
}

#[test]
fn consecutive_seals_chain_and_verify() {
    let mut b = Books::new();
    let march_id = b.march();
    b.record(b"a", 100);
    b.journal
        .transition_period(&march_id, PeriodState::Closing)
        .expect("ok");
    let first = b.journal.seal_period(&march_id).expect("seals");

    let april_id = PeriodId::new("2026-04").expect("valid");
    b.journal
        .define_period(
            Period::new(
                april_id.clone(),
                day(2026, 4, 1),
                day(2026, 4, 30),
            )
            .expect("valid range"),
        )
        .expect("defines");
    b.journal
        .transition_period(&april_id, PeriodState::Closing)
        .expect("ok");
    let second = b.journal.seal_period(&april_id).expect("seals");

    assert_eq!(first.prev_seal, None);
    assert_eq!(second.prev_seal, Some(first.seal_hash));
    assert_eq!(b.journal.seals().len(), 2);
    assert!(b.journal.verify_seals().is_ok());
}

#[test]
fn a_seal_excludes_entries_booked_into_later_periods() {
    // Sealing March in April is the normal case; April must not leak into
    // March's closing balance.
    let mut b = Books::new();
    let id = b.march();
    b.record(b"march", 100);

    let april = b.draft_on(b"april", 900, day(2026, 4, 10));
    b.journal.record(april).expect("records");

    b.journal
        .transition_period(&id, PeriodState::Closing)
        .expect("ok");
    let seal = b.journal.seal_period(&id).expect("seals");

    assert_eq!(seal.entry_count, 1, "only the March entry belongs to March");

    let march_only = b
        .journal
        .trial_balance_through_date(day(2026, 3, 31))
        .expect("ok");
    assert_eq!(
        seal.trial_balance_root,
        trial_balance_root(&march_only)
    );
    assert_ne!(
        seal.trial_balance_root,
        trial_balance_root(&b.journal.trial_balance(None).expect("ok")),
        "the whole-journal balance must not be what was sealed"
    );
}

#[test]
fn a_seal_commits_to_the_balances_at_that_moment() {
    let mut b = Books::new();
    let id = b.march();
    b.record(b"a", 100);
    b.journal
        .transition_period(&id, PeriodState::Closing)
        .expect("ok");
    let seal = b.journal.seal_period(&id).expect("seals");

    // A later entry cannot retroactively change what the seal committed to.
    let later = b.draft_on(b"later", 200, day(2026, 4, 5));
    b.journal.record(later).expect("records");

    let recomputed =
        trial_balance_root(&b.journal.trial_balance(None).expect("ok"));
    assert_ne!(recomputed, seal.trial_balance_root);
    assert!(seal.is_self_consistent());
}

#[test]
fn one_call_proves_and_names_a_sealed_balance() {
    // The whole audit answer, assembled where it cannot be assembled wrong.
    // The engine and every durable backend route through the same
    // `SealedBalance::assemble`, so they cannot drift.
    let mut b = Books::new();
    let id = b.march();
    b.record(b"m", 119_000);
    // Sealing March in April is the normal case, so the log holds a later
    // entry when the seal is taken — which is why the closing balance is a
    // fold by booking date rather than a prefix of the log.
    let later = b.draft_on(b"apr", 7_777, day(2026, 4, 5));
    b.journal.record(later).expect("April is open");
    b.journal
        .transition_period(&id, PeriodState::Closing)
        .expect("ok");
    let seal = b.journal.seal_period(&id).expect("seals");

    // The books move on in every way that touches the registry.
    b.journal
        .accounts_mut()
        .register_path("Assets:Bank", day(2026, 5, 1))
        .expect("registers");
    b.journal
        .accounts_mut()
        .close(b.cash, day(2026, 5, 31))
        .expect("registered");
    b.journal
        .accounts_mut()
        .set_limit(b.revenue, BalanceLimit::NoDebitBalance)
        .expect("registered");

    let proven = b
        .journal
        .prove_sealed_balance(&id, b.cash_key())
        .expect("the books still reproduce the seal")
        .into_proven()
        .expect("cash has a row");
    assert!(proven.verify());
    assert_eq!(proven.path().to_string(), "Assets:Cash");
    assert_eq!(proven.seal.seal_hash, seal.seal_hash);
    // April must not have leaked into March's closing balance.
    assert_eq!(proven.balance.balance.debits, Eur::from_minor(119_000));

    // A registered account with no row is `None`, not a fabricated zero.
    let no_row = BalanceKey {
        currency: Currency::usd(),
        ..b.cash_key()
    };
    assert_eq!(
        b.journal
            .prove_sealed_balance(&id, no_row)
            .expect("no error"),
        SealedBalanceOutcome::NoRow,
    );

    // An account onboarded after the seal is a different answer again.
    let later_account = BalanceKey {
        account: AccountId::from_index(2),
        ..b.cash_key()
    };
    // An account onboarded after the seal is an *answer*, not an error: the
    // books are intact and the seal simply cannot name it.
    assert_eq!(
        b.journal
            .prove_sealed_balance(&id, later_account)
            .expect("nothing is wrong with the books"),
        SealedBalanceOutcome::NotYetRegistered,
    );
    assert!(
        b.journal
            .prove_sealed_balance(&id, later_account)
            .expect("no error")
            .is_absent()
    );

    // And an unsealed period has nothing to prove.
    let missing = PeriodId::new("2026-09").expect("valid");
    assert!(matches!(
        b.journal.prove_sealed_balance(&missing, b.cash_key()),
        Err(JournalError::SealedBalance(
            SealedBalanceError::NotSealed { .. }
        ))
    ));
}

#[test]
fn a_sealed_balance_can_be_proven_from_the_seal_alone() {
    let mut b = Books::new();
    let id = b.march();
    b.record(b"a", 119_000);
    b.journal
        .transition_period(&id, PeriodState::Closing)
        .expect("ok");
    let seal = b.journal.seal_period(&id).expect("seals");

    let closing = b
        .journal
        .trial_balance_through_date(day(2026, 3, 31))
        .expect("ok");
    let proof = TrialBalanceCommitment::of(&closing)
        .prove(&b.cash_key())
        .expect("cash was posted to");
    assert!(proof.verify_against(&seal));
    assert_eq!(proof.balance.debits, Eur::from_minor(119_000));
}

// ── checkpoints and assertions ──────────────────────────────────────────

#[test]
fn a_checkpoint_round_trips_against_the_journal() {
    let mut b = Books::new();
    b.record(b"a", 100);
    b.record(b"b", 250);

    let cp = b.journal.checkpoint(&b.cash_key()).expect("no overflow");
    assert_eq!(cp.balance.debits, Eur::from_minor(350));
    assert!(b.journal.verify_checkpoint(&cp).is_ok());
}

#[test]
fn a_prefix_checkpoint_stays_valid_as_the_log_grows() {
    let mut b = Books::new();
    b.record(b"a", 100);
    let stale = b.journal.checkpoint(&b.cash_key()).expect("ok");

    // The log grows. The checkpoint still describes a real prefix, and its
    // pinned head lets it be re-derived exactly, so it remains valid.
    b.record(b"b", 250);
    assert!(b.journal.verify_checkpoint(&stale).is_ok());

    // A restated balance is caught.
    let mut restated = stale;
    restated.balance.debits = Eur::from_minor(9_999);
    assert!(matches!(
        b.journal.verify_checkpoint(&restated),
        Err(CheckpointError::BalanceMismatch)
    ));

    // So is a checkpoint claiming a history the log never had.
    let mut forged = stale;
    forged.tree_head.root = Digest::from_bytes([0xabu8; 32]);
    assert!(matches!(
        b.journal.verify_checkpoint(&forged),
        Err(CheckpointError::HeadMismatch)
    ));
}

#[test]
fn a_checkpoint_beyond_the_log_is_rejected() {
    let mut b = Books::new();
    b.record(b"a", 100);
    let mut cp = b.journal.checkpoint(&b.cash_key()).expect("ok");
    cp.tree_head.size = 99;
    assert!(matches!(
        b.journal.verify_checkpoint(&cp),
        Err(CheckpointError::SizeOutOfRange { size: 99 })
    ));
}

#[test]
fn a_checkpoint_over_an_empty_log_stays_valid_forever() {
    // The prefix is the tree head's size, so an empty-prefix checkpoint says
    // "nothing had moved after zero entries" — which no later append can
    // falsify.
    let mut b = Books::new();
    let key = b.cash_key();
    let cp = b.journal.checkpoint(&key).expect("ok");
    assert_eq!(cp.size(), 0);
    assert!(b.journal.verify_checkpoint(&cp).is_ok());

    b.record(b"a", 100);
    b.record(b"b", 250);
    assert!(
        b.journal.verify_checkpoint(&cp).is_ok(),
        "an empty-prefix checkpoint must survive the log growing"
    );
}

#[test]
fn balance_assertions_catch_divergence() {
    let mut b = Books::new();
    b.record(b"a", 100);
    b.record(b"b", 250);
    let key = b.cash_key();

    let holds = BalanceAssertion::net(key, Eur::from_minor(350));
    assert!(b.journal.check_assertion(&holds).expect("ok").held());

    let wrong = BalanceAssertion::net(key, Eur::from_minor(300));
    let outcome = b.journal.check_assertion(&wrong).expect("ok");
    assert!(!outcome.held());
    assert!(matches!(
        outcome,
        AssertionOutcome::Failed { difference, .. } if difference == Eur::from_minor(50)
    ));
}

#[test]
fn an_assertion_can_target_an_earlier_log_position() {
    let mut b = Books::new();
    b.record(b"a", 100);
    b.record(b"b", 250);
    let key = b.cash_key();
    let earlier = BalanceAssertion::net(key, Eur::from_minor(100)).over_prefix(1);
    assert!(b.journal.check_assertion(&earlier).expect("ok").held());
    // The empty prefix is a legal target and asserts an untouched ledger.
    let nothing = BalanceAssertion::net(key, Eur::zero()).over_prefix(0);
    assert!(b.journal.check_assertion(&nothing).expect("ok").held());
}

#[test]
fn an_assertion_can_target_a_date_the_way_a_statement_does() {
    // What reconciliation actually needs: an external statement is dated,
    // not positioned, and a backdated entry has to land in the period it
    // economically belongs to rather than where it happened to be recorded.
    let mut b = Books::new();
    let march = b.draft_on(b"march", 100, day(2026, 3, 15));
    b.journal.record(march).expect("records");
    let april = b.draft_on(b"april", 250, day(2026, 4, 2));
    b.journal.record(april).expect("records");
    // Recorded last, booked first.
    let backdated = b.draft_on(b"backdated", 40, day(2026, 3, 1));
    b.journal.record(backdated).expect("records");

    let key = b.cash_key();
    let closing =
        BalanceAssertion::net(key, Eur::from_minor(140)).on_date(day(2026, 3, 31));
    assert!(
        b.journal.check_assertion(&closing).expect("ok").held(),
        "March closes at 1.40, backdated entry included"
    );
    assert_eq!(
        b.journal
            .balance_on_date(&key, day(2026, 4, 30))
            .expect("ok")
            .debits,
        Eur::from_minor(390)
    );
}

#[test]
fn open_items_are_oldest_first_whatever_identifiers_the_caller_brings() {
    // Open items exist to be cleared, and FIFO — apply this payment to the
    // oldest open invoice — is the workflow. "Oldest" is log order, which is
    // the crate's answer to ordering everywhere else, and deliberately not
    // entry-*identifier* order: identity is caller-supplied, so sorting by
    // it is chronological only when the caller happens to use this crate's
    // own time-ordered generator. These identifiers descend, so the two
    // orders are exact opposites.
    let mut b = Books::new();
    let ids = [
        EntryId::from_uuid(0xcccc << 112),
        EntryId::from_uuid(0xbbbb << 112),
        EntryId::from_uuid(0xaaaa << 112),
    ];
    for (n, id) in ids.iter().enumerate() {
        let draft = Entry::<Draft, 2>::new(
            *id,
            IdempotencyKey::new(format!("inv-{n}").into_bytes()).expect("valid"),
            day(2026, 3, 15),
        )
        .debit(b.cash, Eur::from_minor(100), Currency::eur())
        .credit(b.revenue, Eur::from_minor(100), Currency::eur());
        b.journal.record(draft).expect("records");
    }

    let key = b.cash_key();
    let log_order = b.journal.postings_on(&key);
    let items: Vec<_> = b
        .journal
        .open_items(&key)
        .expect("no overflow")
        .iter()
        .map(|i| i.posting)
        .collect();

    assert_eq!(items, log_order, "open items must be oldest-first");
    // And that is genuinely the opposite of sorting by identifier, so the
    // assertion above is not satisfied by both orders at once.
    let mut by_identifier = log_order.clone();
    by_identifier.sort();
    assert_ne!(
        by_identifier, log_order,
        "the fixture must actually distinguish the two orders"
    );
}

#[test]
fn a_clearing_may_not_be_recorded_twice_under_one_identifier() {
    let mut b = Books::new();
    let invoice = b.record(b"invoice", 1000);
    let payment = Entry::<Draft, 2>::new(
        EntryId::generate(),
        IdempotencyKey::new(b"payment".to_vec()).expect("valid"),
        day(2026, 3, 20),
    )
    .credit(b.cash, Eur::from_minor(1000), Currency::eur())
    .debit(b.revenue, Eur::from_minor(1000), Currency::eur());
    let payment = b.journal.record(payment).expect("records");

    let id = ClearingId::generate();
    let key = b.cash_key();
    let build = || {
        Clearing::new(id, key, day(2026, 3, 20))
            .apply(PostingRef::new(invoice.id, 0), Eur::from_minor(400))
            .apply(PostingRef::new(payment.id, 0), Eur::from_minor(400))
    };
    b.journal.clear(build()).expect("clears");
    assert!(matches!(
        b.journal.clear(build()),
        Err(JournalError::Clearing(ClearingError::DuplicateId { .. }))
    ));
}

// ── batches ─────────────────────────────────────────────────────────────

#[test]
fn a_batch_lands_in_full_or_not_at_all() {
    let mut b = Books::new();
    b.record(b"existing", 100);
    let before = b.journal.clone();

    // The third entry reuses the second's key with different content.
    let batch = vec![
        b.sealed(b"batch-a", 100),
        b.sealed(b"batch-b", 200),
        b.sealed(b"batch-b", 300),
    ];
    assert!(matches!(
        b.journal.record_batch(batch),
        Err(JournalError::IdempotencyConflict { .. })
    ));

    // Byte-identical to how it started: index, keys, balances, tree head.
    assert_eq!(b.journal.len(), before.len());
    assert_eq!(b.journal.head(), before.head());
    assert_eq!(
        b.journal.trial_balance(None).expect("ok"),
        before.trial_balance(None).expect("ok")
    );
    assert!(b.journal.verify_log());
    assert!(b.journal.verify_balances().expect("ok"));
    assert!(b.journal.statement(&b.cash_key()).expect("ok").len() == 1);
}

#[test]
fn rolling_back_a_batch_releases_its_keys_and_identifiers() {
    let mut b = Books::new();
    let good = b.sealed(b"reusable", 100);
    let poison = b.sealed(b"poison", 200);
    let clash = b.sealed(b"poison", 300);

    assert!(
        b.journal
            .record_batch(vec![good.clone(), poison, clash])
            .is_err()
    );

    // The rolled-back key and identifier are free again, so a corrected
    // batch can reuse them.
    b.journal
        .record_batch(vec![good])
        .expect("the key was released");
    assert_eq!(b.journal.len(), 1);
    assert!(b.journal.verify_log());
}

#[test]
fn rolling_back_a_batch_releases_a_reversal_link() {
    let mut b = Books::new();
    let original = b.sealed(b"orig", 100);
    let original_id = original.id();
    b.journal.record_validated(original.clone()).expect("ok");

    let reversal = original
        .reverse(
            EntryId::generate(),
            IdempotencyKey::new(b"rev".to_vec()).expect("valid"),
            day(2026, 4, 1),
        )
        .seal(&b.journal.context())
        .expect("balances");
    let poison = b.sealed(b"orig", 999);

    assert!(b.journal.record_batch(vec![reversal, poison]).is_err());
    assert_eq!(
        b.journal.reversal_of(original_id),
        None,
        "an undone reversal must not leave the original marked corrected"
    );
    assert_eq!(b.journal.len(), 1);
}

#[test]
fn a_replay_inside_a_batch_is_not_a_failure() {
    let mut b = Books::new();
    let first = b.record(b"a", 100);
    let outcomes = b
        .journal
        .record_batch(vec![b.sealed(b"a", 100), b.sealed(b"c", 300)])
        .expect("a replay is not a conflict");
    assert_eq!(outcomes.len(), 2);
    assert!(!outcomes[0].is_new);
    assert_eq!(outcomes[0].id, first.id);
    assert!(outcomes[1].is_new);
    assert_eq!(b.journal.len(), 2);
}

// ── edges ───────────────────────────────────────────────────────────────

#[test]
fn a_retry_is_answered_before_anything_is_validated() {
    let mut b = Books::new();
    let first = b.record(b"key", 100);
    let draft = b.draft(b"key", 100);
    // The account closes; the retry still answers with the original outcome.
    b.journal
        .accounts_mut()
        .close(b.cash, day(2026, 1, 31))
        .expect("registered");
    let retry = b.journal.record(draft).expect("a retry is safe");
    assert_eq!(retry.id, first.id);
    assert_eq!(retry.index, first.index);
    assert_eq!(retry.content_hash, first.content_hash);
    assert!(!retry.is_new);
    assert_eq!(retry.require_index(), Ok(LogIndex::new(0)));
}

#[test]
fn a_conflict_names_the_entry_that_holds_the_key() {
    let mut b = Books::new();
    let first = b.record(b"key", 100);
    let other = b.sealed(b"key", 999);
    let submitted = other.content_hash();
    assert_eq!(
        b.journal.record_validated(other),
        Err(JournalError::IdempotencyConflict {
            existing: first.id,
            stored: first.content_hash,
            submitted,
        })
    );
}

#[test]
fn entries_are_found_by_position_and_identifier() {
    let mut b = Books::new();
    let recorded = b.record(b"a", 100);
    assert_eq!(b.journal.index_of(recorded.id), Some(LogIndex::new(0)));
    assert_eq!(
        b.journal.at(LogIndex::new(0)).map(|e| e.id()),
        Some(recorded.id)
    );
    assert_eq!(b.journal.at(LogIndex::new(1)), None);
    assert_eq!(b.journal.get(EntryId::from_uuid(1)), None);
    assert_eq!(b.journal.index_of(EntryId::from_uuid(1)), None);
    assert_eq!(b.journal.ledger().as_str(), "test-ledger");
    assert_eq!(b.journal.currencies(), vec![Currency::eur()]);
}

#[test]
fn an_overflowing_balance_is_refused_whole() {
    let mut b = Books::new();
    b.record(b"a", i64::MAX);
    let draft = b.draft(b"b", 1);
    assert!(matches!(
        b.journal.record(draft),
        Err(JournalError::Money(_))
    ));
    assert_eq!(b.journal.len(), 1);
    assert!(b.journal.verify_balances().expect("ok"));
}

#[test]
fn a_reservation_settled_across_layers_leaves_the_books_balanced() {
    // An entry balances per currency over both layers together; a layer on its
    // own need not.
    let mut b = Books::new();
    let mixed = Entry::<Draft, 2>::new(
        EntryId::generate(),
        IdempotencyKey::new(b"mixed".to_vec()).expect("valid"),
        day(2026, 3, 15),
    )
    .debit(b.cash, Eur::from_minor(10), Currency::eur())
    .post(
        Posting::credit(b.revenue, Eur::from_minor(10), Currency::eur()).in_layer(Layer::Pending),
    );
    b.journal.record(mixed).expect("balances over both layers");
    assert_eq!(b.journal.verify_balanced(), Ok(true));
    let tb = b.journal.trial_balance(None).expect("no overflow");
    for layer in [Layer::Settled, Layer::Pending] {
        assert!(!tb
            .totals(Currency::eur(), layer)
            .expect("no overflow")
            .is_balanced());
    }
    assert!(b.journal.verify_balances().expect("no overflow"));
}

#[test]
fn the_order_of_postings_does_not_decide_a_limit() {
    for swapped in [false, true] {
        let mut b = Books::new();
        b.journal
            .accounts_mut()
            .set_limit(b.cash, BalanceLimit::NoCreditBalance)
            .expect("registered");
        let draft = Entry::<Draft, 2>::new(
            EntryId::generate(),
            IdempotencyKey::new(b"k".to_vec()).expect("valid"),
            day(2026, 3, 20),
        );
        let draft = if swapped {
            draft
                .debit(b.cash, Eur::from_minor(5), Currency::eur())
                .credit(b.revenue, Eur::from_minor(5), Currency::eur())
                .credit(b.cash, Eur::from_minor(5), Currency::eur())
                .debit(b.revenue, Eur::from_minor(5), Currency::eur())
        } else {
            draft
                .credit(b.cash, Eur::from_minor(5), Currency::eur())
                .debit(b.revenue, Eur::from_minor(5), Currency::eur())
                .debit(b.cash, Eur::from_minor(5), Currency::eur())
                .credit(b.revenue, Eur::from_minor(5), Currency::eur())
        };
        b.journal.record(draft).expect("nets to zero either way");
    }
}

#[test]
fn a_statement_ends_at_the_balance_it_explains() {
    let mut b = Books::new();
    for i in 0..5i64 {
        b.record(format!("k{i}").as_bytes(), 10 + i);
    }
    let lines = b.journal.statement(&b.cash_key()).expect("ok");
    assert_eq!(
        lines.last().expect("lines").running,
        b.journal.balance(&b.cash_key(), None).expect("ok")
    );
    assert_eq!(lines[3].position().index, LogIndex::new(3));
    assert_eq!(lines[3].position().posting, 0);
    assert_eq!(b.journal.postings_on(&b.cash_key()).len(), 5);
}

#[test]
fn a_clearing_can_be_reset_and_an_unknown_one_cannot() {
    let mut b = Books::new();
    let invoice = b.record(b"invoice", 1000);
    let payment = Entry::<Draft, 2>::new(
        EntryId::generate(),
        IdempotencyKey::new(b"payment".to_vec()).expect("valid"),
        day(2026, 3, 20),
    )
    .credit(b.cash, Eur::from_minor(1000), Currency::eur())
    .debit(b.revenue, Eur::from_minor(1000), Currency::eur());
    let payment = b.journal.record(payment).expect("records");
    let id = ClearingId::generate();
    let key = b.cash_key();
    b.journal
        .clear(
            Clearing::new(id, key, day(2026, 3, 20))
                .apply(PostingRef::new(invoice.id, 0), Eur::from_minor(1000))
                .apply(PostingRef::new(payment.id, 0), Eur::from_minor(1000)),
        )
        .expect("clears");
    assert!(b.journal.open_items(&key).expect("ok").is_empty());
    b.journal
        .reset_clearing(id, day(2026, 3, 21))
        .expect("resets");
    assert_eq!(b.journal.open_items(&key).expect("ok").len(), 2);
    assert!(matches!(
        b.journal.reset_clearing(id, day(2026, 3, 22)),
        Err(JournalError::Clearing(ClearingError::AlreadyReset { .. }))
    ));
    assert!(matches!(
        b.journal
            .reset_clearing(ClearingId::from_uuid(1), day(2026, 3, 22)),
        Err(JournalError::Clearing(
            ClearingError::UnknownClearing { .. }
        ))
    ));
}

#[test]
fn a_rolled_back_batch_leaves_balances_and_statements_alone() {
    let mut b = Books::new();
    b.record(b"kept", 70);
    let before = b.journal.clone();
    let batch = vec![
        b.sealed(b"x", 1),
        b.sealed(b"kept", 70),
        b.sealed(b"y", 2),
        b.sealed(b"x", 3),
    ];
    assert!(b.journal.record_batch(batch).is_err());
    assert_eq!(b.journal.entries(), before.entries());
    assert_eq!(
        b.journal.statement(&b.cash_key()),
        before.statement(&b.cash_key())
    );
    assert_eq!(b.journal.head(), before.head());
    assert!(b.journal.record_batch(Vec::new()).expect("nothing to do").is_empty());
}

#[test]
fn sealed_days_stay_sealed_and_later_proofs_still_name_the_account() {
    let mut b = Books::new();
    let id = b.march();
    b.record(b"m", 500);
    b.journal
        .transition_period(&id, PeriodState::Closing)
        .expect("ok");
    b.journal.seal_period(&id).expect("seals");
    let asked = |journal: &Journal<2>, key| journal.prove_sealed_balance(&id, key).expect("sealed");
    let before = asked(&b.journal, b.cash_key());
    let april = b.draft_on(b"april", 900, day(2026, 4, 10));
    b.journal.record(april).expect("April is open");
    assert_eq!(asked(&b.journal, b.cash_key()), before);
    assert!(b.journal.verify_seals().is_ok());
    let late = b.draft_on(b"late", 1, day(2026, 3, 31));
    assert!(b.journal.record(late).is_err());
}

#[test]
fn a_seal_outlives_the_calendar_it_was_taken_under() {
    let mut b = Books::new();
    let id = b.march();
    b.record(b"m", 500);
    b.journal
        .transition_period(&id, PeriodState::Closing)
        .expect("ok");
    b.journal.seal_period(&id).expect("seals");

    // Without its period a seal cannot be matched to a closing date …
    *b.journal.calendar_mut() = PeriodCalendar::new();
    assert!(matches!(
        b.journal.prove_sealed_balance(&id, b.cash_key()),
        Err(JournalError::SealedBalance(
            SealedBalanceError::UndefinedPeriod { .. }
        ))
    ));
    // … and a booking behind its back is found out.
    let id = b.march();
    b.record(b"behind", 1);
    assert!(matches!(
        b.journal.prove_sealed_balance(&id, b.cash_key()),
        Err(JournalError::SealedBalance(
            SealedBalanceError::Restated { .. }
        ))
    ));
    assert!(b.journal.verify_seals().is_ok(), "the chain itself is intact");
}

#[test]
fn an_entry_is_proven_and_nothing_else_is() {
    let mut b = Books::new();
    for i in 0..6i64 {
        b.record(format!("k{i}").as_bytes(), 10 + i);
    }
    let head = b.journal.head();
    let proof = b
        .journal
        .prove_inclusion(LogIndex::new(2))
        .expect("in range");
    for (i, entry) in b.journal.entries().iter().enumerate() {
        assert_eq!(proof.verify(&entry.content_hash(), &head), i == 2);
    }
    assert!(b.journal.prove_inclusion(LogIndex::new(6)).is_err());
    assert!(b.journal.prove_consistency(7).is_err());
    let old = b.journal.head_at(4).expect("in range");
    let between = b
        .journal
        .prove_consistency_between(4, 6)
        .expect("in range");
    assert!(between.verify(&old, &head));
    let at = b
        .journal
        .prove_inclusion_at(LogIndex::new(3), 4)
        .expect("in range");
    assert!(at.verify(&b.journal.entries()[3].content_hash(), &old));
}

/// Adopts an entry under the hash of its own contents, without validating it.
fn adopt(draft: Entry<Draft, 2>) -> Entry<Balanced, 2> {
    let other = Digest::digest(b"test/other", b"");
    let found = draft.clone().adopt_verified(other).expect_err("another hash");
    draft.adopt_verified(found.actual).expect("its own hash")
}

#[test]
fn a_balance_that_cannot_be_netted_breaches_its_limit() {
    let mut b = Books::new();
    b.journal
        .accounts_mut()
        .set_limit(b.cash, BalanceLimit::NoCreditBalance)
        .expect("registered");
    let unnettable = b
        .draft(b"unnettable", i64::MAX)
        .credit(b.cash, Eur::from_minor(-1), Currency::eur());
    let adopted = adopt(unnettable);
    assert!(matches!(
        b.journal.record_validated(adopted),
        Err(JournalError::LimitBreached {
            limit: BalanceLimit::NoCreditBalance,
            net_minor: 0,
            ..
        })
    ));
    assert!(b.journal.is_empty());
}

#[test]
fn totals_that_overflow_are_reported_and_layers_are_totalled_apart() {
    let mut b = Books::new();
    b.record(b"settled", i64::MAX);
    let reserved = Entry::<Draft, 2>::new(
        EntryId::generate(),
        IdempotencyKey::new(b"reserved".to_vec()).expect("valid"),
        day(2026, 3, 15),
    )
    .post(Posting::debit(b.cash, Eur::from_minor(1), Currency::eur()).in_layer(Layer::Pending))
    .post(
        Posting::credit(b.revenue, Eur::from_minor(1), Currency::eur()).in_layer(Layer::Pending),
    );
    b.journal.record(reserved).expect("records");
    assert_eq!(b.journal.verify_balanced(), Ok(true));

    let bank = b
        .journal
        .accounts_mut()
        .register_path("Assets:Bank", day(2026, 1, 1))
        .expect("registers");
    let capital = b
        .journal
        .accounts_mut()
        .register_path("Equity:Capital", day(2026, 1, 1))
        .expect("registers");
    let more = Entry::<Draft, 2>::new(
        EntryId::generate(),
        IdempotencyKey::new(b"more".to_vec()).expect("valid"),
        day(2026, 3, 15),
    )
    .debit(bank, Eur::from_minor(1), Currency::eur())
    .credit(capital, Eur::from_minor(1), Currency::eur());
    b.journal.record(more).expect("each account's own total fits");
    assert_eq!(b.journal.verify_balanced(), Err(MoneyError::Overflow));
}

#[test]
fn an_adopted_entry_that_does_not_balance_is_found() {
    let mut b = Books::new();
    b.record(b"fine", 5);
    let lopsided = b
        .draft(b"lopsided", 5)
        .debit(b.cash, Eur::from_minor(1), Currency::eur());
    let adopted = adopt(lopsided);
    b.journal
        .record_validated(adopted)
        .expect("the writer vouched for it");
    assert_eq!(b.journal.verify_balanced(), Ok(false));
}

#[test]
fn a_sealed_balance_is_answered_the_same_whatever_follows() {
    let mut b = Books::new();
    let march = b.march();
    b.record(b"m", 500);
    b.journal
        .transition_period(&march, PeriodState::Closing)
        .expect("ok");
    b.journal.seal_period(&march).expect("seals");
    let key = b.cash_key();
    let answer = |b: &Books| {
        b.journal
            .prove_sealed_balance(&march, key)
            .expect("sealed")
            .into_proven()
            .expect("has a row")
    };
    let first = answer(&b);
    let same = |b: &Books| {
        let now = answer(b);
        assert!(now.verify());
        assert_eq!(now.seal, first.seal);
        assert_eq!(now.balance.balance, first.balance.balance);
        assert_eq!(now.account.record, first.account.record);
    };

    // Another period is defined, booked into, moved and sealed.
    let april = PeriodId::new("2026-04").expect("valid");
    b.journal
        .define_period(
            Period::new(april.clone(), day(2026, 4, 1), day(2026, 4, 30)).expect("valid range"),
        )
        .expect("defines");
    same(&b);
    let batch = vec![
        b.draft_on(b"a1", 20, day(2026, 4, 2))
            .seal(&b.journal.context())
            .expect("balances"),
        b.draft_on(b"a2", 30, day(2026, 4, 3))
            .seal(&b.journal.context())
            .expect("balances"),
    ];
    b.journal.record_batch(batch).expect("records");
    same(&b);
    b.journal
        .transition_period(&april, PeriodState::Closing)
        .expect("ok");
    same(&b);
    b.journal.seal_period(&april).expect("seals");
    same(&b);

    // Postings are cleared against each other and released, and an account is
    // closed.
    let refund = Entry::<Draft, 2>::new(
        EntryId::generate(),
        IdempotencyKey::new(b"refund".to_vec()).expect("valid"),
        day(2026, 5, 2),
    )
    .credit(b.cash, Eur::from_minor(20), Currency::eur())
    .debit(b.revenue, Eur::from_minor(20), Currency::eur());
    b.journal.record(refund).expect("records");
    let references = b.journal.postings_on(&key);
    let id = ClearingId::generate();
    let clearing = Clearing::new(id, key, day(2026, 5, 3))
        .apply(references[1], Eur::from_minor(20))
        .apply(references[3], Eur::from_minor(20));
    b.journal.clear(clearing).expect("clears");
    same(&b);
    b.journal
        .reset_clearing(id, day(2026, 5, 4))
        .expect("resets");
    same(&b);
    b.journal
        .accounts_mut()
        .close(b.cash, day(2026, 12, 31))
        .expect("closes");
    same(&b);
}
