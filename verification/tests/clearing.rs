//! Clearings: assigning items to one another without moving money.

use std::collections::BTreeMap;

use doubleentry::posting::Movement;
use doubleentry::{
    AccountId, Amount, BalanceKey, ClearedItem, Clearing, ClearingError, ClearingId,
    ClearingRegister, Currency, Date, Direction, EntryId, Layer, Posting, PostingLookup, PostingRef,
};

fn day(year: i32, month: u8, day: u8) -> Date {
    Date::from_calendar_date(year, month, day).expect("a date of the calendar")
}

type Eur = Amount<2>;

/// A hand-built posting table, so these tests exercise clearing alone.
struct Table {
    postings: BTreeMap<PostingRef, Posting<2>>,
}

impl PostingLookup<2> for Table {
    fn posting(&self, reference: PostingRef) -> Option<&Posting<2>> {
        self.postings.get(&reference)
    }

    // What contracts say of a lookup; nothing calls it.
    fn resolved(&self, _reference: PostingRef) -> Option<Movement> {
        unreachable!("only contracts speak of it")
    }
}

fn account() -> AccountId {
    AccountId::from_index(0)
}

fn table(entries: &[(u16, Direction, i64)]) -> (Table, Vec<PostingRef>) {
    let entry = EntryId::generate();
    let mut postings = BTreeMap::new();
    let mut refs = Vec::new();
    for (index, direction, amount) in entries {
        let reference = PostingRef::new(entry, *index);
        postings.insert(
            reference,
            Posting::new(
                account(),
                *direction,
                Eur::from_minor(*amount),
                Currency::eur(),
            ),
        );
        refs.push(reference);
    }
    (Table { postings }, refs)
}

fn key(layer: Layer) -> BalanceKey {
    BalanceKey {
        account: account(),
        currency: Currency::eur(),
        layer,
    }
}

fn clearing(items: &[(PostingRef, i64)]) -> Clearing<2> {
    clearing_in(Layer::Settled, items)
}

fn clearing_in(layer: Layer, items: &[(PostingRef, i64)]) -> Clearing<2> {
    items.iter().fold(
        Clearing::new(ClearingId::generate(), key(layer), day(2026, 3, 15)),
        |c, (posting, applied)| c.apply(*posting, Eur::from_minor(*applied)),
    )
}

#[test]
fn a_full_clearing_closes_both_items() {
    let (t, r) = table(&[(0, Direction::Debit, 1000), (1, Direction::Credit, 1000)]);
    let mut reg = ClearingRegister::<2>::new();
    reg.clear(clearing(&[(r[0], 1000), (r[1], 1000)]), &t)
        .expect("clears");

    let open = reg.open_items(&r, &t).expect("ok");
    assert!(open.is_empty(), "nothing should remain open");
    assert_eq!(reg.len(), 1);
}

#[test]
fn a_partial_payment_leaves_both_sides_open() {
    let (t, r) = table(&[(0, Direction::Debit, 1000), (1, Direction::Credit, 400)]);
    let mut reg = ClearingRegister::<2>::new();
    reg.clear(clearing(&[(r[0], 400), (r[1], 400)]), &t)
        .expect("clears");

    let open = reg.open_items(&r, &t).expect("ok");
    assert_eq!(open.len(), 1, "the invoice remains partly open");
    let item = open.first().expect("present");
    assert_eq!(item.posting, r[0]);
    assert_eq!(item.original, Eur::from_minor(1000));
    assert_eq!(item.applied, Eur::from_minor(400));
    assert_eq!(item.residual, Eur::from_minor(600));
}

#[test]
fn successive_partial_payments_accumulate() {
    let (t, r) = table(&[
        (0, Direction::Debit, 1000),
        (1, Direction::Credit, 400),
        (2, Direction::Credit, 600),
    ]);
    let mut reg = ClearingRegister::<2>::new();
    reg.clear(clearing(&[(r[0], 400), (r[1], 400)]), &t)
        .expect("first payment");
    reg.clear(clearing(&[(r[0], 600), (r[2], 600)]), &t)
        .expect("second payment");

    assert_eq!(reg.applied_to(r[0]), Eur::from_minor(1000));
    assert!(
        reg.open_items(&r, &t)
            .expect("ok")
            .is_empty()
    );
}

#[test]
fn over_application_is_refused() {
    let (t, r) = table(&[(0, Direction::Debit, 1000), (1, Direction::Credit, 1000)]);
    let mut reg = ClearingRegister::<2>::new();
    reg.clear(clearing(&[(r[0], 600), (r[1], 600)]), &t)
        .expect("first");

    let err = reg
        .clear(clearing(&[(r[0], 500), (r[1], 500)]), &t)
        .expect_err("only 400 remains");
    assert!(matches!(err, ClearingError::OverApplied { .. }));

    // The failed attempt applied nothing.
    assert_eq!(reg.applied_to(r[0]), Eur::from_minor(600));
}

#[test]
fn an_unbalanced_clearing_is_refused() {
    let (t, r) = table(&[(0, Direction::Debit, 1000), (1, Direction::Credit, 1000)]);
    let mut reg = ClearingRegister::<2>::new();
    let err = reg
        .clear(clearing(&[(r[0], 1000), (r[1], 900)]), &t)
        .expect_err("sides differ");
    assert!(matches!(err, ClearingError::Unbalanced { .. }));
    assert_eq!(reg.applied_to(r[0]), Eur::zero());
}

#[test]
fn same_side_items_alone_cannot_clear() {
    let (t, r) = table(&[(0, Direction::Debit, 500), (1, Direction::Debit, 500)]);
    let mut reg = ClearingRegister::<2>::new();
    assert!(matches!(
        reg.clear(clearing(&[(r[0], 500), (r[1], 500)]), &t),
        Err(ClearingError::Unbalanced { .. })
    ));
}

#[test]
fn a_reset_reopens_the_items() {
    let (t, r) = table(&[(0, Direction::Debit, 1000), (1, Direction::Credit, 1000)]);
    let mut reg = ClearingRegister::<2>::new();
    let c = clearing(&[(r[0], 1000), (r[1], 1000)]);
    let id = c.id;
    reg.clear(c, &t).expect("clears");
    assert!(
        reg.open_items(&r, &t)
            .expect("ok")
            .is_empty()
    );

    reg.reset(id, day(2026, 4, 1)).expect("resets");
    let open = reg.open_items(&r, &t).expect("ok");
    assert_eq!(open.len(), 2, "both items reopen");
    assert!(reg.is_reset(id));

    // The withdrawn assignment stays in the record.
    assert_eq!(reg.events().len(), 2);
    assert!(reg.get(id).is_some());
}

#[test]
fn a_clearing_cannot_be_reset_twice() {
    let (t, r) = table(&[(0, Direction::Debit, 100), (1, Direction::Credit, 100)]);
    let mut reg = ClearingRegister::<2>::new();
    let c = clearing(&[(r[0], 100), (r[1], 100)]);
    let id = c.id;
    reg.clear(c, &t).expect("clears");
    reg.reset(id, day(2026, 4, 1)).expect("resets");
    assert!(matches!(
        reg.reset(id, day(2026, 4, 2)),
        Err(ClearingError::AlreadyReset { .. })
    ));
}

#[test]
fn resetting_an_unknown_clearing_is_an_error() {
    let mut reg = ClearingRegister::<2>::new();
    assert!(matches!(
        reg.reset(ClearingId::generate(), day(2026, 4, 1)),
        Err(ClearingError::UnknownClearing { .. })
    ));
}

#[test]
fn reset_then_reclear_works() {
    let (t, r) = table(&[
        (0, Direction::Debit, 1000),
        (1, Direction::Credit, 1000),
        (2, Direction::Credit, 1000),
    ]);
    let mut reg = ClearingRegister::<2>::new();

    // Matched to the wrong payment, then corrected.
    let wrong = clearing(&[(r[0], 1000), (r[1], 1000)]);
    let wrong_id = wrong.id;
    reg.clear(wrong, &t).expect("clears");
    reg.reset(wrong_id, day(2026, 4, 1)).expect("resets");
    reg.clear(clearing(&[(r[0], 1000), (r[2], 1000)]), &t)
        .expect("re-clears against the right item");

    assert_eq!(reg.applied_to(r[1]), Eur::zero());
    assert_eq!(reg.applied_to(r[2]), Eur::from_minor(1000));
}

#[test]
fn structural_rules_are_enforced() {
    let (t, r) = table(&[(0, Direction::Debit, 100), (1, Direction::Credit, 100)]);
    let mut reg = ClearingRegister::<2>::new();

    assert!(matches!(
        reg.clear(clearing(&[(r[0], 100)]), &t),
        Err(ClearingError::TooFewItems { count: 1 })
    ));
    assert!(matches!(
        reg.clear(clearing(&[(r[0], 50), (r[0], 50)]), &t),
        Err(ClearingError::DuplicateItem { .. })
    ));
    assert!(matches!(
        reg.clear(clearing(&[(r[0], 0), (r[1], 0)]), &t),
        Err(ClearingError::NonPositiveApplication { .. })
    ));

    let missing = PostingRef::new(EntryId::generate(), 9);
    assert!(matches!(
        reg.clear(clearing(&[(r[0], 100), (missing, 100)]), &t),
        Err(ClearingError::UnknownPosting { .. })
    ));
}

#[test]
fn items_on_another_account_or_currency_are_refused() {
    let entry = EntryId::generate();
    let a = PostingRef::new(entry, 0);
    let b = PostingRef::new(entry, 1);
    let mut postings = BTreeMap::new();
    postings.insert(
        a,
        Posting::new(
            account(),
            Direction::Debit,
            Eur::from_minor(100),
            Currency::eur(),
        ),
    );
    postings.insert(
        b,
        Posting::new(
            AccountId::from_index(7),
            Direction::Credit,
            Eur::from_minor(100),
            Currency::eur(),
        ),
    );
    let t = Table { postings };
    let mut reg = ClearingRegister::<2>::new();
    assert!(matches!(
        reg.clear(clearing(&[(a, 100), (b, 100)]), &t),
        Err(ClearingError::WrongAccount { .. })
    ));

    let mut postings = BTreeMap::new();
    postings.insert(
        a,
        Posting::new(
            account(),
            Direction::Debit,
            Eur::from_minor(100),
            Currency::eur(),
        ),
    );
    postings.insert(
        b,
        Posting::new(
            account(),
            Direction::Credit,
            Eur::from_minor(100),
            Currency::usd(),
        ),
    );
    let t = Table { postings };
    assert!(matches!(
        reg.clear(clearing(&[(a, 100), (b, 100)]), &t),
        Err(ClearingError::WrongCurrency { .. })
    ));
}

#[test]
fn a_duplicate_clearing_id_is_refused() {
    let (t, r) = table(&[(0, Direction::Debit, 1000), (1, Direction::Credit, 1000)]);
    let mut reg = ClearingRegister::<2>::new();
    let mut first = clearing(&[(r[0], 400), (r[1], 400)]);
    let id = first.id;
    reg.clear(first.clone(), &t).expect("clears");

    first.id = id;
    first.items = vec![
        ClearedItem {
            posting: r[0],
            applied: Eur::from_minor(100),
        },
        ClearedItem {
            posting: r[1],
            applied: Eur::from_minor(100),
        },
    ];
    assert!(matches!(
        reg.clear(first, &t),
        Err(ClearingError::DuplicateId { .. })
    ));
}

#[test]
fn reservations_clear_against_reservations() {
    let entry = EntryId::generate();
    let a = PostingRef::new(entry, 0);
    let b = PostingRef::new(entry, 1);
    let mut postings = BTreeMap::new();
    for (reference, direction) in [(a, Direction::Debit), (b, Direction::Credit)] {
        postings.insert(
            reference,
            Posting::new(account(), direction, Eur::from_minor(50), Currency::eur())
                .in_layer(Layer::Pending),
        );
    }
    let t = Table { postings };
    let mut reg = ClearingRegister::<2>::new();
    assert!(
        reg.clear(clearing_in(Layer::Pending, &[(a, 50), (b, 50)]), &t)
            .is_ok()
    );
}

#[test]
fn a_reservation_does_not_clear_against_a_settled_movement() {
    // Netting the two would report an open item closed while the money had
    // not moved.
    let entry = EntryId::generate();
    let reserved = PostingRef::new(entry, 0);
    let settled = PostingRef::new(entry, 1);
    let mut postings = BTreeMap::new();
    postings.insert(
        reserved,
        Posting::new(
            account(),
            Direction::Debit,
            Eur::from_minor(50),
            Currency::eur(),
        )
        .in_layer(Layer::Pending),
    );
    postings.insert(
        settled,
        Posting::new(
            account(),
            Direction::Credit,
            Eur::from_minor(50),
            Currency::eur(),
        ),
    );
    let t = Table { postings };
    let mut reg = ClearingRegister::<2>::new();
    assert!(matches!(
        reg.clear(
            clearing_in(Layer::Settled, &[(reserved, 50), (settled, 50)]),
            &t
        ),
        Err(ClearingError::WrongLayer { .. })
    ));
}

// ── edges ───────────────────────────────────────────────────────────────

#[test]
fn a_residual_is_what_is_left_of_a_posting() {
    let (t, r) = table(&[(0, Direction::Debit, 1000), (1, Direction::Credit, 1000)]);
    let mut reg = ClearingRegister::<2>::default();
    assert_eq!(reg.residual_of(r[0], &t), Ok(Eur::from_minor(1000)));
    reg.clear(clearing(&[(r[0], 250), (r[1], 250)]), &t)
        .expect("clears");
    assert_eq!(reg.residual_of(r[0], &t), Ok(Eur::from_minor(750)));
    let unknown = PostingRef::new(EntryId::from_uuid(1), 0);
    assert_eq!(
        reg.residual_of(unknown, &t),
        Err(ClearingError::UnknownPosting { posting: unknown })
    );
    assert_eq!(reg.applied_to(unknown), Eur::zero());
    let item = reg
        .open_item(r[1], &t)
        .expect("resolves")
        .expect("still open");
    assert_eq!(item.direction, Direction::Credit);
    assert_eq!(item.residual, Eur::from_minor(750));
    assert!(!reg.is_empty());
}

#[test]
fn an_over_application_names_the_amounts() {
    let (t, r) = table(&[(0, Direction::Debit, 1000), (1, Direction::Credit, 1000)]);
    let mut reg = ClearingRegister::<2>::new();
    assert_eq!(
        reg.clear(clearing(&[(r[0], 1001), (r[1], 1001)]), &t),
        Err(ClearingError::OverApplied {
            posting: r[0],
            requested_minor: 1001,
            residual_minor: 1000,
            scale: 2,
        })
    );
    assert_eq!(
        reg.clear(clearing(&[(r[0], 10), (r[1], 9)]), &t),
        Err(ClearingError::Unbalanced {
            debits_minor: 10,
            credits_minor: 9,
            scale: 2,
        })
    );
    assert!(reg.is_empty() && reg.events().is_empty());
}

#[test]
fn a_reset_leaves_every_posting_as_open_as_before() {
    let (t, r) = table(&[
        (0, Direction::Debit, 1000),
        (1, Direction::Credit, 700),
        (2, Direction::Credit, 300),
    ]);
    let mut reg = ClearingRegister::<2>::new();
    reg.clear(clearing(&[(r[0], 100), (r[1], 100)]), &t)
        .expect("clears");
    let before: Vec<Eur> = r.iter().map(|p| reg.applied_to(*p)).collect();
    let second = clearing(&[(r[0], 800), (r[1], 500), (r[2], 300)]);
    let id = second.id;
    reg.clear(second, &t).expect("clears");
    assert_ne!(
        r.iter().map(|p| reg.applied_to(*p)).collect::<Vec<_>>(),
        before
    );
    reg.reset(id, day(2026, 4, 1)).expect("resets");
    assert_eq!(
        r.iter().map(|p| reg.applied_to(*p)).collect::<Vec<_>>(),
        before
    );
    assert_eq!(reg.len(), 2, "a reset clearing stays on record");
    assert_eq!(reg.events().len(), 3);
}

#[test]
fn open_items_come_in_the_order_of_their_references() {
    let (t, r) = table(&[
        (0, Direction::Debit, 10),
        (1, Direction::Debit, 20),
        (2, Direction::Debit, 30),
    ]);
    let reg = ClearingRegister::<2>::new();
    let open = reg.open_items(&[r[2], r[0], r[1]], &t).expect("resolves");
    assert_eq!(
        open.iter().map(|i| i.posting).collect::<Vec<_>>(),
        vec![r[0], r[1], r[2]]
    );
    let unknown = PostingRef::new(EntryId::from_uuid(1), 0);
    assert_eq!(
        reg.open_items(&[r[0], unknown], &t),
        Err(ClearingError::UnknownPosting { posting: unknown })
    );
}
