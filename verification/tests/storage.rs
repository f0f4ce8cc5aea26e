//! Batches, cursors and reading a journal page by page.

use doubleentry::storage::{
    find_entry, read_balances, read_open_items, read_page, read_statement, DEFAULT_PAGE_SIZE,
    MAX_PAGE_SIZE,
};
use doubleentry::{
    AccountId, Amount, BalanceKey, BalanceLimit, Balanced, BatchError, Clearing, ClearingId,
    Currency, Cursor, Date, Draft, Entry, EntryBatch, EntryId, IdempotencyKey, Journal,
    JournalError, Layer, LedgerId, LogIndex, Period, PeriodId, PeriodState, Posting, PostingCursor,
    PostingPosition, PostingRef, SealedBalanceError, SealedBalanceOutcome, StoredEntry,
};

type Eur = Amount<2>;

fn day(year: i32, month: u8, day: u8) -> Date {
    Date::from_calendar_date(year, month, day).expect("a date of the calendar")
}

/// A journal with a cash account and a revenue account.
fn books() -> (Journal<2>, AccountId, AccountId) {
    let mut journal = Journal::<2>::new(LedgerId::new("test-ledger").expect("valid"));
    let cash = journal
        .accounts_mut()
        .register_path("Assets:Cash", day(2026, 1, 1))
        .expect("registers");
    let revenue = journal
        .accounts_mut()
        .register_path("Income:Sales", day(2026, 1, 1))
        .expect("registers");
    (journal, cash, revenue)
}

fn sale(
    journal: &Journal<2>,
    accounts: (AccountId, AccountId),
    key: &str,
    minor: i64,
    on: Date,
) -> Entry<Balanced, 2> {
    Entry::<Draft, 2>::new(
        EntryId::generate(),
        IdempotencyKey::new(key.as_bytes().to_vec()).expect("valid"),
        on,
    )
    .debit(accounts.0, Eur::from_minor(minor), Currency::eur())
    .credit(accounts.1, Eur::from_minor(minor), Currency::eur())
    .seal(&journal.context())
    .expect("balances")
}

fn on(account: AccountId) -> BalanceKey {
    BalanceKey {
        account,
        currency: Currency::eur(),
        layer: Layer::Settled,
    }
}

#[test]
fn a_batch_needs_at_least_one_entry() {
    let empty: Vec<Entry<Balanced, 2>> = Vec::new();
    assert_eq!(EntryBatch::new(empty), Err(BatchError::Empty));
}

#[test]
fn cursor_limits_are_clamped() {
    assert_eq!(Cursor::start().effective_limit(), DEFAULT_PAGE_SIZE);
    assert_eq!(Cursor::start().with_limit(0).effective_limit(), 1);
    assert_eq!(
        Cursor::start().with_limit(usize::MAX).effective_limit(),
        MAX_PAGE_SIZE
    );
}

#[test]
fn a_sealed_balance_is_provable_and_nameable_long_after_the_books_move_on() {
    // A seal commits to the registry as it stood when the seal was taken. The
    // proof has to be made against that registry, whatever the registry has
    // become since.
    let (mut journal, cash, revenue) = books();

    let entry = Entry::<Draft, 2>::new(
        EntryId::generate(),
        IdempotencyKey::new(b"mar".to_vec()).expect("valid"),
        day(2026, 3, 10),
    )
    .debit(cash, Amount::<2>::from_minor(119_000), Currency::eur())
    .credit(revenue, Amount::<2>::from_minor(119_000), Currency::eur());

    let march = PeriodId::new("2026-03").expect("valid");
    journal
        .define_period(
            Period::new(march.clone(), day(2026, 3, 1), day(2026, 3, 31)).expect("valid range"),
        )
        .expect("defines");

    let sealed = entry.seal(&journal.context()).expect("balances");
    let batch = EntryBatch::single(sealed);
    journal
        .record_batch(batch.entries().to_vec())
        .expect("appends");

    // Sealing March in April is the normal case, so the log already holds a
    // later entry when the seal is taken — which is exactly why folding by
    // log prefix reconstructs the wrong commitment.
    let april = Entry::<Draft, 2>::new(
        EntryId::generate(),
        IdempotencyKey::new(b"apr".to_vec()).expect("valid"),
        day(2026, 4, 5),
    )
    .debit(cash, Amount::<2>::from_minor(7_777), Currency::eur())
    .credit(revenue, Amount::<2>::from_minor(7_777), Currency::eur())
    .seal(&journal.context())
    .expect("balances");
    journal
        .record_batch(EntryBatch::single(april).entries().to_vec())
        .expect("appends");

    journal
        .transition_period(&march, PeriodState::Closing)
        .expect("ok");
    let seal = journal.seal_period(&march).expect("seals");

    // Now the books move on, in every way that touches the registry.
    journal
        .accounts_mut()
        .register_path("Assets:Bank", day(2026, 5, 1))
        .expect("registers");
    journal
        .accounts_mut()
        .close(cash, day(2026, 5, 31))
        .expect("registered");
    journal
        .accounts_mut()
        .set_limit(revenue, BalanceLimit::NoDebitBalance)
        .expect("registered");

    let key = BalanceKey {
        account: cash,
        currency: Currency::eur(),
        layer: Layer::Settled,
    };
    let proven = journal
        .prove_sealed_balance(&march, key)
        .expect("the seal still describes these books")
        .into_proven()
        .expect("cash has a row in the closing trial balance");

    assert!(proven.verify(), "the complete claim must check out");
    assert_eq!(proven.path().to_string(), "Assets:Cash");
    assert_eq!(
        proven.balance.balance.debits,
        Amount::<2>::from_minor(119_000)
    );
    assert_eq!(proven.seal.seal_hash, seal.seal_hash);

    // A registered account with no row is not a fabricated zero: absence and a
    // zero balance are different claims.
    let no_row = BalanceKey {
        account: cash,
        currency: Currency::usd(),
        layer: Layer::Settled,
    };
    assert_eq!(
        journal
            .prove_sealed_balance(&march, no_row)
            .expect("no error"),
        SealedBalanceOutcome::NoRow
    );

    // An account onboarded *after* the seal is a different answer again — that
    // seal cannot name a handle the registry had not yet issued.
    let later = BalanceKey {
        account: AccountId::from_index(2),
        currency: Currency::eur(),
        layer: Layer::Settled,
    };
    assert_eq!(
        journal
            .prove_sealed_balance(&march, later)
            .expect("no error"),
        SealedBalanceOutcome::NotYetRegistered
    );

    // An unsealed period has nothing to prove.
    let missing = PeriodId::new("2026-09").expect("valid");
    assert!(matches!(
        journal.prove_sealed_balance(&missing, key),
        Err(JournalError::SealedBalance(
            SealedBalanceError::NotSealed { .. }
        ))
    ));
}

#[test]
fn paging_a_statement_never_splits_a_posting_off_its_entry() {
    // One entry may put several postings on one account — a split receipt
    // booked as three lines against one credit is ordinary. A page may end
    // inside an entry, and the next one resumes inside it.
    let (mut journal, cash, revenue) = books();

    let entry = Entry::<Draft, 2>::new(
        EntryId::generate(),
        IdempotencyKey::new(b"split".to_vec()).expect("valid"),
        day(2026, 3, 10),
    )
    .post(Posting::debit(
        cash,
        Amount::<2>::from_minor(100),
        Currency::eur(),
    ))
    .post(Posting::debit(
        cash,
        Amount::<2>::from_minor(200),
        Currency::eur(),
    ))
    .post(Posting::debit(
        cash,
        Amount::<2>::from_minor(300),
        Currency::eur(),
    ))
    .post(Posting::credit(
        revenue,
        Amount::<2>::from_minor(600),
        Currency::eur(),
    ))
    .seal(&journal.context())
    .expect("balances");
    journal
        .record_batch(EntryBatch::single(entry).entries().to_vec())
        .expect("appends");

    let key = BalanceKey {
        account: cash,
        currency: Currency::eur(),
        layer: Layer::Settled,
    };
    let whole = read_statement(&journal, &key, PostingCursor::start())
        .expect("reads")
        .lines;
    assert_eq!(whole.len(), 3, "three postings hit this account");

    // Every page size must reproduce the one-page answer exactly, running
    // balances included — the boundary lands mid-entry at size 1 and 2.
    for limit in 1..=4usize {
        let mut paged = Vec::new();
        let mut cursor = Some(PostingCursor::start().with_limit(limit));
        while let Some(c) = cursor {
            let page = read_statement(&journal, &key, c).expect("reads");
            assert!(
                !page.lines.is_empty() || page.next.is_none(),
                "an empty page handed back another cursor"
            );
            paged.extend(page.lines);
            cursor = page.next;
        }
        assert_eq!(paged, whole, "paging at limit {limit} diverged");
    }

    // And the running balance is cumulative from the start of the account,
    // not restarted at each page.
    assert_eq!(whole[0].running.debits, Amount::<2>::from_minor(100));
    assert_eq!(whole[1].running.debits, Amount::<2>::from_minor(300));
    assert_eq!(whole[2].running.debits, Amount::<2>::from_minor(600));
}

fn accepts_only_balanced<const P: u8>(entries: Vec<Entry<Balanced, P>>) -> usize {
    entries.len()
}

#[test]
fn drafts_are_not_storable() {
    // Compile-time note: `EntryBatch` takes `Entry<Balanced, P>`, so a draft
    // cannot reach a store without passing validation first.
    assert_eq!(accepts_only_balanced::<2>(Vec::new()), 0);
    let _ = std::marker::PhantomData::<Entry<Draft, 2>>;
}

// ── cursors and pages ───────────────────────────────────────────────────

#[test]
fn a_batch_keeps_its_entries_in_order() {
    let (journal, cash, revenue) = books();
    let first = sale(&journal, (cash, revenue), "a", 1, day(2026, 3, 1));
    let second = sale(&journal, (cash, revenue), "b", 2, day(2026, 3, 1));
    let batch = EntryBatch::new(vec![first.clone(), second.clone()]).expect("not empty");
    assert_eq!(batch.len(), 2);
    assert!(!batch.is_empty());
    assert_eq!(batch.entries(), &[first, second]);
}

#[test]
fn a_cursor_resumes_after_the_index_it_names() {
    let cursor = Cursor::after(LogIndex::new(4)).with_limit(3);
    assert_eq!(cursor.after, Some(LogIndex::new(4)));
    assert_eq!(cursor.limit, 3);
    assert_eq!(Cursor::default(), Cursor::start());

    let position = PostingPosition::new(LogIndex::new(4), 2);
    let cursor = PostingCursor::after(position);
    assert_eq!(cursor.after, Some(position));
    assert_eq!(cursor.effective_limit(), DEFAULT_PAGE_SIZE);
    assert_eq!(cursor.with_limit(0).effective_limit(), 1);
    assert_eq!(
        cursor.with_limit(MAX_PAGE_SIZE + 1).effective_limit(),
        MAX_PAGE_SIZE
    );
    assert_eq!(PostingCursor::default(), PostingCursor::start());
}

#[test]
fn a_page_of_the_log_stops_at_the_limit_and_says_where_to_resume() {
    let (mut journal, cash, revenue) = books();
    for i in 0..7 {
        let entry = sale(
            &journal,
            (cash, revenue),
            &format!("k{i}"),
            10 + i,
            day(2026, 3, 1),
        );
        journal.record_validated(entry).expect("records");
    }

    let page = read_page(&journal, Cursor::start().with_limit(3));
    assert_eq!(page.records.len(), 3);
    assert_eq!(page.next, Some(Cursor::after(LogIndex::new(2)).with_limit(3)));
    assert_eq!(page.records[1].index, Some(LogIndex::new(1)));
    assert_eq!(&page.records[1].entry, &journal.entries()[1]);
    assert_eq!(
        page.records[1].content_hash,
        journal.entries()[1].content_hash()
    );

    // The last page ends the walk, whether or not it is full.
    assert_eq!(
        read_page(&journal, Cursor::after(LogIndex::new(5)).with_limit(3)).next,
        None
    );
    let beyond = read_page(&journal, Cursor::after(LogIndex::new(u64::MAX)));
    assert!(beyond.is_empty());
    assert_eq!(beyond.next, None);
}

#[test]
fn the_pages_of_the_log_reproduce_it_at_every_size() {
    let (mut journal, cash, revenue) = books();
    for i in 0..9 {
        let entry = sale(
            &journal,
            (cash, revenue),
            &format!("k{i}"),
            10 + i,
            day(2026, 3, 1),
        );
        journal.record_validated(entry).expect("records");
    }
    let whole = read_page(&journal, Cursor::start()).records;
    assert_eq!(whole.len(), 9);
    for limit in 1..=10usize {
        let mut paged: Vec<StoredEntry<2>> = Vec::new();
        let mut cursor = Some(Cursor::start().with_limit(limit));
        while let Some(c) = cursor {
            let page = read_page(&journal, c);
            paged.extend(page.records);
            cursor = page.next;
        }
        assert_eq!(paged, whole, "paging at limit {limit} diverged");
    }
}

#[test]
fn an_entry_is_found_by_its_identifier() {
    let (mut journal, cash, revenue) = books();
    let entry = sale(&journal, (cash, revenue), "a", 10, day(2026, 3, 1));
    let id = entry.id();
    journal.record_validated(entry).expect("records");

    let found = find_entry(&journal, id).expect("recorded");
    assert_eq!(found.index, Some(LogIndex::new(0)));
    assert_eq!(found.entry.id(), id);
    assert_eq!(found.require_index(), Ok(LogIndex::new(0)));
    assert!(find_entry(&journal, EntryId::from_uuid(1)).is_none());

    let unsequenced = StoredEntry {
        index: None,
        entry: found.entry.clone(),
        content_hash: found.content_hash,
    };
    assert!(unsequenced.require_index().is_err());
}

#[test]
fn open_items_come_page_by_page_oldest_first() {
    let (mut journal, cash, revenue) = books();
    let mut ids = Vec::new();
    for i in 0..4 {
        let entry = sale(
            &journal,
            (cash, revenue),
            &format!("k{i}"),
            100,
            day(2026, 3, 1),
        );
        ids.push(entry.id());
        journal.record_validated(entry).expect("records");
    }
    // A payment settles the second sale in full.
    let payment = Entry::<Draft, 2>::new(
        EntryId::generate(),
        IdempotencyKey::new(b"payment".to_vec()).expect("valid"),
        day(2026, 3, 2),
    )
    .credit(cash, Eur::from_minor(100), Currency::eur())
    .debit(revenue, Eur::from_minor(100), Currency::eur());
    let payment = journal.record(payment).expect("records").id;
    journal
        .clear(
            Clearing::new(ClearingId::generate(), on(cash), day(2026, 3, 2))
                .apply(PostingRef::new(ids[1], 0), Eur::from_minor(100))
                .apply(PostingRef::new(payment, 0), Eur::from_minor(100)),
        )
        .expect("clears");

    let whole = read_open_items(&journal, &on(cash), PostingCursor::start())
        .expect("reads")
        .items;
    assert_eq!(
        whole.iter().map(|i| i.posting.entry).collect::<Vec<_>>(),
        vec![ids[0], ids[2], ids[3]]
    );
    let first = read_open_items(&journal, &on(cash), PostingCursor::start().with_limit(2))
        .expect("reads");
    assert!(!first.is_empty());
    assert_eq!(
        first.next,
        Some(PostingCursor::after(PostingPosition::new(LogIndex::new(2), 0)).with_limit(2))
    );
    let mut paged = first.items;
    paged.extend(
        read_open_items(&journal, &on(cash), first.next.expect("more follows"))
            .expect("reads")
            .items,
    );
    assert_eq!(paged, whole);
}

#[test]
fn several_balances_are_read_at_once() {
    let (mut journal, cash, revenue) = books();
    for i in 0..2 {
        let entry = sale(
            &journal,
            (cash, revenue),
            &format!("k{i}"),
            100,
            day(2026, 3, 1),
        );
        journal.record_validated(entry).expect("records");
    }
    let quiet = AccountId::from_index(9);
    let found = read_balances(
        &journal,
        &[revenue, quiet, cash],
        Currency::eur(),
        Layer::Settled,
        None,
    )
    .expect("reads");
    assert_eq!(found.len(), 2, "an account without postings is absent");
    assert_eq!(found[0].0, revenue);
    assert_eq!(found[0].1.credits, Eur::from_minor(200));
    assert_eq!(found[1].0, cash);
    assert_eq!(found[1].1.debits, Eur::from_minor(200));

    let earlier = read_balances(&journal, &[cash], Currency::eur(), Layer::Settled, Some(1))
        .expect("reads");
    assert_eq!(earlier[0].1.debits, Eur::from_minor(100));
}
