//! Balances and trial balances.

use doubleentry::{
    AccountId, Amount, Balance, BalanceKey, Currency, Direction, Layer, MoneyError, Posting,
    TrialBalance,
};

type Eur = Amount<2>;

fn acct(i: u32) -> AccountId {
    AccountId::from_index(i)
}

#[test]
fn tracks_gross_totals_separately_from_the_net() {
    let mut b = Balance::<2>::zero();
    b.add(Direction::Debit, Eur::from_minor(1000))
        .expect("no overflow");
    b.add(Direction::Credit, Eur::from_minor(1000))
        .expect("no overflow");

    // The net is zero, but a thousand moved in each direction.
    assert_eq!(b.signed_net().expect("no overflow"), Eur::zero());
    assert_eq!(b.debits, Eur::from_minor(1000));
    assert_eq!(b.credits, Eur::from_minor(1000));
    assert!(b.is_balanced());
    assert!(!b.is_empty());
}

#[test]
fn distinguishes_no_activity_from_offsetting_activity() {
    let quiet = Balance::<2>::zero();
    let mut busy = Balance::<2>::zero();
    busy.add(Direction::Debit, Eur::from_minor(500))
        .expect("no overflow");
    busy.add(Direction::Credit, Eur::from_minor(500))
        .expect("no overflow");

    assert_eq!(
        quiet.signed_net().expect("ok"),
        busy.signed_net().expect("ok")
    );
    assert_ne!(quiet, busy);
    assert!(quiet.is_empty());
    assert!(!busy.is_empty());
}

#[test]
fn net_reports_the_dominant_side() {
    let mut b = Balance::<2>::zero();
    b.add(Direction::Debit, Eur::from_minor(300)).expect("ok");
    b.add(Direction::Credit, Eur::from_minor(100)).expect("ok");
    assert_eq!(
        b.net().expect("ok"),
        (Direction::Debit, Eur::from_minor(200))
    );

    let mut c = Balance::<2>::zero();
    c.add(Direction::Credit, Eur::from_minor(300)).expect("ok");
    c.add(Direction::Debit, Eur::from_minor(100)).expect("ok");
    assert_eq!(
        c.net().expect("ok"),
        (Direction::Credit, Eur::from_minor(200))
    );
}

#[test]
fn balance_addition_reports_overflow() {
    let mut b = Balance::<2>::zero();
    b.add(Direction::Debit, Eur::max()).expect("ok");
    assert_eq!(
        b.add(Direction::Debit, Eur::from_minor(1)),
        Err(MoneyError::Overflow)
    );
}

#[test]
fn trial_balance_separates_account_currency_and_layer() {
    let mut tb = TrialBalance::<2>::new();
    tb.apply(&Posting::debit(
        acct(0),
        Eur::from_minor(100),
        Currency::eur(),
    ))
    .expect("ok");
    tb.apply(&Posting::debit(
        acct(0),
        Eur::from_minor(100),
        Currency::usd(),
    ))
    .expect("ok");
    tb.apply(
        &Posting::debit(acct(0), Eur::from_minor(100), Currency::eur()).in_layer(Layer::Pending),
    )
    .expect("ok");
    assert_eq!(tb.len(), 3);
    assert_eq!(tb.currencies(), vec![Currency::eur(), Currency::usd()]);
}

#[test]
fn trial_balance_totals_match_for_a_balanced_set() {
    let mut tb = TrialBalance::<2>::new();
    tb.apply(&Posting::debit(
        acct(0),
        Eur::from_minor(250),
        Currency::eur(),
    ))
    .expect("ok");
    tb.apply(&Posting::credit(
        acct(1),
        Eur::from_minor(250),
        Currency::eur(),
    ))
    .expect("ok");
    let totals = tb.totals(Currency::eur(), Layer::Settled).expect("ok");
    assert!(totals.is_balanced());
    assert_eq!(totals.debits, Eur::from_minor(250));
}

#[test]
fn missing_keys_read_as_zero() {
    let tb = TrialBalance::<2>::new();
    let key = BalanceKey {
        account: acct(7),
        currency: Currency::eur(),
        layer: Layer::Settled,
    };
    assert_eq!(tb.get(&key), None);
    assert_eq!(tb.get_or_zero(&key), Balance::zero());
}

#[test]
fn iteration_order_is_deterministic() {
    let build = || {
        let mut tb = TrialBalance::<2>::new();
        for i in [3u32, 1, 2, 0] {
            tb.apply(&Posting::debit(acct(i), Eur::from_minor(1), Currency::eur()))
                .expect("ok");
        }
        tb.iter().iter().map(|(k, _)| k.account).collect::<Vec<_>>()
    };
    assert_eq!(build(), build());
    assert_eq!(
        build(),
        vec![acct(0), acct(1), acct(2), acct(3)],
        "keys must iterate in account order"
    );
}

// ── edges ───────────────────────────────────────────────────────────────

fn key(account: u32, currency: Currency, layer: Layer) -> BalanceKey {
    BalanceKey {
        account: acct(account),
        currency,
        layer,
    }
}

#[test]
fn balances_add_side_by_side() {
    let mut a = Balance::<2>::zero();
    a.add(Direction::Debit, Eur::from_minor(5)).expect("ok");
    let mut b = Balance::<2>::zero();
    b.add(Direction::Credit, Eur::from_minor(7)).expect("ok");
    let sum = a.checked_add(&b).expect("ok");
    assert_eq!(sum.debits, Eur::from_minor(5));
    assert_eq!(sum.credits, Eur::from_minor(7));
    assert_eq!(sum.net(), Ok((Direction::Credit, Eur::from_minor(2))));
    let full = Balance {
        debits: Eur::max(),
        credits: Eur::zero(),
    };
    assert_eq!(full.checked_add(&a), Err(MoneyError::Overflow));
    assert_eq!(Balance::<2>::default(), Balance::zero());
}

#[test]
fn a_net_that_does_not_fit_is_reported() {
    let wide = Balance::<2> {
        debits: Eur::max(),
        credits: Eur::from_minor(-1),
    };
    assert_eq!(wide.signed_net(), Err(MoneyError::Overflow));
    assert_eq!(wide.net(), Err(MoneyError::Overflow));
    assert_eq!(
        Balance::<2>::zero().net(),
        Ok((Direction::Debit, Eur::zero()))
    );
}

#[test]
fn an_overflowing_posting_leaves_the_trial_balance_alone() {
    let mut tb = TrialBalance::<2>::new();
    tb.apply(&Posting::debit(acct(0), Eur::max(), Currency::eur()))
        .expect("ok");
    let before = tb.clone();
    assert_eq!(
        tb.apply(&Posting::debit(acct(0), Eur::from_minor(1), Currency::eur())),
        Err(MoneyError::Overflow)
    );
    assert_eq!(tb, before);
    assert!(tb.same(&before));
}

#[test]
fn rows_are_set_removed_and_totalled() {
    let mut tb = TrialBalance::<2>::new();
    let one = Balance {
        debits: Eur::max(),
        credits: Eur::zero(),
    };
    tb.set(key(1, Currency::eur(), Layer::Settled), one);
    tb.set(key(0, Currency::eur(), Layer::Settled), one);
    tb.set(key(0, Currency::usd(), Layer::Pending), one);
    assert_eq!(
        tb.totals(Currency::eur(), Layer::Settled),
        Err(MoneyError::Overflow)
    );
    assert_eq!(tb.totals(Currency::usd(), Layer::Pending), Ok(one));
    assert_eq!(
        tb.totals(Currency::usd(), Layer::Settled),
        Ok(Balance::zero())
    );
    assert_eq!(
        tb.remove(&key(1, Currency::eur(), Layer::Settled)),
        Some(one)
    );
    assert_eq!(tb.remove(&key(1, Currency::eur(), Layer::Settled)), None);
    assert_eq!(
        tb.iter(),
        vec![
            (key(0, Currency::eur(), Layer::Settled), one),
            (key(0, Currency::usd(), Layer::Pending), one)
        ]
    );
    assert!(!tb.is_empty() && TrialBalance::<2>::default().is_empty());
}
