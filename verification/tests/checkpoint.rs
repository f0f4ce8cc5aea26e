//! Checkpoints and balance assertions.

use doubleentry::{
    AccountId, Amount, AssertAt, AssertionOutcome, Balance, BalanceAssertion, BalanceKey,
    Checkpoint, Currency, Date, Digest, Direction, Layer, TreeHead,
};

fn day(year: i32, month: u8, day: u8) -> Date {
    Date::from_calendar_date(year, month, day).expect("a date of the calendar")
}

type Eur = Amount<2>;

fn key() -> BalanceKey {
    BalanceKey {
        account: AccountId::from_index(0),
        currency: Currency::eur(),
        layer: Layer::Settled,
    }
}

fn balance(debits: i64, credits: i64) -> Balance<2> {
    let mut b = Balance::<2>::zero();
    b.add(Direction::Debit, Eur::from_minor(debits))
        .expect("ok");
    b.add(Direction::Credit, Eur::from_minor(credits))
        .expect("ok");
    b
}

fn head(size: u64, byte: u8) -> TreeHead {
    TreeHead {
        size,
        root: Digest::from_bytes([byte; 32]),
    }
}

#[test]
fn an_assertion_that_matches_holds() {
    let a = BalanceAssertion::net(key(), Eur::from_minor(100));
    let outcome = a.check(&balance(100, 0)).expect("ok");
    assert!(outcome.held());
}

#[test]
fn an_assertion_reports_the_difference_when_it_fails() {
    let a = BalanceAssertion::net(key(), Eur::from_minor(100));
    let outcome = a.check(&balance(130, 0)).expect("ok");
    assert_eq!(
        outcome,
        AssertionOutcome::Failed {
            expected: Eur::from_minor(100),
            actual: Eur::from_minor(130),
            difference: Eur::from_minor(30),
        }
    );
    assert!(!outcome.held());
}

#[test]
fn an_assertion_matches_the_net_not_the_gross() {
    // 500 in each direction nets to zero, which is what a statement reports.
    let a = BalanceAssertion::net(key(), Eur::zero());
    assert!(a.check(&balance(500, 500)).expect("ok").held());
}

#[test]
fn a_credit_side_assertion_is_a_negative_net() {
    let a =
        BalanceAssertion::on_side(key(), Direction::Credit, Eur::from_minor(250)).expect("ok");
    assert_eq!(a.expected, Eur::from_minor(-250));
    assert!(a.check(&balance(0, 250)).expect("ok").held());
}

#[test]
fn a_debit_side_assertion_is_a_positive_net() {
    let a =
        BalanceAssertion::on_side(key(), Direction::Debit, Eur::from_minor(250)).expect("ok");
    assert_eq!(a.expected, Eur::from_minor(250));
    assert!(a.check(&balance(250, 0)).expect("ok").held());
}

#[test]
fn a_checkpoint_knows_which_history_it_belongs_to() {
    let cp = Checkpoint::new(key(), balance(100, 0), head(10, 1));
    assert_eq!(
        cp.size(),
        10,
        "the head names the prefix; nothing else does"
    );
    assert!(cp.matches_head(&head(10, 1)));
    // Same size, different contents: a rewritten history.
    assert!(!cp.matches_head(&head(10, 2)));
    // Same contents, different size: the log has grown.
    assert!(!cp.matches_head(&head(11, 1)));
}

#[test]
fn an_assertion_carries_the_point_it_is_about() {
    let a = BalanceAssertion::net(key(), Eur::from_minor(100));
    assert_eq!(a.at, AssertAt::Now);
    assert_eq!(a.over_prefix(0).at, AssertAt::Prefix { size: 0 });
    assert_eq!(
        a.on_date(day(2026, 3, 31)).at,
        AssertAt::OnDate {
            date: day(2026, 3, 31)
        }
    );
}

#[test]
fn assertion_display_is_operator_readable() {
    let a = BalanceAssertion::net(key(), Eur::from_minor(100));
    let failed = a.check(&balance(130, 0)).expect("ok");
    assert_eq!(
        failed.to_string(),
        "failed: expected 1.00, found 1.30, off by 0.30"
    );
}

// ── edges ───────────────────────────────────────────────────────────────

#[test]
fn an_assertion_that_holds_says_so() {
    let a = BalanceAssertion::net(key(), Eur::from_minor(100));
    let held = a.check(&balance(100, 0)).expect("ok");
    assert_eq!(
        held,
        AssertionOutcome::Held {
            actual: balance(100, 0)
        }
    );
    assert_eq!(held.to_string(), "held (debits 1.00, credits 0.00)");
}

#[test]
fn a_difference_that_does_not_fit_is_reported() {
    let a = BalanceAssertion::net(key(), Eur::from_minor(-2));
    assert!(a.check(&balance(i64::MAX, 0)).is_err());
    assert!(BalanceAssertion::on_side(key(), Direction::Credit, Eur::min()).is_err());
    assert!(BalanceAssertion::on_side(key(), Direction::Debit, Eur::min()).is_ok());
}
