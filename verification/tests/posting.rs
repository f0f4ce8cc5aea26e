//! Postings: sides, layers and their encoding.

use doubleentry::{AccountId, Amount, Canonical, Currency, Direction, Layer, Posting};

type Eur = Amount<2>;

fn account() -> AccountId {
    // Handles are opaque to postings; any value works for these tests.
    AccountId::from_index(0)
}

#[test]
fn direction_inverts() {
    assert_eq!(Direction::Debit.inverse(), Direction::Credit);
    assert_eq!(Direction::Credit.inverse(), Direction::Debit);
    assert!(Direction::Debit.is_debit());
    assert!(Direction::Credit.is_credit());
}

#[test]
fn signed_contribution_follows_direction() {
    let d = Posting::<2>::debit(account(), Eur::from_minor(100), Currency::eur());
    let c = Posting::<2>::credit(account(), Eur::from_minor(100), Currency::eur());
    assert_eq!(d.signed().expect("no overflow"), Eur::from_minor(100));
    assert_eq!(c.signed().expect("no overflow"), Eur::from_minor(-100));
}

#[test]
fn inverting_flips_the_side_and_keeps_the_magnitude() {
    let p = Posting::<2>::debit(account(), Eur::from_minor(250), Currency::eur());
    let inv = p.inverted();
    assert_eq!(inv.direction, Direction::Credit);
    assert_eq!(inv.amount, p.amount);
    assert_eq!(inv.account, p.account);
}

#[test]
fn inverting_twice_is_the_identity() {
    let p = Posting::<2>::credit(account(), Eur::from_minor(7), Currency::eur())
        .in_layer(Layer::Pending);
    assert_eq!(p.inverted().inverted(), p);
}

#[test]
fn default_layer_is_settled() {
    let p = Posting::<2>::debit(account(), Eur::from_minor(1), Currency::eur());
    assert_eq!(p.layer, Layer::Settled);
}

#[test]
fn encoding_distinguishes_direction() {
    let d = Posting::<2>::debit(account(), Eur::from_minor(100), Currency::eur());
    let c = Posting::<2>::credit(account(), Eur::from_minor(100), Currency::eur());
    assert_ne!(d.to_canonical_bytes(), c.to_canonical_bytes());
}

#[test]
fn encoding_distinguishes_layer_and_currency() {
    let base = Posting::<2>::debit(account(), Eur::from_minor(100), Currency::eur());
    let pending = base.clone().in_layer(Layer::Pending);
    let usd = Posting::<2>::debit(account(), Eur::from_minor(100), Currency::usd());
    assert_ne!(base.to_canonical_bytes(), pending.to_canonical_bytes());
    assert_ne!(base.to_canonical_bytes(), usd.to_canonical_bytes());
}

// ── edges ───────────────────────────────────────────────────────────────

#[test]
fn a_posting_encodes_field_by_field() {
    let p = Posting::<2>::credit(AccountId::from_index(7), Eur::from_minor(-2), Currency::eur())
        .in_layer(Layer::Pending);
    let mut expected = vec![7, 0, 0, 0, 1];
    expected.extend_from_slice(&(-2i64).to_le_bytes());
    expected.extend_from_slice(b"EUR");
    expected.extend_from_slice(&[1, 0, 0, 0, 0]);
    assert_eq!(p.to_canonical_bytes(), expected);
}

#[test]
fn a_credit_of_the_smallest_amount_has_no_sign_to_turn() {
    let p = Posting::<2>::credit(account(), Eur::min(), Currency::eur());
    assert!(p.signed().is_err());
    assert_eq!(
        Posting::<2>::debit(account(), Eur::min(), Currency::eur()).signed(),
        Ok(Eur::min())
    );
    assert_eq!(Direction::Debit.name(), "debit");
    assert_eq!(Direction::Credit.name(), "credit");
    assert_eq!(Layer::default().name(), "settled");
    assert_eq!(Layer::Pending.name(), "pending");
}
