//! Amounts: decimal text, checked arithmetic and splits that lose nothing.

use doubleentry::{Amount, Currency, MoneyError};

type Eur = Amount<2>;

#[test]
fn parses_and_displays_round_trip() {
    for s in ["0.00", "1.00", "-1.23", "1234.56", "0.07"] {
        let a = Eur::parse(s).expect("parses");
        assert_eq!(a.to_string(), s, "round trip for {s}");
    }
}

#[test]
fn parse_accepts_shorter_fraction() {
    assert_eq!(Eur::parse("1.5").expect("parses"), Eur::from_minor(150));
    assert_eq!(Eur::parse("1").expect("parses"), Eur::from_minor(100));
}

#[test]
fn parse_rejects_excess_precision() {
    assert_eq!(
        Eur::parse("1.234"),
        Err(MoneyError::PrecisionLoss { scale: 2 })
    );
}

#[test]
fn parse_allows_insignificant_trailing_zeros() {
    assert_eq!(Eur::parse("1.2300").expect("parses"), Eur::from_minor(123));
}

#[test]
fn parse_rejects_garbage() {
    for s in ["", "abc", "1.2.3", "-", "1,5"] {
        assert!(Eur::parse(s).is_err(), "should reject {s:?}");
    }
}

#[test]
fn arithmetic_reports_overflow_instead_of_panicking() {
    assert_eq!(
        Eur::max().checked_add(Eur::from_minor(1)),
        Err(MoneyError::Overflow)
    );
    assert_eq!(Eur::min().checked_neg(), Err(MoneyError::Overflow));
    assert_eq!(Eur::min().checked_abs(), Err(MoneyError::Overflow));
}

#[test]
fn distribute_conserves_the_total() {
    let total = Eur::from_minor(100);
    let parts = total.distribute(3).expect("splits");
    assert_eq!(parts.len(), 3);
    assert_eq!(
        Eur::checked_sum(&parts).expect("sums"),
        total
    );
}

#[test]
fn distribute_gives_leftover_to_leading_parts() {
    let parts = Eur::from_minor(100).distribute(3).expect("splits");
    assert_eq!(
        parts,
        vec![
            Eur::from_minor(34),
            Eur::from_minor(33),
            Eur::from_minor(33)
        ]
    );
}

#[test]
fn allocate_uses_largest_remainder() {
    // 0.05 split 1:1:1 gives remainders that must land on the first two parts.
    let parts = Eur::from_minor(5).allocate(&[1, 1, 1]).expect("splits");
    assert_eq!(
        parts,
        vec![Eur::from_minor(2), Eur::from_minor(2), Eur::from_minor(1)]
    );
}

#[test]
fn allocate_respects_weights() {
    let parts = Eur::from_minor(1000).allocate(&[1, 4]).expect("splits");
    assert_eq!(parts, vec![Eur::from_minor(200), Eur::from_minor(800)]);
}

#[test]
fn allocate_conserves_negative_totals() {
    let total = Eur::from_minor(-100);
    let parts = total.allocate(&[1, 1, 1]).expect("splits");
    assert_eq!(
        Eur::checked_sum(&parts).expect("sums"),
        total
    );
}

#[test]
fn allocate_rejects_zero_weight() {
    assert_eq!(
        Eur::from_minor(100).allocate(&[0, 0]),
        Err(MoneyError::ZeroWeight)
    );
    assert_eq!(
        Eur::from_minor(100).allocate(&[]),
        Err(MoneyError::ZeroWeight)
    );
    assert_eq!(
        Eur::from_minor(100).distribute(0),
        Err(MoneyError::ZeroWeight)
    );
}

#[test]
fn currency_validates_code() {
    assert_eq!(Currency::new("EUR").expect("valid"), Currency::eur());
    assert!(Currency::new("eur").is_err());
    assert!(Currency::new("EU").is_err());
    assert!(Currency::new("EURO").is_err());
}

#[test]
fn currency_knows_minor_units() {
    assert_eq!(Currency::eur().minor_units(), Some(2));
    assert_eq!(Currency::jpy().minor_units(), Some(0));
    assert_eq!(Currency::new("XYZ").expect("valid").minor_units(), None);
}

#[test]
fn zero_scale_displays_as_integer() {
    assert_eq!(Amount::<0>::from_minor(1234).to_string(), "1234");
}

// ── edges ───────────────────────────────────────────────────────────────

#[test]
fn parse_reads_signs_spaces_and_missing_parts() {
    assert_eq!(Eur::parse("+1.50"), Ok(Eur::from_minor(150)));
    assert_eq!(Eur::parse(" -0.5\t"), Ok(Eur::from_minor(-50)));
    assert_eq!(Eur::parse(".5"), Ok(Eur::from_minor(50)));
    assert_eq!(Eur::parse("5."), Ok(Eur::from_minor(500)));
    assert_eq!(Eur::parse("-0"), Ok(Eur::zero()));
    assert_eq!(Eur::parse("000000000000000000000007"), Ok(Eur::from_minor(700)));
    assert_eq!(Eur::parse("\u{2003}2\u{2003}"), Ok(Eur::from_minor(200)));
}

#[test]
fn parse_reports_each_failure() {
    for s in ["", "  ", "+", ".", "-.", "+-5", "1 2", "٣"] {
        assert_eq!(Eur::parse(s), Err(MoneyError::InvalidLiteral), "{s:?}");
    }
    assert_eq!(
        Amount::<0>::parse("1.5"),
        Err(MoneyError::PrecisionLoss { scale: 0 })
    );
    assert_eq!(
        Eur::parse("92233720368547758.07"),
        Ok(Eur::from_minor(i64::MAX))
    );
    assert_eq!(Eur::parse("92233720368547758.08"), Err(MoneyError::Overflow));
    assert_eq!(
        Eur::parse("99999999999999999999"),
        Err(MoneyError::Overflow)
    );
}

#[test]
fn rendering_reads_back_except_for_the_smallest_amount() {
    for minor in [0, 1, -1, 99, -100, 12345, i64::MAX, -i64::MAX] {
        let amount = Eur::from_minor(minor);
        assert_eq!(Eur::parse(&amount.to_string()), Ok(amount));
    }
    assert_eq!(Eur::min().to_string(), "-92233720368547758.08");
    assert_eq!(
        Eur::parse(&Eur::min().to_string()),
        Err(MoneyError::Overflow)
    );
    assert_eq!(
        Amount::<18>::from_minor(-1).to_string(),
        "-0.000000000000000001"
    );
}

#[test]
fn major_units_scale_up() {
    assert_eq!(Eur::scale(), 100);
    assert_eq!(Amount::<0>::scale(), 1);
    assert_eq!(Amount::<18>::scale(), 1_000_000_000_000_000_000);
    assert_eq!(Eur::from_major(-12), Ok(Eur::from_minor(-1200)));
    assert_eq!(Eur::from_major(i64::MAX), Err(MoneyError::Overflow));
    assert_eq!(Amount::<18>::from_major(10), Err(MoneyError::Overflow));
}

#[test]
fn signs_are_told_apart() {
    assert!(Eur::zero().is_zero() && !Eur::zero().is_positive() && !Eur::zero().is_negative());
    assert!(Eur::from_minor(1).is_positive());
    assert!(Eur::from_minor(-1).is_negative());
    assert_eq!(Eur::from_minor(-7).checked_abs(), Ok(Eur::from_minor(7)));
    assert_eq!(
        Eur::from_minor(3).checked_sub(Eur::from_minor(5)),
        Ok(Eur::from_minor(-2))
    );
    assert_eq!(
        Eur::min().checked_sub(Eur::from_minor(1)),
        Err(MoneyError::Overflow)
    );
    assert_eq!(Eur::from_minor(42).to_minor(), 42);
    assert_eq!(Eur::default(), Eur::zero());
}

#[test]
fn a_sum_overflows_where_a_partial_sum_does() {
    let amounts = [Eur::max(), Eur::from_minor(1), Eur::from_minor(-1)];
    assert_eq!(Eur::checked_sum(&amounts), Err(MoneyError::Overflow));
    assert_eq!(Eur::checked_sum(&[]), Ok(Eur::zero()));
}

#[test]
fn leftovers_go_to_the_largest_remainders() {
    // 7 over 1:2:3 leaves remainders 1, 2 and 3 sixths: the last part gains.
    assert_eq!(
        Eur::from_minor(7).allocate(&[1, 2, 3]),
        Ok(vec![
            Eur::from_minor(1),
            Eur::from_minor(2),
            Eur::from_minor(4)
        ])
    );
    assert_eq!(
        Eur::from_minor(-7).allocate(&[1, 2, 3]),
        Ok(vec![
            Eur::from_minor(-1),
            Eur::from_minor(-2),
            Eur::from_minor(-4)
        ])
    );
    assert_eq!(
        Eur::from_minor(5).allocate(&[0, 1, 0]),
        Ok(vec![Eur::zero(), Eur::from_minor(5), Eur::zero()])
    );
}

#[test]
fn the_smallest_amount_splits_only_where_the_parts_fit() {
    assert_eq!(Eur::min().allocate(&[1]), Err(MoneyError::Overflow));
    assert_eq!(Eur::min().distribute(1), Err(MoneyError::Overflow));
    assert_eq!(
        Eur::min().distribute(2),
        Ok(vec![Eur::from_minor(i64::MIN / 2), Eur::from_minor(i64::MIN / 2)])
    );
}

#[test]
fn currencies_render_and_know_their_units() {
    assert_eq!(Currency::chf().code(), "CHF");
    assert_eq!(Currency::gbp().to_string(), "GBP");
    assert_eq!(Currency::usd().as_bytes(), *b"USD");
    assert_eq!(Currency::new("BHD").expect("valid").minor_units(), Some(3));
    assert_eq!(Currency::new("XPF").expect("valid").minor_units(), Some(0));
    assert_eq!(Currency::new("ZAR").expect("valid").minor_units(), Some(2));
    for bad in ["", "EÜR", "E R", "ÄÖ", "123"] {
        assert_eq!(Currency::new(bad), Err(MoneyError::InvalidCurrency), "{bad:?}");
    }
}
