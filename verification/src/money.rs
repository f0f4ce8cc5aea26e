//! Exact monetary arithmetic.
//!
//! [`Amount`] is a scaled integer carrying its precision as a const generic:
//! `Amount<2>` counts hundredths, `Amount<5>` counts hundred-thousandths. There
//! is no binary floating point anywhere in this module, and no decimal type whose
//! scale can vary at runtime — a value has exactly one representation, which is
//! what makes hashing a monetary amount meaningful.
//!
//! Every operation that can overflow is fallible. There are no panicking
//! arithmetic operators on [`Amount`]: `Add` and friends are deliberately not
//! implemented, because in a ledger an overflow is a condition to report, not a
//! process to abort.

use crate::ordered::{self, rank_bytes, Key, Rank};
use crate::sorting::{self, sort_triples};
use crate::text::{self, chars_of, push_decimal, push_text, trimmed};
use vstd::prelude::*;
use vstd::string::*;
use vstd::utf8::*;

verus! {

/// Failure in a monetary computation.
#[derive(Debug, Clone, Copy, PartialEq, Eq, Structural)]
#[non_exhaustive]
pub enum MoneyError {
    /// The result did not fit in the underlying representation.
    Overflow,
    /// A split was requested across zero parts, or with weights summing to zero.
    ZeroWeight,
    /// The value carried more precision than the target scale can represent.
    PrecisionLoss {
        /// The target scale.
        scale: u8,
    },
    /// A currency code was not three ASCII uppercase letters.
    InvalidCurrency,
    /// A decimal string could not be parsed at the target scale.
    InvalidLiteral,
}

// ── currencies ──────────────────────────────────────────────────────────────

/// An ISO 4217 currency code.
///
/// The code is validated as three ASCII uppercase letters. Minor-unit exponents
/// are known for the currencies commonly encountered; [`Currency::minor_units`]
/// returns `None` for the rest rather than guessing.
#[derive(Debug, Clone, Copy, PartialEq, Eq, Structural, PartialOrd, Ord, Hash)]
pub struct Currency {
    first: u8,
    second: u8,
    third: u8,
}

/// True for an ASCII uppercase letter.
pub open spec fn uppercase(c: u8) -> bool {
    65 <= c <= 90
}

/// True for a three-letter uppercase ASCII code.
pub open spec fn currency_code(code: Seq<u8>) -> bool {
    code.len() == 3 && uppercase(code[0]) && uppercase(code[1]) && uppercase(code[2])
}

/// The currencies whose minor unit is the major unit.
pub open spec fn zero_decimal_codes() -> Seq<Seq<char>> {
    seq!["JPY"@, "KRW"@, "ISK"@, "CLP"@, "VND"@, "XAF"@, "XOF"@, "XPF"@]
}

/// The currencies counted in thousandths.
pub open spec fn three_decimal_codes() -> Seq<Seq<char>> {
    seq!["BHD"@, "IQD"@, "JOD"@, "KWD"@, "LYD"@, "OMR"@, "TND"@]
}

/// The currencies counted in hundredths that the table covers.
pub open spec fn two_decimal_codes() -> Seq<Seq<char>> {
    seq![
        "EUR"@,
        "USD"@,
        "GBP"@,
        "CHF"@,
        "AUD"@,
        "CAD"@,
        "CNY"@,
        "CZK"@,
        "DKK"@,
        "HUF"@,
        "NOK"@,
        "NZD"@,
        "PLN"@,
        "RON"@,
        "SEK"@,
        "TRY"@,
        "ZAR"@,
    ]
}

impl View for Currency {
    type V = Seq<u8>;

    /// The three code bytes.
    closed spec fn view(&self) -> Seq<u8> {
        seq![self.first, self.second, self.third]
    }
}

impl Currency {
    #[verifier::type_invariant]
    spec fn is_code(self) -> bool {
        uppercase(self.first) && uppercase(self.second) && uppercase(self.third)
    }

    /// The code as text.
    pub open spec fn text(&self) -> Seq<char> {
        Seq::new(3, |i: int| self@[i] as char)
    }

    /// A currency is its code.
    pub proof fn lemma_code_determines(a: Currency, b: Currency)
        requires
            a@ == b@,
        ensures
            a == b,
    {
        assert(a@[0] == b@[0] && a@[1] == b@[1] && a@[2] == b@[2]);
    }

    /// A code has three bytes.
    pub broadcast proof fn lemma_code_len(&self)
        ensures
            #[trigger] self@.len() == 3,
    {
    }

    /// Euro.
    #[must_use]
    pub fn eur() -> (c: Self)
        ensures
            c@ == seq![69u8, 85u8, 82u8],
    {
        Currency { first: 69, second: 85, third: 82 }
    }

    /// US dollar.
    #[must_use]
    pub fn usd() -> (c: Self)
        ensures
            c@ == seq![85u8, 83u8, 68u8],
    {
        Currency { first: 85, second: 83, third: 68 }
    }

    /// Pound sterling.
    #[must_use]
    pub fn gbp() -> (c: Self)
        ensures
            c@ == seq![71u8, 66u8, 80u8],
    {
        Currency { first: 71, second: 66, third: 80 }
    }

    /// Swiss franc.
    #[must_use]
    pub fn chf() -> (c: Self)
        ensures
            c@ == seq![67u8, 72u8, 70u8],
    {
        Currency { first: 67, second: 72, third: 70 }
    }

    /// Japanese yen.
    #[must_use]
    pub fn jpy() -> (c: Self)
        ensures
            c@ == seq![74u8, 80u8, 89u8],
    {
        Currency { first: 74, second: 80, third: 89 }
    }

    /// Parses a three-letter ISO 4217 code.
    pub fn new(code: &str) -> (r: Result<Self, MoneyError>)
        ensures
            match r {
                Ok(c) => currency_code(encode_utf8(code@)) && c@ == encode_utf8(code@),
                Err(e) => !currency_code(encode_utf8(code@)) && e == MoneyError::InvalidCurrency,
            },
    {
        let bytes = code.as_bytes();
        if bytes.len() != 3 {
            return Err(MoneyError::InvalidCurrency);
        }
        let (a, b, c): (u8, u8, u8) = (bytes[0], bytes[1], bytes[2]);
        if !is_uppercase(a) || !is_uppercase(b) || !is_uppercase(c) {
            return Err(MoneyError::InvalidCurrency);
        }
        let currency = Currency { first: a, second: b, third: c };
        assert(currency@ =~= encode_utf8(code@));
        Ok(currency)
    }

    /// The three-letter code.
    #[must_use]
    pub fn code(&self) -> (s: String)
        ensures
            s@ == self.text(),
    {
        let mut s = String::new();
        s.push(self.first as char);
        s.push(self.second as char);
        s.push(self.third as char);
        assert(s@ =~= self.text());
        s
    }

    /// The raw code bytes, for canonical encoding.
    #[must_use]
    pub fn as_bytes(&self) -> (bytes: [u8; 3])
        ensures
            bytes@ == self@,
    {
        let bytes: [u8; 3] = [self.first, self.second, self.third];
        assert(bytes@ =~= self@);
        bytes
    }

    fn is(&self, code: &str) -> (r: bool)
        requires
            is_ascii_chars(code@),
            code@.len() == 3,
        ensures
            r == (self.text() == code@),
    {
        let bytes = code.as_bytes();
        proof {
            is_ascii_chars_encode_utf8(code@);
            use_type_invariant(self);
            assert(forall|i: int| 0 <= i < 3 ==> bytes@[i] == code@[i] as u8);
        }
        let same = bytes[0] == self.first && bytes[1] == self.second && bytes[2] == self.third;
        proof {
            if same {
                assert forall|i: int| 0 <= i < 3 implies self.text()[i] == code@[i] by {
                    assert(self@[i] == bytes@[i]);
                }
                assert(self.text() =~= code@);
            } else {
                if self.text() == code@ {
                    assert(self.text()[0] == code@[0]);
                    assert(self.text()[1] == code@[1]);
                    assert(self.text()[2] == code@[2]);
                }
            }
        }
        same
    }

    /// The number of decimal places in the currency's minor unit, when known.
    ///
    /// Returns `None` for codes this table does not cover; callers that need a
    /// scale should require one explicitly rather than defaulting to two.
    #[must_use]
    pub fn minor_units(&self) -> (units: Option<u8>)
        ensures
            units == (if zero_decimal_codes().contains(self.text()) {
                Some(0u8)
            } else if three_decimal_codes().contains(self.text()) {
                Some(3u8)
            } else if two_decimal_codes().contains(self.text()) {
                Some(2u8)
            } else {
                None
            }),
    {
        proof {
            reveal_strlit("JPY");
            reveal_strlit("KRW");
            reveal_strlit("ISK");
            reveal_strlit("CLP");
            reveal_strlit("VND");
            reveal_strlit("XAF");
            reveal_strlit("XOF");
            reveal_strlit("XPF");
            reveal_strlit("BHD");
            reveal_strlit("IQD");
            reveal_strlit("JOD");
            reveal_strlit("KWD");
            reveal_strlit("LYD");
            reveal_strlit("OMR");
            reveal_strlit("TND");
            reveal_strlit("EUR");
            reveal_strlit("USD");
            reveal_strlit("GBP");
            reveal_strlit("CHF");
            reveal_strlit("AUD");
            reveal_strlit("CAD");
            reveal_strlit("CNY");
            reveal_strlit("CZK");
            reveal_strlit("DKK");
            reveal_strlit("HUF");
            reveal_strlit("NOK");
            reveal_strlit("NZD");
            reveal_strlit("PLN");
            reveal_strlit("RON");
            reveal_strlit("SEK");
            reveal_strlit("TRY");
            reveal_strlit("ZAR");
        }
        if self.is("JPY") || self.is("KRW") || self.is("ISK") || self.is("CLP") || self.is("VND")
            || self.is("XAF") || self.is("XOF") || self.is("XPF") {
            proof {
                let t = zero_decimal_codes();
                assert(t[0] == "JPY"@ && t[1] == "KRW"@ && t[2] == "ISK"@ && t[3] == "CLP"@ && t[4]
                    == "VND"@ && t[5] == "XAF"@ && t[6] == "XOF"@ && t[7] == "XPF"@);
            }
            Some(0)
        } else if self.is("BHD") || self.is("IQD") || self.is("JOD") || self.is("KWD") || self.is(
            "LYD",
        ) || self.is("OMR") || self.is("TND") {
            proof {
                let t = three_decimal_codes();
                assert(t[0] == "BHD"@ && t[1] == "IQD"@ && t[2] == "JOD"@ && t[3] == "KWD"@ && t[4]
                    == "LYD"@ && t[5] == "OMR"@ && t[6] == "TND"@);
            }
            Some(3)
        } else if self.is("EUR") || self.is("USD") || self.is("GBP") || self.is("CHF") || self.is(
            "AUD",
        ) || self.is("CAD") || self.is("CNY") || self.is("CZK") || self.is("DKK") || self.is("HUF")
            || self.is("NOK") || self.is("NZD") || self.is("PLN") || self.is("RON") || self.is(
            "SEK",
        ) || self.is("TRY") || self.is("ZAR") {
            proof {
                let t = two_decimal_codes();
                assert(t[0] == "EUR"@ && t[1] == "USD"@ && t[2] == "GBP"@ && t[3] == "CHF"@ && t[4]
                    == "AUD"@ && t[5] == "CAD"@ && t[6] == "CNY"@ && t[7] == "CZK"@ && t[8]
                    == "DKK"@ && t[9] == "HUF"@ && t[10] == "NOK"@ && t[11] == "NZD"@ && t[12]
                    == "PLN"@ && t[13] == "RON"@ && t[14] == "SEK"@ && t[15] == "TRY"@ && t[16]
                    == "ZAR"@);
            }
            Some(2)
        } else {
            None
        }
    }

    /// The three-letter code.
    #[must_use]
    pub fn to_string(&self) -> (s: String)
        ensures
            s@ == self.text(),
    {
        self.code()
    }
}

impl Key for Currency {
    /// By code.
    open spec fn before(a: Seq<u8>, b: Seq<u8>) -> bool {
        ordered::bytes_before(a, b)
    }

    proof fn lemma_irreflexive(a: Seq<u8>) {
        ordered::lemma_bytes_irreflexive(a);
    }

    proof fn lemma_transitive(a: Seq<u8>, b: Seq<u8>, c: Seq<u8>) {
        ordered::lemma_bytes_transitive(a, b, c);
    }

    proof fn lemma_total(a: Seq<u8>, b: Seq<u8>) {
        ordered::lemma_bytes_total(a, b);
    }

    fn rank(&self, other: &Self) -> (r: Rank) {
        let a = self.as_bytes();
        let b = other.as_bytes();
        let first: &[u8] = a.as_slice();
        let second: &[u8] = b.as_slice();
        assert(first@ =~= self@ && second@ =~= other@);
        assert(Self::before(self@, other@) == ordered::bytes_before(self@, other@));
        rank_bytes(first, second)
    }
}

fn is_uppercase(c: u8) -> (r: bool)
    ensures
        r == uppercase(c),
{
    65 <= c && c <= 90
}

// ── scales ──────────────────────────────────────────────────────────────────

/// `10^exp`.
pub open spec fn ten_to(exp: nat) -> nat
    decreases exp,
{
    if exp == 0 {
        1
    } else {
        10 * ten_to((exp - 1) as nat)
    }
}

/// The number of minor units in one major unit at a scale. From scale 19 on it
/// would exceed `i64::MAX`, and saturates there.
pub open spec fn units_per_major(scale: nat) -> nat {
    if scale <= 18 {
        ten_to(scale)
    } else {
        i64::MAX as nat
    }
}

pub proof fn lemma_ten_to_18()
    ensures
        ten_to(18) == 1_000_000_000_000_000_000,
{
    reveal_with_fuel(ten_to, 19);
}

proof fn lemma_ten_to_grows(a: nat, b: nat)
    requires
        a <= b,
    ensures
        1 <= ten_to(a) <= ten_to(b),
    decreases b,
{
    if b > 0 {
        if a < b {
            lemma_ten_to_grows(a, (b - 1) as nat);
        } else {
            lemma_ten_to_grows((a - 1) as nat, (b - 1) as nat);
        }
    }
}

/// A major unit is between one minor unit and `i64::MAX` of them.
pub proof fn lemma_units_per_major(scale: nat)
    ensures
        1 <= units_per_major(scale) <= i64::MAX,
{
    if scale <= 18 {
        lemma_ten_to_18();
        lemma_ten_to_grows(scale, 18);
    }
}

/// `10^exp`, saturating at `i64::MAX`.
pub fn pow10(exp: u8) -> (p: i64)
    ensures
        p == units_per_major(exp as nat),
{
    if exp > 18 {
        return i64::MAX;
    }
    let mut acc: i64 = 1;
    let mut i: u8 = 0;
    while i < exp
        invariant
            i <= exp <= 18,
            acc == ten_to(i as nat),
        decreases exp - i,
    {
        proof {
            lemma_ten_to_18();
            lemma_ten_to_grows((i + 1) as nat, 18);
        }
        acc = acc * 10;
        i = i + 1;
    }
    acc
}

// ── amounts ─────────────────────────────────────────────────────────────────

/// An exact monetary magnitude with `P` decimal places.
///
/// The value is stored as an `i64` count of minor units at scale `P`. At `P = 2`
/// the representable range spans roughly ±9.2 × 10¹⁶ major units, which is ample
/// for both individual postings and cumulative balances.
#[derive(Debug, Clone, Copy, Eq, PartialOrd, Ord, Hash)]
pub struct Amount<const P: u8> {
    /// The count of minor units.
    pub minor: i64,
}

impl<const P: u8> PartialEq for Amount<P> {
    fn eq(&self, other: &Self) -> (same: bool) {
        self.minor == other.minor
    }
}

impl<const P: u8> vstd::std_specs::cmp::PartialEqSpecImpl for Amount<P> {
    open spec fn obeys_eq_spec() -> bool {
        true
    }

    open spec fn eq_spec(&self, other: &Self) -> bool {
        self.minor == other.minor
    }
}

impl<const P: u8> Default for Amount<P> {
    fn default() -> (a: Self)
        ensures
            a.minor == 0,
    {
        Amount { minor: 0 }
    }
}

/// The sum of some amounts, in minor units.
pub open spec fn sum_minor<const P: u8>(amounts: Seq<Amount<P>>) -> int
    decreases amounts.len(),
{
    if amounts.len() == 0 {
        0
    } else {
        sum_minor(amounts.drop_last()) + amounts.last().minor
    }
}

/// True when a sum and every partial sum before it fits an amount.
pub open spec fn sums_fit<const P: u8>(amounts: Seq<Amount<P>>) -> bool {
    forall|k: int|
        0 <= k <= amounts.len() ==> i64::MIN <= #[trigger] sum_minor(amounts.take(k)) <= i64::MAX
}

/// The amount of `minor` minor units, or an overflow when it does not fit.
pub open spec fn amount_or_overflow<const P: u8>(minor: int) -> Result<Amount<P>, MoneyError> {
    if i64::MIN <= minor <= i64::MAX {
        Ok(Amount { minor: minor as i64 })
    } else {
        Err(MoneyError::Overflow)
    }
}

impl<const P: u8> Amount<P> {
    /// Largest precision the `i64` representation can carry.
    ///
    /// `10^19` exceeds `i64::MAX`, so a scale above this cannot represent even
    /// one major unit.
    pub const MAX_PRECISION: u8 = 18;

    /// Zero.
    #[must_use]
    pub fn zero() -> (a: Self)
        ensures
            a.minor == 0,
    {
        Amount { minor: 0 }
    }

    /// The largest representable amount.
    #[must_use]
    pub fn max() -> (a: Self)
        ensures
            a.minor == i64::MAX,
    {
        Amount { minor: i64::MAX }
    }

    /// The smallest representable amount.
    #[must_use]
    pub fn min() -> (a: Self)
        ensures
            a.minor == i64::MIN,
    {
        Amount { minor: i64::MIN }
    }

    /// The number of minor units in one major unit, as `10^P`.
    #[must_use]
    pub fn scale() -> (units: i64)
        ensures
            units == units_per_major(P as nat),
    {
        pow10(P)
    }

    /// Wraps a raw count of minor units at scale `P`.
    ///
    /// A scale the representation cannot carry is not accepted: it would
    /// saturate [`Amount::scale`] and corrupt every conversion.
    #[must_use]
    pub fn from_minor(minor: i64) -> (a: Self)
        requires
            P <= Self::MAX_PRECISION,
        ensures
            a.minor == minor,
    {
        Amount { minor }
    }

    /// The raw count of minor units at scale `P`.
    #[must_use]
    pub fn to_minor(self) -> (minor: i64)
        ensures
            minor == self.minor,
    {
        self.minor
    }

    /// Builds an amount from a whole number of major units.
    pub fn from_major(n: i64) -> (r: Result<Self, MoneyError>)
        ensures
            r == amount_or_overflow::<P>(n * units_per_major(P as nat)),
    {
        match n.checked_mul(Self::scale()) {
            Some(minor) => Ok(Amount { minor }),
            None => Err(MoneyError::Overflow),
        }
    }

    /// True when the amount is exactly zero.
    #[must_use]
    pub fn is_zero(self) -> (r: bool)
        ensures
            r == (self.minor == 0),
    {
        self.minor == 0
    }

    /// True when the amount is strictly negative.
    #[must_use]
    pub fn is_negative(self) -> (r: bool)
        ensures
            r == (self.minor < 0),
    {
        self.minor < 0
    }

    /// True when the amount is strictly positive.
    #[must_use]
    pub fn is_positive(self) -> (r: bool)
        ensures
            r == (self.minor > 0),
    {
        self.minor > 0
    }

    /// Adds two amounts, reporting overflow.
    pub fn checked_add(self, rhs: Self) -> (r: Result<Self, MoneyError>)
        ensures
            r == amount_or_overflow::<P>(self.minor + rhs.minor),
    {
        match self.minor.checked_add(rhs.minor) {
            Some(minor) => Ok(Amount { minor }),
            None => Err(MoneyError::Overflow),
        }
    }

    /// Subtracts `rhs`, reporting overflow.
    pub fn checked_sub(self, rhs: Self) -> (r: Result<Self, MoneyError>)
        ensures
            r == amount_or_overflow::<P>(self.minor - rhs.minor),
    {
        match self.minor.checked_sub(rhs.minor) {
            Some(minor) => Ok(Amount { minor }),
            None => Err(MoneyError::Overflow),
        }
    }

    /// Negates, reporting overflow at [`Amount::min`].
    pub fn checked_neg(self) -> (r: Result<Self, MoneyError>)
        ensures
            r == amount_or_overflow::<P>(-self.minor),
    {
        if self.minor == i64::MIN {
            Err(MoneyError::Overflow)
        } else {
            Ok(Amount { minor: -self.minor })
        }
    }

    /// Absolute value, reporting overflow at [`Amount::min`].
    pub fn checked_abs(self) -> (r: Result<Self, MoneyError>)
        ensures
            r == amount_or_overflow::<P>(
                if self.minor < 0 {
                    -self.minor
                } else {
                    self.minor as int
                },
            ),
    {
        if self.minor < 0 {
            self.checked_neg()
        } else {
            Ok(self)
        }
    }

    /// Sums some amounts, reporting overflow of any partial sum.
    pub fn checked_sum(amounts: &[Self]) -> (r: Result<Self, MoneyError>)
        ensures
            match r {
                Ok(total) => sums_fit(amounts@) && total.minor == sum_minor(amounts@),
                Err(e) => !sums_fit(amounts@) && e == MoneyError::Overflow,
            },
    {
        let mut acc = Self::zero();
        let mut i: usize = 0;
        assert(amounts@.take(0) =~= Seq::empty());
        while i < amounts.len()
            invariant
                i <= amounts.len(),
                acc.minor == sum_minor(amounts@.take(i as int)),
                forall|k: int|
                    0 <= k <= i ==> i64::MIN <= #[trigger] sum_minor(amounts@.take(k)) <= i64::MAX,
            decreases amounts.len() - i,
        {
            assert(amounts@.take(i + 1).drop_last() =~= amounts@.take(i as int));
            assert(sum_minor(amounts@.take(i + 1)) == acc.minor + amounts@[i as int].minor);
            acc = match acc.checked_add(amounts[i]) {
                Ok(next) => next,
                Err(e) => {
                    return Err(e);
                },
            };
            i += 1;
        }
        assert(amounts@.take(amounts@.len() as int) =~= amounts@);
        Ok(acc)
    }
}

// ── proportional splits ─────────────────────────────────────────────────────

/// The sum of some weights.
pub open spec fn weight_sum(weights: Seq<u64>) -> nat
    decreases weights.len(),
{
    if weights.len() == 0 {
        0
    } else {
        weight_sum(weights.drop_last()) + weights.last() as nat
    }
}

/// The whole minor units of `magnitude` that weight `i` earns.
pub open spec fn quota(magnitude: nat, weights: Seq<u64>, i: int) -> nat {
    magnitude * (weights[i] as nat) / weight_sum(weights)
}

/// The fraction of a minor unit that weight `i` earns beyond its quota, as a
/// numerator over the sum of the weights.
pub open spec fn fraction(magnitude: nat, weights: Seq<u64>, i: int) -> nat {
    magnitude * (weights[i] as nat) % weight_sum(weights)
}

/// The sum of the first `k` quotas.
pub open spec fn quota_sum(magnitude: nat, weights: Seq<u64>, k: int) -> nat
    decreases k,
{
    if k <= 0 {
        0
    } else {
        quota_sum(magnitude, weights, k - 1) + quota(magnitude, weights, k - 1)
    }
}

/// True when part `j` comes ahead of part `i` for a leftover minor unit: larger
/// fraction first, lower index first among equals.
pub open spec fn comes_ahead(magnitude: nat, weights: Seq<u64>, j: int, i: int) -> bool {
    ||| fraction(magnitude, weights, j) > fraction(magnitude, weights, i)
    ||| fraction(magnitude, weights, j) == fraction(magnitude, weights, i) && j < i
}

/// How many of the first `k` parts come ahead of part `i`.
pub open spec fn parts_ahead(magnitude: nat, weights: Seq<u64>, i: int, k: int) -> nat
    decreases k,
{
    if k <= 0 {
        0
    } else {
        parts_ahead(magnitude, weights, i, k - 1) + if comes_ahead(magnitude, weights, k - 1, i) {
            1nat
        } else {
            0nat
        }
    }
}

/// The share of `magnitude` that weight `i` receives by the largest-remainder
/// method: its quota, and one more unit when fewer parts come ahead of it than
/// units are left over.
pub open spec fn share(magnitude: nat, weights: Seq<u64>, i: int) -> nat {
    let n = weights.len() as int;
    quota(magnitude, weights, i) + if parts_ahead(magnitude, weights, i, n) < magnitude - quota_sum(
        magnitude,
        weights,
        n,
    ) {
        1nat
    } else {
        0nat
    }
}

/// The magnitude of a signed count.
pub open spec fn magnitude_of(v: int) -> nat {
    if v < 0 {
        (-v) as nat
    } else {
        v as nat
    }
}

/// `magnitude` with the sign of `v`.
pub open spec fn with_sign_of(v: int, magnitude: nat) -> int {
    if v < 0 {
        -magnitude
    } else {
        magnitude as int
    }
}

proof fn lemma_weight_sum_take(weights: Seq<u64>, k: int)
    requires
        0 <= k <= weights.len(),
    ensures
        weight_sum(weights.take(k)) <= weight_sum(weights),
        weight_sum(weights.take(k)) <= k * u64::MAX,
        k < weights.len() ==> weight_sum(weights.take(k + 1)) == weight_sum(weights.take(k))
            + weights[k],
    decreases weights.len(),
{
    if k < weights.len() {
        assert(weights.take(k + 1).drop_last() =~= weights.take(k));
        if k + 1 <= weights.len() - 1 {
            lemma_weight_sum_take(weights.drop_last(), k);
            assert(weights.drop_last().take(k) =~= weights.take(k));
        } else {
            assert(weights.drop_last() =~= weights.take(k));
        }
    } else {
        assert(weights.take(k) =~= weights);
    }
    lemma_weight_bound(weights.take(k));
}

proof fn lemma_weight_bound(weights: Seq<u64>)
    ensures
        weight_sum(weights) <= weights.len() * u64::MAX,
    decreases weights.len(),
{
    if weights.len() > 0 {
        lemma_weight_bound(weights.drop_last());
        assert(weights.len() * u64::MAX == (weights.len() - 1) * u64::MAX + u64::MAX)
            by (nonlinear_arith);
    }
}

fn total_weight(weights: &[u64]) -> (total: u128)
    ensures
        total == weight_sum(weights@),
        total <= weights@.len() * u64::MAX,
{
    let mut total: u128 = 0;
    let mut i: usize = 0;
    assert(weights@.take(0) =~= Seq::empty());
    while i < weights.len()
        invariant
            i <= weights.len(),
            total == weight_sum(weights@.take(i as int)),
        decreases weights.len() - i,
    {
        proof {
            lemma_weight_sum_take(weights@, i as int);
            assert(i * u64::MAX <= usize::MAX * u64::MAX) by (nonlinear_arith)
                requires
                    i <= usize::MAX,
            ;
            assert(usize::MAX * u64::MAX + u64::MAX <= u128::MAX) by (nonlinear_arith)
                requires
                    usize::MAX <= 0xffff_ffff_ffff_ffff,
            ;
        }
        total = total + weights[i] as u128;
        i += 1;
    }
    proof {
        assert(weights@.take(weights@.len() as int) =~= weights@);
        lemma_weight_bound(weights@);
    }
    total
}

/// The sum of some magnitudes.
spec fn sum_of(parts: Seq<u128>) -> nat
    decreases parts.len(),
{
    if parts.len() == 0 {
        0
    } else {
        sum_of(parts.drop_last()) + parts.last() as nat
    }
}

proof fn lemma_sum_of_update(parts: Seq<u128>, i: int, v: u128)
    requires
        0 <= i < parts.len(),
    ensures
        sum_of(parts.update(i, v)) == sum_of(parts) - parts[i] + v,
        parts[i] <= sum_of(parts),
    decreases parts.len(),
{
    let changed = parts.update(i, v);
    if i == parts.len() - 1 {
        assert(changed.drop_last() =~= parts.drop_last());
    } else {
        lemma_sum_of_update(parts.drop_last(), i, v);
        assert(changed.drop_last() =~= parts.drop_last().update(i, v));
    }
}

/// The claim of each part on a leftover unit: the larger its fraction, the
/// smaller the first number.
spec fn claims(magnitude: nat, weights: Seq<u64>) -> Seq<(u128, u16, usize)> {
    Seq::new(
        weights.len(),
        |i: int|
            (
                (weight_sum(weights) - fraction(magnitude, weights, i)) as u128,
                0,
                i as usize,
            ),
    )
}

proof fn lemma_claims_rank(magnitude: nat, weights: Seq<u64>, i: int, k: int)
    requires
        0 <= i < weights.len() <= usize::MAX,
        0 <= k <= weights.len(),
        0 < weight_sum(weights) <= u128::MAX,
    ensures
        sorting::count_before(claims(magnitude, weights).take(k), claims(magnitude, weights)[i])
            == parts_ahead(magnitude, weights, i, k),
    decreases k,
{
    if k > 0 {
        let all = claims(magnitude, weights);
        lemma_claims_rank(magnitude, weights, i, k - 1);
        assert(all.take(k).drop_last() =~= all.take(k - 1));
        assert(0 <= fraction(magnitude, weights, k - 1) < weight_sum(weights));
        assert(0 <= fraction(magnitude, weights, i) < weight_sum(weights));
    }
}

/// Splits `magnitude` into whole quotas. Also returns the claims on what is left
/// over, and how much that is: less than one unit per part.
fn quotas(magnitude: u128, weights: &[u64], total: u128) -> (r: (
    Vec<u128>,
    Vec<(u128, u16, usize)>,
    u128,
))
    requires
        magnitude <= 0x8000_0000_0000_0000,
        total == weight_sum(weights@),
        total > 0,
    ensures
        r.0@.len() == weights@.len(),
        forall|i: int|
            0 <= i < weights@.len() ==> #[trigger] r.0@[i] == quota(magnitude as nat, weights@, i),
        r.1@ == claims(magnitude as nat, weights@),
        r.2 == magnitude - quota_sum(magnitude as nat, weights@, weights@.len() as int),
        r.2 < weights@.len(),
        sum_of(r.0@) == magnitude - r.2,
{
    let mut parts: Vec<u128> = Vec::with_capacity(weights.len());
    let mut remainders: Vec<(u128, u16, usize)> = Vec::with_capacity(weights.len());
    let mut assigned: u128 = 0;
    let ghost mut fractions: nat = 0;
    let mut i: usize = 0;
    proof {
        assert(weights@.take(0) =~= Seq::empty());
        assert(magnitude * 0 == total * 0 + 0) by (nonlinear_arith);
        assert(0 * (total - 1) == 0) by (nonlinear_arith);
        assert(remainders@ =~= claims(magnitude as nat, weights@).take(0));
    }
    while i < weights.len()
        invariant
            i <= weights.len(),
            magnitude <= 0x8000_0000_0000_0000,
            total == weight_sum(weights@),
            total > 0,
            parts@.len() == i,
            forall|j: int|
                0 <= j < i ==> #[trigger] parts@[j] == quota(magnitude as nat, weights@, j),
            remainders@ == claims(magnitude as nat, weights@).take(i as int),
            assigned == quota_sum(magnitude as nat, weights@, i as int),
            assigned == sum_of(parts@),
            assigned <= magnitude,
            magnitude * weight_sum(weights@.take(i as int)) == total * assigned + fractions,
            fractions <= i * (total - 1),
        decreases weights.len() - i,
    {
        let w: u128 = weights[i] as u128;
        let ghost done = weight_sum(weights@.take(i as int)) as int;
        proof {
            lemma_weight_sum_take(weights@, i as int);
            lemma_weight_sum_take(weights@, i + 1);
            assert(0 <= magnitude * w <= 0x8000_0000_0000_0000 * 0xffff_ffff_ffff_ffff)
                by (nonlinear_arith)
                requires
                    0 <= magnitude <= 0x8000_0000_0000_0000,
                    0 <= w <= 0xffff_ffff_ffff_ffff,
            ;
        }
        let product: u128 = magnitude * w;
        let share: u128 = product / total;
        let rem: u128 = product % total;
        proof {
            vstd::arithmetic::div_mod::lemma_fundamental_div_mod(product as int, total as int);
            assert(magnitude * (done + w) == magnitude * done + magnitude * w) by (nonlinear_arith);
            assert(total * (assigned + share) == total * assigned + total * share)
                by (nonlinear_arith);
            assert((i + 1) * (total - 1) == i * (total - 1) + (total - 1)) by (nonlinear_arith);
            assert(assigned + share <= magnitude) by (nonlinear_arith)
                requires
                    magnitude * (done + w) == total * (assigned + share) + fractions + rem,
                    done + w <= total,
                    total > 0,
                    fractions >= 0,
                    rem >= 0,
                    magnitude >= 0,
            ;
        }
        assigned = assigned + share;
        let ghost before = parts@;
        parts.push(share);
        remainders.push((total - rem, 0, i));
        proof {
            fractions = fractions + rem as nat;
            assert(parts@.drop_last() =~= before);
            assert(remainders@ =~= claims(magnitude as nat, weights@).take(i + 1));
        }
        i += 1;
    }
    proof {
        assert(weights@.take(weights@.len() as int) =~= weights@);
        assert(remainders@ =~= claims(magnitude as nat, weights@));
        assert(magnitude - assigned < i) by (nonlinear_arith)
            requires
                magnitude * total == total * assigned + fractions,
                fractions <= i * (total - 1),
                total > 0,
                i > 0,
        ;
    }
    (parts, remainders, magnitude - assigned)
}

/// Gives one more unit to each of the first `leftover` parts in the order of
/// their claims.
fn hand_out(parts: &mut Vec<u128>, order: &Vec<(u128, u16, usize)>, leftover: u128)
    requires
        leftover <= order@.len(),
        order@.no_duplicates(),
        forall|p: int|
            0 <= p < order@.len() ==> (#[trigger] order@[p]).2 < old(parts)@.len(),
        forall|p: int, q: int|
            0 <= p < q < order@.len() ==> (#[trigger] order@[p]).2 != (#[trigger] order@[q]).2,
        sum_of(old(parts)@) + leftover <= u128::MAX,
    ensures
        final(parts)@.len() == old(parts)@.len(),
        sum_of(final(parts)@) == sum_of(old(parts)@) + leftover,
        forall|p: int|
            0 <= p < order@.len() ==> final(parts)@[(#[trigger] order@[p]).2 as int] == old(
                parts,
            )@[order@[p].2 as int] + if p < leftover {
                1int
            } else {
                0int
            },
{
    let mut k: usize = 0;
    while (k as u128) < leftover
        invariant
            k <= leftover <= order.len(),
            parts@.len() == old(parts)@.len(),
            sum_of(parts@) == sum_of(old(parts)@) + k,
            sum_of(old(parts)@) + leftover <= u128::MAX,
            forall|p: int|
                0 <= p < order@.len() ==> (#[trigger] order@[p]).2 < old(parts)@.len(),
            forall|p: int, q: int|
                0 <= p < q < order@.len() ==> (#[trigger] order@[p]).2 != (#[trigger] order@[q]).2,
            forall|p: int|
                0 <= p < order@.len() ==> parts@[(#[trigger] order@[p]).2 as int] == old(
                    parts,
                )@[order@[p].2 as int] + if p < k {
                    1int
                } else {
                    0int
                },
        decreases leftover - k,
    {
        let idx: usize = order[k].2;
        let current: u128 = parts[idx];
        let ghost before = parts@;
        proof {
            lemma_sum_of_update(before, idx as int, current);
            lemma_sum_of_update(before, idx as int, (current + 1) as u128);
        }
        parts.set(idx, current + 1);
        assert(parts@ =~= before.update(idx as int, (current + 1) as u128));
        k += 1;
    }
}

impl<const P: u8> Amount<P> {
    /// Splits proportionally to `weights` using the largest-remainder method.
    ///
    /// Leftover minor units go to the parts with the largest fractional
    /// remainder; ties are broken toward the lowest index, so the result is a
    /// deterministic function of the inputs. The parts always re-sum to the
    /// original exactly, which is the property that keeps proportional splits
    /// from leaking value.
    pub fn allocate(self, weights: &[u64]) -> (r: Result<Vec<Self>, MoneyError>)
        ensures
            match r {
                Ok(parts) => {
                    &&& weight_sum(weights@) > 0
                    &&& parts@.len() == weights@.len()
                    &&& forall|i: int|
                        0 <= i < weights@.len() ==> (#[trigger] parts@[i]).minor == with_sign_of(
                            self.minor as int,
                            share(magnitude_of(self.minor as int), weights@, i),
                        )
                    &&& forall|i: int|
                        0 <= i < weights@.len() ==> #[trigger] share(
                            magnitude_of(self.minor as int),
                            weights@,
                            i,
                        ) <= i64::MAX
                    &&& sum_minor(parts@) == self.minor
                },
                Err(MoneyError::ZeroWeight) => weight_sum(weights@) == 0,
                Err(e) => {
                    &&& e == MoneyError::Overflow
                    &&& weight_sum(weights@) > 0
                    &&& exists|i: int|
                        0 <= i < weights@.len() && #[trigger] share(
                            magnitude_of(self.minor as int),
                            weights@,
                            i,
                        ) > i64::MAX
                },
            },
    {
        let total: u128 = total_weight(weights);
        if total == 0 {
            return Err(MoneyError::ZeroWeight);
        }
        // Work on the magnitude so that truncation always rounds toward zero in
        // the same direction regardless of sign, then restore the sign at the end.
        let negative = self.minor < 0;
        let magnitude: u128 = if negative {
            (-(self.minor + 1)) as u128 + 1
        } else {
            self.minor as u128
        };
        let ghost m = magnitude as nat;
        let ghost n = weights@.len() as int;
        assert(m == magnitude_of(self.minor as int));
        let (mut parts, mut order, leftover): (Vec<u128>, Vec<(u128, u16, usize)>, u128) = quotas(
            magnitude,
            weights,
            total,
        );
        let ghost ranked = order@;
        // Largest remainder first; ties resolved by ascending index.
        sort_triples(&mut order);
        proof {
            assert(n == weights.len());
            assert(forall|i: int| 0 <= i < n ==> (#[trigger] ranked[i]).2 == i);
            assert(ranked.no_duplicates());
            sorting::lemma_sorted_positions(ranked, order@);
            assert forall|p: int| 0 <= p < n implies {
                let c = #[trigger] order@[p];
                c.2 < n && c == ranked[c.2 as int]
            } by {
                assert(order@.contains(order@[p]));
                let i = choose|i: int| 0 <= i < n && ranked[i] == order@[p];
                assert(ranked[i].2 == i);
            }
            assert forall|p: int, q: int| 0 <= p < q < n implies (#[trigger] order@[p]).2 != (
            #[trigger] order@[q]).2 by {
                assert(order@[p] != order@[q]);
            }
        }
        let ghost whole = parts@;
        hand_out(&mut parts, &order, leftover);
        proof {
            assert forall|i: int| 0 <= i < n implies #[trigger] parts@[i] == share(
                m,
                weights@,
                i,
            ) by {
                assert(ranked.contains(ranked[i]));
                assert(order@.contains(ranked[i]));
                let p = choose|p: int| 0 <= p < n && order@[p] == ranked[i];
                assert(order@[p].2 == i);
                assert(sorting::count_before(ranked, order@[p]) == p);
                lemma_claims_rank(m, weights@, i, n);
                assert(ranked.take(n) =~= ranked);
                assert(whole[i] == quota(m, weights@, i));
            }
        }
        Self::signed_parts(negative, &parts, self, weights)
    }

    /// Restores the sign of split magnitudes.
    fn signed_parts(negative: bool, parts: &Vec<u128>, whole: Self, weights: &[u64]) -> (r: Result<
        Vec<Self>,
        MoneyError,
    >)
        requires
            negative == (whole.minor < 0),
            parts@.len() == weights@.len(),
            forall|i: int|
                0 <= i < weights@.len() ==> #[trigger] parts@[i] == share(
                    magnitude_of(whole.minor as int),
                    weights@,
                    i,
                ),
            sum_of(parts@) == magnitude_of(whole.minor as int),
        ensures
            match r {
                Ok(signed) => {
                    &&& signed@.len() == weights@.len()
                    &&& forall|i: int|
                        0 <= i < weights@.len() ==> (#[trigger] signed@[i]).minor == with_sign_of(
                            whole.minor as int,
                            share(magnitude_of(whole.minor as int), weights@, i),
                        )
                    &&& forall|i: int|
                        0 <= i < weights@.len() ==> #[trigger] share(
                            magnitude_of(whole.minor as int),
                            weights@,
                            i,
                        ) <= i64::MAX
                    &&& sum_minor(signed@) == whole.minor
                },
                Err(e) => {
                    &&& e == MoneyError::Overflow
                    &&& exists|i: int|
                        0 <= i < weights@.len() && #[trigger] share(
                            magnitude_of(whole.minor as int),
                            weights@,
                            i,
                        ) > i64::MAX
                },
            },
    {
        let mut out: Vec<Self> = Vec::with_capacity(parts.len());
        let mut i: usize = 0;
        assert(parts@.take(0) =~= Seq::empty());
        while i < parts.len()
            invariant
                i <= parts.len(),
                out@.len() == i,
                negative == (whole.minor < 0),
                parts@.len() == weights@.len(),
                forall|j: int|
                    0 <= j < weights@.len() ==> #[trigger] parts@[j] == share(
                        magnitude_of(whole.minor as int),
                        weights@,
                        j,
                    ),
                forall|j: int|
                    0 <= j < i ==> (#[trigger] out@[j]).minor == with_sign_of(
                        whole.minor as int,
                        parts@[j] as nat,
                    ),
                forall|j: int|
                    0 <= j < i ==> #[trigger] share(
                        magnitude_of(whole.minor as int),
                        weights@,
                        j,
                    ) <= i64::MAX,
                sum_minor(out@) == with_sign_of(
                    whole.minor as int,
                    sum_of(parts@.take(i as int)),
                ),
            decreases parts.len() - i,
        {
            let p: u128 = parts[i];
            if p > i64::MAX as u128 {
                assert(share(magnitude_of(whole.minor as int), weights@, i as int) > i64::MAX);
                return Err(MoneyError::Overflow);
            }
            let v: i64 = p as i64;
            let ghost before = out@;
            out.push(Amount { minor: if negative { -v } else { v } });
            proof {
                assert(out@.drop_last() =~= before);
                assert(parts@.take(i + 1).drop_last() =~= parts@.take(i as int));
            }
            i += 1;
        }
        assert(parts@.take(parts@.len() as int) =~= parts@);
        Ok(out)
    }

    /// Splits into `n` parts differing by at most one minor unit.
    ///
    /// The parts always re-sum to the original: no minor unit is created or lost.
    pub fn distribute(self, n: usize) -> (r: Result<Vec<Self>, MoneyError>)
        ensures
            match r {
                Ok(parts) => {
                    &&& parts@.len() == n
                    &&& forall|i: int|
                        0 <= i < n ==> (#[trigger] parts@[i]).minor == with_sign_of(
                            self.minor as int,
                            even_share(magnitude_of(self.minor as int), n as nat, i),
                        )
                    &&& sum_minor(parts@) == self.minor
                    &&& forall|i: int, j: int|
                        0 <= i < n && 0 <= j < n ==> (#[trigger] parts@[i]).minor - (
                        #[trigger] parts@[j]).minor <= 1
                },
                Err(MoneyError::ZeroWeight) => n == 0,
                Err(e) => e == MoneyError::Overflow && n == 1 && self.minor == i64::MIN,
            },
            n == 0 ==> r is Err,
            n == 1 && self.minor == i64::MIN ==> r is Err,
    {
        if n == 0 {
            return Err(MoneyError::ZeroWeight);
        }
        let mut weights: Vec<u64> = Vec::with_capacity(n);
        let mut i: usize = 0;
        while i < n
            invariant
                i <= n,
                weights@.len() == i,
                forall|j: int| 0 <= j < i ==> #[trigger] weights@[j] == 1,
            decreases n - i,
        {
            weights.push(1);
            i += 1;
        }
        proof {
            let m = magnitude_of(self.minor as int);
            lemma_even_shares(m, weights@);
            assert forall|j: int| 0 <= j < n implies even_share(m, n as nat, j) <= i64::MAX || (n
                == 1 && self.minor == i64::MIN) by {
                if n >= 2 {
                    assert(m / n as nat <= m / 2) by (nonlinear_arith)
                        requires
                            n >= 2,
                            m >= 0,
                    ;
                }
            }
            if n == 1 {
                assert(m / 1 == m && m % 1 == 0) by (nonlinear_arith);
                assert(share(m, weights@, 0) == m);
            }
        }
        self.allocate(weights.as_slice())
    }
}

/// The share of part `i` when `magnitude` is split evenly across `n` parts: the
/// leading parts take what does not divide.
pub open spec fn even_share(magnitude: nat, n: nat, i: int) -> nat {
    magnitude / n + if i < magnitude % n {
        1nat
    } else {
        0nat
    }
}

proof fn lemma_even_shares(m: nat, weights: Seq<u64>)
    requires
        weights.len() > 0,
        forall|j: int| 0 <= j < weights.len() ==> #[trigger] weights[j] == 1,
    ensures
        weight_sum(weights) == weights.len(),
        forall|i: int|
            0 <= i < weights.len() ==> #[trigger] share(m, weights, i) == even_share(
                m,
                weights.len(),
                i,
            ),
{
    let n = weights.len();
    lemma_unit_weights(weights);
    assert forall|i: int| 0 <= i < n implies #[trigger] share(m, weights, i) == even_share(
        m,
        n,
        i,
    ) by {
        assert forall|j: int| 0 <= j < n implies #[trigger] quota(m, weights, j) == m / n
            && fraction(m, weights, j) == m % n by {
            assert(m * (weights[j] as nat) == m) by (nonlinear_arith)
                requires
                    weights[j] == 1,
            ;
        }
        lemma_even_ahead(m, weights, i, n as int);
        lemma_even_quota_sum(m, weights, n as int);
        vstd::arithmetic::div_mod::lemma_fundamental_div_mod(m as int, n as int);
    }
}

proof fn lemma_unit_weights(weights: Seq<u64>)
    requires
        forall|j: int| 0 <= j < weights.len() ==> #[trigger] weights[j] == 1,
    ensures
        weight_sum(weights) == weights.len(),
    decreases weights.len(),
{
    if weights.len() > 0 {
        lemma_unit_weights(weights.drop_last());
    }
}

proof fn lemma_even_ahead(m: nat, weights: Seq<u64>, i: int, k: int)
    requires
        0 <= i < weights.len(),
        0 <= k <= weights.len(),
        forall|j: int|
            0 <= j < weights.len() ==> #[trigger] quota(m, weights, j) == m / weights.len()
                && fraction(m, weights, j) == m % weights.len(),
    ensures
        parts_ahead(m, weights, i, k) == (if k < i {
            k
        } else {
            i
        }),
    decreases k,
{
    if k > 0 {
        lemma_even_ahead(m, weights, i, k - 1);
        assert(quota(m, weights, k - 1) == m / weights.len());
        assert(quota(m, weights, i) == m / weights.len());
    }
}

proof fn lemma_even_quota_sum(m: nat, weights: Seq<u64>, k: int)
    requires
        0 <= k <= weights.len(),
        forall|j: int|
            0 <= j < weights.len() ==> #[trigger] quota(m, weights, j) == m / weights.len()
                && fraction(m, weights, j) == m % weights.len(),
    ensures
        quota_sum(m, weights, k) == k * (m / weights.len()),
    decreases k,
{
    if k > 0 {
        lemma_even_quota_sum(m, weights, k - 1);
        let q = m / weights.len();
        assert(k * q == (k - 1) * q + q) by (nonlinear_arith);
        assert(quota(m, weights, k - 1) == q);
    } else {
        let q = m / weights.len();
        assert(0 * q == 0) by (nonlinear_arith);
    }
}

// ── decimal literals ────────────────────────────────────────────────────────

/// A literal without its sign.
pub open spec fn unsigned_literal(t: Seq<char>) -> Seq<char> {
    if t.len() > 0 && (t[0] == '-' || t[0] == '+') {
        t.skip(1)
    } else {
        t
    }
}

/// Where the first decimal point of `t` stands; its length when it has none.
pub open spec fn point(t: Seq<char>) -> nat
    decreases t.len(),
{
    if t.len() == 0 || t[0] == '.' {
        0
    } else {
        1 + point(t.skip(1))
    }
}

/// The digits before the point.
pub open spec fn integer_part(t: Seq<char>) -> Seq<char> {
    t.take(point(t) as int)
}

/// The digits after the point.
pub open spec fn fraction_part(t: Seq<char>) -> Seq<char> {
    if point(t) < t.len() {
        t.skip(point(t) as int + 1)
    } else {
        Seq::empty()
    }
}

/// `digits` without its trailing zeros, which are not precision.
pub open spec fn significant(digits: Seq<char>) -> Seq<char>
    decreases digits.len(),
{
    if digits.len() > 0 && digits.last() == '0' {
        significant(digits.drop_last())
    } else {
        digits
    }
}

/// The first `width` of `digits`, filled up with zeros.
pub open spec fn filled(digits: Seq<char>, width: nat) -> Seq<char> {
    Seq::new(
        width,
        |i: int|
            if i < digits.len() {
                digits[i]
            } else {
                '0'
            },
    )
}

/// What a decimal literal means at scale `P`, whitespace around it aside.
pub open spec fn parse_literal<const P: u8>(s: Seq<char>) -> Result<Amount<P>, MoneyError> {
    let t = text::trim(s);
    let body = unsigned_literal(t);
    let whole = integer_part(body);
    let part = fraction_part(body);
    if (whole.len() == 0 && part.len() == 0) || !text::all_digits(whole) || !text::all_digits(
        part,
    ) {
        Err(MoneyError::InvalidLiteral)
    } else if significant(part).len() > P {
        Err(MoneyError::PrecisionLoss { scale: P })
    } else {
        let value = text::numeral(whole) * units_per_major(P as nat) + text::numeral(
            filled(part, P as nat),
        );
        if value > i64::MAX {
            Err(MoneyError::Overflow)
        } else if t[0] == '-' {
            Ok(Amount { minor: (-value) as i64 })
        } else {
            Ok(Amount { minor: value as i64 })
        }
    }
}

/// `digits` with leading zeros up to `width`.
pub open spec fn zero_padded(digits: Seq<char>, width: nat) -> Seq<char> {
    Seq::new(
        if digits.len() < width {
            (width - digits.len()) as nat
        } else {
            0
        },
        |i: int| '0',
    ) + digits
}

/// How an amount at scale `P` is written.
pub open spec fn literal<const P: u8>(a: Amount<P>) -> Seq<char> {
    let m = magnitude_of(a.minor as int);
    let units = units_per_major(P as nat);
    let sign = if a.minor < 0 {
        seq!['-']
    } else {
        Seq::empty()
    };
    if P == 0 {
        sign + text::decimal(m)
    } else {
        sign + text::decimal(m / units) + seq!['.'] + zero_padded(
            text::decimal(m % units),
            P as nat,
        )
    }
}

proof fn lemma_numeral_grows(t: Seq<char>, k: int)
    requires
        text::all_digits(t),
        0 <= k <= t.len(),
    ensures
        text::numeral(t.take(k)) <= text::numeral(t),
    decreases t.len(),
{
    if k == t.len() {
        assert(t.take(k) =~= t);
    } else {
        assert(text::digit(t[t.len() - 1]));
        lemma_numeral_grows(t.drop_last(), k);
        assert(t.drop_last().take(k) =~= t.take(k));
    }
}

/// Reads a run of digits, or finds that it exceeds `i64::MAX`.
fn read_numeral(chars: &[char]) -> (v: Option<i64>)
    requires
        text::all_digits(chars@),
    ensures
        match v {
            Some(n) => n == text::numeral(chars@),
            None => text::numeral(chars@) > i64::MAX,
        },
{
    let mut acc: i64 = 0;
    let mut i: usize = 0;
    assert(chars@.take(0) =~= Seq::empty());
    while i < chars.len()
        invariant
            i <= chars.len(),
            text::all_digits(chars@),
            0 <= acc,
            acc == text::numeral(chars@.take(i as int)),
        decreases chars.len() - i,
    {
        let c = chars[i];
        assert(text::digit(chars@[i as int]));
        let d: i64 = (c as u32 - 48) as i64;
        proof {
            assert(chars@.take(i + 1).drop_last() =~= chars@.take(i as int));
            lemma_numeral_grows(chars@, i + 1);
        }
        if acc > (i64::MAX - d) / 10 {
            return None;
        }
        acc = acc * 10 + d;
        i += 1;
    }
    assert(chars@.take(chars@.len() as int) =~= chars@);
    Some(acc)
}

fn are_digits(chars: &[char]) -> (r: bool)
    ensures
        r == text::all_digits(chars@),
{
    let mut i: usize = 0;
    while i < chars.len()
        invariant
            i <= chars.len(),
            forall|j: int| 0 <= j < i ==> text::digit(#[trigger] chars@[j]),
        decreases chars.len() - i,
    {
        let v: u32 = chars[i] as u32;
        if v < 48 || v > 57 {
            assert(!text::digit(chars@[i as int]));
            return false;
        }
        i += 1;
    }
    true
}

fn find_point(chars: &[char]) -> (p: usize)
    ensures
        p == point(chars@),
        p <= chars@.len(),
{
    let mut p: usize = 0;
    assert(chars@.skip(0) =~= chars@);
    while p < chars.len() && chars[p] != '.'
        invariant
            p <= chars.len(),
            point(chars@) == p + point(chars@.skip(p as int)),
        decreases chars.len() - p,
    {
        assert(chars@.skip(p as int).skip(1) =~= chars@.skip(p + 1));
        p += 1;
    }
    p
}

fn significant_len(chars: &[char]) -> (n: usize)
    ensures
        n == significant(chars@).len(),
{
    let mut n: usize = chars.len();
    assert(chars@.take(n as int) =~= chars@);
    while n > 0 && chars[n - 1] == '0'
        invariant
            n <= chars.len(),
            significant(chars@) == significant(chars@.take(n as int)),
        decreases n,
    {
        assert(chars@.take(n as int).drop_last() =~= chars@.take(n - 1));
        n -= 1;
    }
    n
}

fn fill(chars: &[char], width: usize) -> (out: Vec<char>)
    ensures
        out@ == filled(chars@, width as nat),
{
    let mut out: Vec<char> = Vec::with_capacity(width);
    let mut i: usize = 0;
    while i < width
        invariant
            i <= width,
            out@.len() == i,
            forall|j: int| 0 <= j < i ==> #[trigger] out@[j] == filled(chars@, width as nat)[j],
        decreases width - i,
    {
        out.push(
            if i < chars.len() {
                chars[i]
            } else {
                '0'
            },
        );
        i += 1;
    }
    assert(out@ =~= filled(chars@, width as nat));
    out
}

impl<const P: u8> Amount<P> {
    /// Parses a decimal literal such as `"-1234.56"` at scale `P`.
    ///
    /// Rejects inputs carrying more precision than `P` rather than rounding
    /// silently: at the point where an amount enters a ledger, a value that does
    /// not fit the booking scale is a defect upstream.
    pub fn parse(s: &str) -> (r: Result<Self, MoneyError>)
        ensures
            r == parse_literal::<P>(s@),
    {
        let chars = chars_of(s);
        let (from, to): (usize, usize) = trimmed(&chars);
        let t = vstd::slice::slice_subrange(chars.as_slice(), from, to);
        let n: usize = t.len();
        let negative = n > 0 && t[0] == '-';
        let body = if n > 0 && (t[0] == '-' || t[0] == '+') {
            let rest = vstd::slice::slice_subrange(t, 1, n);
            assert(rest@ =~= t@.skip(1));
            rest
        } else {
            t
        };
        let p: usize = find_point(body);
        let whole = vstd::slice::slice_subrange(body, 0, p);
        assert(whole@ =~= integer_part(body@));
        let part = vstd::slice::slice_subrange(
            body,
            if p < body.len() {
                p + 1
            } else {
                p
            },
            body.len(),
        );
        assert(part@ =~= fraction_part(body@));
        if whole.len() == 0 && part.len() == 0 {
            return Err(MoneyError::InvalidLiteral);
        }
        if !are_digits(whole) || !are_digits(part) {
            return Err(MoneyError::InvalidLiteral);
        }
        // Trailing zeros beyond the scale are not precision, so drop them first.
        if significant_len(part) > P as usize {
            return Err(MoneyError::PrecisionLoss { scale: P });
        }
        let digits = fill(part, P as usize);
        proof {
            assert forall|i: int| 0 <= i < digits@.len() implies text::digit(
                #[trigger] digits@[i],
            ) by {
                if i < part@.len() {
                    assert(text::digit(part@[i]));
                }
            }
            lemma_units_per_major(P as nat);
        }
        let ghost units = units_per_major(P as nat);
        let ghost w = text::numeral(whole@);
        let ghost f = text::numeral(digits@);
        assert(w * units >= w) by (nonlinear_arith)
            requires
                units >= 1,
                w >= 0,
        ;
        let major: i64 = match read_numeral(whole) {
            Some(v) => v,
            None => {
                return Err(MoneyError::Overflow);
            },
        };
        let minor: i64 = match read_numeral(digits.as_slice()) {
            Some(v) => v,
            None => {
                return Err(MoneyError::Overflow);
            },
        };
        assert(major * units >= 0) by (nonlinear_arith)
            requires
                units >= 1,
                major >= 0,
        ;
        let value: i64 = match major.checked_mul(Self::scale()) {
            None => {
                return Err(MoneyError::Overflow);
            },
            Some(v) => match v.checked_add(minor) {
                None => {
                    return Err(MoneyError::Overflow);
                },
                Some(v) => v,
            },
        };
        if negative {
            Ok(Amount { minor: -value })
        } else {
            Ok(Amount { minor: value })
        }
    }

    /// Renders as a decimal literal with exactly `P` decimal places.
    #[must_use]
    pub fn to_string(&self) -> (s: String)
        ensures
            s@ == literal(*self),
    {
        let magnitude: u64 = if self.minor < 0 {
            (-(self.minor + 1)) as u64 + 1
        } else {
            self.minor as u64
        };
        let mut s = String::new();
        if self.minor < 0 {
            s.push('-');
        }
        if P == 0 {
            push_decimal(&mut s, magnitude);
            assert(s@ =~= literal(*self));
            return s;
        }
        proof {
            lemma_units_per_major(P as nat);
        }
        let units: u64 = Self::scale() as u64;
        push_decimal(&mut s, magnitude / units);
        s.push('.');
        let mut digits = String::new();
        push_decimal(&mut digits, magnitude % units);
        let ghost tail = text::decimal((magnitude % units) as nat);
        assert(digits@ =~= tail);
        let width: usize = digits.as_str().unicode_len();
        let ghost before = s@;
        let mut i: usize = width;
        assert(before =~= before + Seq::new(0, |j: int| '0'));
        while i < P as usize
            invariant
                width <= i,
                i <= P || i == width,
                s@ == before + Seq::new((i - width) as nat, |j: int| '0'),
            decreases P - i,
        {
            s.push('0');
            assert(s@ =~= before + Seq::new((i + 1 - width) as nat, |j: int| '0'));
            i += 1;
        }
        push_text(&mut s, digits.as_str());
        assert(s@ =~= literal(*self));
        s
    }
}

// ── what is written is read back ────────────────────────────────────────────

pub proof fn lemma_numeral_of_zero_padded(digits: Seq<char>, width: nat)
    requires
        text::all_digits(digits),
    ensures
        text::all_digits(zero_padded(digits, width)),
        text::numeral(zero_padded(digits, width)) == text::numeral(digits),
        digits.len() <= width ==> zero_padded(digits, width).len() == width,
    decreases digits.len() + width,
{
    let padded = zero_padded(digits, width);
    assert forall|i: int| 0 <= i < padded.len() implies text::digit(#[trigger] padded[i]) by {
        let zeros = padded.len() - digits.len();
        if i >= zeros {
            assert(text::digit(digits[i - zeros]));
        }
    }
    if digits.len() == 0 {
        if width == 0 {
            assert(padded =~= digits);
        } else {
            lemma_numeral_of_zero_padded(digits, (width - 1) as nat);
            assert(padded.drop_last() =~= zero_padded(digits, (width - 1) as nat));
            assert(padded.last() == '0');
        }
    } else {
        let rest = digits.drop_last();
        let shorter = if width == 0 {
            0nat
        } else {
            (width - 1) as nat
        };
        assert forall|i: int| 0 <= i < rest.len() implies text::digit(#[trigger] rest[i]) by {
            assert(text::digit(digits[i]));
        }
        lemma_numeral_of_zero_padded(rest, shorter);
        assert(padded.drop_last() =~= zero_padded(rest, shorter));
    }
}

pub proof fn lemma_decimal_len(n: nat, width: nat)
    requires
        n < ten_to(width),
        width >= 1,
    ensures
        text::decimal(n).len() <= width,
    decreases width,
{
    if n >= 10 {
        if width == 1 {
            reveal_with_fuel(ten_to, 2);
        } else {
            lemma_decimal_len(n / 10, (width - 1) as nat);
        }
    }
}

pub proof fn lemma_point_of(digits: Seq<char>, rest: Seq<char>)
    requires
        text::all_digits(digits),
        rest.len() == 0 || rest[0] == '.',
    ensures
        point(digits + rest) == digits.len(),
    decreases digits.len(),
{
    if digits.len() == 0 {
        assert(digits + rest =~= rest);
    } else {
        let t = digits + rest;
        assert(text::digit(digits[0]));
        assert(t[0] == digits[0]);
        assert forall|i: int| 0 <= i < digits.skip(1).len() implies text::digit(
            #[trigger] digits.skip(1)[i],
        ) by {
            assert(text::digit(digits[i + 1]));
        }
        assert(t.skip(1) =~= digits.skip(1) + rest);
        lemma_point_of(digits.skip(1), rest);
    }
}

proof fn lemma_significant_len(digits: Seq<char>)
    ensures
        significant(digits).len() <= digits.len(),
    decreases digits.len(),
{
    if digits.len() > 0 && digits.last() == '0' {
        lemma_significant_len(digits.drop_last());
    }
}

/// Parsing what an amount renders as gives the amount back. The smallest amount
/// is the exception: it has no positive counterpart, and its literal is read as
/// an overflow.
#[verifier::spinoff_prover]
#[verifier::rlimit(60)]
pub proof fn law_parse_reads_back_to_string<const P: u8>(a: Amount<P>)
    requires
        P <= 18,
    ensures
        parse_literal::<P>(literal(a)) == (if a.minor == i64::MIN {
            Err(MoneyError::Overflow)
        } else {
            Ok(a)
        }),
{
    let m = magnitude_of(a.minor as int);
    let scale = P as nat;
    let units = units_per_major(scale);
    lemma_units_per_major(scale);
    let whole = if P == 0 {
        text::decimal(m)
    } else {
        text::decimal(m / units)
    };
    let low = text::decimal(m % units);
    let part = if P == 0 {
        Seq::<char>::empty()
    } else {
        zero_padded(low, scale)
    };
    let rest = if P == 0 {
        Seq::<char>::empty()
    } else {
        seq!['.'] + part
    };
    let body = whole + rest;
    let t = literal(a);
    if P == 0 {
        text::lemma_decimal(m);
    } else {
        text::lemma_decimal(m / units);
        text::lemma_decimal(m % units);
        lemma_numeral_of_zero_padded(low, scale);
        lemma_decimal_len(m % units, scale);
    }
    // The sign.
    assert(text::digit(whole[0]));
    if a.minor < 0 {
        assert(t =~= seq!['-'] + body);
        assert(t.skip(1) =~= body);
    } else {
        assert(t =~= body);
        assert(t[0] == whole[0]);
    }
    assert(unsigned_literal(t) == body);
    // No whitespace on either side.
    if P == 0 {
        assert(t.last() == whole.last());
        assert(text::digit(whole[whole.len() - 1]));
    } else {
        assert(t.last() == part.last());
        assert(text::digit(part[part.len() - 1]));
    }
    assert(text::trim_start(t) == t);
    assert(text::trim_end(t) == t);
    // The point.
    lemma_point_of(whole, rest);
    assert(integer_part(body) =~= whole);
    assert(fraction_part(body) =~= part);
    assert(filled(part, scale) =~= part);
    lemma_significant_len(part);
    if P == 0 {
        assert(units == 1);
        assert(text::numeral(part) == 0);
        assert(m * 1 == m);
    } else {
        vstd::arithmetic::div_mod::lemma_fundamental_div_mod(m as int, units as int);
        assert((m / units) * units == units * (m / units)) by (nonlinear_arith);
    }
}

} // verus!
