//! Calendar dates.
//!
//! A [`Date`] is a day of the proleptic Gregorian calendar. Its mathematical
//! model is the Julian day number, so that earlier days are smaller numbers and
//! the distance between two days is a difference.

use crate::canonical::{self, Canonical, CanonicalWriter};
use vstd::prelude::*;

verus! {

/// The earliest year a date may fall in.
pub const MIN_YEAR: i32 = -9999;

/// The latest year a date may fall in.
pub const MAX_YEAR: i32 = 9999;

/// True for a leap year.
pub open spec fn leap(year: int) -> bool {
    year % 4 == 0 && (year % 100 != 0 || year % 400 == 0)
}

/// The number of days in a month.
pub open spec fn days_in_month(year: int, month: int) -> int {
    if month == 2 {
        if leap(year) {
            29
        } else {
            28
        }
    } else if month == 4 || month == 6 || month == 9 || month == 11 {
        30
    } else {
        31
    }
}

/// True for a day that exists, in a year that is supported.
pub open spec fn calendar_day(year: int, month: int, day: int) -> bool {
    &&& MIN_YEAR <= year <= MAX_YEAR
    &&& 1 <= month <= 12
    &&& 1 <= day <= days_in_month(year, month)
}

/// The days of a year before a month begins.
pub open spec fn days_before_month(year: int, month: int) -> int
    decreases month,
{
    if month <= 1 {
        0
    } else {
        days_before_month(year, month - 1) + days_in_month(year, month - 1)
    }
}

/// The days before a year begins, counted from a fixed day far in the past.
pub open spec fn days_before_year(year: int) -> int {
    let y = year + 999_999;
    365 * y + y / 4 - y / 100 + y / 400
}

/// The Julian day number of a calendar day.
pub open spec fn julian_day_number(year: int, month: int, day: int) -> int {
    days_before_year(year) + days_before_month(year, month) + day - 363_521_075
}

proof fn lemma_months_fit(year: int)
    ensures
        forall|month: int|
            1 <= month <= 12 ==> 0 <= #[trigger] days_before_month(year, month)
                && days_before_month(year, month) + days_in_month(year, month) <= (if leap(year) {
                366
            } else {
                365int
            }),
        forall|a: int, b: int|
            1 <= a < b <= 12 ==> #[trigger] days_before_month(year, a) + days_in_month(year, a)
                <= #[trigger] days_before_month(year, b),
{
    reveal_with_fuel(days_before_month, 13);
}

proof fn lemma_next_by_4(y: int)
    ensures
        (y + 1) / 4 == y / 4 + (if (y - 999_999) % 4 == 0 {
            1int
        } else {
            0
        }),
{
}

proof fn lemma_next_by_100(y: int)
    ensures
        (y + 1) / 100 == y / 100 + (if (y - 999_999) % 100 == 0 {
            1int
        } else {
            0
        }),
{
}

proof fn lemma_next_by_400(y: int)
    ensures
        (y + 1) / 400 == y / 400 + (if (y - 999_999) % 400 == 0 {
            1int
        } else {
            0
        }),
{
}

pub proof fn lemma_next_year(a: int)
    ensures
        days_before_year(a + 1) == days_before_year(a) + (if leap(a) {
            366
        } else {
            365int
        }),
{
    let y = a + 999_999;
    lemma_next_by_4(y);
    lemma_next_by_100(y);
    lemma_next_by_400(y);
    assert(a % 400 == 0 ==> a % 100 == 0);
    assert(a % 100 == 0 ==> a % 4 == 0);
}

proof fn lemma_years_follow(a: int, b: int)
    requires
        a < b,
    ensures
        days_before_year(a) + (if leap(a) {
            366
        } else {
            365int
        }) <= days_before_year(b),
    decreases b - a,
{
    lemma_next_year(b - 1);
    if a + 1 < b {
        lemma_years_follow(a, b - 1);
    }
}

/// Julian day numbers follow the calendar: an earlier day has a smaller number.
pub proof fn lemma_julian_order(y1: int, m1: int, d1: int, y2: int, m2: int, d2: int)
    requires
        calendar_day(y1, m1, d1),
        calendar_day(y2, m2, d2),
        y1 < y2 || (y1 == y2 && (m1 < m2 || (m1 == m2 && d1 < d2))),
    ensures
        julian_day_number(y1, m1, d1) < julian_day_number(y2, m2, d2),
{
    lemma_months_fit(y1);
    lemma_months_fit(y2);
    if y1 < y2 {
        lemma_years_follow(y1, y2);
    } else if m1 < m2 {
        assert(days_before_month(y1, m1) + days_in_month(y1, m1) <= days_before_month(y1, m2));
    }
}

/// `time::Date::from_calendar_date` followed by `time::Date::to_julian_day`: the
/// Julian day number of a day that exists.
#[verifier::external_body]
fn julian_day_of(year: i32, month: u8, day: u8) -> (number: i32)
    requires
        calendar_day(year as int, month as int, day as int),
    ensures
        number == julian_day_number(year as int, month as int, day as int),
{
    let month = time::Month::try_from(month).expect("a month");
    time::Date::from_calendar_date(year, month, day).expect("a day that exists").to_julian_day()
}

/// A calendar date.
#[derive(Debug, Clone, Copy, PartialEq, Eq, Structural, PartialOrd, Ord, Hash)]
pub struct Date {
    year: i32,
    month: u8,
    day: u8,
}

impl View for Date {
    type V = int;

    /// The Julian day number.
    open spec fn view(&self) -> int {
        julian_day_number(self.year_number(), self.month_number(), self.day_number())
    }
}

impl Date {
    #[verifier::type_invariant]
    spec fn exists_on_calendar(self) -> bool {
        calendar_day(self.year as int, self.month as int, self.day as int)
    }

    /// The year.
    pub closed spec fn year_number(&self) -> int {
        self.year as int
    }

    /// The month, from 1.
    pub closed spec fn month_number(&self) -> int {
        self.month as int
    }

    /// The day of the month, from 1.
    pub closed spec fn day_number(&self) -> int {
        self.day as int
    }

    /// The date of a calendar day, or `None` where there is no such day.
    pub fn from_calendar_date(year: i32, month: u8, day: u8) -> (r: Option<Self>)
        ensures
            match r {
                Some(date) => {
                    &&& calendar_day(year as int, month as int, day as int)
                    &&& date.year_number() == year
                    &&& date.month_number() == month
                    &&& date.day_number() == day
                },
                None => !calendar_day(year as int, month as int, day as int),
            },
    {
        if year < MIN_YEAR || year > MAX_YEAR || month < 1 || month > 12 || day < 1 {
            return None;
        }
        let is_leap = year % 4 == 0 && (year % 100 != 0 || year % 400 == 0);
        let days: u8 = if month == 2 {
            if is_leap {
                29
            } else {
                28
            }
        } else if month == 4 || month == 6 || month == 9 || month == 11 {
            30
        } else {
            31
        };
        if day > days {
            return None;
        }
        Some(Date { year, month, day })
    }

    /// The year.
    #[must_use]
    pub fn year(&self) -> (year: i32)
        ensures
            year == self.year_number(),
    {
        self.year
    }

    /// The month, from 1.
    #[must_use]
    pub fn month(&self) -> (month: u8)
        ensures
            month == self.month_number(),
    {
        self.month
    }

    /// The day of the month, from 1.
    #[must_use]
    pub fn day(&self) -> (day: u8)
        ensures
            day == self.day_number(),
    {
        self.day
    }

    /// The Julian day number.
    #[must_use]
    pub fn to_julian_day(&self) -> (number: i32)
        ensures
            number == self@,
    {
        proof {
            use_type_invariant(self);
        }
        julian_day_of(self.year, self.month, self.day)
    }

    /// True when this day is strictly earlier than `other`.
    #[must_use]
    pub fn is_before(&self, other: &Self) -> (r: bool)
        ensures
            r == (self@ < other@),
            self@ == other@ ==> *self == *other,
    {
        proof {
            use_type_invariant(self);
            use_type_invariant(other);
            let (y1, m1, d1) = (self.year as int, self.month as int, self.day as int);
            let (y2, m2, d2) = (other.year as int, other.month as int, other.day as int);
            if y1 < y2 || (y1 == y2 && (m1 < m2 || (m1 == m2 && d1 < d2))) {
                lemma_julian_order(y1, m1, d1, y2, m2, d2);
            } else if y1 != y2 || m1 != m2 || d1 != d2 {
                lemma_julian_order(y2, m2, d2, y1, m1, d1);
            }
        }
        self.year < other.year || (self.year == other.year && (self.month < other.month || (
        self.month == other.month && self.day < other.day)))
    }

    /// True when this day is no later than `other`.
    #[must_use]
    pub fn at_most(&self, other: &Self) -> (r: bool)
        ensures
            r == (self@ <= other@),
            self@ == other@ ==> *self == *other,
    {
        !other.is_before(self)
    }
}

/// The encoding of a date: the year as a signed 32-bit integer, the month and
/// the day as one byte each.
pub open spec fn date_encoding(date: Date) -> Seq<u8> {
    canonical::le_bytes(canonical::twos32(date.year_number()), 4) + seq![
        date.month_number() as u8,
        date.day_number() as u8,
    ]
}

/// The encoding of a date is read back in one way only, whatever follows it.
pub proof fn lemma_date_unambiguous(a: Date, b: Date, x: Seq<u8>, y: Seq<u8>)
    requires
        date_encoding(a) + x == date_encoding(b) + y,
    ensures
        a == b,
        x == y,
{
    canonical::lemma_byte_range_values();
    let ta = seq![a.month_number() as u8, a.day_number() as u8];
    let tb = seq![b.month_number() as u8, b.day_number() as u8];
    let ya = canonical::twos32(a.year_number());
    let yb = canonical::twos32(b.year_number());
    assert(date_encoding(a) + x =~= canonical::le_bytes(ya, 4) + (ta + x));
    assert(date_encoding(b) + y =~= canonical::le_bytes(yb, 4) + (tb + y));
    canonical::lemma_le_bytes_unambiguous(ya, yb, 4, ta + x, tb + y);
    canonical::lemma_split_at(ta, tb, x, y);
    assert(ta[0] == tb[0] && ta[1] == tb[1]);
}

impl Canonical for Date {
    open spec fn encoding(&self) -> Seq<u8> {
        date_encoding(*self)
    }

    fn encode(&self, w: &mut CanonicalWriter) {
        w.i32(self.year);
        w.u8(self.month);
        w.u8(self.day);
        assert(w@ =~= old(w)@ + self.encoding());
    }
}

} // verus!
