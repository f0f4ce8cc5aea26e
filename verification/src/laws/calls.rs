//! What calls return, in terms of what they were given.

use crate::account::{self, Account, AccountId, AccountKind, AccountRegistry, BalanceLimit};
use crate::balance::{Balance, BalanceKey, TrialBalance};
use crate::checkpoint::{AssertAt, BalanceAssertion};
use crate::closing::{closing_postings, ClosingError, Scope};
use crate::date::Date;
use crate::entry::{Balanced, Draft, Entry, SealContext, ValidationErrors, Violation};
use crate::hash::Digest;
use crate::laws::closing;
use crate::laws::literals::{self, Literal};
use crate::laws::periods;
use crate::laws::splitting;
use crate::laws::validation;
use crate::money::{self, Amount, Currency, MoneyError};
use crate::posting::{Direction, Layer, Posting};
use crate::seal::Seal;
use vstd::arithmetic::power;
use vstd::prelude::*;

verus! {

/// True when a result is an exact amount, or an overflow because no amount is that
/// large.
pub open spec fn is_exactly<const P: u8>(r: Result<Amount<P>, MoneyError>, minor: int) -> bool {
    match r {
        Ok(a) => a.minor == minor,
        Err(e) => e == MoneyError::Overflow && (minor < i64::MIN || i64::MAX < minor),
    }
}

/// Amounts add, subtract, negate and lose their sign exactly, or overflow.
pub proof fn law_arithmetic_is_exact<const P: u8>(
    a: Amount<P>,
    b: Amount<P>,
    r: Result<Amount<P>, MoneyError>,
)
    ensures
        call_ensures(Amount::<P>::checked_add, (a, b), r) ==> is_exactly(r, a.minor + b.minor),
        call_ensures(Amount::<P>::checked_sub, (a, b), r) ==> is_exactly(r, a.minor - b.minor),
        call_ensures(Amount::<P>::checked_neg, (a,), r) ==> is_exactly(r, 0 - a.minor),
        call_ensures(Amount::<P>::checked_abs, (a,), r) ==> is_exactly(
            r,
            if a.minor > 0 {
                a.minor as int
            } else {
                0 - a.minor
            },
        ),
{
}

/// The normal side of assets and expenses is the debit side, and of the other kinds
/// the credit side.
pub proof fn law_assets_and_expenses_are_debit_normal(kind: AccountKind, side: Direction)
    requires
        call_ensures(AccountKind::normal_side, (kind,), side),
    ensures
        match kind {
            AccountKind::Asset | AccountKind::Expense => side == Direction::Debit,
            AccountKind::Liability | AccountKind::Equity | AccountKind::Income => side
                == Direction::Credit,
        },
{
}

/// A balance nets to the side that is larger, by how much it is larger.
pub proof fn law_balances_net_to_the_larger_side<const P: u8>(
    b: Balance<P>,
    r: Result<(Direction, Amount<P>), MoneyError>,
    s: Result<Amount<P>, MoneyError>,
)
    ensures
        call_ensures(Balance::<P>::net, (&b,), r) ==> match r {
            Ok((side, a)) => {
                &&& side is Debit ==> a.minor == b.debits.minor - b.credits.minor
                &&& side is Credit ==> a.minor == b.credits.minor - b.debits.minor && a.minor > 0
                &&& a.minor >= 0
            },
            Err(e) => e == MoneyError::Overflow && (b.debits.minor - b.credits.minor > i64::MAX
                || b.credits.minor - b.debits.minor > i64::MAX),
        },
        call_ensures(Balance::<P>::signed_net, (&b,), s) ==> is_exactly(
            s,
            b.debits.minor - b.credits.minor,
        ),
{
}

/// A posting counts for its account when it debits it and against it when it
/// credits it.
pub proof fn law_postings_count_by_their_side<const P: u8>(
    p: Posting<P>,
    r: Result<Amount<P>, MoneyError>,
)
    requires
        call_ensures(Posting::<P>::signed, (&p,), r),
    ensures
        p.direction is Debit ==> is_exactly(r, p.amount.minor as int),
        p.direction is Credit ==> is_exactly(r, 0 - p.amount.minor),
{
}

/// An assertion of a magnitude on a side is one of the net: above zero for a debit,
/// below for a credit, as the books stand.
pub proof fn law_magnitudes_are_asserted_on_their_side<const P: u8>(
    key: BalanceKey,
    side: Direction,
    magnitude: Amount<P>,
    r: Result<BalanceAssertion<P>, MoneyError>,
)
    requires
        call_ensures(BalanceAssertion::<P>::on_side, (key, side, magnitude), r),
    ensures
        match r {
            Ok(a) => {
                &&& a.key == key
                &&& a.at == AssertAt::Now
                &&& side is Debit ==> a.expected.minor == magnitude.minor
                &&& side is Credit ==> a.expected.minor == 0 - magnitude.minor
            },
            Err(e) => e == MoneyError::Overflow && side is Credit && magnitude.minor == i64::MIN,
        },
{
}

/// The span of a seal is from its first entry to its last, and there is none where
/// either is missing or they are the wrong way round.
pub proof fn law_spans_run_from_first_to_last(s: Seal, r: Option<(u64, u64)>)
    requires
        call_ensures(Seal::index_span, (&s,), r),
    ensures
        match r {
            Some((first, last)) => s.first_index == Some(first) && s.last_index == Some(last)
                && first <= last,
            None => s.first_index is None || s.last_index is None || s.first_index->0
                > s.last_index->0,
        },
{
}

/// What parsing answers for a decimal literal is what its digits say.
pub proof fn law_parsing_reads_what_the_digits_say<const P: u8>(
    s: &str,
    l: Literal,
    r: Result<Amount<P>, MoneyError>,
)
    requires
        call_ensures(Amount::<P>::parse, (s,), r),
        l.wf(),
        l.written() == s@,
        P <= 18,
    ensures
        ({
            let digits = literals::place_value(l.whole + l.part);
            let below = power::pow(10, l.part.len());
            let units = power::pow(10, P as nat);
            match r {
                Ok(a) => {
                    &&& l.sign == seq!['-'] ==> -a.minor * below == digits * units
                    &&& l.sign != seq!['-'] ==> a.minor * below == digits * units
                },
                Err(MoneyError::PrecisionLoss { scale }) => scale == P && (digits * units)
                    % below != 0,
                Err(MoneyError::Overflow) => (digits * units) % below == 0 && digits * units
                    > i64::MAX * below,
                Err(_) => false,
            }
        }),
{
    literals::law_literals_mean_what_their_digits_say::<P>(l);
}

/// Digits alone count major units.
pub proof fn law_digits_alone_count_major_units<const P: u8>(
    s: &str,
    r: Result<Amount<P>, MoneyError>,
)
    requires
        call_ensures(Amount::<P>::parse, (s,), r),
        s@.len() > 0,
        literals::is_digits(s@),
        P <= 18,
    ensures
        is_exactly(r, literals::place_value(s@) * power::pow(10, P as nat)),
{
    let l = Literal {
        before: Seq::empty(),
        sign: Seq::empty(),
        whole: s@,
        pointed: false,
        part: Seq::empty(),
        after: Seq::empty(),
    };
    assert(l.wf());
    assert(l.written() =~= s@);
    assert(l.whole + l.part =~= s@);
    law_parsing_reads_what_the_digits_say::<P>(s, l, r);
    power::lemma_pow0(10);
    assert(l.sign != seq!['-']) by {
        assert(l.sign.len() != seq!['-'].len());
    }
    assert((literals::place_value(s@) * power::pow(10, P as nat)) % 1 == 0);
}

/// Closing postings are the opposite of what is to close, and what they take up on
/// equity.
pub proof fn law_closing_answers_with_the_opposite<const P: u8>(
    balances: &TrialBalance<P>,
    accounts: &AccountRegistry,
    kinds: &[AccountKind],
    equity: AccountId,
    layer: Layer,
    r: Result<Vec<Posting<P>>, ClosingError>,
)
    requires
        call_ensures(closing_postings::<P>, (balances, accounts, kinds, equity, layer), r),
    ensures
        ({
            let scope = Scope { accounts: accounts@, kinds: kinds@, equity, layer };
            let rows = balances.rows();
            match r {
                Ok(postings) => {
                    let legs = rows.filter(
                        |row: (BalanceKey, Balance<P>)|
                            closing::closes(scope, row.0) && row.1.debits.minor
                                != row.1.credits.minor,
                    ).map_values(|row: (BalanceKey, Balance<P>)| closing::opposing(row.0, row.1));
                    &&& legs.len() <= postings@.len()
                    &&& forall|j: int|
                        0 <= j < legs.len() ==> (#[trigger] postings@[j])@ == legs[j]
                    &&& forall|j: int|
                        legs.len() <= j < postings@.len() ==> closing::takes_up(
                            scope,
                            (#[trigger] postings@[j])@,
                            postings@[j].currency@,
                            closing::result_in(
                                scope,
                                rows,
                                rows.len() as int,
                                postings@[j].currency,
                            ),
                        )
                },
                Err(ClosingError::UnknownEquityAccount { account }) => account == equity
                    && equity.position >= accounts@.len(),
                Err(ClosingError::EquityInScope { account }) => account == equity
                    && closing::classified(scope, equity),
                Err(ClosingError::Money(e)) => e == MoneyError::Overflow && !(closing::nets_fit(
                    scope,
                    rows,
                    rows.len() as int,
                ) && forall|currency: Currency| #[trigger]
                    closing::result_in(scope, rows, rows.len() as int, currency) > i64::MIN),
            }
        }),
{
    let scope = Scope { accounts: accounts@, kinds: kinds@, equity, layer };
    let rows = balances.rows();
    closing::law_closing_is_refused_only_with_cause(scope, rows);
    if let Ok(postings) = r {
        closing::law_closing_posts_the_opposite_of_what_it_closes(scope, rows);
        let all = crate::entry::movements(postings@);
        let legs = rows.filter(
            |row: (BalanceKey, Balance<P>)|
                closing::closes(scope, row.0) && row.1.debits.minor != row.1.credits.minor,
        ).map_values(|row: (BalanceKey, Balance<P>)| closing::opposing(row.0, row.1));
        assert forall|j: int| 0 <= j < legs.len() implies (#[trigger] postings@[j])@
            == legs[j] by {
            assert(all.take(legs.len() as int)[j] == all[j]);
        }
        assert forall|j: int| legs.len() <= j < postings@.len() implies closing::takes_up(
            scope,
            (#[trigger] postings@[j])@,
            postings@[j].currency@,
            closing::result_in(scope, rows, rows.len() as int, postings@[j].currency),
        ) by {
            assert(all[j] == postings@[j]@);
        }
    }
}

/// Shares add up to what was split, each within one unit of its exact part.
pub proof fn law_shares_are_within_one_unit<const P: u8>(
    whole: Amount<P>,
    weights: &[u64],
    r: Result<Vec<Amount<P>>, MoneyError>,
    i: int,
)
    requires
        call_ensures(Amount::<P>::allocate, (whole, weights), r),
        r is Ok,
        0 <= i < weights@.len(),
    ensures
        ({
            let parts = r->Ok_0@;
            let total = money::weight_sum(weights@) as int;
            let exact = whole.minor * weights@[i];
            &&& parts.len() == weights@.len()
            &&& money::sum_minor(parts) == whole.minor
            &&& exact - total <= parts[i].minor * total <= exact + total
        }),
{
    let m = money::magnitude_of(whole.minor as int);
    let total = money::weight_sum(weights@) as int;
    let share = money::share(m, weights@, i) as int;
    let w = weights@[i] as int;
    splitting::law_splits_are_by_largest_remainder(m, weights@, i, i);
    let part = (r->Ok_0@)[i].minor as int;
    assert(part == money::with_sign_of(whole.minor as int, share as nat));
    if whole.minor < 0 {
        assert((0 - share) * total == 0 - share * total) by (nonlinear_arith);
        assert((0 - m) * w == 0 - m * w) by (nonlinear_arith);
    }
}

/// Parts add up to what was distributed, no two differ by more than one unit, the
/// leading ones are the larger in magnitude, and none has the other sign. Only no
/// parts at all, or the one amount without an opposite kept whole, is refused.
pub proof fn law_parts_are_as_even_as_can_be<const P: u8>(
    whole: Amount<P>,
    n: usize,
    r: Result<Vec<Amount<P>>, MoneyError>,
    i: int,
    j: int,
)
    requires
        call_ensures(Amount::<P>::distribute, (whole, n), r),
    ensures
        r is Err <==> n == 0 || (n == 1 && whole.minor == i64::MIN),
        r is Ok ==> r->Ok_0@.len() == n && money::sum_minor(r->Ok_0@) == whole.minor,
        r is Ok && 0 <= i <= j < n ==> {
            let (first, second) = (r->Ok_0@[i].minor, r->Ok_0@[j].minor);
            if whole.minor >= 0 {
                0 <= second <= first <= second + 1
            } else {
                second - 1 <= first <= second <= 0
            }
        },
{
    if r is Ok && 0 <= i <= j < n {
        splitting::law_even_splits_favour_the_leading_parts(
            money::magnitude_of(whole.minor as int),
            n as nat,
            i,
            j,
        );
    }
}

/// An account accepts postings on the days of its window and on no other.
pub proof fn law_accounts_answer_by_their_window(a: Account, day: Date, r: bool)
    requires
        call_ensures(Account::is_open_on, (&a, day), r),
    ensures
        r <==> a.opened_on@ <= day@ && (a.closed_on matches Some(last) ==> day@ <= last@),
{
}

/// A limit permits a balance that nets to its side, and every balance where it
/// limits nothing.
pub proof fn law_limits_permit_by_the_net<const P: u8>(
    limit: BalanceLimit,
    b: Balance<P>,
    r: bool,
)
    requires
        call_ensures(BalanceLimit::permits::<P>, (limit, &b), r),
    ensures
        r <==> match limit {
            BalanceLimit::Unlimited => true,
            BalanceLimit::NoCreditBalance => 0 <= b.debits.minor - b.credits.minor <= i64::MAX,
            BalanceLimit::NoDebitBalance => i64::MIN <= b.debits.minor - b.credits.minor <= 0,
        },
{
}

/// A draft passes validation exactly when nothing can be said against it, and is
/// otherwise refused with all that can.
pub proof fn law_validation_answers_with_what_is_so<const P: u8>(
    draft: Entry<Draft, P>,
    context: &SealContext<'_>,
    r: Result<Entry<Balanced, P>, ValidationErrors>,
    v: Violation,
)
    requires
        call_ensures(Entry::<Draft, P>::seal, (draft, context), r),
        periods::apart(context.calendar@),
    ensures
        match r {
            Ok(entry) => entry@ == draft@ && !validation::is_so::<P>(
                v,
                draft@,
                context.accounts@,
                context.calendar@,
                context.policy@,
            ),
            Err(errors) => errors@.len() > 0 && (errors@.contains(v) <==> validation::is_so::<P>(
                v,
                draft@,
                context.accounts@,
                context.calendar@,
                context.policy@,
            )),
        },
{
    validation::law_validation_reports_what_is_so::<P>(
        draft@,
        context.accounts@,
        context.calendar@,
        context.policy@,
        v,
    );
}

/// A chart of accounts brought back by its commitment is the longest prefix of the
/// chart with that commitment, and the whole where the commitment is to the whole.
pub proof fn law_commitments_bring_back_their_chart(
    registry: &AccountRegistry,
    root: &Digest,
    r: Option<AccountRegistry>,
    n: int,
)
    requires
        call_ensures(AccountRegistry::as_of, (registry, root), r),
        r is Some,
        0 <= n <= registry@.len(),
    ensures
        r->0@.len() <= registry@.len(),
        r->0@ == registry@.take(r->0@.len() as int),
        account::commitment_of(r->0@).root == *root,
        account::commitment_of(registry@.take(n)).root == *root ==> n <= r->0@.len(),
        account::commitment_of(registry@).root == *root ==> r->0@ == registry@,
{
    let all = registry@;
    assert(all.take(all.len() as int) =~= all);
    assert(account::committed_at(all, n, *root) <==> account::commitment_of(all.take(n)).root
        == *root);
    assert(account::committed_at(all, all.len() as int, *root) <==> account::commitment_of(
        all,
    ).root == *root);
}

} // verus!
