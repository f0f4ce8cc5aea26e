//! What validation holds against an entry.

use crate::account::{self, AccountFacts};
use crate::balance::{self, Balance};
use crate::entry::{self, CurrencyPolicy, EntryFacts, PolicyFacts, Violation};
use crate::laws::periods as calendar;
use crate::money::Currency;
use crate::ordered;
use crate::period::{self, PeriodFacts};
use crate::posting::{self, Direction};
use vstd::prelude::*;

verus! {

/// True when one path continues another: it has its segments, and perhaps more.
pub open spec fn continues(path: Seq<Seq<char>>, other: Seq<Seq<char>>) -> bool {
    path.len() >= other.len() && forall|s: int|
        0 <= s < other.len() ==> #[trigger] path[s] == other[s]
}

/// True when another account stands below the one at `at`.
pub open spec fn has_accounts_below(accounts: Seq<AccountFacts>, at: int) -> bool {
    exists|j: int|
        0 <= j < accounts.len() && j != at && continues(
            (#[trigger] accounts[j]).path,
            accounts[at].path,
        )
}

/// True when an account may be posted to on a day: it has opened, and has not
/// closed before.
pub open spec fn in_window(account: AccountFacts, day: int) -> bool {
    account.opened_on@ <= day && match account.closed_on {
        Some(last) => day <= last@,
        None => true,
    }
}

/// What the first `n` postings add up to on one side in one currency. A posting
/// that would leave the range of an amount is not counted.
pub open spec fn counted(
    postings: Seq<posting::Movement>,
    n: int,
    code: Seq<u8>,
    side: Direction,
) -> int
    decreases n,
{
    if n <= 0 {
        0
    } else {
        let before = counted(postings, n - 1, code, side);
        let m = postings[n - 1];
        if m.currency@ == code && m.direction == side && i64::MIN <= before + m.minor <= i64::MAX {
            before + m.minor
        } else {
            before
        }
    }
}

/// True when what a violation says of an entry is so.
pub open spec fn is_so<const P: u8>(
    v: Violation,
    e: EntryFacts,
    accounts: Seq<AccountFacts>,
    periods: Map<Seq<char>, PeriodFacts>,
    policy: PolicyFacts,
) -> bool {
    let n = e.postings.len() as int;
    match v {
        Violation::TooFewPostings { count } => count == n && n < 2,
        Violation::TooManyPostings { count } => count == n && n > 0x7fff,
        Violation::ZeroAmount { index } => 0 <= index < n && e.postings[index].minor == 0,
        Violation::NegativeAmount { index } => 0 <= index < n && e.postings[index].minor < 0,
        Violation::UnknownAccount { index, account } => 0 <= index < n
            && e.postings[index].account == account && account.position >= accounts.len(),
        Violation::NonLeafAccount { index, account } => 0 <= index < n
            && e.postings[index].account == account && account.position < accounts.len()
            && has_accounts_below(accounts, account.position as int),
        Violation::AccountNotOpen { index, account, on } => 0 <= index < n
            && e.postings[index].account == account && account.position < accounts.len() && on
            == e.booking_date && !in_window(accounts[account.position as int], on@),
        Violation::Unbalanced { currency, debits, credits, difference, scale } => {
            &&& exists|i: int| 0 <= i < n && (#[trigger] e.postings[i]).currency@ == currency
            &&& debits == counted(e.postings, n, currency, Direction::Debit)
            &&& credits == counted(e.postings, n, currency, Direction::Credit)
            &&& debits != credits
            &&& difference == (if debits - credits > i64::MAX {
                i64::MAX as int
            } else if debits - credits < i64::MIN {
                i64::MIN as int
            } else {
                debits - credits
            })
            &&& scale == P
        },
        Violation::ClosedPeriod { on, state } => on == e.booking_date && calendar::governs(
            periods,
            on@,
            state,
        ) && state !is Open,
        Violation::CurrencyNotAllowed { currency } => policy.currency matches CurrencyPolicy::Single(
            allowed,
        ) && currency != allowed@ && exists|i: int|
            0 <= i < n && (#[trigger] e.postings[i]).currency@ == currency,
        Violation::MissingDimension { index, axis } => 0 <= index < n && policy.required.contains(
            axis,
        ) && forall|k: int|
            0 <= k < e.postings[index].dimensions.len() ==> (
            #[trigger] e.postings[index].dimensions[k]).0 != axis,
        Violation::ValueDateDrift { booking, value, max_days } => booking == e.booking_date
            && value == e.value_date && policy.max_drift == Some(max_days as i64) && i64::MIN
            <= max_days <= i64::MAX && !(-max_days <= value@ - booking@ <= max_days),
        Violation::Overflow { currency } => exists|i: int|
            0 <= i < n && (#[trigger] e.postings[i]).currency@ == currency && !(i64::MIN
                <= counted(e.postings, i, currency, e.postings[i].direction) + e.postings[i].minor
                <= i64::MAX),
    }
}

proof fn lemma_either(a: Seq<Violation>, b: Seq<Violation>, v: Violation)
    ensures
        (a + b).contains(v) <==> a.contains(v) || b.contains(v),
{
    if a.contains(v) {
        let i = choose|i: int| 0 <= i < a.len() && a[i] == v;
        assert((a + b)[i] == v);
    }
    if b.contains(v) {
        let i = choose|i: int| 0 <= i < b.len() && b[i] == v;
        assert((a + b)[a.len() + i] == v);
    }
    if (a + b).contains(v) {
        let i = choose|i: int| 0 <= i < (a + b).len() && (a + b)[i] == v;
        if i < a.len() {
            assert(a[i] == v);
        } else {
            assert(b[i - a.len()] == v);
        }
    }
}

proof fn lemma_single(x: Violation, v: Violation)
    ensures
        seq![x].contains(v) <==> x == v,
        !Seq::<Violation>::empty().contains(v),
{
    assert(seq![x][0] == x);
}

/// An account has no other below it exactly when no other account's path continues
/// its own.
pub proof fn law_leaves_have_nothing_below(accounts: Seq<AccountFacts>, at: int)
    requires
        0 <= at < accounts.len(),
    ensures
        account::is_leaf_at(accounts, at) <==> !has_accounts_below(accounts, at),
{
    assert forall|j: int| 0 <= j < accounts.len() implies account::is_under(
        (#[trigger] accounts[j]).path,
        accounts[at].path,
    ) == continues(accounts[j].path, accounts[at].path) by {
        lemma_under(accounts[j].path, accounts[at].path);
    }
    if has_accounts_below(accounts, at) {
        let j = choose|j: int|
            0 <= j < accounts.len() && j != at && continues(
                (#[trigger] accounts[j]).path,
                accounts[at].path,
            );
        assert(account::is_under(accounts[j].path, accounts[at].path));
    }
}

/// A path is under another exactly when it continues it.
pub proof fn lemma_under(path: Seq<Seq<char>>, prefix: Seq<Seq<char>>)
    ensures
        account::is_under(path, prefix) <==> continues(path, prefix),
{
    if account::is_under(path, prefix) {
        assert forall|s: int| 0 <= s < prefix.len() implies #[trigger] path[s] == prefix[s] by {
            assert(path.take(prefix.len() as int)[s] == path[s]);
        }
    }
    if continues(path, prefix) {
        assert(path.take(prefix.len() as int) =~= prefix);
    }
}

proof fn lemma_axes(m: posting::Movement, index: int, required: Seq<Seq<char>>, v: Violation)
    ensures
        entry::dimension_faults(m, index, required).contains(v) <==> (
        v matches Violation::MissingDimension { index: at, axis } && at == index
            && required.contains(axis) && forall|k: int|
            0 <= k < m.dimensions.len() ==> (#[trigger] m.dimensions[k]).0 != axis),
    decreases required.len(),
{
    if required.len() > 0 {
        let fewer = required.drop_last();
        let last = required.last();
        lemma_axes(m, index, fewer, v);
        let before = entry::dimension_faults(m, index, fewer);
        lemma_either(before, seq![Violation::MissingDimension { index, axis: last }], v);
        lemma_single(Violation::MissingDimension { index, axis: last }, v);
        assert(before.push(Violation::MissingDimension { index, axis: last }) =~= before + seq![
            Violation::MissingDimension { index, axis: last },
        ]);
        assert forall|axis: Seq<char>| #[trigger] required.contains(axis) <==> fewer.contains(axis)
            || axis == last by {
            if required.contains(axis) {
                let k = choose|k: int| 0 <= k < required.len() && required[k] == axis;
                if k < fewer.len() {
                    assert(fewer[k] == axis);
                }
            }
            if fewer.contains(axis) {
                let k = choose|k: int| 0 <= k < fewer.len() && fewer[k] == axis;
                assert(required[k] == axis);
            }
            assert(required[required.len() - 1] == last);
        }
    }
}

proof fn lemma_counted<const P: u8>(postings: Seq<posting::Movement>, n: int, code: Seq<u8>)
    requires
        0 <= n <= postings.len(),
    ensures
        entry::total_in(entry::tally::<P>(postings.take(n)), code).debits.minor == counted(
            postings,
            n,
            code,
            Direction::Debit,
        ),
        entry::total_in(entry::tally::<P>(postings.take(n)), code).credits.minor == counted(
            postings,
            n,
            code,
            Direction::Credit,
        ),
        entry::tally::<P>(postings.take(n)).contains_key(code) <==> exists|i: int|
            0 <= i < n && (#[trigger] postings[i]).currency@ == code,
    decreases n,
{
    if n > 0 {
        lemma_counted::<P>(postings, n - 1, code);
        let some = postings.take(n);
        assert(some.drop_last() =~= postings.take(n - 1));
        assert(some.last() == postings[n - 1]);
        let before = entry::tally::<P>(postings.take(n - 1));
        if before.contains_key(code) {
            let i = choose|i: int| 0 <= i < n - 1 && (#[trigger] postings[i]).currency@ == code;
            assert(0 <= i < n);
        }
        if postings[n - 1].currency@ == code {
            assert(entry::tally::<P>(some).contains_key(code));
        } else {
            assert(entry::tally::<P>(some).contains_key(code) == before.contains_key(code));
            if exists|i: int| 0 <= i < n && (#[trigger] postings[i]).currency@ == code {
                let i = choose|i: int| 0 <= i < n && (#[trigger] postings[i]).currency@ == code;
                assert(i < n - 1);
            }
        }
    }
}

proof fn lemma_imbalances<const P: u8>(
    totals: Map<Seq<u8>, Balance<P>>,
    codes: Seq<Seq<u8>>,
    v: Violation,
)
    ensures
        entry::imbalance_faults(totals, codes).contains(v) <==> (v matches Violation::Unbalanced {
            currency,
            debits,
            credits,
            difference,
            scale,
        } && codes.contains(currency) && debits == totals[currency].debits.minor && credits
            == totals[currency].credits.minor && debits != credits && difference == entry::clamped(
            debits - credits,
        ) && scale == P),
    decreases codes.len(),
{
    if codes.len() > 0 {
        let fewer = codes.drop_last();
        let last = codes.last();
        lemma_imbalances(totals, fewer, v);
        let before = entry::imbalance_faults(totals, fewer);
        let total = totals[last];
        let x = Violation::Unbalanced {
            currency: last,
            debits: total.debits.minor as int,
            credits: total.credits.minor as int,
            difference: entry::clamped(total.debits.minor - total.credits.minor),
            scale: P as int,
        };
        lemma_either(before, seq![x], v);
        lemma_single(x, v);
        assert(before.push(x) =~= before + seq![x]);
        assert forall|code: Seq<u8>| #[trigger] codes.contains(code) <==> fewer.contains(code)
            || code == last by {
            if codes.contains(code) {
                let k = choose|k: int| 0 <= k < codes.len() && codes[k] == code;
                if k < fewer.len() {
                    assert(fewer[k] == code);
                }
            }
            if fewer.contains(code) {
                let k = choose|k: int| 0 <= k < fewer.len() && fewer[k] == code;
                assert(codes[k] == code);
            }
            assert(codes[codes.len() - 1] == last);
        }
    }
}

/// True when what a violation says of posting `i` is so.
spec fn is_so_at<const P: u8>(
    v: Violation,
    e: EntryFacts,
    i: int,
    accounts: Seq<AccountFacts>,
    policy: PolicyFacts,
) -> bool {
    let m = e.postings[i];
    let at = m.account.position as int;
    match v {
        Violation::ZeroAmount { index } => index == i && m.minor == 0,
        Violation::NegativeAmount { index } => index == i && m.minor < 0,
        Violation::UnknownAccount { index, account } => index == i && account == m.account && at
            >= accounts.len(),
        Violation::NonLeafAccount { index, account } => index == i && account == m.account && at
            < accounts.len() && has_accounts_below(accounts, at),
        Violation::AccountNotOpen { index, account, on } => index == i && account == m.account
            && at < accounts.len() && on == e.booking_date && !in_window(accounts[at], on@),
        Violation::CurrencyNotAllowed { currency } => policy.currency matches CurrencyPolicy::Single(
            allowed,
        ) && currency != allowed@ && m.currency@ == currency,
        Violation::MissingDimension { index, axis } => index == i && policy.required.contains(axis)
            && forall|k: int|
            0 <= k < m.dimensions.len() ==> (#[trigger] m.dimensions[k]).0 != axis,
        Violation::Overflow { currency } => m.currency@ == currency && !(i64::MIN <= counted(
            e.postings,
            i,
            currency,
            m.direction,
        ) + m.minor <= i64::MAX),
        _ => false,
    }
}

proof fn lemma_posting<const P: u8>(
    e: EntryFacts,
    i: int,
    accounts: Seq<AccountFacts>,
    policy: PolicyFacts,
    v: Violation,
)
    requires
        0 <= i < e.postings.len(),
    ensures
        entry::posting_faults::<P>(e, i, accounts, policy).contains(v) <==> is_so_at::<P>(
            v,
            e,
            i,
            accounts,
            policy,
        ),
{
    let m = e.postings[i];
    let at = m.account.position as int;
    let a = entry::amount_faults(m, i);
    let b = entry::account_faults(m, i, accounts, e.booking_date);
    let c = entry::currency_faults(m, policy.currency);
    let d = entry::dimension_faults(m, i, policy.required);
    let o = entry::overflow_faults::<P>(e.postings, i);
    lemma_either(a, b, v);
    lemma_either(a + b, c, v);
    lemma_either(a + b + c, d, v);
    lemma_either(a + b + c + d, o, v);
    lemma_single(Violation::ZeroAmount { index: i }, v);
    lemma_single(Violation::NegativeAmount { index: i }, v);
    lemma_single(Violation::UnknownAccount { index: i, account: m.account }, v);
    let branch = Violation::NonLeafAccount { index: i, account: m.account };
    let shut = Violation::AccountNotOpen { index: i, account: m.account, on: e.booking_date };
    lemma_single(branch, v);
    lemma_single(shut, v);
    if at < accounts.len() {
        law_leaves_have_nothing_below(accounts, at);
        let leaf = if account::is_leaf_at(accounts, at) {
            Seq::empty()
        } else {
            seq![branch]
        };
        let open = if account::open_on(accounts[at], e.booking_date@) {
            Seq::empty()
        } else {
            seq![shut]
        };
        lemma_either(leaf, open, v);
        assert(b == leaf + open);
    }
    lemma_single(Violation::CurrencyNotAllowed { currency: m.currency@ }, v);
    if let CurrencyPolicy::Single(allowed) = policy.currency {
        if m.currency@ == allowed@ {
            Currency::lemma_code_determines(m.currency, allowed);
        }
    }
    lemma_axes(m, i, policy.required, v);
    lemma_single(Violation::Overflow { currency: m.currency@ }, v);
    lemma_counted::<P>(e.postings, i, m.currency@);
}

proof fn lemma_postings<const P: u8>(
    e: EntryFacts,
    n: int,
    accounts: Seq<AccountFacts>,
    policy: PolicyFacts,
    v: Violation,
)
    requires
        0 <= n <= e.postings.len(),
    ensures
        entry::postings_faults::<P>(e, n, accounts, policy).contains(v) <==> exists|i: int|
            0 <= i < n && #[trigger] is_so_at::<P>(v, e, i, accounts, policy),
    decreases n,
{
    if n > 0 {
        lemma_postings::<P>(e, n - 1, accounts, policy, v);
        lemma_posting::<P>(e, n - 1, accounts, policy, v);
        lemma_either(
            entry::postings_faults::<P>(e, n - 1, accounts, policy),
            entry::posting_faults::<P>(e, n - 1, accounts, policy),
            v,
        );
    }
}

/// Validation reports a violation exactly when what it says of the entry is so:
/// every one there is, and none that is not. The entry is accepted when nothing can
/// be said against it.
pub proof fn law_validation_reports_what_is_so<const P: u8>(
    e: EntryFacts,
    accounts: Seq<AccountFacts>,
    periods: Map<Seq<char>, PeriodFacts>,
    policy: PolicyFacts,
    v: Violation,
)
    requires
        calendar::apart(periods),
    ensures
        entry::faults::<P>(e, accounts, periods, policy).contains(v) <==> is_so::<P>(
            v,
            e,
            accounts,
            periods,
            policy,
        ),
{
    let n = e.postings.len() as int;
    let totals = entry::tally::<P>(e.postings);
    let codes = ordered::sorted_keys::<Currency, Balance<P>>(totals);
    let state = period::governing_state(periods, e.booking_date@);
    let a = entry::count_faults(n);
    let b = entry::postings_faults::<P>(e, n, accounts, policy);
    let c = entry::imbalance_faults(totals, codes);
    let d = entry::period_faults(e.booking_date, state);
    let f = entry::drift_faults(e.booking_date, e.value_date, policy.max_drift);
    lemma_either(a, b, v);
    lemma_either(a + b, c, v);
    lemma_either(a + b + c, d, v);
    lemma_either(a + b + c + d, f, v);
    lemma_single(Violation::TooFewPostings { count: n }, v);
    lemma_single(Violation::TooManyPostings { count: n }, v);
    lemma_postings::<P>(e, n, accounts, policy, v);
    lemma_imbalances(totals, codes, v);
    entry::lemma_tally_is_listed::<P>(e.postings);
    assert(e.postings.take(n) =~= e.postings);
    if let Violation::Unbalanced { currency, debits, credits, difference, scale } = v {
        lemma_counted::<P>(e.postings, n, currency);
        assert(totals.contains_key(currency) <==> codes.contains(currency));
    }
    lemma_single(Violation::ClosedPeriod { on: e.booking_date, state }, v);
    if let Violation::ClosedPeriod { on, state: other } = v {
        calendar::law_one_state_governs_each_day(periods, on@, other);
    }
    if policy.max_drift is Some {
        lemma_single(
            Violation::ValueDateDrift {
                booking: e.booking_date,
                value: e.value_date,
                max_days: policy.max_drift->0 as int,
            },
            v,
        );
    }
    lemma_at_some_posting::<P>(v, e, accounts, periods, policy);
}

proof fn lemma_at_some_posting<const P: u8>(
    v: Violation,
    e: EntryFacts,
    accounts: Seq<AccountFacts>,
    periods: Map<Seq<char>, PeriodFacts>,
    policy: PolicyFacts,
)
    ensures
        match v {
            Violation::TooFewPostings { .. }
            | Violation::TooManyPostings { .. }
            | Violation::Unbalanced { .. }
            | Violation::ClosedPeriod { .. }
            | Violation::ValueDateDrift { .. } => !(exists|i: int|
                0 <= i < e.postings.len() && #[trigger] is_so_at::<P>(v, e, i, accounts, policy)),
            _ => is_so::<P>(v, e, accounts, periods, policy) <==> exists|i: int|
                0 <= i < e.postings.len() && #[trigger] is_so_at::<P>(v, e, i, accounts, policy),
        },
{
    let n = e.postings.len() as int;
    match v {
        Violation::ZeroAmount { index }
        | Violation::NegativeAmount { index }
        | Violation::UnknownAccount { index, .. }
        | Violation::NonLeafAccount { index, .. }
        | Violation::AccountNotOpen { index, .. }
        | Violation::MissingDimension { index, .. } => {
            if is_so::<P>(v, e, accounts, periods, policy) {
                assert(is_so_at::<P>(v, e, index, accounts, policy));
            }
        },
        Violation::CurrencyNotAllowed { currency } => {
            if is_so::<P>(v, e, accounts, periods, policy) {
                let i = choose|i: int|
                    0 <= i < n && (#[trigger] e.postings[i]).currency@ == currency;
                assert(is_so_at::<P>(v, e, i, accounts, policy));
            }
        },
        Violation::Overflow { currency } => {
            if is_so::<P>(v, e, accounts, periods, policy) {
                let i = choose|i: int|
                    0 <= i < n && (#[trigger] e.postings[i]).currency@ == currency && !(i64::MIN
                        <= counted(e.postings, i, currency, e.postings[i].direction)
                        + e.postings[i].minor <= i64::MAX);
                assert(is_so_at::<P>(v, e, i, accounts, policy));
            }
        },
        _ => {},
    }
}

// ── the order of reports ────────────────────────────────────────────────────

/// Where in a report a violation stands: the number of postings first, then each
/// posting, then the currencies, the period, and the value date.
pub open spec fn stage(v: Violation) -> int {
    match v {
        Violation::TooFewPostings { .. } | Violation::TooManyPostings { .. } => 0,
        Violation::Unbalanced { .. } => 2,
        Violation::ClosedPeriod { .. } => 3,
        Violation::ValueDateDrift { .. } => 4,
        _ => 1,
    }
}

/// The posting a violation names, if it names one.
pub open spec fn names_posting(v: Violation) -> Option<int> {
    match v {
        Violation::ZeroAmount { index }
        | Violation::NegativeAmount { index }
        | Violation::UnknownAccount { index, .. }
        | Violation::NonLeafAccount { index, .. }
        | Violation::AccountNotOpen { index, .. }
        | Violation::MissingDimension { index, .. } => Some(index),
        _ => None,
    }
}

/// True when a violation may be reported ahead of another.
pub open spec fn may_precede(v: Violation, w: Violation) -> bool {
    &&& stage(v) <= stage(w)
    &&& names_posting(v) is Some && names_posting(w) is Some ==> names_posting(v)->0
        <= names_posting(w)->0
    &&& v is Unbalanced && w is Unbalanced ==> ordered::bytes_before(
        v->Unbalanced_currency,
        w->Unbalanced_currency,
    )
}

/// True when every violation of a run may precede every later one.
pub open spec fn in_report_order(vs: Seq<Violation>) -> bool {
    forall|p: int, q: int|
        0 <= p < q < vs.len() ==> may_precede(#[trigger] vs[p], #[trigger] vs[q])
}

proof fn lemma_follows(a: Seq<Violation>, b: Seq<Violation>)
    requires
        in_report_order(a),
        in_report_order(b),
        forall|p: int, q: int|
            0 <= p < a.len() && 0 <= q < b.len() ==> may_precede(#[trigger] a[p], #[trigger] b[q]),
    ensures
        in_report_order(a + b),
{
    let all = a + b;
    assert forall|p: int, q: int| 0 <= p < q < all.len() implies may_precede(
        #[trigger] all[p],
        #[trigger] all[q],
    ) by {
        if q < a.len() {
            assert(all[p] == a[p] && all[q] == a[q]);
        } else if p < a.len() {
            assert(all[p] == a[p] && all[q] == b[q - a.len()]);
        } else {
            assert(all[p] == b[p - a.len()] && all[q] == b[q - a.len()]);
        }
    }
}

proof fn lemma_postings_in_order<const P: u8>(
    e: EntryFacts,
    n: int,
    accounts: Seq<AccountFacts>,
    policy: PolicyFacts,
)
    requires
        0 <= n <= e.postings.len(),
    ensures
        in_report_order(entry::postings_faults::<P>(e, n, accounts, policy)),
        forall|p: int|
            0 <= p < entry::postings_faults::<P>(e, n, accounts, policy).len() ==> {
                let v = #[trigger] entry::postings_faults::<P>(e, n, accounts, policy)[p];
                stage(v) == 1 && (names_posting(v) matches Some(i) ==> i < n)
            },
    decreases n,
{
    if n > 0 {
        lemma_postings_in_order::<P>(e, n - 1, accounts, policy);
        let a = entry::postings_faults::<P>(e, n - 1, accounts, policy);
        let b = entry::posting_faults::<P>(e, n - 1, accounts, policy);
        assert forall|q: int| 0 <= q < b.len() implies stage(#[trigger] b[q]) == 1 && (
        names_posting(b[q]) matches Some(i) ==> i == n - 1) by {
            lemma_posting::<P>(e, n - 1, accounts, policy, b[q]);
            assert(b.contains(b[q]));
        }
        lemma_follows(a, b);
        let all = a + b;
        assert forall|p: int| 0 <= p < all.len() implies ({
            let v = #[trigger] all[p];
            stage(v) == 1 && (names_posting(v) matches Some(i) ==> i < n)
        }) by {
            if p < a.len() {
                assert(all[p] == a[p]);
            } else {
                assert(all[p] == b[p - a.len()]);
            }
        }
    }
}

proof fn lemma_imbalances_in_order<const P: u8>(
    totals: Map<Seq<u8>, Balance<P>>,
    codes: Seq<Seq<u8>>,
)
    requires
        ordered::ascending::<Currency>(codes),
    ensures
        in_report_order(entry::imbalance_faults(totals, codes)),
    decreases codes.len(),
{
    if codes.len() > 0 {
        let fewer = codes.drop_last();
        assert(ordered::ascending::<Currency>(fewer)) by {
            assert forall|i: int, j: int| 0 <= i < j < fewer.len() implies <Currency as ordered::Key>::before(
                #[trigger] fewer[i],
                #[trigger] fewer[j],
            ) by {
                assert(fewer[i] == codes[i] && fewer[j] == codes[j]);
            }
        }
        lemma_imbalances_in_order(totals, fewer);
        let a = entry::imbalance_faults(totals, fewer);
        let all = entry::imbalance_faults(totals, codes);
        if all.len() > a.len() {
            let b = seq![all.last()];
            assert(all =~= a + b);
            assert forall|p: int, q: int| 0 <= p < a.len() && 0 <= q < b.len() implies may_precede(
                #[trigger] a[p],
                #[trigger] b[q],
            ) by {
                lemma_imbalances(totals, fewer, a[p]);
                assert(a.contains(a[p]));
                let code = a[p]->Unbalanced_currency;
                let k = choose|k: int| 0 <= k < fewer.len() && fewer[k] == code;
                assert(codes[k] == code);
                assert(<Currency as ordered::Key>::before(codes[k], codes[codes.len() - 1]));
            }
            lemma_follows(a, b);
        }
    }
}

/// Violations are reported in order: the number of postings, each posting in turn,
/// the currencies that do not balance by code, the period, the value date.
pub proof fn law_violations_are_reported_in_order<const P: u8>(
    e: EntryFacts,
    accounts: Seq<AccountFacts>,
    periods: Map<Seq<char>, PeriodFacts>,
    policy: PolicyFacts,
)
    ensures
        in_report_order(entry::faults::<P>(e, accounts, periods, policy)),
{
    let n = e.postings.len() as int;
    let totals = entry::tally::<P>(e.postings);
    let codes = ordered::sorted_keys::<Currency, Balance<P>>(totals);
    let state = period::governing_state(periods, e.booking_date@);
    let a = entry::count_faults(n);
    let b = entry::postings_faults::<P>(e, n, accounts, policy);
    let c = entry::imbalance_faults(totals, codes);
    let d = entry::period_faults(e.booking_date, state);
    let f = entry::drift_faults(e.booking_date, e.value_date, policy.max_drift);
    lemma_postings_in_order::<P>(e, n, accounts, policy);
    entry::lemma_tally_is_listed::<P>(e.postings);
    lemma_imbalances_in_order(totals, codes);
    assert forall|p: int| 0 <= p < c.len() implies stage(#[trigger] c[p]) == 2 by {
        lemma_imbalances(totals, codes, c[p]);
        assert(c.contains(c[p]));
    }
    lemma_follows(a, b);
    let ab = a + b;
    assert forall|p: int| 0 <= p < ab.len() implies stage(#[trigger] ab[p]) <= 1 by {
        if p < a.len() {
            assert(ab[p] == a[p]);
        } else {
            assert(ab[p] == b[p - a.len()]);
        }
    }
    lemma_follows(ab, c);
    let abc = ab + c;
    assert forall|p: int| 0 <= p < abc.len() implies stage(#[trigger] abc[p]) <= 2 by {
        if p < ab.len() {
            assert(abc[p] == ab[p]);
        } else {
            assert(abc[p] == c[p - ab.len()]);
        }
    }
    lemma_follows(abc, d);
    let abcd = abc + d;
    assert forall|p: int| 0 <= p < abcd.len() implies stage(#[trigger] abcd[p]) <= 3 by {
        if p < abc.len() {
            assert(abcd[p] == abc[p]);
        } else {
            assert(abcd[p] == d[p - abc.len()]);
        }
    }
    lemma_follows(abcd, f);
}

// ── totals ──────────────────────────────────────────────────────────────────

/// What the first `n` postings move on one side in one currency.
pub open spec fn moved_in(
    postings: Seq<posting::Movement>,
    n: int,
    code: Seq<u8>,
    side: Direction,
) -> int
    decreases n,
{
    if n <= 0 {
        0
    } else {
        let m = postings[n - 1];
        moved_in(postings, n - 1, code, side) + if m.currency@ == code && m.direction == side {
            m.minor
        } else {
            0
        }
    }
}

/// The totals of postings are, per currency that occurs in them, the sums of their
/// debits and of their credits. There are none exactly when one of the sums leaves
/// the range of an amount on the way.
pub proof fn law_totals_are_the_sums_of_the_sides<const P: u8>(
    postings: Seq<posting::Movement>,
    n: int,
    code: Seq<u8>,
)
    requires
        0 <= n <= postings.len(),
    ensures
        entry::totals_of::<P>(postings.take(n)) is Ok <==> (forall|i: int|
            0 <= i < n ==> i64::MIN <= moved_in(
                postings,
                i + 1,
                (#[trigger] postings[i]).currency@,
                postings[i].direction,
            ) <= i64::MAX),
        entry::totals_of::<P>(postings.take(n)) matches Ok(totals) ==> {
            &&& totals.contains_key(code) <==> exists|i: int|
                0 <= i < n && (#[trigger] postings[i]).currency@ == code
            &&& totals.contains_key(code) ==> totals[code].debits.minor == moved_in(
                postings,
                n,
                code,
                Direction::Debit,
            ) && totals[code].credits.minor == moved_in(postings, n, code, Direction::Credit)
            &&& !totals.contains_key(code) ==> moved_in(postings, n, code, Direction::Debit) == 0
                && moved_in(postings, n, code, Direction::Credit) == 0
        },
    decreases n,
{
    if n > 0 {
        law_totals_are_the_sums_of_the_sides::<P>(postings, n - 1, code);
        let m = postings[n - 1];
        law_totals_are_the_sums_of_the_sides::<P>(postings, n - 1, m.currency@);
        let some = postings.take(n);
        assert(some.drop_last() =~= postings.take(n - 1));
        assert(some.last() == m);
        if entry::totals_of::<P>(postings.take(n - 1)) is Ok {
            let before = entry::totals_of::<P>(postings.take(n - 1))->Ok_0;
            let ghost fits = i64::MIN <= moved_in(postings, n - 1 + 1, m.currency@, m.direction)
                <= i64::MAX;
            assert(fits <==> balance::moved(
                entry::total_in(before, m.currency@),
                m.direction,
                m.minor,
            ) is Ok);
            assert(entry::totals_of::<P>(some) is Ok <==> fits);
            if fits {
                assert forall|i: int| 0 <= i < n implies i64::MIN <= moved_in(
                    postings,
                    i + 1,
                    (#[trigger] postings[i]).currency@,
                    postings[i].direction,
                ) <= i64::MAX by {}
                let totals = entry::totals_of::<P>(some)->Ok_0;
                if before.contains_key(code) {
                    let i = choose|i: int|
                        0 <= i < n - 1 && (#[trigger] postings[i]).currency@ == code;
                    assert(0 <= i < n);
                }
                if m.currency@ == code {
                    assert(totals.contains_key(code));
                } else {
                    assert(totals.contains_key(code) == before.contains_key(code));
                    if exists|i: int| 0 <= i < n && (#[trigger] postings[i]).currency@ == code {
                        let i = choose|i: int|
                            0 <= i < n && (#[trigger] postings[i]).currency@ == code;
                        assert(i < n - 1);
                    }
                }
            } else {
                assert(postings[n - 1] == m);
            }
        }
    }
}

} // verus!
