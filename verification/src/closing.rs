//! Year-end closing entries.
//!
//! Closing zeroes the accounts whose balances belong to one period only —
//! typically income and expense — by posting their opposite and moving the net
//! to equity. It is bookkeeping mechanics rather than reporting, so it belongs
//! in the engine; *which* equity account receives the result is a chart-of-
//! accounts decision and stays with the caller.
//!
//! The result is a set of postings, not an entry. They still go through
//! validation like anything else, which is where the period, the accounts, and
//! the balance invariant are checked.

use crate::account::{self, AccountId, AccountKind, AccountRegistry};
use crate::balance::{self, Balance, BalanceKey, TrialBalance};
use crate::books;
use crate::dimensions::Dimensions;
use crate::entry;
use crate::money::{Amount, Currency, MoneyError};
use crate::ordered::{self, Key, SortedMap};
use crate::posting::{self, Direction, Layer, Posting};
use vstd::prelude::*;

verus! {

/// Failure generating closing entries.
#[derive(Debug, Clone, Copy, PartialEq, Eq)]
#[non_exhaustive]
pub enum ClosingError {
    /// The equity account is not registered.
    UnknownEquityAccount {
        /// The account named.
        account: AccountId,
    },
    /// The equity account was itself selected for closing, which would make the
    /// result depend on the order the accounts were visited.
    EquityInScope {
        /// The account named.
        account: AccountId,
    },
    /// Arithmetic overflowed.
    Money(MoneyError),
}

/// What to close, and where the result goes.
pub struct Scope {
    /// The accounts, in handle order.
    pub accounts: Seq<account::AccountFacts>,
    /// The kinds of account to close.
    pub kinds: Seq<AccountKind>,
    /// The account that receives the result.
    pub equity: AccountId,
    /// The layer to close.
    pub layer: Layer,
}

/// True when an account is of a kind to be closed.
pub open spec fn is_closed_kind(
    accounts: Seq<account::AccountFacts>,
    kinds: Seq<AccountKind>,
    account: AccountId,
) -> bool {
    &&& account.position < accounts.len()
    &&& accounts[account.position as int].kind matches Some(kind) && kinds.contains(kind)
}

/// True when the balance under a key is to be closed.
pub open spec fn in_scope(scope: Scope, key: BalanceKey) -> bool {
    &&& key.layer == scope.layer
    &&& key.account != scope.equity
    &&& is_closed_kind(scope.accounts, scope.kinds, key.account)
}

/// The net of a balance, debit positive.
pub open spec fn net<const P: u8>(b: Balance<P>) -> int {
    b.debits.minor - b.credits.minor
}

/// The posting that moves `-signed` on an account: the opposite side of a net of
/// `signed`.
pub open spec fn flattening(key: BalanceKey, signed: int) -> posting::Movement {
    posting::Movement {
        account: key.account,
        direction: if signed > 0 {
            Direction::Credit
        } else {
            Direction::Debit
        },
        minor: if signed > 0 {
            signed
        } else {
            -signed
        },
        currency: key.currency,
        layer: key.layer,
        dimensions: Seq::empty(),
    }
}

/// What closing some rows comes to: the postings that flatten them, and the net
/// carried to equity per currency.
#[verifier::ext_equal]
pub struct Carried {
    /// One posting per row with something to flatten, in row order.
    pub legs: Seq<posting::Movement>,
    /// The sum of the nets, per currency code.
    pub offsets: Map<Seq<u8>, int>,
}

/// The offset of a currency, zero where nothing was carried.
pub open spec fn offset_in(offsets: Map<Seq<u8>, int>, code: Seq<u8>) -> int {
    if offsets.contains_key(code) {
        offsets[code]
    } else {
        0
    }
}

/// What closing the first `n` rows comes to, or the first overflow.
pub open spec fn carry<const P: u8>(
    scope: Scope,
    rows: Seq<(BalanceKey, Balance<P>)>,
    n: int,
) -> Result<Carried, MoneyError>
    decreases n,
{
    if n <= 0 {
        Ok(Carried { legs: Seq::empty(), offsets: Map::empty() })
    } else {
        match carry(scope, rows, n - 1) {
            Err(e) => Err(e),
            Ok(before) => {
                let (key, b) = rows[n - 1];
                let offset = offset_in(before.offsets, key.currency@) + net(b);
                if !in_scope(scope, key) {
                    Ok(before)
                } else if !(-i64::MAX <= net(b) <= i64::MAX) {
                    Err(MoneyError::Overflow)
                } else if net(b) == 0 {
                    Ok(before)
                } else if !(i64::MIN <= offset <= i64::MAX) {
                    Err(MoneyError::Overflow)
                } else {
                    Ok(
                        Carried {
                            legs: before.legs.push(flattening(key, net(b))),
                            offsets: before.offsets.insert(key.currency@, offset),
                        },
                    )
                }
            },
        }
    }
}

/// The currency with a code.
pub open spec fn currency_of(code: Seq<u8>) -> Currency {
    choose|currency: Currency| currency@ == code
}

/// The postings that carry offsets to equity, in the order of the codes, or the
/// first overflow.
pub open spec fn equity_legs(
    scope: Scope,
    offsets: Map<Seq<u8>, int>,
    codes: Seq<Seq<u8>>,
) -> Result<Seq<posting::Movement>, MoneyError>
    decreases codes.len(),
{
    if codes.len() == 0 {
        Ok(Seq::empty())
    } else {
        match equity_legs(scope, offsets, codes.drop_last()) {
            Err(e) => Err(e),
            Ok(before) => {
                let offset = offsets[codes.last()];
                let key = BalanceKey {
                    account: scope.equity,
                    currency: currency_of(codes.last()),
                    layer: scope.layer,
                };
                if offset == 0 {
                    Ok(before)
                } else if -offset > i64::MAX {
                    Err(MoneyError::Overflow)
                } else {
                    Ok(before.push(flattening(key, -offset)))
                }
            },
        }
    }
}

/// The postings that close some rows, or why there are none.
pub open spec fn closing<const P: u8>(scope: Scope, rows: Seq<(BalanceKey, Balance<P>)>) -> Result<
    Seq<posting::Movement>,
    ClosingError,
> {
    if scope.equity.position >= scope.accounts.len() {
        Err(ClosingError::UnknownEquityAccount { account: scope.equity })
    } else if is_closed_kind(scope.accounts, scope.kinds, scope.equity) {
        Err(ClosingError::EquityInScope { account: scope.equity })
    } else {
        match carry(scope, rows, rows.len() as int) {
            Err(e) => Err(ClosingError::Money(e)),
            Ok(carried) => match equity_legs(
                scope,
                carried.offsets,
                ordered::sorted_keys::<Currency, int>(carried.offsets),
            ) {
                Err(e) => Err(ClosingError::Money(e)),
                Ok(legs) => Ok(carried.legs + legs),
            },
        }
    }
}

fn contains_kind(kinds: &[AccountKind], kind: AccountKind) -> (r: bool)
    ensures
        r == kinds@.contains(kind),
{
    let mut i: usize = 0;
    while i < kinds.len()
        invariant
            i <= kinds.len(),
            forall|k: int| 0 <= k < i ==> #[trigger] kinds@[k] != kind,
        decreases kinds.len() - i,
    {
        if kinds[i] == kind {
            assert(kinds@[i as int] == kind);
            return true;
        }
        i += 1;
    }
    false
}

fn has_closed_kind(accounts: &AccountRegistry, kinds: &[AccountKind], id: AccountId) -> (r: bool)
    ensures
        r == is_closed_kind(accounts@, kinds@, id),
        r <==> id.position < accounts@.len() && exists|k: int|
            0 <= k < kinds@.len() && accounts@[id.position as int].kind == Some(
                #[trigger] kinds@[k],
            ),
{
    match accounts.get(id) {
        Some(account) => match account.kind {
            Some(kind) => contains_kind(kinds, kind),
            None => false,
        },
        None => false,
    }
}

/// The offsets that a map of amounts holds.
spec fn minors<const P: u8>(amounts: Map<Seq<u8>, Amount<P>>) -> Map<Seq<u8>, int> {
    amounts.map_values(|a: Amount<P>| a.minor as int)
}

pub proof fn lemma_carry_error<const P: u8>(
    scope: Scope,
    rows: Seq<(BalanceKey, Balance<P>)>,
    k: int,
    n: int,
)
    requires
        k <= n,
        carry(scope, rows, k) is Err,
    ensures
        carry(scope, rows, n) == carry(scope, rows, k),
    decreases n - k,
{
    if k < n {
        lemma_carry_error(scope, rows, k, n - 1);
    }
}

pub proof fn lemma_equity_error(
    scope: Scope,
    offsets: Map<Seq<u8>, int>,
    codes: Seq<Seq<u8>>,
    k: int,
)
    requires
        0 <= k <= codes.len(),
        equity_legs(scope, offsets, codes.take(k)) is Err,
    ensures
        equity_legs(scope, offsets, codes) == equity_legs(scope, offsets, codes.take(k)),
    decreases codes.len(),
{
    if k == codes.len() {
        assert(codes.take(k) =~= codes);
    } else {
        assert(codes.drop_last().take(k) =~= codes.take(k));
        lemma_equity_error(scope, offsets, codes.drop_last(), k);
    }
}

pub proof fn lemma_currency_of(currency: Currency)
    ensures
        currency_of(currency@) == currency,
{
    Currency::lemma_code_determines(currency_of(currency@), currency);
}

/// Two maps with the same keys list them alike.
proof fn lemma_same_listing<const P: u8>(amounts: Map<Seq<u8>, Amount<P>>, codes: Seq<Seq<u8>>)
    requires
        ordered::lists_keys::<Currency, Amount<P>>(amounts, codes),
    ensures
        codes == ordered::sorted_keys::<Currency, int>(minors(amounts)),
{
    let offsets = minors(amounts);
    assert forall|k: Seq<u8>| #[trigger] offsets.contains_key(k) <==> codes.contains(k) by {
        assert(amounts.contains_key(k) <==> codes.contains(k));
    }
    assert(ordered::lists_keys::<Currency, int>(offsets, codes));
    let sorted = ordered::sorted_keys::<Currency, int>(offsets);
    assert forall|k: Seq<u8>| #[trigger] codes.contains(k) <==> sorted.contains(k) by {
        assert(offsets.contains_key(k) <==> sorted.contains(k));
        assert(offsets.contains_key(k) <==> codes.contains(k));
    }
    ordered::lemma_ascending_unique::<Currency>(codes, sorted);
}

/// Builds the postings that close every account of the given kinds into
/// `equity`.
///
/// One posting per account with a non-zero net, on the side that flattens it,
/// followed by one balancing posting on `equity` per currency. Accounts that
/// already net to zero are skipped: a posting of zero carries no information and
/// would be rejected by validation anyway.
///
/// The postings balance per currency by construction, so adding them to a draft
/// and sealing it succeeds unless something else about the draft is wrong.
///
/// Returns an empty vector when there is nothing to close, which is what a
/// second run over an already-closed period produces.
///
/// # Scope is decided by [`AccountKind`], which is optional
///
/// Only accounts carrying a `kind` in `kinds` are closed. An account left
/// without one is **silently out of scope** — [`AccountKind`] is reporting
/// metadata the engine never requires, so there is nothing here to reject.
/// A revenue account registered without `.with_kind(AccountKind::Income)`
/// therefore survives the close carrying its balance, and the mistake surfaces
/// as an income statement that will not zero.
///
/// Classify every account you intend to close, and assert on the result: after
/// booking these postings, the net of each in-scope account is zero. That is one
/// line against a trial balance and it is the only check that distinguishes
/// "nothing to close" from "nothing was in scope".
pub fn closing_postings<const P: u8>(
    trial_balance: &TrialBalance<P>,
    accounts: &AccountRegistry,
    kinds: &[AccountKind],
    equity: AccountId,
    layer: Layer,
) -> (r: Result<Vec<Posting<P>>, ClosingError>)
    ensures
        match closing(
            Scope { accounts: accounts@, kinds: kinds@, equity, layer },
            trial_balance.rows(),
        ) {
            Ok(legs) => r matches Ok(postings) && entry::movements(postings@) == legs,
            Err(e) => r == Err::<Vec<Posting<P>>, ClosingError>(e),
        },
{
    let ghost scope = Scope { accounts: accounts@, kinds: kinds@, equity, layer };
    if accounts.get(equity).is_none() {
        return Err(ClosingError::UnknownEquityAccount { account: equity });
    }
    if has_closed_kind(accounts, kinds, equity) {
        return Err(ClosingError::EquityInScope { account: equity });
    }
    let rows = trial_balance.iter();
    let ghost all = rows@;
    // Accumulated per currency, signed with debit positive. Ordered so the
    // equity legs come out in a reproducible sequence.
    let mut offsets: SortedMap<Currency, Amount<P>> = SortedMap::new();
    let mut postings: Vec<Posting<P>> = Vec::new();
    let mut i: usize = 0;
    proof {
        assert(entry::movements(postings@) =~= Seq::empty());
        assert(minors(offsets@) =~= Map::empty());
    }
    while i < rows.len()
        invariant
            i <= rows.len(),
            all == rows@,
            all == trial_balance.rows(),
            scope == (Scope { accounts: accounts@, kinds: kinds@, equity, layer }),
            scope.equity.position < scope.accounts.len(),
            !is_closed_kind(scope.accounts, scope.kinds, scope.equity),
            carry(scope, all, i as int) == Ok::<Carried, MoneyError>(
                Carried { legs: entry::movements(postings@), offsets: minors(offsets@) },
            ),
        decreases rows.len() - i,
    {
        let (key, balance): (BalanceKey, Balance<P>) = rows[i];
        i += 1;
        assert(all[i - 1] == (key, balance));
        if key.layer != layer || key.account == equity || !has_closed_kind(
            accounts,
            kinds,
            key.account,
        ) {
            assert(!in_scope(scope, key));
            continue;
        }
        assert(in_scope(scope, key));
        let (side, magnitude): (Direction, Amount<P>) = match balance.net() {
            Ok(net) => net,
            Err(e) => {
                proof {
                    lemma_carry_error(scope, all, i as int, all.len() as int);
                }
                return Err(ClosingError::Money(e));
            },
        };
        if magnitude.is_zero() {
            continue;
        }
        let ghost net = net(balance);
        // Carry the net to equity …
        let signed: i64 = match side {
            Direction::Debit => magnitude.minor,
            Direction::Credit => -magnitude.minor,
        };
        assert(signed == net);
        let slot: Amount<P> = match offsets.get(&key.currency) {
            Some(slot) => *slot,
            None => Amount { minor: 0 },
        };
        assert(slot.minor == offset_in(minors(offsets@), key.currency@));
        let updated: Amount<P> = match slot.checked_add(Amount { minor: signed }) {
            Ok(updated) => updated,
            Err(e) => {
                proof {
                    lemma_carry_error(scope, all, i as int, all.len() as int);
                }
                return Err(ClosingError::Money(e));
            },
        };
        let ghost offsets_before = offsets@;
        let ghost legs_before = entry::movements(postings@);
        offsets.insert(key.currency, updated);
        // … and post the opposite side to flatten the account. Closing flattens
        // an account's whole balance across every dimension it was sliced by, so
        // there is no one slice to carry.
        let leg = Posting {
            account: key.account,
            direction: side.inverse(),
            amount: magnitude,
            currency: key.currency,
            layer,
            dimensions: Dimensions::none(),
        };
        assert(leg@ == flattening(key, net));
        postings.push(leg);
        proof {
            assert(entry::movements(postings@) =~= legs_before.push(flattening(key, net)));
            assert(minors(offsets@) =~= minors(offsets_before).insert(
                key.currency@,
                offset_in(minors(offsets_before), key.currency@) + net,
            ));
        }
    }
    let n: usize = offsets.len();
    let ghost codes = offsets.keys();
    let ghost legs = entry::movements(postings@);
    let ghost carried = minors(offsets@);
    proof {
        offsets.lemma_keys_are_sorted();
        offsets.lemma_sequences();
        lemma_same_listing(offsets@, codes);
        assert(codes.take(0) =~= Seq::empty());
        assert(legs + Seq::<posting::Movement>::empty() =~= legs);
    }
    let mut k: usize = 0;
    while k < n
        invariant
            k <= n,
            n == codes.len(),
            n == offsets.values().len(),
            codes == offsets.keys(),
            carried == minors(offsets@),
            forall|j: int|
                0 <= j < n ==> offsets@.contains_key(#[trigger] offsets.keys()[j])
                    && offsets@[offsets.keys()[j]] == offsets.values()[j],
            scope == (Scope { accounts: accounts@, kinds: kinds@, equity, layer }),
            scope.equity.position < scope.accounts.len(),
            !is_closed_kind(scope.accounts, scope.kinds, scope.equity),
            carry(scope, all, all.len() as int) == Ok::<Carried, MoneyError>(
                Carried { legs, offsets: carried },
            ),
            all == trial_balance.rows(),
            codes == ordered::sorted_keys::<Currency, int>(carried),
            equity_legs(scope, carried, codes.take(k as int)) is Ok,
            entry::movements(postings@) == legs + (equity_legs(
                scope,
                carried,
                codes.take(k as int),
            )->Ok_0),
        decreases n - k,
    {
        let currency: Currency = *offsets.key_at(k);
        let offset: Amount<P> = *offsets.value_at(k);
        let ghost before = equity_legs(scope, carried, codes.take(k as int))->Ok_0;
        proof {
            assert(codes.take(k + 1).drop_last() =~= codes.take(k as int));
            assert(codes.take(k + 1).last() == currency@);
            assert(offsets@[offsets.keys()[k as int]] == offset);
            assert(carried[currency@] == offset.minor);
            lemma_currency_of(currency);
        }
        k += 1;
        if offset.is_zero() {
            continue;
        }
        let (direction, magnitude): (Direction, Amount<P>) = if offset.is_positive() {
            (Direction::Debit, offset)
        } else {
            match offset.checked_neg() {
                Ok(magnitude) => (Direction::Credit, magnitude),
                Err(e) => {
                    proof {
                        lemma_equity_error(scope, carried, codes, k as int);
                    }
                    return Err(ClosingError::Money(e));
                },
            }
        };
        let leg = Posting {
            account: equity,
            direction,
            amount: magnitude,
            currency,
            layer,
            dimensions: Dimensions::none(),
        };
        let ghost so_far = entry::movements(postings@);
        postings.push(leg);
        assert(entry::movements(postings@) =~= so_far.push(leg@));
        assert(so_far.push(leg@) =~= legs + before.push(leg@));
    }
    assert(codes.take(codes.len() as int) =~= codes);
    Ok(postings)
}

// ── what closing promises ───────────────────────────────────────────────────

/// Debits less credits in one currency.
pub open spec fn signed_in(postings: Seq<posting::Movement>, code: Seq<u8>) -> int {
    entry::side_sum(postings, code, Direction::Debit) - entry::side_sum(
        postings,
        code,
        Direction::Credit,
    )
}

proof fn lemma_push_signed(postings: Seq<posting::Movement>, m: posting::Movement, code: Seq<u8>)
    ensures
        signed_in(postings.push(m), code) == signed_in(postings, code) + if m.currency@ == code {
            match m.direction {
                Direction::Debit => m.minor,
                Direction::Credit => -m.minor,
            }
        } else {
            0
        },
{
    assert(postings.push(m).drop_last() =~= postings);
}

proof fn lemma_append_signed(
    a: Seq<posting::Movement>,
    b: Seq<posting::Movement>,
    code: Seq<u8>,
)
    ensures
        signed_in(a + b, code) == signed_in(a, code) + signed_in(b, code),
    decreases b.len(),
{
    if b.len() == 0 {
        assert(a + b =~= a);
    } else {
        lemma_append_signed(a, b.drop_last(), code);
        lemma_push_signed(a + b.drop_last(), b.last(), code);
        lemma_push_signed(b.drop_last(), b.last(), code);
        assert(a + b =~= (a + b.drop_last()).push(b.last()));
        assert(b =~= b.drop_last().push(b.last()));
    }
}

/// True when every code is that of a currency.
pub open spec fn coded(offsets: Map<Seq<u8>, int>) -> bool {
    forall|code: Seq<u8>| #[trigger]
        offsets.contains_key(code) ==> exists|currency: Currency| #[trigger] currency@ == code
}

pub proof fn lemma_carry_signed<const P: u8>(
    scope: Scope,
    rows: Seq<(BalanceKey, Balance<P>)>,
    n: int,
    code: Seq<u8>,
)
    requires
        0 <= n <= rows.len(),
        carry(scope, rows, n) is Ok,
    ensures
        signed_in((carry(scope, rows, n)->Ok_0).legs, code) == -offset_in(
            (carry(scope, rows, n)->Ok_0).offsets,
            code,
        ),
        coded((carry(scope, rows, n)->Ok_0).offsets),
        ordered::lists_keys::<Currency, int>(
            (carry(scope, rows, n)->Ok_0).offsets,
            ordered::sorted_keys::<Currency, int>((carry(scope, rows, n)->Ok_0).offsets),
        ),
    decreases n,
{
    let after = carry(scope, rows, n)->Ok_0;
    if n <= 0 {
        assert(ordered::lists_keys::<Currency, int>(after.offsets, Seq::<Seq<u8>>::empty()));
    } else {
        lemma_carry_signed(scope, rows, n - 1, code);
        let before = carry(scope, rows, n - 1)->Ok_0;
        let (key, b) = rows[n - 1];
        if after != before {
            lemma_push_signed(before.legs, flattening(key, net(b)), code);
            ordered::lemma_listing_extends::<Currency, int>(
                before.offsets,
                key.currency@,
                after.offsets[key.currency@],
            );
            assert(after.offsets =~= before.offsets.insert(
                key.currency@,
                after.offsets[key.currency@],
            ));
        }
    }
}

proof fn lemma_equity_signed(
    scope: Scope,
    offsets: Map<Seq<u8>, int>,
    codes: Seq<Seq<u8>>,
    code: Seq<u8>,
)
    requires
        coded(offsets),
        ordered::ascending::<Currency>(codes),
        forall|i: int| 0 <= i < codes.len() ==> offsets.contains_key(#[trigger] codes[i]),
        equity_legs(scope, offsets, codes) is Ok,
    ensures
        signed_in(equity_legs(scope, offsets, codes)->Ok_0, code) == if codes.contains(code) {
            offsets[code]
        } else {
            0
        },
    decreases codes.len(),
{
    if codes.len() > 0 {
        let fewer = codes.drop_last();
        let last = codes.last();
        assert forall|i: int| 0 <= i < fewer.len() implies offsets.contains_key(
            #[trigger] fewer[i],
        ) by {
            assert(fewer[i] == codes[i]);
        }
        assert forall|i: int, j: int| 0 <= i < j < fewer.len() implies Currency::before(
            #[trigger] fewer[i],
            #[trigger] fewer[j],
        ) by {
            assert(Currency::before(codes[i], codes[j]));
        }
        lemma_equity_signed(scope, offsets, fewer, code);
        let before = equity_legs(scope, offsets, fewer)->Ok_0;
        let key = BalanceKey {
            account: scope.equity,
            currency: currency_of(last),
            layer: scope.layer,
        };
        assert(offsets.contains_key(codes[codes.len() - 1]));
        assert(key.currency@ == last);
        if offsets[last] != 0 {
            lemma_push_signed(before, flattening(key, -offsets[last]), code);
        }
        assert(!fewer.contains(last)) by {
            if fewer.contains(last) {
                let i = choose|i: int| 0 <= i < fewer.len() && fewer[i] == last;
                assert(Currency::before(codes[i], codes[codes.len() - 1]));
                Currency::lemma_irreflexive(last);
            }
        }
        assert(codes.contains(code) <==> fewer.contains(code) || code == last) by {
            if codes.contains(code) {
                let i = choose|i: int| 0 <= i < codes.len() && codes[i] == code;
                if i < fewer.len() {
                    assert(fewer[i] == code);
                }
            }
            if fewer.contains(code) {
                let i = choose|i: int| 0 <= i < fewer.len() && fewer[i] == code;
                assert(codes[i] == code);
            }
            assert(codes[codes.len() - 1] == last);
        }
    }
}

/// Closing postings balance in every currency.
pub proof fn law_closing_postings_balance<const P: u8>(
    scope: Scope,
    rows: Seq<(BalanceKey, Balance<P>)>,
)
    requires
        closing(scope, rows) is Ok,
    ensures
        entry::balances(closing(scope, rows)->Ok_0),
{
    let carried = carry(scope, rows, rows.len() as int)->Ok_0;
    let codes = ordered::sorted_keys::<Currency, int>(carried.offsets);
    let legs = equity_legs(scope, carried.offsets, codes)->Ok_0;
    assert forall|code: Seq<u8>|
        #[trigger] entry::side_sum(carried.legs + legs, code, Direction::Debit)
            == entry::side_sum(carried.legs + legs, code, Direction::Credit) by {
        lemma_carry_signed(scope, rows, rows.len() as int, code);
        assert forall|i: int| 0 <= i < codes.len() implies carried.offsets.contains_key(
            #[trigger] codes[i],
        ) by {
            assert(codes.contains(codes[i]));
        }
        lemma_equity_signed(scope, carried.offsets, codes, code);
        lemma_append_signed(carried.legs, legs, code);
        assert(carried.offsets.contains_key(code) <==> codes.contains(code));
    }
}

proof fn lemma_push_net(postings: Seq<posting::Movement>, m: posting::Movement, key: BalanceKey)
    ensures
        entry::net_of(postings.push(m), key) == entry::net_of(postings, key)
            + if balance::key_of_movement(m) == key {
            match m.direction {
                Direction::Debit => m.minor,
                Direction::Credit => -m.minor,
            }
        } else {
            0
        },
{
    assert(postings.push(m).drop_last() =~= postings);
}

proof fn lemma_append_net(
    a: Seq<posting::Movement>,
    b: Seq<posting::Movement>,
    key: BalanceKey,
)
    ensures
        entry::net_of(a + b, key) == entry::net_of(a, key) + entry::net_of(b, key),
    decreases b.len(),
{
    if b.len() == 0 {
        assert(a + b =~= a);
    } else {
        lemma_append_net(a, b.drop_last(), key);
        lemma_push_net(a + b.drop_last(), b.last(), key);
        lemma_push_net(b.drop_last(), b.last(), key);
        assert(a + b =~= (a + b.drop_last()).push(b.last()));
        assert(b =~= b.drop_last().push(b.last()));
    }
}

proof fn lemma_carry_net<const P: u8>(
    scope: Scope,
    rows: Seq<(BalanceKey, Balance<P>)>,
    n: int,
    i: int,
)
    requires
        0 <= n <= rows.len(),
        0 <= i < rows.len(),
        forall|j: int, k: int|
            0 <= j < k < rows.len() ==> (#[trigger] rows[j]).0 != (#[trigger] rows[k]).0,
        carry(scope, rows, n) is Ok,
    ensures
        entry::net_of((carry(scope, rows, n)->Ok_0).legs, rows[i].0) == if i < n && in_scope(
            scope,
            rows[i].0,
        ) {
            -net(rows[i].1)
        } else {
            0
        },
    decreases n,
{
    if n > 0 {
        lemma_carry_net(scope, rows, n - 1, i);
        let before = carry(scope, rows, n - 1)->Ok_0;
        let (key, b) = rows[n - 1];
        if in_scope(scope, key) && net(b) != 0 {
            lemma_push_net(before.legs, flattening(key, net(b)), rows[i].0);
        }
        if i != n - 1 {
            assert(rows[i].0 != rows[n - 1].0);
        }
    }
}

proof fn lemma_equity_net(
    scope: Scope,
    offsets: Map<Seq<u8>, int>,
    codes: Seq<Seq<u8>>,
    key: BalanceKey,
)
    requires
        key.account != scope.equity,
        equity_legs(scope, offsets, codes) is Ok,
    ensures
        entry::net_of(equity_legs(scope, offsets, codes)->Ok_0, key) == 0,
    decreases codes.len(),
{
    if codes.len() > 0 {
        lemma_equity_net(scope, offsets, codes.drop_last(), key);
        let before = equity_legs(scope, offsets, codes.drop_last())->Ok_0;
        let equity = BalanceKey {
            account: scope.equity,
            currency: currency_of(codes.last()),
            layer: scope.layer,
        };
        if offsets[codes.last()] != 0 {
            lemma_push_net(before, flattening(equity, -offsets[codes.last()]), key);
        }
    }
}

/// Closing flattens every balance in scope and leaves every other account but
/// equity alone.
pub proof fn law_closing_flattens<const P: u8>(
    scope: Scope,
    rows: Seq<(BalanceKey, Balance<P>)>,
    i: int,
)
    requires
        0 <= i < rows.len(),
        forall|j: int, k: int|
            0 <= j < k < rows.len() ==> (#[trigger] rows[j]).0 != (#[trigger] rows[k]).0,
        closing(scope, rows) is Ok,
        rows[i].0.account != scope.equity,
    ensures
        in_scope(scope, rows[i].0) ==> net(rows[i].1) + entry::net_of(
            closing(scope, rows)->Ok_0,
            rows[i].0,
        ) == 0,
        !in_scope(scope, rows[i].0) ==> entry::net_of(closing(scope, rows)->Ok_0, rows[i].0) == 0,
{
    let carried = carry(scope, rows, rows.len() as int)->Ok_0;
    let codes = ordered::sorted_keys::<Currency, int>(carried.offsets);
    let legs = equity_legs(scope, carried.offsets, codes)->Ok_0;
    lemma_carry_net(scope, rows, rows.len() as int, i);
    lemma_equity_net(scope, carried.offsets, codes, rows[i].0);
    lemma_append_net(carried.legs, legs, rows[i].0);
}

proof fn lemma_carry_nothing<const P: u8>(
    scope: Scope,
    rows: Seq<(BalanceKey, Balance<P>)>,
    n: int,
)
    requires
        0 <= n <= rows.len(),
        forall|i: int|
            0 <= i < rows.len() && in_scope(scope, (#[trigger] rows[i]).0) ==> net(rows[i].1)
                == 0,
    ensures
        carry(scope, rows, n) == Ok::<Carried, MoneyError>(
            Carried { legs: Seq::empty(), offsets: Map::empty() },
        ),
    decreases n,
{
    if n > 0 {
        lemma_carry_nothing(scope, rows, n - 1);
        let key = rows[n - 1].0;
    }
}

/// Where every balance in scope already nets to zero, there is nothing to close:
/// a second run over an already-closed period produces no postings.
pub proof fn law_closing_twice_produces_nothing<const P: u8>(
    scope: Scope,
    rows: Seq<(BalanceKey, Balance<P>)>,
)
    requires
        scope.equity.position < scope.accounts.len(),
        !is_closed_kind(scope.accounts, scope.kinds, scope.equity),
        forall|i: int|
            0 <= i < rows.len() && in_scope(scope, (#[trigger] rows[i]).0) ==> net(rows[i].1)
                == 0,
    ensures
        closing(scope, rows) == Ok::<Seq<posting::Movement>, ClosingError>(Seq::empty()),
{
    lemma_carry_nothing(scope, rows, rows.len() as int);
    let none = Map::<Seq<u8>, int>::empty();
    assert(ordered::lists_keys::<Currency, int>(none, Seq::<Seq<u8>>::empty()));
    let codes = ordered::sorted_keys::<Currency, int>(none);
    if codes.len() > 0 {
        assert(codes.contains(codes[0]));
        assert(none.contains_key(codes[0]));
    }
    assert(Seq::<posting::Movement>::empty() + Seq::<posting::Movement>::empty() =~= Seq::<
        posting::Movement,
    >::empty());
}

/// Adding to balances keeps them listable.
proof fn lemma_postings_keep_listing<const P: u8>(
    balances: Map<BalanceKey, Balance<P>>,
    postings: Seq<posting::Movement>,
)
    requires
        balance::listable(balances),
        books::fold_postings(balances, postings) is Ok,
    ensures
        balance::listable(books::fold_postings(balances, postings)->Ok_0),
    decreases postings.len(),
{
    if postings.len() > 0 {
        lemma_postings_keep_listing(balances, postings.drop_last());
        let before = books::fold_postings(balances, postings.drop_last())->Ok_0;
        let key = balance::key_of_movement(postings.last());
        let after = books::fold_postings(balances, postings)->Ok_0;
        ordered::lemma_listing_extends::<BalanceKey, Balance<P>>(before, key, after[key]);
    }
}

/// Postings change the net of a balance by what they move on it.
pub proof fn lemma_postings_move_nets<const P: u8>(
    balances: Map<BalanceKey, Balance<P>>,
    postings: Seq<posting::Movement>,
    key: BalanceKey,
)
    requires
        books::fold_postings(balances, postings) is Ok,
    ensures
        net(
            balance::balance_at(books::fold_postings(balances, postings)->Ok_0, key),
        ) == net(balance::balance_at(balances, key)) + entry::net_of(postings, key),
    decreases postings.len(),
{
    if postings.len() > 0 {
        lemma_postings_move_nets(balances, postings.drop_last(), key);
        lemma_push_net(postings.drop_last(), postings.last(), key);
        assert(postings =~= postings.drop_last().push(postings.last()));
    }
}

pub proof fn lemma_carry_leaves_others<const P: u8>(
    scope: Scope,
    rows: Seq<(BalanceKey, Balance<P>)>,
    n: int,
    key: BalanceKey,
)
    requires
        0 <= n <= rows.len(),
        forall|i: int| 0 <= i < rows.len() ==> (#[trigger] rows[i]).0 != key,
        carry(scope, rows, n) is Ok,
    ensures
        entry::net_of((carry(scope, rows, n)->Ok_0).legs, key) == 0,
    decreases n,
{
    if n > 0 {
        lemma_carry_leaves_others(scope, rows, n - 1, key);
        let before = carry(scope, rows, n - 1)->Ok_0;
        let (other, b) = rows[n - 1];
        if in_scope(scope, other) && net(b) != 0 {
            lemma_push_net(before.legs, flattening(other, net(b)), key);
        }
    }
}

/// Closing is complete: once its postings are applied to the balances they were
/// drawn from, every balance in scope nets to zero, and closing the balances that
/// result produces no postings.
pub proof fn law_closed_books_have_nothing_to_close<const P: u8>(
    scope: Scope,
    balances: Map<BalanceKey, Balance<P>>,
)
    requires
        balance::listable(balances),
        closing(scope, balance::rows_of(balances)) is Ok,
        books::fold_postings(balances, closing(scope, balance::rows_of(balances))->Ok_0) is Ok,
    ensures
        ({
            let postings = closing(scope, balance::rows_of(balances))->Ok_0;
            let after = books::fold_postings(balances, postings)->Ok_0;
            &&& forall|key: BalanceKey| #[trigger]
                in_scope(scope, key) ==> net(balance::balance_at(after, key)) == 0
            &&& closing(scope, balance::rows_of(after)) == Ok::<
                Seq<posting::Movement>,
                ClosingError,
            >(Seq::empty())
        }),
{
    let rows = balance::rows_of(balances);
    let keys = ordered::sorted_keys::<BalanceKey, Balance<P>>(balances);
    let postings = closing(scope, rows)->Ok_0;
    let after = books::fold_postings(balances, postings)->Ok_0;
    assert forall|j: int, k: int| 0 <= j < k < rows.len() implies (#[trigger] rows[j]).0 != (
    #[trigger] rows[k]).0 by {
        assert(BalanceKey::before(keys[j], keys[k]));
        BalanceKey::lemma_irreflexive(keys[j]);
    }
    assert forall|key: BalanceKey| #[trigger] in_scope(scope, key) implies net(
        balance::balance_at(after, key),
    ) == 0 by {
        lemma_postings_move_nets(balances, postings, key);
        if balances.contains_key(key) {
            assert(keys.contains(key));
            let i = choose|i: int| 0 <= i < keys.len() && keys[i] == key;
            assert(rows[i] == (key, balances[key]));
            law_closing_flattens(scope, rows, i);
        } else {
            let carried = carry(scope, rows, rows.len() as int)->Ok_0;
            let codes = ordered::sorted_keys::<Currency, int>(carried.offsets);
            assert forall|i: int| 0 <= i < rows.len() implies (#[trigger] rows[i]).0 != key by {
                assert(keys.contains(keys[i]));
            }
            lemma_carry_leaves_others(scope, rows, rows.len() as int, key);
            lemma_equity_net(scope, carried.offsets, codes, key);
            lemma_append_net(
                carried.legs,
                equity_legs(scope, carried.offsets, codes)->Ok_0,
                key,
            );
        }
    }
    lemma_postings_keep_listing(balances, postings);
    let again = balance::rows_of(after);
    let kept = ordered::sorted_keys::<BalanceKey, Balance<P>>(after);
    assert forall|i: int| 0 <= i < again.len() && in_scope(scope, (#[trigger] again[i]).0) implies net(
        again[i].1,
    ) == 0 by {
        assert(kept.contains(kept[i]));
        assert(again[i] == (kept[i], balance::balance_at(after, kept[i])));
    }
    law_closing_twice_produces_nothing(scope, again);
}

/// True of a row that has something to close.
pub open spec fn to_close<const P: u8>(scope: Scope, row: (BalanceKey, Balance<P>)) -> bool {
    in_scope(scope, row.0) && net(row.1) != 0
}

/// The postings that flatten some rows: one per row with something to close, in
/// row order.
pub open spec fn flattened<const P: u8>(
    scope: Scope,
    rows: Seq<(BalanceKey, Balance<P>)>,
) -> Seq<posting::Movement> {
    rows.filter(|row: (BalanceKey, Balance<P>)| to_close(scope, row)).map_values(
        |row: (BalanceKey, Balance<P>)| flattening(row.0, net(row.1)),
    )
}

pub proof fn lemma_carry_flattens<const P: u8>(
    scope: Scope,
    rows: Seq<(BalanceKey, Balance<P>)>,
    n: int,
)
    requires
        0 <= n <= rows.len(),
        carry(scope, rows, n) is Ok,
    ensures
        (carry(scope, rows, n)->Ok_0).legs == flattened(scope, rows.take(n)),
        forall|j: int|
            0 <= j < (carry(scope, rows, n)->Ok_0).legs.len() ==> {
                let m = #[trigger] (carry(scope, rows, n)->Ok_0).legs[j];
                m.minor > 0 && m.layer == scope.layer
            },
    decreases n,
{
    reveal(Seq::filter);
    let fewer = rows.take(n);
    if n > 0 {
        lemma_carry_flattens(scope, rows, n - 1);
        assert(fewer.drop_last() =~= rows.take(n - 1));
        let before = carry(scope, rows, n - 1)->Ok_0;
        let last = rows[n - 1];
        assert(fewer.last() == last);
        if to_close(scope, last) {
            assert(flattened(scope, fewer) =~= flattened(scope, rows.take(n - 1)).push(
                flattening(last.0, net(last.1)),
            ));
        }
    } else {
        assert(flattened(scope, fewer) =~= Seq::<posting::Movement>::empty());
    }
}

proof fn lemma_equity_shape(scope: Scope, offsets: Map<Seq<u8>, int>, codes: Seq<Seq<u8>>)
    requires
        coded(offsets),
        ordered::ascending::<Currency>(codes),
        forall|i: int| 0 <= i < codes.len() ==> offsets.contains_key(#[trigger] codes[i]),
        equity_legs(scope, offsets, codes) is Ok,
    ensures
        forall|j: int|
            0 <= j < (equity_legs(scope, offsets, codes)->Ok_0).len() ==> {
                let m = #[trigger] (equity_legs(scope, offsets, codes)->Ok_0)[j];
                &&& m.minor > 0
                &&& m.layer == scope.layer
                &&& m.account == scope.equity
                &&& codes.contains(m.currency@)
            },
        forall|j: int, k: int|
            0 <= j < k < (equity_legs(scope, offsets, codes)->Ok_0).len() ==> Currency::before(
                (#[trigger] (equity_legs(scope, offsets, codes)->Ok_0)[j]).currency@,
                (#[trigger] (equity_legs(scope, offsets, codes)->Ok_0)[k]).currency@,
            ),
    decreases codes.len(),
{
    if codes.len() > 0 {
        let fewer = codes.drop_last();
        let last = codes.last();
        assert forall|i: int| 0 <= i < fewer.len() implies offsets.contains_key(
            #[trigger] fewer[i],
        ) by {
            assert(fewer[i] == codes[i]);
        }
        assert forall|i: int, j: int| 0 <= i < j < fewer.len() implies Currency::before(
            #[trigger] fewer[i],
            #[trigger] fewer[j],
        ) by {
            assert(Currency::before(codes[i], codes[j]));
        }
        lemma_equity_shape(scope, offsets, fewer);
        let before = equity_legs(scope, offsets, fewer)->Ok_0;
        let legs = equity_legs(scope, offsets, codes)->Ok_0;
        assert(offsets.contains_key(codes[codes.len() - 1]));
        assert(currency_of(last)@ == last);
        assert forall|j: int| 0 <= j < legs.len() implies {
            let m = #[trigger] legs[j];
            &&& m.minor > 0
            &&& m.layer == scope.layer
            &&& m.account == scope.equity
            &&& codes.contains(m.currency@)
        } by {
            if j < before.len() {
                assert(legs[j] == before[j]);
                let i = choose|i: int| 0 <= i < fewer.len() && fewer[i] == before[j].currency@;
                assert(codes[i] == before[j].currency@);
            } else {
                assert(codes[codes.len() - 1] == legs[j].currency@);
            }
        }
        assert forall|j: int, k: int| 0 <= j < k < legs.len() implies Currency::before(
            (#[trigger] legs[j]).currency@,
            (#[trigger] legs[k]).currency@,
        ) by {
            assert(legs[j] == before[j]);
            if k < before.len() {
                assert(legs[k] == before[k]);
            } else {
                let i = choose|i: int| 0 <= i < fewer.len() && fewer[i] == before[j].currency@;
                assert(Currency::before(codes[i], codes[codes.len() - 1]));
            }
        }
    }
}

/// Closing postings are one per balance in scope with a net other than zero, of
/// that magnitude on the opposite side, followed by postings on equity: at most
/// one per currency, by code. Every amount is positive and in the layer closed.
pub proof fn law_one_closing_posting_per_balance<const P: u8>(
    scope: Scope,
    rows: Seq<(BalanceKey, Balance<P>)>,
)
    requires
        closing(scope, rows) is Ok,
    ensures
        ({
            let postings = closing(scope, rows)->Ok_0;
            let n = flattened(scope, rows).len() as int;
            &&& n <= postings.len()
            &&& postings.take(n) == flattened(scope, rows)
            &&& forall|j: int|
                n <= j < postings.len() ==> (#[trigger] postings[j]).account == scope.equity
            &&& forall|j: int, k: int|
                n <= j < k < postings.len() ==> Currency::before(
                    (#[trigger] postings[j]).currency@,
                    (#[trigger] postings[k]).currency@,
                )
            &&& forall|j: int|
                0 <= j < postings.len() ==> (#[trigger] postings[j]).minor > 0
                    && postings[j].layer == scope.layer
        }),
{
    let postings = closing(scope, rows)->Ok_0;
    let carried = carry(scope, rows, rows.len() as int)->Ok_0;
    let codes = ordered::sorted_keys::<Currency, int>(carried.offsets);
    let legs = equity_legs(scope, carried.offsets, codes)->Ok_0;
    let n = carried.legs.len() as int;
    lemma_carry_flattens(scope, rows, rows.len() as int);
    assert(rows.take(rows.len() as int) =~= rows);
    lemma_carry_signed(scope, rows, rows.len() as int, Seq::empty());
    assert forall|i: int| 0 <= i < codes.len() implies carried.offsets.contains_key(
        #[trigger] codes[i],
    ) by {
        assert(codes.contains(codes[i]));
    }
    lemma_equity_shape(scope, carried.offsets, codes);
    assert(postings.take(n) =~= carried.legs);
    assert forall|j: int| n <= j < postings.len() implies (#[trigger] postings[j]).account
        == scope.equity by {
        assert(postings[j] == legs[j - n]);
    }
    assert forall|j: int, k: int| n <= j < k < postings.len() implies Currency::before(
        (#[trigger] postings[j]).currency@,
        (#[trigger] postings[k]).currency@,
    ) by {
        assert(postings[j] == legs[j - n] && postings[k] == legs[k - n]);
    }
    assert forall|j: int| 0 <= j < postings.len() implies (#[trigger] postings[j]).minor > 0
        && postings[j].layer == scope.layer by {
        if j < n {
            assert(postings[j] == carried.legs[j]);
        } else {
            assert(postings[j] == legs[j - n]);
        }
    }
}

} // verus!
