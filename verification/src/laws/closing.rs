//! What a year-end closing flattens, and where the result goes.

use crate::account::AccountId;
use crate::balance::{self, Balance, BalanceKey};
use crate::books;
use crate::closing::{self, ClosingError, Scope};
use crate::money::{Currency, MoneyError};
use crate::ordered;
use crate::posting::{self, Direction};
use vstd::prelude::*;

verus! {

/// True when an account is registered and classified as one of the kinds to close.
/// Nothing else about the account matters.
pub open spec fn classified(scope: Scope, account: AccountId) -> bool {
    account.position < scope.accounts.len() && exists|k: int|
        0 <= k < scope.kinds.len() && scope.accounts[account.position as int].kind == Some(
            #[trigger] scope.kinds[k],
        )
}

/// True when the balance under a key is one to close: in the layer, on an account
/// other than equity that is classified as one of the kinds.
pub open spec fn closes(scope: Scope, key: BalanceKey) -> bool {
    key.layer == scope.layer && key.account != scope.equity && classified(scope, key.account)
}

/// The posting that brings a balance to zero.
pub open spec fn opposing<const P: u8>(key: BalanceKey, b: Balance<P>) -> posting::Movement {
    posting::Movement {
        account: key.account,
        direction: if b.debits.minor > b.credits.minor {
            Direction::Credit
        } else {
            Direction::Debit
        },
        minor: if b.debits.minor > b.credits.minor {
            b.debits.minor - b.credits.minor
        } else {
            b.credits.minor - b.debits.minor
        },
        currency: key.currency,
        layer: key.layer,
        dimensions: Seq::empty(),
    }
}

/// Debits less credits over the balances to close among the first `n`, in one
/// currency.
pub open spec fn result_in<const P: u8>(
    scope: Scope,
    rows: Seq<(BalanceKey, Balance<P>)>,
    n: int,
    currency: Currency,
) -> int
    decreases n,
{
    if n <= 0 {
        0
    } else {
        let (key, b) = rows[n - 1];
        result_in(scope, rows, n - 1, currency) + if closes(scope, key) && key.currency
            == currency {
            b.debits.minor - b.credits.minor
        } else {
            0
        }
    }
}

proof fn lemma_scope(scope: Scope)
    ensures
        forall|account: AccountId| #[trigger]
            closing::is_closed_kind(scope.accounts, scope.kinds, account) <==> classified(
                scope,
                account,
            ),
        forall|key: BalanceKey| #[trigger] closing::in_scope(scope, key) <==> closes(scope, key),
{
    assert forall|account: AccountId| #[trigger]
        closing::is_closed_kind(scope.accounts, scope.kinds, account) <==> classified(
            scope,
            account,
        ) by {
        if closing::is_closed_kind(scope.accounts, scope.kinds, account) {
            let kind = scope.accounts[account.position as int].kind->0;
            let k = choose|k: int| 0 <= k < scope.kinds.len() && scope.kinds[k] == kind;
            assert(scope.accounts[account.position as int].kind == Some(scope.kinds[k]));
        }
        if classified(scope, account) {
            let k = choose|k: int|
                0 <= k < scope.kinds.len() && scope.accounts[account.position as int].kind == Some(
                    #[trigger] scope.kinds[k],
                );
            assert(scope.kinds.contains(scope.kinds[k]));
        }
    }
    assert forall|key: BalanceKey| #[trigger] closing::in_scope(scope, key) <==> closes(
        scope,
        key,
    ) by {
        assert(closing::is_closed_kind(scope.accounts, scope.kinds, key.account) <==> classified(
            scope,
            key.account,
        ));
    }
}

/// True when each of the first `n` balances to close nets to an amount, and the
/// nets add up to an amount after each of them.
pub open spec fn nets_fit<const P: u8>(
    scope: Scope,
    rows: Seq<(BalanceKey, Balance<P>)>,
    n: int,
) -> bool {
    forall|i: int|
        0 <= i < n && closes(scope, (#[trigger] rows[i]).0) ==> {
            let (key, b) = rows[i];
            &&& -i64::MAX <= b.debits.minor - b.credits.minor <= i64::MAX
            &&& i64::MIN <= result_in(scope, rows, i + 1, key.currency) <= i64::MAX
        }
}

proof fn lemma_carried<const P: u8>(
    scope: Scope,
    rows: Seq<(BalanceKey, Balance<P>)>,
    n: int,
)
    requires
        0 <= n <= rows.len(),
    ensures
        closing::carry(scope, rows, n) is Ok <==> nets_fit(scope, rows, n),
        closing::carry(scope, rows, n) matches Err(e) ==> e == MoneyError::Overflow,
        closing::carry(scope, rows, n) matches Ok(carried) ==> forall|currency: Currency|
            closing::offset_in(carried.offsets, #[trigger] currency@) == result_in(
                scope,
                rows,
                n,
                currency,
            ),
        closing::carry(scope, rows, n) matches Ok(carried) ==> forall|code: Seq<u8>| #[trigger]
            carried.offsets.contains_key(code) ==> i64::MIN <= carried.offsets[code] <= i64::MAX,
    decreases n,
{
    lemma_scope(scope);
    if n > 0 {
        lemma_carried(scope, rows, n - 1);
        let (key, b) = rows[n - 1];
        assert(closing::in_scope(scope, key) <==> closes(scope, key));
        assert(nets_fit(scope, rows, n) ==> nets_fit(scope, rows, n - 1));
        if closing::carry(scope, rows, n - 1) is Ok {
            let before = closing::carry(scope, rows, n - 1)->Ok_0;
            assert(closing::offset_in(before.offsets, key.currency@) == result_in(
                scope,
                rows,
                n - 1,
                key.currency,
            ));
            assert(result_in(scope, rows, n, key.currency) == result_in(
                scope,
                rows,
                n - 1,
                key.currency,
            ) + if closes(scope, key) {
                closing::net(b)
            } else {
                0
            });
            if nets_fit(scope, rows, n - 1) && closes(scope, key) {
                assert(nets_fit(scope, rows, n) <==> (-i64::MAX <= closing::net(b) <= i64::MAX
                    && i64::MIN <= result_in(scope, rows, n - 1 + 1, key.currency) <= i64::MAX)) by {
                    assert(rows[n - 1].0 == key);
                }
                if closing::net(b) == 0 {
                    if before.offsets.contains_key(key.currency@) {
                        assert(i64::MIN <= before.offsets[key.currency@] <= i64::MAX);
                    }
                    assert(i64::MIN <= result_in(scope, rows, n - 1, key.currency) <= i64::MAX);
                }
            }
            if nets_fit(scope, rows, n) {
                let after = closing::carry(scope, rows, n)->Ok_0;
                assert forall|currency: Currency|
                    closing::offset_in(after.offsets, #[trigger] currency@) == result_in(
                        scope,
                        rows,
                        n,
                        currency,
                    ) by {
                    if currency@ == key.currency@ {
                        Currency::lemma_code_determines(currency, key.currency);
                    }
                    assert(closing::offset_in(before.offsets, currency@) == result_in(
                        scope,
                        rows,
                        n - 1,
                        currency,
                    ));
                }
            }
        }
    }
}

/// True of a posting on equity that takes up what one currency came to.
pub open spec fn takes_up(
    scope: Scope,
    m: posting::Movement,
    code: Seq<u8>,
    result: int,
) -> bool {
    &&& m.account == scope.equity
    &&& m.currency@ == code
    &&& m.layer == scope.layer
    &&& m.direction == (if result > 0 {
        Direction::Debit
    } else {
        Direction::Credit
    })
    &&& m.minor == (if result > 0 {
        result
    } else {
        -result
    })
    &&& m.minor > 0
    &&& m.dimensions == Seq::<(Seq<char>, Seq<char>)>::empty()
}

proof fn lemma_equity(scope: Scope, offsets: Map<Seq<u8>, int>, codes: Seq<Seq<u8>>)
    requires
        closing::coded(offsets),
        forall|i: int| 0 <= i < codes.len() ==> offsets.contains_key(#[trigger] codes[i]),
    ensures
        closing::equity_legs(scope, offsets, codes) is Ok <==> (forall|i: int|
            0 <= i < codes.len() ==> offsets[#[trigger] codes[i]] >= -i64::MAX),
        closing::equity_legs(scope, offsets, codes) matches Err(e) ==> e == MoneyError::Overflow,
        closing::equity_legs(scope, offsets, codes) matches Ok(legs) ==> {
            &&& forall|j: int|
                0 <= j < legs.len() ==> {
                    let code = (#[trigger] legs[j]).currency@;
                    codes.contains(code) && takes_up(scope, legs[j], code, offsets[code])
                }
            &&& forall|i: int|
                0 <= i < codes.len() && offsets[#[trigger] codes[i]] != 0 ==> exists|j: int|
                    0 <= j < legs.len() && #[trigger] takes_up(
                        scope,
                        legs[j],
                        codes[i],
                        offsets[codes[i]],
                    )
        },
    decreases codes.len(),
{
    if codes.len() > 0 {
        let fewer = codes.drop_last();
        let last = codes.last();
        let n = codes.len() - 1;
        assert(last == codes[n]);
        assert forall|i: int| 0 <= i < fewer.len() implies offsets.contains_key(
            #[trigger] fewer[i],
        ) by {
            assert(fewer[i] == codes[i]);
        }
        lemma_equity(scope, offsets, fewer);
        let ghost every = forall|i: int|
            0 <= i < codes.len() ==> offsets[#[trigger] codes[i]] >= -i64::MAX;
        let ghost each = forall|i: int|
            0 <= i < fewer.len() ==> offsets[#[trigger] fewer[i]] >= -i64::MAX;
        if every {
            assert forall|i: int| 0 <= i < fewer.len() implies offsets[#[trigger] fewer[i]]
                >= -i64::MAX by {
                assert(fewer[i] == codes[i]);
            }
        }
        if each && offsets[last] >= -i64::MAX {
            assert forall|i: int| 0 <= i < codes.len() implies offsets[#[trigger] codes[i]]
                >= -i64::MAX by {
                if i < n {
                    assert(fewer[i] == codes[i]);
                }
            }
        }
        if closing::equity_legs(scope, offsets, codes) is Ok {
            let before = closing::equity_legs(scope, offsets, fewer)->Ok_0;
            let legs = closing::equity_legs(scope, offsets, codes)->Ok_0;
            let currency = choose|currency: Currency| #[trigger] currency@ == last;
            closing::lemma_currency_of(currency);
            assert forall|j: int| 0 <= j < legs.len() implies {
                let code = (#[trigger] legs[j]).currency@;
                codes.contains(code) && takes_up(scope, legs[j], code, offsets[code])
            } by {
                if j < before.len() {
                    assert(legs[j] == before[j]);
                    let i = choose|i: int| 0 <= i < fewer.len() && fewer[i] == legs[j].currency@;
                    assert(codes[i] == fewer[i]);
                } else {
                    assert(codes[n] == legs[j].currency@);
                }
            }
            assert forall|i: int| 0 <= i < codes.len() && offsets[#[trigger] codes[i]] != 0 implies exists|
                j: int,
            |
                0 <= j < legs.len() && #[trigger] takes_up(
                    scope,
                    legs[j],
                    codes[i],
                    offsets[codes[i]],
                ) by {
                if i < n {
                    assert(fewer[i] == codes[i]);
                    let j = choose|j: int|
                        0 <= j < before.len() && #[trigger] takes_up(
                            scope,
                            before[j],
                            fewer[i],
                            offsets[fewer[i]],
                        );
                    assert(legs[j] == before[j]);
                    assert(takes_up(scope, legs[j], codes[i], offsets[codes[i]]));
                } else {
                    let j = legs.len() - 1;
                    assert(takes_up(scope, legs[j], codes[i], offsets[codes[i]]));
                }
            }
        }
    }
}

proof fn lemma_flattened<const P: u8>(scope: Scope, rows: Seq<(BalanceKey, Balance<P>)>)
    ensures
        closing::flattened(scope, rows) == rows.filter(
            |row: (BalanceKey, Balance<P>)|
                closes(scope, row.0) && row.1.debits.minor != row.1.credits.minor,
        ).map_values(|row: (BalanceKey, Balance<P>)| opposing(row.0, row.1)),
{
    lemma_scope(scope);
    let p = |row: (BalanceKey, Balance<P>)| closing::to_close(scope, row);
    let q = |row: (BalanceKey, Balance<P>)|
        closes(scope, row.0) && row.1.debits.minor != row.1.credits.minor;
    assert forall|row: (BalanceKey, Balance<P>)| #[trigger] p(row) == q(row) by {
        assert(closing::in_scope(scope, row.0) <==> closes(scope, row.0));
    }
    assert(p =~= q);
    let f = |row: (BalanceKey, Balance<P>)| closing::flattening(row.0, closing::net(row.1));
    let g = |row: (BalanceKey, Balance<P>)| opposing(row.0, row.1);
    assert forall|row: (BalanceKey, Balance<P>)| #[trigger] f(row) == g(row) by {}
    assert(f =~= g);
}

/// A closing is refused exactly when the equity account is not registered, when it
/// is itself of a kind to close, or when an amount does not fit. Whether an account
/// is closed depends on its layer, on its not being equity and on its kind, and on
/// nothing else about it.
pub proof fn law_closing_is_refused_only_with_cause<const P: u8>(
    scope: Scope,
    rows: Seq<(BalanceKey, Balance<P>)>,
)
    ensures
        closing::closing(scope, rows) == Err::<Seq<posting::Movement>, ClosingError>(
            ClosingError::UnknownEquityAccount { account: scope.equity },
        ) <==> scope.equity.position >= scope.accounts.len(),
        closing::closing(scope, rows) == Err::<Seq<posting::Movement>, ClosingError>(
            ClosingError::EquityInScope { account: scope.equity },
        ) <==> classified(scope, scope.equity),
        closing::closing(scope, rows) == Err::<Seq<posting::Movement>, ClosingError>(
            ClosingError::Money(MoneyError::Overflow),
        ) <==> {
            &&& scope.equity.position < scope.accounts.len()
            &&& !classified(scope, scope.equity)
            &&& !(nets_fit(scope, rows, rows.len() as int) && forall|currency: Currency|
                #[trigger] result_in(scope, rows, rows.len() as int, currency) > i64::MIN)
        },
        closing::closing(scope, rows) is Ok <==> {
            &&& scope.equity.position < scope.accounts.len()
            &&& !classified(scope, scope.equity)
            &&& nets_fit(scope, rows, rows.len() as int)
            &&& forall|currency: Currency| #[trigger]
                result_in(scope, rows, rows.len() as int, currency) > i64::MIN
        },
{
    let n = rows.len() as int;
    lemma_scope(scope);
    assert(closing::is_closed_kind(scope.accounts, scope.kinds, scope.equity) <==> classified(
        scope,
        scope.equity,
    ));
    lemma_carried(scope, rows, n);
    if closing::carry(scope, rows, n) is Ok {
        let offsets = (closing::carry(scope, rows, n)->Ok_0).offsets;
        let codes = ordered::sorted_keys::<Currency, int>(offsets);
        closing::lemma_carry_signed(scope, rows, n, Seq::empty());
        assert forall|i: int| 0 <= i < codes.len() implies offsets.contains_key(
            #[trigger] codes[i],
        ) by {
            assert(codes.contains(codes[i]));
        }
        lemma_equity(scope, offsets, codes);
        if closing::equity_legs(scope, offsets, codes) is Ok {
            assert forall|currency: Currency| #[trigger] result_in(scope, rows, n, currency)
                > i64::MIN by {
                assert(closing::offset_in(offsets, currency@) == result_in(
                    scope,
                    rows,
                    n,
                    currency,
                ));
                if offsets.contains_key(currency@) {
                    assert(codes.contains(currency@));
                    let i = choose|i: int| 0 <= i < codes.len() && codes[i] == currency@;
                    assert(offsets[codes[i]] >= -i64::MAX);
                }
            }
        }
        if forall|currency: Currency| #[trigger] result_in(scope, rows, n, currency) > i64::MIN {
            assert forall|i: int| 0 <= i < codes.len() implies offsets[#[trigger] codes[i]]
                >= -i64::MAX by {
                let currency = choose|currency: Currency| #[trigger] currency@ == codes[i];
                assert(closing::offset_in(offsets, currency@) == result_in(
                    scope,
                    rows,
                    n,
                    currency,
                ));
            }
        }
    }
}

/// A closing posts the opposite of every balance to close that does not net to
/// zero, in the order of the balances, and then takes up on equity, per currency,
/// what they came to. It posts nothing else.
pub proof fn law_closing_posts_the_opposite_of_what_it_closes<const P: u8>(
    scope: Scope,
    rows: Seq<(BalanceKey, Balance<P>)>,
)
    requires
        closing::closing(scope, rows) is Ok,
    ensures
        ({
            let postings = closing::closing(scope, rows)->Ok_0;
            let legs = rows.filter(
                |row: (BalanceKey, Balance<P>)|
                    closes(scope, row.0) && row.1.debits.minor != row.1.credits.minor,
            ).map_values(|row: (BalanceKey, Balance<P>)| opposing(row.0, row.1));
            let n = legs.len() as int;
            &&& n <= postings.len()
            &&& postings.take(n) == legs
            &&& forall|j: int|
                n <= j < postings.len() ==> takes_up(
                    scope,
                    #[trigger] postings[j],
                    postings[j].currency@,
                    result_in(scope, rows, rows.len() as int, postings[j].currency),
                )
            &&& forall|currency: Currency| #[trigger]
                result_in(scope, rows, rows.len() as int, currency) != 0 ==> exists|j: int|
                    n <= j < postings.len() && (#[trigger] postings[j]).currency == currency
            &&& forall|j: int, k: int|
                n <= j < k < postings.len() ==> (#[trigger] postings[j]).currency != (
                #[trigger] postings[k]).currency
        }),
{
    let end = rows.len() as int;
    let postings = closing::closing(scope, rows)->Ok_0;
    let carried = closing::carry(scope, rows, end)->Ok_0;
    let codes = ordered::sorted_keys::<Currency, int>(carried.offsets);
    let equity = closing::equity_legs(scope, carried.offsets, codes)->Ok_0;
    lemma_carried(scope, rows, end);
    closing::lemma_carry_signed(scope, rows, end, Seq::empty());
    assert forall|i: int| 0 <= i < codes.len() implies carried.offsets.contains_key(
        #[trigger] codes[i],
    ) by {
        assert(codes.contains(codes[i]));
    }
    lemma_equity(scope, carried.offsets, codes);
    closing::law_one_closing_posting_per_balance(scope, rows);
    closing::lemma_carry_flattens(scope, rows, end);
    assert(rows.take(end) =~= rows);
    lemma_flattened(scope, rows);
    let n = carried.legs.len() as int;
    assert forall|j: int| n <= j < postings.len() implies takes_up(
        scope,
        #[trigger] postings[j],
        postings[j].currency@,
        result_in(scope, rows, end, postings[j].currency),
    ) by {
        assert(postings[j] == equity[j - n]);
        assert(closing::offset_in(carried.offsets, postings[j].currency@) == result_in(
            scope,
            rows,
            end,
            postings[j].currency,
        ));
    }
    assert forall|currency: Currency| #[trigger] result_in(scope, rows, end, currency)
        != 0 implies exists|j: int|
        n <= j < postings.len() && (#[trigger] postings[j]).currency == currency by {
        assert(closing::offset_in(carried.offsets, currency@) == result_in(
            scope,
            rows,
            end,
            currency,
        ));
        assert(codes.contains(currency@));
        let i = choose|i: int| 0 <= i < codes.len() && codes[i] == currency@;
        assert(carried.offsets[codes[i]] != 0);
        let j = choose|j: int|
            0 <= j < equity.len() && #[trigger] takes_up(
                scope,
                equity[j],
                codes[i],
                carried.offsets[codes[i]],
            );
        assert(postings[n + j] == equity[j]);
        Currency::lemma_code_determines(equity[j].currency, currency);
    }
    assert forall|j: int, k: int| n <= j < k < postings.len() implies (
    #[trigger] postings[j]).currency != (#[trigger] postings[k]).currency by {
        assert(<Currency as ordered::Key>::before(postings[j].currency@, postings[k].currency@));
        if postings[j].currency == postings[k].currency {
            <Currency as ordered::Key>::lemma_irreflexive(postings[j].currency@);
        }
    }
}

/// Once a closing is booked, every balance in the layer, on an account other than
/// equity of one of the kinds, nets to zero, however deep the account stands and
/// whatever its window, limit or currencies; and the net of every other balance
/// outside equity is what it was.
pub proof fn law_a_booked_closing_leaves_nothing_open<const P: u8>(
    scope: Scope,
    balances: Map<BalanceKey, Balance<P>>,
    key: BalanceKey,
)
    requires
        balance::listable(balances),
        closing::closing(scope, balance::rows_of(balances)) is Ok,
        books::fold_postings(
            balances,
            closing::closing(scope, balance::rows_of(balances))->Ok_0,
        ) is Ok,
        key.account != scope.equity,
    ensures
        ({
            let postings = closing::closing(scope, balance::rows_of(balances))->Ok_0;
            let after = balance::balance_at(
                books::fold_postings(balances, postings)->Ok_0,
                key,
            );
            let before = balance::balance_at(balances, key);
            if closes(scope, key) {
                after.debits.minor == after.credits.minor
            } else {
                after.debits.minor - after.credits.minor == before.debits.minor
                    - before.credits.minor
            }
        }),
{
    let rows = balance::rows_of(balances);
    let postings = closing::closing(scope, rows)->Ok_0;
    lemma_scope(scope);
    assert(closing::in_scope(scope, key) <==> closes(scope, key));
    closing::law_closed_books_have_nothing_to_close(scope, balances);
    if !closes(scope, key) {
        closing::lemma_postings_move_nets(balances, postings, key);
        lemma_moves_nothing(scope, rows, postings, key);
    }
}

proof fn lemma_moves_nothing<const P: u8>(
    scope: Scope,
    rows: Seq<(BalanceKey, Balance<P>)>,
    postings: Seq<posting::Movement>,
    key: BalanceKey,
)
    requires
        closing::closing(scope, rows) == Ok::<Seq<posting::Movement>, ClosingError>(postings),
        key.account != scope.equity,
        !closes(scope, key),
    ensures
        crate::entry::net_of(postings, key) == 0,
{
    law_closing_posts_the_opposite_of_what_it_closes(scope, rows);
    let p = |row: (BalanceKey, Balance<P>)|
        closes(scope, row.0) && row.1.debits.minor != row.1.credits.minor;
    let chosen = rows.filter(p);
    let legs = chosen.map_values(|row: (BalanceKey, Balance<P>)| opposing(row.0, row.1));
    assert forall|j: int| 0 <= j < postings.len() implies balance::key_of_movement(
        #[trigger] postings[j],
    ) != key by {
        if j < legs.len() {
            assert(postings[j] == postings.take(legs.len() as int)[j]);
            assert(legs[j] == opposing(chosen[j].0, chosen[j].1));
            assert(chosen.contains(chosen[j]));
            assert(p(chosen[j])) by {
                broadcast use vstd::seq_lib::group_filter_ensures;

            }
        } else {
            assert(takes_up(
                scope,
                postings[j],
                postings[j].currency@,
                result_in(scope, rows, rows.len() as int, postings[j].currency),
            ));
        }
    }
    lemma_untouched(postings, key);
}

proof fn lemma_untouched(postings: Seq<posting::Movement>, key: BalanceKey)
    requires
        forall|j: int|
            0 <= j < postings.len() ==> balance::key_of_movement(#[trigger] postings[j]) != key,
    ensures
        crate::entry::net_of(postings, key) == 0,
    decreases postings.len(),
{
    if postings.len() > 0 {
        let fewer = postings.drop_last();
        assert forall|j: int| 0 <= j < fewer.len() implies balance::key_of_movement(
            #[trigger] fewer[j],
        ) != key by {
            assert(fewer[j] == postings[j]);
        }
        lemma_untouched(fewer, key);
        assert(postings.last() == postings[postings.len() - 1]);
    }
}

} // verus!
