//! Pages, rows and totals.

use crate::account::AccountId;
use crate::balance::{self, Balance, BalanceKey};
use crate::books;
use crate::clearing::PostingPosition;
use crate::entry;
use crate::journal::{self, LogIndex};
use crate::money::{Currency, MoneyError};
use crate::ordered::{self, Key};
use crate::posting::Layer;
use crate::storage;
use vstd::prelude::*;

verus! {

// ── pages ───────────────────────────────────────────────────────────────────

/// A page holds as many records as asked for, but one at the least and 4096 at the
/// most; it ends there, or where the list does.
pub proof fn law_pages_hold_what_was_asked_for(start: int, limit: usize, len: int)
    requires
        0 <= start <= len,
    ensures
        1 <= limit <= 4096 ==> storage::clamped_limit(limit) == limit,
        limit == 0 ==> storage::clamped_limit(limit) == 1,
        limit > 4096 ==> storage::clamped_limit(limit) == 4096,
        ({
            let n = storage::page_end(start, limit, len) - start;
            &&& 0 <= n <= storage::clamped_limit(limit)
            &&& n < storage::clamped_limit(limit) ==> start + n == len
            &&& start + n <= len
        }),
{
}

/// A log is resumed right after the position given, at its start where none is, and
/// at its end where the position is past it.
pub proof fn law_logs_are_resumed_after_a_position(after: Option<LogIndex>, len: int, i: int)
    requires
        0 <= i < len <= u64::MAX,
    ensures
        0 <= storage::resume_at(after, len) <= len,
        i >= storage::resume_at(after, len) <==> (after matches Some(last) ==> last.position < i),
{
}

/// A page of the log holds the entries between its ends, in order, each with its
/// position and its content hash.
pub proof fn law_pages_hold_the_entries_between(
    p: u8,
    entries: Seq<entry::EntryFacts>,
    start: int,
    end: int,
    i: int,
)
    requires
        0 <= start <= i < end <= entries.len() <= u64::MAX,
    ensures
        storage::records_between(p, entries, start, end).len() == end - start,
        ({
            let record = storage::records_between(p, entries, start, end)[i - start];
            &&& record.entry == entries[i]
            &&& record.index == Some(LogIndex { position: i as u64 })
            &&& record.content_hash == entry::entry_hash(p, entries[i])
        }),
{
}

/// True when a posting stands later in the log than another: in a later entry, or
/// later in the same one.
pub open spec fn stands_later(a: PostingPosition, b: PostingPosition) -> bool {
    a.index.position > b.index.position || (a.index.position == b.index.position && a.posting
        > b.posting)
}

proof fn lemma_first_past(positions: Seq<PostingPosition>, after: PostingPosition, from: int)
    requires
        0 <= from <= positions.len(),
    ensures
        ({
            let n = storage::first_past(positions, after, from);
            &&& from <= n <= positions.len()
            &&& forall|i: int| from <= i < n ==> !stands_later(#[trigger] positions[i], after)
            &&& n < positions.len() ==> stands_later(positions[n], after)
        }),
    decreases positions.len() - from,
{
    if from < positions.len() && !books::position_before(after, positions[from]) {
        lemma_first_past(positions, after, from + 1);
    }
}

/// A list of postings in log order is resumed at the first that stands later than
/// the cursor: what comes before it is at the cursor or ahead of it, and everything
/// from it on stands later.
pub proof fn law_lists_are_resumed_past_the_cursor(
    positions: Seq<PostingPosition>,
    after: PostingPosition,
    i: int,
)
    requires
        0 <= i < positions.len(),
        forall|a: int, b: int|
            0 <= a < b < positions.len() ==> stands_later(
                #[trigger] positions[b],
                #[trigger] positions[a],
            ),
    ensures
        storage::resume_past(positions, None) == 0,
        i >= storage::resume_past(positions, Some(after)) <==> stands_later(positions[i], after),
        0 <= storage::resume_past(positions, Some(after)) <= positions.len(),
{
    lemma_first_past(positions, after, 0);
    let n = storage::first_past(positions, after, 0);
    if n < i {
        assert(stands_later(positions[i], positions[n]));
    }
}

/// A page that does not reach the end of its list has a cursor, at its last posting
/// and of the same size; the last page has none.
pub proof fn law_cursors_point_at_the_last_posting(
    positions: Seq<PostingPosition>,
    start: int,
    end: int,
    limit: usize,
)
    requires
        0 <= start <= end <= positions.len(),
    ensures
        match storage::cursor_past(positions, start, end, limit) {
            Some(cursor) => start < end && end < positions.len() && cursor.limit == limit
                && cursor.after == Some(positions[end - 1]),
            None => start == end || end == positions.len(),
        },
{
}

// ── balances of several accounts ────────────────────────────────────────────

/// Asked for several accounts, a journal answers for each one that has a balance,
/// with that balance, in the order asked for, and for no other.
pub proof fn law_balances_are_given_in_the_order_asked<const P: u8>(
    balances: Map<BalanceKey, Balance<P>>,
    accounts: Seq<AccountId>,
    currency: Currency,
    layer: Layer,
)
    ensures
        storage::balances_among(balances, accounts, currency, layer) == accounts.filter(
            |account: AccountId|
                balances.contains_key(BalanceKey { account, currency, layer }),
        ).map_values(
            |account: AccountId| (account, balances[BalanceKey { account, currency, layer }]),
        ),
    decreases accounts.len(),
{
    reveal(Seq::filter);
    let held = |account: AccountId|
        balances.contains_key(BalanceKey { account, currency, layer });
    let paired = |account: AccountId|
        (account, balances[BalanceKey { account, currency, layer }]);
    if accounts.len() > 0 {
        let fewer = accounts.drop_last();
        law_balances_are_given_in_the_order_asked(balances, fewer, currency, layer);
        if held(accounts.last()) {
            assert(fewer.filter(held).push(accounts.last()).map_values(paired)
                =~= fewer.filter(held).map_values(paired).push(paired(accounts.last())));
        }
    } else {
        assert(accounts.filter(held).map_values(paired) =~= Seq::empty());
    }
}

// ── rows and totals ─────────────────────────────────────────────────────────

/// The rows of a trial balance are its keys and their balances, each once, by
/// account, then currency code, then settled ahead of pending.
pub proof fn law_rows_are_the_balances_in_order<const P: u8>(
    balances: Map<BalanceKey, Balance<P>>,
    key: BalanceKey,
)
    requires
        balance::listable(balances),
    ensures
        ({
            let rows = balance::rows_of(balances);
            &&& forall|i: int|
                0 <= i < rows.len() ==> balances.contains_key((#[trigger] rows[i]).0)
                    && balances[rows[i].0] == rows[i].1
            &&& balances.contains_key(key) ==> exists|i: int|
                0 <= i < rows.len() && (#[trigger] rows[i]).0 == key
            &&& forall|i: int, j: int|
                0 <= i < j < rows.len() ==> {
                    let (a, b) = ((#[trigger] rows[i]).0, (#[trigger] rows[j]).0);
                    ||| a.account.position < b.account.position
                    ||| a.account == b.account && ordered::bytes_before(a.currency@, b.currency@)
                    ||| a.account == b.account && a.currency@ == b.currency@ && a.layer is Settled
                        && b.layer is Pending
                }
        }),
{
    let rows = balance::rows_of(balances);
    let keys = ordered::sorted_keys::<BalanceKey, Balance<P>>(balances);
    assert forall|i: int| 0 <= i < rows.len() implies balances.contains_key(
        (#[trigger] rows[i]).0,
    ) && balances[rows[i].0] == rows[i].1 by {
        assert(keys.contains(keys[i]));
    }
    if balances.contains_key(key) {
        assert(keys.contains(key));
        let i = choose|i: int| 0 <= i < keys.len() && keys[i] == key;
        assert(rows[i].0 == key);
    }
    assert forall|i: int, j: int| 0 <= i < j < rows.len() implies ({
        let (a, b) = ((#[trigger] rows[i]).0, (#[trigger] rows[j]).0);
        ||| a.account.position < b.account.position
        ||| a.account == b.account && ordered::bytes_before(a.currency@, b.currency@)
        ||| a.account == b.account && a.currency@ == b.currency@ && a.layer is Settled
            && b.layer is Pending
    }) by {
        assert(BalanceKey::before(keys[i], keys[j]));
    }
}

/// What the first `n` rows hold on one side in one currency and layer.
pub open spec fn held_in<const P: u8>(
    rows: Seq<(BalanceKey, Balance<P>)>,
    n: int,
    currency: Currency,
    layer: Layer,
    debits: bool,
) -> int
    decreases n,
{
    if n <= 0 {
        0
    } else {
        let (key, b) = rows[n - 1];
        held_in(rows, n - 1, currency, layer, debits) + if key.currency == currency && key.layer
            == layer {
            if debits {
                b.debits.minor as int
            } else {
                b.credits.minor as int
            }
        } else {
            0
        }
    }
}

/// True when what the rows hold in a currency and layer can be added up in order.
pub open spec fn holdings_fit<const P: u8>(
    rows: Seq<(BalanceKey, Balance<P>)>,
    n: int,
    currency: Currency,
    layer: Layer,
) -> bool {
    forall|i: int|
        0 <= i <= n ==> i64::MIN <= #[trigger] held_in(rows, i, currency, layer, true) <= i64::MAX
            && i64::MIN <= held_in(rows, i, currency, layer, false) <= i64::MAX
}

proof fn lemma_held<const P: u8>(
    rows: Seq<(BalanceKey, Balance<P>)>,
    n: int,
    currency: Currency,
    layer: Layer,
)
    requires
        0 <= n <= rows.len(),
    ensures
        match balance::rows_total(rows.take(n), currency, layer) {
            Ok(total) => holdings_fit(rows, n, currency, layer) && total.debits.minor == held_in(
                rows,
                n,
                currency,
                layer,
                true,
            ) && total.credits.minor == held_in(rows, n, currency, layer, false),
            Err(e) => e == MoneyError::Overflow && !holdings_fit(rows, n, currency, layer),
        },
    decreases n,
{
    if n > 0 {
        lemma_held(rows, n - 1, currency, layer);
        let some = rows.take(n);
        assert(some.drop_last() =~= rows.take(n - 1));
        assert(some.last() == rows[n - 1]);
        if holdings_fit(rows, n, currency, layer) {
            assert(holdings_fit(rows, n - 1, currency, layer));
            assert(i64::MIN <= held_in(rows, n, currency, layer, true) <= i64::MAX);
        }
        if balance::rows_total(some, currency, layer) is Ok {
            assert(holdings_fit(rows, n - 1, currency, layer));
            assert forall|i: int| 0 <= i <= n implies i64::MIN <= #[trigger] held_in(
                rows,
                i,
                currency,
                layer,
                true,
            ) <= i64::MAX && i64::MIN <= held_in(rows, i, currency, layer, false) <= i64::MAX by {
                if i < n {
                    assert(i <= n - 1);
                }
            }
        } else if holdings_fit(rows, n, currency, layer) {
            assert(i64::MIN <= held_in(rows, n, currency, layer, true) <= i64::MAX);
        }
    } else {
        assert(rows.take(n) =~= Seq::<(BalanceKey, Balance<P>)>::empty());
        assert forall|i: int| 0 <= i <= n implies i64::MIN <= #[trigger] held_in(
            rows,
            i,
            currency,
            layer,
            true,
        ) <= i64::MAX && i64::MIN <= held_in(rows, i, currency, layer, false) <= i64::MAX by {}
    }
}

/// The total of a currency in a layer is the sum of the debits and the sum of the
/// credits that the rows hold in it, and overflows exactly when one of them does on
/// the way.
pub proof fn law_totals_add_up_the_rows<const P: u8>(
    rows: Seq<(BalanceKey, Balance<P>)>,
    currency: Currency,
    layer: Layer,
)
    ensures
        match balance::rows_total(rows, currency, layer) {
            Ok(total) => {
                &&& holdings_fit(rows, rows.len() as int, currency, layer)
                &&& total.debits.minor == held_in(rows, rows.len() as int, currency, layer, true)
                &&& total.credits.minor == held_in(
                    rows,
                    rows.len() as int,
                    currency,
                    layer,
                    false,
                )
            },
            Err(e) => e == MoneyError::Overflow && !holdings_fit(
                rows,
                rows.len() as int,
                currency,
                layer,
            ),
        },
{
    assert(rows.take(rows.len() as int) =~= rows);
    lemma_held(rows, rows.len() as int, currency, layer);
}

/// Debits equal credits in a currency when what is held on both sides, settled and
/// pending together, is the same.
pub open spec fn evens_out<const P: u8>(
    rows: Seq<(BalanceKey, Balance<P>)>,
    currency: Currency,
) -> bool {
    let n = rows.len() as int;
    held_in(rows, n, currency, Layer::Settled, true) + held_in(
        rows,
        n,
        currency,
        Layer::Pending,
        true,
    ) == held_in(rows, n, currency, Layer::Settled, false) + held_in(
        rows,
        n,
        currency,
        Layer::Pending,
        false,
    )
}

/// Books count as balanced exactly when debits equal credits in every currency, and
/// as unbalanced only when some currency does not even out.
pub proof fn law_books_balance_when_every_currency_does<const P: u8>(
    rows: Seq<(BalanceKey, Balance<P>)>,
    currencies: Seq<Currency>,
    from: int,
)
    requires
        0 <= from <= currencies.len(),
    ensures
        match journal::all_balanced(rows, currencies, from) {
            Ok(true) => forall|i: int|
                from <= i < currencies.len() ==> evens_out(rows, #[trigger] currencies[i]),
            Ok(false) => exists|i: int|
                from <= i < currencies.len() && !evens_out(rows, #[trigger] currencies[i]),
            Err(e) => e == MoneyError::Overflow && exists|i: int|
                from <= i < currencies.len() && !(holdings_fit(
                    rows,
                    rows.len() as int,
                    #[trigger] currencies[i],
                    Layer::Settled,
                ) && holdings_fit(rows, rows.len() as int, currencies[i], Layer::Pending)),
        },
    decreases currencies.len() - from,
{
    if from < currencies.len() {
        law_totals_add_up_the_rows(rows, currencies[from], Layer::Settled);
        law_totals_add_up_the_rows(rows, currencies[from], Layer::Pending);
        law_books_balance_when_every_currency_does(rows, currencies, from + 1);
    }
}

/// A movement adds its amount to its own side of a balance and leaves the other
/// side alone; it fails only where the sum is no amount.
pub proof fn law_movements_add_to_their_side<const P: u8>(b: Balance<P>, minor: int)
    ensures
        match balance::moved(b, crate::posting::Direction::Debit, minor) {
            Ok(after) => after.debits.minor == b.debits.minor + minor && after.credits
                == b.credits,
            Err(e) => e == MoneyError::Overflow && !(i64::MIN <= b.debits.minor + minor
                <= i64::MAX),
        },
        match balance::moved(b, crate::posting::Direction::Credit, minor) {
            Ok(after) => after.credits.minor == b.credits.minor + minor && after.debits
                == b.debits,
            Err(e) => e == MoneyError::Overflow && !(i64::MIN <= b.credits.minor + minor
                <= i64::MAX),
        },
{
}

/// Balances combine side by side, and nothing is added to nothing.
pub proof fn law_balances_combine_side_by_side<const P: u8>(a: Balance<P>, b: Balance<P>)
    ensures
        match balance::combined(a, b) {
            Ok(sum) => sum.debits.minor == a.debits.minor + b.debits.minor && sum.credits.minor
                == a.credits.minor + b.credits.minor,
            Err(e) => e == MoneyError::Overflow && !(i64::MIN <= a.debits.minor + b.debits.minor
                <= i64::MAX && i64::MIN <= a.credits.minor + b.credits.minor <= i64::MAX),
        },
        balance::combined(a, balance::zero_balance::<P>()) == Ok::<Balance<P>, MoneyError>(a),
        balance::zero_balance::<P>().debits.minor == 0,
        balance::zero_balance::<P>().credits.minor == 0,
{
}

} // verus!
