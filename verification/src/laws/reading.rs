//! What is read back: coverage, statements, balances and open items.

use crate::balance::{self, Balance, BalanceKey};
use crate::books::{self, Books};
use crate::clearing::{self, OpenItem, PostingPosition, PostingRef};
use crate::entry;
use crate::journal::{self, LogIndex};
use crate::posting::{self, Direction};
use crate::seal;
use vstd::prelude::*;

verus! {

/// True of a movement on this account, in this currency and layer.
pub open spec fn moves_on(m: posting::Movement, key: BalanceKey) -> bool {
    m.account == key.account && m.currency == key.currency && m.layer == key.layer
}

/// True when entry `i` was booked between two days, both included.
pub open spec fn booked_at(
    entries: Seq<entry::EntryFacts>,
    i: int,
    start: int,
    end: int,
) -> bool {
    0 <= i < entries.len() && start <= entries[i].booking_date@ <= end
}

// ── what a seal covers ──────────────────────────────────────────────────────

/// True when coverage counts exactly the entries booked between two days, and names
/// the first and the last of them in the log.
pub open spec fn covers_what_was_booked(
    entries: Seq<entry::EntryFacts>,
    start: int,
    end: int,
    coverage: seal::PeriodCoverage,
) -> bool {
    &&& coverage.entry_count == entries.filter(
        |e: entry::EntryFacts| start <= e.booking_date@ <= end,
    ).len()
    &&& match coverage.first_index {
        Some(first) => booked_at(entries, first as int, start, end) && (forall|i: int| #[trigger]
            booked_at(entries, i, start, end) ==> first <= i),
        None => forall|i: int| !#[trigger] booked_at(entries, i, start, end),
    }
    &&& match coverage.last_index {
        Some(last) => booked_at(entries, last as int, start, end) && (forall|i: int| #[trigger]
            booked_at(entries, i, start, end) ==> i <= last),
        None => forall|i: int| !#[trigger] booked_at(entries, i, start, end),
    }
}

/// Coverage counts what was booked.
pub proof fn lemma_coverage(entries: Seq<entry::EntryFacts>, start: int, end: int)
    requires
        entries.len() <= u64::MAX,
    ensures
        covers_what_was_booked(entries, start, end, books::coverage_of(entries, start, end)),
        books::coverage_of(entries, start, end).entry_count <= entries.len(),
    decreases entries.len(),
{
    reveal(Seq::filter);
    if entries.len() > 0 {
        let before = entries.drop_last();
        lemma_coverage(before, start, end);
        assert forall|i: int| #[trigger] booked_at(entries, i, start, end) <==> (booked_at(
            before,
            i,
            start,
            end,
        ) || (i == entries.len() - 1 && start <= entries.last().booking_date@ <= end)) by {}
        let coverage = books::coverage_of(before, start, end);
        if coverage.first_index is Some {
            assert(booked_at(entries, coverage.first_index->0 as int, start, end));
        }
        if coverage.last_index is Some {
            assert(booked_at(entries, coverage.last_index->0 as int, start, end));
        }
        if start <= entries.last().booking_date@ <= end {
            assert(booked_at(entries, entries.len() - 1, start, end));
        }
    }
}

/// A seal counts exactly the entries booked inside its period: as many as there
/// are, from the first of them in the log to the last, and no index where there
/// are none. It names the period and the ledger it is for, commits to the whole
/// log, to the closing balances and to the accounts as they stand, and follows the
/// seal before it.
pub proof fn law_seals_count_their_period<const P: u8>(
    books: Books<P>,
    period: Seq<char>,
    closing: Map<BalanceKey, Balance<P>>,
)
    requires
        books.entries.len() <= u64::MAX,
    ensures
        ({
            let after = journal::sealed_books(books, period, closing);
            let s = after.seals.last();
            let (start, end) = (books.periods[period].start@, books.periods[period].end@);
            let entries = books.entries;
            &&& after.seals.len() == books.seals.len() + 1
            &&& after.seals.drop_last() == books.seals
            &&& s.entry_count == entries.filter(
                |e: entry::EntryFacts| start <= e.booking_date@ <= end,
            ).len()
            &&& match s.first_index {
                Some(first) => booked_at(entries, first as int, start, end) && (forall|i: int|
                    #[trigger] booked_at(entries, i, start, end) ==> first <= i),
                None => forall|i: int| !#[trigger] booked_at(entries, i, start, end),
            }
            &&& match s.last_index {
                Some(last) => booked_at(entries, last as int, start, end) && (forall|i: int|
                    #[trigger] booked_at(entries, i, start, end) ==> i <= last),
                None => forall|i: int| !#[trigger] booked_at(entries, i, start, end),
            }
            &&& s.period == period
            &&& s.ledger == books.ledger
            &&& s.tree_head.size == entries.len()
            &&& s.tree_head.root == crate::merkle::root_of(
                Seq::new(entries.len(), |i: int| entry::entry_hash(P, entries[i])),
            )
            &&& s.trial_balance_root == seal::balances_root(closing)
            &&& s.accounts_root == crate::account::commitment_of(books.accounts).root
            &&& s.prev_seal == (if books.seals.len() == 0 {
                None
            } else {
                Some(books.seals.last().seal_hash)
            })
            &&& s.seal_hash == seal::seal_digest(s)
            &&& after.periods.contains_key(period)
            &&& after.periods[period].state is Sealed
            &&& after.periods[period].start == books.periods[period].start
            &&& after.periods[period].end == books.periods[period].end
            &&& forall|other: Seq<char>|
                other != period ==> (#[trigger] after.periods.contains_key(other)
                    == books.periods.contains_key(other)) && (books.periods.contains_key(other)
                    ==> after.periods[other] == books.periods[other])
            &&& after.sealed_accounts == books.sealed_accounts.push(books.accounts)
            &&& after.entries == books.entries
            &&& after.accounts == books.accounts
            &&& after.clearings == books.clearings
            &&& after.policy == books.policy
            &&& after.ledger == books.ledger
        }),
{
    let entries = books.entries;
    lemma_coverage(entries, books.periods[period].start@, books.periods[period].end@);
    assert(books::content_hashes(P, entries) =~= Seq::new(
        entries.len(),
        |i: int| entry::entry_hash(P, entries[i]),
    ));
    let after = journal::sealed_books(books, period, closing);
    assert(after.seals.drop_last() =~= books.seals);
}

// ── what was booked through a day ───────────────────────────────────────────

/// What was booked through a day is every entry with that booking date or an
/// earlier one, in log order, whenever it was recorded.
pub proof fn law_through_a_day_is_by_booking_date(entries: Seq<entry::EntryFacts>, day: int)
    ensures
        books::through(entries, day) == entries.filter(
            |e: entry::EntryFacts| e.booking_date@ <= day,
        ),
    decreases entries.len(),
{
    reveal(Seq::filter);
    if entries.len() > 0 {
        law_through_a_day_is_by_booking_date(entries.drop_last(), day);
    } else {
        assert(books::through(entries, day) =~= entries.filter(
            |e: entry::EntryFacts| e.booking_date@ <= day,
        ));
    }
}

/// The state of a log at an earlier size is its first so many entries.
pub proof fn law_a_prefix_is_the_first_entries(entries: Seq<entry::EntryFacts>, size: u64)
    requires
        size <= entries.len(),
    ensures
        books::prefix(entries, Some(size)) == entries.take(size as int),
        books::prefix(entries, None) == entries,
{
    assert(entries.take(entries.len() as int) =~= entries);
}

// ── balances ────────────────────────────────────────────────────────────────

/// The sum of what some movements move on one side of a key.
pub open spec fn moved_on(
    movements: Seq<posting::Movement>,
    key: BalanceKey,
    side: Direction,
) -> int
    decreases movements.len(),
{
    if movements.len() == 0 {
        0
    } else {
        let m = movements.last();
        moved_on(movements.drop_last(), key, side) + if moves_on(m, key) && m.direction == side {
            m.minor
        } else {
            0
        }
    }
}

/// The sum of what some entries move on one side of a key.
pub open spec fn booked_on(
    entries: Seq<entry::EntryFacts>,
    key: BalanceKey,
    side: Direction,
) -> int
    decreases entries.len(),
{
    if entries.len() == 0 {
        0
    } else {
        booked_on(entries.drop_last(), key, side) + moved_on(entries.last().postings, key, side)
    }
}

/// True when some posting of some entry is on a key.
pub open spec fn ever_moved(entries: Seq<entry::EntryFacts>, key: BalanceKey) -> bool {
    exists|i: int, k: int|
        0 <= i < entries.len() && 0 <= k < entries[i].postings.len() && moves_on(
            #[trigger] entries[i].postings[k],
            key,
        )
}

/// Adding postings to balances moves each key by what is posted on it, side by
/// side, and leaves every other key alone.
pub proof fn law_postings_move_their_keys<const P: u8>(
    balances: Map<BalanceKey, Balance<P>>,
    postings: Seq<posting::Movement>,
    key: BalanceKey,
)
    requires
        books::fold_postings(balances, postings) is Ok,
    ensures
        ({
            let after = books::fold_postings(balances, postings)->Ok_0;
            let (was, is) = (
                balance::balance_at(balances, key),
                balance::balance_at(after, key),
            );
            &&& is.debits.minor == was.debits.minor + moved_on(postings, key, Direction::Debit)
            &&& is.credits.minor == was.credits.minor + moved_on(
                postings,
                key,
                Direction::Credit,
            )
            &&& after.contains_key(key) <==> balances.contains_key(key) || exists|k: int|
                0 <= k < postings.len() && moves_on(#[trigger] postings[k], key)
            &&& (forall|k: int|
                0 <= k < postings.len() ==> !moves_on(#[trigger] postings[k], key))
                && balances.contains_key(key) ==> after[key] == balances[key]
        }),
    decreases postings.len(),
{
    if postings.len() > 0 {
        let fewer = postings.drop_last();
        law_postings_move_their_keys(balances, fewer, key);
        let before = books::fold_postings(balances, fewer)->Ok_0;
        let after = books::fold_postings(balances, postings)->Ok_0;
        let m = postings.last();
        assert(moves_on(m, key) <==> balance::key_of_movement(m) == key);
        if exists|k: int| 0 <= k < fewer.len() && moves_on(#[trigger] fewer[k], key) {
            let k = choose|k: int| 0 <= k < fewer.len() && moves_on(#[trigger] fewer[k], key);
            assert(moves_on(postings[k], key));
        }
        if exists|k: int| 0 <= k < postings.len() && moves_on(#[trigger] postings[k], key) {
            let k = choose|k: int|
                0 <= k < postings.len() && moves_on(#[trigger] postings[k], key);
            if k < fewer.len() {
                assert(moves_on(fewer[k], key));
            }
        } else {
            assert forall|k: int| 0 <= k < fewer.len() implies !moves_on(
                #[trigger] fewer[k],
                key,
            ) by {
                assert(fewer[k] == postings[k]);
            }
        }
        assert(moves_on(m, key) ==> moves_on(postings[postings.len() - 1], key));
    }
}

/// A balance is what was posted: its debits are the debits of every posting on
/// its key and its credits are the credits, nothing more and nothing less. A key
/// has a row exactly when something was posted on it.
pub proof fn law_balances_are_what_was_posted<const P: u8>(
    entries: Seq<entry::EntryFacts>,
    key: BalanceKey,
)
    requires
        books::folded::<P>(entries) is Ok,
    ensures
        ({
            let balances = books::folded::<P>(entries)->Ok_0;
            let b = balance::balance_at(balances, key);
            &&& b.debits.minor == booked_on(entries, key, Direction::Debit)
            &&& b.credits.minor == booked_on(entries, key, Direction::Credit)
            &&& balances.contains_key(key) <==> ever_moved(entries, key)
        }),
    decreases entries.len(),
{
    if entries.len() > 0 {
        let before = entries.drop_last();
        law_balances_are_what_was_posted::<P>(before, key);
        law_postings_move_their_keys(
            books::folded::<P>(before)->Ok_0,
            entries.last().postings,
            key,
        );
        if ever_moved(before, key) {
            let (i, k) = choose|i: int, k: int|
                0 <= i < before.len() && 0 <= k < before[i].postings.len() && moves_on(
                    #[trigger] before[i].postings[k],
                    key,
                );
            assert(moves_on(entries[i].postings[k], key));
        }
        let last = entries[entries.len() - 1].postings;
        if exists|k: int| 0 <= k < last.len() && moves_on(#[trigger] last[k], key) {
            let k = choose|k: int| 0 <= k < last.len() && moves_on(#[trigger] last[k], key);
            assert(moves_on(entries[entries.len() - 1].postings[k], key));
        }
        if ever_moved(entries, key) {
            let (i, k) = choose|i: int, k: int|
                0 <= i < entries.len() && 0 <= k < entries[i].postings.len() && moves_on(
                    #[trigger] entries[i].postings[k],
                    key,
                );
            if i < before.len() {
                assert(moves_on(before[i].postings[k], key));
            } else {
                assert(moves_on(last[k], key));
            }
        }
    }
}

// ── statements ──────────────────────────────────────────────────────────────

/// True when a site is where a posting on a key is.
pub open spec fn is_site(
    entries: Seq<entry::EntryFacts>,
    i: int,
    k: int,
    key: BalanceKey,
) -> bool {
    &&& 0 <= i < entries.len()
    &&& 0 <= k < entries[i].postings.len()
    &&& moves_on(entries[i].postings[k], key)
}

/// The position of posting `k` of entry `i`.
pub open spec fn position_at(i: int, k: int) -> PostingPosition {
    PostingPosition { index: LogIndex { position: i as u64 }, posting: k as u16 }
}

proof fn lemma_entry_sites_complete(
    index: int,
    postings: Seq<posting::Movement>,
    key: BalanceKey,
    k: int,
)
    requires
        0 <= index <= u64::MAX,
        postings.len() <= books::ADDRESSABLE,
        0 <= k < postings.len(),
        moves_on(postings[k], key),
    ensures
        books::entry_sites(index, postings, key).contains(position_at(index, k)),
    decreases postings.len(),
{
    let before = postings.drop_last();
    let sites = books::entry_sites(index, postings, key);
    assert(balance::key_of_movement(postings[k]) == key);
    if k < before.len() {
        lemma_entry_sites_complete(index, before, key, k);
        let fewer = books::entry_sites(index, before, key);
        let n = choose|n: int| 0 <= n < fewer.len() && fewer[n] == position_at(index, k);
        assert(sites[n] == fewer[n]);
    } else {
        assert(sites.last() == position_at(index, k));
        assert(sites[sites.len() - 1] == position_at(index, k));
    }
}

proof fn lemma_sites_complete(entries: Seq<entry::EntryFacts>, key: BalanceKey, i: int, k: int)
    requires
        books::addressable(entries),
        is_site(entries, i, k, key),
    ensures
        books::sites_of(entries, key).contains(position_at(i, k)),
    decreases entries.len(),
{
    let before = entries.drop_last();
    let sites = books::sites_of(entries, key);
    let fewer = books::sites_of(before, key);
    assert forall|j: int| 0 <= j < before.len() implies (#[trigger] before[j]).postings.len()
        <= books::ADDRESSABLE by {
        assert(before[j] == entries[j]);
    }
    if i < before.len() {
        assert(before[i] == entries[i]);
        lemma_sites_complete(before, key, i, k);
        let n = choose|n: int| 0 <= n < fewer.len() && fewer[n] == position_at(i, k);
        assert(sites[n] == fewer[n]);
    } else {
        let last = books::entry_sites(i, entries.last().postings, key);
        assert(entries.last() == entries[i]);
        lemma_entry_sites_complete(i, entries.last().postings, key, k);
        let n = choose|n: int| 0 <= n < last.len() && last[n] == position_at(i, k);
        assert(sites[fewer.len() + n] == last[n]);
    }
}

/// Each statement line shows the posting it refers to. It stands at that posting's
/// place in the log, its reference resolves to it, its side and amount are the
/// posting's own, its date and kind are those of the entry, and the running balance
/// is that of the line before, moved by this line.
pub proof fn law_statement_lines_show_their_postings<const P: u8>(
    entries: Seq<entry::EntryFacts>,
    key: BalanceKey,
    n: int,
)
    requires
        books::addressable(entries),
        books::distinct_entries(entries),
        books::folded::<P>(entries) is Ok,
        0 <= n < books::statement_of::<P>(entries, key).len(),
    ensures
        ({
            let lines = books::statement_of::<P>(entries, key);
            let line = lines[n];
            let (i, k) = (line.index.position as int, line.posting.index as int);
            let m = entries[i].postings[k];
            let (debits, credits) = if n == 0 {
                (0int, 0int)
            } else {
                (
                    lines[n - 1].running.debits.minor as int,
                    lines[n - 1].running.credits.minor as int,
                )
            };
            &&& is_site(entries, i, k, key)
            &&& line.posting.entry == entries[i].id
            &&& books::posting_at(entries, line.posting) == Some(m)
            &&& line.direction == m.direction
            &&& line.minor == m.minor
            &&& line.booking_date == entries[i].booking_date
            &&& line.kind == entries[i].kind
            &&& line.running.debits.minor == debits + (if m.direction is Debit {
                m.minor
            } else {
                0
            })
            &&& line.running.credits.minor == credits + (if m.direction is Credit {
                m.minor
            } else {
                0
            })
        }),
{
    let moves = books::movements_on(entries, key);
    let site = books::sites_of(entries, key)[n];
    books::lemma_sites(entries, key);
    assert(books::names_movement(entries, site, moves[n]));
    books::law_references_resolve(entries, site, moves[n]);
    books::lemma_running_balance::<P>(entries, key, n);
    books::lemma_running_balance::<P>(entries, key, n + 1);
    assert(moves.take(n + 1).drop_last() =~= moves.take(n));
    assert(moves.take(n + 1).last() == moves[n]);
    if n == 0 {
        assert(moves.take(0) =~= Seq::<posting::Movement>::empty());
    }
    assert(balance::key_of_movement(moves[n]) == key);
}

/// A statement leaves nothing out: every posting on the account has its line, and
/// lines come in log order, so each has exactly one.
pub proof fn law_statements_are_complete<const P: u8>(
    entries: Seq<entry::EntryFacts>,
    key: BalanceKey,
    i: int,
    k: int,
)
    requires
        books::addressable(entries),
        is_site(entries, i, k, key),
    ensures
        exists|n: int|
            0 <= n < books::statement_of::<P>(entries, key).len() && (
            #[trigger] books::statement_of::<P>(entries, key)[n]).index.position == i
                && books::statement_of::<P>(entries, key)[n].posting.index == k,
        forall|a: int, b: int|
            0 <= a < b < books::statement_of::<P>(entries, key).len() ==> {
                let (x, y) = (
                    #[trigger] books::statement_of::<P>(entries, key)[a],
                    #[trigger] books::statement_of::<P>(entries, key)[b],
                );
                x.index.position < y.index.position || (x.index.position == y.index.position
                    && x.posting.index < y.posting.index)
            },
{
    let all = books::statement_of::<P>(entries, key);
    let sites = books::sites_of(entries, key);
    lemma_sites_complete(entries, key, i, k);
    let n = choose|n: int| 0 <= n < sites.len() && sites[n] == position_at(i, k);
    assert(entries[i].postings.len() <= books::ADDRESSABLE);
    assert(all[n].index.position == i && all[n].posting.index == k);
    books::lemma_sites_ascend(entries, key);
    assert forall|a: int, b: int| 0 <= a < b < all.len() implies {
        let (x, y) = (#[trigger] all[a], #[trigger] all[b]);
        x.index.position < y.index.position || (x.index.position == y.index.position
            && x.posting.index < y.posting.index)
    } by {
        assert(books::position_before(sites[a], sites[b]));
    }
}

// ── open items ──────────────────────────────────────────────────────────────

proof fn lemma_open_sites<const P: u8>(
    events: Seq<clearing::EventFacts<P>>,
    entries: Seq<entry::EntryFacts>,
    key: BalanceKey,
    n: int,
)
    requires
        books::addressable(entries),
        books::distinct_entries(entries),
        0 <= n <= books::sites_of(entries, key).len(),
        books::open_sites::<P>(events, entries, key, n) is Ok,
    ensures
        ({
            let open = books::open_sites::<P>(events, entries, key, n)->Ok_0;
            let sites = books::sites_of(entries, key);
            &&& forall|x: int|
                0 <= x < open.len() ==> shows_open::<P>(events, entries, key, #[trigger] open[x])
            &&& forall|j: int|
                0 <= j < n && still_open::<P>(events, entries, #[trigger] sites[j])
                    ==> exists|x: int| 0 <= x < open.len() && (#[trigger] open[x]).0 == sites[j]
        }),
    decreases n,
{
    if n > 0 {
        lemma_open_sites::<P>(events, entries, key, n - 1);
        let sites = books::sites_of(entries, key);
        let site = sites[n - 1];
        let m = books::movements_on(entries, key)[n - 1];
        books::lemma_sites(entries, key);
        assert(books::names_movement(entries, site, m));
        assert(balance::key_of_movement(m) == key);
        books::law_references_resolve(entries, site, m);
        let before = books::open_sites::<P>(events, entries, key, n - 1)->Ok_0;
        let open = books::open_sites::<P>(events, entries, key, n)->Ok_0;
        assert forall|x: int| 0 <= x < open.len() implies shows_open::<P>(
            events,
            entries,
            key,
            #[trigger] open[x],
        ) by {
            if x < before.len() {
                assert(open[x] == before[x]);
            }
        }
        assert forall|j: int|
            0 <= j < n && still_open::<P>(events, entries, #[trigger] sites[j]) implies exists|
            x: int,
        | 0 <= x < open.len() && (#[trigger] open[x]).0 == sites[j] by {
            if j < n - 1 {
                let x = choose|x: int| 0 <= x < before.len() && (#[trigger] before[x]).0 == sites[j];
                assert(open[x] == before[x]);
            } else {
                assert(open[open.len() - 1].0 == site);
            }
        }
    }
}

/// True when less is applied to the posting at a site than it moves.
pub open spec fn still_open<const P: u8>(
    events: Seq<clearing::EventFacts<P>>,
    entries: Seq<entry::EntryFacts>,
    site: PostingPosition,
) -> bool {
    let e = entries[site.index.position as int];
    clearing::applied_sum(events, PostingRef { entry: e.id, index: site.posting })
        < e.postings[site.posting as int].minor
}

/// True when an open item shows the posting at its place: which one it is, its
/// side and amount, how much is applied to it and what is left, which is more than
/// nothing.
pub open spec fn shows_open<const P: u8>(
    events: Seq<clearing::EventFacts<P>>,
    entries: Seq<entry::EntryFacts>,
    key: BalanceKey,
    open: (PostingPosition, OpenItem<P>),
) -> bool {
    let (i, k) = (open.0.index.position as int, open.0.posting as int);
    let m = entries[i].postings[k];
    let item = open.1;
    &&& is_site(entries, i, k, key)
    &&& item.posting == (PostingRef { entry: entries[i].id, index: open.0.posting })
    &&& item.direction == m.direction
    &&& i64::MIN <= m.minor <= i64::MAX ==> item.original.minor == m.minor
    &&& ({
        let applied = clearing::applied_sum(events, item.posting);
        &&& i64::MIN <= applied <= i64::MAX ==> item.applied.minor == applied
        &&& item.residual.minor == m.minor - applied
        &&& item.residual.minor > 0
    })
}

/// Open items are the postings with something left on them: every item listed
/// shows its posting, what is applied to it and what remains, and every posting
/// on the account to which less is applied than it moves is listed.
pub proof fn law_open_items_show_what_is_left<const P: u8>(
    events: Seq<clearing::EventFacts<P>>,
    entries: Seq<entry::EntryFacts>,
    key: BalanceKey,
)
    requires
        books::addressable(entries),
        books::distinct_entries(entries),
        books::open_on::<P>(events, entries, key) is Ok,
    ensures
        ({
            let open = books::open_on::<P>(events, entries, key)->Ok_0;
            &&& forall|x: int|
                0 <= x < open.len() ==> shows_open::<P>(events, entries, key, #[trigger] open[x])
            &&& forall|i: int, k: int| #[trigger]
                is_site(entries, i, k, key) && still_open::<P>(events, entries, position_at(i, k))
                    ==> exists|x: int|
                    0 <= x < open.len() && (#[trigger] open[x]).0 == position_at(i, k)
            &&& books::items_of(open).len() == open.len()
            &&& forall|x: int|
                0 <= x < open.len() ==> #[trigger] books::items_of(open)[x] == open[x].1
        }),
{
    let sites = books::sites_of(entries, key);
    lemma_open_sites::<P>(events, entries, key, sites.len() as int);
    let open = books::open_on::<P>(events, entries, key)->Ok_0;
    assert forall|i: int, k: int| #[trigger]
        is_site(entries, i, k, key) && still_open::<P>(
            events,
            entries,
            position_at(i, k),
        ) implies exists|x: int| 0 <= x < open.len() && (#[trigger] open[x]).0 == position_at(
        i,
        k,
    ) by {
        lemma_sites_complete(entries, key, i, k);
        let j = choose|j: int| 0 <= j < sites.len() && sites[j] == position_at(i, k);
        assert(still_open::<P>(events, entries, sites[j]));
    }
}

/// Open items can be told: where every posting and what is applied to it are
/// amounts and nothing is applied beyond a posting, listing them does not fail.
pub proof fn law_open_items_can_be_listed<const P: u8>(
    events: Seq<clearing::EventFacts<P>>,
    entries: Seq<entry::EntryFacts>,
    key: BalanceKey,
    n: int,
)
    requires
        books::addressable(entries),
        books::distinct_entries(entries),
        0 <= n <= books::sites_of(entries, key).len(),
        forall|i: int, k: int| #[trigger]
            is_site(entries, i, k, key) ==> {
                let applied = clearing::applied_sum(
                    events,
                    PostingRef { entry: entries[i].id, index: k as u16 },
                );
                i64::MIN <= entries[i].postings[k].minor - applied <= i64::MAX
            },
    ensures
        books::open_sites::<P>(events, entries, key, n) is Ok,
    decreases n,
{
    if n > 0 {
        law_open_items_can_be_listed::<P>(events, entries, key, n - 1);
        let site = books::sites_of(entries, key)[n - 1];
        let m = books::movements_on(entries, key)[n - 1];
        books::lemma_sites(entries, key);
        assert(books::names_movement(entries, site, m));
        assert(balance::key_of_movement(m) == key);
        books::law_references_resolve(entries, site, m);
        assert(is_site(entries, site.index.position as int, site.posting as int, key));
    }
}

/// The state of a balance at an earlier size of the log is what the first so many
/// entries posted on its key.
pub proof fn law_earlier_balances_are_what_was_posted_by_then<const P: u8>(
    entries: Seq<entry::EntryFacts>,
    size: Option<u64>,
    key: BalanceKey,
)
    requires
        books::folded::<P>(entries) is Ok,
    ensures
        ({
            let b = balance::balance_at(books::balances_at::<P>(entries, size), key);
            let first = match size {
                Some(n) => if n < entries.len() {
                    entries.take(n as int)
                } else {
                    entries
                },
                None => entries,
            };
            &&& b.debits.minor == booked_on(first, key, Direction::Debit)
            &&& b.credits.minor == booked_on(first, key, Direction::Credit)
            &&& books::balances_at::<P>(entries, size).contains_key(key) <==> ever_moved(
                first,
                key,
            )
        }),
{
    if let Some(n) = size {
        if n < entries.len() {
            books::lemma_prefix_adds_up::<P>(entries, n as int);
            law_balances_are_what_was_posted::<P>(entries.take(n as int), key);
        } else {
            law_balances_are_what_was_posted::<P>(entries, key);
        }
    } else {
        law_balances_are_what_was_posted::<P>(entries, key);
    }
}

/// The references to the postings on a key are those of its statement, line by
/// line.
pub proof fn law_references_follow_the_statement<const P: u8>(
    entries: Seq<entry::EntryFacts>,
    key: BalanceKey,
    n: int,
)
    requires
        0 <= n < books::statement_of::<P>(entries, key).len(),
    ensures
        books::references_on(entries, key).len() == books::statement_of::<P>(entries, key).len(),
        books::references_on(entries, key)[n] == books::statement_of::<P>(entries, key)[n].posting,
{
}

} // verus!
