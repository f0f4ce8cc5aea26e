//! Which entries are recorded, and what recording reports.

use crate::account::{self, BalanceLimit};
use crate::balance::{self, Balance, BalanceKey};
use crate::books::{self, Outcome, Refusal};
use crate::date::Date;
use crate::entry::{self, EntryId};
use crate::clearing::PostingRef;
use crate::journal::{self, JournalError, LogIndex, Recorded};
use crate::laws::reading;
use crate::money::MoneyError;
use crate::period;
use crate::posting::{self, Direction};
use vstd::prelude::*;

verus! {

/// The key a movement is on.
pub open spec fn own_key(m: posting::Movement) -> BalanceKey {
    BalanceKey { account: m.account, currency: m.currency, layer: m.layer }
}

/// True when no two entries have one identifier.
pub open spec fn ids_differ(entries: Seq<entry::EntryFacts>) -> bool {
    forall|i: int, j: int|
        0 <= i < j < entries.len() ==> (#[trigger] entries[i]).id != (#[trigger] entries[j]).id
}

/// True when no entry has an idempotency key.
pub open spec fn key_is_new(entries: Seq<entry::EntryFacts>, key: Seq<u8>) -> bool {
    forall|i: int| 0 <= i < entries.len() ==> (#[trigger] entries[i]).key != key
}

/// True when no entry has an identifier.
pub open spec fn id_is_new(entries: Seq<entry::EntryFacts>, id: EntryId) -> bool {
    forall|i: int| 0 <= i < entries.len() ==> (#[trigger] entries[i]).id != id
}

/// True when some postings are others with every side changed: the same accounts,
/// amounts, currencies, layers and dimensions, in the same order.
pub open spec fn mirrors(a: Seq<posting::Movement>, b: Seq<posting::Movement>) -> bool {
    &&& a.len() == b.len()
    &&& forall|k: int|
        0 <= k < a.len() ==> {
            let (x, y) = (#[trigger] a[k], b[k]);
            &&& x.account == y.account
            &&& x.direction != y.direction
            &&& x.minor == y.minor
            &&& x.currency == y.currency
            &&& x.layer == y.layer
            &&& x.dimensions == y.dimensions
        }
}

/// True when entry `i` may be reversed by these postings.
pub open spec fn may_reverse(
    entries: Seq<entry::EntryFacts>,
    i: int,
    original: EntryId,
    postings: Seq<posting::Movement>,
) -> bool {
    &&& 0 <= i < entries.len()
    &&& entries[i].id == original
    &&& entries[i].reverses is None
    &&& mirrors(postings, entries[i].postings)
}

/// True when an entry corrects another by the rules, or corrects none: what it
/// reverses is on file, is no reversal itself, is not reversed yet, and is mirrored.
pub open spec fn corrects_by_the_rules(
    entries: Seq<entry::EntryFacts>,
    e: entry::EntryFacts,
) -> bool {
    e.reverses matches Some(original) ==> {
        &&& exists|i: int| #[trigger] may_reverse(entries, i, original, e.postings)
        &&& forall|j: int|
            0 <= j < entries.len() ==> (#[trigger] entries[j]).reverses != Some(original)
    }
}

/// True when the first `n` postings of an entry can be added, one after the other,
/// to what was booked before it.
pub open spec fn totals_fit(
    entries: Seq<entry::EntryFacts>,
    postings: Seq<posting::Movement>,
    n: int,
) -> bool {
    forall|k: int|
        0 <= k < n ==> {
            let m = #[trigger] postings[k];
            i64::MIN <= reading::booked_on(entries, own_key(m), m.direction) + reading::moved_on(
                postings.take(k + 1),
                own_key(m),
                m.direction,
            ) <= i64::MAX
        }
}

/// True when debits and credits may stand on an account: on either side where it
/// has no limit, and otherwise on the side it allows, with a net that is an amount.
pub open spec fn stands_within(
    accounts: Seq<account::AccountFacts>,
    account: account::AccountId,
    debits: int,
    credits: int,
) -> bool {
    account.position < accounts.len() ==> match accounts[account.position as int].limit {
        BalanceLimit::Unlimited => true,
        BalanceLimit::NoCreditBalance => credits <= debits <= credits + i64::MAX,
        BalanceLimit::NoDebitBalance => debits <= credits <= debits - i64::MIN,
    }
}

/// True when an entry has not been reversed.
pub open spec fn never_reversed(entries: Seq<entry::EntryFacts>, id: EntryId) -> bool {
    forall|j: int| 0 <= j < entries.len() ==> (#[trigger] entries[j]).reverses != Some(id)
}

/// True when every balance an entry moves is within its account's limit after it.
pub open spec fn limits_hold(
    accounts: Seq<account::AccountFacts>,
    entries: Seq<entry::EntryFacts>,
    e: entry::EntryFacts,
) -> bool {
    limits_hold_below(accounts, entries, e, e.postings.len() as int)
}

/// True when every balance that the first `n` postings of an entry move is within
/// its account's limit after the entry.
pub open spec fn limits_hold_below(
    accounts: Seq<account::AccountFacts>,
    entries: Seq<entry::EntryFacts>,
    e: entry::EntryFacts,
    n: int,
) -> bool {
    forall|k: int|
        0 <= k < n ==> {
            let key = own_key(#[trigger] e.postings[k]);
            stands_within(
                accounts,
                key.account,
                reading::booked_on(entries, key, Direction::Debit) + reading::moved_on(
                    e.postings,
                    key,
                    Direction::Debit,
                ),
                reading::booked_on(entries, key, Direction::Credit) + reading::moved_on(
                    e.postings,
                    key,
                    Direction::Credit,
                ),
            )
        }
}

// ── proofs ──────────────────────────────────────────────────────────────────

proof fn lemma_mirrors(a: Seq<posting::Movement>, b: Seq<posting::Movement>)
    ensures
        mirrors(a, b) <==> a == entry::inverted(b),
{
    if mirrors(a, b) {
        assert forall|k: int| 0 <= k < a.len() implies #[trigger] a[k] == entry::inverted(b)[k] by {
            assert(a[k].direction != b[k].direction);
        }
        assert(a =~= entry::inverted(b));
    }
    if a == entry::inverted(b) {
        assert forall|k: int| 0 <= k < a.len() implies ({
            let (x, y) = (#[trigger] a[k], b[k]);
            &&& x.account == y.account
            &&& x.direction != y.direction
            &&& x.minor == y.minor
            &&& x.currency == y.currency
            &&& x.layer == y.layer
            &&& x.dimensions == y.dimensions
        }) by {
            assert(a[k] == posting::flipped(b[k]));
        }
    }
}

proof fn lemma_corrects(entries: Seq<entry::EntryFacts>, e: entry::EntryFacts)
    requires
        ids_differ(entries),
    ensures
        books::reversal_fault(entries, e) is None <==> corrects_by_the_rules(entries, e),
{
    if e.reverses is Some {
        let original = e.reverses->0;
        books::lemma_find_id(entries, original);
        books::lemma_find_reversal(entries, original);
        if books::find_id(entries, original) is Some {
            let i = books::find_id(entries, original)->0;
            lemma_mirrors(e.postings, entries[i].postings);
            if books::reversal_fault(entries, e) is None {
                assert(may_reverse(entries, i, original, e.postings));
            }
            if corrects_by_the_rules(entries, e) {
                let n = choose|n: int| #[trigger] may_reverse(entries, n, original, e.postings);
                assert(entries[n].id == entries[i].id);
                assert(n == i);
            }
        } else if corrects_by_the_rules(entries, e) {
            let n = choose|n: int| #[trigger] may_reverse(entries, n, original, e.postings);
            assert(entries[n].id == original);
        }
    }
}

proof fn lemma_totals<const P: u8>(
    entries: Seq<entry::EntryFacts>,
    postings: Seq<posting::Movement>,
    n: int,
)
    requires
        books::folded::<P>(entries) is Ok,
        0 <= n <= postings.len(),
    ensures
        books::fold_postings(books::folded::<P>(entries)->Ok_0, postings.take(n)) is Ok
            <==> totals_fit(entries, postings, n),
        books::fold_postings(
            books::folded::<P>(entries)->Ok_0,
            postings.take(n),
        ) matches Err(error) ==> error == MoneyError::Overflow,
    decreases n,
{
    let balances = books::folded::<P>(entries)->Ok_0;
    if n > 0 {
        lemma_totals::<P>(entries, postings, n - 1);
        let some = postings.take(n);
        let m = postings[n - 1];
        let key = own_key(m);
        assert(some.drop_last() =~= postings.take(n - 1));
        assert(some.last() == m);
        assert(totals_fit(entries, postings, n) ==> totals_fit(entries, postings, n - 1));
        assert(balance::key_of_movement(m) == key);
        if totals_fit(entries, postings, n - 1) {
            reading::law_balances_are_what_was_posted::<P>(entries, key);
            reading::law_postings_move_their_keys(balances, postings.take(n - 1), key);
            assert(reading::moves_on(m, key));
            assert(reading::moved_on(some, key, m.direction) == reading::moved_on(
                postings.take(n - 1),
                key,
                m.direction,
            ) + m.minor);
            assert(totals_fit(entries, postings, n) <==> i64::MIN <= reading::booked_on(
                entries,
                own_key(m),
                m.direction,
            ) + reading::moved_on(some, own_key(m), m.direction) <= i64::MAX) by {
                assert(postings[n - 1] == m);
                assert(postings.take(n - 1 + 1) == some);
            }
        }
    }
}

proof fn lemma_push_folds<const P: u8>(entries: Seq<entry::EntryFacts>, e: entry::EntryFacts)
    requires
        books::folded::<P>(entries) is Ok,
    ensures
        books::folded::<P>(entries.push(e)) is Ok <==> totals_fit(
            entries,
            e.postings,
            e.postings.len() as int,
        ),
        books::folded::<P>(entries.push(e)) matches Err(error) ==> error == MoneyError::Overflow,
        books::folded::<P>(entries.push(e)) matches Ok(after) ==> forall|key: BalanceKey|
            {
                let b = #[trigger] balance::balance_at(after, key);
                &&& b.debits.minor == reading::booked_on(entries, key, Direction::Debit) + reading::moved_on(
                    e.postings,
                    key,
                    Direction::Debit,
                )
                &&& b.credits.minor == reading::booked_on(entries, key, Direction::Credit) + reading::moved_on(
                    e.postings,
                    key,
                    Direction::Credit,
                )
            },
{
    let longer = entries.push(e);
    assert(longer.drop_last() =~= entries);
    assert(e.postings.take(e.postings.len() as int) =~= e.postings);
    lemma_totals::<P>(entries, e.postings, e.postings.len() as int);
    if books::folded::<P>(longer) is Ok {
        let after = books::folded::<P>(longer)->Ok_0;
        assert forall|key: BalanceKey| ({
            let b = #[trigger] balance::balance_at(after, key);
            &&& b.debits.minor == reading::booked_on(entries, key, Direction::Debit) + reading::moved_on(
                e.postings,
                key,
                Direction::Debit,
            )
            &&& b.credits.minor == reading::booked_on(entries, key, Direction::Credit) + reading::moved_on(
                e.postings,
                key,
                Direction::Credit,
            )
        }) by {
            reading::law_balances_are_what_was_posted::<P>(entries, key);
            reading::law_postings_move_their_keys(
                books::folded::<P>(entries)->Ok_0,
                e.postings,
                key,
            );
        }
    }
}

proof fn lemma_limit<const P: u8>(
    accounts: Seq<account::AccountFacts>,
    balances: Map<BalanceKey, Balance<P>>,
    key: BalanceKey,
)
    ensures
        books::key_within_limit(accounts, balances, key) <==> stands_within(
            accounts,
            key.account,
            balance::balance_at(balances, key).debits.minor as int,
            balance::balance_at(balances, key).credits.minor as int,
        ),
{
}

proof fn lemma_limits<const P: u8>(
    accounts: Seq<account::AccountFacts>,
    balances: Map<BalanceKey, Balance<P>>,
    postings: Seq<posting::Movement>,
    i: int,
) -> (at: int)
    requires
        0 <= i <= postings.len(),
    ensures
        books::limit_fault(accounts, balances, postings, i) is None <==> (forall|k: int|
            i <= k < postings.len() ==> books::key_within_limit(
                accounts,
                balances,
                own_key(#[trigger] postings[k]),
            )),
        books::limit_fault(accounts, balances, postings, i) matches Some(refusal) ==> {
            let key = own_key(postings[at]);
            &&& i <= at < postings.len()
            &&& !books::key_within_limit(accounts, balances, key)
            &&& forall|k: int|
                i <= k < at ==> books::key_within_limit(
                    accounts,
                    balances,
                    own_key(#[trigger] postings[k]),
                )
            &&& refusal == (Refusal::LimitBreached {
                key,
                limit: books::limit_at(accounts, key.account),
                net: books::net_or_zero(balance::balance_at(balances, key)),
            })
        },
    decreases postings.len() - i,
{
    if i < postings.len() {
        let rest = lemma_limits(accounts, balances, postings, i + 1);
        assert(balance::key_of_movement(postings[i]) == own_key(postings[i]));
        if books::limit_fault(accounts, balances, postings, i) is None {
            assert forall|k: int| i <= k < postings.len() implies books::key_within_limit(
                accounts,
                balances,
                own_key(#[trigger] postings[k]),
            ) by {}
        }
        if books::key_within_limit(accounts, balances, own_key(postings[i])) {
            rest
        } else {
            assert(!books::key_within_limit(accounts, balances, own_key(postings[i])));
            i
        }
    } else {
        i
    }
}

proof fn lemma_limits_below<const P: u8>(
    accounts: Seq<account::AccountFacts>,
    entries: Seq<entry::EntryFacts>,
    e: entry::EntryFacts,
    n: int,
)
    requires
        books::folded::<P>(entries) is Ok,
        books::folded::<P>(entries.push(e)) is Ok,
        0 <= n <= e.postings.len(),
    ensures
        limits_hold_below(accounts, entries, e, n) <==> (forall|k: int|
            0 <= k < n ==> books::key_within_limit(
                accounts,
                books::folded::<P>(entries.push(e))->Ok_0,
                own_key(#[trigger] e.postings[k]),
            )),
{
    lemma_push_folds::<P>(entries, e);
    let after = books::folded::<P>(entries.push(e))->Ok_0;
    assert forall|k: int| 0 <= k < n implies books::key_within_limit(
        accounts,
        after,
        own_key(#[trigger] e.postings[k]),
    ) == ({
        let key = own_key(e.postings[k]);
        stands_within(
            accounts,
            key.account,
            reading::booked_on(entries, key, Direction::Debit) + reading::moved_on(
                e.postings,
                key,
                Direction::Debit,
            ),
            reading::booked_on(entries, key, Direction::Credit) + reading::moved_on(
                e.postings,
                key,
                Direction::Credit,
            ),
        )
    }) by {
        let key = own_key(e.postings[k]);
        lemma_limit(accounts, after, key);
        let b = balance::balance_at(after, key);
    }
}

// ── laws ────────────────────────────────────────────────────────────────────

/// True when nothing speaks against recording an entry after others: its key and
/// its identifier are new, it corrects by the rules, its totals fit and its limits
/// hold.
pub open spec fn is_in_order(
    accounts: Seq<account::AccountFacts>,
    entries: Seq<entry::EntryFacts>,
    e: entry::EntryFacts,
) -> bool {
    &&& key_is_new(entries, e.key)
    &&& id_is_new(entries, e.id)
    &&& corrects_by_the_rules(entries, e)
    &&& totals_fit(entries, e.postings, e.postings.len() as int)
    &&& limits_hold(accounts, entries, e)
}

/// An entry is answered as new exactly when it is in order.
pub proof fn lemma_new_when_in_order<const P: u8>(
    accounts: Seq<account::AccountFacts>,
    entries: Seq<entry::EntryFacts>,
    e: entry::EntryFacts,
)
    requires
        books::folded::<P>(entries) is Ok,
        books::distinct_entries(entries),
        entries.len() <= u64::MAX,
    ensures
        ({
            let outcome = books::outcome_of::<P>(accounts, entries, e);
            &&& outcome is Appended <==> is_in_order(accounts, entries, e)
            &&& outcome is Replayed ==> !outcome->recorded.is_new
            &&& books::appended(P, entries, e).is_new
        }),
{
    assert forall|i: int, j: int| 0 <= i < j < entries.len() implies (#[trigger] entries[i]).id != (
    #[trigger] entries[j]).id by {
        books::lemma_entries_are_distinct(entries, i, j);
    }
    law_entries_are_recorded_exactly_when_in_order::<P>(accounts, entries, e);
    if books::outcome_of::<P>(accounts, entries, e) is Replayed {
        law_replays_name_the_entry_they_repeat::<P>(accounts, entries, e);
    }
}

/// An entry is recorded exactly when its idempotency key and its identifier are
/// new, what it reverses may be reversed and is mirrored by it, every total it adds
/// to stays an amount, and every balance it moves is within its account's limit
/// afterwards.
pub proof fn law_entries_are_recorded_exactly_when_in_order<const P: u8>(
    accounts: Seq<account::AccountFacts>,
    entries: Seq<entry::EntryFacts>,
    e: entry::EntryFacts,
)
    requires
        books::folded::<P>(entries) is Ok,
        ids_differ(entries),
    ensures
        books::outcome_of::<P>(accounts, entries, e) is Appended <==> {
            &&& key_is_new(entries, e.key)
            &&& id_is_new(entries, e.id)
            &&& corrects_by_the_rules(entries, e)
            &&& totals_fit(entries, e.postings, e.postings.len() as int)
            &&& limits_hold(accounts, entries, e)
        },
{
    books::lemma_find_key(entries, e.key);
    books::lemma_find_id(entries, e.id);
    lemma_corrects(entries, e);
    lemma_push_folds::<P>(entries, e);
    if books::folded::<P>(entries.push(e)) is Ok {
        let after = books::folded::<P>(entries.push(e))->Ok_0;
        lemma_limits(accounts, after, e.postings, 0);
        lemma_limits_below::<P>(accounts, entries, e, e.postings.len() as int);
    }
}

/// An entry is refused for a reason that holds, and for the first one in order: its
/// key, its identifier, what it corrects, its totals, its limits.
pub proof fn law_refused_entries_name_what_is_wrong<const P: u8>(
    accounts: Seq<account::AccountFacts>,
    entries: Seq<entry::EntryFacts>,
    e: entry::EntryFacts,
)
    requires
        books::folded::<P>(entries) is Ok,
        ids_differ(entries),
        books::outcome_of::<P>(accounts, entries, e) is Refused,
    ensures
        ({
            let refusal = books::outcome_of::<P>(accounts, entries, e)->refusal;
            &&& refusal is IdempotencyConflict <==> !key_is_new(entries, e.key)
            &&& refusal is DuplicateId <==> key_is_new(entries, e.key) && !id_is_new(
                entries,
                e.id,
            )
            &&& match refusal {
                Refusal::IdempotencyConflict { existing, stored, submitted } => exists|i: int|
                    0 <= i < entries.len() && (#[trigger] entries[i]).key == e.key
                        && entries[i].id == existing && stored == entry::entry_hash(P, entries[i])
                        && submitted == entry::entry_hash(P, e) && stored != submitted,
                Refusal::DuplicateId { duplicate } => duplicate == e.id,
                Refusal::UnknownOriginal { missing } => e.reverses == Some(missing) && id_is_new(
                    entries,
                    missing,
                ),
                Refusal::AlreadyReversed { reversed, by } => e.reverses == Some(reversed)
                    && !id_is_new(entries, reversed) && exists|j: int|
                    0 <= j < entries.len() && (#[trigger] entries[j]).reverses == Some(reversed)
                        && entries[j].id == by,
                Refusal::ReversalOfReversal { reversal } => e.reverses == Some(reversal)
                    && never_reversed(entries, reversal) && exists|i: int|
                    0 <= i < entries.len() && (#[trigger] entries[i]).id == reversal
                        && entries[i].reverses is Some,
                Refusal::NotAnInversion { original } => e.reverses == Some(original)
                    && never_reversed(entries, original) && exists|i: int|
                    0 <= i < entries.len() && (#[trigger] entries[i]).id == original
                        && entries[i].reverses is None && !mirrors(
                        e.postings,
                        entries[i].postings,
                    ),
                Refusal::Money { error } => error == MoneyError::Overflow && corrects_by_the_rules(
                    entries,
                    e,
                ) && !totals_fit(entries, e.postings, e.postings.len() as int),
                Refusal::LimitBreached { key, limit, net } => {
                    let debits = reading::booked_on(entries, key, Direction::Debit) + reading::moved_on(
                        e.postings,
                        key,
                        Direction::Debit,
                    );
                    let credits = reading::booked_on(entries, key, Direction::Credit) + reading::moved_on(
                        e.postings,
                        key,
                        Direction::Credit,
                    );
                    &&& corrects_by_the_rules(entries, e)
                    &&& totals_fit(entries, e.postings, e.postings.len() as int)
                    &&& exists|k: int|
                        0 <= k < e.postings.len() && own_key(#[trigger] e.postings[k]) == key
                            && limits_hold_below(accounts, entries, e, k)
                    &&& key.account.position < accounts.len()
                    &&& limit == accounts[key.account.position as int].limit
                    &&& !stands_within(accounts, key.account, debits, credits)
                    &&& net == (if i64::MIN <= debits - credits <= i64::MAX {
                        debits - credits
                    } else {
                        0
                    })
                },
                Refusal::Invalid { .. } => false,
            }
        }),
{
    books::lemma_find_key(entries, e.key);
    books::lemma_find_id(entries, e.id);
    if key_is_new(entries, e.key) && id_is_new(entries, e.id) {
        lemma_corrects(entries, e);
        if e.reverses is Some {
            books::lemma_find_id(entries, e.reverses->0);
            books::lemma_find_reversal(entries, e.reverses->0);
            if books::find_id(entries, e.reverses->0) is Some {
                let i = books::find_id(entries, e.reverses->0)->0;
                lemma_mirrors(e.postings, entries[i].postings);
            }
        }
        if books::reversal_fault(entries, e) is None {
            lemma_push_folds::<P>(entries, e);
            if books::folded::<P>(entries.push(e)) is Ok {
                let after = books::folded::<P>(entries.push(e))->Ok_0;
                let at = lemma_limits(accounts, after, e.postings, 0);
                let key = own_key(e.postings[at]);
                lemma_limit(accounts, after, key);
                lemma_limits_below::<P>(accounts, entries, e, at);
                let b = balance::balance_at(after, key);
            }
        }
    }
}

/// A draft is recorded exactly when validation holds nothing against it and it
/// would be recorded once validated. What validation holds against it is what it is
/// refused with, unless its key was seen before.
pub proof fn law_drafts_are_validated_first<const P: u8>(
    accounts: Seq<account::AccountFacts>,
    periods: Map<Seq<char>, period::PeriodFacts>,
    policy: entry::PolicyFacts,
    entries: Seq<entry::EntryFacts>,
    e: entry::EntryFacts,
)
    ensures
        ({
            let outcome = books::draft_outcome::<P>(accounts, periods, policy, entries, e);
            let violations = entry::faults::<P>(e, accounts, periods, policy);
            &&& outcome is Appended <==> violations.len() == 0 && books::outcome_of::<P>(
                accounts,
                entries,
                e,
            ) is Appended
            &&& !key_is_new(entries, e.key) || violations.len() == 0 ==> outcome
                == books::outcome_of::<P>(accounts, entries, e)
            &&& key_is_new(entries, e.key) && violations.len() > 0 ==> outcome == (
            Outcome::Refused { refusal: Refusal::Invalid { violations } })
        }),
{
    books::lemma_find_key(entries, e.key);
}

/// A submission is a replay only of an entry with its key and its content, and the
/// answer says where that entry is.
pub proof fn law_replays_name_the_entry_they_repeat<const P: u8>(
    accounts: Seq<account::AccountFacts>,
    entries: Seq<entry::EntryFacts>,
    e: entry::EntryFacts,
)
    requires
        entries.len() <= u64::MAX,
        books::outcome_of::<P>(accounts, entries, e) is Replayed,
    ensures
        ({
            let recorded = books::outcome_of::<P>(accounts, entries, e)->recorded;
            &&& !recorded.is_new
            &&& recorded.content_hash == entry::entry_hash(P, e)
            &&& recorded.index matches Some(index) && {
                &&& index.position < entries.len()
                &&& entries[index.position as int].id == recorded.id
                &&& entries[index.position as int].key == e.key
                &&& entry::entry_hash(P, entries[index.position as int]) == entry::entry_hash(P, e)
            }
        }),
{
    books::lemma_find_key(entries, e.key);
}

/// What is appended stands at the end of the log, and is reported as new there.
pub proof fn law_appended_entries_stand_last<const P: u8>(
    entries: Seq<entry::EntryFacts>,
    e: entry::EntryFacts,
)
    requires
        entries.len() < u64::MAX,
    ensures
        ({
            let recorded = books::appended(P, entries, e);
            &&& recorded.is_new
            &&& recorded.id == e.id
            &&& recorded.content_hash == entry::entry_hash(P, e)
            &&& recorded.index matches Some(index) && entries.push(e)[index.position as int] == e
                && index.position == entries.len()
        }),
{
}

/// A batch is its entries recorded one after the other, each against what the ones
/// before it left, and it is refused as soon as one of them is, for its reason.
pub proof fn law_batches_record_in_turn<const P: u8>(
    accounts: Seq<account::AccountFacts>,
    entries: Seq<entry::EntryFacts>,
    batch: Seq<entry::EntryFacts>,
    n: int,
)
    requires
        0 <= n < batch.len(),
        entries.len() + batch.len() < u64::MAX,
    ensures
        books::batch_outcome::<P>(accounts, entries, batch, 0) == Ok::<
            (Seq<entry::EntryFacts>, Seq<Recorded>),
            Refusal,
        >((entries, Seq::empty())),
        match books::batch_outcome::<P>(accounts, entries, batch, n) {
            Err(refusal) => books::batch_outcome::<P>(accounts, entries, batch, n + 1) == Err::<
                (Seq<entry::EntryFacts>, Seq<Recorded>),
                Refusal,
            >(refusal),
            Ok((before, reports)) => match books::outcome_of::<P>(accounts, before, batch[n]) {
                Outcome::Refused { refusal } => books::batch_outcome::<P>(
                    accounts,
                    entries,
                    batch,
                    n + 1,
                ) == Err::<(Seq<entry::EntryFacts>, Seq<Recorded>), Refusal>(refusal),
                Outcome::Replayed { recorded } => books::batch_outcome::<P>(
                    accounts,
                    entries,
                    batch,
                    n + 1,
                ) == Ok::<(Seq<entry::EntryFacts>, Seq<Recorded>), Refusal>(
                    (before, reports.push(recorded)),
                ),
                Outcome::Appended => {
                    &&& books::batch_outcome::<P>(accounts, entries, batch, n + 1) matches Ok((
                        after,
                        longer,
                    )) && {
                        &&& after == before.push(batch[n])
                        &&& longer.len() == reports.len() + 1
                        &&& longer.drop_last() == reports
                        &&& longer.last().is_new
                        &&& longer.last().id == batch[n].id
                        &&& longer.last().index == Some(LogIndex { position: before.len() as u64 })
                        &&& longer.last().content_hash == entry::entry_hash(P, batch[n])
                    }
                },
            },
        },
{
    if books::batch_outcome::<P>(accounts, entries, batch, n) is Ok {
        let (before, reports) = books::batch_outcome::<P>(accounts, entries, batch, n)->Ok_0;
        let report = books::appended(P, before, batch[n]);
        assert(reports.push(report).drop_last() =~= reports);
    }
}

/// A batch appends to the log and takes nothing out of it, and reports on each of
/// its entries in turn.
pub proof fn law_batches_only_append<const P: u8>(
    accounts: Seq<account::AccountFacts>,
    entries: Seq<entry::EntryFacts>,
    batch: Seq<entry::EntryFacts>,
    n: int,
)
    requires
        0 <= n <= batch.len(),
        books::batch_outcome::<P>(accounts, entries, batch, n) is Ok,
        entries.len() + batch.len() < u64::MAX,
    ensures
        ({
            let (after, reports) = books::batch_outcome::<P>(accounts, entries, batch, n)->Ok_0;
            &&& entries.len() <= after.len() <= entries.len() + n
            &&& after.take(entries.len() as int) == entries
            &&& reports.len() == n
            &&& forall|k: int|
                0 <= k < n ==> {
                    let r = #[trigger] reports[k];
                    &&& r.index matches Some(index) && {
                        let found = after[index.position as int];
                        &&& index.position < after.len()
                        &&& found.id == r.id
                        &&& found.key == batch[k].key
                        &&& entry::entry_hash(P, found) == entry::entry_hash(P, batch[k])
                        &&& r.is_new ==> found == batch[k] && index.position >= entries.len()
                    }
                    &&& r.content_hash == entry::entry_hash(P, batch[k])
                }
        }),
    decreases n,
{
    if n > 0 {
        law_batches_only_append::<P>(accounts, entries, batch, n - 1);
        let (before, some) = books::batch_outcome::<P>(accounts, entries, batch, n - 1)->Ok_0;
        let (after, reports) = books::batch_outcome::<P>(accounts, entries, batch, n)->Ok_0;
        assert(after.take(entries.len() as int) =~= entries) by {
            assert(before.take(entries.len() as int) =~= entries);
            assert(after.take(entries.len() as int) =~= before.take(entries.len() as int));
        }
        if books::outcome_of::<P>(accounts, before, batch[n - 1]) is Replayed {
            law_replays_name_the_entry_they_repeat::<P>(accounts, before, batch[n - 1]);
        }
        assert forall|k: int| 0 <= k < n implies ({
            let r = #[trigger] reports[k];
            &&& r.index matches Some(index) && {
                let found = after[index.position as int];
                &&& index.position < after.len()
                &&& found.id == r.id
                &&& found.key == batch[k].key
                &&& entry::entry_hash(P, found) == entry::entry_hash(P, batch[k])
                &&& r.is_new ==> found == batch[k] && index.position >= entries.len()
            }
            &&& r.content_hash == entry::entry_hash(P, batch[k])
        }) by {
            if k < n - 1 {
                assert(reports[k] == some[k]);
                let at = (some[k].index->0).position as int;
                assert(after[at] == before[at]);
            }
        }
    } else {
        assert(entries.take(entries.len() as int) =~= entries);
    }
}

/// A reference names a posting exactly when an entry has its identifier and enough
/// postings, and it names the one at its position.
pub proof fn law_references_name_one_posting(
    entries: Seq<entry::EntryFacts>,
    reference: PostingRef,
    i: int,
)
    requires
        ids_differ(entries),
    ensures
        0 <= i < entries.len() && entries[i].id == reference.entry ==> books::posting_at(
            entries,
            reference,
        ) == (if (reference.index as int) < entries[i].postings.len() {
            Some(entries[i].postings[reference.index as int])
        } else {
            None
        }),
        id_is_new(entries, reference.entry) ==> books::posting_at(entries, reference) is None,
        books::find_id(entries, reference.entry) is Some <==> !id_is_new(entries, reference.entry),
        books::find_id(entries, reference.entry) matches Some(at) ==> 0 <= at < entries.len()
            && entries[at].id == reference.entry,
{
    books::lemma_find_id(entries, reference.entry);
    if 0 <= i < entries.len() && entries[i].id == reference.entry {
        assert(!id_is_new(entries, reference.entry));
        let at = books::find_id(entries, reference.entry)->0;
        assert(entries[at].id == entries[i].id);
        assert(at == i);
    }
}

/// The error that a journal answers with says what the refusal says.
pub proof fn law_errors_say_what_the_refusal_says<const P: u8>(e: JournalError, refusal: Refusal)
    requires
        journal::reports::<P>(e, refusal),
    ensures
        match e {
            JournalError::Invalid(errors) => refusal == (Refusal::Invalid { violations: errors@ }),
            JournalError::IdempotencyConflict { existing, stored, submitted } => refusal == (
            Refusal::IdempotencyConflict { existing, stored, submitted }),
            JournalError::DuplicateId { id } => refusal == (Refusal::DuplicateId { duplicate: id }),
            JournalError::UnknownOriginal { id } => refusal == (Refusal::UnknownOriginal {
                missing: id,
            }),
            JournalError::AlreadyReversed { id, by } => refusal == (Refusal::AlreadyReversed {
                reversed: id,
                by,
            }),
            JournalError::ReversalOfReversal { id } => refusal == (Refusal::ReversalOfReversal {
                reversal: id,
            }),
            JournalError::NotAnInversion { id } => refusal == (Refusal::NotAnInversion {
                original: id,
            }),
            JournalError::LimitBreached { account, currency, layer, limit, net_minor, scale } => {
                &&& refusal == (Refusal::LimitBreached {
                    key: BalanceKey { account, currency, layer },
                    limit,
                    net: net_minor as int,
                })
                &&& scale == P
            },
            JournalError::Money(error) => refusal == (Refusal::Money { error }),
            _ => false,
        },
{
}

/// A reversal is a draft of the same description with every posting mirrored, that
/// names what it reverses and when that was booked, is booked and valued on the day
/// given, and carries nothing else over.
pub proof fn law_reversals_mirror_their_original(
    original: entry::EntryFacts,
    id: EntryId,
    key: Seq<u8>,
    on: Date,
)
    ensures
        ({
            let r = entry::reversal_of(original, id, key, on);
            &&& r.id == id
            &&& r.key == key
            &&& r.booking_date == on
            &&& r.value_date == on
            &&& r.description == original.description
            &&& mirrors(r.postings, original.postings)
            &&& r.reverses == Some(original.id)
            &&& r.original_booking_date == Some(original.booking_date)
            &&& r.kind is None
            &&& r.document is None
            &&& r.provenance.actor is None
            &&& r.provenance.source is None
            &&& r.provenance.correlation is None
        }),
{
    lemma_mirrors(entry::inverted(original.postings), original.postings);
}

} // verus!
