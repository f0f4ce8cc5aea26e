//! What a journal of entries means.
//!
//! The journal keeps indexes, running balances and lists of postings as entries
//! arrive. None of that is information of its own: it is determined by the
//! entries, in log order. This module says how.

use crate::account::{self, BalanceLimit};
use crate::balance::{self, Balance, BalanceKey};
use crate::clearing::{self, ClearingError, OpenItem, PostingPosition, PostingRef};
use crate::entry::{self, EntryId};
use crate::hash::Digest;
use crate::journal::{LogIndex, Recorded};
use crate::money::{Currency, MoneyError};
use crate::period;
use crate::ordered::{self, Key};
use crate::posting::{self, Direction, Layer};
use crate::seal;
use crate::storage;
use vstd::prelude::*;

verus! {

// ── finding entries ─────────────────────────────────────────────────────────

/// Where the entry with an identifier stands in the log.
pub open spec fn find_id(entries: Seq<entry::EntryFacts>, id: EntryId) -> Option<int>
    decreases entries.len(),
{
    if entries.len() == 0 {
        None
    } else if entries.last().id == id {
        Some(entries.len() - 1)
    } else {
        find_id(entries.drop_last(), id)
    }
}

/// Where the entry with an idempotency key stands in the log.
pub open spec fn find_key(entries: Seq<entry::EntryFacts>, key: Seq<u8>) -> Option<int>
    decreases entries.len(),
{
    if entries.len() == 0 {
        None
    } else if entries.last().key == key {
        Some(entries.len() - 1)
    } else {
        find_key(entries.drop_last(), key)
    }
}

/// Where the reversal of an entry stands in the log.
pub open spec fn find_reversal(entries: Seq<entry::EntryFacts>, original: EntryId) -> Option<int>
    decreases entries.len(),
{
    if entries.len() == 0 {
        None
    } else if entries.last().reverses == Some(original) {
        Some(entries.len() - 1)
    } else {
        find_reversal(entries.drop_last(), original)
    }
}

/// True when no two entries share an identifier, an idempotency key, or the
/// entry they reverse.
pub open spec fn distinct_entries(entries: Seq<entry::EntryFacts>) -> bool
    decreases entries.len(),
{
    entries.len() > 0 ==> {
        let before = entries.drop_last();
        let e = entries.last();
        &&& distinct_entries(before)
        &&& find_id(before, e.id) is None
        &&& find_key(before, e.key) is None
        &&& e.reverses matches Some(original) ==> find_reversal(before, original) is None
    }
}

/// A found entry is where it was found.
pub proof fn lemma_find_id(entries: Seq<entry::EntryFacts>, id: EntryId)
    ensures
        match find_id(entries, id) {
            Some(i) => 0 <= i < entries.len() && entries[i].id == id,
            None => forall|i: int| 0 <= i < entries.len() ==> (#[trigger] entries[i]).id != id,
        },
    decreases entries.len(),
{
    if entries.len() > 0 {
        let before = entries.drop_last();
        lemma_find_id(before, id);
        if find_id(entries, id) is None {
            assert forall|i: int| 0 <= i < entries.len() implies (#[trigger] entries[i]).id
                != id by {
                if i < before.len() {
                    assert(before[i] == entries[i]);
                }
            }
        }
    }
}

/// A found entry is where it was found.
pub proof fn lemma_find_key(entries: Seq<entry::EntryFacts>, key: Seq<u8>)
    ensures
        match find_key(entries, key) {
            Some(i) => 0 <= i < entries.len() && entries[i].key == key,
            None => forall|i: int| 0 <= i < entries.len() ==> (#[trigger] entries[i]).key != key,
        },
    decreases entries.len(),
{
    if entries.len() > 0 {
        let before = entries.drop_last();
        lemma_find_key(before, key);
        if find_key(entries, key) is None {
            assert forall|i: int| 0 <= i < entries.len() implies (#[trigger] entries[i]).key
                != key by {
                if i < before.len() {
                    assert(before[i] == entries[i]);
                }
            }
        }
    }
}

/// A found reversal is where it was found.
pub proof fn lemma_find_reversal(entries: Seq<entry::EntryFacts>, original: EntryId)
    ensures
        match find_reversal(entries, original) {
            Some(i) => 0 <= i < entries.len() && entries[i].reverses == Some(original),
            None => forall|i: int|
                0 <= i < entries.len() ==> (#[trigger] entries[i]).reverses != Some(original),
        },
    decreases entries.len(),
{
    if entries.len() > 0 {
        let before = entries.drop_last();
        lemma_find_reversal(before, original);
        if find_reversal(entries, original) is None {
            assert forall|i: int| 0 <= i < entries.len() implies (#[trigger] entries[i]).reverses
                != Some(original) by {
                if i < before.len() {
                    assert(before[i] == entries[i]);
                }
            }
        }
    }
}

/// No two entries share an identifier or an idempotency key, and no entry is
/// reversed twice.
pub proof fn lemma_entries_are_distinct(entries: Seq<entry::EntryFacts>, i: int, j: int)
    requires
        distinct_entries(entries),
        0 <= i < j < entries.len(),
    ensures
        entries[i].id != entries[j].id,
        entries[i].key != entries[j].key,
        entries[i].reverses is Some ==> entries[i].reverses != entries[j].reverses,
    decreases entries.len(),
{
    let before = entries.drop_last();
    if j < entries.len() - 1 {
        lemma_entries_are_distinct(before, i, j);
    } else {
        lemma_find_id(before, entries.last().id);
        lemma_find_key(before, entries.last().key);
        assert(before[i] == entries[i]);
        if entries.last().reverses is Some {
            lemma_find_reversal(before, entries.last().reverses->0);
        }
    }
}

/// The posting a reference names.
pub open spec fn posting_at(entries: Seq<entry::EntryFacts>, reference: PostingRef) -> Option<
    posting::Movement,
> {
    match find_id(entries, reference.entry) {
        Some(i) => if (reference.index as int) < entries[i].postings.len() {
            Some(entries[i].postings[reference.index as int])
        } else {
            None
        },
        None => None,
    }
}

/// The postings of some entries, by reference.
pub open spec fn postings_of(entries: Seq<entry::EntryFacts>) -> spec_fn(PostingRef) -> Option<
    posting::Movement,
> {
    |reference: PostingRef| posting_at(entries, reference)
}

/// The content hashes of some entries.
pub open spec fn content_hashes(p: u8, entries: Seq<entry::EntryFacts>) -> Seq<Digest> {
    entries.map_values(|e: entry::EntryFacts| entry::entry_hash(p, e))
}

// ── balances ────────────────────────────────────────────────────────────────

/// Balances after some more movements, in order, or the first overflow.
pub open spec fn fold_postings<const P: u8>(
    balances: Map<BalanceKey, Balance<P>>,
    postings: Seq<posting::Movement>,
) -> Result<Map<BalanceKey, Balance<P>>, MoneyError>
    decreases postings.len(),
{
    if postings.len() == 0 {
        Ok(balances)
    } else {
        match fold_postings(balances, postings.drop_last()) {
            Ok(before) => balance::apply_movement(before, postings.last()),
            Err(e) => Err(e),
        }
    }
}

/// What some entries add up to, or the first overflow.
pub open spec fn folded<const P: u8>(entries: Seq<entry::EntryFacts>) -> Result<
    Map<BalanceKey, Balance<P>>,
    MoneyError,
>
    decreases entries.len(),
{
    if entries.len() == 0 {
        Ok(Map::empty())
    } else {
        match folded::<P>(entries.drop_last()) {
            Ok(before) => fold_postings(before, entries.last().postings),
            Err(e) => Err(e),
        }
    }
}

/// The entries booked on or before a day, in log order.
pub open spec fn through(entries: Seq<entry::EntryFacts>, day: int) -> Seq<entry::EntryFacts>
    decreases entries.len(),
{
    if entries.len() == 0 {
        Seq::empty()
    } else if entries.last().booking_date@ <= day {
        through(entries.drop_last(), day).push(entries.last())
    } else {
        through(entries.drop_last(), day)
    }
}

/// One balance after some more movements, in order, or the first overflow.
pub open spec fn fold_movements<const P: u8>(
    balance: Balance<P>,
    movements: Seq<posting::Movement>,
) -> Result<Balance<P>, MoneyError>
    decreases movements.len(),
{
    if movements.len() == 0 {
        Ok(balance)
    } else {
        match fold_movements(balance, movements.drop_last()) {
            Ok(before) => balance::moved(
                before,
                movements.last().direction,
                movements.last().minor,
            ),
            Err(e) => Err(e),
        }
    }
}

/// An overflow stops a fold for good.
pub proof fn lemma_fold_postings_error<const P: u8>(
    balances: Map<BalanceKey, Balance<P>>,
    postings: Seq<posting::Movement>,
    k: int,
)
    requires
        0 <= k <= postings.len(),
        fold_postings(balances, postings.take(k)) is Err,
    ensures
        fold_postings(balances, postings) == fold_postings(balances, postings.take(k)),
    decreases postings.len(),
{
    if k == postings.len() {
        assert(postings.take(k) =~= postings);
    } else {
        assert(postings.drop_last().take(k) =~= postings.take(k));
        lemma_fold_postings_error(balances, postings.drop_last(), k);
    }
}

/// An overflow stops a fold for good.
pub proof fn lemma_folded_error<const P: u8>(entries: Seq<entry::EntryFacts>, k: int)
    requires
        0 <= k <= entries.len(),
        folded::<P>(entries.take(k)) is Err,
    ensures
        folded::<P>(entries) == folded::<P>(entries.take(k)),
    decreases entries.len(),
{
    if k == entries.len() {
        assert(entries.take(k) =~= entries);
    } else {
        assert(entries.drop_last().take(k) =~= entries.take(k));
        lemma_folded_error::<P>(entries.drop_last(), k);
    }
}

/// Where entries add up, so does every prefix of them.
pub proof fn lemma_prefix_adds_up<const P: u8>(entries: Seq<entry::EntryFacts>, k: int)
    requires
        0 <= k <= entries.len(),
        folded::<P>(entries) is Ok,
    ensures
        folded::<P>(entries.take(k)) is Ok,
{
    if folded::<P>(entries.take(k)) is Err {
        lemma_folded_error::<P>(entries, k);
    }
}

/// An overflow stops a fold for good.
pub proof fn lemma_fold_movements_error<const P: u8>(
    balance: Balance<P>,
    movements: Seq<posting::Movement>,
    k: int,
)
    requires
        0 <= k <= movements.len(),
        fold_movements(balance, movements.take(k)) is Err,
    ensures
        fold_movements(balance, movements) == fold_movements(balance, movements.take(k)),
    decreases movements.len(),
{
    if k == movements.len() {
        assert(movements.take(k) =~= movements);
    } else {
        assert(movements.drop_last().take(k) =~= movements.take(k));
        lemma_fold_movements_error(balance, movements.drop_last(), k);
    }
}

// ── postings on one key ─────────────────────────────────────────────────────

/// Where the postings of one entry on a key are.
pub open spec fn entry_sites(
    index: int,
    postings: Seq<posting::Movement>,
    key: BalanceKey,
) -> Seq<PostingPosition>
    decreases postings.len(),
{
    if postings.len() == 0 {
        Seq::empty()
    } else {
        let before = entry_sites(index, postings.drop_last(), key);
        if balance::key_of_movement(postings.last()) == key {
            before.push(
                PostingPosition {
                    index: LogIndex { position: index as u64 },
                    posting: (postings.len() - 1) as u16,
                },
            )
        } else {
            before
        }
    }
}

/// Where the postings on a key are, in log order.
pub open spec fn sites_of(entries: Seq<entry::EntryFacts>, key: BalanceKey) -> Seq<PostingPosition>
    decreases entries.len(),
{
    if entries.len() == 0 {
        Seq::empty()
    } else {
        sites_of(entries.drop_last(), key) + entry_sites(
            entries.len() - 1,
            entries.last().postings,
            key,
        )
    }
}

/// The movements of one entry on a key.
pub open spec fn entry_movements(postings: Seq<posting::Movement>, key: BalanceKey) -> Seq<
    posting::Movement,
>
    decreases postings.len(),
{
    if postings.len() == 0 {
        Seq::empty()
    } else {
        let before = entry_movements(postings.drop_last(), key);
        if balance::key_of_movement(postings.last()) == key {
            before.push(postings.last())
        } else {
            before
        }
    }
}

/// The movements on a key, in log order.
pub open spec fn movements_on(entries: Seq<entry::EntryFacts>, key: BalanceKey) -> Seq<
    posting::Movement,
>
    decreases entries.len(),
{
    if entries.len() == 0 {
        Seq::empty()
    } else {
        movements_on(entries.drop_last(), key) + entry_movements(entries.last().postings, key)
    }
}

/// More postings than a position can tell apart.
pub const ADDRESSABLE: usize = 0x1_0000;

/// True when every posting has a position of its own.
pub open spec fn addressable(entries: Seq<entry::EntryFacts>) -> bool {
    &&& entries.len() <= u64::MAX
    &&& forall|i: int|
        0 <= i < entries.len() ==> (#[trigger] entries[i]).postings.len() <= ADDRESSABLE
}

/// True when a site names this movement of some entries.
pub open spec fn names_movement(
    entries: Seq<entry::EntryFacts>,
    site: PostingPosition,
    m: posting::Movement,
) -> bool {
    &&& site.index.position < entries.len()
    &&& site.posting < entries[site.index.position as int].postings.len()
    &&& entries[site.index.position as int].postings[site.posting as int] == m
}

proof fn lemma_entry_sites(index: int, postings: Seq<posting::Movement>, key: BalanceKey)
    requires
        0 <= index <= u64::MAX,
        postings.len() <= ADDRESSABLE,
    ensures
        entry_sites(index, postings, key).len() == entry_movements(postings, key).len(),
        forall|i: int|
            0 <= i < entry_sites(index, postings, key).len() ==> {
                let site = #[trigger] entry_sites(index, postings, key)[i];
                &&& site.index.position == index
                &&& site.posting < postings.len()
                &&& postings[site.posting as int] == entry_movements(postings, key)[i]
                &&& balance::key_of_movement(postings[site.posting as int]) == key
            },
    decreases postings.len(),
{
    if postings.len() > 0 {
        lemma_entry_sites(index, postings.drop_last(), key);
    }
}

/// Each site names the movement in the same place, and a site of an earlier
/// entry never follows one of a later.
pub proof fn lemma_sites(entries: Seq<entry::EntryFacts>, key: BalanceKey)
    requires
        addressable(entries),
    ensures
        sites_of(entries, key).len() == movements_on(entries, key).len(),
        forall|i: int|
            0 <= i < sites_of(entries, key).len() ==> names_movement(
                entries,
                #[trigger] sites_of(entries, key)[i],
                movements_on(entries, key)[i],
            ),
        forall|i: int|
            0 <= i < movements_on(entries, key).len() ==> balance::key_of_movement(
                #[trigger] movements_on(entries, key)[i],
            ) == key,
    decreases entries.len(),
{
    if entries.len() > 0 {
        let before = entries.drop_last();
        assert forall|i: int| 0 <= i < before.len() implies (#[trigger] before[i]).postings.len()
            <= ADDRESSABLE by {
            assert(before[i] == entries[i]);
        }
        lemma_sites(before, key);
        lemma_entry_sites(entries.len() - 1, entries.last().postings, key);
        let sites = sites_of(entries, key);
        let split = sites_of(before, key).len();
        assert forall|i: int| 0 <= i < sites.len() implies names_movement(
            entries,
            #[trigger] sites[i],
            movements_on(entries, key)[i],
        ) by {
            if i < split {
                assert(sites[i] == sites_of(before, key)[i]);
                assert(names_movement(before, sites_of(before, key)[i], movements_on(before, key)[i]));
                assert(before[sites[i].index.position as int]
                    == entries[sites[i].index.position as int]);
            } else {
                assert(sites[i] == entry_sites(
                    entries.len() - 1,
                    entries.last().postings,
                    key,
                )[i - split]);
            }
        }
        assert forall|i: int| 0 <= i < movements_on(entries, key).len() implies
            balance::key_of_movement(#[trigger] movements_on(entries, key)[i]) == key by {
            if i < split {
                assert(movements_on(entries, key)[i] == movements_on(before, key)[i]);
            } else {
                let last = entry_movements(entries.last().postings, key);
                assert(movements_on(entries, key)[i] == last[i - split]);
                let site = entry_sites(entries.len() - 1, entries.last().postings, key)[i - split];
                assert(entries.last().postings[site.posting as int] == last[i - split]);
            }
        }
    }
}

/// True when one posting comes before another in the log.
pub open spec fn position_before(a: PostingPosition, b: PostingPosition) -> bool {
    a.index.position < b.index.position || (a.index.position == b.index.position && a.posting
        < b.posting)
}

proof fn lemma_entry_sites_ascend(index: int, postings: Seq<posting::Movement>, key: BalanceKey)
    requires
        0 <= index <= u64::MAX,
        postings.len() <= ADDRESSABLE,
    ensures
        forall|i: int, j: int|
            0 <= i < j < entry_sites(index, postings, key).len() ==> position_before(
                #[trigger] entry_sites(index, postings, key)[i],
                #[trigger] entry_sites(index, postings, key)[j],
            ),
    decreases postings.len(),
{
    if postings.len() > 0 {
        let fewer = postings.drop_last();
        lemma_entry_sites_ascend(index, fewer, key);
        lemma_entry_sites(index, fewer, key);
        let (sites, some) = (entry_sites(index, postings, key), entry_sites(index, fewer, key));
        assert forall|i: int, j: int| 0 <= i < j < sites.len() implies position_before(
            #[trigger] sites[i],
            #[trigger] sites[j],
        ) by {
            assert(sites[i] == some[i]);
            if j < some.len() {
                assert(sites[j] == some[j]);
            }
        }
    }
}

/// The postings on a key are listed in log order.
pub proof fn lemma_sites_ascend(entries: Seq<entry::EntryFacts>, key: BalanceKey)
    requires
        addressable(entries),
    ensures
        forall|i: int, j: int|
            0 <= i < j < sites_of(entries, key).len() ==> position_before(
                #[trigger] sites_of(entries, key)[i],
                #[trigger] sites_of(entries, key)[j],
            ),
    decreases entries.len(),
{
    if entries.len() > 0 {
        let before = entries.drop_last();
        assert forall|i: int| 0 <= i < before.len() implies (#[trigger] before[i]).postings.len()
            <= ADDRESSABLE by {
            assert(before[i] == entries[i]);
        }
        let n = entries.len() - 1;
        let last = entries.last().postings;
        lemma_sites_ascend(before, key);
        lemma_sites(before, key);
        lemma_entry_sites(n, last, key);
        lemma_entry_sites_ascend(n, last, key);
        let (sites, some, more) = (
            sites_of(entries, key),
            sites_of(before, key),
            entry_sites(n, last, key),
        );
        assert forall|i: int, j: int| 0 <= i < j < sites.len() implies position_before(
            #[trigger] sites[i],
            #[trigger] sites[j],
        ) by {
            if i < some.len() {
                assert(sites[i] == some[i]);
                assert(names_movement(before, some[i], movements_on(before, key)[i]));
            } else {
                assert(sites[i] == more[i - some.len()]);
            }
            if j < some.len() {
                assert(sites[j] == some[j]);
            } else {
                assert(sites[j] == more[j - some.len()]);
            }
        }
    }
}

/// The sites of a prefix of the log are those with an index below its length.
pub proof fn lemma_sites_of_prefix(entries: Seq<entry::EntryFacts>, key: BalanceKey, n: int)
    requires
        addressable(entries),
        0 <= n <= entries.len(),
    ensures
        sites_of(entries.take(n), key).len() <= sites_of(entries, key).len(),
        sites_of(entries.take(n), key) == sites_of(entries, key).take(
            sites_of(entries.take(n), key).len() as int,
        ),
        movements_on(entries.take(n), key) == movements_on(entries, key).take(
            sites_of(entries.take(n), key).len() as int,
        ),
        forall|i: int|
            0 <= i < sites_of(entries, key).len() ==> ((#[trigger] sites_of(
                entries,
                key,
            )[i]).index.position < n <==> i < sites_of(entries.take(n), key).len()),
    decreases entries.len(),
{
    lemma_sites(entries, key);
    let sites = sites_of(entries, key);
    let prefix = entries.take(n);
    if n == entries.len() {
        assert(prefix =~= entries);
        assert(sites.take(sites.len() as int) =~= sites);
        assert(movements_on(entries, key).take(sites.len() as int) =~= movements_on(entries, key));
        assert forall|i: int| 0 <= i < sites.len() implies ((#[trigger] sites[i]).index.position < n
            <==> i < sites_of(prefix, key).len()) by {
            assert(names_movement(entries, sites[i], movements_on(entries, key)[i]));
        }
    } else {
        let before = entries.drop_last();
        assert forall|i: int| 0 <= i < before.len() implies (#[trigger] before[i]).postings.len()
            <= ADDRESSABLE by {
            assert(before[i] == entries[i]);
        }
        assert(before.take(n) =~= prefix);
        lemma_sites_of_prefix(before, key, n);
        lemma_sites(before, key);
        lemma_entry_sites(entries.len() - 1, entries.last().postings, key);
        let k = sites_of(prefix, key).len() as int;
        let split = sites_of(before, key).len();
        assert(sites.take(k) =~= sites_of(before, key).take(k));
        assert(movements_on(entries, key).take(k) =~= movements_on(before, key).take(k));
        assert forall|i: int| 0 <= i < sites.len() implies ((#[trigger] sites[i]).index.position < n
            <==> i < k) by {
            if i < split {
                assert(sites[i] == sites_of(before, key)[i]);
            } else {
                assert(sites[i] == entry_sites(
                    entries.len() - 1,
                    entries.last().postings,
                    key,
                )[i - split]);
            }
        }
    }
}

proof fn lemma_fold_postings_at<const P: u8>(
    balances: Map<BalanceKey, Balance<P>>,
    postings: Seq<posting::Movement>,
    key: BalanceKey,
)
    requires
        fold_postings(balances, postings) is Ok,
    ensures
        ({
            let after = fold_postings(balances, postings)->Ok_0;
            let on_key = entry_movements(postings, key);
            &&& fold_movements(balance::balance_at(balances, key), on_key) == Ok::<
                Balance<P>,
                MoneyError,
            >(balance::balance_at(after, key))
            &&& after.contains_key(key) <==> balances.contains_key(key) || on_key.len() > 0
            &&& on_key.len() == 0 && balances.contains_key(key) ==> after[key] == balances[key]
        }),
    decreases postings.len(),
{
    if postings.len() > 0 {
        lemma_fold_postings_at(balances, postings.drop_last(), key);
        let before = entry_movements(postings.drop_last(), key);
        if balance::key_of_movement(postings.last()) == key {
            assert(before.push(postings.last()).drop_last() =~= before);
        }
    }
}

proof fn lemma_fold_movements_append<const P: u8>(
    balance: Balance<P>,
    a: Seq<posting::Movement>,
    b: Seq<posting::Movement>,
)
    requires
        fold_movements(balance, a) is Ok,
    ensures
        fold_movements(balance, a + b) == fold_movements(
            fold_movements(balance, a)->Ok_0,
            b,
        ),
    decreases b.len(),
{
    if b.len() == 0 {
        assert(a + b =~= a);
    } else {
        lemma_fold_movements_append(balance, a, b.drop_last());
        assert((a + b).drop_last() =~= a + b.drop_last());
    }
}

/// The balance of a key is the fold of its own movements, and a key has a balance
/// once something has moved on it.
pub proof fn lemma_balance_of_key<const P: u8>(entries: Seq<entry::EntryFacts>, key: BalanceKey)
    requires
        folded::<P>(entries) is Ok,
    ensures
        fold_movements(balance::zero_balance::<P>(), movements_on(entries, key)) == Ok::<
            Balance<P>,
            MoneyError,
        >(balance::balance_at(folded::<P>(entries)->Ok_0, key)),
        (folded::<P>(entries)->Ok_0).contains_key(key) <==> movements_on(entries, key).len() > 0,
    decreases entries.len(),
{
    if entries.len() > 0 {
        let before = entries.drop_last();
        lemma_balance_of_key::<P>(before, key);
        let balances = folded::<P>(before)->Ok_0;
        lemma_fold_postings_at(balances, entries.last().postings, key);
        lemma_fold_movements_append(
            balance::zero_balance::<P>(),
            movements_on(before, key),
            entry_movements(entries.last().postings, key),
        );
    }
}

/// The running balances of a key never overflow where its entries add up.
pub proof fn lemma_running_balance<const P: u8>(
    entries: Seq<entry::EntryFacts>,
    key: BalanceKey,
    k: int,
)
    requires
        folded::<P>(entries) is Ok,
        0 <= k <= movements_on(entries, key).len(),
    ensures
        fold_movements(balance::zero_balance::<P>(), movements_on(entries, key).take(k)) is Ok,
{
    lemma_balance_of_key::<P>(entries, key);
    let all = movements_on(entries, key);
    if fold_movements(balance::zero_balance::<P>(), all.take(k)) is Err {
        lemma_fold_movements_error(balance::zero_balance::<P>(), all, k);
    }
}

/// What an entry does not touch stays as it was.
pub proof fn lemma_untouched<const P: u8>(entries: Seq<entry::EntryFacts>, key: BalanceKey)
    requires
        entries.len() > 0,
        folded::<P>(entries) is Ok,
        entry_movements(entries.last().postings, key).len() == 0,
    ensures
        folded::<P>(entries.drop_last()) is Ok,
        (folded::<P>(entries)->Ok_0).contains_key(key) <==> (folded::<P>(
            entries.drop_last(),
        )->Ok_0).contains_key(key),
        (folded::<P>(entries)->Ok_0).contains_key(key) ==> (folded::<P>(entries)->Ok_0)[key] == (
        folded::<P>(entries.drop_last())->Ok_0)[key],
{
    let before = folded::<P>(entries.drop_last())->Ok_0;
    lemma_fold_postings_at(before, entries.last().postings, key);
}

/// An entry has movements on exactly the keys of its postings.
pub proof fn lemma_entry_keys(postings: Seq<posting::Movement>, key: BalanceKey)
    ensures
        entry_movements(postings, key).len() > 0 <==> exists|i: int|
            0 <= i < postings.len() && balance::key_of_movement(#[trigger] postings[i]) == key,
    decreases postings.len(),
{
    if postings.len() > 0 {
        let before = postings.drop_last();
        lemma_entry_keys(before, key);
        if entry_movements(postings, key).len() > 0 {
            if balance::key_of_movement(postings.last()) == key {
                assert(balance::key_of_movement(postings[postings.len() - 1]) == key);
            } else {
                let i = choose|i: int|
                    0 <= i < before.len() && balance::key_of_movement(#[trigger] before[i]) == key;
                assert(balance::key_of_movement(postings[i]) == key);
            }
        }
        if exists|i: int|
            0 <= i < postings.len() && balance::key_of_movement(#[trigger] postings[i]) == key {
            let i = choose|i: int|
                0 <= i < postings.len() && balance::key_of_movement(#[trigger] postings[i]) == key;
            if i < before.len() {
                assert(balance::key_of_movement(before[i]) == key);
            }
        }
    }
}

/// The movements whose entry was booked on or before a day.
pub open spec fn dated(
    entries: Seq<entry::EntryFacts>,
    sites: Seq<PostingPosition>,
    movements: Seq<posting::Movement>,
    day: int,
) -> Seq<posting::Movement>
    decreases sites.len(),
{
    if sites.len() == 0 {
        Seq::empty()
    } else {
        let before = dated(entries, sites.drop_last(), movements, day);
        let at = sites.last().index.position as int;
        if entries[at].booking_date@ <= day {
            before.push(movements[sites.len() - 1])
        } else {
            before
        }
    }
}

proof fn lemma_dated_append(
    entries: Seq<entry::EntryFacts>,
    a: Seq<PostingPosition>,
    b: Seq<PostingPosition>,
    x: Seq<posting::Movement>,
    y: Seq<posting::Movement>,
    day: int,
    kept: bool,
)
    requires
        a.len() == x.len(),
        b.len() == y.len(),
        forall|i: int|
            0 <= i < b.len() ==> (entries[(#[trigger] b[i]).index.position as int].booking_date@
                <= day) == kept,
    ensures
        dated(entries, a + b, x + y, day) == dated(entries, a, x, day) + (if kept {
            y
        } else {
            Seq::empty()
        }),
    decreases b.len(),
{
    if b.len() == 0 {
        assert(a + b =~= a);
        assert(x + y =~= x);
        assert(y =~= Seq::<posting::Movement>::empty());
        assert(dated(entries, a, x, day) + Seq::<posting::Movement>::empty() =~= dated(
            entries,
            a,
            x,
            day,
        ));
    } else {
        let (c, z) = (b.drop_last(), y.drop_last());
        assert forall|i: int| 0 <= i < c.len() implies (entries[(
        #[trigger] c[i]).index.position as int].booking_date@ <= day) == kept by {
            assert(c[i] == b[i]);
        }
        lemma_dated_append(entries, a, c, x, z, day, kept);
        assert((a + b).drop_last() =~= a + c);
        assert((a + b).last() == b[b.len() - 1]);
        lemma_dated_reads_prefix(entries, a + c, x + z, x + y, day);
        if kept {
            assert((x + y)[(a + b).len() - 1] == y.last());
            assert(z.push(y.last()) =~= y);
        }
    }
}

proof fn lemma_dated_reads_prefix(
    entries: Seq<entry::EntryFacts>,
    sites: Seq<PostingPosition>,
    x: Seq<posting::Movement>,
    y: Seq<posting::Movement>,
    day: int,
)
    requires
        sites.len() <= x.len(),
        sites.len() <= y.len(),
        forall|i: int| 0 <= i < sites.len() ==> #[trigger] x[i] == y[i],
    ensures
        dated(entries, sites, x, day) == dated(entries, sites, y, day),
    decreases sites.len(),
{
    if sites.len() > 0 {
        lemma_dated_reads_prefix(entries, sites.drop_last(), x, y, day);
    }
}

proof fn lemma_dated_ignores_later(
    entries: Seq<entry::EntryFacts>,
    more: Seq<entry::EntryFacts>,
    sites: Seq<PostingPosition>,
    movements: Seq<posting::Movement>,
    day: int,
)
    requires
        entries.len() <= more.len(),
        forall|i: int| 0 <= i < entries.len() ==> #[trigger] entries[i] == more[i],
        forall|i: int|
            0 <= i < sites.len() ==> (#[trigger] sites[i]).index.position < entries.len(),
    ensures
        dated(entries, sites, movements, day) == dated(more, sites, movements, day),
    decreases sites.len(),
{
    if sites.len() > 0 {
        let fewer = sites.drop_last();
        assert forall|i: int| 0 <= i < fewer.len() implies (
        #[trigger] fewer[i]).index.position < entries.len() by {
            assert(fewer[i] == sites[i]);
        }
        lemma_dated_ignores_later(entries, more, fewer, movements, day);
        let at = sites.last().index.position as int;
        assert(sites.last() == sites[sites.len() - 1]);
        assert(entries[at] == more[at]);
    }
}

/// Keeping the postings of entries booked by a day keeps the postings on a key
/// of those entries.
pub proof fn lemma_dated(entries: Seq<entry::EntryFacts>, key: BalanceKey, day: int)
    requires
        addressable(entries),
    ensures
        dated(entries, sites_of(entries, key), movements_on(entries, key), day) == movements_on(
            through(entries, day),
            key,
        ),
    decreases entries.len(),
{
    if entries.len() > 0 {
        let before = entries.drop_last();
        assert forall|i: int| 0 <= i < before.len() implies (#[trigger] before[i]).postings.len()
            <= ADDRESSABLE by {
            assert(before[i] == entries[i]);
        }
        lemma_dated(before, key, day);
        lemma_sites(before, key);
        let e = entries.last();
        let n = entries.len() - 1;
        let (a, b) = (sites_of(before, key), entry_sites(n, e.postings, key));
        let (x, y) = (movements_on(before, key), entry_movements(e.postings, key));
        lemma_entry_sites(n, e.postings, key);
        assert forall|i: int| 0 <= i < a.len() implies (#[trigger] a[i]).index.position
            < before.len() by {
            assert(names_movement(before, a[i], x[i]));
        }
        lemma_dated_ignores_later(before, entries, a, x, day);
        let kept = e.booking_date@ <= day;
        lemma_dated_append(entries, a, b, x, y, day, kept);
        if kept {
            let earlier = through(before, day);
            assert(earlier.push(e).drop_last() =~= earlier);
        } else {
            assert(dated(entries, a, x, day) + Seq::<posting::Movement>::empty() =~= dated(
                entries,
                a,
                x,
                day,
            ));
        }
    }
}

// ── what the indexes hold ───────────────────────────────────────────────────

/// True when the index finds the entry with an identifier, or that there is none.
pub open spec fn finds_id(
    index: Map<EntryId, LogIndex>,
    entries: Seq<entry::EntryFacts>,
    id: EntryId,
) -> bool {
    match find_id(entries, id) {
        Some(i) => index.contains_key(id) && index[id].position == i,
        None => !index.contains_key(id),
    }
}

/// The index finds every entry by its identifier, and nothing else.
pub open spec fn indexes_ids(
    index: Map<EntryId, LogIndex>,
    entries: Seq<entry::EntryFacts>,
) -> bool {
    forall|id: EntryId| #[trigger] finds_id(index, entries, id)
}

/// True when the index finds the entry with an idempotency key, or that there is
/// none.
pub open spec fn finds_key(
    p: u8,
    index: Map<Seq<u8>, (EntryId, LogIndex, Digest)>,
    entries: Seq<entry::EntryFacts>,
    key: Seq<u8>,
) -> bool {
    match find_key(entries, key) {
        Some(i) => {
            &&& index.contains_key(key)
            &&& index[key].0 == entries[i].id
            &&& index[key].1.position == i
            &&& index[key].2 == entry::entry_hash(p, entries[i])
        },
        None => !index.contains_key(key),
    }
}

/// The index finds every entry by its idempotency key, and nothing else.
pub open spec fn indexes_keys(
    p: u8,
    index: Map<Seq<u8>, (EntryId, LogIndex, Digest)>,
    entries: Seq<entry::EntryFacts>,
) -> bool {
    forall|key: Seq<u8>| #[trigger] finds_key(p, index, entries, key)
}

/// True when the index finds the reversal of an entry, or that there is none.
pub open spec fn finds_reversal(
    index: Map<EntryId, EntryId>,
    entries: Seq<entry::EntryFacts>,
    original: EntryId,
) -> bool {
    match find_reversal(entries, original) {
        Some(i) => index.contains_key(original) && index[original] == entries[i].id,
        None => !index.contains_key(original),
    }
}

/// The index finds the reversal of every entry that has one, and nothing else.
pub open spec fn indexes_reversals(
    index: Map<EntryId, EntryId>,
    entries: Seq<entry::EntryFacts>,
) -> bool {
    forall|original: EntryId| #[trigger] finds_reversal(index, entries, original)
}

/// True when the sites listed for a key are its sites. A key without any may be
/// listed or not.
pub open spec fn lists_sites_of(
    sites: Map<BalanceKey, Vec<PostingPosition>>,
    entries: Seq<entry::EntryFacts>,
    key: BalanceKey,
) -> bool {
    if sites.contains_key(key) {
        sites[key]@ == sites_of(entries, key)
    } else {
        sites_of(entries, key).len() == 0
    }
}

/// The lists hold the sites of every key.
pub open spec fn lists_sites(
    sites: Map<BalanceKey, Vec<PostingPosition>>,
    entries: Seq<entry::EntryFacts>,
) -> bool {
    forall|key: BalanceKey| #[trigger] lists_sites_of(sites, entries, key)
}

/// No listed key is without postings.
pub open spec fn lists_no_idle_key(sites: Map<BalanceKey, Vec<PostingPosition>>) -> bool {
    forall|key: BalanceKey| #[trigger] sites.contains_key(key) ==> sites[key]@.len() > 0
}

/// Indexes after one more entry.
pub proof fn lemma_indexes_push(
    p: u8,
    ids: Map<EntryId, LogIndex>,
    keys: Map<Seq<u8>, (EntryId, LogIndex, Digest)>,
    reversals: Map<EntryId, EntryId>,
    entries: Seq<entry::EntryFacts>,
    e: entry::EntryFacts,
)
    requires
        indexes_ids(ids, entries),
        indexes_keys(p, keys, entries),
        indexes_reversals(reversals, entries),
        entries.len() <= u64::MAX,
    ensures
        ({
            let at = LogIndex { position: entries.len() as u64 };
            &&& indexes_ids(ids.insert(e.id, at), entries.push(e))
            &&& indexes_keys(
                p,
                keys.insert(e.key, (e.id, at, entry::entry_hash(p, e))),
                entries.push(e),
            )
            &&& indexes_reversals(
                match e.reverses {
                    Some(original) => reversals.insert(original, e.id),
                    None => reversals,
                },
                entries.push(e),
            )
        }),
{
    let after = entries.push(e);
    assert(after.drop_last() =~= entries);
    let at = LogIndex { position: entries.len() as u64 };
    let more_ids = ids.insert(e.id, at);
    assert forall|id: EntryId| #[trigger] finds_id(more_ids, after, id) by {
        assert(finds_id(ids, entries, id));
    }
    let more_keys = keys.insert(e.key, (e.id, at, entry::entry_hash(p, e)));
    assert forall|key: Seq<u8>| #[trigger] finds_key(p, more_keys, after, key) by {
        assert(finds_key(p, keys, entries, key));
        lemma_find_key(entries, key);
    }
    let more = match e.reverses {
        Some(original) => reversals.insert(original, e.id),
        None => reversals,
    };
    assert forall|original: EntryId| #[trigger] finds_reversal(more, after, original) by {
        assert(finds_reversal(reversals, entries, original));
        lemma_find_reversal(entries, original);
    }
}

/// Indexes after the last entry is taken back.
pub proof fn lemma_indexes_pop(
    p: u8,
    ids: Map<EntryId, LogIndex>,
    keys: Map<Seq<u8>, (EntryId, LogIndex, Digest)>,
    reversals: Map<EntryId, EntryId>,
    entries: Seq<entry::EntryFacts>,
)
    requires
        entries.len() > 0,
        distinct_entries(entries),
        indexes_ids(ids, entries),
        indexes_keys(p, keys, entries),
        indexes_reversals(reversals, entries),
    ensures
        indexes_ids(ids.remove(entries.last().id), entries.drop_last()),
        indexes_keys(p, keys.remove(entries.last().key), entries.drop_last()),
        indexes_reversals(
            match entries.last().reverses {
                Some(original) => reversals.remove(original),
                None => reversals,
            },
            entries.drop_last(),
        ),
{
    let before = entries.drop_last();
    let e = entries.last();
    let fewer_ids = ids.remove(e.id);
    assert forall|id: EntryId| #[trigger] finds_id(fewer_ids, before, id) by {
        assert(finds_id(ids, entries, id));
    }
    let fewer_keys = keys.remove(e.key);
    assert forall|key: Seq<u8>| #[trigger] finds_key(p, fewer_keys, before, key) by {
        assert(finds_key(p, keys, entries, key));
        lemma_find_key(before, key);
    }
    let fewer = match e.reverses {
        Some(original) => reversals.remove(original),
        None => reversals,
    };
    assert forall|original: EntryId| #[trigger] finds_reversal(fewer, before, original) by {
        assert(finds_reversal(reversals, entries, original));
        lemma_find_reversal(before, original);
    }
}

// ── recording ───────────────────────────────────────────────────────────────

/// Why an entry is refused.
pub ghost enum Refusal {
    Invalid { violations: Seq<entry::Violation> },
    IdempotencyConflict { existing: EntryId, stored: Digest, submitted: Digest },
    DuplicateId { duplicate: EntryId },
    UnknownOriginal { missing: EntryId },
    AlreadyReversed { reversed: EntryId, by: EntryId },
    ReversalOfReversal { reversal: EntryId },
    NotAnInversion { original: EntryId },
    LimitBreached { key: BalanceKey, limit: BalanceLimit, net: int },
    Money { error: MoneyError },
}

/// What the correction rules hold against an entry, if anything: what it
/// reverses is on file, not reversed yet, no reversal itself, and inverted
/// posting by posting.
pub open spec fn reversal_fault(
    entries: Seq<entry::EntryFacts>,
    e: entry::EntryFacts,
) -> Option<Refusal> {
    match e.reverses {
        None => None,
        Some(original) => match find_id(entries, original) {
            None => Some(Refusal::UnknownOriginal { missing: original }),
            Some(i) => match find_reversal(entries, original) {
                Some(j) => Some(
                    Refusal::AlreadyReversed { reversed: original, by: entries[j].id },
                ),
                None => if entries[i].reverses is Some {
                    Some(Refusal::ReversalOfReversal { reversal: original })
                } else if e.postings != entry::inverted(entries[i].postings) {
                    Some(Refusal::NotAnInversion { original })
                } else {
                    None
                },
            },
        },
    }
}

/// The limit of an account; a handle that was never issued has none.
pub open spec fn limit_at(
    accounts: Seq<account::AccountFacts>,
    id: account::AccountId,
) -> BalanceLimit {
    if id.position < accounts.len() {
        accounts[id.position as int].limit
    } else {
        BalanceLimit::Unlimited
    }
}

/// True when a balance can be netted and is on a side its account allows, or its
/// account has no limit.
pub open spec fn key_within_limit<const P: u8>(
    accounts: Seq<account::AccountFacts>,
    balances: Map<BalanceKey, Balance<P>>,
    key: BalanceKey,
) -> bool {
    let b = balance::balance_at(balances, key);
    account::within_limit(
        limit_at(accounts, key.account),
        b.debits.minor as int,
        b.credits.minor as int,
    )
}

/// The net that a breach reports: debit positive, or zero where the totals
/// cannot be netted, which is a breach of its own.
pub open spec fn net_or_zero<const P: u8>(b: Balance<P>) -> int {
    let net = b.debits.minor - b.credits.minor;
    if i64::MIN <= net <= i64::MAX {
        net
    } else {
        0
    }
}

/// The first limit that the balances break on the keys of some postings, from
/// position `i` on.
pub open spec fn limit_fault<const P: u8>(
    accounts: Seq<account::AccountFacts>,
    balances: Map<BalanceKey, Balance<P>>,
    postings: Seq<posting::Movement>,
    i: int,
) -> Option<Refusal>
    decreases postings.len() - i,
{
    if i >= postings.len() {
        None
    } else {
        let key = balance::key_of_movement(postings[i]);
        if key_within_limit(accounts, balances, key) {
            limit_fault(accounts, balances, postings, i + 1)
        } else {
            Some(
                Refusal::LimitBreached {
                    key,
                    limit: limit_at(accounts, key.account),
                    net: net_or_zero(balance::balance_at(balances, key)),
                },
            )
        }
    }
}

/// What comes of recording an entry.
pub ghost enum Outcome {
    /// The same submission had been recorded already.
    Replayed { recorded: Recorded },
    /// The entry is refused.
    Refused { refusal: Refusal },
    /// The entry is appended.
    Appended,
}

/// What a journal answers about an idempotency key it has seen.
pub open spec fn replay_of(
    p: u8,
    entries: Seq<entry::EntryFacts>,
    e: entry::EntryFacts,
) -> Option<Outcome> {
    match find_key(entries, e.key) {
        Some(i) => Some(
            if entry::entry_hash(p, entries[i]) == entry::entry_hash(p, e) {
                Outcome::Replayed {
                    recorded: Recorded {
                        id: entries[i].id,
                        index: Some(LogIndex { position: i as u64 }),
                        content_hash: entry::entry_hash(p, e),
                        is_new: false,
                    },
                }
            } else {
                Outcome::Refused {
                    refusal: Refusal::IdempotencyConflict {
                        existing: entries[i].id,
                        stored: entry::entry_hash(p, entries[i]),
                        submitted: entry::entry_hash(p, e),
                    },
                }
            },
        ),
        None => None,
    }
}

/// What comes of recording a validated entry: the key is resolved first, and
/// then the identifier, the correction rules, the balances and the limits are
/// checked in that order.
pub open spec fn outcome_of<const P: u8>(
    accounts: Seq<account::AccountFacts>,
    entries: Seq<entry::EntryFacts>,
    e: entry::EntryFacts,
) -> Outcome {
    match replay_of(P, entries, e) {
        Some(outcome) => outcome,
        None => if find_id(entries, e.id) is Some {
            Outcome::Refused { refusal: Refusal::DuplicateId { duplicate: e.id } }
        } else {
            match reversal_fault(entries, e) {
                Some(refusal) => Outcome::Refused { refusal },
                None => match folded::<P>(entries.push(e)) {
                    Err(error) => Outcome::Refused { refusal: Refusal::Money { error } },
                    Ok(after) => match limit_fault(accounts, after, e.postings, 0) {
                        Some(refusal) => Outcome::Refused { refusal },
                        None => Outcome::Appended,
                    },
                },
            }
        },
    }
}

/// What comes of recording a draft: the key is resolved before validation runs.
pub open spec fn draft_outcome<const P: u8>(
    accounts: Seq<account::AccountFacts>,
    periods: Map<Seq<char>, period::PeriodFacts>,
    policy: entry::PolicyFacts,
    entries: Seq<entry::EntryFacts>,
    e: entry::EntryFacts,
) -> Outcome {
    let violations = entry::faults::<P>(e, accounts, periods, policy);
    match replay_of(P, entries, e) {
        Some(outcome) => outcome,
        None => if violations.len() > 0 {
            Outcome::Refused { refusal: Refusal::Invalid { violations } }
        } else {
            outcome_of::<P>(accounts, entries, e)
        },
    }
}

/// The outcome that an appended entry reports.
pub open spec fn appended(
    p: u8,
    entries: Seq<entry::EntryFacts>,
    e: entry::EntryFacts,
) -> Recorded {
    Recorded {
        id: e.id,
        index: Some(LogIndex { position: entries.len() as u64 }),
        content_hash: entry::entry_hash(p, e),
        is_new: true,
    }
}

/// What recording the first `n` of some entries leaves and reports, or why one
/// of them is refused.
pub open spec fn batch_outcome<const P: u8>(
    accounts: Seq<account::AccountFacts>,
    entries: Seq<entry::EntryFacts>,
    batch: Seq<entry::EntryFacts>,
    n: int,
) -> Result<(Seq<entry::EntryFacts>, Seq<Recorded>), Refusal>
    decreases n,
{
    if n <= 0 {
        Ok((entries, Seq::empty()))
    } else {
        match batch_outcome::<P>(accounts, entries, batch, n - 1) {
            Err(refusal) => Err(refusal),
            Ok((before, reports)) => match outcome_of::<P>(accounts, before, batch[n - 1]) {
                Outcome::Replayed { recorded } => Ok((before, reports.push(recorded))),
                Outcome::Refused { refusal } => Err(refusal),
                Outcome::Appended => Ok(
                    (
                        before.push(batch[n - 1]),
                        reports.push(appended(P, before, batch[n - 1])),
                    ),
                ),
            },
        }
    }
}

/// One refused entry refuses the whole batch.
pub proof fn lemma_batch_error<const P: u8>(
    accounts: Seq<account::AccountFacts>,
    entries: Seq<entry::EntryFacts>,
    batch: Seq<entry::EntryFacts>,
    k: int,
    n: int,
)
    requires
        k <= n,
        batch_outcome::<P>(accounts, entries, batch, k) is Err,
    ensures
        batch_outcome::<P>(accounts, entries, batch, n) == batch_outcome::<P>(
            accounts,
            entries,
            batch,
            k,
        ),
    decreases n - k,
{
    if k < n {
        lemma_batch_error::<P>(accounts, entries, batch, k, n - 1);
    }
}

/// An appended entry keeps every entry distinct, and the books add up after it.
pub proof fn lemma_appended<const P: u8>(
    accounts: Seq<account::AccountFacts>,
    entries: Seq<entry::EntryFacts>,
    e: entry::EntryFacts,
)
    requires
        distinct_entries(entries),
        outcome_of::<P>(accounts, entries, e) is Appended,
    ensures
        distinct_entries(entries.push(e)),
        folded::<P>(entries.push(e)) is Ok,
{
    assert(entries.push(e).drop_last() =~= entries);
}

// ── the whole of the books ──────────────────────────────────────────────────

/// One entity's books.
pub ghost struct Books<const P: u8> {
    /// The ledger the books belong to.
    pub ledger: Seq<char>,
    /// The accounts, in handle order.
    pub accounts: Seq<account::AccountFacts>,
    /// The periods, by identifier.
    pub periods: Map<Seq<char>, period::PeriodFacts>,
    /// The ledger-wide policy.
    pub policy: entry::PolicyFacts,
    /// The entries, in log order.
    pub entries: Seq<entry::EntryFacts>,
    /// The seals, oldest first.
    pub seals: Seq<seal::SealFacts>,
    /// The accounts each seal commits to.
    pub sealed_accounts: Seq<Seq<account::AccountFacts>>,
    /// What was cleared and released, oldest first.
    pub clearings: Seq<clearing::EventFacts<P>>,
}

/// The first entries of a log: those of a size it has had, or all of them.
pub open spec fn prefix(entries: Seq<entry::EntryFacts>, size: Option<u64>) -> Seq<
    entry::EntryFacts,
> {
    match size {
        Some(n) => if n < entries.len() {
            entries.take(n as int)
        } else {
            entries
        },
        None => entries,
    }
}

/// What a log added up to at a size it has had.
pub open spec fn balances_at<const P: u8>(
    entries: Seq<entry::EntryFacts>,
    size: Option<u64>,
) -> Map<BalanceKey, Balance<P>> {
    folded::<P>(prefix(entries, size))->Ok_0
}

/// References to the postings on a key, in log order.
pub open spec fn references_on(entries: Seq<entry::EntryFacts>, key: BalanceKey) -> Seq<
    PostingRef,
> {
    sites_of(entries, key).map_values(|site: PostingPosition| reference_at(entries, site))
}

/// The reference of the posting at a site.
pub open spec fn reference_at(entries: Seq<entry::EntryFacts>, site: PostingPosition) -> PostingRef {
    PostingRef { entry: entries[site.index.position as int].id, index: site.posting }
}

/// Every reference to a posting resolves to that posting.
pub proof fn law_references_resolve(
    entries: Seq<entry::EntryFacts>,
    site: PostingPosition,
    m: posting::Movement,
)
    requires
        distinct_entries(entries),
        names_movement(entries, site, m),
    ensures
        posting_at(entries, reference_at(entries, site)) == Some(m),
{
    let i = site.index.position as int;
    lemma_find_id(entries, entries[i].id);
    let j = find_id(entries, entries[i].id)->0;
    if i < j {
        lemma_entries_are_distinct(entries, i, j);
    } else if j < i {
        lemma_entries_are_distinct(entries, j, i);
    }
}

/// The balance of a key after its first `i + 1` postings.
pub open spec fn running_at<const P: u8>(
    entries: Seq<entry::EntryFacts>,
    key: BalanceKey,
    i: int,
) -> Balance<P> {
    fold_movements(balance::zero_balance::<P>(), movements_on(entries, key).take(i + 1))->Ok_0
}

/// Line `i` of the statement of a key.
pub open spec fn line_of<const P: u8>(
    entries: Seq<entry::EntryFacts>,
    key: BalanceKey,
    i: int,
) -> storage::LineFacts<P> {
    let site = sites_of(entries, key)[i];
    let e = entries[site.index.position as int];
    let m = e.postings[site.posting as int];
    storage::LineFacts {
        index: site.index,
        posting: reference_at(entries, site),
        booking_date: e.booking_date,
        direction: m.direction,
        minor: m.minor,
        running: running_at::<P>(entries, key, i),
        kind: e.kind,
    }
}

/// The statement of a key: every posting on it, in log order, with the balance
/// after each.
pub open spec fn statement_of<const P: u8>(
    entries: Seq<entry::EntryFacts>,
    key: BalanceKey,
) -> Seq<storage::LineFacts<P>> {
    Seq::new(sites_of(entries, key).len(), |i: int| line_of::<P>(entries, key, i))
}

/// What the entries of a log booked between two days cover of it.
pub open spec fn coverage_of(
    entries: Seq<entry::EntryFacts>,
    start: int,
    end: int,
) -> seal::PeriodCoverage
    decreases entries.len(),
{
    if entries.len() == 0 {
        seal::no_coverage()
    } else {
        let before = coverage_of(entries.drop_last(), start, end);
        let at = (entries.len() - 1) as u64;
        if start <= entries.last().booking_date@ <= end {
            seal::PeriodCoverage {
                first_index: match before.first_index {
                    Some(first) => Some(first),
                    None => Some(at),
                },
                last_index: Some(at),
                entry_count: (before.entry_count + 1) as u64,
            }
        } else {
            before
        }
    }
}

/// What is open on the first `n` postings of a key, with where each stands, or
/// why it cannot be told.
pub open spec fn open_sites<const P: u8>(
    events: Seq<clearing::EventFacts<P>>,
    entries: Seq<entry::EntryFacts>,
    key: BalanceKey,
    n: int,
) -> Result<Seq<(PostingPosition, OpenItem<P>)>, ClearingError>
    decreases n,
{
    if n <= 0 {
        Ok(Seq::empty())
    } else {
        let site = sites_of(entries, key)[n - 1];
        match open_sites::<P>(events, entries, key, n - 1) {
            Err(e) => Err(e),
            Ok(before) => match clearing::open_item_of::<P>(
                events,
                reference_at(entries, site),
                postings_of(entries),
            ) {
                Err(e) => Err(e),
                Ok(None) => Ok(before),
                Ok(Some(item)) => Ok(before.push((site, item))),
            },
        }
    }
}

/// What is open on a key, oldest first, with where each item stands.
pub open spec fn open_on<const P: u8>(
    events: Seq<clearing::EventFacts<P>>,
    entries: Seq<entry::EntryFacts>,
    key: BalanceKey,
) -> Result<Seq<(PostingPosition, OpenItem<P>)>, ClearingError> {
    open_sites::<P>(events, entries, key, sites_of(entries, key).len() as int)
}

/// The items of a list, without where they stand.
pub open spec fn items_of<const P: u8>(open: Seq<(PostingPosition, OpenItem<P>)>) -> Seq<
    OpenItem<P>,
> {
    open.map_values(|pair: (PostingPosition, OpenItem<P>)| pair.1)
}

/// One failure ends the list.
pub proof fn lemma_open_sites_error<const P: u8>(
    events: Seq<clearing::EventFacts<P>>,
    entries: Seq<entry::EntryFacts>,
    key: BalanceKey,
    k: int,
    n: int,
)
    requires
        k <= n,
        open_sites::<P>(events, entries, key, k) is Err,
    ensures
        open_sites::<P>(events, entries, key, n) == open_sites::<P>(events, entries, key, k),
    decreases n - k,
{
    if k < n {
        lemma_open_sites_error::<P>(events, entries, key, k, n - 1);
    }
}

/// The open items of a key are those the register finds among its postings, in
/// log order.
pub proof fn lemma_open_items<const P: u8>(
    events: Seq<clearing::EventFacts<P>>,
    entries: Seq<entry::EntryFacts>,
    key: BalanceKey,
    n: int,
)
    requires
        0 <= n <= sites_of(entries, key).len(),
    ensures
        match open_sites::<P>(events, entries, key, n) {
            Ok(open) => clearing::open_among::<P>(
                events,
                references_on(entries, key),
                n,
                postings_of(entries),
            ) == Ok::<Seq<OpenItem<P>>, ClearingError>(items_of(open)),
            Err(e) => clearing::open_among::<P>(
                events,
                references_on(entries, key),
                n,
                postings_of(entries),
            ) == Err::<Seq<OpenItem<P>>, ClearingError>(e),
        },
    decreases n,
{
    if n > 0 {
        lemma_open_items::<P>(events, entries, key, n - 1);
        if let Ok(before) = open_sites::<P>(events, entries, key, n - 1) {
            let site = sites_of(entries, key)[n - 1];
            assert(references_on(entries, key)[n - 1] == reference_at(entries, site));
            if let Ok(Some(item)) = clearing::open_item_of::<P>(
                events,
                reference_at(entries, site),
                postings_of(entries),
            ) {
                assert(items_of(before.push((site, item))) =~= items_of(before).push(item));
            }
        }
    } else {
        assert(items_of(Seq::<(PostingPosition, OpenItem<P>)>::empty()) =~= Seq::empty());
    }
}

// ── what recording keeps ────────────────────────────────────────────────────

/// A retry is safe: submitting again what was recorded answers with the original
/// outcome and changes nothing, whatever has happened to the accounts, the
/// periods and the policy since.
pub proof fn law_retry_is_safe<const P: u8>(
    accounts: Seq<account::AccountFacts>,
    periods: Map<Seq<char>, period::PeriodFacts>,
    policy: entry::PolicyFacts,
    entries: Seq<entry::EntryFacts>,
    i: int,
    e: entry::EntryFacts,
)
    requires
        distinct_entries(entries),
        0 <= i < entries.len(),
        e.key == entries[i].key,
        entry::entry_hash(P, e) == entry::entry_hash(P, entries[i]),
    ensures
        ({
            let recorded = Recorded {
                id: entries[i].id,
                index: Some(LogIndex { position: i as u64 }),
                content_hash: entry::entry_hash(P, entries[i]),
                is_new: false,
            };
            &&& draft_outcome::<P>(accounts, periods, policy, entries, e)
                == Outcome::Replayed { recorded }
            &&& outcome_of::<P>(accounts, entries, e) == Outcome::Replayed { recorded }
        }),
{
    lemma_key_is_at(entries, i);
}

/// A key is never silently reused: submitting different content under it is
/// refused, naming the entry that holds it.
pub proof fn law_reused_key_is_refused<const P: u8>(
    accounts: Seq<account::AccountFacts>,
    periods: Map<Seq<char>, period::PeriodFacts>,
    policy: entry::PolicyFacts,
    entries: Seq<entry::EntryFacts>,
    i: int,
    e: entry::EntryFacts,
)
    requires
        distinct_entries(entries),
        0 <= i < entries.len(),
        e.key == entries[i].key,
        entry::entry_hash(P, e) != entry::entry_hash(P, entries[i]),
    ensures
        draft_outcome::<P>(accounts, periods, policy, entries, e) == (Outcome::Refused {
            refusal: Refusal::IdempotencyConflict {
                existing: entries[i].id,
                stored: entry::entry_hash(P, entries[i]),
                submitted: entry::entry_hash(P, e),
            },
        }),
{
    lemma_key_is_at(entries, i);
}

proof fn lemma_key_is_at(entries: Seq<entry::EntryFacts>, i: int)
    requires
        distinct_entries(entries),
        0 <= i < entries.len(),
    ensures
        find_key(entries, entries[i].key) == Some(i),
{
    lemma_find_key(entries, entries[i].key);
    let j = find_key(entries, entries[i].key)->0;
    if i < j {
        lemma_entries_are_distinct(entries, i, j);
    } else if j < i {
        lemma_entries_are_distinct(entries, j, i);
    }
}

/// A recorded reversal is exact: what it reverses was on file, had not been
/// reversed, is no reversal itself, and the two net to zero under every key.
pub proof fn law_recorded_reversals_invert<const P: u8>(
    accounts: Seq<account::AccountFacts>,
    entries: Seq<entry::EntryFacts>,
    e: entry::EntryFacts,
    key: BalanceKey,
)
    requires
        outcome_of::<P>(accounts, entries, e) is Appended,
        e.reverses is Some,
    ensures
        find_id(entries, e.reverses->0) is Some,
        find_reversal(entries, e.reverses->0) is None,
        ({
            let original = entries[find_id(entries, e.reverses->0)->0];
            &&& original.reverses is None
            &&& e.postings == entry::inverted(original.postings)
            &&& entry::net_of(original.postings, key) + entry::net_of(e.postings, key) == 0
        }),
{
    let original = entries[find_id(entries, e.reverses->0)->0];
    entry::law_reversal_nets_to_zero(original.postings, key);
}

proof fn lemma_no_limit_fault<const P: u8>(
    accounts: Seq<account::AccountFacts>,
    balances: Map<BalanceKey, Balance<P>>,
    postings: Seq<posting::Movement>,
    from: int,
    i: int,
)
    requires
        0 <= from <= i < postings.len(),
        limit_fault(accounts, balances, postings, from) is None,
    ensures
        key_within_limit(accounts, balances, balance::key_of_movement(postings[i])),
    decreases i - from,
{
    if from < i {
        lemma_no_limit_fault(accounts, balances, postings, from + 1, i);
    }
}

/// Limits hold: where a balance could be netted and was on a side its account
/// allows, the same is true after any entry that is accepted.
pub proof fn law_accepted_entries_keep_limits<const P: u8>(
    accounts: Seq<account::AccountFacts>,
    entries: Seq<entry::EntryFacts>,
    e: entry::EntryFacts,
    key: BalanceKey,
)
    requires
        outcome_of::<P>(accounts, entries, e) is Appended,
        key_within_limit(accounts, folded::<P>(entries)->Ok_0, key),
    ensures
        key_within_limit(accounts, folded::<P>(entries.push(e))->Ok_0, key),
{
    let after = entries.push(e);
    assert(after.drop_last() =~= entries);
    lemma_entry_keys(e.postings, key);
    if entry_movements(e.postings, key).len() > 0 {
        let i = choose|i: int|
            0 <= i < e.postings.len() && balance::key_of_movement(#[trigger] e.postings[i])
                == key;
        lemma_no_limit_fault(accounts, folded::<P>(after)->Ok_0, e.postings, 0, i);
    } else {
        lemma_untouched::<P>(after, key);
    }
}

/// Movements that only add can be applied in either order.
proof fn lemma_movements_commute<const P: u8>(
    balances: Map<BalanceKey, Balance<P>>,
    x: posting::Movement,
    y: posting::Movement,
)
    requires
        x.minor >= 0,
        y.minor >= 0,
    ensures
        fold_postings(balances, seq![x, y]) == fold_postings(balances, seq![y, x]),
{
    lemma_fold_two(balances, x, y);
    lemma_fold_two(balances, y, x);
    let kx = balance::key_of_movement(x);
    let ky = balance::key_of_movement(y);
    if fold_postings(balances, seq![x, y]) is Ok && kx != ky {
        let one = balance::moved(balance::balance_at(balances, kx), x.direction, x.minor)->Ok_0;
        let two = balance::moved(balance::balance_at(balances, ky), y.direction, y.minor)->Ok_0;
        assert(balances.insert(kx, one).insert(ky, two) =~= balances.insert(ky, two).insert(
            kx,
            one,
        ));
    } else if fold_postings(balances, seq![x, y]) is Ok {
        assert(fold_postings(balances, seq![x, y])->Ok_0 =~= fold_postings(
            balances,
            seq![y, x],
        )->Ok_0);
    }
}

proof fn lemma_fold_two<const P: u8>(
    balances: Map<BalanceKey, Balance<P>>,
    x: posting::Movement,
    y: posting::Movement,
)
    ensures
        fold_postings(balances, seq![x, y]) == match balance::apply_movement(balances, x) {
            Ok(after) => balance::apply_movement(after, y),
            Err(e) => Err(e),
        },
{
    let both = seq![x, y];
    let one = seq![x];
    let none = Seq::<posting::Movement>::empty();
    assert(one.drop_last() =~= none);
    assert(fold_postings(balances, none) == Ok::<Map<BalanceKey, Balance<P>>, MoneyError>(
        balances,
    ));
    assert(fold_postings(balances, one) == balance::apply_movement(balances, x));
    assert(both.drop_last() =~= one);
}

/// True when no movement has a negative amount.
pub open spec fn none_negative(postings: Seq<posting::Movement>) -> bool {
    forall|i: int| 0 <= i < postings.len() ==> (#[trigger] postings[i]).minor >= 0
}

/// A movement can wait until the end.
proof fn lemma_movement_can_wait<const P: u8>(
    balances: Map<BalanceKey, Balance<P>>,
    front: Seq<posting::Movement>,
    x: posting::Movement,
    back: Seq<posting::Movement>,
)
    requires
        x.minor >= 0,
        none_negative(back),
    ensures
        fold_postings(balances, front.push(x) + back) == fold_postings(
            balances,
            (front + back).push(x),
        ),
    decreases back.len(),
{
    if back.len() == 0 {
        assert(front.push(x) + back =~= (front + back).push(x));
    } else {
        let y = back.last();
        let rest = back.drop_last();
        lemma_movement_can_wait(balances, front, x, rest);
        let early = front.push(x) + back;
        let late = (front + back).push(x);
        assert(early.drop_last() =~= front.push(x) + rest);
        assert(late.drop_last() =~= (front + rest).push(y));
        let with_x = (front + rest).push(x);
        let with_y = (front + rest).push(y);
        assert(with_x.drop_last() =~= front + rest);
        assert(with_y.drop_last() =~= front + rest);
        assert(early.last() == y && late.last() == x);
        assert(fold_postings(balances, early) == match fold_postings(balances, with_x) {
            Ok(before) => balance::apply_movement(before, y),
            Err(e) => Err(e),
        });
        assert(fold_postings(balances, late) == match fold_postings(balances, with_y) {
            Ok(before) => balance::apply_movement(before, x),
            Err(e) => Err(e),
        });
        match fold_postings(balances, front + rest) {
            Ok(before) => {
                lemma_movements_commute(before, x, y);
                lemma_fold_two(before, x, y);
                lemma_fold_two(before, y, x);
            },
            Err(_) => {},
        }
    }
}

/// The order of movements that only add leaves no trace in the balances.
pub proof fn lemma_fold_ignores_order<const P: u8>(
    balances: Map<BalanceKey, Balance<P>>,
    a: Seq<posting::Movement>,
    b: Seq<posting::Movement>,
)
    requires
        a.to_multiset() == b.to_multiset(),
        none_negative(a),
    ensures
        fold_postings(balances, a) == fold_postings(balances, b),
        none_negative(b),
    decreases a.len(),
{
    broadcast use vstd::seq_lib::group_to_multiset_ensures;

    assert(a.to_multiset().len() == a.len());
    assert(b.to_multiset().len() == b.len());
    if a.len() == 0 {
        assert(a =~= b);
    } else {
        let x = a.last();
        assert(a.to_multiset().count(x) > 0) by {
            assert(a.contains(x));
        }
        assert(b.contains(x));
        let j = b.index_of(x);
        let front = b.take(j);
        let back = b.skip(j + 1);
        assert(b =~= front.push(x) + back);
        assert(b.remove(j) =~= front + back);
        assert(a.remove(a.len() - 1) =~= a.drop_last());
        assert(a.drop_last().to_multiset() == a.to_multiset().remove(x));
        assert((front + back).to_multiset() == b.to_multiset().remove(x));
        assert(none_negative(a.drop_last()));
        lemma_fold_ignores_order(balances, a.drop_last(), front + back);
        assert(none_negative(back)) by {
            assert forall|i: int| 0 <= i < back.len() implies (#[trigger] back[i]).minor >= 0 by {
                assert(back[i] == (front + back)[front.len() + i]);
            }
        }
        lemma_movement_can_wait(balances, front, x, back);
        assert((front + back).push(x).drop_last() =~= front + back);
        assert forall|i: int| 0 <= i < b.len() implies (#[trigger] b[i]).minor >= 0 by {
            if i < j {
                assert(b[i] == (front + back)[i]);
            } else if i > j {
                assert(b[i] == (front + back)[i - 1]);
            }
        }
    }
}

/// A limit is judged on the whole entry: the order in which its postings are
/// listed changes neither the balances it leaves nor whether they break a limit.
pub proof fn law_limits_ignore_posting_order<const P: u8>(
    accounts: Seq<account::AccountFacts>,
    entries: Seq<entry::EntryFacts>,
    e: entry::EntryFacts,
    reordered: Seq<posting::Movement>,
)
    requires
        e.postings.to_multiset() == reordered.to_multiset(),
        none_negative(e.postings),
    ensures
        ({
            let other = entry::EntryFacts { postings: reordered, ..e };
            let after = folded::<P>(entries.push(e));
            &&& folded::<P>(entries.push(other)) == after
            &&& after is Ok ==> (limit_fault(accounts, after->Ok_0, e.postings, 0) is None
                <==> limit_fault(accounts, after->Ok_0, reordered, 0) is None)
        }),
{
    broadcast use vstd::seq_lib::group_to_multiset_ensures;

    let other = entry::EntryFacts { postings: reordered, ..e };
    assert(entries.push(e).drop_last() =~= entries);
    assert(entries.push(other).drop_last() =~= entries);
    if folded::<P>(entries) is Ok {
        lemma_fold_ignores_order(folded::<P>(entries)->Ok_0, e.postings, reordered);
    }
    let after = folded::<P>(entries.push(e));
    if after is Ok {
        if limit_fault(accounts, after->Ok_0, e.postings, 0) is None {
            lemma_limits_on_members(accounts, after->Ok_0, e.postings, reordered, 0);
        }
        if limit_fault(accounts, after->Ok_0, reordered, 0) is None {
            lemma_limits_on_members(accounts, after->Ok_0, reordered, e.postings, 0);
        }
    }
}

/// Postings that are among others break no limit that those keep.
proof fn lemma_limits_on_members<const P: u8>(
    accounts: Seq<account::AccountFacts>,
    balances: Map<BalanceKey, Balance<P>>,
    a: Seq<posting::Movement>,
    b: Seq<posting::Movement>,
    from: int,
)
    requires
        a.to_multiset() == b.to_multiset(),
        limit_fault(accounts, balances, a, 0) is None,
        0 <= from <= b.len(),
    ensures
        limit_fault(accounts, balances, b, from) is None,
    decreases b.len() - from,
{
    broadcast use vstd::seq_lib::group_to_multiset_ensures;

    if from < b.len() {
        let x = b[from];
        assert(b.contains(x));
        assert(b.to_multiset().count(x) > 0);
        assert(a.to_multiset().count(x) > 0);
        assert(a.contains(x));
        let i = a.index_of(x);
        lemma_no_limit_fault(accounts, balances, a, 0, i);
        lemma_limits_on_members(accounts, balances, a, b, from + 1);
    }
}

/// Sealed days are frozen: no draft that is recorded is booked on or before the
/// last day of a sealed period, so what was booked through that day stays what it
/// was.
pub proof fn law_sealed_days_are_frozen<const P: u8>(
    accounts: Seq<account::AccountFacts>,
    periods: Map<Seq<char>, period::PeriodFacts>,
    policy: entry::PolicyFacts,
    entries: Seq<entry::EntryFacts>,
    e: entry::EntryFacts,
    day: int,
)
    requires
        draft_outcome::<P>(accounts, periods, policy, entries, e) is Appended,
        period::sealed_on(periods, day),
    ensures
        through(entries.push(e), day) == through(entries, day),
        e.booking_date@ > day,
{
    entry::law_validated_entries_balance::<P>(e, accounts, periods, policy);
    assert(entries.push(e).drop_last() =~= entries);
    if e.booking_date@ <= day {
        let id = choose|id: Seq<char>| #[trigger]
            periods.contains_key(id) && periods[id].state is Sealed && day
                <= periods[id].end@;
        assert(periods.contains_key(id) && periods[id].state is Sealed && e.booking_date@
            <= periods[id].end@);
        assert(period::sealed_on(periods, e.booking_date@));
    }
}

/// Sealed days are frozen against batches too: entries validated against the
/// calendar leave what was booked through a sealed day as it was, however many of
/// them are recorded at once.
pub proof fn law_sealed_days_are_frozen_to_batches<const P: u8>(
    accounts: Seq<account::AccountFacts>,
    periods: Map<Seq<char>, period::PeriodFacts>,
    policy: entry::PolicyFacts,
    entries: Seq<entry::EntryFacts>,
    batch: Seq<entry::EntryFacts>,
    n: int,
    day: int,
)
    requires
        0 <= n <= batch.len(),
        batch_outcome::<P>(accounts, entries, batch, n) is Ok,
        forall|i: int|
            0 <= i < n ==> entry::faults::<P>(#[trigger] batch[i], accounts, periods, policy).len()
                == 0,
        period::sealed_on(periods, day),
    ensures
        through((batch_outcome::<P>(accounts, entries, batch, n)->Ok_0).0, day) == through(
            entries,
            day,
        ),
    decreases n,
{
    if n > 0 {
        law_sealed_days_are_frozen_to_batches::<P>(
            accounts,
            periods,
            policy,
            entries,
            batch,
            n - 1,
            day,
        );
        let before = (batch_outcome::<P>(accounts, entries, batch, n - 1)->Ok_0).0;
        let e = batch[n - 1];
        assert(entry::faults::<P>(e, accounts, periods, policy).len() == 0);
        if outcome_of::<P>(accounts, before, e) is Appended {
            law_sealed_days_are_frozen::<P>(accounts, periods, policy, before, e, day);
        }
    }
}

/// A statement ends at the balance of its account.
pub proof fn law_statement_ends_at_the_balance<const P: u8>(
    entries: Seq<entry::EntryFacts>,
    key: BalanceKey,
)
    requires
        addressable(entries),
        folded::<P>(entries) is Ok,
        sites_of(entries, key).len() > 0,
    ensures
        statement_of::<P>(entries, key).last().running == balance::balance_at(
            folded::<P>(entries)->Ok_0,
            key,
        ),
{
    lemma_sites(entries, key);
    lemma_balance_of_key::<P>(entries, key);
    let all = movements_on(entries, key);
    assert(all.take(all.len() as int) =~= all);
}

// ── debits equal credits ────────────────────────────────────────────────────

/// What postings move on one side, in one currency and layer.
pub open spec fn layer_sum(
    postings: Seq<posting::Movement>,
    currency: Currency,
    layer: Layer,
    side: Direction,
) -> int
    decreases postings.len(),
{
    if postings.len() == 0 {
        0
    } else {
        let m = postings.last();
        layer_sum(postings.drop_last(), currency, layer, side) + if m.currency == currency
            && m.layer == layer && m.direction == side {
            m.minor
        } else {
            0
        }
    }
}

/// What entries move on one side, in one currency and layer.
pub open spec fn posted(
    entries: Seq<entry::EntryFacts>,
    currency: Currency,
    layer: Layer,
    side: Direction,
) -> int
    decreases entries.len(),
{
    if entries.len() == 0 {
        0
    } else {
        posted(entries.drop_last(), currency, layer, side) + layer_sum(
            entries.last().postings,
            currency,
            layer,
            side,
        )
    }
}

/// One side of a balance.
pub open spec fn side_of<const P: u8>(b: Balance<P>, side: Direction) -> int {
    match side {
        Direction::Debit => b.debits.minor as int,
        Direction::Credit => b.credits.minor as int,
    }
}

/// What a row holds on one side, in one currency and layer.
pub open spec fn row_part<const P: u8>(
    row: (BalanceKey, Balance<P>),
    currency: Currency,
    layer: Layer,
    side: Direction,
) -> int {
    if row.0.currency == currency && row.0.layer == layer {
        side_of(row.1, side)
    } else {
        0
    }
}

/// What rows hold on one side, in one currency and layer.
pub open spec fn rows_sum<const P: u8>(
    rows: Seq<(BalanceKey, Balance<P>)>,
    currency: Currency,
    layer: Layer,
    side: Direction,
) -> int
    decreases rows.len(),
{
    if rows.len() == 0 {
        0
    } else {
        rows_sum(rows.drop_last(), currency, layer, side) + row_part(
            rows.last(),
            currency,
            layer,
            side,
        )
    }
}

proof fn lemma_rows_sum_insert<const P: u8>(
    rows: Seq<(BalanceKey, Balance<P>)>,
    at: int,
    row: (BalanceKey, Balance<P>),
    currency: Currency,
    layer: Layer,
    side: Direction,
)
    requires
        0 <= at <= rows.len(),
    ensures
        rows_sum(rows.insert(at, row), currency, layer, side) == rows_sum(
            rows,
            currency,
            layer,
            side,
        ) + row_part(row, currency, layer, side),
    decreases rows.len(),
{
    let more = rows.insert(at, row);
    if at == rows.len() {
        assert(more.drop_last() =~= rows);
    } else {
        assert(more.drop_last() =~= rows.drop_last().insert(at, row));
        assert(more.last() == rows.last());
        lemma_rows_sum_insert(rows.drop_last(), at, row, currency, layer, side);
    }
}

proof fn lemma_rows_sum_update<const P: u8>(
    rows: Seq<(BalanceKey, Balance<P>)>,
    at: int,
    row: (BalanceKey, Balance<P>),
    currency: Currency,
    layer: Layer,
    side: Direction,
)
    requires
        0 <= at < rows.len(),
    ensures
        rows_sum(rows.update(at, row), currency, layer, side) == rows_sum(
            rows,
            currency,
            layer,
            side,
        ) + row_part(row, currency, layer, side) - row_part(rows[at], currency, layer, side),
    decreases rows.len(),
{
    let changed = rows.update(at, row);
    if at == rows.len() - 1 {
        assert(changed.drop_last() =~= rows.drop_last());
    } else {
        assert(changed.drop_last() =~= rows.drop_last().update(at, row));
        assert(changed.last() == rows.last());
        lemma_rows_sum_update(rows.drop_last(), at, row, currency, layer, side);
    }
}

proof fn lemma_movement_adds<const P: u8>(
    balances: Map<BalanceKey, Balance<P>>,
    m: posting::Movement,
    currency: Currency,
    layer: Layer,
    side: Direction,
)
    requires
        balance::listable(balances),
        balance::apply_movement(balances, m) is Ok,
    ensures
        ({
            let after = balance::apply_movement(balances, m)->Ok_0;
            &&& balance::listable(after)
            &&& rows_sum(balance::rows_of(after), currency, layer, side) == rows_sum(
                balance::rows_of(balances),
                currency,
                layer,
                side,
            ) + (if m.currency == currency && m.layer == layer && m.direction == side {
                m.minor
            } else {
                0
            })
        }),
{
    let key = balance::key_of_movement(m);
    let after = balance::apply_movement(balances, m)->Ok_0;
    let b = after[key];
    let at = ordered::lemma_listing_extends::<BalanceKey, Balance<P>>(balances, key, b);
    let keys = ordered::sorted_keys::<BalanceKey, Balance<P>>(balances);
    let (rows, more) = (balance::rows_of(balances), balance::rows_of(after));
    assert(after == balances.insert(key, b));
    if balances.contains_key(key) {
        assert forall|i: int| 0 <= i < more.len() implies more[i] == rows.update(
            at,
            (key, b),
        )[i] by {
            if i != at {
                assert(keys[i] != key) by {
                    if keys[i] == key {
                        if i < at {
                            assert(BalanceKey::before(keys[i], keys[at]));
                        } else {
                            assert(BalanceKey::before(keys[at], keys[i]));
                        }
                        BalanceKey::lemma_irreflexive(key);
                    }
                }
            }
        }
        assert(more =~= rows.update(at, (key, b)));
        lemma_rows_sum_update(rows, at, (key, b), currency, layer, side);
    } else {
        let longer = keys.insert(at, key);
        assert forall|i: int| 0 <= i < more.len() implies more[i] == rows.insert(
            at,
            (key, b),
        )[i] by {
            if i < at {
                assert(longer[i] == keys[i]);
                assert(keys.contains(keys[i]));
            } else if i > at {
                assert(longer[i] == keys[i - 1]);
                assert(keys.contains(keys[i - 1]));
            }
        }
        assert(more =~= rows.insert(at, (key, b)));
        lemma_rows_sum_insert(rows, at, (key, b), currency, layer, side);
    }
}

proof fn lemma_postings_add<const P: u8>(
    balances: Map<BalanceKey, Balance<P>>,
    postings: Seq<posting::Movement>,
    currency: Currency,
    layer: Layer,
    side: Direction,
)
    requires
        balance::listable(balances),
        fold_postings(balances, postings) is Ok,
    ensures
        ({
            let after = fold_postings(balances, postings)->Ok_0;
            &&& balance::listable(after)
            &&& rows_sum(balance::rows_of(after), currency, layer, side) == rows_sum(
                balance::rows_of(balances),
                currency,
                layer,
                side,
            ) + layer_sum(postings, currency, layer, side)
        }),
    decreases postings.len(),
{
    if postings.len() > 0 {
        lemma_postings_add(balances, postings.drop_last(), currency, layer, side);
        let before = fold_postings(balances, postings.drop_last())->Ok_0;
        lemma_movement_adds(before, postings.last(), currency, layer, side);
    }
}

/// The trial balance loses nothing: on each side, in every currency and layer,
/// its rows hold what the entries posted.
pub proof fn law_trial_balance_is_what_was_posted<const P: u8>(
    entries: Seq<entry::EntryFacts>,
    currency: Currency,
    layer: Layer,
    side: Direction,
)
    requires
        folded::<P>(entries) is Ok,
    ensures
        balance::listable(folded::<P>(entries)->Ok_0),
        rows_sum(balance::rows_of(folded::<P>(entries)->Ok_0), currency, layer, side) == posted(
            entries,
            currency,
            layer,
            side,
        ),
    decreases entries.len(),
{
    if entries.len() == 0 {
        let none = Map::<BalanceKey, Balance<P>>::empty();
        let keys = Seq::<BalanceKey>::empty();
        assert(ordered::lists_keys::<BalanceKey, Balance<P>>(none, keys));
        let sorted = ordered::sorted_keys::<BalanceKey, Balance<P>>(none);
        assert(ordered::lists_keys::<BalanceKey, Balance<P>>(none, sorted));
        if sorted.len() > 0 {
            assert(sorted.contains(sorted[0]));
            assert(none.contains_key(sorted[0]));
        }
    } else {
        let before = entries.drop_last();
        law_trial_balance_is_what_was_posted::<P>(before, currency, layer, side);
        lemma_postings_add(
            folded::<P>(before)->Ok_0,
            entries.last().postings,
            currency,
            layer,
            side,
        );
    }
}

proof fn lemma_layers_make_sides(
    postings: Seq<posting::Movement>,
    currency: Currency,
    side: Direction,
)
    ensures
        layer_sum(postings, currency, Layer::Settled, side) + layer_sum(
            postings,
            currency,
            Layer::Pending,
            side,
        ) == entry::side_sum(postings, currency@, side),
    decreases postings.len(),
{
    if postings.len() > 0 {
        lemma_layers_make_sides(postings.drop_last(), currency, side);
        let m = postings.last();
        if m.currency@ == currency@ {
            Currency::lemma_code_determines(m.currency, currency);
        }
    }
}

/// True when every entry balances: its debits equal its credits in each currency.
pub open spec fn entries_balance(entries: Seq<entry::EntryFacts>) -> bool {
    forall|i: int| 0 <= i < entries.len() ==> entry::balances((#[trigger] entries[i]).postings)
}

/// The total of some rows in one currency, settled and pending together, on one
/// side.
pub open spec fn currency_sum<const P: u8>(
    rows: Seq<(BalanceKey, Balance<P>)>,
    currency: Currency,
    side: Direction,
) -> int {
    rows_sum(rows, currency, Layer::Settled, side) + rows_sum(rows, currency, Layer::Pending, side)
}

/// The books balance: where every entry balances, the debits of the whole trial
/// balance equal its credits in every currency, settled and pending together.
pub proof fn law_books_balance<const P: u8>(entries: Seq<entry::EntryFacts>, currency: Currency)
    requires
        folded::<P>(entries) is Ok,
        entries_balance(entries),
    ensures
        ({
            let rows = balance::rows_of(folded::<P>(entries)->Ok_0);
            currency_sum(rows, currency, Direction::Debit) == currency_sum(
                rows,
                currency,
                Direction::Credit,
            )
        }),
{
    law_trial_balance_is_what_was_posted::<P>(
        entries,
        currency,
        Layer::Settled,
        Direction::Debit,
    );
    law_trial_balance_is_what_was_posted::<P>(
        entries,
        currency,
        Layer::Pending,
        Direction::Debit,
    );
    law_trial_balance_is_what_was_posted::<P>(
        entries,
        currency,
        Layer::Settled,
        Direction::Credit,
    );
    law_trial_balance_is_what_was_posted::<P>(
        entries,
        currency,
        Layer::Pending,
        Direction::Credit,
    );
    lemma_posted_balances(entries, currency);
}

proof fn lemma_posted_balances(entries: Seq<entry::EntryFacts>, currency: Currency)
    requires
        entries_balance(entries),
    ensures
        posted(entries, currency, Layer::Settled, Direction::Debit) + posted(
            entries,
            currency,
            Layer::Pending,
            Direction::Debit,
        ) == posted(entries, currency, Layer::Settled, Direction::Credit) + posted(
            entries,
            currency,
            Layer::Pending,
            Direction::Credit,
        ),
    decreases entries.len(),
{
    if entries.len() > 0 {
        let before = entries.drop_last();
        assert forall|i: int| 0 <= i < before.len() implies entry::balances(
            (#[trigger] before[i]).postings,
        ) by {
            assert(before[i] == entries[i]);
        }
        lemma_posted_balances(before, currency);
        let last = entries[entries.len() - 1].postings;
        assert(entry::balances(last));
        lemma_layers_make_sides(last, currency, Direction::Debit);
        lemma_layers_make_sides(last, currency, Direction::Credit);
        assert(entry::side_sum(last, currency@, Direction::Debit) == entry::side_sum(
            last,
            currency@,
            Direction::Credit,
        ));
    }
}

/// True when debits equal credits in every currency and layer.
pub open spec fn balances_by_layer(postings: Seq<posting::Movement>) -> bool {
    forall|currency: Currency, layer: Layer|
        #[trigger] layer_sum(postings, currency, layer, Direction::Debit) == layer_sum(
            postings,
            currency,
            layer,
            Direction::Credit,
        )
}

/// Totals that do not overflow are the sums of the rows.
pub proof fn lemma_total_is_sum<const P: u8>(
    rows: Seq<(BalanceKey, Balance<P>)>,
    currency: Currency,
    layer: Layer,
)
    requires
        balance::rows_total(rows, currency, layer) is Ok,
    ensures
        ({
            let total = balance::rows_total(rows, currency, layer)->Ok_0;
            &&& total.debits.minor == rows_sum(rows, currency, layer, Direction::Debit)
            &&& total.credits.minor == rows_sum(rows, currency, layer, Direction::Credit)
        }),
    decreases rows.len(),
{
    if rows.len() > 0 {
        lemma_total_is_sum(rows.drop_last(), currency, layer);
    }
}

/// Recording keeps every entry balanced: a draft that is appended to entries that
/// balance balances too.
pub proof fn law_recorded_entries_balance<const P: u8>(
    accounts: Seq<account::AccountFacts>,
    periods: Map<Seq<char>, period::PeriodFacts>,
    policy: entry::PolicyFacts,
    entries: Seq<entry::EntryFacts>,
    e: entry::EntryFacts,
)
    requires
        entries_balance(entries),
        draft_outcome::<P>(accounts, periods, policy, entries, e) is Appended,
    ensures
        entries_balance(entries.push(e)),
{
    entry::law_validated_entries_balance::<P>(e, accounts, periods, policy);
    assert forall|i: int| 0 <= i < entries.push(e).len() implies entry::balances(
        (#[trigger] entries.push(e)[i]).postings,
    ) by {
        if i < entries.len() {
            assert(entries.push(e)[i] == entries[i]);
        }
    }
}

/// Where every entry balances in each layer by itself, so does the trial balance:
/// no total in any currency and layer that can be formed is out of balance.
pub proof fn law_layers_balance<const P: u8>(
    entries: Seq<entry::EntryFacts>,
    currency: Currency,
    layer: Layer,
)
    requires
        folded::<P>(entries) is Ok,
        forall|i: int|
            0 <= i < entries.len() ==> balances_by_layer((#[trigger] entries[i]).postings),
    ensures
        balance::rows_total(
            balance::rows_of(folded::<P>(entries)->Ok_0),
            currency,
            layer,
        ) matches Ok(total) ==> total.debits.minor == total.credits.minor,
{
    law_trial_balance_is_what_was_posted::<P>(entries, currency, layer, Direction::Debit);
    law_trial_balance_is_what_was_posted::<P>(entries, currency, layer, Direction::Credit);
    lemma_posted_by_layer(entries, currency, layer);
    let rows = balance::rows_of(folded::<P>(entries)->Ok_0);
    if balance::rows_total(rows, currency, layer) is Ok {
        lemma_total_is_sum(rows, currency, layer);
    }
}

proof fn lemma_posted_by_layer(
    entries: Seq<entry::EntryFacts>,
    currency: Currency,
    layer: Layer,
)
    requires
        forall|i: int|
            0 <= i < entries.len() ==> balances_by_layer((#[trigger] entries[i]).postings),
    ensures
        posted(entries, currency, layer, Direction::Debit) == posted(
            entries,
            currency,
            layer,
            Direction::Credit,
        ),
    decreases entries.len(),
{
    if entries.len() > 0 {
        let before = entries.drop_last();
        assert forall|i: int| 0 <= i < before.len() implies balances_by_layer(
            (#[trigger] before[i]).postings,
        ) by {
            assert(before[i] == entries[i]);
        }
        lemma_posted_by_layer(before, currency, layer);
        let last = entries[entries.len() - 1].postings;
        assert(balances_by_layer(last));
        assert(layer_sum(last, currency, layer, Direction::Debit) == layer_sum(
            last,
            currency,
            layer,
            Direction::Credit,
        ));
    }
}

} // verus!
