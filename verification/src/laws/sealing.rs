//! What seals, checkpoints and assertions are worth.

use crate::account;
use crate::balance::{self, Balance, BalanceKey};
use crate::books::{self, Books};
use crate::checkpoint::{self, AssertAt, AssertionOutcome, Checkpoint, CheckpointError};
use crate::entry;
use crate::hash::{self, Digest};
use crate::journal::{self, JournalError};
use crate::laws::reading;
use crate::merkle;
use crate::money::{Amount, MoneyError};
use crate::posting::{self, Direction};
use crate::seal::{self, ChainFault, SealFacts, SealedBalanceError, SealedBalanceOutcome};
use vstd::prelude::*;
use vstd::utf8::*;

verus! {

// ── chains of seals ─────────────────────────────────────────────────────────

/// True when a seal may follow what stands before it: its hash is that of its
/// contents, and it begins the chain without naming a predecessor, or continues the
/// ledger, names the seal before it, and covers no smaller log.
pub open spec fn may_follow(previous: Option<SealFacts>, s: SealFacts) -> bool {
    &&& s.seal_hash == seal::seal_digest(s)
    &&& match previous {
        None => s.prev_seal is None,
        Some(before) => {
            &&& s.ledger == before.ledger
            &&& s.prev_seal == Some(before.seal_hash)
            &&& before.tree_head.size <= s.tree_head.size
        },
    }
}

/// A seal is accepted after another exactly when it may follow it; otherwise the
/// fault found holds of it.
pub proof fn law_seals_are_accepted_exactly_when_they_follow(
    previous: Option<SealFacts>,
    s: SealFacts,
)
    ensures
        seal::link_fault(previous, s) is None <==> may_follow(previous, s),
        match seal::link_fault(previous, s) {
            None => true,
            Some(ChainFault::Tampered { period }) => period == s.period && s.seal_hash
                != seal::seal_digest(s),
            Some(ChainFault::ForeignLedger { period, expected, found }) => {
                &&& period == s.period
                &&& found == s.ledger
                &&& previous matches Some(before) && before.ledger == expected
                &&& expected != found
            },
            Some(ChainFault::MisplacedGenesis { period }) => period == s.period && (previous is None
                <==> s.prev_seal is Some),
            Some(ChainFault::BrokenChain { period }) => {
                &&& period == s.period
                &&& previous matches Some(before) && s.prev_seal is Some && s.prev_seal != Some(
                    before.seal_hash,
                )
            },
            Some(ChainFault::NonMonotonic { period }) => {
                &&& period == s.period
                &&& previous matches Some(before) && s.tree_head.size < before.tree_head.size
            },
        },
{
}

/// A chain of seals is intact exactly when each seal may follow the one before it,
/// and the first may stand first.
pub proof fn law_chains_are_intact_link_by_link(seals: Seq<SealFacts>)
    ensures
        seal::chain_fault(seals) is None <==> {
            &&& seals.len() > 0 ==> may_follow(None, seals[0])
            &&& forall|i: int|
                0 < i < seals.len() ==> may_follow(Some(seals[i - 1]), #[trigger] seals[i])
        },
    decreases seals.len(),
{
    if seals.len() > 0 {
        let fewer = seals.drop_last();
        law_chains_are_intact_link_by_link(fewer);
        law_seals_are_accepted_exactly_when_they_follow(seal::last_of(fewer), seals.last());
        let n = seals.len() - 1;
        assert(forall|i: int| 0 <= i < fewer.len() ==> fewer[i] == seals[i]);
        if seal::chain_fault(seals) is None {
            assert forall|i: int| 0 < i < seals.len() implies may_follow(
                Some(seals[i - 1]),
                #[trigger] seals[i],
            ) by {
                if i < n {
                    assert(may_follow(Some(fewer[i - 1]), fewer[i]));
                }
            }
        }
        if (may_follow(None, seals[0]) && forall|i: int|
            0 < i < seals.len() ==> may_follow(Some(seals[i - 1]), #[trigger] seals[i])) {
            assert forall|i: int| 0 < i < fewer.len() implies may_follow(
                Some(fewer[i - 1]),
                #[trigger] fewer[i],
            ) by {
                assert(may_follow(Some(seals[i - 1]), seals[i]));
            }
            if n > 0 {
                assert(may_follow(Some(seals[n - 1]), seals[n]));
            }
        }
    }
}

/// The seal of a period is the first that names it, and there is none exactly when
/// no seal does.
pub proof fn law_a_period_has_the_first_seal_that_names_it(
    seals: Seq<SealFacts>,
    period: Seq<char>,
)
    ensures
        match seal::seal_of(seals, period) {
            Some(k) => 0 <= k < seals.len() && seals[k].period == period && forall|i: int|
                0 <= i < k ==> (#[trigger] seals[i]).period != period,
            None => forall|i: int| 0 <= i < seals.len() ==> (#[trigger] seals[i]).period != period,
        },
    decreases seals.len(),
{
    if seals.len() > 0 {
        let fewer = seals.drop_last();
        law_a_period_has_the_first_seal_that_names_it(fewer, period);
        assert(forall|i: int| 0 <= i < fewer.len() ==> fewer[i] == seals[i]);
        if seal::seal_of(fewer, period) is None {
            assert forall|i: int| 0 <= i < seals.len() - 1 implies (#[trigger] seals[i]).period
                != period by {
                assert(fewer[i].period != period);
            }
        } else {
            let k = seal::seal_of(fewer, period)->0;
            assert forall|i: int| 0 <= i < k implies (#[trigger] seals[i]).period != period by {
                assert(fewer[i].period != period);
            }
        }
    }
}

// ── what a sealed period closed at ──────────────────────────────────────────

/// What was booked through a day.
pub open spec fn booked_through(entries: Seq<entry::EntryFacts>, day: int) -> Seq<
    entry::EntryFacts,
> {
    entries.filter(|e: entry::EntryFacts| e.booking_date@ <= day)
}

/// What a journal answers about a sealed period is so. A proven balance is what was
/// posted on the key through the end of the period, under the seal of the period,
/// and of the account that held the handle when it was sealed; no row means that
/// nothing was posted on it; and an account is not yet registered when its handle
/// had not been issued.
pub proof fn law_sealed_balances_are_what_was_posted<const P: u8>(
    books: Books<P>,
    period: Seq<char>,
    key: BalanceKey,
    r: Result<SealedBalanceOutcome<P>, JournalError>,
)
    requires
        journal::answers_sealed_balance(books, period, key, r),
        books.sealed_accounts.len() == books.seals.len(),
        forall|i: int|
            0 <= i < books.sealed_accounts.len() ==> (#[trigger] books.sealed_accounts[i]).len()
                <= u32::MAX,
    ensures
        ({
            let through = booked_through(books.entries, books.periods[period].end@);
            match r {
                Ok(SealedBalanceOutcome::Proven(proven)) => {
                    &&& exists|k: int|
                        0 <= k < books.seals.len() && (#[trigger] books.seals[k]).period == period
                            && proven.seal@ == books.seals[k] && key.account.position
                            < books.sealed_accounts[k].len() && proven.account.record@.account
                            == books.sealed_accounts[k][key.account.position as int]
                    &&& proven.account.record@.id == key.account
                    &&& proven.balance.key == key
                    &&& reading::ever_moved(through, key)
                    &&& proven.balance.balance.debits.minor == reading::booked_on(
                        through,
                        key,
                        Direction::Debit,
                    )
                    &&& proven.balance.balance.credits.minor == reading::booked_on(
                        through,
                        key,
                        Direction::Credit,
                    )
                    &&& proven.seal@.seal_hash == seal::seal_digest(proven.seal@)
                },
                Ok(SealedBalanceOutcome::NoRow) => !reading::ever_moved(through, key) && exists|k: int|
                    0 <= k < books.seals.len() && (#[trigger] books.seals[k]).period == period
                        && key.account.position < books.sealed_accounts[k].len(),
                Ok(SealedBalanceOutcome::NotYetRegistered) => exists|k: int|
                    0 <= k < books.seals.len() && (#[trigger] books.seals[k]).period == period
                        && key.account.position >= books.sealed_accounts[k].len(),
                Err(JournalError::SealedBalance(SealedBalanceError::NotSealed { period: named })) =>
                    named@ == period && forall|k: int|
                    0 <= k < books.seals.len() ==> (#[trigger] books.seals[k]).period != period,
                Err(JournalError::SealedBalance(SealedBalanceError::UndefinedPeriod {
                    period: named,
                })) => named@ == period && !books.periods.contains_key(period),
                Err(JournalError::SealedBalance(SealedBalanceError::Restated { period: named })) =>
                    named@ == period && exists|k: int|
                    0 <= k < books.seals.len() && (#[trigger] books.seals[k]).period == period
                        && seal::balances_root(books::folded::<P>(through)->Ok_0)
                        != books.seals[k].trial_balance_root,
                Err(JournalError::Money(_)) => books::folded::<P>(through) is Err,
                Err(_) => false,
            }
        }),
{
    law_a_period_has_the_first_seal_that_names_it(books.seals, period);
    let day = books.periods[period].end@;
    reading::law_through_a_day_is_by_booking_date(books.entries, day);
    let through = booked_through(books.entries, day);
    assert(through == books::through(books.entries, day));
    if books::folded::<P>(through) is Ok {
        reading::law_balances_are_what_was_posted::<P>(through, key);
    }
}

// ── checkpoints and assertions ──────────────────────────────────────────────

/// A checkpoint holds exactly when it covers no more entries than there are, its
/// head is that of the content of the first so many, and its balance is what they
/// posted on its key.
pub proof fn law_checkpoints_hold_exactly_when_true<const P: u8>(
    entries: Seq<entry::EntryFacts>,
    c: Checkpoint<P>,
)
    requires
        books::folded::<P>(entries) is Ok,
        entries.len() <= u64::MAX,
    ensures
        ({
            let size = c.tree_head.size as int;
            let first = entries.take(size);
            let root = merkle::root_of(
                Seq::new(size as nat, |i: int| entry::entry_hash(P, entries[i])),
            );
            let balanced = c.balance.debits.minor == reading::booked_on(
                first,
                c.key,
                Direction::Debit,
            ) && c.balance.credits.minor == reading::booked_on(first, c.key, Direction::Credit);
            match journal::checkpoint_fault(entries, c) {
                None => size <= entries.len() && c.tree_head.root == root && balanced,
                Some(CheckpointError::SizeOutOfRange { size: named }) => named == size && size
                    > entries.len(),
                Some(CheckpointError::HeadMismatch) => size <= entries.len() && c.tree_head.root
                    != root,
                Some(CheckpointError::BalanceMismatch) => size <= entries.len()
                    && c.tree_head.root == root && !balanced,
                Some(_) => false,
            }
        }),
{
    let size = c.tree_head.size as int;
    if size <= entries.len() {
        let first = entries.take(size);
        let hashes = books::content_hashes(P, entries).take(size);
        assert(hashes =~= Seq::new(size as nat, |i: int| entry::entry_hash(P, entries[i])));
        assert(hashes.len() == size);
        books::lemma_prefix_adds_up::<P>(entries, size);
        reading::law_a_prefix_is_the_first_entries(entries, c.tree_head.size);
        reading::law_balances_are_what_was_posted::<P>(first, c.key);
    }
}

proof fn lemma_one_key<const P: u8>(
    b: Balance<P>,
    movements: Seq<posting::Movement>,
    key: BalanceKey,
)
    requires
        books::fold_movements(b, movements) is Ok,
        forall|i: int|
            0 <= i < movements.len() ==> balance::key_of_movement(#[trigger] movements[i]) == key,
    ensures
        ({
            let after = books::fold_movements(b, movements)->Ok_0;
            &&& after.debits.minor == b.debits.minor + reading::moved_on(
                movements,
                key,
                Direction::Debit,
            )
            &&& after.credits.minor == b.credits.minor + reading::moved_on(
                movements,
                key,
                Direction::Credit,
            )
        }),
    decreases movements.len(),
{
    if movements.len() > 0 {
        let fewer = movements.drop_last();
        assert forall|i: int| 0 <= i < fewer.len() implies balance::key_of_movement(
            #[trigger] fewer[i],
        ) == key by {
            assert(fewer[i] == movements[i]);
        }
        lemma_one_key(b, fewer, key);
        assert(balance::key_of_movement(movements[movements.len() - 1]) == key);
    }
}

proof fn lemma_moved_joins(
    a: Seq<posting::Movement>,
    b: Seq<posting::Movement>,
    key: BalanceKey,
    side: Direction,
)
    ensures
        reading::moved_on(a + b, key, side) == reading::moved_on(a, key, side) + reading::moved_on(
            b,
            key,
            side,
        ),
    decreases b.len(),
{
    if b.len() == 0 {
        assert(a + b =~= a);
    } else {
        lemma_moved_joins(a, b.drop_last(), key, side);
        assert((a + b).drop_last() =~= a + b.drop_last());
    }
}

proof fn lemma_moved_of_entry(postings: Seq<posting::Movement>, key: BalanceKey, side: Direction)
    ensures
        reading::moved_on(books::entry_movements(postings, key), key, side) == reading::moved_on(
            postings,
            key,
            side,
        ),
        forall|i: int|
            0 <= i < books::entry_movements(postings, key).len() ==> balance::key_of_movement(
                #[trigger] books::entry_movements(postings, key)[i],
            ) == key,
    decreases postings.len(),
{
    if postings.len() > 0 {
        let fewer = postings.drop_last();
        lemma_moved_of_entry(fewer, key, side);
        let before = books::entry_movements(fewer, key);
        let all = books::entry_movements(postings, key);
        if balance::key_of_movement(postings.last()) == key {
            assert(all.drop_last() =~= before);
            assert forall|i: int| 0 <= i < all.len() implies balance::key_of_movement(
                #[trigger] all[i],
            ) == key by {
                if i < before.len() {
                    assert(all[i] == before[i]);
                }
            }
        }
    }
}

proof fn lemma_moved_of_entries(entries: Seq<entry::EntryFacts>, key: BalanceKey, side: Direction)
    ensures
        reading::moved_on(books::movements_on(entries, key), key, side) == reading::booked_on(
            entries,
            key,
            side,
        ),
        forall|i: int|
            0 <= i < books::movements_on(entries, key).len() ==> balance::key_of_movement(
                #[trigger] books::movements_on(entries, key)[i],
            ) == key,
    decreases entries.len(),
{
    if entries.len() > 0 {
        let fewer = entries.drop_last();
        lemma_moved_of_entries(fewer, key, side);
        let last = entries.last().postings;
        lemma_moved_of_entry(last, key, side);
        let (a, b) = (books::movements_on(fewer, key), books::entry_movements(last, key));
        lemma_moved_joins(a, b, key, side);
        assert forall|i: int| 0 <= i < (a + b).len() implies balance::key_of_movement(
            #[trigger] (a + b)[i],
        ) == key by {
            if i < a.len() {
                assert((a + b)[i] == a[i]);
            } else {
                assert((a + b)[i] == b[i - a.len()]);
            }
        }
    }
}

/// The entries that a point in the books takes in: all of them, the first so many,
/// or those booked through a day.
pub open spec fn taken_in(entries: Seq<entry::EntryFacts>, at: AssertAt) -> Seq<
    entry::EntryFacts,
> {
    match at {
        AssertAt::Now => entries,
        AssertAt::Prefix { size } => if size < entries.len() {
            entries.take(size as int)
        } else {
            entries
        },
        AssertAt::OnDate { date } => booked_through(entries, date@),
    }
}

/// An assertion is about what was posted on its key by the entries that its point
/// in the books takes in.
pub proof fn law_assertions_are_about_what_was_posted<const P: u8>(
    entries: Seq<entry::EntryFacts>,
    key: BalanceKey,
    at: AssertAt,
)
    requires
        books::folded::<P>(entries) is Ok,
        journal::asserted_balance::<P>(entries, key, at) is Ok,
    ensures
        ({
            let b = journal::asserted_balance::<P>(entries, key, at)->Ok_0;
            &&& b.debits.minor == reading::booked_on(taken_in(entries, at), key, Direction::Debit)
            &&& b.credits.minor == reading::booked_on(
                taken_in(entries, at),
                key,
                Direction::Credit,
            )
        }),
{
    let some = taken_in(entries, at);
    match at {
        AssertAt::Now => {
            reading::law_balances_are_what_was_posted::<P>(some, key);
        },
        AssertAt::Prefix { size } => {
            if size < entries.len() {
                books::lemma_prefix_adds_up::<P>(entries, size as int);
            }
            reading::law_balances_are_what_was_posted::<P>(some, key);
        },
        AssertAt::OnDate { date } => {
            reading::law_through_a_day_is_by_booking_date(entries, date@);
            lemma_moved_of_entries(some, key, Direction::Debit);
            lemma_moved_of_entries(some, key, Direction::Credit);
            lemma_one_key(balance::zero_balance::<P>(), books::movements_on(some, key), key);
        },
    }
}

/// An assertion holds exactly when debits less credits are what was expected. When
/// it fails it says what was found and by how much that exceeds what was expected.
pub proof fn law_assertions_compare_nets<const P: u8>(expected: Amount<P>, actual: Balance<P>)
    ensures
        ({
            let net = actual.debits.minor - actual.credits.minor;
            match checkpoint::outcome_of(expected, actual) {
                Ok(AssertionOutcome::Held { actual: shown }) => shown == actual && net
                    == expected.minor,
                Ok(AssertionOutcome::Failed { expected: asked, actual: found, difference }) => {
                    &&& asked == expected
                    &&& found.minor == net
                    &&& difference.minor == found.minor - expected.minor
                    &&& net != expected.minor
                },
                Err(e) => e == MoneyError::Overflow && !(i64::MIN <= net <= i64::MAX && i64::MIN
                    <= net - expected.minor <= i64::MAX),
            }
        }),
{
}

// ── trees ───────────────────────────────────────────────────────────────────

/// `2^e`.
pub open spec fn two_to(e: nat) -> nat
    decreases e,
{
    if e == 0 {
        1
    } else {
        2 * two_to((e - 1) as nat)
    }
}

proof fn lemma_power(k: nat) -> (e: nat)
    requires
        merkle::is_power_of_two(k),
    ensures
        k == two_to(e),
    decreases k,
{
    if k == 1 {
        0
    } else {
        let e = lemma_power(k / 2);
        e + 1
    }
}

proof fn lemma_powers_apart(a: nat, b: nat)
    requires
        a < b,
    ensures
        2 * two_to(a) <= two_to(b),
        two_to(a) >= 1,
    decreases b,
{
    if a + 1 < b {
        lemma_powers_apart(a, (b - 1) as nat);
    } else {
        lemma_at_least_one(a);
    }
}

proof fn lemma_at_least_one(a: nat)
    ensures
        two_to(a) >= 1,
    decreases a,
{
    if a > 0 {
        lemma_at_least_one((a - 1) as nat);
    }
}

/// The root over payloads is a hash tree: the root of none and
/// of one are tagged hashes of their own, and the root of more joins, left then
/// right, the root of as many as the largest power of two below their number and the
/// root of the rest.
pub proof fn law_roots_split_at_the_largest_power_of_two(leaves: Seq<Digest>, e: nat)
    requires
        leaves.len() >= 2 ==> two_to(e) < leaves.len() <= 2 * two_to(e),
    ensures
        leaves.len() == 0 ==> merkle::root_of(leaves) == hash::tagged_hash(
            encode_utf8("doubleentry/merkle/empty/v1"@),
            Seq::empty(),
        ),
        leaves.len() == 1 ==> merkle::root_of(leaves) == hash::tagged_hash(
            encode_utf8("doubleentry/merkle/leaf/v1"@),
            leaves[0]@,
        ),
        leaves.len() >= 2 ==> merkle::root_of(leaves) == hash::tagged_hash(
            encode_utf8("doubleentry/merkle/node/v1"@),
            merkle::root_of(leaves.take(two_to(e) as int))@ + merkle::root_of(
                leaves.skip(two_to(e) as int),
            )@,
        ),
{
    let n = leaves.len();
    if n >= 2 {
        merkle::lemma_split(n);
        let k = merkle::split(n);
        let f = lemma_power(k);
        if f < e {
            lemma_powers_apart(f, e);
        } else if e < f {
            lemma_powers_apart(e, f);
        }
        assert(k == two_to(e));
        let nodes = merkle::leaf_nodes(leaves);
        assert(nodes.take(k as int) =~= merkle::leaf_nodes(leaves.take(k as int)));
        assert(nodes.skip(k as int) =~= merkle::leaf_nodes(leaves.skip(k as int)));
    } else if n == 1 {
        assert(merkle::leaf_nodes(leaves)[0] == merkle::leaf_node(leaves[0]));
    }
}

/// A head is the number of payloads and their root.
pub proof fn law_heads_count_their_leaves(leaves: Seq<Digest>)
    requires
        leaves.len() <= u64::MAX,
    ensures
        merkle::head_of(leaves).size == leaves.len(),
        merkle::head_of(leaves).root == merkle::root_of(leaves),
{
}

} // verus!
