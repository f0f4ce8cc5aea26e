//! The in-memory journal.
//!
//! A journal is one entity's books: its accounts, its calendar, its policy, its
//! entries in append order, the Merkle log that commits to them, its seals and
//! its clearings. It holds all of that together because every one of those
//! pieces is needed to decide whether the next booking is legal, and splitting
//! them across the caller's own variables is how they drift apart.
//!
//! It has no storage. It is the semantics a durable store is expected to agree
//! with, the substrate for deterministic testing, and — for a process that does
//! not need durability — a usable ledger on its own.
//!
//! # Idempotency
//!
//! Recording is keyed by [`IdempotencyKey`]. Submitting the same key twice with
//! byte-identical content is a no-op that returns the original outcome, which is
//! what makes a retry safe across an at-least-once delivery path. Submitting the
//! same key with different content is a conflict and is refused — never a silent
//! overwrite, and never a second entry.
//!
//! # Cost
//!
//! Balances and per-account posting lists are maintained as entries arrive, so
//! reading the current trial balance, one account's balance, or one account's
//! statement costs what the answer costs and not what the history costs. Asking
//! for a *historical* state — a balance as of an earlier log position — replays
//! that account's postings up to the position, which is linear in the postings
//! on that account rather than in the journal.

use crate::account::{self, AccountId, AccountRecord, AccountRegistry, BalanceLimit};
use crate::balance::{self, Balance, BalanceKey, TrialBalance};
use crate::books::{self, Books};
use crate::checkpoint::{
    self, AssertAt, AssertionOutcome, BalanceAssertion, Checkpoint, CheckpointError,
};
use crate::clearing::{
    self, Clearing, ClearingError, ClearingId, ClearingRegister, OpenItem, PostingLookup,
    PostingPosition, PostingRef,
};
use crate::date::Date;
use crate::entry::{
    self, Balanced, Draft, Entry, EntryId, IdempotencyKey, LedgerPolicy, SealContext,
    ValidationErrors,
};
use crate::hash::{self, Digest};
use crate::laws;
use crate::merkle::{
    self, ConsistencyProof, InclusionProof, MerkleLog, ProofError, TreeHead,
};
use crate::money::{Currency, MoneyError};
use crate::ordered::SortedMap;
use crate::period::{self, LedgerId, Period, PeriodCalendar, PeriodError, PeriodId, PeriodState};
use crate::posting::{self, Layer, Posting};
use crate::seal::{
    self, PeriodCoverage, Seal, SealChain, SealChainError, SealedBalance, SealedBalanceError,
    SealedBalanceOutcome,
};
use crate::storage::{self, StatementLine};
use crate::text::{self, push_decimal};
use vstd::prelude::*;

verus! {

/// Position of an entry in the journal.
///
/// Ordering is by log index rather than by timestamp: a wall clock is neither
/// monotonic nor agreed between writers, and the index is both.
#[derive(Debug, Clone, Copy, PartialEq, Eq, Structural, PartialOrd, Ord, Hash)]
pub struct LogIndex {
    /// The zero-based position.
    pub position: u64,
}

impl LogIndex {
    /// Wraps a raw index.
    #[must_use]
    pub fn new(index: u64) -> (i: Self)
        ensures
            i.position == index,
    {
        LogIndex { position: index }
    }

    /// The underlying index.
    #[must_use]
    pub fn get(self) -> (index: u64)
        ensures
            index == self.position,
    {
        self.position
    }

    /// The index as text.
    #[must_use]
    pub fn to_string(&self) -> (s: String)
        ensures
            s@ == text::decimal(self.position as nat),
    {
        let mut s: String = String::new();
        push_decimal(&mut s, self.position);
        assert(s@ =~= text::decimal(self.position as nat));
        s
    }
}

impl From<u64> for LogIndex {
    fn from(index: u64) -> (i: Self) {
        LogIndex { position: index }
    }
}

impl vstd::std_specs::convert::FromSpecImpl<u64> for LogIndex {
    open spec fn obeys_from_spec() -> bool {
        true
    }

    open spec fn from_spec(index: u64) -> LogIndex {
        LogIndex { position: index }
    }
}

/// The result of recording an entry.
#[derive(Debug, Clone, Copy, PartialEq, Eq)]
pub struct Recorded {
    /// The entry's identifier.
    pub id: EntryId,
    /// Where it sits in the log, once it has been sequenced.
    ///
    /// `None` means the entry is durable and idempotency-checked but not yet
    /// assigned a position — a backend that sequences out of band returns this
    /// until its sequencer has run. Backends that sequence inline always return
    /// `Some`.
    ///
    /// The distinction is not an implementation leak. It is the difference
    /// between *recorded* and *committed to*: an entry with no index is safe
    /// from loss but cannot yet be proven to sit anywhere in particular.
    pub index: Option<LogIndex>,
    /// Its content hash.
    pub content_hash: Digest,
    /// False when an identical submission had already been recorded.
    pub is_new: bool,
}

impl Recorded {
    /// The log position, or an error naming the entry that has none yet.
    pub fn require_index(&self) -> (r: Result<LogIndex, NotSequenced>)
        ensures
            r == (match self.index {
                Some(index) => Ok(index),
                None => Err(NotSequenced { id: self.id }),
            }),
    {
        match self.index {
            Some(index) => Ok(index),
            None => Err(NotSequenced { id: self.id }),
        }
    }
}

/// An entry was expected to have a log position and did not.
#[derive(Debug, Clone, Copy, PartialEq, Eq, Structural)]
pub struct NotSequenced {
    /// The entry without a position.
    pub id: EntryId,
}

/// Failure recording an entry.
#[derive(Debug, PartialEq, Eq)]
#[allow(inconsistent_fields)]
#[non_exhaustive]
pub enum JournalError {
    /// The entry did not pass validation.
    Invalid(ValidationErrors),
    /// The idempotency key was reused with different content.
    IdempotencyConflict {
        /// The entry already holding the key.
        existing: EntryId,
        /// Content hash of the stored entry.
        stored: Digest,
        /// Content hash of the submission.
        submitted: Digest,
    },
    /// The entry identifier was already used.
    DuplicateId {
        /// The offending identifier.
        id: EntryId,
    },
    /// A reversal referenced an entry that is not in the journal.
    UnknownOriginal {
        /// The referenced identifier.
        id: EntryId,
    },
    /// The referenced entry has already been reversed.
    AlreadyReversed {
        /// The entry being reversed.
        id: EntryId,
        /// The reversal already on file.
        by: EntryId,
    },
    /// A reversal was aimed at another reversal.
    ReversalOfReversal {
        /// The offending identifier.
        id: EntryId,
    },
    /// An entry claiming to reverse another does not actually invert it.
    ///
    /// Postings must correspond one-to-one *in order*, which is what
    /// [`crate::entry::Entry::reverse`] produces. Building a reversal by hand
    /// and reordering its postings is refused rather than matched heuristically:
    /// a rule that guesses is a rule an auditor cannot check.
    NotAnInversion {
        /// The entry it claims to reverse.
        id: EntryId,
    },
    /// The entry would leave an account on a side its limit forbids.
    ///
    /// The net is reported in minor units at `scale`, so the variant stays
    /// independent of the ledger's compile-time precision.
    LimitBreached {
        /// The account whose limit would be breached.
        account: AccountId,
        /// The currency the limit was breached in.
        currency: Currency,
        /// The layer the limit was breached in.
        layer: Layer,
        /// The limit in force.
        limit: BalanceLimit,
        /// The signed net the entry would leave, debit positive, in minor units.
        net_minor: i64,
        /// Decimal places the minor units are expressed in.
        scale: u8,
    },
    /// Accumulating balances overflowed.
    Money(MoneyError),
    /// A clearing was refused.
    Clearing(ClearingError),
    /// The calendar refused a period operation.
    ///
    /// Covers the sealing preconditions too — that the period is defined, is
    /// closing, and is next in date order. Those are questions about the
    /// calendar, and [`crate::period::PeriodCalendar::check_sealable`] is the
    /// one place they are answered.
    Period(PeriodError),
    /// The seal did not chain onto the existing ones.
    Seal(SealChainError),
    /// A sealed balance could not be proven.
    SealedBalance(SealedBalanceError),
}

/// True when an error reports why an entry is refused.
pub open spec fn reports<const P: u8>(e: JournalError, refusal: books::Refusal) -> bool {
    match refusal {
        books::Refusal::Invalid { violations } => {
            e matches JournalError::Invalid(errors) && errors@ == violations
        },
        books::Refusal::IdempotencyConflict { existing, stored, submitted } => {
            e == (JournalError::IdempotencyConflict { existing, stored, submitted })
        },
        books::Refusal::DuplicateId { duplicate } => {
            e == (JournalError::DuplicateId { id: duplicate })
        },
        books::Refusal::UnknownOriginal { missing } => {
            e == (JournalError::UnknownOriginal { id: missing })
        },
        books::Refusal::AlreadyReversed { reversed, by } => {
            e == (JournalError::AlreadyReversed { id: reversed, by })
        },
        books::Refusal::ReversalOfReversal { reversal } => {
            e == (JournalError::ReversalOfReversal { id: reversal })
        },
        books::Refusal::NotAnInversion { original } => {
            e == (JournalError::NotAnInversion { id: original })
        },
        books::Refusal::LimitBreached { key, limit, net } => {
            &&& e matches JournalError::LimitBreached {
                account,
                currency,
                layer,
                limit: found,
                net_minor,
                scale,
            }
            &&& key == (BalanceKey { account, currency, layer })
            &&& found == limit
            &&& net_minor == net
            &&& scale == P
        },
        books::Refusal::Money { error } => e == JournalError::Money(error),
    }
}

// ── the journal ─────────────────────────────────────────────────────────────

/// An append-only journal of validated entries.
///
/// See the module documentation for what it owns and why.
#[derive(Debug)]
pub struct Journal<const P: u8> {
    ledger: LedgerId,
    accounts: AccountRegistry,
    calendar: PeriodCalendar,
    policy: LedgerPolicy,
    entries: Vec<Entry<Balanced, P>>,
    log: MerkleLog,
    by_id: SortedMap<EntryId, LogIndex>,
    by_key: SortedMap<IdempotencyKey, (EntryId, LogIndex, Digest)>,
    reversed_by: SortedMap<EntryId, EntryId>,
    /// Current balances, maintained as entries arrive.
    balances: TrialBalance<P>,
    /// Where each balance key's postings are, in log order.
    sites: SortedMap<BalanceKey, Vec<PostingPosition>>,
    seals: SealChain,
    /// The registry each seal was taken against.
    sealed_accounts: Vec<AccountRegistry>,
    clearings: ClearingRegister<P>,
}

/// What some entries say.
pub open spec fn entry_facts<const P: u8>(entries: Seq<Entry<Balanced, P>>) -> Seq<
    entry::EntryFacts,
> {
    entries.map_values(|e: Entry<Balanced, P>| e@)
}

/// The accounts of some registries.
pub open spec fn account_facts(registries: Seq<AccountRegistry>) -> Seq<
    Seq<account::AccountFacts>,
> {
    registries.map_values(|r: AccountRegistry| r@)
}

impl<const P: u8> View for Journal<P> {
    type V = Books<P>;

    closed spec fn view(&self) -> Books<P> {
        Books {
            ledger: self.ledger@,
            accounts: self.accounts@,
            periods: self.calendar@,
            policy: self.policy@,
            entries: entry_facts(self.entries@),
            seals: self.seals@,
            sealed_accounts: account_facts(self.sealed_accounts@),
            clearings: self.clearings@,
        }
    }
}

/// True when the seals of some books chain, name their ledger, cover no more
/// than their log, and commit to accounts that were kept with them.
pub open spec fn soundly_sealed<const P: u8>(books: Books<P>) -> bool {
    &&& seal::chain_fault(books.seals) is None
    &&& books.sealed_accounts.len() == books.seals.len()
    &&& forall|i: int|
        0 <= i < books.seals.len() ==> {
            &&& (#[trigger] books.seals[i]).ledger == books.ledger
            &&& books.seals[i].tree_head.size <= books.entries.len()
            &&& books.seals[i].accounts_root == account::commitment_of(
                books.sealed_accounts[i],
            ).root
        }
}

/// True when nothing is cleared beyond the posting it is cleared against.
pub open spec fn soundly_cleared<const P: u8>(books: Books<P>) -> bool {
    forall|reference: clearing::PostingRef| #[trigger]
        clearing::application_fits(
            books.clearings,
            books::postings_of(books.entries),
            reference,
        )
}

impl<const P: u8> Journal<P> {
    /// The log, the indexes, the balances and the lists of postings are those of
    /// the entries.
    spec fn indexed(&self) -> bool {
        let entries = self@.entries;
        &&& self.log.wf()
        &&& self.log@ == books::content_hashes(P, entries)
        &&& books::addressable(entries)
        &&& books::distinct_entries(entries)
        &&& books::indexes_ids(self.by_id@, entries)
        &&& books::indexes_keys(P, self.by_key@, entries)
        &&& books::indexes_reversals(self.reversed_by@, entries)
        &&& books::folded::<P>(entries) == Ok::<Map<BalanceKey, Balance<P>>, MoneyError>(
            self.balances@,
        )
        &&& self.balances.wf()
        &&& books::lists_sites(self.sites@, entries)
        &&& books::lists_no_idle_key(self.sites@)
    }

    /// Everything the journal keeps agrees with what was recorded, cleared and
    /// sealed.
    pub closed spec fn wf(&self) -> bool {
        &&& self.accounts.wf()
        &&& self.calendar.wf()
        &&& self.clearings.wf()
        &&& self.indexed()
        &&& soundly_sealed(self@)
        &&& soundly_cleared(self@)
        &&& forall|i: int|
            0 <= i < self.sealed_accounts@.len() ==> (#[trigger] self.sealed_accounts@[i]).wf()
    }

    /// Creates an empty journal for one ledger.
    ///
    /// A journal is one entity's books, not a shared table: the ledger it names
    /// is bound into every seal it produces, so seals from two journals can
    /// never be mistaken for one chain.
    ///
    /// It starts with no accounts, no periods, and a policy that constrains
    /// nothing. Register accounts before posting to them; define periods when
    /// you want to be able to seal them.
    #[must_use]
    pub fn new(ledger: LedgerId) -> (journal: Self)
        ensures
            journal.wf(),
            journal@ == (Books::<P> {
                ledger: ledger@,
                accounts: Seq::empty(),
                periods: Map::empty(),
                policy: entry::no_policy(),
                entries: Seq::empty(),
                seals: Seq::empty(),
                sealed_accounts: Seq::empty(),
                clearings: Seq::empty(),
            }),
    {
        let journal = Journal {
            ledger,
            accounts: AccountRegistry::new(),
            calendar: PeriodCalendar::new(),
            policy: LedgerPolicy::permissive(),
            entries: Vec::new(),
            log: MerkleLog::new(),
            by_id: SortedMap::new(),
            by_key: SortedMap::new(),
            reversed_by: SortedMap::new(),
            balances: TrialBalance::new(),
            sites: SortedMap::new(),
            seals: SealChain::new(),
            sealed_accounts: Vec::new(),
            clearings: ClearingRegister::new(),
        };
        proof {
            assert(journal@.entries =~= Seq::<entry::EntryFacts>::empty());
            assert(journal@.sealed_accounts =~= Seq::<Seq<account::AccountFacts>>::empty());
            assert(journal.log@ =~= books::content_hashes(P, journal@.entries));
            assert forall|key: BalanceKey| #[trigger] books::lists_sites_of(
                journal.sites@,
                journal@.entries,
                key,
            ) by {}
            assert forall|reference: clearing::PostingRef| #[trigger] clearing::application_fits(
                journal@.clearings,
                books::postings_of(journal@.entries),
                reference,
            ) by {
                assert(books::posting_at(journal@.entries, reference) is None);
            }
        }
        journal
    }

    /// Sets the ledger-wide policy.
    ///
    /// Applies to what is recorded next. It does not re-validate what is already
    /// recorded, and it must not: an entry that was legal when written stays
    /// readable forever.
    #[must_use]
    pub fn with_policy(self, policy: LedgerPolicy) -> (journal: Self)
        requires
            self.wf(),
        ensures
            journal.wf(),
            journal@ == (Books { policy: policy@, ..self@ }),
    {
        Journal { policy, ..self }
    }

    // ── master data ─────────────────────────────────────────────────────────

    /// The ledger these books belong to.
    #[must_use]
    pub fn ledger(&self) -> (ledger: &LedgerId)
        ensures
            ledger@ == self@.ledger,
    {
        &self.ledger
    }

    /// The accounts that may be posted to.
    #[must_use]
    pub fn accounts(&self) -> (accounts: &AccountRegistry)
        requires
            self.wf(),
        ensures
            accounts@ == self@.accounts,
            accounts.wf(),
    {
        &self.accounts
    }

    /// The account registry, for registering, closing, and reopening accounts.
    ///
    /// Master data is mutable while the journal is not: closing an account
    /// changes what may be booked next and never what was booked already.
    pub fn accounts_mut(&mut self) -> (accounts: &mut AccountRegistry)
        requires
            old(self).wf(),
        ensures
            accounts@ == old(self)@.accounts,
            accounts.wf(),
            final(self)@ == (Books { accounts: final(accounts)@, ..old(self)@ }),
            final(accounts).wf() ==> final(self).wf(),
    {
        &mut self.accounts
    }

    /// The period calendar.
    #[must_use]
    pub fn calendar(&self) -> (calendar: &PeriodCalendar)
        requires
            self.wf(),
        ensures
            calendar@ == self@.periods,
            calendar.wf(),
    {
        &self.calendar
    }

    /// The period calendar, for defining periods and moving them through their
    /// lifecycle.
    ///
    /// Sealing is [`Journal::seal_period`]'s job: it has to commit to the
    /// balances before the period's state changes, which a bare transition
    /// cannot do.
    pub fn calendar_mut(&mut self) -> (calendar: &mut PeriodCalendar)
        requires
            old(self).wf(),
        ensures
            calendar@ == old(self)@.periods,
            calendar.wf(),
            final(self)@ == (Books { periods: final(calendar)@, ..old(self)@ }),
            final(calendar).wf() ==> final(self).wf(),
    {
        &mut self.calendar
    }

    /// The ledger-wide policy.
    #[must_use]
    pub fn policy(&self) -> (policy: &LedgerPolicy)
        ensures
            policy@ == self@.policy,
    {
        &self.policy
    }

    /// Defines a period.
    pub fn define_period(&mut self, period: Period) -> (r: Result<(), JournalError>)
        requires
            old(self).wf(),
        ensures
            final(self).wf(),
            match r {
                Ok(_) => {
                    &&& period::admits(old(self)@.periods, period@)
                    &&& final(self)@ == (Books {
                        periods: old(self)@.periods.insert(period@.id, period@),
                        ..old(self)@
                    })
                },
                Err(e) => {
                    &&& !period::admits(old(self)@.periods, period@)
                    &&& e matches JournalError::Period(cause)
                    &&& period::refuses_period(old(self)@.periods, period@, cause)
                    &&& final(self)@ == old(self)@
                },
            },
    {
        match self.calendar.define(period) {
            Ok(()) => Ok(()),
            Err(e) => Err(JournalError::Period(e)),
        }
    }

    /// Moves a period through its lifecycle.
    pub fn transition_period(&mut self, period: &PeriodId, to: PeriodState) -> (r: Result<
        (),
        JournalError,
    >)
        requires
            old(self).wf(),
        ensures
            final(self).wf(),
            match r {
                Ok(_) => {
                    &&& old(self)@.periods.contains_key(period@)
                    &&& period::may_become(old(self)@.periods[period@].state, to)
                    &&& final(self)@ == (Books {
                        periods: old(self)@.periods.insert(
                            period@,
                            period::PeriodFacts { state: to, ..old(self)@.periods[period@] },
                        ),
                        ..old(self)@
                    })
                },
                Err(e) => {
                    &&& final(self)@ == old(self)@
                    &&& e matches JournalError::Period(cause)
                    &&& if !old(self)@.periods.contains_key(period@) {
                        cause matches PeriodError::Unknown { id } && id@ == period@
                    } else {
                        &&& !period::may_become(old(self)@.periods[period@].state, to)
                        &&& cause matches PeriodError::InvalidTransition { id, from, to: wanted }
                        &&& id@ == period@
                        &&& from == old(self)@.periods[period@].state
                        &&& wanted == to
                    }
                },
            },
    {
        match self.calendar.transition(period, to) {
            Ok(()) => Ok(()),
            Err(e) => Err(JournalError::Period(e)),
        }
    }

    /// Everything validation needs, borrowed from this journal.
    ///
    /// Use it to validate a draft without recording it — a dry run, or a batch
    /// checked before any of it is committed. [`Journal::record`] builds it for
    /// you.
    #[must_use]
    pub fn context(&self) -> (ctx: SealContext<'_>)
        requires
            self.wf(),
        ensures
            ctx.accounts@ == self@.accounts,
            ctx.accounts.wf(),
            ctx.calendar@ == self@.periods,
            ctx.calendar.wf(),
            ctx.policy@ == self@.policy,
    {
        SealContext { accounts: &self.accounts, calendar: &self.calendar, policy: &self.policy }
    }
}

// ── reading ─────────────────────────────────────────────────────────────────

impl<const P: u8> Journal<P> {
    /// Number of recorded entries.
    #[must_use]
    pub fn len(&self) -> (n: usize)
        ensures
            n == self@.entries.len(),
    {
        self.entries.len()
    }

    /// True when nothing has been recorded.
    #[must_use]
    pub fn is_empty(&self) -> (r: bool)
        ensures
            r == (self@.entries.len() == 0),
    {
        self.entries.len() == 0
    }

    /// The entries, in log order.
    #[must_use]
    pub fn entries(&self) -> (entries: &[Entry<Balanced, P>])
        ensures
            entry_facts(entries@) == self@.entries,
    {
        self.entries.as_slice()
    }

    /// The entry at a log index.
    #[must_use]
    pub fn at(&self, index: LogIndex) -> (r: Option<&Entry<Balanced, P>>)
        ensures
            match r {
                Some(e) => index.position < self@.entries.len() && e@
                    == self@.entries[index.position as int],
                None => index.position >= self@.entries.len(),
            },
    {
        if index.position < self.entries.len() as u64 {
            Some(&self.entries[index.position as usize])
        } else {
            None
        }
    }

    /// The entry with a given identifier.
    #[must_use]
    pub fn get(&self, id: EntryId) -> (r: Option<&Entry<Balanced, P>>)
        requires
            self.wf(),
        ensures
            match r {
                Some(e) => books::find_id(self@.entries, id) is Some && e@
                    == self@.entries[books::find_id(self@.entries, id)->0],
                None => books::find_id(self@.entries, id) is None,
            },
    {
        proof {
            assert(books::finds_id(self.by_id@, self@.entries, id));
            books::lemma_find_id(self@.entries, id);
        }
        match self.by_id.get(&id) {
            Some(index) => self.at(*index),
            None => None,
        }
    }

    /// The log position of an entry.
    #[must_use]
    pub fn index_of(&self, id: EntryId) -> (r: Option<LogIndex>)
        requires
            self.wf(),
        ensures
            match r {
                Some(index) => books::find_id(self@.entries, id) == Some(index.position as int),
                None => books::find_id(self@.entries, id) is None,
            },
    {
        proof {
            assert(books::finds_id(self.by_id@, self@.entries, id));
        }
        match self.by_id.get(&id) {
            Some(index) => Some(*index),
            None => None,
        }
    }

    /// The reversal of an entry, if one has been recorded.
    #[must_use]
    pub fn reversal_of(&self, id: EntryId) -> (r: Option<EntryId>)
        requires
            self.wf(),
        ensures
            r == (match books::find_reversal(self@.entries, id) {
                Some(i) => Some(self@.entries[i].id),
                None => None,
            }),
    {
        proof {
            assert(books::finds_reversal(self.reversed_by@, self@.entries, id));
        }
        match self.reversed_by.get(&id) {
            Some(by) => Some(*by),
            None => None,
        }
    }
}

// ── recording ───────────────────────────────────────────────────────────────

/// True when `candidate` is exactly `original` with every side flipped.
///
/// A reversal that does not invert would leave the original marked as reversed
/// while the amounts failed to net, which is worse than no reversal tracking at
/// all — the ledger would assert a correction it did not make.
fn is_inversion_of<const P: u8>(original: &[Posting<P>], candidate: &[Posting<P>]) -> (r: bool)
    ensures
        r == (entry::movements(candidate@) == entry::inverted(entry::movements(original@))),
{
    let ghost wanted = entry::inverted(entry::movements(original@));
    let ghost found = entry::movements(candidate@);
    if original.len() != candidate.len() {
        assert(wanted.len() != found.len());
        return false;
    }
    let mut i: usize = 0;
    while i < original.len()
        invariant
            i <= original.len(),
            original.len() == candidate.len(),
            wanted == entry::inverted(entry::movements(original@)),
            found == entry::movements(candidate@),
            forall|j: int| 0 <= j < i ==> #[trigger] found[j] == wanted[j],
        decreases original.len() - i,
    {
        let (o, c) = (&original[i], &candidate[i]);
        assert(wanted[i as int] == posting::flipped(original@[i as int]@));
        assert(found[i as int] == candidate@[i as int]@);
        if !(c.account == o.account && c.amount.minor == o.amount.minor && c.currency == o.currency
            && c.layer == o.layer && c.dimensions.same(&o.dimensions) && c.direction
            == o.direction.inverse()) {
            assert(found[i as int] != wanted[i as int]);
            return false;
        }
        assert(found[i as int] == wanted[i as int]);
        i += 1;
    }
    assert(found =~= wanted);
    true
}

/// Adds a posting to the list of its key.
fn add_site(
    sites: &mut SortedMap<BalanceKey, Vec<PostingPosition>>,
    key: BalanceKey,
    site: PostingPosition,
)
    ensures
        final(sites)@.contains_key(key),
        final(sites)@ == old(sites)@.insert(key, final(sites)@[key]),
        final(sites)@[key]@ == (if old(sites)@.contains_key(key) {
            old(sites)@[key]@
        } else {
            Seq::empty()
        }).push(site),
{
    let mut list: Vec<PostingPosition> = match sites.remove(&key) {
        Some(list) => list,
        None => Vec::new(),
    };
    list.push(site);
    sites.insert(key, list);
    assert(sites@ =~= old(sites)@.insert(key, list));
}

/// True when the list of a key is `expected`; a key without postings may be
/// missing.
spec fn lists_exactly(
    sites: Map<BalanceKey, Vec<PostingPosition>>,
    key: BalanceKey,
    expected: Seq<PostingPosition>,
) -> bool {
    if sites.contains_key(key) {
        sites[key]@ == expected
    } else {
        expected.len() == 0
    }
}

/// The sites of a key after some postings of one more entry.
spec fn sites_with(
    entries: Seq<entry::EntryFacts>,
    postings: Seq<posting::Movement>,
    key: BalanceKey,
) -> Seq<PostingPosition> {
    books::sites_of(entries, key) + books::entry_sites(entries.len() as int, postings, key)
}

/// Replaying a key answers with what was recorded under it.
proof fn lemma_replay<const P: u8>(
    index: Map<Seq<u8>, (EntryId, LogIndex, Digest)>,
    entries: Seq<entry::EntryFacts>,
    e: entry::EntryFacts,
)
    requires
        books::indexes_keys(P, index, entries),
    ensures
        books::replay_of(P, entries, e) == (if index.contains_key(e.key) {
            let (id, at, stored) = index[e.key];
            Some(
                if stored == entry::entry_hash(P, e) {
                    books::Outcome::Replayed {
                        recorded: Recorded {
                            id,
                            index: Some(at),
                            content_hash: entry::entry_hash(P, e),
                            is_new: false,
                        },
                    }
                } else {
                    books::Outcome::Refused {
                        refusal: books::Refusal::IdempotencyConflict {
                            existing: id,
                            stored,
                            submitted: entry::entry_hash(P, e),
                        },
                    }
                },
            )
        } else {
            None
        }),
{
    assert(books::finds_key(P, index, entries, e.key));
}

impl<const P: u8> Journal<P> {
    /// What the journal answers about an idempotency key it has seen.
    fn replay(&self, key: &IdempotencyKey, content_hash: Digest, Ghost(e): Ghost<entry::EntryFacts>) -> (r:
        Option<Result<Recorded, JournalError>>)
        requires
            self.wf(),
            e.key == key@,
            content_hash == entry::entry_hash(P, e),
        ensures
            match books::replay_of(P, self@.entries, e) {
                None => r is None,
                Some(books::Outcome::Replayed { recorded }) => r == Some(
                    Ok::<Recorded, JournalError>(recorded),
                ),
                Some(books::Outcome::Refused { refusal }) => {
                    r matches Some(Err(error)) && reports::<P>(error, refusal)
                },
                Some(books::Outcome::Appended) => false,
            },
    {
        proof {
            lemma_replay::<P>(self.by_key@, self@.entries, e);
        }
        match self.by_key.get(key) {
            None => None,
            Some(found) => {
                let (existing, index, stored): (EntryId, LogIndex, Digest) = *found;
                if stored == content_hash {
                    Some(
                        Ok(
                            Recorded {
                                id: existing,
                                index: Some(index),
                                content_hash,
                                is_new: false,
                            },
                        ),
                    )
                } else {
                    Some(
                        Err(
                            JournalError::IdempotencyConflict {
                                existing,
                                stored,
                                submitted: content_hash,
                            },
                        ),
                    )
                }
            },
        }
    }

    /// Enforces the correction rules against what is already recorded.
    fn check_reversal(&self, entry: &Entry<Balanced, P>) -> (r: Result<(), JournalError>)
        requires
            self.wf(),
        ensures
            match books::reversal_fault(self@.entries, entry@) {
                None => r is Ok,
                Some(refusal) => r matches Err(e) && reports::<P>(e, refusal),
            },
    {
        let original: EntryId = match entry.reverses() {
            Some(original) => original,
            None => {
                return Ok(());
            },
        };
        let target = match self.get(original) {
            Some(target) => target,
            None => {
                return Err(JournalError::UnknownOriginal { id: original });
            },
        };
        if let Some(existing) = self.reversal_of(original) {
            return Err(JournalError::AlreadyReversed { id: original, by: existing });
        }
        if target.reverses().is_some() {
            return Err(JournalError::ReversalOfReversal { id: original });
        }
        if !is_inversion_of(target.postings(), entry.postings()) {
            return Err(JournalError::NotAnInversion { id: original });
        }
        Ok(())
    }

    /// The balances the entry would leave behind.
    ///
    /// Worked out on a copy, so a rejected entry cannot leave the journal
    /// half-applied.
    fn accumulate(&self, entry: &Entry<Balanced, P>) -> (r: Result<TrialBalance<P>, MoneyError>)
        requires
            self.wf(),
        ensures
            match books::folded::<P>(self@.entries.push(entry@)) {
                Ok(after) => r matches Ok(balances) && balances@ == after && balances.wf(),
                Err(e) => r == Err::<TrialBalance<P>, MoneyError>(e),
            },
    {
        let mut balances = self.balances.clone();
        assert(self@.entries.push(entry@).drop_last() =~= self@.entries);
        match apply_entry(&mut balances, entry) {
            Ok(()) => Ok(balances),
            Err(e) => Err(e),
        }
    }

    /// Enforces every touched account's balance limit against the state the
    /// entry would leave behind.
    ///
    /// Checked on the *resulting* balance rather than posting by posting: an
    /// entry that dips an account below its limit and back within the same
    /// booking is one movement, and refusing it would make the answer depend on
    /// the order the caller happened to list its postings in.
    ///
    /// Deliberately here rather than in [`Entry::seal`]. Sealing asks whether an
    /// entry is well formed against master data, which is a question about the
    /// entry alone; a limit is a question about the *books*, and the same entry
    /// is legal or not depending on what has already been recorded.
    fn check_limits(&self, entry: &Entry<Balanced, P>, after: &TrialBalance<P>) -> (r: Result<
        (),
        JournalError,
    >)
        ensures
            match books::limit_fault(self@.accounts, after@, entry@.postings, 0) {
                None => r is Ok,
                Some(refusal) => r matches Err(e) && reports::<P>(e, refusal),
            },
    {
        let postings = entry.postings();
        let ghost moves = entry@.postings;
        let mut i: usize = 0;
        while i < postings.len()
            invariant
                i <= postings.len(),
                postings@.len() == moves.len(),
                forall|k: int|
                    0 <= k < postings@.len() ==> (#[trigger] postings@[k])@ == moves[k],
                books::limit_fault(self@.accounts, after@, moves, 0) == books::limit_fault(
                    self@.accounts,
                    after@,
                    moves,
                    i as int,
                ),
                moves == entry@.postings,
            decreases postings.len() - i,
        {
            let key = balance::key_of(&postings[i]);
            let limit = self.accounts.limit_of(key.account);
            let balance = after.get_or_zero(&key);
            if !limit.permits(&balance) {
                let net_minor: i64 = match balance.signed_net() {
                    Ok(net) => net.minor,
                    Err(_) => 0,
                };
                return Err(
                    JournalError::LimitBreached {
                        account: key.account,
                        currency: key.currency,
                        layer: key.layer,
                        limit,
                        net_minor,
                        scale: P,
                    },
                );
            }
            i += 1;
        }
        Ok(())
    }

    /// Appends an entry that nothing stands against any more.
    fn append(&mut self, entry: Entry<Balanced, P>, content_hash: Digest, balances: TrialBalance<P>) -> (index:
        LogIndex)
        requires
            old(self).wf(),
            content_hash == entry::entry_hash(P, entry@),
            entry@.postings.len() <= books::ADDRESSABLE,
            balances.wf(),
            books::distinct_entries(old(self)@.entries.push(entry@)),
            books::folded::<P>(old(self)@.entries.push(entry@)) == Ok::<
                Map<BalanceKey, Balance<P>>,
                MoneyError,
            >(balances@),
        ensures
            final(self).wf(),
            final(self)@ == (Books {
                entries: old(self)@.entries.push(entry@),
                ..old(self)@
            }),
            index.position == old(self)@.entries.len(),
    {
        let ghost before = self@.entries;
        let ghost e = entry@;
        let ghost after = before.push(e);
        proof {
            self.log.lemma_bounded();
            books::lemma_indexes_push(
                P,
                self.by_id@,
                self.by_key@,
                self.reversed_by@,
                before,
                e,
            );
        }
        let index = LogIndex { position: self.log.append(content_hash) };
        if let Some(original) = entry.reverses() {
            self.reversed_by.insert(original, entry.id());
        }
        self.add_sites(&entry, index);
        self.balances = balances;
        self.by_id.insert(entry.id(), index);
        self.by_key.insert(entry.idempotency_key().clone(), (entry.id(), index, content_hash));
        self.entries.push(entry);
        proof {
            assert(self@.entries =~= after);
            assert(self.log@ =~= books::content_hashes(P, after));
            assert(after.drop_last() =~= before);
            assert forall|i: int| 0 <= i < after.len() implies (#[trigger] after[i]).postings.len()
                <= books::ADDRESSABLE by {
                if i < before.len() {
                    assert(after[i] == before[i]);
                }
            }
            self.log.lemma_bounded();
            assert forall|key: BalanceKey| #[trigger] books::lists_sites_of(
                self.sites@,
                after,
                key,
            ) by {
                assert(lists_exactly(self.sites@, key, sites_with(before, e.postings, key)));
            }
            lemma_still_cleared(old(self)@, e);
        }
        index
    }

    /// Lists the postings of one more entry under their keys.
    fn add_sites(&mut self, entry: &Entry<Balanced, P>, index: LogIndex)
        requires
            books::lists_sites(old(self).sites@, old(self)@.entries),
            books::lists_no_idle_key(old(self).sites@),
            index.position == old(self)@.entries.len(),
            entry@.postings.len() <= books::ADDRESSABLE,
        ensures
            *final(self) == (Journal { sites: final(self).sites, ..*old(self) }),
            forall|key: BalanceKey| #[trigger]
                lists_exactly(
                    final(self).sites@,
                    key,
                    sites_with(old(self)@.entries, entry@.postings, key),
                ),
            books::lists_no_idle_key(final(self).sites@),
    {
        let postings = entry.postings();
        let ghost entries = self@.entries;
        let ghost moves = entry@.postings;
        proof {
            let none = moves.take(0);
            assert(none =~= Seq::<posting::Movement>::empty());
            assert forall|key: BalanceKey| #[trigger] lists_exactly(
                self.sites@,
                key,
                sites_with(entries, none, key),
            ) by {
                assert(books::lists_sites_of(self.sites@, entries, key));
                assert(sites_with(entries, none, key) =~= books::sites_of(entries, key));
            }
        }
        let mut i: usize = 0;
        while i < postings.len()
            invariant
                i <= postings.len(),
                postings@.len() == moves.len(),
                moves.len() <= books::ADDRESSABLE,
                forall|k: int|
                    0 <= k < postings@.len() ==> (#[trigger] postings@[k])@ == moves[k],
                *self == (Journal { sites: self.sites, ..*old(self) }),
                entries == old(self)@.entries,
                index.position == entries.len(),
                forall|key: BalanceKey| #[trigger]
                    lists_exactly(self.sites@, key, sites_with(entries, moves.take(i as int), key)),
                books::lists_no_idle_key(self.sites@),
            decreases postings.len() - i,
        {
            let key = balance::key_of(&postings[i]);
            let site = PostingPosition { index, posting: i as u16 };
            let ghost listed = self.sites@;
            add_site(&mut self.sites, key, site);
            proof {
                let (now, next) = (moves.take(i as int), moves.take(i + 1));
                assert(next.drop_last() =~= now);
                assert(next.last() == postings@[i as int]@);
                assert forall|k: BalanceKey| #[trigger] lists_exactly(
                    self.sites@,
                    k,
                    sites_with(entries, next, k),
                ) by {
                    assert(lists_exactly(listed, k, sites_with(entries, now, k)));
                    if k == key {
                        if !listed.contains_key(k) {
                            assert(sites_with(entries, now, k) =~= Seq::empty());
                        }
                        assert(sites_with(entries, next, k) =~= sites_with(entries, now, k).push(
                            site,
                        ));
                    } else {
                        assert(sites_with(entries, next, k) =~= sites_with(entries, now, k));
                    }
                }
            }
            i += 1;
        }
        assert(moves.take(moves.len() as int) =~= moves);
    }

    /// Records an entry that has already passed validation.
    ///
    /// The entry must have been sealed against *this* journal's accounts,
    /// calendar and policy. Sealing it against a different context and recording
    /// it here would book against accounts this ledger does not have, or into a
    /// period it has already sealed.
    ///
    /// Idempotency is settled before anything else: a safe retry must not be
    /// able to trip a later rule that the original submission already passed.
    pub fn record_validated(&mut self, entry: Entry<Balanced, P>) -> (r: Result<
        Recorded,
        JournalError,
    >)
        requires
            old(self).wf(),
            entry@.postings.len() <= books::ADDRESSABLE,
        ensures
            final(self).wf(),
            match books::outcome_of::<P>(old(self)@.accounts, old(self)@.entries, entry@) {
                books::Outcome::Replayed { recorded } => {
                    &&& r == Ok::<Recorded, JournalError>(recorded)
                    &&& final(self)@ == old(self)@
                },
                books::Outcome::Refused { refusal } => {
                    &&& r matches Err(e)
                    &&& reports::<P>(e, refusal)
                    &&& final(self)@ == old(self)@
                },
                books::Outcome::Appended => {
                    &&& r == Ok::<Recorded, JournalError>(
                        books::appended(P, old(self)@.entries, entry@),
                    )
                    &&& final(self)@ == (Books {
                        entries: old(self)@.entries.push(entry@),
                        ..old(self)@
                    })
                },
            },
            (r is Ok && r->Ok_0.is_new) <==> laws::recording::is_in_order(
                old(self)@.accounts,
                old(self)@.entries,
                entry@,
            ),
    {
        proof {
            laws::recording::lemma_new_when_in_order::<P>(self@.accounts, self@.entries, entry@);
        }
        let content_hash = entry.content_hash();
        if let Some(answer) = self.replay(entry.idempotency_key(), content_hash, Ghost(entry@)) {
            return answer;
        }
        let id = entry.id();
        proof {
            assert(books::finds_id(self.by_id@, self@.entries, id));
        }
        if self.by_id.contains_key(&id) {
            return Err(JournalError::DuplicateId { id });
        }
        match self.check_reversal(&entry) {
            Ok(()) => {},
            Err(e) => {
                return Err(e);
            },
        }
        let balances = match self.accumulate(&entry) {
            Ok(balances) => balances,
            Err(e) => {
                return Err(JournalError::Money(e));
            },
        };
        match self.check_limits(&entry, &balances) {
            Ok(()) => {},
            Err(e) => {
                return Err(e);
            },
        }
        proof {
            books::lemma_appended::<P>(self@.accounts, self@.entries, entry@);
        }
        let index = self.append(entry, content_hash, balances);
        Ok(Recorded { id, index: Some(index), content_hash, is_new: true })
    }

    /// Validates a draft against this journal and records it.
    ///
    /// The usual way in. [`Journal::record_validated`] exists for an entry that
    /// was validated elsewhere — read what it costs before reaching for it.
    ///
    /// # Idempotency comes first
    ///
    /// The key is resolved *before* validation runs, not after. Otherwise a
    /// retry of an entry that was accepted months ago would be refused today
    /// because its period has since been sealed or its account has closed —
    /// turning an at-least-once delivery path into a source of spurious errors
    /// precisely when the ledger is least able to act on them. A safe retry must
    /// not be able to trip a rule the original submission already passed.
    pub fn record(&mut self, draft: Entry<Draft, P>) -> (r: Result<Recorded, JournalError>)
        requires
            old(self).wf(),
        ensures
            final(self).wf(),
            match books::draft_outcome::<P>(
                old(self)@.accounts,
                old(self)@.periods,
                old(self)@.policy,
                old(self)@.entries,
                draft@,
            ) {
                books::Outcome::Replayed { recorded } => {
                    &&& r == Ok::<Recorded, JournalError>(recorded)
                    &&& final(self)@ == old(self)@
                },
                books::Outcome::Refused { refusal } => {
                    &&& r matches Err(e)
                    &&& reports::<P>(e, refusal)
                    &&& final(self)@ == old(self)@
                },
                books::Outcome::Appended => {
                    &&& r == Ok::<Recorded, JournalError>(
                        books::appended(P, old(self)@.entries, draft@),
                    )
                    &&& final(self)@ == (Books {
                        entries: old(self)@.entries.push(draft@),
                        ..old(self)@
                    })
                },
            },
            (r is Ok && r->Ok_0.is_new) <==> {
                &&& entry::faults::<P>(
                    draft@,
                    old(self)@.accounts,
                    old(self)@.periods,
                    old(self)@.policy,
                ).len() == 0
                &&& laws::recording::is_in_order(
                    old(self)@.accounts,
                    old(self)@.entries,
                    draft@,
                )
            },
    {
        proof {
            laws::recording::lemma_new_when_in_order::<P>(self@.accounts, self@.entries, draft@);
            laws::recording::law_drafts_are_validated_first::<P>(
                self@.accounts,
                self@.periods,
                self@.policy,
                self@.entries,
                draft@,
            );
        }
        let content_hash = draft.digest();
        if let Some(answer) = self.replay(draft.idempotency_key(), content_hash, Ghost(draft@)) {
            return answer;
        }
        let ctx = self.context();
        let entry = match draft.seal(&ctx) {
            Ok(entry) => entry,
            Err(errors) => {
                return Err(JournalError::Invalid(errors));
            },
        };
        proof {
            entry::law_validated_entries_balance::<P>(
                entry@,
                self@.accounts,
                self@.periods,
                self@.policy,
            );
        }
        self.record_validated(entry)
    }
}

/// One more entry leaves every clearing within its postings.
proof fn lemma_still_cleared<const P: u8>(books: Books<P>, e: entry::EntryFacts)
    requires
        soundly_cleared(books),
        books::distinct_entries(books.entries.push(e)),
    ensures
        soundly_cleared(Books { entries: books.entries.push(e), ..books }),
{
    let (before, after) = (books.entries, books.entries.push(e));
    assert(after.drop_last() =~= before);
    assert forall|reference: clearing::PostingRef| #[trigger] clearing::application_fits(
        books.clearings,
        books::postings_of(after),
        reference,
    ) by {
        assert(clearing::application_fits(
            books.clearings,
            books::postings_of(before),
            reference,
        ));
        books::lemma_find_id(before, reference.entry);
        if reference.entry == e.id {
            assert(books::posting_at(before, reference) is None);
        } else {
            assert(books::posting_at(after, reference) == books::posting_at(before, reference));
        }
    }
}

// ── balances ────────────────────────────────────────────────────────────────

impl<const P: u8> Journal<P> {
    /// The entry and the posting at a site.
    fn resolve(&self, site: PostingPosition) -> (r: Option<(&Entry<Balanced, P>, &Posting<P>)>)
        ensures
            match r {
                Some((e, p)) => {
                    &&& site.index.position < self@.entries.len()
                    &&& e@ == self@.entries[site.index.position as int]
                    &&& site.posting < e@.postings.len()
                    &&& p@ == e@.postings[site.posting as int]
                },
                None => {
                    ||| site.index.position >= self@.entries.len()
                    ||| site.posting >= self@.entries[site.index.position as int].postings.len()
                },
            },
    {
        let entry = match self.at(site.index) {
            Some(entry) => entry,
            None => {
                return None;
            },
        };
        let postings = entry.postings();
        if (site.posting as usize) < postings.len() {
            Some((entry, &postings[site.posting as usize]))
        } else {
            None
        }
    }

    /// Folds the first `n` postings on a key.
    ///
    /// They were all accepted in that order, so this cannot overflow.
    fn fold_first(&self, Ghost(key): Ghost<BalanceKey>, sites: &Vec<PostingPosition>, n: usize) -> (balance:
        Balance<P>)
        requires
            books::addressable(self@.entries),
            books::folded::<P>(self@.entries) is Ok,
            sites@ == books::sites_of(self@.entries, key),
            n <= sites@.len(),
        ensures
            books::fold_movements(
                balance::zero_balance::<P>(),
                books::movements_on(self@.entries, key).take(n as int),
            ) == Ok::<Balance<P>, MoneyError>(balance),
    {
        let ghost moves = books::movements_on(self@.entries, key);
        proof {
            books::lemma_sites(self@.entries, key);
            assert(moves.take(0) =~= Seq::<posting::Movement>::empty());
        }
        let mut balance: Balance<P> = Balance::zero();
        let mut i: usize = 0;
        while i < n
            invariant
                i <= n,
                n <= sites@.len(),
                books::addressable(self@.entries),
                books::folded::<P>(self@.entries) is Ok,
                sites@ == books::sites_of(self@.entries, key),
                moves == books::movements_on(self@.entries, key),
                books::fold_movements(balance::zero_balance::<P>(), moves.take(i as int)) == Ok::<
                    Balance<P>,
                    MoneyError,
                >(balance),
            decreases n - i,
        {
            proof {
                books::lemma_sites(self@.entries, key);
                assert(books::names_movement(
                    self@.entries,
                    books::sites_of(self@.entries, key)[i as int],
                    moves[i as int],
                ));
                assert(moves.take(i + 1).drop_last() =~= moves.take(i as int));
                books::lemma_running_balance::<P>(self@.entries, key, i + 1);
            }
            if let Some((_, posting)) = self.resolve(sites[i]) {
                let added = balance.add(posting.direction, posting.amount);
                assert(added is Ok);
            }
            i += 1;
        }
        balance
    }

    /// The trial balance, optionally over a prefix of the log.
    ///
    /// `size` is a **count of entries**, not an index: `Some(0)` is the empty
    /// ledger, `Some(2)` is the journal as it stood after two entries, and
    /// `None` is everything recorded so far. It is the same number a
    /// [`TreeHead::size`] carries, so a balance and the root it belongs with are
    /// always named the same way.
    ///
    /// Accumulating a prefix of entries that were accepted cannot overflow.
    pub fn trial_balance(&self, size: Option<u64>) -> (r: Result<TrialBalance<P>, MoneyError>)
        requires
            self.wf(),
        ensures
            r matches Ok(balances) && balances@ == books::balances_at::<P>(self@.entries, size),
    {
        let n: usize = match size {
            None => {
                return Ok(self.balances.clone());
            },
            Some(size) => {
                if size >= self.entries.len() as u64 {
                    return Ok(self.balances.clone());
                }
                size as usize
            },
        };
        let ghost wanted = self@.entries.take(n as int);
        proof {
            books::lemma_prefix_adds_up::<P>(self@.entries, n as int);
            assert(wanted.take(0) =~= Seq::<entry::EntryFacts>::empty());
        }
        let mut balances: TrialBalance<P> = TrialBalance::new();
        let mut i: usize = 0;
        while i < n
            invariant
                i <= n,
                n < self.entries@.len(),
                wanted == self@.entries.take(n as int),
                books::folded::<P>(wanted) is Ok,
                books::folded::<P>(wanted.take(i as int)) == Ok::<
                    Map<BalanceKey, Balance<P>>,
                    MoneyError,
                >(balances@),
            decreases n - i,
        {
            proof {
                assert(wanted.take(i + 1).drop_last() =~= wanted.take(i as int));
                assert(wanted.take(i + 1).last() == self.entries@[i as int]@);
                books::lemma_prefix_adds_up::<P>(wanted, i + 1);
            }
            match apply_entry(&mut balances, &self.entries[i]) {
                Ok(()) => {},
                Err(e) => {
                    return Err(e);
                },
            }
            i += 1;
        }
        assert(wanted.take(n as int) =~= wanted);
        Ok(balances)
    }

    /// The balance of one account, currency, and layer, optionally over a prefix
    /// of the log.
    ///
    /// `size` counts entries, exactly as in [`Journal::trial_balance`].
    ///
    /// Reading the current balance is a lookup. Reading a historical one replays
    /// that key's postings, which is linear in how much has moved through the
    /// account rather than in the size of the journal.
    pub fn balance(&self, key: &BalanceKey, size: Option<u64>) -> (r: Result<
        Balance<P>,
        MoneyError,
    >)
        requires
            self.wf(),
        ensures
            r == Ok::<Balance<P>, MoneyError>(
                balance::balance_at(books::balances_at::<P>(self@.entries, size), *key),
            ),
    {
        let size: u64 = match size {
            None => {
                return Ok(self.balances.get_or_zero(key));
            },
            Some(size) => size,
        };
        let ghost count: int = if size < self@.entries.len() {
            size as int
        } else {
            self@.entries.len() as int
        };
        let ghost shorter = self@.entries.take(count);
        proof {
            assert(books::lists_sites_of(self.sites@, self@.entries, *key));
            books::lemma_sites_of_prefix(self@.entries, *key, count);
            books::lemma_sites(self@.entries, *key);
            books::lemma_prefix_adds_up::<P>(self@.entries, count);
            books::lemma_balance_of_key::<P>(shorter, *key);
            assert(shorter == books::prefix(self@.entries, Some(size))) by {
                assert(self@.entries.take(self@.entries.len() as int) =~= self@.entries);
            }
        }
        let sites = match self.sites.get(key) {
            Some(sites) => sites,
            None => {
                proof {
                    assert(books::movements_on(shorter, *key) =~= Seq::<
                        posting::Movement,
                    >::empty());
                }
                return Ok(Balance::zero());
            },
        };
        let mut n: usize = 0;
        while n < sites.len() && sites[n].index.position < size
            invariant
                n <= sites.len(),
                sites@ == books::sites_of(self@.entries, *key),
                forall|i: int| 0 <= i < n ==> (#[trigger] sites@[i]).index.position < size,
            decreases sites.len() - n,
        {
            n += 1;
        }
        proof {
            let k = books::sites_of(shorter, *key).len() as int;
            let all = books::sites_of(self@.entries, *key);
            assert forall|i: int| 0 <= i < all.len() implies ((
            #[trigger] all[i]).index.position < size <==> i < k) by {
                assert(books::names_movement(
                    self@.entries,
                    all[i],
                    books::movements_on(self@.entries, *key)[i],
                ));
            }
            if n < k {
                assert(all[n as int].index.position < size);
            }
            if n > k {
                assert(all[k].index.position < size);
            }
        }
        Ok(self.fold_first(Ghost(*key), sites, n))
    }

    /// The balance of one key over everything booked on or before `end`.
    ///
    /// Folds by **booking date**, so an entry recorded late still lands in the
    /// period it economically belongs to. This is the form to reconcile against
    /// an external statement, which is dated rather than positioned.
    pub fn balance_on_date(&self, key: &BalanceKey, end: Date) -> (r: Result<
        Balance<P>,
        MoneyError,
    >)
        requires
            self.wf(),
        ensures
            r == books::fold_movements(
                balance::zero_balance::<P>(),
                books::movements_on(books::through(self@.entries, end@), *key),
            ),
    {
        let ghost entries = self@.entries;
        let ghost moves = books::movements_on(entries, *key);
        proof {
            assert(books::lists_sites_of(self.sites@, entries, *key));
            books::lemma_sites(entries, *key);
            books::lemma_dated(entries, *key, end@);
        }
        let sites = match self.sites.get(key) {
            Some(sites) => sites,
            None => {
                return Ok(Balance::zero());
            },
        };
        let ghost all = sites@;
        let ghost wanted = books::dated(entries, all, moves, end@);
        let mut balance: Balance<P> = Balance::zero();
        let mut i: usize = 0;
        assert(all.take(0) =~= Seq::<PostingPosition>::empty());
        while i < sites.len()
            invariant
                i <= sites.len(),
                books::addressable(entries),
                entries == self@.entries,
                all == sites@,
                all == books::sites_of(entries, *key),
                moves == books::movements_on(entries, *key),
                books::fold_movements(
                    balance::zero_balance::<P>(),
                    books::dated(entries, all.take(i as int), moves, end@),
                ) == Ok::<Balance<P>, MoneyError>(balance),
                wanted == books::dated(entries, all, moves, end@),
                wanted == books::movements_on(books::through(entries, end@), *key),
            decreases sites.len() - i,
        {
            let ghost now = books::dated(entries, all.take(i as int), moves, end@);
            let ghost next = books::dated(entries, all.take(i + 1), moves, end@);
            proof {
                books::lemma_sites(entries, *key);
                assert(books::names_movement(
                    entries,
                    books::sites_of(entries, *key)[i as int],
                    moves[i as int],
                ));
                assert(all.take(i + 1).drop_last() =~= all.take(i as int));
                assert(all.take(i + 1).last() == all[i as int]);
            }
            if let Some((entry, posting)) = self.resolve(sites[i]) {
                if entry.booking_date().at_most(&end) {
                    proof {
                        assert(next == now.push(moves[i as int]));
                        assert(next.drop_last() =~= now);
                    }
                    match balance.add(posting.direction, posting.amount) {
                        Ok(()) => {},
                        Err(e) => {
                            proof {
                                lemma_dated_grows(entries, all, moves, end@, i + 1);
                                books::lemma_fold_movements_error(
                                    balance::zero_balance::<P>(),
                                    wanted,
                                    next.len() as int,
                                );
                            }
                            return Err(e);
                        },
                    }
                }
            }
            i += 1;
        }
        assert(all.take(all.len() as int) =~= all);
        Ok(balance)
    }

    /// Folds every entry booked on or before `end` into a trial balance.
    ///
    /// This is what a period's *closing* balance means: cumulative through the
    /// period's last day. Folding the whole journal instead would pull in
    /// entries booked into later periods, which is wrong whenever a period is
    /// sealed after the next one has begun — the normal case.
    pub fn trial_balance_through_date(&self, end: Date) -> (r: Result<
        TrialBalance<P>,
        MoneyError,
    >)
        ensures
            match books::folded::<P>(books::through(self@.entries, end@)) {
                Ok(closing) => r matches Ok(balances) && balances@ == closing,
                Err(e) => r == Err::<TrialBalance<P>, MoneyError>(e),
            },
    {
        let ghost entries = self@.entries;
        let mut balances: TrialBalance<P> = TrialBalance::new();
        let mut i: usize = 0;
        assert(entries.take(0) =~= Seq::<entry::EntryFacts>::empty());
        while i < self.entries.len()
            invariant
                i <= self.entries@.len(),
                entries == self@.entries,
                books::folded::<P>(books::through(entries.take(i as int), end@)) == Ok::<
                    Map<BalanceKey, Balance<P>>,
                    MoneyError,
                >(balances@),
            decreases self.entries@.len() - i,
        {
            let entry = &self.entries[i];
            let ghost now = books::through(entries.take(i as int), end@);
            proof {
                assert(entries.take(i + 1).drop_last() =~= entries.take(i as int));
                assert(entries.take(i + 1).last() == entry@);
                assert(now.push(entry@).drop_last() =~= now);
            }
            if entry.booking_date().at_most(&end) {
                match apply_entry(&mut balances, entry) {
                    Ok(()) => {},
                    Err(e) => {
                        proof {
                            lemma_through_grows(entries, end@, i + 1);
                            books::lemma_folded_error::<P>(
                                books::through(entries, end@),
                                books::through(entries.take(i + 1), end@).len() as int,
                            );
                        }
                        return Err(e);
                    },
                }
            }
            i += 1;
        }
        assert(entries.take(entries.len() as int) =~= entries);
        Ok(balances)
    }

    /// Recomputes the maintained balances from the entries and compares them.
    ///
    /// The incremental trial balance is derived state, like the Merkle subtree
    /// stack. This proves it has not drifted from the entries it summarises.
    pub fn verify_balances(&self) -> (r: Result<bool, MoneyError>)
        ensures
            r == (match books::folded::<P>(self@.entries) {
                Ok(recomputed) => Ok(recomputed == self.kept_balances()),
                Err(e) => Err(e),
            }),
            self.wf() ==> r == Ok::<bool, MoneyError>(true),
    {
        let ghost entries = self@.entries;
        let mut recomputed: TrialBalance<P> = TrialBalance::new();
        let mut i: usize = 0;
        assert(entries.take(0) =~= Seq::<entry::EntryFacts>::empty());
        while i < self.entries.len()
            invariant
                i <= self.entries@.len(),
                entries == self@.entries,
                books::folded::<P>(entries.take(i as int)) == Ok::<
                    Map<BalanceKey, Balance<P>>,
                    MoneyError,
                >(recomputed@),
            decreases self.entries@.len() - i,
        {
            proof {
                assert(entries.take(i + 1).drop_last() =~= entries.take(i as int));
                assert(entries.take(i + 1).last() == self.entries@[i as int]@);
            }
            match apply_entry(&mut recomputed, &self.entries[i]) {
                Ok(()) => {},
                Err(e) => {
                    proof {
                        books::lemma_folded_error::<P>(entries, i + 1);
                    }
                    return Err(e);
                },
            }
            i += 1;
        }
        assert(entries.take(entries.len() as int) =~= entries);
        Ok(recomputed.same(&self.balances))
    }

    /// The balances kept up to date as entries arrive.
    pub closed spec fn kept_balances(&self) -> Map<BalanceKey, Balance<P>> {
        self.balances@
    }

    /// The kept balances are what the entries add up to.
    pub proof fn law_kept_balances_are_the_entries(&self)
        requires
            self.wf(),
        ensures
            books::folded::<P>(self@.entries) == Ok::<Map<BalanceKey, Balance<P>>, MoneyError>(
                self.kept_balances(),
            ),
            balance::listable(self.kept_balances()),
    {
        self.balances.lemma_rows();
    }
}

/// Accumulates every posting of an entry, stopping at the first overflow.
fn apply_entry<const P: u8>(balances: &mut TrialBalance<P>, entry: &Entry<Balanced, P>) -> (r:
    Result<(), MoneyError>)
    ensures
        match books::fold_postings(old(balances)@, entry@.postings) {
            Ok(after) => r is Ok && final(balances)@ == after,
            Err(e) => r == Err::<(), MoneyError>(e),
        },
        old(balances).wf() ==> final(balances).wf(),
{
    let postings = entry.postings();
    let ghost base = balances@;
    let ghost moves = entry@.postings;
    let mut i: usize = 0;
    assert(moves.take(0) =~= Seq::<posting::Movement>::empty());
    while i < postings.len()
        invariant
            i <= postings.len(),
            postings@.len() == moves.len(),
            forall|k: int| 0 <= k < postings@.len() ==> (#[trigger] postings@[k])@ == moves[k],
            base == old(balances)@,
            moves == entry@.postings,
            old(balances).wf() ==> balances.wf(),
            books::fold_postings(base, moves.take(i as int)) == Ok::<
                Map<BalanceKey, Balance<P>>,
                MoneyError,
            >(balances@),
        decreases postings.len() - i,
    {
        assert(moves.take(i + 1).drop_last() =~= moves.take(i as int));
        assert(moves.take(i + 1).last() == postings@[i as int]@);
        match balances.apply(&postings[i]) {
            Ok(()) => {},
            Err(e) => {
                proof {
                    books::lemma_fold_postings_error(base, moves, i + 1);
                }
                return Err(e);
            },
        }
        i += 1;
    }
    assert(moves.take(moves.len() as int) =~= moves);
    Ok(())
}

proof fn lemma_dated_grows(
    entries: Seq<entry::EntryFacts>,
    sites: Seq<PostingPosition>,
    movements: Seq<posting::Movement>,
    day: int,
    k: int,
)
    requires
        0 <= k <= sites.len(),
    ensures
        ({
            let some = books::dated(entries, sites.take(k), movements, day);
            let all = books::dated(entries, sites, movements, day);
            some.len() <= all.len() && all.take(some.len() as int) == some
        }),
    decreases sites.len(),
{
    let some = books::dated(entries, sites.take(k), movements, day);
    let all = books::dated(entries, sites, movements, day);
    if k == sites.len() {
        assert(sites.take(k) =~= sites);
        assert(all.take(all.len() as int) =~= all);
    } else {
        let fewer = sites.drop_last();
        assert(fewer.take(k) =~= sites.take(k));
        lemma_dated_grows(entries, fewer, movements, day, k);
        assert(all.take(some.len() as int) =~= books::dated(
            entries,
            fewer,
            movements,
            day,
        ).take(some.len() as int));
    }
}

proof fn lemma_through_grows(entries: Seq<entry::EntryFacts>, day: int, k: int)
    requires
        0 <= k <= entries.len(),
    ensures
        books::through(entries.take(k), day).len() <= books::through(entries, day).len(),
        books::through(entries, day).take(
            books::through(entries.take(k), day).len() as int,
        ) == books::through(entries.take(k), day),
    decreases entries.len(),
{
    let some = books::through(entries.take(k), day);
    let all = books::through(entries, day);
    if k == entries.len() {
        assert(entries.take(k) =~= entries);
        assert(all.take(all.len() as int) =~= all);
    } else {
        let fewer = entries.drop_last();
        assert(fewer.take(k) =~= entries.take(k));
        lemma_through_grows(fewer, day, k);
        assert(all.take(some.len() as int) =~= books::through(fewer, day).take(some.len() as int));
    }
}

// ── batches ─────────────────────────────────────────────────────────────────

/// A list of sites without those of one entry.
spec fn without(sites: Seq<PostingPosition>, index: LogIndex) -> Seq<PostingPosition>
    decreases sites.len(),
{
    if sites.len() == 0 {
        Seq::empty()
    } else if sites.last().index == index {
        without(sites.drop_last(), index)
    } else {
        without(sites.drop_last(), index).push(sites.last())
    }
}

proof fn lemma_without(
    kept: Seq<PostingPosition>,
    dropped: Seq<PostingPosition>,
    index: LogIndex,
)
    requires
        forall|i: int| 0 <= i < kept.len() ==> (#[trigger] kept[i]).index != index,
        forall|i: int| 0 <= i < dropped.len() ==> (#[trigger] dropped[i]).index == index,
    ensures
        without(kept + dropped, index) == kept,
    decreases kept.len() + dropped.len(),
{
    let all = kept + dropped;
    if dropped.len() > 0 {
        let fewer = dropped.drop_last();
        assert forall|i: int| 0 <= i < fewer.len() implies (#[trigger] fewer[i]).index
            == index by {
            assert(fewer[i] == dropped[i]);
        }
        assert(all.drop_last() =~= kept + fewer);
        assert(all.last() == dropped[dropped.len() - 1]);
        lemma_without(kept, fewer, index);
    } else if kept.len() > 0 {
        let fewer = kept.drop_last();
        assert forall|i: int| 0 <= i < fewer.len() implies (#[trigger] fewer[i]).index
            != index by {
            assert(fewer[i] == kept[i]);
        }
        assert(all =~= kept);
        assert(fewer + dropped =~= fewer);
        assert(all.last() == kept[kept.len() - 1]);
        lemma_without(fewer, dropped, index);
        assert(fewer.push(kept.last()) =~= kept);
    } else {
        assert(all =~= kept);
    }
}

/// Taking the last entry back leaves the sites of those before it.
proof fn lemma_without_last(entries: Seq<entry::EntryFacts>, key: BalanceKey)
    requires
        entries.len() > 0,
        books::addressable(entries),
    ensures
        ({
            let last = LogIndex { position: (entries.len() - 1) as u64 };
            let before = books::sites_of(entries.drop_last(), key);
            &&& without(books::sites_of(entries, key), last) == before
            &&& without(before, last) == before
        }),
{
    let last = LogIndex { position: (entries.len() - 1) as u64 };
    let n = entries.len() - 1;
    let kept = books::sites_of(entries.drop_last(), key);
    books::lemma_sites_of_prefix(entries, key, n);
    assert(entries.take(n) =~= entries.drop_last());
    books::lemma_sites(entries, key);
    let all = books::sites_of(entries, key);
    let dropped = all.skip(kept.len() as int);
    assert(all =~= kept + dropped);
    assert forall|i: int| 0 <= i < kept.len() implies (#[trigger] kept[i]).index != last by {
        assert(kept[i] == all[i]);
    }
    assert forall|i: int| 0 <= i < dropped.len() implies (#[trigger] dropped[i]).index
        == last by {
        assert(dropped[i] == all[i + kept.len()]);
        assert(books::names_movement(
            entries,
            all[i + kept.len()],
            books::movements_on(entries, key)[i + kept.len()],
        ));
    }
    lemma_without(kept, dropped, last);
    let none = Seq::<PostingPosition>::empty();
    lemma_without(kept, none, last);
    assert(kept + none =~= kept);
}

/// Drops the sites of one entry from the list of a key.
fn drop_sites(
    sites: &mut SortedMap<BalanceKey, Vec<PostingPosition>>,
    key: BalanceKey,
    index: LogIndex,
)
    ensures
        final(sites)@.contains_key(key) <==> old(sites)@.contains_key(key),
        if old(sites)@.contains_key(key) {
            &&& final(sites)@ == old(sites)@.insert(key, final(sites)@[key])
            &&& final(sites)@[key]@ == without(old(sites)@[key]@, index)
        } else {
            final(sites)@ == old(sites)@
        },
{
    let list: Vec<PostingPosition> = match sites.remove(&key) {
        Some(list) => list,
        None => {
            assert(sites@ =~= old(sites)@);
            return;
        },
    };
    let mut kept: Vec<PostingPosition> = Vec::with_capacity(list.len());
    let mut i: usize = 0;
    assert(list@.take(0) =~= Seq::<PostingPosition>::empty());
    while i < list.len()
        invariant
            i <= list.len(),
            kept@ == without(list@.take(i as int), index),
        decreases list.len() - i,
    {
        assert(list@.take(i + 1).drop_last() =~= list@.take(i as int));
        if list[i].index != index {
            kept.push(list[i]);
        }
        i += 1;
    }
    assert(list@.take(list@.len() as int) =~= list@);
    sites.insert(key, kept);
    assert(sites@ =~= old(sites)@.insert(key, kept));
}

/// True when two sets of balances agree on a key.
spec fn agree_on<const P: u8>(
    a: Map<BalanceKey, Balance<P>>,
    b: Map<BalanceKey, Balance<P>>,
    key: BalanceKey,
) -> bool {
    &&& a.contains_key(key) <==> b.contains_key(key)
    &&& a.contains_key(key) ==> a[key] == b[key]
}

/// True when one of the first `n` postings is on a key.
spec fn posts_to(postings: Seq<posting::Movement>, n: int, key: BalanceKey) -> bool {
    exists|i: int| 0 <= i < n && balance::key_of_movement(#[trigger] postings[i]) == key
}

/// True when two journals keep the same balance and the same list for a key.
spec fn same_on<const P: u8>(a: Journal<P>, b: Journal<P>, key: BalanceKey) -> bool {
    &&& agree_on(a.balances@, b.balances@, key)
    &&& a.sites@.contains_key(key) <==> b.sites@.contains_key(key)
    &&& a.sites@.contains_key(key) ==> a.sites@[key] == b.sites@[key]
}

/// True when a key is among those from position `i` on.
spec fn awaits(keys: Seq<BalanceKey>, i: int, key: BalanceKey) -> bool {
    exists|j: int| i <= j < keys.len() && #[trigger] keys[j] == key
}

/// The sites of a key once those of the last entry's first `n` postings have
/// been dropped.
spec fn sites_left(
    entries: Seq<entry::EntryFacts>,
    postings: Seq<posting::Movement>,
    n: int,
    key: BalanceKey,
) -> Seq<PostingPosition> {
    if posts_to(postings, n, key) {
        books::sites_of(entries.drop_last(), key)
    } else {
        books::sites_of(entries, key)
    }
}

impl<const P: u8> Journal<P> {
    /// What holds while entries are being taken back: the indexes and the lists
    /// are those of the entries that remain, and so are the balances of every key
    /// that was not touched.
    spec fn rolling_back(&self, touched: Map<BalanceKey, bool>) -> bool {
        let entries = self@.entries;
        &&& books::addressable(entries)
        &&& books::distinct_entries(entries)
        &&& books::indexes_ids(self.by_id@, entries)
        &&& books::indexes_keys(P, self.by_key@, entries)
        &&& books::indexes_reversals(self.reversed_by@, entries)
        &&& books::folded::<P>(entries) is Ok
        &&& books::lists_sites(self.sites@, entries)
        &&& self.balances.wf()
        &&& forall|key: BalanceKey|
            !touched.contains_key(key) ==> #[trigger] self.settled_on(
                books::folded::<P>(entries)->Ok_0,
                key,
            )
    }

    /// True when the balance of a key is the one given, and it is listed only
    /// with postings.
    spec fn settled_on(&self, balances: Map<BalanceKey, Balance<P>>, key: BalanceKey) -> bool {
        &&& agree_on(self.balances@, balances, key)
        &&& self.sites@.contains_key(key) ==> self.sites@[key]@.len() > 0
    }

    /// Takes the last entry back, noting the keys it had touched.
    fn undo_last(&mut self, touched: &mut SortedMap<BalanceKey, bool>)
        requires
            old(self).rolling_back(old(touched)@),
            old(self)@.entries.len() > 0,
        ensures
            final(self).rolling_back(final(touched)@),
            *final(self) == (Journal {
                entries: final(self).entries,
                by_id: final(self).by_id,
                by_key: final(self).by_key,
                reversed_by: final(self).reversed_by,
                sites: final(self).sites,
                ..*old(self)
            }),
            final(self)@.entries == old(self)@.entries.drop_last(),
    {
        let ghost entries = self@.entries;
        let ghost before = entries.drop_last();
        let entry = match self.entries.pop() {
            Some(entry) => entry,
            None => {
                return;
            },
        };
        let ghost moves = entry@.postings;
        assert(self@.entries =~= before);
        assert(entries.last() == entry@);
        proof {
            books::lemma_indexes_pop(
                P,
                self.by_id@,
                self.by_key@,
                self.reversed_by@,
                entries,
            );
        }
        let index = LogIndex { position: self.entries.len() as u64 };
        self.by_id.remove(&entry.id());
        self.by_key.remove(entry.idempotency_key());
        if let Some(original) = entry.reverses() {
            self.reversed_by.remove(&original);
        }
        let ghost noted = touched@;
        let postings = entry.postings();
        let mut i: usize = 0;
        let ghost held = *self;
        proof {
            assert forall|key: BalanceKey| #[trigger] lists_exactly(
                self.sites@,
                key,
                sites_left(entries, moves, 0, key),
            ) by {
                assert(books::lists_sites_of(self.sites@, entries, key));
            }
        }
        while i < postings.len()
            invariant
                i <= postings.len(),
                postings@.len() == moves.len(),
                forall|k: int|
                    0 <= k < postings@.len() ==> (#[trigger] postings@[k])@ == moves[k],
                *self == (Journal { sites: self.sites, ..held }),
                entries.len() > 0,
                before == entries.drop_last(),
                books::addressable(entries),
                index.position == entries.len() - 1,
                forall|key: BalanceKey| #[trigger]
                    touched@.contains_key(key) <==> noted.contains_key(key) || posts_to(
                        moves,
                        i as int,
                        key,
                    ),
                forall|key: BalanceKey| #[trigger]
                    lists_exactly(
                        self.sites@,
                        key,
                        sites_left(entries, moves, i as int, key),
                    ),
                forall|key: BalanceKey| #[trigger]
                    self.sites@.contains_key(key) && !touched@.contains_key(key) ==> held.sites@[key]
                        == self.sites@[key] && held.sites@.contains_key(key),
            decreases postings.len() - i,
        {
            let key = balance::key_of(&postings[i]);
            let ghost listed = self.sites@;
            let ghost marked = touched@;
            drop_sites(&mut self.sites, key, index);
            touched.insert(key, true);
            proof {
                assert forall|k: BalanceKey| #[trigger] posts_to(moves, i + 1, k) <==> posts_to(
                    moves,
                    i as int,
                    k,
                ) || k == key by {
                    if posts_to(moves, i as int, k) {
                        let j = choose|j: int|
                            0 <= j < i && balance::key_of_movement(#[trigger] moves[j]) == k;
                        assert(balance::key_of_movement(moves[j]) == k);
                    }
                    if k == key {
                        assert(balance::key_of_movement(moves[i as int]) == k);
                    }
                }
                assert forall|k: BalanceKey| #[trigger] touched@.contains_key(k)
                    <==> noted.contains_key(k) || posts_to(moves, i + 1, k) by {
                    assert(marked.contains_key(k) <==> noted.contains_key(k) || posts_to(
                        moves,
                        i as int,
                        k,
                    ));
                }
                assert forall|k: BalanceKey| #[trigger] lists_exactly(
                    self.sites@,
                    k,
                    sites_left(entries, moves, i + 1, k),
                ) by {
                    let was = sites_left(entries, moves, i as int, k);
                    assert(lists_exactly(listed, k, was));
                    assert(posts_to(moves, i + 1, k) <==> posts_to(moves, i as int, k) || k
                        == key);
                    if k == key {
                        lemma_without_last(entries, k);
                        if !listed.contains_key(k) {
                            assert(was =~= Seq::empty());
                            assert(without(was, index).len() == 0);
                        }
                    }
                }
            }
            i += 1;
        }
        proof {
            let n = moves.len() as int;
            books::lemma_prefix_adds_up::<P>(entries, before.len() as int);
            assert(entries.take(before.len() as int) =~= before);
            assert forall|i: int| 0 <= i < before.len() implies (
            #[trigger] before[i]).postings.len() <= books::ADDRESSABLE by {
                assert(before[i] == entries[i]);
            }
            assert forall|key: BalanceKey| #[trigger] books::lists_sites_of(
                self.sites@,
                before,
                key,
            ) by {
                assert(lists_exactly(
                    self.sites@,
                    key,
                    sites_left(entries, moves, n, key),
                ));
                if !posts_to(moves, n, key) {
                    lemma_no_sites(before.len() as int, moves, key);
                    assert(books::sites_of(entries, key) =~= books::sites_of(before, key));
                }
            }
            assert forall|key: BalanceKey|
                !touched@.contains_key(key) implies #[trigger] self.settled_on(
                books::folded::<P>(before)->Ok_0,
                key,
            ) by {
                assert(!noted.contains_key(key));
                assert(old(self).settled_on(books::folded::<P>(entries)->Ok_0, key));
                assert(!posts_to(moves, n, key));
                books::lemma_entry_keys(moves, key);
                books::lemma_untouched::<P>(entries, key);
            }
        }
    }

    /// Settles the balance of one touched key from the postings that remain.
    ///
    /// Recomputed rather than subtracted from: subtraction would have to trust
    /// that what is being removed is exactly what was added, and recomputation
    /// does not.
    fn settle(&mut self, key: BalanceKey)
        requires
            books::addressable(old(self)@.entries),
            books::folded::<P>(old(self)@.entries) is Ok,
            books::lists_sites(old(self).sites@, old(self)@.entries),
            old(self).balances.wf(),
        ensures
            *final(self) == (Journal {
                balances: final(self).balances,
                sites: final(self).sites,
                ..*old(self)
            }),
            final(self).balances.wf(),
            books::lists_sites(final(self).sites@, final(self)@.entries),
            final(self).settled_on(books::folded::<P>(old(self)@.entries)->Ok_0, key),
            forall|k: BalanceKey|
                k != key ==> #[trigger] same_on(*final(self), *old(self), k),
    {
        let ghost entries = self@.entries;
        proof {
            assert(books::lists_sites_of(self.sites@, entries, key));
            books::lemma_sites(entries, key);
            books::lemma_balance_of_key::<P>(entries, key);
            let all = books::movements_on(entries, key);
            assert(all.take(all.len() as int) =~= all);
        }
        let remaining: Option<Balance<P>> = match self.sites.get(&key) {
            Some(sites) => {
                let n: usize = sites.len();
                if n > 0 {
                    Some(self.fold_first(Ghost(key), sites, n))
                } else {
                    None
                }
            },
            None => None,
        };
        match remaining {
            Some(balance) => {
                self.balances.set(key, balance);
            },
            None => {
                self.sites.remove(&key);
                self.balances.remove(&key);
            },
        }
        assert(self@.entries == entries);
        proof {
            assert forall|k: BalanceKey| #[trigger] books::lists_sites_of(
                self.sites@,
                entries,
                k,
            ) by {
                assert(books::lists_sites_of(old(self).sites@, entries, k));
            }
        }
    }

    /// Undoes every append since the journal held `mark` entries.
    ///
    /// The exact inverse of the appends it removes: identifiers, keys, reversal
    /// links, posting sites and balances all come back to what they were.
    fn rollback_to(&mut self, mark: usize)
        requires
            old(self).wf(),
            mark <= old(self)@.entries.len(),
            soundly_sealed(
                Books { entries: old(self)@.entries.take(mark as int), ..old(self)@ },
            ),
            soundly_cleared(
                Books { entries: old(self)@.entries.take(mark as int), ..old(self)@ },
            ),
        ensures
            final(self).wf(),
            final(self)@ == (Books {
                entries: old(self)@.entries.take(mark as int),
                ..old(self)@
            }),
    {
        let ghost entries = self@.entries;
        let ghost remaining = entries.take(mark as int);
        let mut touched: SortedMap<BalanceKey, bool> = SortedMap::new();
        assert(entries.take(entries.len() as int) =~= entries);
        while self.entries.len() > mark
            invariant
                mark <= self@.entries.len() <= entries.len(),
                self.rolling_back(touched@),
                self@.entries == entries.take(self@.entries.len() as int),
                *self == (Journal {
                    entries: self.entries,
                    by_id: self.by_id,
                    by_key: self.by_key,
                    reversed_by: self.reversed_by,
                    sites: self.sites,
                    ..*old(self)
                }),
            decreases self@.entries.len(),
        {
            let ghost n = self@.entries.len() as int;
            self.undo_last(&mut touched);
            assert(entries.take(n).drop_last() =~= entries.take(n - 1));
        }
        let ghost rolled = *self;
        self.log.truncate(mark as u64);
        proof {
            assert(self@.entries == remaining);
            assert(self.log@ =~= books::content_hashes(P, remaining));
        }
        let ghost balances = books::folded::<P>(remaining)->Ok_0;
        let ghost held = *self;
        let n: usize = touched.len();
        proof {
            touched.lemma_sequences();
            assert forall|key: BalanceKey| #[trigger] self.settled_on(balances, key) || awaits(
                touched.keys(),
                0,
                key,
            ) by {
                if !touched@.contains_key(key) {
                    assert(rolled.settled_on(balances, key));
                } else {
                    let j = choose|j: int|
                        0 <= j < touched.keys().len() && #[trigger] touched.keys()[j] == key;
                    assert(touched.keys()[j] == key);
                }
            }
        }
        let mut i: usize = 0;
        while i < n
            invariant
                i <= n,
                n == touched.keys().len(),
                touched.wf(),
                books::addressable(remaining),
                books::folded::<P>(remaining) == Ok::<Map<BalanceKey, Balance<P>>, MoneyError>(
                    balances,
                ),
                *self == (Journal { balances: self.balances, sites: self.sites, ..held }),
                held@.entries == remaining,
                self.balances.wf(),
                books::lists_sites(self.sites@, remaining),
                forall|key: BalanceKey| #[trigger]
                    self.settled_on(balances, key) || awaits(touched.keys(), i as int, key),
            decreases n - i,
        {
            let key = *touched.key_at(i);
            let ghost was = *self;
            assert(self@.entries == remaining);
            self.settle(key);
            proof {
                assert forall|k: BalanceKey| #[trigger] self.settled_on(balances, k) || awaits(
                    touched.keys(),
                    i + 1,
                    k,
                ) by {
                    assert(was.settled_on(balances, k) || awaits(touched.keys(), i as int, k));
                    if k != key {
                        assert(same_on(*self, was, k));
                        if awaits(touched.keys(), i as int, k) {
                            let j = choose|j: int|
                                i <= j < touched.keys().len() && #[trigger] touched.keys()[j] == k;
                            assert(touched.keys()[j] == k);
                        }
                    }
                }
            }
            i += 1;
        }
        proof {
            assert(self@.entries == remaining);
            assert forall|key: BalanceKey| #[trigger] self.settled_on(balances, key) by {
                assert(self.settled_on(balances, key) || awaits(touched.keys(), n as int, key));
            }
            assert forall|key: BalanceKey|
                self.balances@.contains_key(key) <==> balances.contains_key(key) by {
                assert(self.settled_on(balances, key));
            }
            assert forall|key: BalanceKey| self.balances@.contains_key(key) implies self.balances@[key]
                == balances[key] by {
                assert(self.settled_on(balances, key));
            }
            assert(self.balances@ =~= balances);
            assert forall|key: BalanceKey| #[trigger]
                self.sites@.contains_key(key) implies self.sites@[key]@.len() > 0 by {
                assert(self.settled_on(balances, key));
            }
        }
    }

    /// Records several entries, or none of them.
    ///
    /// Atomicity across entries is not optional: an invoice and the entry that
    /// offsets it must not be separable by a failure partway through. Entries
    /// are applied in order and, if any is refused, everything this call added
    /// is undone — leaving the journal as it started.
    ///
    /// An idempotent replay inside a batch is not a failure: it returns the
    /// original outcome, like a single-entry replay, and the rest of the batch
    /// proceeds.
    pub fn record_batch(&mut self, entries: Vec<Entry<Balanced, P>>) -> (r: Result<
        Vec<Recorded>,
        JournalError,
    >)
        requires
            old(self).wf(),
            forall|i: int|
                0 <= i < entries@.len() ==> (#[trigger] entries@[i])@.postings.len()
                    <= books::ADDRESSABLE,
        ensures
            final(self).wf(),
            match books::batch_outcome::<P>(
                old(self)@.accounts,
                old(self)@.entries,
                entry_facts(entries@),
                entries@.len() as int,
            ) {
                Ok((after, outcomes)) => {
                    &&& r matches Ok(recorded)
                    &&& recorded@ == outcomes
                    &&& final(self)@ == (Books { entries: after, ..old(self)@ })
                },
                Err(refusal) => {
                    &&& r matches Err(e)
                    &&& reports::<P>(e, refusal)
                    &&& final(self)@ == old(self)@
                },
            },
    {
        let mark: usize = self.entries.len();
        let ghost start = self@;
        let ghost facts = entry_facts(entries@);
        let ghost n = entries@.len() as int;
        let mut outcomes: Vec<Recorded> = Vec::with_capacity(entries.len());
        assert(start.entries.take(mark as int) =~= start.entries);
        for entry in it: entries
            invariant
                start == old(self)@,
                old(self).wf(),
                mark == start.entries.len(),
                it.seq() == entries@,
                facts == entry_facts(entries@),
                n == entries@.len(),
                forall|k: int|
                    0 <= k < entries@.len() ==> (#[trigger] entries@[k])@.postings.len()
                        <= books::ADDRESSABLE,
                self.wf(),
                self@ == (Books { entries: self@.entries, ..start }),
                mark <= self@.entries.len(),
                self@.entries.take(mark as int) == start.entries,
                books::batch_outcome::<P>(
                    start.accounts,
                    start.entries,
                    facts,
                    it.index() as int,
                ) == Ok::<(Seq<entry::EntryFacts>, Seq<Recorded>), books::Refusal>(
                    (self@.entries, outcomes@),
                ),
        {
            let ghost was = self@.entries;
            let ghost i = it.index() as int;
            assert(entry == entries@[i]);
            assert(facts[i] == entry@);
            match self.record_validated(entry) {
                Ok(recorded) => {
                    outcomes.push(recorded);
                    assert(self@.entries.take(mark as int) =~= was.take(mark as int));
                },
                Err(e) => {
                    proof {
                        books::lemma_batch_error::<P>(
                            start.accounts,
                            start.entries,
                            facts,
                            i + 1,
                            n,
                        );
                    }
                    self.rollback_to(mark);
                    return Err(e);
                },
            }
        }
        Ok(outcomes)
    }
}

proof fn lemma_no_sites(index: int, postings: Seq<posting::Movement>, key: BalanceKey)
    requires
        !posts_to(postings, postings.len() as int, key),
    ensures
        books::entry_sites(index, postings, key).len() == 0,
    decreases postings.len(),
{
    if postings.len() > 0 {
        let fewer = postings.drop_last();
        if posts_to(fewer, fewer.len() as int, key) {
            let i = choose|i: int|
                0 <= i < fewer.len() && balance::key_of_movement(#[trigger] fewer[i]) == key;
            assert(balance::key_of_movement(postings[i]) == key);
        }
        lemma_no_sites(index, fewer, key);
        assert(balance::key_of_movement(postings[postings.len() - 1]) != key);
    }
}

// ── proofs ──────────────────────────────────────────────────────────────────

impl<const P: u8> Journal<P> {
    /// The content hashes the log commits to.
    pub open spec fn committed(&self) -> Seq<Digest> {
        books::content_hashes(P, self@.entries)
    }

    /// The current tree head.
    #[must_use]
    pub fn head(&self) -> (head: TreeHead)
        requires
            self.wf(),
        ensures
            head == merkle::head_of(self.committed()),
    {
        self.log.head()
    }

    /// The tree head as of an earlier size.
    pub fn head_at(&self, size: u64) -> (r: Result<TreeHead, ProofError>)
        requires
            self.wf(),
        ensures
            r == (if size <= self.committed().len() {
                Ok(merkle::head_of(self.committed().take(size as int)))
            } else {
                Err(
                    ProofError::SizeOutOfRange {
                        from: size,
                        size: self.committed().len() as u64,
                    },
                )
            }),
    {
        self.log.head_at(size)
    }

    /// Proves that the entry at `index` is committed to by the current head.
    pub fn prove_inclusion(&self, index: LogIndex) -> (r: Result<InclusionProof, ProofError>)
        requires
            self.wf(),
        ensures
            match r {
                Ok(proof) => {
                    &&& index.position < self.committed().len()
                    &&& proof.is_audit_path(index.position, self.committed())
                    &&& proof.proves(
                        entry::entry_hash(P, self@.entries[index.position as int]),
                        merkle::head_of(self.committed()),
                    )
                },
                Err(e) => index.position >= self.committed().len() && e == (
                ProofError::IndexOutOfRange {
                    index: index.position,
                    size: self.committed().len() as u64,
                }),
            },
    {
        proof {
            self.log.lemma_bounded();
        }
        let r = self.log.inclusion_proof(index.position);
        proof {
            if r is Ok {
                let proof = r->Ok_0;
                merkle::law_inclusion_proofs_verify(proof, index.position, self.committed());
            }
        }
        r
    }

    /// Proves that the entry at `index` was committed to by the head at `size`.
    ///
    /// What an auditor holding an archived head can actually check. Their head
    /// is not the current one, and the current root says nothing about it, so a
    /// proof against the present log is no use to them. Pair the result with
    /// [`Journal::head_at`], or with the head they archived — the two must
    /// agree, and [`InclusionProof::verify`] is what says so.
    pub fn prove_inclusion_at(&self, index: LogIndex, size: u64) -> (r: Result<
        InclusionProof,
        ProofError,
    >)
        requires
            self.wf(),
        ensures
            match r {
                Ok(proof) => {
                    &&& index.position < size <= self.committed().len()
                    &&& proof.is_audit_path(index.position, self.committed().take(size as int))
                    &&& proof.proves(
                        entry::entry_hash(P, self@.entries[index.position as int]),
                        merkle::head_of(self.committed().take(size as int)),
                    )
                },
                Err(e) => if size > self.committed().len() {
                    e == (ProofError::SizeOutOfRange {
                        from: size,
                        size: self.committed().len() as u64,
                    })
                } else {
                    index.position >= size && e == (ProofError::IndexOutOfRange {
                        index: index.position,
                        size,
                    })
                },
            },
    {
        let r = self.log.inclusion_proof_at(index.position, size);
        proof {
            if r is Ok {
                let proof = r->Ok_0;
                merkle::law_inclusion_proofs_verify(
                    proof,
                    index.position,
                    self.committed().take(size as int),
                );
            }
        }
        r
    }

    /// Proves that the log at `old_size` is a prefix of the current log.
    ///
    /// A proof from `old_size == 0` is **vacuous** — every log extends the empty
    /// tree, so it constrains nothing about the newer one and verifies against
    /// any root at the right size. See [`ConsistencyProof::is_vacuous`].
    pub fn prove_consistency(&self, old_size: u64) -> (r: Result<ConsistencyProof, ProofError>)
        requires
            self.wf(),
        ensures
            match r {
                Ok(proof) => {
                    &&& old_size <= self.committed().len()
                    &&& proof.is_consistency_path(old_size, self.committed())
                    &&& proof.relates(
                        merkle::head_of(self.committed().take(old_size as int)),
                        merkle::head_of(self.committed()),
                    )
                },
                Err(e) => old_size > self.committed().len() && e == (ProofError::SizeOutOfRange {
                    from: old_size,
                    size: self.committed().len() as u64,
                }),
            },
    {
        proof {
            self.log.lemma_bounded();
        }
        let r = self.log.consistency_proof(old_size);
        proof {
            if r is Ok {
                let proof = r->Ok_0;
                merkle::law_consistency_proofs_verify(proof, old_size, self.committed());
            }
        }
        r
    }

    /// Proves that the log at `old_size` is a prefix of the log at `new_size`.
    ///
    /// The general form: two auditors holding different archived heads, neither
    /// of them current, can be shown that one is a prefix of the other without
    /// either learning the log's present size.
    ///
    /// A proof from `old_size == 0` is **vacuous**; see
    /// [`ConsistencyProof::is_vacuous`].
    pub fn prove_consistency_between(&self, old_size: u64, new_size: u64) -> (r: Result<
        ConsistencyProof,
        ProofError,
    >)
        requires
            self.wf(),
        ensures
            match r {
                Ok(proof) => {
                    &&& old_size <= new_size <= self.committed().len()
                    &&& proof.is_consistency_path(
                        old_size,
                        self.committed().take(new_size as int),
                    )
                    &&& proof.relates(
                        merkle::head_of(self.committed().take(old_size as int)),
                        merkle::head_of(self.committed().take(new_size as int)),
                    )
                },
                Err(e) => if new_size > self.committed().len() {
                    e == (ProofError::SizeOutOfRange {
                        from: new_size,
                        size: self.committed().len() as u64,
                    })
                } else {
                    old_size > new_size && e == (ProofError::SizeOutOfRange {
                        from: old_size,
                        size: new_size,
                    })
                },
            },
    {
        let r = self.log.consistency_proof_between(old_size, new_size);
        proof {
            if r is Ok {
                let proof = r->Ok_0;
                let then = self.committed().take(new_size as int);
                assert(then.take(old_size as int) =~= self.committed().take(old_size as int));
                merkle::law_consistency_proofs_verify(proof, old_size, then);
            }
        }
        r
    }

    /// The leaves the log holds.
    pub closed spec fn kept_leaves(&self) -> Seq<Digest> {
        self.log@
    }

    /// The root of the subtree state the log keeps.
    pub closed spec fn kept_root(&self) -> Digest {
        self.log.kept_root()
    }

    /// Recomputes the Merkle log from the stored entries and compares it.
    ///
    /// Checks three things, because they can fail independently: the log commits
    /// to as many leaves as there are entries, those leaves are the entries'
    /// current content hashes, and the incrementally maintained subtree state
    /// still agrees with a full recomputation from the definition.
    #[must_use]
    pub fn verify_log(&self) -> (r: bool)
        ensures
            r == {
                &&& self.kept_leaves().len() == self.committed().len()
                &&& self.kept_root() == merkle::root_of(self.kept_leaves())
                &&& self.kept_root() == merkle::root_of(self.committed())
            },
            self.wf() ==> r,
    {
        if self.log.len() != self.entries.len() as u64 {
            return false;
        }
        if !self.log.verify_incremental_state() {
            return false;
        }
        let n: usize = self.entries.len();
        let mut leaves: Vec<Digest> = Vec::with_capacity(n);
        let mut i: usize = 0;
        while i < n
            invariant
                i <= n,
                n == self.entries@.len(),
                leaves@ == self.committed().take(i as int),
            decreases n - i,
        {
            leaves.push(self.entries[i].content_hash());
            assert(leaves@ =~= self.committed().take(i + 1));
            i += 1;
        }
        assert(self.committed().take(n as int) =~= self.committed());
        let recomputed = MerkleLog::from_leaves(leaves);
        recomputed.root() == self.log.root()
    }

    /// A journal that is in order verifies: its log commits to its entries.
    pub proof fn law_log_commits_to_entries(&self)
        requires
            self.wf(),
        ensures
            self.kept_leaves() == self.committed(),
            self.kept_root() == merkle::root_of(self.committed()),
            self.committed().len() <= u64::MAX,
    {
        self.log.lemma_bounded();
        self.log.lemma_kept_root();
    }

    /// Currencies present in the journal, in deterministic order.
    #[must_use]
    pub fn currencies(&self) -> (currencies: Vec<Currency>)
        requires
            self.wf(),
        ensures
            balance::lists_currencies(
                books::balances_at::<P>(self@.entries, None),
                currencies@,
            ),
    {
        self.balances.currencies()
    }

    /// The entries are distinct, their postings can be addressed, and they add up.
    pub proof fn lemma_entries(&self)
        requires
            self.wf(),
        ensures
            books::distinct_entries(self@.entries),
            books::addressable(self@.entries),
            books::folded::<P>(self@.entries) is Ok,
    {
    }

    /// Checks that debits equal credits across the whole journal, in every
    /// currency, settled and pending together.
    ///
    /// Every entry balances individually, so this must hold; running it is a
    /// direct test that the maintained balances and the invariant have not
    /// drifted apart.
    ///
    /// # Errors
    ///
    /// Returns [`MoneyError::Overflow`] if totalling a currency in one of the
    /// layers overflows.
    pub fn verify_balanced(&self) -> (r: Result<bool, MoneyError>)
        requires
            self.wf(),
        ensures
            exists|currencies: Seq<Currency>|
                #[trigger] balance::lists_currencies(
                    books::balances_at::<P>(self@.entries, None),
                    currencies,
                ) && r == all_balanced(
                    balance::rows_of(books::balances_at::<P>(self@.entries, None)),
                    currencies,
                    0,
                ),
            books::entries_balance(self@.entries) ==> r == Ok::<bool, MoneyError>(true) || r
                == Err::<bool, MoneyError>(MoneyError::Overflow),
    {
        let currencies = self.balances.currencies();
        proof {
            self.balances.lemma_rows();
            if books::entries_balance(self@.entries) {
                law_validated_books_verify::<P>(self@.entries, currencies@);
            }
        }
        let ghost rows = self.balances.rows();
        let mut i: usize = 0;
        while i < currencies.len()
            invariant
                i <= currencies.len(),
                rows == self.balances.rows(),
                rows == balance::rows_of(books::balances_at::<P>(self@.entries, None)),
                balance::lists_currencies(
                    books::balances_at::<P>(self@.entries, None),
                    currencies@,
                ),
                all_balanced(rows, currencies@, 0) == all_balanced(rows, currencies@, i as int),
                books::entries_balance(self@.entries) ==> all_balanced(rows, currencies@, 0)
                    == Ok::<bool, MoneyError>(true) || all_balanced(rows, currencies@, 0) == Err::<
                    bool,
                    MoneyError,
                >(MoneyError::Overflow),
            decreases currencies.len() - i,
        {
            let settled = match self.balances.totals(currencies[i], Layer::Settled) {
                Ok(totals) => totals,
                Err(e) => {
                    return Err(e);
                },
            };
            let pending = match self.balances.totals(currencies[i], Layer::Pending) {
                Ok(totals) => totals,
                Err(e) => {
                    return Err(e);
                },
            };
            let debits: i128 = settled.debits.minor as i128 + pending.debits.minor as i128;
            let credits: i128 = settled.credits.minor as i128 + pending.credits.minor as i128;
            if debits != credits {
                return Ok(false);
            }
            i += 1;
        }
        Ok(true)
    }

    // ── statements ──────────────────────────────────────────────────────────

    /// Every posting touching `key`, in log order, with the running balance
    /// after each.
    ///
    /// This is the account statement a reader actually wants: a trial balance
    /// says where an account ended up, and says nothing about how it got there.
    pub fn statement(&self, key: &BalanceKey) -> (r: Result<Vec<StatementLine<P>>, MoneyError>)
        requires
            self.wf(),
        ensures
            r matches Ok(lines) && storage::line_facts(lines@) == books::statement_of::<P>(
                self@.entries,
                *key,
            ),
            r matches Ok(lines) && forall|n: int|
                0 <= n < lines@.len() ==> (books::posting_at(
                    self@.entries,
                    (#[trigger] lines@[n]).posting,
                ) matches Some(m) && m.direction == lines@[n].direction && m.minor
                    == lines@[n].amount.minor && balance::key_of_movement(m) == *key),
    {
        let ghost entries = self@.entries;
        let ghost moves = books::movements_on(entries, *key);
        let ghost wanted = books::statement_of::<P>(entries, *key);
        proof {
            assert(books::lists_sites_of(self.sites@, entries, *key));
            books::lemma_sites(entries, *key);
            assert(moves.take(0) =~= Seq::<posting::Movement>::empty());
        }
        let mut lines: Vec<StatementLine<P>> = Vec::new();
        let sites = match self.sites.get(key) {
            Some(sites) => sites,
            None => {
                assert(storage::line_facts(lines@) =~= wanted);
                return Ok(lines);
            },
        };
        let mut running: Balance<P> = Balance::zero();
        let mut i: usize = 0;
        while i < sites.len()
            invariant
                i <= sites.len(),
                entries == self@.entries,
                books::addressable(entries),
                books::folded::<P>(entries) is Ok,
                sites@ == books::sites_of(entries, *key),
                moves == books::movements_on(entries, *key),
                wanted == books::statement_of::<P>(entries, *key),
                storage::line_facts(lines@) == wanted.take(i as int),
                books::fold_movements(balance::zero_balance::<P>(), moves.take(i as int)) == Ok::<
                    Balance<P>,
                    MoneyError,
                >(running),
            decreases sites.len() - i,
        {
            proof {
                books::lemma_sites(entries, *key);
                assert(books::names_movement(
                    entries,
                    books::sites_of(entries, *key)[i as int],
                    moves[i as int],
                ));
                assert(moves.take(i + 1).drop_last() =~= moves.take(i as int));
                books::lemma_running_balance::<P>(entries, *key, i + 1);
            }
            let site = sites[i];
            if let Some((entry, posting)) = self.resolve(site) {
                match running.add(posting.direction, posting.amount) {
                    Ok(()) => {},
                    Err(e) => {
                        return Err(e);
                    },
                }
                let line = StatementLine {
                    index: site.index,
                    posting: PostingRef { entry: entry.id(), index: site.posting },
                    booking_date: entry.booking_date(),
                    direction: posting.direction,
                    amount: posting.amount,
                    running,
                    kind: match entry.kind() {
                        Some(kind) => Some(kind.clone()),
                        None => None,
                    },
                };
                let ghost before = lines@;
                lines.push(line);
                assert(line@ == wanted[i as int]);
                assert(storage::line_facts(lines@) =~= storage::line_facts(before).push(line@));
                assert(storage::line_facts(lines@) =~= wanted.take(i + 1));
            }
            i += 1;
        }
        assert(wanted.take(wanted.len() as int) =~= wanted);
        proof {
            assert forall|n: int| 0 <= n < lines@.len() implies (books::posting_at(
                entries,
                (#[trigger] lines@[n]).posting,
            ) matches Some(m) && m.direction == lines@[n].direction && m.minor
                == lines@[n].amount.minor && balance::key_of_movement(m) == *key) by {
                assert(storage::line_facts(lines@)[n] == lines@[n]@);
                laws::reading::law_statement_lines_show_their_postings::<P>(entries, *key, n);
            }
        }
        Ok(lines)
    }

    /// References to every posting on `key`, in log order.
    #[must_use]
    pub fn postings_on(&self, key: &BalanceKey) -> (references: Vec<PostingRef>)
        requires
            self.wf(),
        ensures
            references@ == books::references_on(self@.entries, *key),
    {
        let ghost entries = self@.entries;
        let ghost wanted = books::references_on(entries, *key);
        proof {
            assert(books::lists_sites_of(self.sites@, entries, *key));
            books::lemma_sites(entries, *key);
        }
        let mut references: Vec<PostingRef> = Vec::new();
        let sites = match self.sites.get(key) {
            Some(sites) => sites,
            None => {
                assert(references@ =~= wanted);
                return references;
            },
        };
        let mut i: usize = 0;
        while i < sites.len()
            invariant
                i <= sites.len(),
                entries == self@.entries,
                books::addressable(entries),
                sites@ == books::sites_of(entries, *key),
                wanted == books::references_on(entries, *key),
                references@ == wanted.take(i as int),
            decreases sites.len() - i,
        {
            let site = sites[i];
            proof {
                books::lemma_sites(entries, *key);
                assert(books::names_movement(
                    entries,
                    books::sites_of(entries, *key)[i as int],
                    books::movements_on(entries, *key)[i as int],
                ));
            }
            if let Some(entry) = self.at(site.index) {
                references.push(PostingRef { entry: entry.id(), index: site.posting });
                assert(references@ =~= wanted.take(i + 1));
            }
            i += 1;
        }
        assert(wanted.take(wanted.len() as int) =~= wanted);
        references
    }
}

/// True when debits equal credits in every currency from position `i` on, settled
/// and pending together, or the overflow of a layer's total where one comes before
/// a currency that does not balance.
pub open spec fn all_balanced<const P: u8>(
    rows: Seq<(BalanceKey, Balance<P>)>,
    currencies: Seq<Currency>,
    i: int,
) -> Result<bool, MoneyError>
    decreases currencies.len() - i,
{
    if i >= currencies.len() {
        Ok(true)
    } else {
        match balance::rows_total(rows, currencies[i], Layer::Settled) {
            Err(e) => Err(e),
            Ok(settled) => match balance::rows_total(rows, currencies[i], Layer::Pending) {
                Err(e) => Err(e),
                Ok(pending) => if settled.debits.minor + pending.debits.minor
                    != settled.credits.minor + pending.credits.minor {
                    Ok(false)
                } else {
                    all_balanced(rows, currencies, i + 1)
                },
            },
        }
    }
}

proof fn lemma_total_error<const P: u8>(
    rows: Seq<(BalanceKey, Balance<P>)>,
    currency: Currency,
    layer: Layer,
)
    ensures
        balance::rows_total(rows, currency, layer) matches Err(e) ==> e == MoneyError::Overflow,
    decreases rows.len(),
{
    if rows.len() > 0 {
        lemma_total_error(rows.drop_last(), currency, layer);
    }
}

proof fn lemma_balanced_from<const P: u8>(
    entries: Seq<entry::EntryFacts>,
    currencies: Seq<Currency>,
    i: int,
)
    requires
        books::folded::<P>(entries) is Ok,
        books::entries_balance(entries),
        0 <= i,
    ensures
        ({
            let rows = balance::rows_of(books::folded::<P>(entries)->Ok_0);
            match all_balanced(rows, currencies, i) {
                Ok(balanced) => balanced,
                Err(e) => e == MoneyError::Overflow,
            }
        }),
    decreases currencies.len() - i,
{
    if i < currencies.len() {
        let rows = balance::rows_of(books::folded::<P>(entries)->Ok_0);
        let currency = currencies[i];
        lemma_total_error(rows, currency, Layer::Settled);
        lemma_total_error(rows, currency, Layer::Pending);
        lemma_balanced_from::<P>(entries, currencies, i + 1);
        if balance::rows_total(rows, currency, Layer::Settled) is Ok && balance::rows_total(
            rows,
            currency,
            Layer::Pending,
        ) is Ok {
            books::law_books_balance::<P>(entries, currency);
            books::lemma_total_is_sum(rows, currency, Layer::Settled);
            books::lemma_total_is_sum(rows, currency, Layer::Pending);
        }
    }
}

/// Validated books verify: where entries add up and every one of them balances,
/// totalling any currencies finds debits equal to credits, or overflows.
pub proof fn law_validated_books_verify<const P: u8>(
    entries: Seq<entry::EntryFacts>,
    currencies: Seq<Currency>,
)
    requires
        books::folded::<P>(entries) is Ok,
        books::entries_balance(entries),
    ensures
        match all_balanced(
            balance::rows_of(books::balances_at::<P>(entries, None)),
            currencies,
            0,
        ) {
            Ok(balanced) => balanced,
            Err(e) => e == MoneyError::Overflow,
        },
{
    lemma_balanced_from::<P>(entries, currencies, 0);
}

// ── clearing ────────────────────────────────────────────────────────────────

/// Resolves posting references against the journal's entries.
struct PostingIndex<'a, const P: u8> {
    by_id: &'a SortedMap<EntryId, LogIndex>,
    entries: &'a Vec<Entry<Balanced, P>>,
}

impl<'a, const P: u8> PostingLookup<P> for PostingIndex<'a, P> {
    closed spec fn resolved(&self, reference: PostingRef) -> Option<posting::Movement> {
        if self.by_id@.contains_key(reference.entry) {
            let i = self.by_id@[reference.entry].position;
            if i < self.entries@.len() && reference.index
                < self.entries@[i as int]@.postings.len() {
                Some(self.entries@[i as int]@.postings[reference.index as int])
            } else {
                None
            }
        } else {
            None
        }
    }

    fn posting(&self, reference: PostingRef) -> (r: Option<&Posting<P>>) {
        let index: LogIndex = match self.by_id.get(&reference.entry) {
            Some(index) => *index,
            None => {
                return None;
            },
        };
        if index.position >= self.entries.len() as u64 {
            return None;
        }
        let postings = self.entries[index.position as usize].postings();
        if (reference.index as usize) < postings.len() {
            Some(&postings[reference.index as usize])
        } else {
            None
        }
    }
}

/// The index resolves every reference to the posting it names.
proof fn lemma_lookup<'a, const P: u8>(lookup: PostingIndex<'a, P>)
    requires
        books::indexes_ids(lookup.by_id@, entry_facts(lookup.entries@)),
    ensures
        clearing::resolver::<P, PostingIndex<'a, P>>(lookup) == books::postings_of(
            entry_facts(lookup.entries@),
        ),
{
    let entries = entry_facts(lookup.entries@);
    let f = clearing::resolver::<P, PostingIndex<'a, P>>(lookup);
    let g = books::postings_of(entries);
    assert forall|reference: PostingRef| #[trigger] f(reference) == g(reference) by {
        assert(books::finds_id(lookup.by_id@, entries, reference.entry));
        books::lemma_find_id(entries, reference.entry);
    }
    assert(f =~= g);
}

impl<const P: u8> Journal<P> {
    /// Records that a set of postings offset one another.
    pub fn clear(&mut self, clearing: Clearing<P>) -> (r: Result<(), JournalError>)
        requires
            old(self).wf(),
        ensures
            final(self).wf(),
            match clearing::clearing_fault::<P>(
                old(self)@.clearings,
                clearing@,
                books::postings_of(old(self)@.entries),
            ) {
                None => {
                    &&& r is Ok
                    &&& final(self)@ == (Books {
                        clearings: old(self)@.clearings.push(
                            clearing::EventFacts::Cleared(clearing@),
                        ),
                        ..old(self)@
                    })
                },
                Some(e) => {
                    &&& r == Err::<(), JournalError>(JournalError::Clearing(e))
                    &&& final(self)@ == old(self)@
                },
            },
            r is Ok <==> laws::clearing::may_be_recorded(
                old(self)@.clearings,
                clearing@,
                books::postings_of(old(self)@.entries),
            ),
    {
        let ghost before = self@;
        proof {
            laws::clearing::law_clearings_are_accepted_exactly_when_in_order(
                before.clearings,
                clearing@,
                books::postings_of(before.entries),
            );
        }
        let lookup = PostingIndex { by_id: &self.by_id, entries: &self.entries };
        proof {
            lemma_lookup(lookup);
            self.clearings.lemma_history();
        }
        match self.clearings.clear(clearing, &lookup) {
            Ok(()) => {
                proof {
                    assert forall|reference: PostingRef| #[trigger] clearing::application_fits(
                        self@.clearings,
                        books::postings_of(before.entries),
                        reference,
                    ) by {
                        assert(clearing::application_fits(
                            before.clearings,
                            books::postings_of(before.entries),
                            reference,
                        ));
                        clearing::lemma_fits_after_clearing(
                            before.clearings,
                            clearing@,
                            books::postings_of(before.entries),
                            reference,
                        );
                    }
                }
                Ok(())
            },
            Err(e) => Err(JournalError::Clearing(e)),
        }
    }

    /// Releases a clearing, reopening the items it had assigned.
    pub fn reset_clearing(&mut self, id: ClearingId, on: Date) -> (r: Result<(), JournalError>)
        requires
            old(self).wf(),
        ensures
            final(self).wf(),
            if !clearing::recorded(old(self)@.clearings, id) {
                &&& r == Err::<(), JournalError>(
                    JournalError::Clearing(ClearingError::UnknownClearing { id }),
                )
                &&& final(self)@ == old(self)@
            } else if clearing::released(old(self)@.clearings, id) {
                &&& r == Err::<(), JournalError>(
                    JournalError::Clearing(ClearingError::AlreadyReset { id }),
                )
                &&& final(self)@ == old(self)@
            } else {
                &&& r is Ok
                &&& final(self)@ == (Books {
                    clearings: old(self)@.clearings.push(
                        clearing::EventFacts::Reset { clearing: id, on },
                    ),
                    ..old(self)@
                })
            },
    {
        let ghost before = self@;
        proof {
            self.clearings.lemma_history();
        }
        match self.clearings.reset(id, on) {
            Ok(()) => {
                proof {
                    assert forall|reference: PostingRef| #[trigger] clearing::application_fits(
                        self@.clearings,
                        books::postings_of(before.entries),
                        reference,
                    ) by {
                        assert(clearing::application_fits(
                            before.clearings,
                            books::postings_of(before.entries),
                            reference,
                        ));
                        clearing::lemma_fits_after_reset(
                            before.clearings,
                            id,
                            on,
                            books::postings_of(before.entries),
                            reference,
                        );
                    }
                }
                Ok(())
            },
            Err(e) => Err(JournalError::Clearing(e)),
        }
    }

    /// The clearing register.
    #[must_use]
    pub fn clearings(&self) -> (register: &ClearingRegister<P>)
        requires
            self.wf(),
        ensures
            register@ == self@.clearings,
            register.wf(),
    {
        &self.clearings
    }

    /// No posting is ever cleared beyond its amount.
    pub proof fn law_clearings_stay_within_postings(&self, reference: PostingRef)
        requires
            self.wf(),
        ensures
            clearing::application_fits(
                self@.clearings,
                books::postings_of(self@.entries),
                reference,
            ),
    {
    }

    /// Postings on `key` with something still outstanding, oldest first, and
    /// where each of them stands.
    pub(crate) fn open_positions(&self, key: &BalanceKey) -> (r: Result<
        Vec<(PostingPosition, OpenItem<P>)>,
        JournalError,
    >)
        requires
            self.wf(),
        ensures
            match books::open_on::<P>(self@.clearings, self@.entries, *key) {
                Ok(open) => r matches Ok(found) && found@ == open,
                Err(e) => r matches Err(JournalError::Clearing(cause)) && cause == e,
            },
    {
        let ghost entries = self@.entries;
        let ghost events = self@.clearings;
        let mut found: Vec<(PostingPosition, OpenItem<P>)> = Vec::new();
        proof {
            assert(books::lists_sites_of(self.sites@, entries, *key));
        }
        let sites = match self.sites.get(key) {
            Some(sites) => sites,
            None => {
                return Ok(found);
            },
        };
        let lookup = PostingIndex { by_id: &self.by_id, entries: &self.entries };
        proof {
            lemma_lookup(lookup);
        }
        let mut i: usize = 0;
        while i < sites.len()
            invariant
                i <= sites.len(),
                entries == self@.entries,
                events == self@.clearings,
                self.clearings.wf(),
                books::addressable(entries),
                sites@ == books::sites_of(entries, *key),
                clearing::resolver::<P, PostingIndex<'_, P>>(lookup) == books::postings_of(entries),
                books::open_sites::<P>(events, entries, *key, i as int) == Ok::<
                    Seq<(PostingPosition, OpenItem<P>)>,
                    ClearingError,
                >(found@),
            decreases sites.len() - i,
        {
            let site = sites[i];
            proof {
                books::lemma_sites(entries, *key);
                assert(books::names_movement(
                    entries,
                    books::sites_of(entries, *key)[i as int],
                    books::movements_on(entries, *key)[i as int],
                ));
            }
            if let Some(entry) = self.at(site.index) {
                let reference = PostingRef { entry: entry.id(), index: site.posting };
                match self.clearings.open_item(reference, &lookup) {
                    Ok(Some(item)) => {
                        found.push((site, item));
                    },
                    Ok(None) => {},
                    Err(e) => {
                        proof {
                            books::lemma_open_sites_error::<P>(
                                events,
                                entries,
                                *key,
                                i + 1,
                                sites@.len() as int,
                            );
                        }
                        return Err(JournalError::Clearing(e));
                    },
                }
            }
            i += 1;
        }
        Ok(found)
    }

    /// Postings on `key` with something still outstanding, oldest first.
    ///
    /// Oldest first is not a convenience: FIFO — apply this payment to the
    /// oldest open invoice — is what open items are for. "Oldest" is log order,
    /// never entry-identifier order, because identifiers are caller-supplied.
    pub fn open_items(&self, key: &BalanceKey) -> (r: Result<Vec<OpenItem<P>>, JournalError>)
        requires
            self.wf(),
        ensures
            match clearing::open_among::<P>(
                self@.clearings,
                books::references_on(self@.entries, *key),
                books::references_on(self@.entries, *key).len() as int,
                books::postings_of(self@.entries),
            ) {
                Ok(open) => r matches Ok(items) && items@ == open,
                Err(e) => r matches Err(JournalError::Clearing(cause)) && cause == e,
            },
    {
        proof {
            books::lemma_open_items::<P>(
                self@.clearings,
                self@.entries,
                *key,
                books::sites_of(self@.entries, *key).len() as int,
            );
        }
        let open = match self.open_positions(key) {
            Ok(open) => open,
            Err(e) => {
                return Err(e);
            },
        };
        let mut items: Vec<OpenItem<P>> = Vec::with_capacity(open.len());
        let mut i: usize = 0;
        while i < open.len()
            invariant
                i <= open.len(),
                items@ == books::items_of(open@).take(i as int),
            decreases open.len() - i,
        {
            items.push(open[i].1);
            assert(items@ =~= books::items_of(open@).take(i + 1));
            i += 1;
        }
        assert(books::items_of(open@).take(open@.len() as int) =~= books::items_of(open@));
        Ok(items)
    }
}

// ── periods and seals ───────────────────────────────────────────────────────

/// The seal some books would put on a period with these closing balances.
pub open spec fn seal_on<const P: u8>(
    books: Books<P>,
    period: Seq<char>,
    closing: Map<BalanceKey, Balance<P>>,
) -> seal::SealFacts {
    seal::sealed(
        books.ledger,
        period,
        books::coverage_of(
            books.entries,
            books.periods[period].start@,
            books.periods[period].end@,
        ),
        merkle::head_of(books::content_hashes(P, books.entries)),
        closing,
        account::commitment_of(books.accounts).root,
        match seal::last_of(books.seals) {
            Some(last) => Some(last.seal_hash),
            None => None,
        },
    )
}

/// Books after a period was sealed over these closing balances.
pub open spec fn sealed_books<const P: u8>(
    books: Books<P>,
    period: Seq<char>,
    closing: Map<BalanceKey, Balance<P>>,
) -> Books<P> {
    Books {
        periods: books.periods.insert(
            period,
            period::PeriodFacts { state: PeriodState::Sealed, ..books.periods[period] },
        ),
        seals: books.seals.push(seal_on(books, period, closing)),
        sealed_accounts: books.sealed_accounts.push(books.accounts),
        ..books
    }
}

impl<const P: u8> Journal<P> {
    /// Smallest index range containing the period's entries, and how many there
    /// are.
    ///
    /// Entries are appended in recording order, not booking-date order, so a
    /// period's entries need not be contiguous — hence the separate count.
    fn coverage(&self, start: Date, end: Date) -> (coverage: PeriodCoverage)
        requires
            self.entries@.len() <= u64::MAX,
        ensures
            coverage == books::coverage_of(self@.entries, start@, end@),
            laws::reading::covers_what_was_booked(self@.entries, start@, end@, coverage),
    {
        let ghost entries = self@.entries;
        proof {
            laws::reading::lemma_coverage(entries, start@, end@);
        }
        let mut coverage = PeriodCoverage::empty();
        let mut i: usize = 0;
        assert(entries.take(0) =~= Seq::<entry::EntryFacts>::empty());
        while i < self.entries.len()
            invariant
                i <= self.entries@.len(),
                self.entries@.len() <= u64::MAX,
                entries == self@.entries,
                coverage == books::coverage_of(entries.take(i as int), start@, end@),
                coverage.entry_count <= i,
            decreases self.entries@.len() - i,
        {
            proof {
                assert(entries.take(i + 1).drop_last() =~= entries.take(i as int));
                assert(entries.take(i + 1).last() == self.entries@[i as int]@);
            }
            let date = self.entries[i].booking_date();
            if start.at_most(&date) && date.at_most(&end) {
                let index: u64 = i as u64;
                coverage = PeriodCoverage {
                    first_index: match coverage.first_index {
                        Some(first) => Some(first),
                        None => Some(index),
                    },
                    last_index: Some(index),
                    entry_count: coverage.entry_count + 1,
                };
            }
            i += 1;
        }
        assert(entries.take(entries.len() as int) =~= entries);
        coverage
    }

    /// Seals a closing period, committing to its entries and closing balances.
    ///
    /// The preconditions are [`PeriodCalendar::check_sealable`]'s: the period is
    /// defined, it is in [`PeriodState::Closing`], and it is the next one due in
    /// date order. The last of those is what makes the closing balance a stable
    /// claim — it is cumulative through the period's last day, so an earlier
    /// period still open could restate it afterwards with a perfectly ordinary
    /// booking.
    ///
    /// The seal commits to three things: the log's tree head, the period's
    /// closing trial balance, and the account registry those balances are keyed
    /// on — see [`Seal::accounts_root`] for why the last one is not optional.
    ///
    /// On success the period advances to [`PeriodState::Sealed`] and the
    /// calendar's watermark moves with it, freezing every date up to and
    /// including the period's last. The seal is appended to the chain *first*,
    /// so a seal the chain refuses could not leave a period marked sealed with
    /// nothing sealing it; a journal's own seals always chain.
    pub fn seal_period(&mut self, period: &PeriodId) -> (r: Result<Seal, JournalError>)
        requires
            old(self).wf(),
        ensures
            final(self).wf(),
            ({
                let books = old(self)@;
                if !period::sealable(books.periods, period@) {
                    &&& r matches Err(JournalError::Period(e))
                    &&& period::refuses_sealing(books.periods, period@, e)
                    &&& final(self)@ == books
                } else {
                    match books::folded::<P>(
                        books::through(books.entries, books.periods[period@].end@),
                    ) {
                        Err(e) => {
                            &&& r == Err::<Seal, JournalError>(JournalError::Money(e))
                            &&& final(self)@ == books
                        },
                        Ok(closing) => {
                            &&& r matches Ok(seal)
                            &&& seal@ == seal_on(books, period@, closing)
                            &&& final(self)@ == sealed_books(books, period@, closing)
                            &&& laws::reading::covers_what_was_booked(
                                books.entries,
                                books.periods[period@].start@,
                                books.periods[period@].end@,
                                (PeriodCoverage {
                                    first_index: seal.first_index,
                                    last_index: seal.last_index,
                                    entry_count: seal.entry_count,
                                }),
                            )
                        },
                    }
                }
            }),
    {
        let ghost books = self@;
        let (start, end): (Date, Date) = match self.calendar.check_sealable(period) {
            Ok(definition) => (definition.start, definition.end),
            Err(e) => {
                return Err(JournalError::Period(e));
            },
        };
        proof {
            self.log.lemma_bounded();
        }
        let coverage = self.coverage(start, end);
        let closing = match self.trial_balance_through_date(end) {
            Ok(closing) => closing,
            Err(e) => {
                return Err(JournalError::Money(e));
            },
        };
        let seal = Seal::build(
            self.ledger.clone(),
            period.clone(),
            coverage,
            self.head(),
            &closing,
            // The registry as it stands now: the same one the trial balance's
            // handles were resolved against.
            self.accounts.commitment().root,
            self.seals.head(),
        );
        let registry = self.accounts.clone();
        proof {
            lemma_seal_chains(books, seal@);
        }
        // Chain first: a refused seal must leave the period exactly as it was.
        match self.seals.push(seal.clone()) {
            Ok(()) => {},
            Err(e) => {
                return Err(JournalError::Seal(e));
            },
        }
        match self.calendar.transition(period, PeriodState::Sealed) {
            Ok(()) => {},
            Err(e) => {
                return Err(JournalError::Period(e));
            },
        }
        let ghost kept = self.sealed_accounts@;
        self.sealed_accounts.push(registry);
        proof {
            assert(self@.sealed_accounts =~= books.sealed_accounts.push(books.accounts));
            assert(self@.seals.drop_last() =~= books.seals);
            assert forall|i: int| 0 <= i < self@.seals.len() implies {
                &&& (#[trigger] self@.seals[i]).ledger == books.ledger
                &&& self@.seals[i].tree_head.size <= books.entries.len()
                &&& self@.seals[i].accounts_root == account::commitment_of(
                    self@.sealed_accounts[i],
                ).root
            } by {
                if i < books.seals.len() {
                    assert(self@.seals[i] == books.seals[i]);
                    assert(self@.sealed_accounts[i] == books.sealed_accounts[i]);
                }
            }
            assert(soundly_sealed(self@));
            laws::reading::lemma_coverage(
                books.entries,
                books.periods[period@].start@,
                books.periods[period@].end@,
            );
        }
        Ok(seal)
    }

    /// The chain of seals recorded so far.
    #[must_use]
    pub fn seals(&self) -> (seals: &SealChain)
        ensures
            seals@ == self@.seals,
    {
        &self.seals
    }

    /// Verifies every seal and every link between them.
    pub fn verify_seals(&self) -> (r: Result<(), SealChainError>)
        ensures
            match seal::chain_fault(self@.seals) {
                None => r is Ok,
                Some(fault) => r matches Err(e) && e@ == fault,
            },
            self.wf() ==> r is Ok,
    {
        self.seals.verify()
    }

    /// The seals of a journal chain, and each commits to the accounts that were
    /// in force when it was taken.
    pub proof fn law_seals_chain(&self)
        requires
            self.wf(),
        ensures
            soundly_sealed(self@),
    {
    }

    /// Proves what one account closed a sealed period at, and names it.
    ///
    /// The complete claim an auditor wants, from one call: the seal, an
    /// `O(log n)` path to the balance row, and an `O(log n)` path binding that
    /// row's handle to an account — disclosing nothing else.
    ///
    /// Assembled by hand this is a five-step recipe of which exactly one step
    /// matters, and it is the one nothing forces: comparing the rebuilt
    /// commitment against the one the seal recorded. Skip it and the proof is
    /// against a commitment you just computed yourself — internally consistent,
    /// evidence of nothing. [`SealedBalance::assemble`] is where that check
    /// lives.
    ///
    /// Note which fold rebuilds the closing balance:
    /// [`Journal::trial_balance_through_date`], by booking date, not
    /// [`Journal::trial_balance`] over a log prefix. Sealing March in April is
    /// the normal case, so at the moment the seal is taken the log already holds
    /// April entries and the two differ. The account is proven from the registry
    /// as it stood at sealing, which later closures and limits leave alone.
    pub fn prove_sealed_balance(&self, period: &PeriodId, key: BalanceKey) -> (r: Result<
        SealedBalanceOutcome<P>,
        JournalError,
    >)
        requires
            self.wf(),
        ensures
            answers_sealed_balance(self@, period@, key, r),
    {
        let at: usize = match self.seals.position(period) {
            Some(at) => at,
            None => {
                return Err(
                    JournalError::SealedBalance(
                        SealedBalanceError::NotSealed { period: period.clone() },
                    ),
                );
            },
        };
        let all = self.seals.seals();
        let seal = all[at].clone();
        proof {
            assert(seal::seal_facts(all@)[at as int] == seal@);
            assert(self@.seals[at as int].ledger == self@.ledger);
            assert(self@.sealed_accounts[at as int] == self.sealed_accounts@[at as int]@);
            seal::lemma_chained_seals_are_consistent(self@.seals, at as int);
        }
        let end: Date = match self.calendar.get(period) {
            Some(definition) => definition.end,
            None => {
                return Err(
                    JournalError::SealedBalance(
                        SealedBalanceError::UndefinedPeriod { period: period.clone() },
                    ),
                );
            },
        };
        let closing = match self.trial_balance_through_date(end) {
            Ok(closing) => closing,
            Err(e) => {
                return Err(JournalError::Money(e));
            },
        };
        match SealedBalance::assemble(seal, &closing, &self.sealed_accounts[at], key) {
            Ok(outcome) => Ok(outcome),
            Err(e) => Err(JournalError::SealedBalance(e)),
        }
    }
}

/// A seal that a journal builds chains to its last one.
proof fn lemma_seal_chains<const P: u8>(books: Books<P>, s: seal::SealFacts)
    requires
        soundly_sealed(books),
        seal::self_consistent(s),
        s.ledger == books.ledger,
        s.tree_head.size == books.entries.len(),
        s.prev_seal == (match seal::last_of(books.seals) {
            Some(last) => Some(last.seal_hash),
            None => None,
        }),
    ensures
        seal::link_fault(seal::last_of(books.seals), s) is None,
        seal::chain_fault(books.seals.push(s)) is None,
{
    assert(books.seals.push(s).drop_last() =~= books.seals);
    if books.seals.len() > 0 {
        let i = books.seals.len() - 1;
        assert(books.seals[i].ledger == books.ledger);
    }
}

/// True when `r` answers what a key closed a sealed period at.
pub open spec fn answers_sealed_balance<const P: u8>(
    books: Books<P>,
    period: Seq<char>,
    key: BalanceKey,
    r: Result<SealedBalanceOutcome<P>, JournalError>,
) -> bool {
    match seal::seal_of(books.seals, period) {
        None => {
            &&& r matches Err(JournalError::SealedBalance(SealedBalanceError::NotSealed {
                period: named,
            }))
            &&& named@ == period
        },
        Some(k) => if !books.periods.contains_key(period) {
            &&& r matches Err(JournalError::SealedBalance(SealedBalanceError::UndefinedPeriod {
                period: named,
            }))
            &&& named@ == period
        } else {
            match books::folded::<P>(
                books::through(books.entries, books.periods[period].end@),
            ) {
                Err(e) => r matches Err(JournalError::Money(cause)) && cause == e,
                Ok(closing) => if seal::balances_root(closing)
                    != books.seals[k].trial_balance_root {
                    &&& r matches Err(JournalError::SealedBalance(SealedBalanceError::Restated {
                        period: named,
                    }))
                    &&& named@ == period
                } else if key.account.position >= books.sealed_accounts[k].len() {
                    r matches Ok(SealedBalanceOutcome::NotYetRegistered)
                } else if !closing.contains_key(key) {
                    r matches Ok(SealedBalanceOutcome::NoRow)
                } else {
                    &&& r matches Ok(SealedBalanceOutcome::Proven(proven))
                    &&& proven.seal@ == books.seals[k]
                    &&& proven.balance.key == key
                    &&& proven.balance.balance == closing[key]
                    &&& proven.account.record@ == account::bindings(
                        books.sealed_accounts[k],
                    )[key.account.position as int]
                    &&& proven.holds()
                },
            }
        },
    }
}

// ── checkpoints and assertions ──────────────────────────────────────────────

/// What is wrong with a checkpoint of some entries, if anything.
pub open spec fn checkpoint_fault<const P: u8>(
    entries: Seq<entry::EntryFacts>,
    checkpoint: Checkpoint<P>,
) -> Option<CheckpointError> {
    let size = checkpoint.tree_head.size;
    if size > entries.len() {
        Some(CheckpointError::SizeOutOfRange { size })
    } else if merkle::head_of(books::content_hashes(P, entries).take(size as int))
        != checkpoint.tree_head {
        Some(CheckpointError::HeadMismatch)
    } else if balance::balance_at(books::balances_at::<P>(entries, Some(size)), checkpoint.key)
        != checkpoint.balance {
        Some(CheckpointError::BalanceMismatch)
    } else {
        None
    }
}

/// The balance an assertion is about, or the overflow of adding it up.
pub open spec fn asserted_balance<const P: u8>(
    entries: Seq<entry::EntryFacts>,
    key: BalanceKey,
    at: AssertAt,
) -> Result<Balance<P>, MoneyError> {
    match at {
        AssertAt::Now => Ok(
            balance::balance_at(books::balances_at::<P>(entries, None), key),
        ),
        AssertAt::Prefix { size } => Ok(
            balance::balance_at(books::balances_at::<P>(entries, Some(size)), key),
        ),
        AssertAt::OnDate { date } => books::fold_movements(
            balance::zero_balance::<P>(),
            books::movements_on(books::through(entries, date@), key),
        ),
    }
}

impl<const P: u8> Journal<P> {
    /// Takes a checkpoint of one balance over the whole log so far.
    ///
    /// Taking one on an empty journal is meaningful and stays valid: it records
    /// that the account had not moved after zero entries, which no later append
    /// can falsify.
    pub fn checkpoint(&self, key: &BalanceKey) -> (r: Result<Checkpoint<P>, MoneyError>)
        requires
            self.wf(),
        ensures
            r == Ok::<Checkpoint<P>, MoneyError>(
                Checkpoint {
                    key: *key,
                    balance: balance::balance_at(
                        books::balances_at::<P>(self@.entries, None),
                        *key,
                    ),
                    tree_head: merkle::head_of(self.committed()),
                },
            ),
            checkpoint_fault::<P>(self@.entries, r->Ok_0) is None,
    {
        proof {
            self.log.lemma_bounded();
            assert(self.committed().take(self.committed().len() as int) =~= self.committed());
        }
        match self.balance(key, None) {
            Ok(balance) => Ok(Checkpoint::new(*key, balance, self.head())),
            Err(e) => Err(e),
        }
    }

    /// Re-derives a checkpoint from the journal and compares it.
    ///
    /// Checks the tree head as well as the balance: a checkpoint that matches
    /// numerically but was taken against a different history is stale, and
    /// silently trusting it would carry a stale balance forward. The head is
    /// also what names the prefix, so the balance is re-folded over exactly the
    /// entries the checkpoint claims to cover — never over whatever the journal
    /// happens to hold now.
    pub fn verify_checkpoint(&self, checkpoint: &Checkpoint<P>) -> (r: Result<
        (),
        CheckpointError,
    >)
        requires
            self.wf(),
        ensures
            r == (match checkpoint_fault::<P>(self@.entries, *checkpoint) {
                None => Ok(()),
                Some(e) => Err(e),
            }),
    {
        let size: u64 = checkpoint.size();
        if size > self.entries.len() as u64 {
            return Err(CheckpointError::SizeOutOfRange { size });
        }
        let head = match self.head_at(size) {
            Ok(head) => head,
            Err(_) => {
                return Err(CheckpointError::SizeOutOfRange { size });
            },
        };
        if head != checkpoint.tree_head {
            return Err(CheckpointError::HeadMismatch);
        }
        let actual = match self.balance(&checkpoint.key, Some(size)) {
            Ok(actual) => actual,
            Err(e) => {
                return Err(CheckpointError::Money(e));
            },
        };
        if actual == checkpoint.balance {
            Ok(())
        } else {
            Err(CheckpointError::BalanceMismatch)
        }
    }

    /// Evaluates a balance assertion against the journal.
    pub fn check_assertion(&self, assertion: &BalanceAssertion<P>) -> (r: Result<
        AssertionOutcome<P>,
        MoneyError,
    >)
        requires
            self.wf(),
        ensures
            r == (match asserted_balance::<P>(self@.entries, assertion.key, assertion.at) {
                Ok(actual) => checkpoint::outcome_of(assertion.expected, actual),
                Err(e) => Err(e),
            }),
    {
        let actual = match assertion.at {
            AssertAt::Now => self.balance(&assertion.key, None),
            AssertAt::Prefix { size } => self.balance(&assertion.key, Some(size)),
            AssertAt::OnDate { date } => self.balance_on_date(&assertion.key, date),
        };
        match actual {
            Ok(actual) => assertion.check(&actual),
            Err(e) => Err(e),
        }
    }

    /// Every account with its handle, for a backend to persist.
    #[must_use]
    pub fn account_records(&self) -> (records: Vec<AccountRecord>)
        requires
            self.wf(),
        ensures
            account::bindings_of(records@) == account::bindings(self@.accounts),
    {
        self.accounts.records()
    }
}

// ── copies ──────────────────────────────────────────────────────────────────

fn clone_entries<const P: u8>(entries: &Vec<Entry<Balanced, P>>) -> (copy: Vec<
    Entry<Balanced, P>,
>)
    ensures
        entry_facts(copy@) == entry_facts(entries@),
{
    let n: usize = entries.len();
    let mut copy: Vec<Entry<Balanced, P>> = Vec::with_capacity(n);
    let mut i: usize = 0;
    while i < n
        invariant
            i <= n,
            n == entries@.len(),
            entry_facts(copy@) == entry_facts(entries@).take(i as int),
        decreases n - i,
    {
        let ghost before = copy@;
        let entry = entries[i].clone();
        copy.push(entry);
        assert(entry_facts(copy@) =~= entry_facts(before).push(entry@));
        assert(entry_facts(copy@) =~= entry_facts(entries@).take(i + 1));
        i += 1;
    }
    assert(entry_facts(entries@).take(n as int) =~= entry_facts(entries@));
    copy
}

fn clone_keys(keys: &SortedMap<IdempotencyKey, (EntryId, LogIndex, Digest)>) -> (copy: SortedMap<
    IdempotencyKey,
    (EntryId, LogIndex, Digest),
>)
    ensures
        copy@ == keys@,
{
    let n: usize = keys.len();
    let mut copy: SortedMap<IdempotencyKey, (EntryId, LogIndex, Digest)> = SortedMap::new();
    let mut i: usize = 0;
    while i < n
        invariant
            i <= n,
            keys.wf(),
            n == keys.keys().len(),
            forall|j: int|
                0 <= j < i ==> copy@.contains_key(#[trigger] keys.keys()[j])
                    && copy@[keys.keys()[j]] == keys.values()[j],
            forall|k: Seq<u8>| #[trigger] copy@.contains_key(k) ==> keys@.contains_key(k),
        decreases n - i,
    {
        proof {
            keys.lemma_sequences();
        }
        let ghost before = copy@;
        copy.insert(keys.key_at(i).clone(), *keys.value_at(i));
        assert forall|j: int| 0 <= j < i + 1 implies copy@.contains_key(
            #[trigger] keys.keys()[j],
        ) && copy@[keys.keys()[j]] == keys.values()[j] by {
            if j < i {
                assert(before.contains_key(keys.keys()[j]));
            }
        }
        i += 1;
    }
    proof {
        keys.lemma_sequences();
        assert forall|k: Seq<u8>| #[trigger] keys@.contains_key(k) implies copy@.contains_key(k)
            && copy@[k] == keys@[k] by {
            let j = choose|j: int| 0 <= j < keys.keys().len() && #[trigger] keys.keys()[j] == k;
            assert(copy@.contains_key(keys.keys()[j]));
        }
        assert(copy@ =~= keys@);
    }
    copy
}

fn clone_sites(sites: &SortedMap<BalanceKey, Vec<PostingPosition>>) -> (copy: SortedMap<
    BalanceKey,
    Vec<PostingPosition>,
>)
    ensures
        forall|k: BalanceKey| #[trigger]
            copy@.contains_key(k) <==> sites@.contains_key(k),
        forall|k: BalanceKey| #[trigger] copy@.contains_key(k) ==> copy@[k]@ == sites@[k]@,
{
    let n: usize = sites.len();
    let mut copy: SortedMap<BalanceKey, Vec<PostingPosition>> = SortedMap::new();
    let mut i: usize = 0;
    while i < n
        invariant
            i <= n,
            sites.wf(),
            n == sites.keys().len(),
            forall|j: int|
                0 <= j < i ==> copy@.contains_key(#[trigger] sites.keys()[j])
                    && copy@[sites.keys()[j]]@ == sites.values()[j]@,
            forall|k: BalanceKey| #[trigger] copy@.contains_key(k) ==> sites@.contains_key(k),
        decreases n - i,
    {
        proof {
            sites.lemma_sequences();
        }
        let list = sites.value_at(i);
        let mut sites_copy: Vec<PostingPosition> = Vec::with_capacity(list.len());
        let mut j: usize = 0;
        while j < list.len()
            invariant
                j <= list.len(),
                sites_copy@ == list@.take(j as int),
            decreases list.len() - j,
        {
            sites_copy.push(list[j]);
            assert(sites_copy@ =~= list@.take(j + 1));
            j += 1;
        }
        assert(list@.take(list@.len() as int) =~= list@);
        let ghost before = copy@;
        copy.insert(*sites.key_at(i), sites_copy);
        assert forall|j: int| 0 <= j < i + 1 implies copy@.contains_key(
            #[trigger] sites.keys()[j],
        ) && copy@[sites.keys()[j]]@ == sites.values()[j]@ by {
            if j < i {
                assert(before.contains_key(sites.keys()[j]));
            }
        }
        i += 1;
    }
    proof {
        sites.lemma_sequences();
        assert forall|k: BalanceKey| #[trigger] sites@.contains_key(k) implies copy@.contains_key(k)
            && copy@[k]@ == sites@[k]@ by {
            let j = choose|j: int| 0 <= j < sites.keys().len() && #[trigger] sites.keys()[j] == k;
            assert(copy@.contains_key(sites.keys()[j]));
        }
    }
    copy
}

fn clone_registries(registries: &Vec<AccountRegistry>) -> (copy: Vec<AccountRegistry>)
    ensures
        account_facts(copy@) == account_facts(registries@),
        copy@.len() == registries@.len(),
        forall|i: int|
            0 <= i < copy@.len() && registries@[i].wf() ==> (#[trigger] copy@[i]).wf(),
{
    let n: usize = registries.len();
    let mut copy: Vec<AccountRegistry> = Vec::with_capacity(n);
    let mut i: usize = 0;
    while i < n
        invariant
            i <= n,
            n == registries@.len(),
            copy@.len() == i,
            account_facts(copy@) == account_facts(registries@).take(i as int),
            forall|j: int| 0 <= j < i && registries@[j].wf() ==> (#[trigger] copy@[j]).wf(),
        decreases n - i,
    {
        let ghost before = copy@;
        let registry = registries[i].clone();
        copy.push(registry);
        assert(account_facts(copy@) =~= account_facts(before).push(registry@));
        assert(account_facts(copy@) =~= account_facts(registries@).take(i + 1));
        i += 1;
    }
    assert(account_facts(registries@).take(n as int) =~= account_facts(registries@));
    copy
}

impl<const P: u8> Clone for Journal<P> {
    fn clone(&self) -> (copy: Self)
        ensures
            copy@ == self@,
            self.wf() ==> copy.wf(),
    {
        let copy = Journal {
            ledger: self.ledger.clone(),
            accounts: self.accounts.clone(),
            calendar: self.calendar.clone(),
            policy: self.policy.clone(),
            entries: clone_entries(&self.entries),
            log: self.log.clone(),
            by_id: self.by_id.copied(),
            by_key: clone_keys(&self.by_key),
            reversed_by: self.reversed_by.copied(),
            balances: self.balances.clone(),
            sites: clone_sites(&self.sites),
            seals: self.seals.clone(),
            sealed_accounts: clone_registries(&self.sealed_accounts),
            clearings: self.clearings.clone(),
        };
        proof {
            assert(copy@ == self@);
            if self.wf() {
                assert forall|key: BalanceKey| #[trigger] books::lists_sites_of(
                    copy.sites@,
                    copy@.entries,
                    key,
                ) by {
                    assert(books::lists_sites_of(self.sites@, self@.entries, key));
                    assert(copy.sites@.contains_key(key) <==> self.sites@.contains_key(key));
                }
                assert forall|i: int| 0 <= i < copy.sealed_accounts@.len() implies (
                #[trigger] copy.sealed_accounts@[i]).wf() by {
                    assert(self.sealed_accounts@[i].wf());
                }
            }
        }
        copy
    }
}

// ── what a head commits to ──────────────────────────────────────────────────

/// True when entries are within the bounds that the encoding can tell apart.
pub open spec fn all_valid(entries: Seq<entry::EntryFacts>) -> bool {
    forall|i: int|
        0 <= i < entries.len() ==> entry::valid_entry(#[trigger] entries[i])
            && entries[i].postings.len() <= u32::MAX
}

/// The bytes hashed for the contents of some entries.
pub open spec fn content_inputs(p: u8, entries: Seq<entry::EntryFacts>) -> Set<Seq<u8>> {
    entries.map_values(|e: entry::EntryFacts| entry::entry_input(p, e)).to_set()
}

/// What is proven is what was recorded: an entry proven included under the head
/// of a log is the entry at that position, in everything but its identifier.
#[verifier::spinoff_prover]
pub proof fn law_proven_entries_were_recorded(
    p: u8,
    proof: InclusionProof,
    e: entry::EntryFacts,
    entries: Seq<entry::EntryFacts>,
)
    requires
        all_valid(entries.push(e)),
        entries.len() <= u64::MAX,
        proof.proves(
            entry::entry_hash(p, e),
            merkle::head_of(books::content_hashes(p, entries)),
        ),
        hash::collision_free(
            proof.inputs(entry::entry_hash(p, e)).union(
                merkle::log_inputs(books::content_hashes(p, entries)),
            ).union(content_inputs(p, entries.push(e))),
        ),
    ensures
        proof.leaf_index < entries.len(),
        entry::same_contents(e, entries[proof.leaf_index as int]),
{
    let leaves = books::content_hashes(p, entries);
    let payload = entry::entry_hash(p, e);
    let all = entries.push(e);
    let hashed = proof.inputs(payload).union(merkle::log_inputs(leaves)).union(
        content_inputs(p, all),
    );
    lemma_fewer_strings(proof.inputs(payload).union(merkle::log_inputs(leaves)), hashed);
    merkle::law_inclusion_proofs_bind(proof, payload, leaves);
    let i = proof.leaf_index as int;
    lemma_content_is_hashed(p, all, entries.len() as int);
    lemma_content_is_hashed(p, all, i);
    lemma_fewer_strings(
        set![entry::entry_input(p, e), entry::entry_input(p, entries[i])],
        hashed,
    );
    assert(all[entries.len() as int] == e && all[i] == entries[i]);
    entry::law_content_hash_binds_contents(p, e, p, entries[i]);
}

/// History cannot be rewritten: where a consistency proof verifies between the
/// heads of two logs, the later log starts with the entries of the earlier, in
/// everything but their identifiers.
#[verifier::spinoff_prover]
pub proof fn law_history_is_append_only(
    p: u8,
    proof: ConsistencyProof,
    earlier: Seq<entry::EntryFacts>,
    entries: Seq<entry::EntryFacts>,
)
    requires
        all_valid(earlier),
        all_valid(entries),
        earlier.len() <= u64::MAX,
        entries.len() <= u64::MAX,
        proof.relates(
            merkle::head_of(books::content_hashes(p, earlier)),
            merkle::head_of(books::content_hashes(p, entries)),
        ),
        hash::collision_free(
            proof.inputs(merkle::root_of(books::content_hashes(p, earlier))).union(
                merkle::log_inputs(books::content_hashes(p, earlier)),
            ).union(merkle::log_inputs(books::content_hashes(p, entries))).union(
                content_inputs(p, earlier),
            ).union(content_inputs(p, entries)),
        ),
    ensures
        earlier.len() <= entries.len(),
        forall|i: int|
            0 <= i < earlier.len() ==> entry::same_contents(#[trigger] earlier[i], entries[i]),
{
    let old = books::content_hashes(p, earlier);
    let new = books::content_hashes(p, entries);
    let climbed = proof.inputs(merkle::root_of(old)).union(merkle::log_inputs(old)).union(
        merkle::log_inputs(new),
    );
    let hashed = climbed.union(content_inputs(p, earlier)).union(content_inputs(p, entries));
    lemma_fewer_strings(climbed, hashed);
    merkle::law_consistency_proofs_bind(proof, old, new);
    assert forall|i: int| 0 <= i < earlier.len() implies entry::same_contents(
        #[trigger] earlier[i],
        entries[i],
    ) by {
        assert(old[i] == new.take(old.len() as int)[i]);
        lemma_same_hash_same_contents(p, earlier, entries, i, hashed);
    }
}

/// The contents of each entry are among the strings hashed.
proof fn lemma_content_is_hashed(p: u8, entries: Seq<entry::EntryFacts>, i: int)
    requires
        0 <= i < entries.len(),
    ensures
        content_inputs(p, entries).contains(entry::entry_input(p, entries[i])),
{
    let inputs = entries.map_values(|e: entry::EntryFacts| entry::entry_input(p, e));
    assert(inputs[i] == entry::entry_input(p, entries[i]));
}

/// Entries at one position of two logs that share a content hash share their
/// contents.
#[verifier::spinoff_prover]
proof fn lemma_same_hash_same_contents(
    p: u8,
    a: Seq<entry::EntryFacts>,
    b: Seq<entry::EntryFacts>,
    i: int,
    hashed: Set<Seq<u8>>,
)
    requires
        all_valid(a),
        all_valid(b),
        0 <= i < a.len(),
        i < b.len(),
        entry::entry_hash(p, a[i]) == entry::entry_hash(p, b[i]),
        content_inputs(p, a).subset_of(hashed),
        content_inputs(p, b).subset_of(hashed),
        hash::collision_free(hashed),
    ensures
        entry::same_contents(a[i], b[i]),
{
    lemma_content_is_hashed(p, a, i);
    lemma_content_is_hashed(p, b, i);
    lemma_fewer_strings(
        set![entry::entry_input(p, a[i]), entry::entry_input(p, b[i])],
        hashed,
    );
    entry::law_content_hash_binds_contents(p, a[i], p, b[i]);
}

/// Fewer strings collide no more than many do.
proof fn lemma_fewer_strings(fewer: Set<Seq<u8>>, strings: Set<Seq<u8>>)
    requires
        fewer.subset_of(strings),
        hash::collision_free(strings),
    ensures
        hash::collision_free(fewer),
{
}

// ── what stays as it was ────────────────────────────────────────────────────

/// A checkpoint stays what it is as the log grows: one more entry neither breaks
/// a checkpoint that held nor mends one that did not.
pub proof fn law_checkpoints_survive_growth<const P: u8>(
    entries: Seq<entry::EntryFacts>,
    e: entry::EntryFacts,
    checkpoint: Checkpoint<P>,
)
    requires
        checkpoint.tree_head.size <= entries.len(),
    ensures
        checkpoint_fault::<P>(entries.push(e), checkpoint) == checkpoint_fault::<P>(
            entries,
            checkpoint,
        ),
{
    let size = checkpoint.tree_head.size;
    let more = entries.push(e);
    assert(books::content_hashes(P, more).take(size as int) =~= books::content_hashes(
        P,
        entries,
    ).take(size as int));
    assert(more.take(size as int) =~= entries.take(size as int));
    assert(entries.take(entries.len() as int) =~= entries);
}

proof fn lemma_newest_seal(seals: Seq<seal::SealFacts>, s: seal::SealFacts)
    requires
        seal::seal_of(seals, s.period) is None,
    ensures
        seal::seal_of(seals.push(s), s.period) == Some(seals.len() as int),
{
    assert(seals.push(s).drop_last() =~= seals);
}

/// Sealing a period makes its closing balances provable: the books it leaves
/// rebuild exactly the balances and the accounts the new seal committed to.
pub proof fn law_sealed_balances_are_provable<const P: u8>(
    books: Books<P>,
    period: Seq<char>,
    closing: Map<BalanceKey, Balance<P>>,
)
    requires
        books.sealed_accounts.len() == books.seals.len(),
        seal::seal_of(books.seals, period) is None,
        books::folded::<P>(books::through(books.entries, books.periods[period].end@)) == Ok::<
            Map<BalanceKey, Balance<P>>,
            MoneyError,
        >(closing),
    ensures
        ({
            let after = sealed_books(books, period, closing);
            let k = books.seals.len() as int;
            &&& seal::seal_of(after.seals, period) == Some(k)
            &&& after.periods.contains_key(period)
            &&& books::folded::<P>(
                books::through(after.entries, after.periods[period].end@),
            ) == Ok::<Map<BalanceKey, Balance<P>>, MoneyError>(closing)
            &&& after.seals[k].trial_balance_root == seal::balances_root(closing)
            &&& after.seals[k].accounts_root == account::commitment_of(
                after.sealed_accounts[k],
            ).root
            &&& seal::self_consistent(after.seals[k])
        }),
{
    lemma_newest_seal(books.seals, seal_on(books, period, closing));
}

/// A sealed balance cannot be restated: recording a draft and changing the
/// accounts leave every answer about a sealed period as it was.
pub proof fn law_sealed_balances_stay<const P: u8>(
    books: Books<P>,
    e: entry::EntryFacts,
    accounts: Seq<account::AccountFacts>,
    period: Seq<char>,
    key: BalanceKey,
    r: Result<SealedBalanceOutcome<P>, JournalError>,
)
    requires
        books.periods.contains_key(period),
        books.periods[period].state is Sealed,
        books::draft_outcome::<P>(
            books.accounts,
            books.periods,
            books.policy,
            books.entries,
            e,
        ) is Appended,
    ensures
        answers_sealed_balance(
            Books { entries: books.entries.push(e), accounts, ..books },
            period,
            key,
            r,
        ) == answers_sealed_balance(books, period, key, r),
{
    let day = books.periods[period].end@;
    assert(period::sealed_on(books.periods, day)) by {
        assert(books.periods.contains_key(period) && books.periods[period].state is Sealed && day
            <= books.periods[period].end@);
    }
    books::law_sealed_days_are_frozen::<P>(
        books.accounts,
        books.periods,
        books.policy,
        books.entries,
        e,
        day,
    );
}

/// A sealed balance cannot be restated by a batch: entries validated against the
/// books they are recorded in leave every answer about a sealed period as it was,
/// one alone or many at once.
pub proof fn law_batches_leave_sealed_balances<const P: u8>(
    books: Books<P>,
    batch: Seq<entry::EntryFacts>,
    period: Seq<char>,
    key: BalanceKey,
    r: Result<SealedBalanceOutcome<P>, JournalError>,
)
    requires
        books.periods.contains_key(period),
        books.periods[period].state is Sealed,
        books::batch_outcome::<P>(
            books.accounts,
            books.entries,
            batch,
            batch.len() as int,
        ) is Ok,
        forall|i: int|
            0 <= i < batch.len() ==> entry::faults::<P>(
                #[trigger] batch[i],
                books.accounts,
                books.periods,
                books.policy,
            ).len() == 0,
    ensures
        ({
            let after = (books::batch_outcome::<P>(
                books.accounts,
                books.entries,
                batch,
                batch.len() as int,
            )->Ok_0).0;
            answers_sealed_balance(Books { entries: after, ..books }, period, key, r)
                == answers_sealed_balance(books, period, key, r)
        }),
{
    let day = books.periods[period].end@;
    assert(period::sealed_on(books.periods, day)) by {
        assert(books.periods.contains_key(period) && books.periods[period].state is Sealed && day
            <= books.periods[period].end@);
    }
    books::law_sealed_days_are_frozen_to_batches::<P>(
        books.accounts,
        books.periods,
        books.policy,
        books.entries,
        batch,
        batch.len() as int,
        day,
    );
}

/// Sealing another period leaves every answer about a sealed period as it was: the
/// seals already taken keep their places, their balances and their accounts.
pub proof fn law_later_seals_leave_sealed_balances<const P: u8>(
    books: Books<P>,
    later: Seq<char>,
    closing: Map<BalanceKey, Balance<P>>,
    period: Seq<char>,
    key: BalanceKey,
    r: Result<SealedBalanceOutcome<P>, JournalError>,
)
    requires
        seal::seal_of(books.seals, period) is Some,
        books.sealed_accounts.len() == books.seals.len(),
        books.periods.contains_key(period),
        books.periods.contains_key(later),
    ensures
        answers_sealed_balance(sealed_books(books, later, closing), period, key, r)
            == answers_sealed_balance(books, period, key, r),
{
    let s = seal_on(books, later, closing);
    assert(books.seals.push(s).drop_last() =~= books.seals);
    seal::lemma_seal_of(books.seals, period);
}

/// Defining another period leaves every answer about a sealed period as it was.
pub proof fn law_new_periods_leave_sealed_balances<const P: u8>(
    books: Books<P>,
    new: period::PeriodFacts,
    period: Seq<char>,
    key: BalanceKey,
    r: Result<SealedBalanceOutcome<P>, JournalError>,
)
    requires
        books.periods.contains_key(period),
        period::admits(books.periods, new),
    ensures
        answers_sealed_balance(
            Books { periods: books.periods.insert(new.id, new), ..books },
            period,
            key,
            r,
        ) == answers_sealed_balance(books, period, key, r),
{
}

/// Moving any period through its lifecycle leaves every answer about a sealed
/// period as it was.
pub proof fn law_transitions_leave_sealed_balances<const P: u8>(
    books: Books<P>,
    moved: Seq<char>,
    to: PeriodState,
    period: Seq<char>,
    key: BalanceKey,
    r: Result<SealedBalanceOutcome<P>, JournalError>,
)
    requires
        books.periods.contains_key(moved),
    ensures
        answers_sealed_balance(
            Books {
                periods: books.periods.insert(
                    moved,
                    period::PeriodFacts { state: to, ..books.periods[moved] },
                ),
                ..books
            },
            period,
            key,
            r,
        ) == answers_sealed_balance(books, period, key, r),
{
}

/// Clearings, their resets, the accounts and the policy have no part in the answer
/// about a sealed period.
pub proof fn law_clearings_leave_sealed_balances<const P: u8>(
    books: Books<P>,
    clearings: Seq<clearing::EventFacts<P>>,
    accounts: Seq<account::AccountFacts>,
    policy: entry::PolicyFacts,
    period: Seq<char>,
    key: BalanceKey,
    r: Result<SealedBalanceOutcome<P>, JournalError>,
)
    ensures
        answers_sealed_balance(Books { clearings, accounts, policy, ..books }, period, key, r)
            == answers_sealed_balance(books, period, key, r),
{
}

} // verus!
