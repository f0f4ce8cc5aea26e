//! Open-item clearing.
//!
//! A receivable is raised by one posting and settled by another. Knowing *which*
//! settled *which* is what turns a running balance into a list of open items —
//! and it is a ledger concern, not an application one, because it has to agree
//! with the postings exactly.
//!
//! Nothing is mutated. Clearing records which postings offset which, and by how
//! much; the postings themselves never change. A posting's **residual** is its
//! amount less everything applied to it, and it is *open* while the residual is
//! positive.
//!
//! # Partial application
//!
//! Applying less than the full amount leaves both sides open for the remainder,
//! which is the behaviour a partial payment needs: the invoice stays visible as
//! partly settled rather than vanishing or being rewritten.
//!
//! Booking the shortfall as a fresh item instead — clearing the original in full
//! and raising a new one for the difference — is an ordinary entry the
//! application posts. The engine does not choose between the two policies.
//!
//! # Resetting
//!
//! A clearing can be reset when it turns out to have matched the wrong items.
//! The reset is a new record that releases the applied amounts; the original
//! clearing remains in the register, because an assignment that was made and
//! withdrawn is itself part of the audit trail.

use crate::account::AccountId;
use crate::balance::{self, Balance, BalanceKey};
use crate::date::Date;
use crate::entry::EntryId;
use crate::ident::{self, fresh_uuid};
use crate::journal::LogIndex;
use crate::laws;
use crate::money::{self, Amount, Currency, MoneyError};
use crate::ordered::{Key, Rank, SortedMap};
use crate::posting::{self, Direction, Layer, Posting};
use crate::sorting::{self, sort_triples};
use crate::text::{self, push_decimal};
use vstd::prelude::*;

verus! {

/// A reference to one posting inside one entry.
#[derive(Debug, Clone, Copy, PartialEq, Eq, Structural, PartialOrd, Ord, Hash)]
pub struct PostingRef {
    /// The entry holding the posting.
    pub entry: EntryId,
    /// Zero-based position within that entry's postings.
    pub index: u16,
}

impl PostingRef {
    /// Creates a reference.
    #[must_use]
    pub fn new(entry: EntryId, index: u16) -> (r: Self)
        ensures
            r.entry == entry,
            r.index == index,
    {
        PostingRef { entry, index }
    }

    /// The reference as text: the entry, `#`, and the position.
    #[must_use]
    pub fn to_string(&self) -> (s: String)
        ensures
            s@ == ident::uuid_text(self.entry.value).push('#') + text::decimal(self.index as nat),
    {
        let mut s: String = self.entry.to_string();
        s.push('#');
        push_decimal(&mut s, self.index as u64);
        s
    }
}

impl View for PostingRef {
    type V = PostingRef;

    open spec fn view(&self) -> PostingRef {
        *self
    }
}

impl Key for PostingRef {
    /// By entry, then by position.
    open spec fn before(a: PostingRef, b: PostingRef) -> bool {
        a.entry.value < b.entry.value || (a.entry.value == b.entry.value && a.index < b.index)
    }

    proof fn lemma_irreflexive(a: PostingRef) {
    }

    proof fn lemma_transitive(a: PostingRef, b: PostingRef, c: PostingRef) {
    }

    proof fn lemma_total(a: PostingRef, b: PostingRef) {
    }

    fn rank(&self, other: &Self) -> (r: Rank) {
        if self.entry.value < other.entry.value {
            Rank::Before
        } else if self.entry.value > other.entry.value {
            Rank::After
        } else if self.index < other.index {
            Rank::Before
        } else if self.index > other.index {
            Rank::After
        } else {
            Rank::Same
        }
    }
}

/// Where a posting sits in the log: which entry, and which posting within it.
///
/// The order in which movements happened, which an identifier a caller brings
/// along does not give.
#[derive(Debug, Clone, Copy, PartialEq, Eq, Structural, PartialOrd, Ord, Hash)]
pub struct PostingPosition {
    /// The position of the entry in the log.
    pub index: LogIndex,
    /// Zero-based position within that entry's postings.
    pub posting: u16,
}

impl PostingPosition {
    /// Creates a position.
    #[must_use]
    pub fn new(index: LogIndex, posting: u16) -> (p: Self)
        ensures
            p.index == index,
            p.posting == posting,
    {
        PostingPosition { index, posting }
    }
}

/// Identifier for a clearing record: the value of a UUID.
#[derive(Debug, Clone, Copy, PartialEq, Eq, Structural, PartialOrd, Ord, Hash)]
pub struct ClearingId {
    /// The UUID as a number, most significant byte first.
    pub value: u128,
}

impl ClearingId {
    /// Wraps an existing UUID.
    #[must_use]
    pub fn from_uuid(value: u128) -> (id: Self)
        ensures
            id.value == value,
    {
        ClearingId { value }
    }

    /// The underlying UUID.
    #[must_use]
    pub fn as_uuid(&self) -> (value: u128)
        ensures
            value == self.value,
    {
        self.value
    }

    /// Generates a fresh time-ordered identifier.
    ///
    /// Reads the clock, so it is not part of the deterministic path; the engine
    /// never calls it.
    ///
    /// # Panics
    ///
    /// Panics where the machine offers no usable clock or randomness: when the
    /// system clock stands before 1970, or the operating system yields no random
    /// bytes.
    #[must_use]
    pub fn generate() -> (id: Self)
        ensures
            ident::time_ordered_uuid(id.value),
    {
        ClearingId { value: fresh_uuid() }
    }

    /// The identifier as text: hexadecimal digits in groups of 8, 4, 4, 4 and 12.
    #[must_use]
    pub fn to_string(&self) -> (s: String)
        ensures
            s@ == ident::uuid_text(self.value),
    {
        ident::uuid_to_text(self.value)
    }
}

impl View for ClearingId {
    type V = ClearingId;

    open spec fn view(&self) -> ClearingId {
        *self
    }
}

impl Key for ClearingId {
    /// By the value of the UUID.
    open spec fn before(a: ClearingId, b: ClearingId) -> bool {
        a.value < b.value
    }

    proof fn lemma_irreflexive(a: ClearingId) {
    }

    proof fn lemma_transitive(a: ClearingId, b: ClearingId, c: ClearingId) {
    }

    proof fn lemma_total(a: ClearingId, b: ClearingId) {
    }

    fn rank(&self, other: &Self) -> (r: Rank) {
        if self.value < other.value {
            Rank::Before
        } else if self.value > other.value {
            Rank::After
        } else {
            Rank::Same
        }
    }
}

/// One posting and the amount of it this clearing applies.
#[derive(Debug, Clone, Copy, PartialEq, Eq)]
pub struct ClearedItem<const P: u8> {
    /// The posting being applied against.
    pub posting: PostingRef,
    /// How much of it this clearing consumes. A magnitude, never negative.
    pub applied: Amount<P>,
}

/// What a clearing records, as mathematics.
#[verifier::ext_equal]
pub struct ClearingFacts<const P: u8> {
    /// Identifier.
    pub id: ClearingId,
    /// The account, currency and layer whose items are being cleared.
    pub key: BalanceKey,
    /// The date the assignment was made.
    pub cleared_on: Date,
    /// The postings and the amounts applied to each.
    pub items: Seq<ClearedItem<P>>,
}

/// A record that a set of postings offset one another.
///
/// Scoped to one `(account, currency, layer)` — the same key a balance and an
/// open-item list are reported against. Anything wider would let a clearing
/// relate postings that never appear in the same statement.
#[derive(Debug, PartialEq, Eq)]
pub struct Clearing<const P: u8> {
    /// Identifier.
    pub id: ClearingId,
    /// The account whose items are being cleared.
    pub account: AccountId,
    /// The currency the items are in.
    pub currency: Currency,
    /// Whether settled movements or reservations are being cleared.
    ///
    /// A reservation and a settled payment are different claims on the same
    /// account: netting one against the other would report an open item as
    /// closed while the money had not moved. Both layers clear the same way;
    /// they just do not clear against each other.
    pub layer: Layer,
    /// The date the assignment was made.
    pub cleared_on: Date,
    /// The postings and the amounts applied to each.
    pub items: Vec<ClearedItem<P>>,
}

impl<const P: u8> View for Clearing<P> {
    type V = ClearingFacts<P>;

    open spec fn view(&self) -> ClearingFacts<P> {
        ClearingFacts {
            id: self.id,
            key: BalanceKey {
                account: self.account,
                currency: self.currency,
                layer: self.layer,
            },
            cleared_on: self.cleared_on,
            items: self.items@,
        }
    }
}

fn clone_items<const P: u8>(items: &Vec<ClearedItem<P>>) -> (copy: Vec<ClearedItem<P>>)
    ensures
        copy@ == items@,
{
    let mut copy: Vec<ClearedItem<P>> = Vec::with_capacity(items.len());
    let mut i: usize = 0;
    while i < items.len()
        invariant
            i <= items.len(),
            copy@ == items@.take(i as int),
        decreases items.len() - i,
    {
        copy.push(items[i]);
        assert(copy@ =~= items@.take(i + 1));
        i += 1;
    }
    assert(items@.take(items@.len() as int) =~= items@);
    copy
}

impl<const P: u8> Clone for Clearing<P> {
    fn clone(&self) -> (copy: Self)
        ensures
            copy@ == self@,
    {
        Clearing {
            id: self.id,
            account: self.account,
            currency: self.currency,
            layer: self.layer,
            cleared_on: self.cleared_on,
            items: clone_items(&self.items),
        }
    }
}

impl<const P: u8> Clearing<P> {
    /// The balance key this clearing operates on.
    #[must_use]
    pub fn key(&self) -> (key: BalanceKey)
        ensures
            key == self@.key,
    {
        BalanceKey { account: self.account, currency: self.currency, layer: self.layer }
    }

    /// Starts a clearing on one account, currency and layer.
    #[must_use]
    pub fn new(id: ClearingId, key: BalanceKey, cleared_on: Date) -> (c: Self)
        ensures
            c@ == (ClearingFacts::<P> { id, key, cleared_on, items: Seq::empty() }),
    {
        let c = Clearing {
            id,
            account: key.account,
            currency: key.currency,
            layer: key.layer,
            cleared_on,
            items: Vec::new(),
        };
        assert(c@.items =~= Seq::empty());
        c
    }

    /// Applies `applied` of `posting` in this clearing.
    #[must_use]
    pub fn apply(self, posting: PostingRef, applied: Amount<P>) -> (c: Self)
        ensures
            c@ == (ClearingFacts {
                items: self@.items.push(ClearedItem { posting, applied }),
                ..self@
            }),
    {
        let mut c = self;
        c.items.push(ClearedItem { posting, applied });
        c
    }
}

/// Something that can resolve a [`PostingRef`] to the posting it names.
pub trait PostingLookup<const P: u8> {
    /// What the posting says, where the reference resolves.
    spec fn resolved(&self, reference: PostingRef) -> Option<posting::Movement>;

    /// Returns the posting, or `None` if the reference does not resolve.
    fn posting(&self, reference: PostingRef) -> (r: Option<&Posting<P>>)
        ensures
            match r {
                Some(p) => self.resolved(reference) == Some(p@),
                None => self.resolved(reference) is None,
            },
    ;
}

/// Failure recording or resetting a clearing.
#[derive(Debug, Clone, Copy, PartialEq, Eq)]
#[non_exhaustive]
#[allow(inconsistent_fields)]
pub enum ClearingError {
    /// Fewer than two items: a clearing must relate at least two postings.
    TooFewItems {
        /// Number of items supplied.
        count: usize,
    },
    /// The same posting appeared twice in one clearing.
    DuplicateItem {
        /// The repeated reference.
        posting: PostingRef,
    },
    /// A referenced posting does not exist.
    UnknownPosting {
        /// The unresolvable reference.
        posting: PostingRef,
    },
    /// A referenced posting is on a different account.
    WrongAccount {
        /// The offending reference.
        posting: PostingRef,
        /// The account the clearing is for.
        expected: AccountId,
    },
    /// A referenced posting is in a different currency.
    WrongCurrency {
        /// The offending reference.
        posting: PostingRef,
        /// The currency the clearing is for.
        expected: Currency,
    },
    /// A referenced posting is in a different layer.
    WrongLayer {
        /// The offending reference.
        posting: PostingRef,
        /// The layer the clearing is for.
        expected: Layer,
    },
    /// An applied amount was zero or negative.
    NonPositiveApplication {
        /// The offending reference.
        posting: PostingRef,
    },
    /// Applying this much would exceed what the posting still has open.
    ///
    /// Amounts are minor units at `scale`, so the variant stays independent of
    /// the ledger's compile-time precision.
    OverApplied {
        /// The offending reference.
        posting: PostingRef,
        /// The amount requested, in minor units.
        requested_minor: i64,
        /// The amount still open, in minor units.
        residual_minor: i64,
        /// Decimal places the minor units are expressed in.
        scale: u8,
    },
    /// The debit and credit sides of the clearing did not match.
    Unbalanced {
        /// Total applied on the debit side, in minor units.
        debits_minor: i64,
        /// Total applied on the credit side, in minor units.
        credits_minor: i64,
        /// Decimal places the minor units are expressed in.
        scale: u8,
    },
    /// The clearing identifier was already used.
    DuplicateId {
        /// The offending identifier.
        id: ClearingId,
    },
    /// The clearing being reset does not exist.
    UnknownClearing {
        /// The missing identifier.
        id: ClearingId,
    },
    /// The clearing being reset has already been reset.
    AlreadyReset {
        /// The offending identifier.
        id: ClearingId,
    },
    /// Arithmetic overflowed.
    Money(MoneyError),
}

/// What a clearing did, as mathematics.
pub enum EventFacts<const P: u8> {
    /// Items were assigned to one another.
    Cleared(ClearingFacts<P>),
    /// An earlier assignment was released.
    Reset {
        /// The clearing being released.
        clearing: ClearingId,
        /// When it was released.
        on: Date,
    },
}

/// What a clearing did, recorded in order.
#[derive(Debug, PartialEq, Eq)]
pub enum ClearingEvent<const P: u8> {
    /// Items were assigned to one another.
    Cleared(Clearing<P>),
    /// An earlier assignment was released.
    Reset {
        /// The clearing being released.
        clearing: ClearingId,
        /// When it was released.
        on: Date,
    },
}

impl<const P: u8> View for ClearingEvent<P> {
    type V = EventFacts<P>;

    open spec fn view(&self) -> EventFacts<P> {
        match *self {
            ClearingEvent::Cleared(c) => EventFacts::Cleared(c@),
            ClearingEvent::Reset { clearing, on } => EventFacts::Reset { clearing, on },
        }
    }
}

impl<const P: u8> Clone for ClearingEvent<P> {
    fn clone(&self) -> (copy: Self)
        ensures
            copy@ == self@,
    {
        match self {
            ClearingEvent::Cleared(c) => ClearingEvent::Cleared(c.clone()),
            ClearingEvent::Reset { clearing, on } => ClearingEvent::Reset {
                clearing: *clearing,
                on: *on,
            },
        }
    }
}

/// A posting with something still outstanding on it.
#[derive(Debug, Clone, Copy, PartialEq, Eq)]
pub struct OpenItem<const P: u8> {
    /// Which posting.
    pub posting: PostingRef,
    /// Which side it falls on.
    pub direction: Direction,
    /// The posting's original amount.
    pub original: Amount<P>,
    /// How much has been applied to it.
    pub applied: Amount<P>,
    /// What remains open.
    pub residual: Amount<P>,
}

// ── what the events add up to ───────────────────────────────────────────────

/// How much some items apply to a posting.
pub open spec fn item_amount<const P: u8>(items: Seq<ClearedItem<P>>, posting: PostingRef) -> int
    decreases items.len(),
{
    if items.len() == 0 {
        0
    } else {
        item_amount(items.drop_last(), posting) + if items.last().posting == posting {
            items.last().applied.minor as int
        } else {
            0
        }
    }
}

/// True when event `i` records the clearing `id`.
pub open spec fn records<const P: u8>(events: Seq<EventFacts<P>>, i: int, id: ClearingId) -> bool {
    0 <= i < events.len() && (events[i] matches EventFacts::Cleared(c) && c.id == id)
}

/// True when event `i` releases the clearing `id`.
pub open spec fn releases<const P: u8>(events: Seq<EventFacts<P>>, i: int, id: ClearingId) -> bool {
    0 <= i < events.len() && (events[i] matches EventFacts::Reset { clearing, .. } && clearing
        == id)
}

/// True when a clearing with this identifier was ever recorded.
pub open spec fn recorded<const P: u8>(events: Seq<EventFacts<P>>, id: ClearingId) -> bool {
    exists|i: int| #[trigger] records(events, i, id)
}

/// True when the clearing was released.
pub open spec fn released<const P: u8>(events: Seq<EventFacts<P>>, id: ClearingId) -> bool {
    exists|i: int| #[trigger] releases(events, i, id)
}

/// What the first `n` events apply to a posting, leaving out released clearings.
pub open spec fn active_sum<const P: u8>(
    events: Seq<EventFacts<P>>,
    n: int,
    gone: Set<ClearingId>,
    posting: PostingRef,
) -> int
    decreases n,
{
    if n <= 0 {
        0
    } else {
        active_sum(events, n - 1, gone, posting) + match events[n - 1] {
            EventFacts::Cleared(c) => if gone.contains(c.id) {
                0
            } else {
                item_amount(c.items, posting)
            },
            EventFacts::Reset { .. } => 0,
        }
    }
}

/// How much is applied to a posting: what every clearing that was not released
/// applies to it.
pub open spec fn applied_sum<const P: u8>(
    events: Seq<EventFacts<P>>,
    posting: PostingRef,
) -> int {
    active_sum(
        events,
        events.len() as int,
        Set::new(|id: ClearingId| released(events, id)),
        posting,
    )
}

/// True when a clearing applies positive amounts to different postings.
pub open spec fn sound_items<const P: u8>(items: Seq<ClearedItem<P>>) -> bool {
    &&& forall|i: int| 0 <= i < items.len() ==> (#[trigger] items[i]).applied.minor > 0
    &&& forall|i: int, j: int|
        0 <= i < j < items.len() ==> (#[trigger] items[i]).posting != (
        #[trigger] items[j]).posting
}

/// A register's history: identifiers are used once, and only a recorded clearing
/// is released, once.
pub open spec fn sound_events<const P: u8>(events: Seq<EventFacts<P>>) -> bool {
    &&& forall|i: int|
        0 <= i < events.len() ==> (#[trigger] events[i] matches EventFacts::Cleared(c)
            ==> sound_items(c.items) && c.items.len() >= 2)
    &&& forall|i: int, j: int, id: ClearingId| #[trigger]
        records(events, i, id) && #[trigger] records(events, j, id) ==> i == j
    &&& forall|i: int, j: int, id: ClearingId| #[trigger]
        releases(events, i, id) && #[trigger] releases(events, j, id) ==> i == j
    &&& forall|i: int, id: ClearingId| #[trigger] releases(events, i, id) ==> recorded(events, id)
}

/// What remains open on a posting of amount `minor`.
pub open spec fn residual<const P: u8>(
    events: Seq<EventFacts<P>>,
    posting: PostingRef,
    minor: int,
) -> int {
    minor - applied_sum(events, posting)
}

/// What a lookup finds, as a function of the reference.
pub open spec fn resolver<const P: u8, L: PostingLookup<P>>(lookup: L) -> spec_fn(
    PostingRef,
) -> Option<posting::Movement> {
    |reference: PostingRef| lookup.resolved(reference)
}

/// The gross totals of the first `n` items, each on the side of its posting.
pub open spec fn sides_of<const P: u8>(
    items: Seq<ClearedItem<P>>,
    n: int,
    resolve: spec_fn(PostingRef) -> Option<posting::Movement>,
) -> Balance<P>
    decreases n,
{
    if n <= 0 {
        balance::zero_balance::<P>()
    } else {
        let before = sides_of::<P>(items, n - 1, resolve);
        match resolve(items[n - 1].posting) {
            Some(m) => match balance::moved(
                before,
                m.direction,
                items[n - 1].applied.minor as int,
            ) {
                Ok(after) => after,
                Err(_) => before,
            },
            None => before,
        }
    }
}

/// True when one of the first `n` items applies to `posting`.
pub open spec fn applies_before<const P: u8>(
    items: Seq<ClearedItem<P>>,
    n: int,
    posting: PostingRef,
) -> bool {
    exists|k: int| 0 <= k < n && (#[trigger] items[k]).posting == posting
}

/// Why item `i` of a clearing is refused, if it is.
pub open spec fn item_fault<const P: u8>(
    events: Seq<EventFacts<P>>,
    clearing: ClearingFacts<P>,
    i: int,
    resolve: spec_fn(PostingRef) -> Option<posting::Movement>,
) -> Option<ClearingError> {
    let item = clearing.items[i];
    let posting = item.posting;
    if applies_before(clearing.items, i, posting) {
        Some(ClearingError::DuplicateItem { posting })
    } else if item.applied.minor <= 0 {
        Some(ClearingError::NonPositiveApplication { posting })
    } else {
        match resolve(posting) {
            None => Some(ClearingError::UnknownPosting { posting }),
            Some(m) => {
                let open = residual(events, posting, m.minor);
                if m.account != clearing.key.account {
                    Some(
                        ClearingError::WrongAccount { posting, expected: clearing.key.account },
                    )
                } else if m.currency != clearing.key.currency {
                    Some(
                        ClearingError::WrongCurrency { posting, expected: clearing.key.currency },
                    )
                } else if m.layer != clearing.key.layer {
                    Some(ClearingError::WrongLayer { posting, expected: clearing.key.layer })
                } else if !(i64::MIN <= open <= i64::MAX) {
                    Some(ClearingError::Money(MoneyError::Overflow))
                } else if item.applied.minor > open {
                    Some(
                        ClearingError::OverApplied {
                            posting,
                            requested_minor: item.applied.minor,
                            residual_minor: open as i64,
                            scale: P,
                        },
                    )
                } else if balance::moved(
                    sides_of::<P>(clearing.items, i, resolve),
                    m.direction,
                    item.applied.minor as int,
                ) is Err {
                    Some(ClearingError::Money(MoneyError::Overflow))
                } else {
                    None
                }
            },
        }
    }
}

/// Why the first refused item from `i` on is refused, if any is.
pub open spec fn first_item_fault<const P: u8>(
    events: Seq<EventFacts<P>>,
    clearing: ClearingFacts<P>,
    i: int,
    resolve: spec_fn(PostingRef) -> Option<posting::Movement>,
) -> Option<ClearingError>
    decreases clearing.items.len() - i,
{
    if i >= clearing.items.len() {
        None
    } else {
        match item_fault::<P>(events, clearing, i, resolve) {
            Some(e) => Some(e),
            None => first_item_fault::<P>(events, clearing, i + 1, resolve),
        }
    }
}

/// Why a clearing is refused, if it is.
pub open spec fn clearing_fault<const P: u8>(
    events: Seq<EventFacts<P>>,
    clearing: ClearingFacts<P>,
    resolve: spec_fn(PostingRef) -> Option<posting::Movement>,
) -> Option<ClearingError> {
    if recorded(events, clearing.id) {
        Some(ClearingError::DuplicateId { id: clearing.id })
    } else if clearing.items.len() < 2 {
        Some(ClearingError::TooFewItems { count: clearing.items.len() as usize })
    } else {
        match first_item_fault::<P>(events, clearing, 0, resolve) {
            Some(e) => Some(e),
            None => {
                let sides = sides_of::<P>(
                    clearing.items,
                    clearing.items.len() as int,
                    resolve,
                );
                if sides.debits.minor == sides.credits.minor {
                    None
                } else {
                    Some(
                        ClearingError::Unbalanced {
                            debits_minor: sides.debits.minor,
                            credits_minor: sides.credits.minor,
                            scale: P,
                        },
                    )
                }
            },
        }
    }
}

/// The open item a posting makes, if anything remains open on it.
pub open spec fn open_item_of<const P: u8>(
    events: Seq<EventFacts<P>>,
    posting: PostingRef,
    resolve: spec_fn(PostingRef) -> Option<posting::Movement>,
) -> Result<Option<OpenItem<P>>, ClearingError> {
    match resolve(posting) {
        None => Err(ClearingError::UnknownPosting { posting }),
        Some(m) => {
            let open = residual(events, posting, m.minor);
            if !(i64::MIN <= open <= i64::MAX) {
                Err(ClearingError::Money(MoneyError::Overflow))
            } else if open <= 0 {
                Ok(None)
            } else {
                Ok(
                    Some(
                        OpenItem {
                            posting,
                            direction: m.direction,
                            original: Amount { minor: m.minor as i64 },
                            applied: Amount { minor: applied_sum(events, posting) as i64 },
                            residual: Amount { minor: open as i64 },
                        },
                    ),
                )
            }
        },
    }
}

/// The open items among the first `n` candidates, or the first failure.
pub open spec fn open_among<const P: u8>(
    events: Seq<EventFacts<P>>,
    candidates: Seq<PostingRef>,
    n: int,
    resolve: spec_fn(PostingRef) -> Option<posting::Movement>,
) -> Result<Seq<OpenItem<P>>, ClearingError>
    decreases n,
{
    if n <= 0 {
        Ok(Seq::empty())
    } else {
        match open_among::<P>(events, candidates, n - 1, resolve) {
            Err(e) => Err(e),
            Ok(before) => match open_item_of::<P>(events, candidates[n - 1], resolve) {
                Err(e) => Err(e),
                Ok(None) => Ok(before),
                Ok(Some(item)) => Ok(before.push(item)),
            },
        }
    }
}

/// True when `order` lists the positions of `items` by posting reference, items
/// of one posting in the order in which they were given.
pub open spec fn by_reference<const P: u8>(items: Seq<OpenItem<P>>, order: Seq<int>) -> bool {
    &&& order.len() == items.len()
    &&& forall|k: int| 0 <= k < order.len() ==> 0 <= #[trigger] order[k] < items.len()
    &&& forall|j: int, k: int|
        0 <= j < k < order.len() ==> {
            let (a, b) = (
                items[#[trigger] order[j]].posting,
                items[#[trigger] order[k]].posting,
            );
            PostingRef::before(a, b) || (a == b && order[j] < order[k])
        }
}

/// The items at some positions.
pub open spec fn items_at<const P: u8>(items: Seq<OpenItem<P>>, order: Seq<int>) -> Seq<
    OpenItem<P>,
> {
    order.map_values(|i: int| items[i])
}

/// True when `listed` holds the items in the order of their postings.
pub open spec fn in_reference_order<const P: u8>(
    items: Seq<OpenItem<P>>,
    listed: Seq<OpenItem<P>>,
) -> bool {
    exists|order: Seq<int>| #[trigger]
        by_reference(items, order) && listed == items_at(items, order)
}

// ── the register ────────────────────────────────────────────────────────────

/// The append-only record of clearings, and the open items it implies.
///
/// Applied amounts are derived by replaying the events, so a reset genuinely
/// releases what it released and nothing is edited in place.
#[derive(Debug)]
pub struct ClearingRegister<const P: u8> {
    events: Vec<ClearingEvent<P>>,
    /// Applied amount per posting, derived from `events`.
    applied: SortedMap<PostingRef, Amount<P>>,
    /// Clearings that have been reset.
    reset: SortedMap<ClearingId, Date>,
    /// Index of every recorded clearing.
    by_id: SortedMap<ClearingId, usize>,
}

/// What some events say.
pub open spec fn event_facts<const P: u8>(events: Seq<ClearingEvent<P>>) -> Seq<EventFacts<P>> {
    events.map_values(|e: ClearingEvent<P>| e@)
}

impl<const P: u8> View for ClearingRegister<P> {
    type V = Seq<EventFacts<P>>;

    /// Every recorded event, in order.
    closed spec fn view(&self) -> Seq<EventFacts<P>> {
        event_facts(self.events@)
    }
}

impl<const P: u8> Default for ClearingRegister<P> {
    fn default() -> (register: Self)
        ensures
            register.wf(),
            register@ == Seq::<EventFacts<P>>::empty(),
    {
        Self::new()
    }
}

spec fn amount_in<const P: u8>(applied: Map<PostingRef, Amount<P>>, posting: PostingRef) -> int {
    if applied.contains_key(posting) {
        applied[posting].minor as int
    } else {
        0
    }
}

impl<const P: u8> ClearingRegister<P> {
    /// The history is sound, and what is derived from it agrees with it.
    pub closed spec fn wf(&self) -> bool {
        &&& sound_events(self@)
        &&& forall|posting: PostingRef| #[trigger]
            amount_in(self.applied@, posting) == applied_sum(self@, posting)
        &&& forall|id: ClearingId| #[trigger] self.reset@.contains_key(id) <==> released(self@, id)
        &&& forall|id: ClearingId| #[trigger] self.by_id@.contains_key(id) <==> recorded(self@, id)
        &&& forall|id: ClearingId| #[trigger]
            self.by_id@.contains_key(id) ==> records(self@, self.by_id@[id] as int, id)
    }

    /// The history of every register is sound.
    pub proof fn lemma_history(&self)
        requires
            self.wf(),
        ensures
            sound_events(self@),
            forall|posting: PostingRef| #[trigger]
                applied_sum(self@, posting) >= 0 && applied_sum(self@, posting) <= i64::MAX,
    {
        assert forall|posting: PostingRef| #[trigger]
            applied_sum(self@, posting) >= 0 && applied_sum(self@, posting) <= i64::MAX by {
            lemma_active_sum_is_natural(
                self@,
                self@.len() as int,
                Set::new(|id: ClearingId| released(self@, id)),
                posting,
            );
            assert(amount_in(self.applied@, posting) == applied_sum(self@, posting));
        }
    }

    /// Creates an empty register.
    #[must_use]
    pub fn new() -> (register: Self)
        ensures
            register.wf(),
            register@ == Seq::<EventFacts<P>>::empty(),
    {
        let register = ClearingRegister {
            events: Vec::new(),
            applied: SortedMap::new(),
            reset: SortedMap::new(),
            by_id: SortedMap::new(),
        };
        assert(register@ =~= Seq::<EventFacts<P>>::empty());
        register
    }

    /// How much has been applied to a posting.
    #[must_use]
    pub fn applied_to(&self, posting: PostingRef) -> (amount: Amount<P>)
        requires
            self.wf(),
        ensures
            amount.minor == applied_sum(self@, posting),
    {
        assert(amount_in(self.applied@, posting) == applied_sum(self@, posting));
        match self.applied.get(&posting) {
            Some(amount) => *amount,
            None => Amount { minor: 0 },
        }
    }

    /// What remains open on a posting.
    pub fn residual_of<L: PostingLookup<P>>(&self, posting: PostingRef, lookup: &L) -> (r: Result<
        Amount<P>,
        ClearingError,
    >)
        requires
            self.wf(),
        ensures
            r == (match lookup.resolved(posting) {
                None => Err(ClearingError::UnknownPosting { posting }),
                Some(m) => match money::amount_or_overflow::<P>(
                    residual(self@, posting, m.minor),
                ) {
                    Ok(amount) => Ok(amount),
                    Err(e) => Err(ClearingError::Money(e)),
                },
            }),
    {
        match lookup.posting(posting) {
            Some(found) => match found.amount.checked_sub(self.applied_to(posting)) {
                Ok(amount) => Ok(amount),
                Err(e) => Err(ClearingError::Money(e)),
            },
            None => Err(ClearingError::UnknownPosting { posting }),
        }
    }

    /// Records a clearing after checking every rule.
    pub fn clear<L: PostingLookup<P>>(&mut self, clearing: Clearing<P>, lookup: &L) -> (r: Result<
        (),
        ClearingError,
    >)
        requires
            old(self).wf(),
        ensures
            final(self).wf(),
            match clearing_fault::<P>(old(self)@, clearing@, resolver::<P, L>(*lookup)) {
                None => r is Ok && final(self)@ == old(self)@.push(
                    EventFacts::Cleared(clearing@),
                ),
                Some(e) => r == Err::<(), ClearingError>(e) && final(self)@ == old(self)@,
            },
            r is Ok <==> laws::clearing::may_be_recorded(
                old(self)@,
                clearing@,
                resolver::<P, L>(*lookup),
            ),
    {
        proof {
            laws::clearing::law_clearings_are_accepted_exactly_when_in_order(
                self@,
                clearing@,
                resolver::<P, L>(*lookup),
            );
        }
        if self.by_id.contains_key(&clearing.id) {
            return Err(ClearingError::DuplicateId { id: clearing.id });
        }
        if clearing.items.len() < 2 {
            return Err(ClearingError::TooFewItems { count: clearing.items.len() });
        }
        let sides = match self.check_items(&clearing, lookup) {
            Ok(sides) => sides,
            Err(e) => {
                return Err(e);
            },
        };
        if !sides.is_balanced() {
            return Err(
                ClearingError::Unbalanced {
                    debits_minor: sides.debits.to_minor(),
                    credits_minor: sides.credits.to_minor(),
                    scale: P,
                },
            );
        }
        let ghost facts = clearing@;
        proof {
            lemma_record(self@, facts);
        }
        self.add_items(&clearing.items);
        self.by_id.insert(clearing.id, self.events.len());
        self.events.push(ClearingEvent::Cleared(clearing));
        proof {
            let after = old(self)@.push(EventFacts::Cleared(facts));
            assert(self@ =~= after);
            assert(records(after, old(self)@.len() as int, facts.id));
            assert forall|id: ClearingId| #[trigger] self.by_id@.contains_key(id) implies records(
                self@,
                self.by_id@[id] as int,
                id,
            ) by {
                if id != facts.id {
                    assert(old(self).by_id@.contains_key(id));
                    let i = old(self).by_id@[id] as int;
                    assert(records(old(self)@, i, id));
                    assert(after[i] == old(self)@[i]);
                }
            }
        }
        Ok(())
    }

    /// Checks the items of a clearing, and returns the totals of both sides.
    fn check_items<L: PostingLookup<P>>(&self, clearing: &Clearing<P>, lookup: &L) -> (r: Result<
        Balance<P>,
        ClearingError,
    >)
        requires
            self.wf(),
        ensures
            match first_item_fault::<P>(self@, clearing@, 0, resolver::<P, L>(*lookup)) {
                None => {
                    &&& r == Ok::<Balance<P>, ClearingError>(
                        sides_of::<P>(clearing@.items, clearing@.items.len() as int, resolver::<P, L>(*lookup)),
                    )
                    &&& sound_items(clearing@.items)
                    &&& forall|i: int|
                        0 <= i < clearing@.items.len() ==> applied_sum(
                            self@,
                            (#[trigger] clearing@.items[i]).posting,
                        ) + clearing@.items[i].applied.minor <= i64::MAX
                },
                Some(e) => r == Err::<Balance<P>, ClearingError>(e),
            },
    {
        let ghost facts = clearing@;
        let mut seen: SortedMap<PostingRef, ()> = SortedMap::new();
        let mut sides: Balance<P> = Balance::zero();
        let mut i: usize = 0;
        while i < clearing.items.len()
            invariant
                i <= clearing.items.len(),
                facts == clearing@,
                self.wf(),
                first_item_fault::<P>(self@, facts, 0, resolver::<P, L>(*lookup)) == first_item_fault::<P>(
                    self@,
                    facts,
                    i as int,
                    resolver::<P, L>(*lookup),
                ),
                sides == sides_of::<P>(facts.items, i as int, resolver::<P, L>(*lookup)),
                forall|posting: PostingRef| #[trigger]
                    seen@.contains_key(posting) <==> applies_before(
                        facts.items,
                        i as int,
                        posting,
                    ),
                forall|k: int|
                    0 <= k < i ==> (#[trigger] facts.items[k]).applied.minor > 0 && applied_sum(
                        self@,
                        facts.items[k].posting,
                    ) + facts.items[k].applied.minor <= i64::MAX,
                forall|j: int, k: int|
                    0 <= j < k < i ==> (#[trigger] facts.items[j]).posting != (
                    #[trigger] facts.items[k]).posting,
            decreases clearing.items.len() - i,
        {
            let item: ClearedItem<P> = clearing.items[i];
            let posting = item.posting;
            if seen.insert(posting, ()).is_some() {
                return Err(ClearingError::DuplicateItem { posting });
            }
            if !item.applied.is_positive() {
                return Err(ClearingError::NonPositiveApplication { posting });
            }
            let found = match lookup.posting(posting) {
                Some(found) => found,
                None => {
                    return Err(ClearingError::UnknownPosting { posting });
                },
            };
            if found.account != clearing.account {
                return Err(ClearingError::WrongAccount { posting, expected: clearing.account });
            }
            if found.currency != clearing.currency {
                return Err(ClearingError::WrongCurrency { posting, expected: clearing.currency });
            }
            if found.layer != clearing.layer {
                return Err(ClearingError::WrongLayer { posting, expected: clearing.layer });
            }
            let open: Amount<P> = match found.amount.checked_sub(self.applied_to(posting)) {
                Ok(open) => open,
                Err(e) => {
                    return Err(ClearingError::Money(e));
                },
            };
            if item.applied.minor > open.minor {
                return Err(
                    ClearingError::OverApplied {
                        posting,
                        requested_minor: item.applied.to_minor(),
                        residual_minor: open.to_minor(),
                        scale: P,
                    },
                );
            }
            match sides.add(found.direction, item.applied) {
                Ok(_) => {},
                Err(e) => {
                    return Err(ClearingError::Money(e));
                },
            }
            proof {
                assert forall|other: PostingRef| #[trigger]
                    seen@.contains_key(other) <==> applies_before(
                        facts.items,
                        i + 1,
                        other,
                    ) by {
                    if applies_before(facts.items, i as int, other) {
                        let k = choose|k: int|
                            0 <= k < i && (#[trigger] facts.items[k]).posting == other;
                        assert(facts.items[k].posting == other);
                    }
                    if other == posting {
                        assert(facts.items[i as int].posting == other);
                    }
                    if applies_before(facts.items, i + 1, other) && other != posting {
                        let k = choose|k: int|
                            0 <= k < i + 1 && (#[trigger] facts.items[k]).posting == other;
                        assert(facts.items[k].posting == other);
                        assert(applies_before(facts.items, i as int, other));
                    }
                }
                assert(!applies_before(facts.items, i as int, posting));
            }
            i += 1;
        }
        Ok(sides)
    }

    /// Adds what some items apply to the derived amounts.
    fn add_items(&mut self, items: &Vec<ClearedItem<P>>)
        requires
            old(self).wf(),
            sound_items(items@),
            forall|i: int|
                0 <= i < items@.len() ==> applied_sum(old(self)@, (#[trigger] items@[i]).posting)
                    + items@[i].applied.minor <= i64::MAX,
        ensures
            final(self).events == old(self).events,
            final(self).reset == old(self).reset,
            final(self).by_id == old(self).by_id,
            forall|posting: PostingRef| #[trigger]
                amount_in(final(self).applied@, posting) == applied_sum(old(self)@, posting)
                    + item_amount(items@, posting),
    {
        let mut i: usize = 0;
        assert(items@.take(0) =~= Seq::empty());
        while i < items.len()
            invariant
                i <= items.len(),
                old(self).wf(),
                sound_items(items@),
                forall|k: int|
                    0 <= k < items@.len() ==> applied_sum(
                        old(self)@,
                        (#[trigger] items@[k]).posting,
                    ) + items@[k].applied.minor <= i64::MAX,
                self.events == old(self).events,
                self.reset == old(self).reset,
                self.by_id == old(self).by_id,
                forall|posting: PostingRef| #[trigger]
                    amount_in(self.applied@, posting) == applied_sum(old(self)@, posting)
                        + item_amount(items@.take(i as int), posting),
            decreases items.len() - i,
        {
            let item: ClearedItem<P> = items[i];
            proof {
                old(self).lemma_history();
                lemma_item_amount(items@, i as int, item.posting);
                if applies_before(items@, i as int, item.posting) {
                    let k = choose|k: int|
                        0 <= k < i && (#[trigger] items@[k]).posting == item.posting;
                    assert(items@[k].posting != items@[i as int].posting);
                }
                assert(amount_in(self.applied@, item.posting) == applied_sum(
                    old(self)@,
                    item.posting,
                ));
                assert(applied_sum(old(self)@, items@[i as int].posting) >= 0);
                assert(items@.take(i + 1).drop_last() =~= items@.take(i as int));
            }
            let so_far: i64 = match self.applied.get(&item.posting) {
                Some(amount) => amount.minor,
                None => 0,
            };
            let ghost before = self.applied@;
            self.applied.insert(item.posting, Amount { minor: so_far + item.applied.minor });
            assert forall|posting: PostingRef| #[trigger]
                amount_in(self.applied@, posting) == applied_sum(old(self)@, posting)
                    + item_amount(items@.take(i + 1), posting) by {
                assert(amount_in(before, posting) == applied_sum(old(self)@, posting)
                    + item_amount(items@.take(i as int), posting));
            }
            i += 1;
        }
        assert(items@.take(items@.len() as int) =~= items@);
    }

    /// Takes what some items apply out of the derived amounts.
    fn remove_items(&mut self, items: &Vec<ClearedItem<P>>)
        requires
            old(self).wf(),
            sound_items(items@),
            forall|posting: PostingRef| #[trigger]
                applied_sum(old(self)@, posting) >= item_amount(items@, posting),
        ensures
            final(self).events == old(self).events,
            final(self).reset == old(self).reset,
            final(self).by_id == old(self).by_id,
            forall|posting: PostingRef| #[trigger]
                amount_in(final(self).applied@, posting) == applied_sum(old(self)@, posting)
                    - item_amount(items@, posting),
    {
        let mut i: usize = 0;
        assert(items@.take(0) =~= Seq::empty());
        while i < items.len()
            invariant
                i <= items.len(),
                old(self).wf(),
                sound_items(items@),
                forall|posting: PostingRef| #[trigger]
                    applied_sum(old(self)@, posting) >= item_amount(items@, posting),
                self.events == old(self).events,
                self.reset == old(self).reset,
                self.by_id == old(self).by_id,
                forall|posting: PostingRef| #[trigger]
                    amount_in(self.applied@, posting) == applied_sum(old(self)@, posting)
                        - item_amount(items@.take(i as int), posting),
            decreases items.len() - i,
        {
            let item: ClearedItem<P> = items[i];
            proof {
                old(self).lemma_history();
                lemma_item_amount(items@, i as int, item.posting);
                lemma_item_amount(items@, items@.len() as int, item.posting);
                assert(items@.take(items@.len() as int) =~= items@);
                assert(item_amount(items@, items@[i as int].posting)
                    == items@[i as int].applied.minor);
                if applies_before(items@, i as int, item.posting) {
                    let k = choose|k: int|
                        0 <= k < i && (#[trigger] items@[k]).posting == item.posting;
                    assert(items@[k].posting != items@[i as int].posting);
                }
                assert(amount_in(self.applied@, item.posting) == applied_sum(
                    old(self)@,
                    item.posting,
                ));
                assert(applied_sum(old(self)@, item.posting) >= item_amount(
                    items@,
                    item.posting,
                ));
                assert(items@.take(i + 1).drop_last() =~= items@.take(i as int));
            }
            let so_far: i64 = match self.applied.get(&item.posting) {
                Some(amount) => amount.minor,
                None => 0,
            };
            let ghost before = self.applied@;
            self.applied.insert(item.posting, Amount { minor: so_far - item.applied.minor });
            assert forall|posting: PostingRef| #[trigger]
                amount_in(self.applied@, posting) == applied_sum(old(self)@, posting)
                    - item_amount(items@.take(i + 1), posting) by {
                assert(amount_in(before, posting) == applied_sum(old(self)@, posting)
                    - item_amount(items@.take(i as int), posting));
            }
            i += 1;
        }
        assert(items@.take(items@.len() as int) =~= items@);
    }

    /// Releases a clearing, reopening the items it had assigned.
    pub fn reset(&mut self, id: ClearingId, on: Date) -> (r: Result<(), ClearingError>)
        requires
            old(self).wf(),
        ensures
            final(self).wf(),
            if !recorded(old(self)@, id) {
                r == Err::<(), ClearingError>(ClearingError::UnknownClearing { id }) && final(self)@ == old(self)@
            } else if released(old(self)@, id) {
                r == Err::<(), ClearingError>(ClearingError::AlreadyReset { id }) && final(self)@ == old(self)@
            } else {
                r is Ok && final(self)@ == old(self)@.push(
                    EventFacts::Reset { clearing: id, on },
                )
            },
    {
        let index: usize = match self.by_id.get(&id) {
            Some(index) => *index,
            None => {
                return Err(ClearingError::UnknownClearing { id });
            },
        };
        if self.reset.contains_key(&id) {
            return Err(ClearingError::AlreadyReset { id });
        }
        assert(records(self@, index as int, id));
        let items = match &self.events[index] {
            ClearingEvent::Cleared(clearing) => clone_items(&clearing.items),
            ClearingEvent::Reset { .. } => {
                assert(false);
                Vec::new()
            },
        };
        proof {
            lemma_released(self@, index as int, on);
            let event = self@[index as int];
            assert(event == EventFacts::Cleared(event->Cleared_0));
        }
        self.remove_items(&items);
        self.reset.insert(id, on);
        self.events.push(ClearingEvent::Reset { clearing: id, on });
        proof {
            let after = old(self)@.push(EventFacts::Reset { clearing: id, on });
            assert(self@ =~= after);
            assert forall|other: ClearingId| #[trigger]
                self.by_id@.contains_key(other) implies records(
                self@,
                self.by_id@[other] as int,
                other,
            ) by {
                let i = old(self).by_id@[other] as int;
                assert(records(old(self)@, i, other));
                assert(after[i] == old(self)@[i]);
            }
        }
        Ok(())
    }

    /// True when a clearing has been released.
    #[must_use]
    pub fn is_reset(&self, id: ClearingId) -> (r: bool)
        requires
            self.wf(),
        ensures
            r == released(self@, id),
    {
        self.reset.contains_key(&id)
    }

    /// The clearing with a given identifier.
    #[must_use]
    pub fn get(&self, id: ClearingId) -> (r: Option<&Clearing<P>>)
        requires
            self.wf(),
        ensures
            match r {
                Some(clearing) => clearing@.id == id && self@.contains(
                    EventFacts::Cleared(clearing@),
                ),
                None => !recorded(self@, id),
            },
    {
        match self.by_id.get(&id) {
            Some(index) => {
                let at: usize = *index;
                assert(records(self@, at as int, id));
                match &self.events[at] {
                    ClearingEvent::Cleared(clearing) => {
                        assert(self@[at as int] == EventFacts::Cleared(clearing@));
                        Some(clearing)
                    },
                    ClearingEvent::Reset { .. } => None,
                }
            },
            None => None,
        }
    }

    /// Every recorded event, in order.
    #[must_use]
    pub fn events(&self) -> (events: &[ClearingEvent<P>])
        ensures
            event_facts(events@) == self@,
    {
        self.events.as_slice()
    }

    /// Number of clearings recorded, including any since reset.
    #[must_use]
    pub fn len(&self) -> (n: usize)
        requires
            self.wf(),
        ensures
            n == clearing_count(self@),
    {
        let n: usize = self.by_id.len();
        proof {
            self.by_id.lemma_len();
            lemma_count(self@, self.by_id@.dom());
        }
        n
    }

    /// True when nothing has been cleared.
    #[must_use]
    pub fn is_empty(&self) -> (r: bool)
        requires
            self.wf(),
        ensures
            r == (clearing_count(self@) == 0),
    {
        self.len() == 0
    }

    /// The open item a posting makes, if anything remains open on it.
    pub fn open_item<L: PostingLookup<P>>(&self, reference: PostingRef, lookup: &L) -> (r: Result<
        Option<OpenItem<P>>,
        ClearingError,
    >)
        requires
            self.wf(),
        ensures
            r == open_item_of::<P>(self@, reference, resolver::<P, L>(*lookup)),
    {
        let found = match lookup.posting(reference) {
            Some(found) => found,
            None => {
                return Err(ClearingError::UnknownPosting { posting: reference });
            },
        };
        let applied = self.applied_to(reference);
        match found.amount.checked_sub(applied) {
            Ok(residual) => if residual.is_positive() {
                Ok(
                    Some(
                        OpenItem {
                            posting: reference,
                            direction: found.direction,
                            original: found.amount,
                            applied,
                            residual,
                        },
                    ),
                )
            } else {
                Ok(None)
            },
            Err(e) => Err(ClearingError::Money(e)),
        }
    }

    /// Computes the open items among `candidates`.
    ///
    /// Ordered by posting reference, so the result is reproducible.
    pub fn open_items<L: PostingLookup<P>>(&self, candidates: &[PostingRef], lookup: &L) -> (r:
        Result<Vec<OpenItem<P>>, ClearingError>)
        requires
            self.wf(),
        ensures
            match open_among::<P>(self@, candidates@, candidates@.len() as int, resolver::<P, L>(*lookup)) {
                Ok(open) => r is Ok && in_reference_order(open, (r->Ok_0)@),
                Err(e) => r == Err::<Vec<OpenItem<P>>, ClearingError>(e),
            },
    {
        let mut found: Vec<OpenItem<P>> = Vec::new();
        let mut triples: Vec<(u128, u16, usize)> = Vec::new();
        let mut i: usize = 0;
        while i < candidates.len()
            invariant
                i <= candidates.len(),
                self.wf(),
                open_among::<P>(self@, candidates@, i as int, resolver::<P, L>(*lookup)) == Ok::<
                    Seq<OpenItem<P>>,
                    ClearingError,
                >(found@),
                triples@.len() == found@.len(),
                forall|k: int|
                    0 <= k < found@.len() ==> #[trigger] triples@[k] == (
                        found@[k].posting.entry.value,
                        found@[k].posting.index,
                        k as usize,
                    ),
            decreases candidates.len() - i,
        {
            match self.open_item(candidates[i], lookup) {
                Ok(Some(item)) => {
                    triples.push((item.posting.entry.value, item.posting.index, found.len()));
                    found.push(item);
                },
                Ok(None) => {},
                Err(e) => {
                    proof {
                        lemma_open_error::<P>(
                            self@,
                            candidates@,
                            i + 1,
                            candidates@.len() as int,
                            resolver::<P, L>(*lookup),
                        );
                    }
                    return Err(e);
                },
            }
            i += 1;
        }
        let ghost unsorted = triples@;
        let total: usize = triples.len();
        sort_triples(&mut triples);
        let ghost order = triples@.map_values(|t: (u128, u16, usize)| t.2 as int);
        proof {
            assert forall|i: int, j: int| 0 <= i < j < total implies unsorted[i] != unsorted[j] by {
                assert(unsorted[i].2 == i && unsorted[j].2 == j);
            }
            assert(unsorted.no_duplicates());
            sorting::lemma_sorted_positions(unsorted, triples@);
            assert forall|k: int| 0 <= k < triples@.len() implies {
                &&& 0 <= #[trigger] order[k] < found@.len()
                &&& triples@[k] == (
                    found@[order[k]].posting.entry.value,
                    found@[order[k]].posting.index,
                    order[k] as usize,
                )
            } by {
                assert(triples@.contains(triples@[k]));
                assert(unsorted.contains(triples@[k]));
            }
            assert forall|j: int, k: int| 0 <= j < k < order.len() implies {
                let (a, b) = (
                    found@[#[trigger] order[j]].posting,
                    found@[#[trigger] order[k]].posting,
                );
                PostingRef::before(a, b) || (a == b && order[j] < order[k])
            } by {
                assert(sorting::at_most(triples@[j], triples@[k]));
                assert(triples@[j] != triples@[k]);
            }
            assert(by_reference(found@, order));
        }
        let mut out: Vec<OpenItem<P>> = Vec::with_capacity(found.len());
        let mut k: usize = 0;
        while k < triples.len()
            invariant
                k <= triples.len(),
                triples@.len() == order.len(),
                by_reference(found@, order),
                order == triples@.map_values(|t: (u128, u16, usize)| t.2 as int),
                out@.len() == k,
                forall|j: int| 0 <= j < k ==> #[trigger] out@[j] == found@[order[j]],
            decreases triples.len() - k,
        {
            let at: usize = triples[k].2;
            assert(order[k as int] == at);
            out.push(found[at]);
            k += 1;
        }
        proof {
            assert(out@ =~= items_at(found@, order));
            assert(in_reference_order(found@, out@));
        }
        Ok(out)
    }
}

impl<const P: u8> Clone for ClearingRegister<P> {
    fn clone(&self) -> (copy: Self)
        ensures
            copy@ == self@,
            self.wf() ==> copy.wf(),
    {
        let mut events: Vec<ClearingEvent<P>> = Vec::with_capacity(self.events.len());
        let mut i: usize = 0;
        while i < self.events.len()
            invariant
                i <= self.events.len(),
                events@.len() == i,
                forall|k: int| 0 <= k < i ==> (#[trigger] events@[k])@ == self.events@[k]@,
            decreases self.events.len() - i,
        {
            events.push(self.events[i].clone());
            i += 1;
        }
        let copy = ClearingRegister {
            events,
            applied: self.applied.copied(),
            reset: self.reset.copied(),
            by_id: self.by_id.copied(),
        };
        assert(copy@ =~= self@);
        copy
    }
}

/// How many clearings some events record.
pub open spec fn clearing_count<const P: u8>(events: Seq<EventFacts<P>>) -> nat
    decreases events.len(),
{
    if events.len() == 0 {
        0
    } else {
        clearing_count(events.drop_last()) + if events.last() is Cleared {
            1nat
        } else {
            0nat
        }
    }
}

// ── lemmas ──────────────────────────────────────────────────────────────────

/// As many identifiers are recorded as clearings are.
proof fn lemma_count<const P: u8>(events: Seq<EventFacts<P>>, ids: Set<ClearingId>)
    requires
        ids.finite(),
        forall|id: ClearingId| #[trigger] ids.contains(id) <==> recorded(events, id),
        forall|i: int, j: int, id: ClearingId| #[trigger]
            records(events, i, id) && #[trigger] records(events, j, id) ==> i == j,
    ensures
        ids.len() == clearing_count(events),
    decreases events.len(),
{
    if events.len() == 0 {
        assert(ids =~= Set::empty()) by {
            assert forall|id: ClearingId| !ids.contains(id) by {
                if ids.contains(id) {
                    let i = choose|i: int| #[trigger] records(events, i, id);
                }
            }
        }
    } else {
        let rest = events.drop_last();
        let n = rest.len() as int;
        assert forall|i: int, id: ClearingId| #[trigger] records(rest, i, id) <==> records(
            events,
            i,
            id,
        ) && i < n by {
            if 0 <= i < n {
                assert(rest[i] == events[i]);
            }
        }
        match events.last() {
            EventFacts::Cleared(c) => {
                let fewer = ids.remove(c.id);
                assert(records(events, n, c.id));
                assert(ids.contains(c.id));
                assert forall|id: ClearingId| #[trigger] fewer.contains(id) <==> recorded(
                    rest,
                    id,
                ) by {
                    if fewer.contains(id) {
                        let i = choose|i: int| #[trigger] records(events, i, id);
                        assert(records(rest, i, id));
                    }
                    if recorded(rest, id) {
                        let i = choose|i: int| #[trigger] records(rest, i, id);
                        assert(records(events, i, id));
                        if id == c.id {
                            assert(i == n);
                        }
                    }
                }
                lemma_count(rest, fewer);
            },
            EventFacts::Reset { .. } => {
                assert forall|id: ClearingId| #[trigger] ids.contains(id) <==> recorded(
                    rest,
                    id,
                ) by {
                    if ids.contains(id) {
                        let i = choose|i: int| #[trigger] records(events, i, id);
                        assert(records(rest, i, id));
                    }
                    if recorded(rest, id) {
                        let i = choose|i: int| #[trigger] records(rest, i, id);
                        assert(records(events, i, id));
                    }
                }
                lemma_count(rest, ids);
            },
        }
    }
}

proof fn lemma_open_error<const P: u8>(
    events: Seq<EventFacts<P>>,
    candidates: Seq<PostingRef>,
    k: int,
    n: int,
    resolve: spec_fn(PostingRef) -> Option<posting::Movement>,
)
    requires
        k <= n,
        open_among::<P>(events, candidates, k, resolve) is Err,
    ensures
        open_among::<P>(events, candidates, n, resolve) == open_among::<P>(
            events,
            candidates,
            k,
            resolve,
        ),
    decreases n - k,
{
    if k < n {
        lemma_open_error::<P>(events, candidates, k, n - 1, resolve);
    }
}

/// No item of an accepted clearing is refused.
pub proof fn lemma_no_item_fault<const P: u8>(
    events: Seq<EventFacts<P>>,
    clearing: ClearingFacts<P>,
    from: int,
    i: int,
    resolve: spec_fn(PostingRef) -> Option<posting::Movement>,
)
    requires
        0 <= from <= i < clearing.items.len(),
        first_item_fault::<P>(events, clearing, from, resolve) is None,
    ensures
        item_fault::<P>(events, clearing, i, resolve) is None,
    decreases i - from,
{
    if from < i {
        lemma_no_item_fault::<P>(events, clearing, from + 1, i, resolve);
    }
}
proof fn lemma_item_amount_is_natural<const P: u8>(
    items: Seq<ClearedItem<P>>,
    posting: PostingRef,
)
    requires
        sound_items(items),
    ensures
        item_amount(items, posting) >= 0,
    decreases items.len(),
{
    if items.len() > 0 {
        lemma_item_amount_is_natural(items.drop_last(), posting);
    }
}

/// Where every posting occurs once, its item says how much is applied to it.
pub proof fn lemma_item_amount<const P: u8>(items: Seq<ClearedItem<P>>, n: int, posting: PostingRef)
    requires
        sound_items(items),
        0 <= n <= items.len(),
    ensures
        !applies_before(items, n, posting) ==> item_amount(items.take(n), posting) == 0,
        forall|k: int|
            0 <= k < n && (#[trigger] items[k]).posting == posting ==> item_amount(
                items.take(n),
                posting,
            ) == items[k].applied.minor,
    decreases n,
{
    if n > 0 {
        lemma_item_amount(items, n - 1, posting);
        assert(items.take(n).drop_last() =~= items.take(n - 1));
        if items[n - 1].posting == posting {
            assert(!applies_before(items, n - 1, posting));
        } else if applies_before(items, n - 1, posting) {
            let k = choose|k: int| 0 <= k < n - 1 && (#[trigger] items[k]).posting == posting;
            assert(applies_before(items, n, posting));
        }
    }
}

proof fn lemma_active_sum_is_natural<const P: u8>(
    events: Seq<EventFacts<P>>,
    n: int,
    gone: Set<ClearingId>,
    posting: PostingRef,
)
    requires
        sound_events(events),
        n <= events.len(),
    ensures
        active_sum(events, n, gone, posting) >= 0,
    decreases n,
{
    if n > 0 {
        lemma_active_sum_is_natural(events, n - 1, gone, posting);
        if let EventFacts::Cleared(c) = events[n - 1] {
            lemma_item_amount_is_natural(c.items, posting);
        }
    }
}

/// An active clearing is part of what is applied.
proof fn lemma_active_part<const P: u8>(
    events: Seq<EventFacts<P>>,
    n: int,
    gone: Set<ClearingId>,
    posting: PostingRef,
    k: int,
)
    requires
        sound_events(events),
        0 <= k < n <= events.len(),
        events[k] is Cleared,
        !gone.contains((events[k]->Cleared_0).id),
    ensures
        active_sum(events, n, gone, posting) >= item_amount(
            (events[k]->Cleared_0).items,
            posting,
        ),
    decreases n,
{
    lemma_active_sum_is_natural(events, n - 1, gone, posting);
    if k < n - 1 {
        lemma_active_part(events, n - 1, gone, posting, k);
        if let EventFacts::Cleared(c) = events[n - 1] {
            lemma_item_amount_is_natural(c.items, posting);
        }
    }
}

/// Releasing a clearing takes what it applied out of the sum.
proof fn lemma_release<const P: u8>(
    events: Seq<EventFacts<P>>,
    n: int,
    gone: Set<ClearingId>,
    posting: PostingRef,
    k: int,
)
    requires
        sound_events(events),
        0 <= n <= events.len(),
        0 <= k < events.len(),
        events[k] is Cleared,
        !gone.contains((events[k]->Cleared_0).id),
    ensures
        active_sum(events, n, gone.insert((events[k]->Cleared_0).id), posting) == active_sum(
            events,
            n,
            gone,
            posting,
        ) - if k < n {
            item_amount((events[k]->Cleared_0).items, posting)
        } else {
            0
        },
    decreases n,
{
    let id = (events[k]->Cleared_0).id;
    if n > 0 {
        lemma_release(events, n - 1, gone, posting, k);
        if let EventFacts::Cleared(c) = events[n - 1] {
            if c.id == id {
                assert(records(events, n - 1, id));
                assert(records(events, k, id));
            }
        }
    }
}

proof fn lemma_active_sum_of_prefix<const P: u8>(
    events: Seq<EventFacts<P>>,
    event: EventFacts<P>,
    n: int,
    gone: Set<ClearingId>,
    posting: PostingRef,
)
    requires
        n <= events.len(),
    ensures
        active_sum(events.push(event), n, gone, posting) == active_sum(events, n, gone, posting),
    decreases n,
{
    if n > 0 {
        lemma_active_sum_of_prefix(events, event, n - 1, gone, posting);
    }
}

/// What recording one more clearing does to the history and to what is applied.
pub proof fn lemma_record<const P: u8>(events: Seq<EventFacts<P>>, clearing: ClearingFacts<P>)
    requires
        sound_events(events),
        !recorded(events, clearing.id),
        sound_items(clearing.items),
        clearing.items.len() >= 2,
    ensures
        ({
            let after = events.push(EventFacts::Cleared(clearing));
            &&& sound_events(after)
            &&& forall|id: ClearingId| #[trigger] released(after, id) <==> released(events, id)
            &&& forall|id: ClearingId| #[trigger]
                recorded(after, id) <==> recorded(events, id) || id == clearing.id
            &&& forall|posting: PostingRef| #[trigger]
                applied_sum(after, posting) == applied_sum(events, posting) + item_amount(
                    clearing.items,
                    posting,
                )
        }),
{
    let after = events.push(EventFacts::Cleared(clearing));
    let n = events.len() as int;
    assert forall|i: int, id: ClearingId| #[trigger] records(after, i, id) <==> records(
        events,
        i,
        id,
    ) || (i == n && id == clearing.id) by {
        if 0 <= i < n {
            assert(after[i] == events[i]);
        }
    }
    assert forall|i: int, id: ClearingId| #[trigger] releases(after, i, id) <==> releases(
        events,
        i,
        id,
    ) by {
        if 0 <= i < n {
            assert(after[i] == events[i]);
        }
    }
    assert forall|id: ClearingId| #[trigger] released(after, id) <==> released(events, id) by {
        if released(events, id) {
            let i = choose|i: int| #[trigger] releases(events, i, id);
            assert(releases(after, i, id));
        }
        if released(after, id) {
            let i = choose|i: int| #[trigger] releases(after, i, id);
            assert(releases(events, i, id));
        }
    }
    assert forall|id: ClearingId| #[trigger] recorded(after, id) <==> recorded(events, id) || id
        == clearing.id by {
        if recorded(events, id) {
            let i = choose|i: int| #[trigger] records(events, i, id);
            assert(records(after, i, id));
        }
        if id == clearing.id {
            assert(records(after, n, id));
        }
        if recorded(after, id) && id != clearing.id {
            let i = choose|i: int| #[trigger] records(after, i, id);
            assert(records(events, i, id));
        }
    }
    assert(sound_events(after)) by {
        assert forall|i: int| 0 <= i < after.len() implies (
        #[trigger] after[i] matches EventFacts::Cleared(c) ==> sound_items(c.items)
            && c.items.len() >= 2) by {
            if i < n {
                assert(after[i] == events[i]);
            }
        }
        assert forall|i: int, j: int, id: ClearingId| #[trigger]
            records(after, i, id) && #[trigger] records(after, j, id) implies i == j by {
            if i == n || j == n {
                if i != j {
                    let k = if i == n {
                        j
                    } else {
                        i
                    };
                    assert(records(events, k, clearing.id));
                }
            }
        }
        assert forall|i: int, id: ClearingId| #[trigger] releases(after, i, id) implies recorded(
            after,
            id,
        ) by {
            assert(releases(events, i, id));
            assert(recorded(events, id));
        }
    }
    let gone = Set::new(|id: ClearingId| released(events, id));
    assert(Set::new(|id: ClearingId| released(after, id)) =~= gone);
    assert(!gone.contains(clearing.id)) by {
        if released(events, clearing.id) {
            let i = choose|i: int| #[trigger] releases(events, i, clearing.id);
            assert(recorded(events, clearing.id));
        }
    }
    assert forall|posting: PostingRef| #[trigger]
        applied_sum(after, posting) == applied_sum(events, posting) + item_amount(
            clearing.items,
            posting,
        ) by {
        lemma_active_sum_of_prefix(events, EventFacts::Cleared(clearing), n, gone, posting);
    }
}

/// What releasing a recorded clearing does to the history and to what is applied.
pub proof fn lemma_released<const P: u8>(events: Seq<EventFacts<P>>, k: int, on: Date)
    requires
        sound_events(events),
        0 <= k < events.len(),
        events[k] is Cleared,
        !released(events, (events[k]->Cleared_0).id),
    ensures
        ({
            let clearing = events[k]->Cleared_0;
            let after = events.push(EventFacts::Reset { clearing: clearing.id, on });
            &&& sound_events(after)
            &&& forall|id: ClearingId| #[trigger]
                released(after, id) <==> released(events, id) || id == clearing.id
            &&& forall|id: ClearingId| #[trigger] recorded(after, id) <==> recorded(events, id)
            &&& forall|posting: PostingRef| #[trigger]
                applied_sum(after, posting) == applied_sum(events, posting) - item_amount(
                    clearing.items,
                    posting,
                )
            &&& forall|posting: PostingRef| #[trigger]
                applied_sum(events, posting) >= item_amount(clearing.items, posting)
        }),
{
    let clearing = events[k]->Cleared_0;
    let event = EventFacts::<P>::Reset { clearing: clearing.id, on };
    let after = events.push(event);
    let n = events.len() as int;
    assert forall|i: int, id: ClearingId| #[trigger] records(after, i, id) <==> records(
        events,
        i,
        id,
    ) by {
        if 0 <= i < n {
            assert(after[i] == events[i]);
        }
    }
    assert forall|i: int, id: ClearingId| #[trigger] releases(after, i, id) <==> releases(
        events,
        i,
        id,
    ) || (i == n && id == clearing.id) by {
        if 0 <= i < n {
            assert(after[i] == events[i]);
        }
    }
    assert forall|id: ClearingId| #[trigger] released(after, id) <==> released(events, id) || id
        == clearing.id by {
        if released(events, id) {
            let i = choose|i: int| #[trigger] releases(events, i, id);
            assert(releases(after, i, id));
        }
        if id == clearing.id {
            assert(releases(after, n, id));
        }
        if released(after, id) && id != clearing.id {
            let i = choose|i: int| #[trigger] releases(after, i, id);
            assert(releases(events, i, id));
        }
    }
    assert forall|id: ClearingId| #[trigger] recorded(after, id) <==> recorded(events, id) by {
        if recorded(events, id) {
            let i = choose|i: int| #[trigger] records(events, i, id);
            assert(records(after, i, id));
        }
        if recorded(after, id) {
            let i = choose|i: int| #[trigger] records(after, i, id);
            assert(records(events, i, id));
        }
    }
    assert(sound_events(after)) by {
        assert forall|i: int| 0 <= i < after.len() implies (
        #[trigger] after[i] matches EventFacts::Cleared(c) ==> sound_items(c.items)
            && c.items.len() >= 2) by {
            if i < n {
                assert(after[i] == events[i]);
            }
        }
        assert forall|i: int, j: int, id: ClearingId| #[trigger]
            releases(after, i, id) && #[trigger] releases(after, j, id) implies i == j by {
            if i != j && (i == n || j == n) {
                let other = if i == n {
                    j
                } else {
                    i
                };
                assert(releases(events, other, clearing.id));
            }
        }
        assert forall|i: int, id: ClearingId| #[trigger] releases(after, i, id) implies recorded(
            after,
            id,
        ) by {
            if i == n {
                assert(records(events, k, clearing.id));
                assert(recorded(events, clearing.id));
            } else {
                assert(releases(events, i, id));
                assert(recorded(events, id));
            }
        }
    }
    let gone = Set::new(|id: ClearingId| released(events, id));
    assert(Set::new(|id: ClearingId| released(after, id)) =~= gone.insert(clearing.id));
    assert forall|posting: PostingRef| #[trigger]
        applied_sum(after, posting) == applied_sum(events, posting) - item_amount(
            clearing.items,
            posting,
        ) by {
        lemma_active_sum_of_prefix(events, event, n, gone.insert(clearing.id), posting);
        lemma_release(events, n, gone, posting, k);
    }
    assert forall|posting: PostingRef| #[trigger]
        applied_sum(events, posting) >= item_amount(clearing.items, posting) by {
        lemma_active_part(events, n, gone, posting, k);
    }
}

// ── what clearing promises ──────────────────────────────────────────────────

/// The sum of what some items apply to postings on one side.
pub open spec fn applied_on<const P: u8>(
    items: Seq<ClearedItem<P>>,
    n: int,
    resolve: spec_fn(PostingRef) -> Option<posting::Movement>,
    side: Direction,
) -> int
    decreases n,
{
    if n <= 0 {
        0
    } else {
        applied_on::<P>(items, n - 1, resolve, side) + match resolve(
            items[n - 1].posting,
        ) {
            Some(m) => if m.direction == side {
                items[n - 1].applied.minor as int
            } else {
                0
            },
            None => 0,
        }
    }
}

proof fn lemma_sides<const P: u8>(
    events: Seq<EventFacts<P>>,
    clearing: ClearingFacts<P>,
    n: int,
    resolve: spec_fn(PostingRef) -> Option<posting::Movement>,
)
    requires
        0 <= n <= clearing.items.len(),
        first_item_fault::<P>(events, clearing, 0, resolve) is None,
    ensures
        sides_of::<P>(clearing.items, n, resolve).debits.minor == applied_on::<P>(
            clearing.items,
            n,
            resolve,
            Direction::Debit,
        ),
        sides_of::<P>(clearing.items, n, resolve).credits.minor == applied_on::<P>(
            clearing.items,
            n,
            resolve,
            Direction::Credit,
        ),
    decreases n,
{
    if n > 0 {
        lemma_sides::<P>(events, clearing, n - 1, resolve);
        lemma_no_item_fault::<P>(events, clearing, 0, n - 1, resolve);
    }
}

/// An accepted clearing is a matter of assignment only: what it applies to
/// debits equals what it applies to credits.
pub proof fn law_accepted_clearings_balance<const P: u8>(
    events: Seq<EventFacts<P>>,
    clearing: ClearingFacts<P>,
    resolve: spec_fn(PostingRef) -> Option<posting::Movement>,
)
    requires
        clearing_fault::<P>(events, clearing, resolve) is None,
    ensures
        applied_on::<P>(
            clearing.items,
            clearing.items.len() as int,
            resolve,
            Direction::Debit,
        ) == applied_on::<P>(
            clearing.items,
            clearing.items.len() as int,
            resolve,
            Direction::Credit,
        ),
{
    lemma_sides::<P>(events, clearing, clearing.items.len() as int, resolve);
}

proof fn lemma_accepted_items<const P: u8>(
    events: Seq<EventFacts<P>>,
    clearing: ClearingFacts<P>,
    resolve: spec_fn(PostingRef) -> Option<posting::Movement>,
)
    requires
        clearing_fault::<P>(events, clearing, resolve) is None,
    ensures
        sound_items(clearing.items),
{
    assert forall|i: int| 0 <= i < clearing.items.len() implies (
    #[trigger] clearing.items[i]).applied.minor > 0 by {
        lemma_no_item_fault::<P>(events, clearing, 0, i, resolve);
    }
    assert forall|i: int, j: int| 0 <= i < j < clearing.items.len() implies (
    #[trigger] clearing.items[i]).posting != (#[trigger] clearing.items[j]).posting by {
        lemma_no_item_fault::<P>(events, clearing, 0, j, resolve);
        if clearing.items[i].posting == clearing.items[j].posting {
            assert(applies_before(clearing.items, j, clearing.items[j].posting));
        }
    }
}

/// No posting is ever cleared beyond its amount: an accepted clearing leaves at
/// most that much applied.
pub proof fn law_clearing_never_over_applies<const P: u8>(
    events: Seq<EventFacts<P>>,
    clearing: ClearingFacts<P>,
    resolve: spec_fn(PostingRef) -> Option<posting::Movement>,
    posting: PostingRef,
)
    requires
        sound_events(events),
        clearing_fault::<P>(events, clearing, resolve) is None,
        resolve(posting) is Some,
        applied_sum(events, posting) <= (resolve(posting)->0).minor,
    ensures
        applied_sum(events.push(EventFacts::Cleared(clearing)), posting) <= (resolve(
            posting,
        )->0).minor,
        applied_sum(events.push(EventFacts::Cleared(clearing)), posting) >= applied_sum(
            events,
            posting,
        ),
{
    lemma_accepted_items::<P>(events, clearing, resolve);
    lemma_record(events, clearing);
    let n = clearing.items.len() as int;
    lemma_item_amount(clearing.items, n, posting);
    lemma_item_amount_is_natural(clearing.items, posting);
    assert(clearing.items.take(n) =~= clearing.items);
    assert(applied_sum(events.push(EventFacts::Cleared(clearing)), posting) == applied_sum(
        events,
        posting,
    ) + item_amount(clearing.items, posting));
    if applies_before(clearing.items, n, posting) {
        let k = choose|k: int| 0 <= k < n && (#[trigger] clearing.items[k]).posting == posting;
        lemma_no_item_fault::<P>(events, clearing, 0, k, resolve);
    }
}

/// Resetting a clearing undoes it: every posting is as open as before the
/// clearing was recorded.
pub proof fn law_reset_undoes_clearing<const P: u8>(
    events: Seq<EventFacts<P>>,
    clearing: ClearingFacts<P>,
    on: Date,
    posting: PostingRef,
)
    requires
        sound_events(events),
        !recorded(events, clearing.id),
        sound_items(clearing.items),
        clearing.items.len() >= 2,
    ensures
        applied_sum(
            events.push(EventFacts::Cleared(clearing)).push(
                EventFacts::Reset { clearing: clearing.id, on },
            ),
            posting,
        ) == applied_sum(events, posting),
{
    let cleared = events.push(EventFacts::Cleared(clearing));
    lemma_record(events, clearing);
    assert(cleared[events.len() as int] == EventFacts::Cleared(clearing));
    assert(!released(cleared, clearing.id)) by {
        assert(released(cleared, clearing.id) <==> released(events, clearing.id));
        if released(events, clearing.id) {
            let i = choose|i: int| #[trigger] releases(events, i, clearing.id);
            assert(recorded(events, clearing.id));
        }
    }
    lemma_released(cleared, events.len() as int, on);
    assert(applied_sum(cleared, posting) == applied_sum(events, posting) + item_amount(
        clearing.items,
        posting,
    ));
    assert(applied_sum(
        cleared.push(EventFacts::Reset { clearing: clearing.id, on }),
        posting,
    ) == applied_sum(cleared, posting) - item_amount(clearing.items, posting));
}

/// True when what is applied to a posting does not exceed it, and nothing is
/// applied to a posting that does not exist.
pub open spec fn application_fits<const P: u8>(
    events: Seq<EventFacts<P>>,
    resolve: spec_fn(PostingRef) -> Option<posting::Movement>,
    posting: PostingRef,
) -> bool {
    match resolve(posting) {
        Some(m) => applied_sum(events, posting) <= m.minor || applied_sum(events, posting) == 0,
        None => applied_sum(events, posting) == 0,
    }
}

/// An accepted clearing leaves every application within its posting.
pub proof fn lemma_fits_after_clearing<const P: u8>(
    events: Seq<EventFacts<P>>,
    clearing: ClearingFacts<P>,
    resolve: spec_fn(PostingRef) -> Option<posting::Movement>,
    posting: PostingRef,
)
    requires
        sound_events(events),
        clearing_fault::<P>(events, clearing, resolve) is None,
        application_fits(events, resolve, posting),
    ensures
        application_fits(events.push(EventFacts::Cleared(clearing)), resolve, posting),
{
    lemma_accepted_items::<P>(events, clearing, resolve);
    lemma_record(events, clearing);
    let n = clearing.items.len() as int;
    lemma_item_amount(clearing.items, n, posting);
    assert(clearing.items.take(n) =~= clearing.items);
    assert(applied_sum(events.push(EventFacts::Cleared(clearing)), posting) == applied_sum(
        events,
        posting,
    ) + item_amount(clearing.items, posting));
    if applies_before(clearing.items, n, posting) {
        let k = choose|k: int| 0 <= k < n && (#[trigger] clearing.items[k]).posting == posting;
        lemma_no_item_fault::<P>(events, clearing, 0, k, resolve);
    }
}

/// A reset leaves every application within its posting.
pub proof fn lemma_fits_after_reset<const P: u8>(
    events: Seq<EventFacts<P>>,
    id: ClearingId,
    on: Date,
    resolve: spec_fn(PostingRef) -> Option<posting::Movement>,
    posting: PostingRef,
)
    requires
        sound_events(events),
        recorded(events, id),
        !released(events, id),
        application_fits(events, resolve, posting),
    ensures
        application_fits(
            events.push(EventFacts::Reset { clearing: id, on }),
            resolve,
            posting,
        ),
{
    let k = choose|k: int| #[trigger] records(events, k, id);
    let after = events.push(EventFacts::Reset { clearing: id, on });
    lemma_released(events, k, on);
    lemma_item_amount_is_natural((events[k]->Cleared_0).items, posting);
    lemma_active_sum_is_natural(
        after,
        after.len() as int,
        Set::new(|x: ClearingId| released(after, x)),
        posting,
    );
    assert(applied_sum(after, posting) == applied_sum(events, posting) - item_amount(
        (events[k]->Cleared_0).items,
        posting,
    ));
}

} // verus!
