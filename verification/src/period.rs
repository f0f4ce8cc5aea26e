//! Accounting periods and their lifecycle.
//!
//! A period is a bounded range of booking dates with a state. Sealing a period
//! stops further postings inside it; a correction that belongs to a sealed period
//! is booked in the current open period instead, carrying a reference to the
//! original date. That is the only treatment compatible with an append-only log:
//! reopening a period would mean rewriting history that has already been
//! committed to.
//!
//! A sealed closing balance is cumulative through the period's last day. Sealing
//! therefore also moves a watermark: every date up to and including it counts as
//! sealed, whether or not a period covers it.

use crate::canonical::{self, Canonical, CanonicalWriter};
use crate::date::Date;
use crate::dimensions::{self, DimensionError, Label};
use crate::ordered::{self, Key, Rank, SortedMap};
use vstd::prelude::*;
use vstd::string::*;
use vstd::utf8::*;

verus! {

/// Where a period sits in its lifecycle.
#[derive(Debug, Clone, Copy, PartialEq, Eq, Structural, PartialOrd, Ord, Hash)]
pub enum PeriodState {
    /// Accepts postings.
    Open,
    /// Undergoing verification; no new postings accepted.
    Closing,
    /// Closed and committed to. Immutable.
    Sealed,
}

impl PeriodState {
    /// True when postings may be booked into the period.
    #[must_use]
    pub fn accepts_postings(self) -> (r: bool)
        ensures
            r == (self is Open),
    {
        matches!(self, PeriodState::Open)
    }

    /// The name of the state.
    #[must_use]
    pub fn name(self) -> (s: &'static str)
        ensures
            s@ == (match self {
                PeriodState::Open => "open"@,
                PeriodState::Closing => "closing"@,
                PeriodState::Sealed => "sealed"@,
            }),
    {
        match self {
            PeriodState::Open => "open",
            PeriodState::Closing => "closing",
            PeriodState::Sealed => "sealed",
        }
    }
}

/// The lifecycle: open to closing, closing to sealed, and closing back to open
/// for a close that is abandoned.
pub open spec fn may_become(from: PeriodState, to: PeriodState) -> bool {
    ||| from is Open && to is Closing
    ||| from is Closing && to is Sealed
    ||| from is Closing && to is Open
}

/// Identifier for a period, such as `"2026-03"`.
#[derive(Debug, PartialEq, Eq, PartialOrd, Ord, Hash)]
pub struct PeriodId {
    label: Label,
}

impl View for PeriodId {
    type V = Seq<char>;

    closed spec fn view(&self) -> Seq<char> {
        self.label@
    }
}

impl Clone for PeriodId {
    fn clone(&self) -> (copy: Self)
        ensures
            copy@ == self@,
    {
        PeriodId { label: self.label.clone() }
    }
}

impl PeriodId {
    /// Validates and wraps an identifier.
    pub fn new(s: &str) -> (r: Result<Self, DimensionError>)
        ensures
            match r {
                Ok(id) => dimensions::label_error(s@) is None && id@ == s@,
                Err(e) => dimensions::label_error(s@) == Some(e),
            },
    {
        match Label::new(s) {
            Ok(label) => Ok(PeriodId { label }),
            Err(e) => Err(e),
        }
    }

    /// The underlying identifier.
    #[must_use]
    pub fn as_str(&self) -> (s: &str)
        ensures
            s@ == self@,
            dimensions::label_error(self@) is None,
    {
        self.label.as_str()
    }

    /// The identifier as text.
    #[must_use]
    pub fn to_string(&self) -> (s: String)
        ensures
            s@ == self@,
    {
        self.label.to_string()
    }

    /// True when both are the same identifier.
    #[must_use]
    pub fn same(&self, other: &Self) -> (r: bool)
        ensures
            r == (self@ == other@),
    {
        self.label.same(&other.label)
    }
}

impl Canonical for PeriodId {
    open spec fn encoding(&self) -> Seq<u8> {
        canonical::text_bytes(self@)
    }

    fn encode(&self, w: &mut CanonicalWriter) {
        self.label.encode(w);
    }
}

impl Key for PeriodId {
    open spec fn before(a: Seq<char>, b: Seq<char>) -> bool {
        Label::before(a, b)
    }

    proof fn lemma_irreflexive(a: Seq<char>) {
        Label::lemma_irreflexive(a);
    }

    proof fn lemma_transitive(a: Seq<char>, b: Seq<char>, c: Seq<char>) {
        Label::lemma_transitive(a, b, c);
    }

    proof fn lemma_total(a: Seq<char>, b: Seq<char>) {
        Label::lemma_total(a, b);
    }

    fn rank(&self, other: &Self) -> (r: Rank) {
        self.label.rank(&other.label)
    }
}

/// Identifies one ledger.
///
/// A ledger is the isolation boundary: its own log, its own dense index space,
/// its own Merkle tree, its own seal chain, its own accounts. Nothing crosses
/// between two of them.
///
/// That is deliberately stronger than a filter column. A seal commits to one
/// entity's history, so a shared log would have each tenant's seal committing to
/// every other tenant's entries — and an inclusion proof shown to one auditor
/// would reveal how many entries the others hold. Where books must be separable
/// for legal or contractual reasons, the separation has to be structural.
#[derive(Debug, PartialEq, Eq, PartialOrd, Ord, Hash)]
pub struct LedgerId {
    label: Label,
}

impl View for LedgerId {
    type V = Seq<char>;

    closed spec fn view(&self) -> Seq<char> {
        self.label@
    }
}

impl Clone for LedgerId {
    fn clone(&self) -> (copy: Self)
        ensures
            copy@ == self@,
    {
        LedgerId { label: self.label.clone() }
    }
}

impl LedgerId {
    /// Validates and wraps an identifier.
    pub fn new(s: &str) -> (r: Result<Self, DimensionError>)
        ensures
            match r {
                Ok(id) => dimensions::label_error(s@) is None && id@ == s@,
                Err(e) => dimensions::label_error(s@) == Some(e),
            },
    {
        match Label::new(s) {
            Ok(label) => Ok(LedgerId { label }),
            Err(e) => Err(e),
        }
    }

    /// The underlying identifier.
    #[must_use]
    pub fn as_str(&self) -> (s: &str)
        ensures
            s@ == self@,
            dimensions::label_error(self@) is None,
    {
        self.label.as_str()
    }

    /// The identifier as text.
    #[must_use]
    pub fn to_string(&self) -> (s: String)
        ensures
            s@ == self@,
    {
        self.label.to_string()
    }

    /// True when both are the same identifier.
    #[must_use]
    pub fn same(&self, other: &Self) -> (r: bool)
        ensures
            r == (self@ == other@),
    {
        self.label.same(&other.label)
    }
}

impl Canonical for LedgerId {
    open spec fn encoding(&self) -> Seq<u8> {
        canonical::text_bytes(self@)
    }

    fn encode(&self, w: &mut CanonicalWriter) {
        self.label.encode(w);
    }
}

/// Failure defining a period.
#[derive(Debug, PartialEq, Eq)]
#[non_exhaustive]
pub enum PeriodError {
    /// The end date preceded the start date.
    EndBeforeStart {
        /// The offending period.
        id: PeriodId,
        /// Start date.
        start: Date,
        /// End date.
        end: Date,
    },
    /// The range overlapped an already-defined period.
    Overlap {
        /// The period being added.
        id: PeriodId,
        /// The period it collides with.
        existing: PeriodId,
    },
    /// A period with this identifier already exists.
    Duplicate {
        /// The duplicate identifier.
        id: PeriodId,
    },
    /// No period with this identifier exists.
    Unknown {
        /// The missing identifier.
        id: PeriodId,
    },
    /// The requested lifecycle transition is not permitted.
    InvalidTransition {
        /// The period.
        id: PeriodId,
        /// Current state.
        from: PeriodState,
        /// Requested state.
        to: PeriodState,
    },
    /// The period cannot be sealed because it is not closing.
    NotClosing {
        /// The period.
        id: PeriodId,
        /// Its current state.
        state: PeriodState,
    },
    /// The period cannot be sealed because an earlier one is not sealed yet.
    ///
    /// A closing balance is cumulative, so a booking into the earlier period
    /// would restate it.
    UnsealedPredecessor {
        /// The period that was to be sealed.
        id: PeriodId,
        /// The earliest period that has to be sealed first.
        predecessor: PeriodId,
    },
}

/// What a period is, as mathematics.
pub struct PeriodFacts {
    /// Identifier.
    pub id: Seq<char>,
    /// First booking date in the period.
    pub start: Date,
    /// Last booking date in the period, inclusive.
    pub end: Date,
    /// Lifecycle state.
    pub state: PeriodState,
}

/// True when a day falls inside a period.
pub open spec fn covers(period: PeriodFacts, day: int) -> bool {
    period.start@ <= day <= period.end@
}

/// True when two ranges intersect.
pub open spec fn overlapping(a: PeriodFacts, b: PeriodFacts) -> bool {
    a.start@ <= b.end@ && b.start@ <= a.end@
}

/// A bounded range of booking dates.
#[derive(Debug, PartialEq, Eq)]
pub struct Period {
    /// Identifier.
    pub id: PeriodId,
    /// First booking date in the period.
    pub start: Date,
    /// Last booking date in the period, inclusive.
    pub end: Date,
    /// Lifecycle state.
    pub state: PeriodState,
}

impl View for Period {
    type V = PeriodFacts;

    open spec fn view(&self) -> PeriodFacts {
        PeriodFacts { id: self.id@, start: self.start, end: self.end, state: self.state }
    }
}

impl Clone for Period {
    fn clone(&self) -> (copy: Self)
        ensures
            copy@ == self@,
    {
        Period { id: self.id.clone(), start: self.start, end: self.end, state: self.state }
    }
}

impl Period {
    /// Creates an open period.
    pub fn new(id: PeriodId, start: Date, end: Date) -> (r: Result<Self, PeriodError>)
        ensures
            match r {
                Ok(period) => {
                    &&& start@ <= end@
                    &&& period@ == (PeriodFacts { id: id@, start, end, state: PeriodState::Open })
                },
                Err(e) => end@ < start@ && e == (PeriodError::EndBeforeStart { id, start, end }),
            },
    {
        if end.is_before(&start) {
            return Err(PeriodError::EndBeforeStart { id, start, end });
        }
        Ok(Period { id, start, end, state: PeriodState::Open })
    }

    /// True when `date` falls inside the period.
    #[must_use]
    pub fn contains(&self, date: Date) -> (r: bool)
        ensures
            r == covers(self@, date@),
    {
        self.start.at_most(&date) && date.at_most(&self.end)
    }

    /// True when the ranges intersect.
    #[must_use]
    pub fn overlaps(&self, other: &Self) -> (r: bool)
        ensures
            r == overlapping(self@, other@),
    {
        self.start.at_most(&other.end) && other.start.at_most(&self.end)
    }
}

// ── the calendar ────────────────────────────────────────────────────────────

/// The last day up to which the books are sealed: the latest end of a sealed
/// period.
pub open spec fn is_watermark(periods: Map<Seq<char>, PeriodFacts>, day: int) -> bool {
    &&& exists|id: Seq<char>| #[trigger]
        periods.contains_key(id) && periods[id].state is Sealed && periods[id].end@ == day
    &&& forall|id: Seq<char>| #[trigger]
        periods.contains_key(id) && periods[id].state is Sealed ==> periods[id].end@ <= day
}

/// True when a day lies at or below the watermark.
pub open spec fn sealed_on(periods: Map<Seq<char>, PeriodFacts>, day: int) -> bool {
    exists|id: Seq<char>| #[trigger]
        periods.contains_key(id) && periods[id].state is Sealed && day <= periods[id].end@
}

/// The state that governs a day: sealed at or below the watermark, the state of
/// the period that covers the day above it, and open where none does.
pub open spec fn governing_state(periods: Map<Seq<char>, PeriodFacts>, day: int) -> PeriodState {
    if sealed_on(periods, day) {
        PeriodState::Sealed
    } else if exists|id: Seq<char>| #[trigger]
        periods.contains_key(id) && covers(periods[id], day) {
        let id = choose|id: Seq<char>| #[trigger]
            periods.contains_key(id) && covers(periods[id], day);
        periods[id].state
    } else {
        PeriodState::Open
    }
}

/// True when `found` is the first period, in identifier order, that overlaps.
pub open spec fn first_overlap(
    periods: Map<Seq<char>, PeriodFacts>,
    period: PeriodFacts,
    found: Seq<char>,
) -> bool {
    &&& periods.contains_key(found)
    &&& overlapping(periods[found], period)
    &&& forall|id: Seq<char>| #[trigger]
        periods.contains_key(id) && overlapping(periods[id], period) ==> id == found
            || Label::before(found, id)
}

/// True when nothing in the calendar stands in the way of a new period.
pub open spec fn admits(periods: Map<Seq<char>, PeriodFacts>, period: PeriodFacts) -> bool {
    &&& !periods.contains_key(period.id)
    &&& forall|id: Seq<char>| #[trigger]
        periods.contains_key(id) ==> !overlapping(periods[id], period)
}

/// True when `e` is why a new period was refused.
pub open spec fn refuses_period(
    periods: Map<Seq<char>, PeriodFacts>,
    period: PeriodFacts,
    e: PeriodError,
) -> bool {
    if periods.contains_key(period.id) {
        e matches PeriodError::Duplicate { id } && id@ == period.id
    } else {
        &&& e matches PeriodError::Overlap { id, existing }
        &&& id@ == period.id
        &&& first_overlap(periods, period, existing@)
    }
}

/// True when a period has to be sealed before another: it starts earlier and is
/// not sealed yet.
pub open spec fn is_due_before(
    periods: Map<Seq<char>, PeriodFacts>,
    earlier: Seq<char>,
    id: Seq<char>,
) -> bool {
    &&& periods.contains_key(earlier)
    &&& periods[earlier].state !is Sealed
    &&& periods[earlier].start@ < periods[id].start@
}

/// True when `e` is why a period may not be sealed now: it is not defined, it is
/// not closing, or the earliest period before it is not sealed yet.
pub open spec fn refuses_sealing(
    periods: Map<Seq<char>, PeriodFacts>,
    id: Seq<char>,
    e: PeriodError,
) -> bool {
    if !periods.contains_key(id) {
        e matches PeriodError::Unknown { id: named } && named@ == id
    } else if periods[id].state !is Closing {
        &&& e matches PeriodError::NotClosing { id: named, state }
        &&& named@ == id
        &&& state == periods[id].state
    } else {
        &&& e matches PeriodError::UnsealedPredecessor { id: named, predecessor }
        &&& named@ == id
        &&& is_due_before(periods, predecessor@, id)
        &&& forall|other: Seq<char>| #[trigger]
            is_due_before(periods, other, id) ==> periods[predecessor@].start@
                <= periods[other].start@
    }
}

/// True when a period may be sealed now: it is defined, it is closing, and every
/// period that starts before it is sealed.
pub open spec fn sealable(periods: Map<Seq<char>, PeriodFacts>, id: Seq<char>) -> bool {
    &&& periods.contains_key(id)
    &&& periods[id].state is Closing
    &&& forall|earlier: Seq<char>| !#[trigger] is_due_before(periods, earlier, id)
}

/// The set of periods a ledger recognises.
///
/// An empty calendar imposes no restriction: a ledger that does not manage
/// periods accepts any booking date. Dates outside every defined period are
/// likewise unrestricted, as long as they lie above the watermark — only an
/// explicitly closing or sealed period, or a seal over a later date, blocks a
/// posting.
#[derive(Debug)]
pub struct PeriodCalendar {
    periods: SortedMap<PeriodId, Period>,
}

impl View for PeriodCalendar {
    type V = Map<Seq<char>, PeriodFacts>;

    /// The periods, by identifier.
    closed spec fn view(&self) -> Map<Seq<char>, PeriodFacts> {
        self.periods@.map_values(|p: Period| p@)
    }
}

impl Default for PeriodCalendar {
    fn default() -> (calendar: Self)
        ensures
            calendar.wf(),
            calendar@ == Map::<Seq<char>, PeriodFacts>::empty(),
    {
        PeriodCalendar::new()
    }
}

impl Clone for PeriodCalendar {
    fn clone(&self) -> (copy: Self)
        ensures
            copy@ == self@,
    {
        let n: usize = self.periods.len();
        let mut periods: SortedMap<PeriodId, Period> = SortedMap::new();
        let mut i: usize = 0;
        while i < n
            invariant
                i <= n,
                self.periods.wf(),
                n == self.periods.keys().len(),
                forall|j: int|
                    0 <= j < i ==> periods@.contains_key(#[trigger] self.periods.keys()[j])
                        && periods@[self.periods.keys()[j]]@ == self.periods.values()[j]@,
                forall|id: Seq<char>| #[trigger]
                    periods@.contains_key(id) ==> self.periods@.contains_key(id),
            decreases n - i,
        {
            proof {
                self.periods.lemma_sequences();
            }
            let ghost before = periods@;
            periods.insert(self.periods.key_at(i).clone(), self.periods.value_at(i).clone());
            assert forall|j: int| 0 <= j < i + 1 implies periods@.contains_key(
                #[trigger] self.periods.keys()[j],
            ) && periods@[self.periods.keys()[j]]@ == self.periods.values()[j]@ by {
                if j < i {
                    assert(before.contains_key(self.periods.keys()[j]));
                }
            }
            i += 1;
        }
        let copy = PeriodCalendar { periods };
        proof {
            self.periods.lemma_sequences();
            assert forall|id: Seq<char>| #[trigger] self.periods@.contains_key(id) implies
                periods@.contains_key(id) && periods@[id]@ == self.periods@[id]@ by {
                let j = choose|j: int|
                    0 <= j < self.periods.keys().len() && #[trigger] self.periods.keys()[j] == id;
                assert(periods@.contains_key(self.periods.keys()[j]));
            }
            assert(copy@ =~= self@);
        }
        copy
    }
}

impl PeriodCalendar {
    /// Every period stands under its own identifier, and no two overlap.
    pub open spec fn wf(&self) -> bool {
        &&& forall|id: Seq<char>| #[trigger] self@.contains_key(id) ==> self@[id].id == id
        &&& forall|a: Seq<char>, b: Seq<char>|
            #![trigger self@.contains_key(a), self@.contains_key(b)]
            self@.contains_key(a) && self@.contains_key(b) && a != b ==> !overlapping(
                self@[a],
                self@[b],
            )
    }

    /// The identifiers, in order.
    pub closed spec fn ids(&self) -> Seq<Seq<char>> {
        self.periods.keys()
    }

    /// The identifiers are listed in ascending order, each once.
    proof fn lemma_ids(&self)
        requires
            self.periods.wf(),
        ensures
            ordered::ascending::<PeriodId>(self.ids()),
            self.ids().len() == self.periods.values().len(),
            forall|i: int|
                0 <= i < self.ids().len() ==> self@.contains_key(#[trigger] self.ids()[i])
                    && self@[self.ids()[i]] == self.periods.values()[i]@,
            forall|id: Seq<char>| #[trigger]
                self@.contains_key(id) ==> exists|i: int|
                    0 <= i < self.ids().len() && #[trigger] self.ids()[i] == id,
    {
        self.periods.lemma_sequences();
        assert forall|id: Seq<char>| #[trigger] self@.contains_key(id) implies exists|i: int|
            0 <= i < self.ids().len() && #[trigger] self.ids()[i] == id by {
            assert(self.periods@.contains_key(id));
            let i = choose|i: int|
                0 <= i < self.periods.keys().len() && #[trigger] self.periods.keys()[i] == id;
            assert(self.ids()[i] == id);
        }
    }

    /// Creates an empty calendar.
    #[must_use]
    pub fn new() -> (calendar: Self)
        ensures
            calendar.wf(),
            calendar@ == Map::<Seq<char>, PeriodFacts>::empty(),
    {
        let calendar = PeriodCalendar { periods: SortedMap::new() };
        assert(calendar@ =~= Map::<Seq<char>, PeriodFacts>::empty());
        calendar
    }

    /// Rebuilds a calendar from stored periods, each in the state it was stored
    /// in.
    pub fn from_periods(periods: Vec<Period>) -> (r: Result<Self, PeriodError>)
        ensures
            match r {
                Ok(calendar) => {
                    &&& calendar.wf()
                    &&& forall|i: int|
                        0 <= i < periods@.len() ==> admits(
                            defined(periods@, i),
                            (#[trigger] periods@[i])@,
                        )
                    &&& calendar@ == defined(periods@, periods@.len() as int)
                },
                Err(e) => exists|k: int|
                    {
                        &&& 0 <= k < periods@.len()
                        &&& forall|i: int|
                            0 <= i < k ==> admits(
                                defined(periods@, i),
                                (#[trigger] periods@[i])@,
                            )
                        &&& !admits(defined(periods@, k), (#[trigger] periods@[k])@)
                        &&& refuses_period(defined(periods@, k), periods@[k]@, e)
                    },
            },
    {
        let mut calendar = PeriodCalendar::new();
        let mut i: usize = 0;
        while i < periods.len()
            invariant
                i <= periods.len(),
                calendar.wf(),
                calendar@ == defined(periods@, i as int),
                forall|k: int|
                    0 <= k < i ==> admits(defined(periods@, k), (#[trigger] periods@[k])@),
            decreases periods.len() - i,
        {
            let ghost k = i as int;
            match calendar.define(periods[i].clone()) {
                Ok(_) => {},
                Err(e) => {
                    assert(!admits(defined(periods@, k), periods@[k]@));
                    return Err(e);
                },
            }
            i += 1;
        }
        Ok(calendar)
    }

    /// Defines a new period.
    pub fn define(&mut self, period: Period) -> (r: Result<(), PeriodError>)
        requires
            old(self).wf(),
        ensures
            final(self).wf(),
            match r {
                Ok(_) => admits(old(self)@, period@) && final(self)@ == old(self)@.insert(
                    period@.id,
                    period@,
                ),
                Err(e) => !admits(old(self)@, period@) && refuses_period(old(self)@, period@, e)
                    && final(self)@ == old(self)@,
            },
    {
        if self.periods.contains_key(&period.id) {
            return Err(PeriodError::Duplicate { id: period.id });
        }
        let n: usize = self.periods.len();
        proof {
            self.lemma_ids();
        }
        let mut i: usize = 0;
        while i < n
            invariant
                i <= n,
                n == self.ids().len(),
                *self == *old(self),
                old(self).wf(),
                self.periods.wf(),
                self.ids() == self.periods.keys(),
                !self@.contains_key(period@.id),
                forall|k: int|
                    0 <= k < i ==> !overlapping(self@[#[trigger] self.ids()[k]], period@),
            decreases n - i,
        {
            let existing = self.periods.value_at(i);
            proof {
                self.lemma_ids();
            }
            assert(self@[self.ids()[i as int]] == existing@);
            if existing.overlaps(&period) {
                let key = self.periods.key_at(i);
                let found = key.clone();
                proof {
                    assert forall|id: Seq<char>| #[trigger]
                        self@.contains_key(id) && overlapping(
                            self@[id],
                            period@,
                        ) implies id == found@ || Label::before(found@, id) by {
                        let k = choose|k: int|
                            0 <= k < self.ids().len() && #[trigger] self.ids()[k] == id;
                        if k > i {
                            assert(PeriodId::before(self.ids()[i as int], self.ids()[k]));
                        }
                    }
                    assert(self@.contains_key(self.ids()[i as int]));
                    assert(first_overlap(self@, period@, found@));
                }
                return Err(PeriodError::Overlap { id: period.id, existing: found });
            }
            i += 1;
        }
        proof {
            self.lemma_ids();
            assert forall|id: Seq<char>| #[trigger] self@.contains_key(id) implies !overlapping(
                self@[id],
                period@,
            ) by {
                let k = choose|k: int| 0 <= k < self.ids().len() && #[trigger] self.ids()[k] == id;
                assert(!overlapping(self@[self.ids()[k]], period@));
            }
        }
        let id = period.id.clone();
        let ghost facts = period@;
        self.periods.insert(id, period);
        assert(self@ =~= old(self)@.insert(facts.id, facts));
        Ok(())
    }

    /// Defines a period, or confirms one already defined over the same range.
    ///
    /// Confirming leaves the period as it is, in whatever state it has reached,
    /// so a caller may declare its calendar on every start-up. The same
    /// identifier over a different range is refused: that would move the boundary
    /// of a period entries have already been booked into.
    pub fn ensure(&mut self, period: Period) -> (r: Result<(), PeriodError>)
        requires
            old(self).wf(),
        ensures
            final(self).wf(),
            ({
                let known = old(self)@.contains_key(period@.id) && old(self)@[period@.id].start
                    == period@.start && old(self)@[period@.id].end == period@.end;
                match r {
                    Ok(_) => if known {
                        final(self)@ == old(self)@
                    } else {
                        admits(old(self)@, period@) && final(self)@ == old(self)@.insert(
                            period@.id,
                            period@,
                        )
                    },
                    Err(e) => !known && !admits(old(self)@, period@) && refuses_period(
                        old(self)@,
                        period@,
                        e,
                    ) && final(self)@ == old(self)@,
                }
            }),
    {
        let known = match self.periods.get(&period.id) {
            Some(existing) => existing.start.at_most(&period.start) && period.start.at_most(
                &existing.start,
            ) && existing.end.at_most(&period.end) && period.end.at_most(&existing.end),
            None => false,
        };
        if known {
            return Ok(());
        }
        self.define(period)
    }

    /// The period containing `date`, if any.
    #[must_use]
    pub fn period_on(&self, date: Date) -> (r: Option<&Period>)
        requires
            self.wf(),
        ensures
            match r {
                Some(period) => self@.contains_key(period@.id) && self@[period@.id] == period@
                    && covers(period@, date@),
                None => forall|id: Seq<char>| #[trigger]
                    self@.contains_key(id) ==> !covers(self@[id], date@),
            },
    {
        let n: usize = self.periods.len();
        let mut i: usize = 0;
        proof {
            self.lemma_ids();
        }
        while i < n
            invariant
                i <= n,
                self.wf(),
                self.periods.wf(),
                n == self.ids().len(),
                self.ids() == self.periods.keys(),
                forall|k: int| 0 <= k < i ==> !covers(self@[#[trigger] self.ids()[k]], date@),
            decreases n - i,
        {
            let period = self.periods.value_at(i);
            proof {
                self.lemma_ids();
                assert(self@.contains_key(self.ids()[i as int]));
            }
            if period.contains(date) {
                return Some(period);
            }
            i += 1;
        }
        proof {
            self.lemma_ids();
            assert forall|id: Seq<char>| #[trigger] self@.contains_key(id) implies !covers(
                self@[id],
                date@,
            ) by {
                let k = choose|k: int| 0 <= k < self.ids().len() && #[trigger] self.ids()[k] == id;
                assert(!covers(self@[self.ids()[k]], date@));
            }
        }
        None
    }

    /// The last day up to which the books are sealed, if any period is.
    ///
    /// Nothing may be booked at or before it: a sealed closing balance is
    /// cumulative through the period's last day.
    #[must_use]
    pub fn sealed_through(&self) -> (r: Option<Date>)
        ensures
            match r {
                Some(day) => is_watermark(self@, day@),
                None => forall|id: Seq<char>| #[trigger]
                    self@.contains_key(id) ==> self@[id].state !is Sealed,
            },
    {
        let n: usize = self.periods.len();
        let mut latest: Option<Date> = None;
        let mut i: usize = 0;
        proof {
            self.lemma_ids();
        }
        while i < n
            invariant
                i <= n,
                self.periods.wf(),
                n == self.ids().len(),
                self.ids() == self.periods.keys(),
                match latest {
                    Some(day) => {
                        &&& exists|k: int|
                            0 <= k < i && self@[#[trigger] self.ids()[k]].state is Sealed
                                && self@[self.ids()[k]].end@ == day@
                        &&& forall|k: int|
                            0 <= k < i && self@[#[trigger] self.ids()[k]].state is Sealed
                                ==> self@[self.ids()[k]].end@ <= day@
                    },
                    None => forall|k: int|
                        0 <= k < i ==> self@[#[trigger] self.ids()[k]].state !is Sealed,
                },
            decreases n - i,
        {
            let period = self.periods.value_at(i);
            proof {
                self.lemma_ids();
            }
            assert(self@[self.ids()[i as int]] == period@);
            if matches!(period.state, PeriodState::Sealed) {
                latest = match latest {
                    Some(day) => if day.is_before(&period.end) {
                        Some(period.end)
                    } else {
                        Some(day)
                    },
                    None => Some(period.end),
                };
            }
            i += 1;
        }
        proof {
            self.lemma_ids();
            if latest is Some {
                let day = latest->0;
                let k = choose|k: int|
                    0 <= k < n && self@[#[trigger] self.ids()[k]].state is Sealed
                        && self@[self.ids()[k]].end@ == day@;
                assert(self@.contains_key(self.ids()[k]));
                assert forall|id: Seq<char>| #[trigger]
                    self@.contains_key(id) && self@[id].state is Sealed implies self@[id].end@
                    <= day@ by {
                    let j = choose|j: int|
                        0 <= j < self.ids().len() && #[trigger] self.ids()[j] == id;
                    assert(self@[self.ids()[j]].state is Sealed);
                }
            } else {
                assert forall|id: Seq<char>| #[trigger]
                    self@.contains_key(id) implies self@[id].state !is Sealed by {
                    let j = choose|j: int|
                        0 <= j < self.ids().len() && #[trigger] self.ids()[j] == id;
                    assert(self@[self.ids()[j]].state !is Sealed);
                }
            }
        }
        latest
    }

    /// The state governing `date`.
    ///
    /// At or below the watermark that is [`PeriodState::Sealed`]. Above it, it is
    /// the state of the period that covers the date, and [`PeriodState::Open`]
    /// where none does.
    #[must_use]
    pub fn state_on(&self, date: Date) -> (state: PeriodState)
        requires
            self.wf(),
        ensures
            state == governing_state(self@, date@),
    {
        if let Some(day) = self.sealed_through() {
            if date.at_most(&day) {
                proof {
                    let id = choose|id: Seq<char>| #[trigger]
                        self@.contains_key(id) && self@[id].state is Sealed && self@[id].end@
                            == day@;
                    assert(sealed_on(self@, date@));
                }
                return PeriodState::Sealed;
            }
        }
        assert(!sealed_on(self@, date@));
        match self.period_on(date) {
            Some(period) => {
                proof {
                    assert(self@.contains_key(period@.id));
                    let id = choose|id: Seq<char>| #[trigger]
                        self@.contains_key(id) && covers(self@[id], date@);
                    if id != period@.id {
                        assert(overlapping(self@[id], self@[period@.id]));
                    }
                }
                period.state
            },
            None => PeriodState::Open,
        }
    }

    /// True when a posting may be booked on `date`.
    #[must_use]
    pub fn accepts(&self, date: Date) -> (r: bool)
        requires
            self.wf(),
        ensures
            r == (governing_state(self@, date@) is Open),
    {
        self.state_on(date).accepts_postings()
    }

    /// Looks up a period.
    #[must_use]
    pub fn get(&self, id: &PeriodId) -> (r: Option<&Period>)
        ensures
            match r {
                Some(period) => self@.contains_key(id@) && self@[id@] == period@,
                None => !self@.contains_key(id@),
            },
    {
        self.periods.get(id)
    }

    /// Moves a period to the next state.
    ///
    /// Permitted transitions are `Open → Closing`, `Closing → Sealed`, and
    /// `Closing → Open` to abandon a close that failed verification. A sealed
    /// period never transitions again.
    pub fn transition(&mut self, id: &PeriodId, to: PeriodState) -> (r: Result<(), PeriodError>)
        requires
            old(self).wf(),
        ensures
            final(self).wf(),
            match r {
                Ok(_) => {
                    &&& old(self)@.contains_key(id@)
                    &&& may_become(old(self)@[id@].state, to)
                    &&& final(self)@ == old(self)@.insert(
                        id@,
                        PeriodFacts { state: to, ..old(self)@[id@] },
                    )
                },
                Err(e) => {
                    &&& final(self)@ == old(self)@
                    &&& if !old(self)@.contains_key(id@) {
                        e matches PeriodError::Unknown { id: named } && named@ == id@
                    } else {
                        &&& !may_become(old(self)@[id@].state, to)
                        &&& e matches PeriodError::InvalidTransition { id: named, from, to: wanted }
                        &&& named@ == id@
                        &&& from == old(self)@[id@].state
                        &&& wanted == to
                    }
                },
            },
    {
        let mut period = match self.periods.get(id) {
            Some(period) => period.clone(),
            None => {
                return Err(PeriodError::Unknown { id: id.clone() });
            },
        };
        assert(self@.contains_key(id@) && self@[id@] == period@);
        assert(self@[id@].id == id@);
        let permitted = match (period.state, to) {
            (PeriodState::Open, PeriodState::Closing) => true,
            (PeriodState::Closing, PeriodState::Sealed) => true,
            (PeriodState::Closing, PeriodState::Open) => true,
            _ => false,
        };
        if !permitted {
            return Err(
                PeriodError::InvalidTransition { id: id.clone(), from: period.state, to },
            );
        }
        period.state = to;
        let ghost facts = period@;
        self.periods.insert(id.clone(), period);
        proof {
            assert(self@ =~= old(self)@.insert(id@, facts));
            assert(old(self)@.contains_key(id@) && facts.id == id@);
            assert forall|other: Seq<char>| #[trigger]
                self@.contains_key(other) implies self@[other].id == other by {
                assert(old(self)@.contains_key(other));
            }
            assert forall|a: Seq<char>, b: Seq<char>|
                #![trigger self@.contains_key(a), self@.contains_key(b)]
                self@.contains_key(a) && self@.contains_key(b) && a != b implies !overlapping(
                self@[a],
                self@[b],
            ) by {
                assert(old(self)@.contains_key(a) && old(self)@.contains_key(b));
                assert(!overlapping(old(self)@[a], old(self)@[b]));
            }
        }
        Ok(())
    }

    /// Checks that a period may be sealed now, and returns it.
    ///
    /// # Errors
    ///
    /// Returns [`PeriodError::Unknown`] when it is not defined,
    /// [`PeriodError::NotClosing`] when postings have not been stopped first, and
    /// [`PeriodError::UnsealedPredecessor`] when a period that starts earlier is
    /// not sealed yet: seals come in date order, so that no later booking can
    /// restate a sealed closing balance.
    pub fn check_sealable(&self, id: &PeriodId) -> (r: Result<&Period, PeriodError>)
        ensures
            match r {
                Ok(period) => sealable(self@, id@) && self@[id@] == period@,
                Err(e) => !sealable(self@, id@) && refuses_sealing(self@, id@, e),
            },
    {
        let period = match self.periods.get(id) {
            Some(period) => period,
            None => {
                return Err(PeriodError::Unknown { id: id.clone() });
            },
        };
        if !matches!(period.state, PeriodState::Closing) {
            return Err(PeriodError::NotClosing { id: id.clone(), state: period.state });
        }
        let n: usize = self.periods.len();
        let mut earliest: Option<usize> = None;
        let mut i: usize = 0;
        proof {
            self.lemma_ids();
        }
        while i < n
            invariant
                i <= n,
                self.periods.wf(),
                n == self.ids().len(),
                self.ids() == self.periods.keys(),
                self@.contains_key(id@),
                self@[id@] == period@,
                match earliest {
                    Some(at) => {
                        &&& at < i
                        &&& is_due_before(self@, self.ids()[at as int], id@)
                        &&& forall|k: int|
                            0 <= k < i && is_due_before(self@, #[trigger] self.ids()[k], id@)
                                ==> self@[self.ids()[at as int]].start@
                                <= self@[self.ids()[k]].start@
                    },
                    None => forall|k: int|
                        0 <= k < i ==> !is_due_before(self@, #[trigger] self.ids()[k], id@),
                },
            decreases n - i,
        {
            proof {
                self.lemma_ids();
            }
            let other = self.periods.value_at(i);
            assert(self@.contains_key(self.ids()[i as int]) && self@[self.ids()[i as int]]
                == other@);
            if !matches!(other.state, PeriodState::Sealed) && other.start.is_before(
                &period.start,
            ) {
                earliest = match earliest {
                    Some(at) => {
                        assert(self@[self.ids()[at as int]] == self.periods.values()[at as int]@);
                        if other.start.is_before(&self.periods.value_at(at).start) {
                            Some(i)
                        } else {
                            Some(at)
                        }
                    },
                    None => Some(i),
                };
            }
            i += 1;
        }
        proof {
            self.lemma_ids();
            assert forall|other: Seq<char>| #[trigger]
                is_due_before(self@, other, id@) implies exists|k: int|
                0 <= k < n && #[trigger] self.ids()[k] == other by {}
        }
        match earliest {
            Some(at) => Err(
                PeriodError::UnsealedPredecessor {
                    id: id.clone(),
                    predecessor: self.periods.key_at(at).clone(),
                },
            ),
            None => Ok(period),
        }
    }

    /// Every period, in identifier order.
    #[must_use]
    pub fn iter(&self) -> (periods: Vec<&Period>)
        ensures
            periods@.len() == self.ids().len(),
            ordered::ascending::<PeriodId>(self.ids()),
            forall|i: int|
                0 <= i < periods@.len() ==> self@.contains_key(#[trigger] self.ids()[i])
                    && self@[self.ids()[i]] == periods@[i]@,
            forall|id: Seq<char>| #[trigger] self@.contains_key(id) ==> self.ids().contains(id),
    {
        let n: usize = self.periods.len();
        proof {
            self.lemma_ids();
        }
        let mut periods: Vec<&Period> = Vec::with_capacity(n);
        let mut i: usize = 0;
        while i < n
            invariant
                i <= n,
                self.periods.wf(),
                n == self.ids().len(),
                self.ids() == self.periods.keys(),
                periods@.len() == i,
                forall|k: int| 0 <= k < i ==> (#[trigger] periods@[k])@ == self@[self.ids()[k]],
            decreases n - i,
        {
            proof {
                self.lemma_ids();
            }
            assert(self@[self.ids()[i as int]] == self.periods.values()[i as int]@);
            periods.push(self.periods.value_at(i));
            i += 1;
        }
        proof {
            self.lemma_ids();
            assert forall|id: Seq<char>| #[trigger] self@.contains_key(id) implies self.ids().contains(
                id,
            ) by {
                let k = choose|k: int| 0 <= k < self.ids().len() && #[trigger] self.ids()[k] == id;
                assert(self.ids()[k] == id);
            }
        }
        periods
    }

    /// Number of defined periods.
    #[must_use]
    pub fn len(&self) -> (n: usize)
        ensures
            n == self@.dom().len(),
            self@.dom().finite(),
    {
        let n: usize = self.periods.len();
        proof {
            self.periods.lemma_len();
            assert(self@.dom() =~= self.periods@.dom());
        }
        n
    }

    /// True when no periods are defined.
    #[must_use]
    pub fn is_empty(&self) -> (r: bool)
        ensures
            r == (self@ == Map::<Seq<char>, PeriodFacts>::empty()),
    {
        let n: usize = self.periods.len();
        proof {
            self.lemma_ids();
            if n == 0 {
                assert(self@ =~= Map::<Seq<char>, PeriodFacts>::empty());
            } else {
                assert(self@.contains_key(self.ids()[0]));
            }
        }
        n == 0
    }
}

/// The periods that the first `n` definitions leave.
pub open spec fn defined(periods: Seq<Period>, n: int) -> Map<Seq<char>, PeriodFacts>
    decreases n,
{
    if n <= 0 {
        Map::empty()
    } else {
        defined(periods, n - 1).insert(periods[n - 1]@.id, periods[n - 1]@)
    }
}

/// Sealed is terminal: no transition leads out of it.
pub proof fn law_sealed_is_terminal(to: PeriodState)
    ensures
        !may_become(PeriodState::Sealed, to),
{
}

/// Once a day counts as sealed, no transition of any period makes it open again.
pub proof fn law_watermark_never_recedes(
    periods: Map<Seq<char>, PeriodFacts>,
    id: Seq<char>,
    to: PeriodState,
    day: int,
)
    requires
        periods.contains_key(id),
        may_become(periods[id].state, to),
        sealed_on(periods, day),
    ensures
        sealed_on(periods.insert(id, PeriodFacts { state: to, ..periods[id] }), day),
{
    let after = periods.insert(id, PeriodFacts { state: to, ..periods[id] });
    let sealed = choose|sealed: Seq<char>| #[trigger]
        periods.contains_key(sealed) && periods[sealed].state is Sealed && day
            <= periods[sealed].end@;
    assert(sealed != id);
    assert(after.contains_key(sealed) && after[sealed] == periods[sealed]);
}

} // verus!
