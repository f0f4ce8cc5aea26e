//! Persistence.
//!
//! The engine keeps no storage of its own. This module holds what every backend
//! exchanges with its callers: batches that land together or not at all, and
//! pages of the log, of an account's statement and of its open items.
//!
//! # Pagination, not streams
//!
//! Reads are cursor-paged rather than streamed. A cursor maps onto
//! `WHERE index > ? ORDER BY index LIMIT ?` in any SQL backend, survives a
//! dropped connection, and needs no async-iteration machinery.

use crate::account::AccountId;
use crate::balance::{Balance, BalanceKey};
use crate::books;
use crate::clearing::{self, OpenItem, PostingPosition, PostingRef};
use crate::date::Date;
use crate::dimensions::Label;
use crate::entry::{self, Balanced, Entry, EntryId};
use crate::hash::Digest;
use crate::journal::{self, Journal, JournalError, LogIndex, NotSequenced};
use crate::money::{Amount, Currency, MoneyError};
use crate::posting::{Direction, Layer};
use vstd::prelude::*;

verus! {

/// Default number of records a page returns.
pub const DEFAULT_PAGE_SIZE: usize = 256;

/// Largest page a store will return, however large a limit is requested.
pub const MAX_PAGE_SIZE: usize = 4096;

// ── batches ─────────────────────────────────────────────────────────────────

/// A set of entries that must land together or not at all.
///
/// Atomicity across entries is not optional: an invoice and the entry that
/// offsets it must not be separable by a crash, and a single-entry append cannot
/// express that.
#[derive(Debug, PartialEq, Eq)]
pub struct EntryBatch<const P: u8> {
    entries: Vec<Entry<Balanced, P>>,
}

impl<const P: u8> View for EntryBatch<P> {
    type V = Seq<entry::EntryFacts>;

    /// The entries, in the order they will be appended.
    closed spec fn view(&self) -> Seq<entry::EntryFacts> {
        journal::entry_facts(self.entries@)
    }
}

/// Failure building a batch.
#[derive(Debug, Clone, Copy, PartialEq, Eq, Structural)]
#[non_exhaustive]
pub enum BatchError {
    /// The batch held no entries.
    Empty,
}

impl<const P: u8> EntryBatch<P> {
    /// A batch holds at least one entry.
    #[verifier::type_invariant]
    pub open spec fn holds_entries(&self) -> bool {
        self@.len() > 0
    }

    /// Creates a batch from at least one entry.
    pub fn new(entries: Vec<Entry<Balanced, P>>) -> (r: Result<Self, BatchError>)
        ensures
            match r {
                Ok(batch) => entries@.len() > 0 && batch@ == journal::entry_facts(entries@),
                Err(e) => entries@.len() == 0 && e == BatchError::Empty,
            },
    {
        if entries.len() == 0 {
            return Err(BatchError::Empty);
        }
        Ok(EntryBatch { entries })
    }

    /// Creates a batch holding one entry.
    #[must_use]
    pub fn single(entry: Entry<Balanced, P>) -> (batch: Self)
        ensures
            batch@ == seq![entry@],
    {
        let mut entries: Vec<Entry<Balanced, P>> = Vec::with_capacity(1);
        entries.push(entry);
        let batch = EntryBatch { entries };
        assert(batch@ =~= seq![entry@]);
        batch
    }

    /// The entries, in the order they will be appended.
    #[must_use]
    pub fn entries(&self) -> (entries: &[Entry<Balanced, P>])
        ensures
            journal::entry_facts(entries@) == self@,
    {
        self.entries.as_slice()
    }

    /// Number of entries.
    #[must_use]
    pub fn len(&self) -> (n: usize)
        ensures
            n == self@.len(),
            n > 0,
    {
        proof {
            use_type_invariant(self);
        }
        self.entries.len()
    }

    /// Always false: a batch holds at least one entry.
    #[must_use]
    pub fn is_empty(&self) -> (r: bool)
        ensures
            !r,
    {
        self.len() == 0
    }
}

// ── pages of the log ────────────────────────────────────────────────────────

/// A page size as a store honours it: at least one record, and no more than
/// [`MAX_PAGE_SIZE`].
pub open spec fn clamped_limit(limit: usize) -> usize {
    if limit < 1 {
        1
    } else if limit > MAX_PAGE_SIZE {
        MAX_PAGE_SIZE
    } else {
        limit
    }
}

fn clamp_limit(limit: usize) -> (n: usize)
    ensures
        n == clamped_limit(limit),
{
    if limit < 1 {
        1
    } else if limit > MAX_PAGE_SIZE {
        MAX_PAGE_SIZE
    } else {
        limit
    }
}

/// Where to resume reading from.
#[derive(Debug, Clone, Copy, PartialEq, Eq, Structural)]
pub struct Cursor {
    /// Return records strictly after this index; `None` starts at the beginning.
    pub after: Option<LogIndex>,
    /// Maximum records to return, clamped to [`MAX_PAGE_SIZE`].
    pub limit: usize,
}

impl Default for Cursor {
    fn default() -> (c: Self)
        ensures
            c == (Cursor { after: None, limit: DEFAULT_PAGE_SIZE }),
    {
        Cursor { after: None, limit: DEFAULT_PAGE_SIZE }
    }
}

impl Cursor {
    /// A cursor starting at the beginning of the log.
    #[must_use]
    pub fn start() -> (c: Self)
        ensures
            c == (Cursor { after: None, limit: DEFAULT_PAGE_SIZE }),
    {
        Cursor { after: None, limit: DEFAULT_PAGE_SIZE }
    }

    /// A cursor resuming after `index`.
    #[must_use]
    pub fn after(index: LogIndex) -> (c: Self)
        ensures
            c == (Cursor { after: Some(index), limit: DEFAULT_PAGE_SIZE }),
    {
        Cursor { after: Some(index), limit: DEFAULT_PAGE_SIZE }
    }

    /// Sets the page size.
    #[must_use]
    pub fn with_limit(self, limit: usize) -> (c: Self)
        ensures
            c == (Cursor { limit, ..self }),
    {
        Cursor { limit, ..self }
    }

    /// The effective limit, clamped and never zero.
    #[must_use]
    pub fn effective_limit(&self) -> (n: usize)
        ensures
            n == clamped_limit(self.limit),
    {
        clamp_limit(self.limit)
    }
}

/// One entry as it sits in the store.
#[derive(Debug, PartialEq, Eq)]
pub struct StoredEntry<const P: u8> {
    /// Position in the log, or `None` if it has not been sequenced yet.
    pub index: Option<LogIndex>,
    /// The entry.
    pub entry: Entry<Balanced, P>,
    /// Its content hash, as committed to by the log.
    pub content_hash: Digest,
}

/// What a stored entry says.
pub ghost struct StoredFacts {
    pub index: Option<LogIndex>,
    pub entry: entry::EntryFacts,
    pub content_hash: Digest,
}

impl<const P: u8> View for StoredEntry<P> {
    type V = StoredFacts;

    open spec fn view(&self) -> StoredFacts {
        StoredFacts { index: self.index, entry: self.entry@, content_hash: self.content_hash }
    }
}

/// What some stored entries say.
pub open spec fn stored_facts<const P: u8>(records: Seq<StoredEntry<P>>) -> Seq<StoredFacts> {
    records.map_values(|r: StoredEntry<P>| r@)
}

/// The entry at a position of the log, as a store hands it out.
pub open spec fn stored_at(p: u8, entries: Seq<entry::EntryFacts>, i: int) -> StoredFacts {
    StoredFacts {
        index: Some(LogIndex { position: i as u64 }),
        entry: entries[i],
        content_hash: entry::entry_hash(p, entries[i]),
    }
}

impl<const P: u8> StoredEntry<P> {
    /// The log position, or an error naming the entry that has none.
    ///
    /// Records on a page are always sequenced — an unsequenced entry is not in
    /// the log — so this cannot fail there. It can for an entry looked up by its
    /// identifier, which is found the moment it is durable.
    pub fn require_index(&self) -> (r: Result<LogIndex, NotSequenced>)
        ensures
            r == (match self@.index {
                Some(index) => Ok(index),
                None => Err(NotSequenced { id: self@.entry.id }),
            }),
    {
        match self.index {
            Some(index) => Ok(index),
            None => Err(NotSequenced { id: self.entry.id() }),
        }
    }
}

/// A page of log records.
#[derive(Debug, PartialEq, Eq)]
pub struct Page<const P: u8> {
    /// The records, in log order.
    pub records: Vec<StoredEntry<P>>,
    /// Cursor for the next page, or `None` at the end of the log.
    pub next: Option<Cursor>,
}

impl<const P: u8> Page<P> {
    /// True when the page holds no records.
    #[must_use]
    pub fn is_empty(&self) -> (r: bool)
        ensures
            r == (self.records@.len() == 0),
    {
        self.records.len() == 0
    }
}

// ── pages of postings ───────────────────────────────────────────────────────

/// One line of an account statement.
#[derive(Debug, PartialEq, Eq)]
pub struct StatementLine<const P: u8> {
    /// Where the entry sits in the log.
    pub index: LogIndex,
    /// Which posting produced this line.
    pub posting: PostingRef,
    /// The entry's booking date.
    pub booking_date: Date,
    /// Which side the movement fell on.
    pub direction: Direction,
    /// The movement.
    pub amount: Amount<P>,
    /// The account's balance after this line.
    pub running: Balance<P>,
    /// The owning entry's caller-defined kind, if any (e.g. an invoice or payment
    /// type). Lets a statement group or filter by document type without a second
    /// lookup per line. Opaque to the engine.
    pub kind: Option<Label>,
}

/// What a statement line says.
pub ghost struct LineFacts<const P: u8> {
    pub index: LogIndex,
    pub posting: PostingRef,
    pub booking_date: Date,
    pub direction: Direction,
    pub minor: int,
    pub running: Balance<P>,
    pub kind: Option<Seq<char>>,
}

impl<const P: u8> View for StatementLine<P> {
    type V = LineFacts<P>;

    open spec fn view(&self) -> LineFacts<P> {
        LineFacts {
            index: self.index,
            posting: self.posting,
            booking_date: self.booking_date,
            direction: self.direction,
            minor: self.amount.minor as int,
            running: self.running,
            kind: entry::label_text(self.kind),
        }
    }
}

/// What some statement lines say.
pub open spec fn line_facts<const P: u8>(lines: Seq<StatementLine<P>>) -> Seq<LineFacts<P>> {
    lines.map_values(|l: StatementLine<P>| l@)
}

/// Where a line sits, to the posting.
pub open spec fn line_position<const P: u8>(line: LineFacts<P>) -> PostingPosition {
    PostingPosition { index: line.index, posting: line.posting.index }
}

impl<const P: u8> Clone for StatementLine<P> {
    fn clone(&self) -> (copy: Self)
        ensures
            copy@ == self@,
    {
        StatementLine {
            index: self.index,
            posting: self.posting,
            booking_date: self.booking_date,
            direction: self.direction,
            amount: self.amount,
            running: self.running,
            kind: match &self.kind {
                Some(kind) => Some(kind.clone()),
                None => None,
            },
        }
    }
}

impl<const P: u8> StatementLine<P> {
    /// Where this line sits, to the posting.
    ///
    /// What a [`PostingCursor`] resumes after.
    #[must_use]
    pub fn position(&self) -> (position: PostingPosition)
        ensures
            position == line_position(self@),
    {
        PostingPosition { index: self.index, posting: self.posting.index }
    }
}

/// Where to resume reading a per-account list of postings.
///
/// Statements and open items are the unfiltered and filtered views of the same
/// thing: the postings on one account, in log order.
///
/// Separate from [`Cursor`], and addressing a **posting** rather than an entry,
/// because that is what those lists are made of. One entry may put several
/// postings on the same account — a split receipt booked as three lines against
/// one credit is an ordinary entry — so a page boundary can fall inside an
/// entry. An entry-addressed cursor cannot express that position, and resuming
/// from one silently drops every remaining posting of that entry.
#[derive(Debug, Clone, Copy, PartialEq, Eq, Structural)]
pub struct PostingCursor {
    /// Return lines strictly after this posting; `None` starts at the beginning.
    pub after: Option<PostingPosition>,
    /// Maximum lines to return, clamped to [`MAX_PAGE_SIZE`].
    pub limit: usize,
}

impl Default for PostingCursor {
    fn default() -> (c: Self)
        ensures
            c == (PostingCursor { after: None, limit: DEFAULT_PAGE_SIZE }),
    {
        PostingCursor { after: None, limit: DEFAULT_PAGE_SIZE }
    }
}

impl PostingCursor {
    /// A cursor starting at the first line.
    #[must_use]
    pub fn start() -> (c: Self)
        ensures
            c == (PostingCursor { after: None, limit: DEFAULT_PAGE_SIZE }),
    {
        PostingCursor { after: None, limit: DEFAULT_PAGE_SIZE }
    }

    /// A cursor resuming after `position`.
    #[must_use]
    pub fn after(position: PostingPosition) -> (c: Self)
        ensures
            c == (PostingCursor { after: Some(position), limit: DEFAULT_PAGE_SIZE }),
    {
        PostingCursor { after: Some(position), limit: DEFAULT_PAGE_SIZE }
    }

    /// Sets the page size.
    #[must_use]
    pub fn with_limit(self, limit: usize) -> (c: Self)
        ensures
            c == (PostingCursor { limit, ..self }),
    {
        PostingCursor { limit, ..self }
    }

    /// The effective limit, clamped and never zero.
    #[must_use]
    pub fn effective_limit(&self) -> (n: usize)
        ensures
            n == clamped_limit(self.limit),
    {
        clamp_limit(self.limit)
    }
}

/// A page of statement lines.
#[derive(Debug, PartialEq, Eq)]
pub struct StatementPage<const P: u8> {
    /// The lines, in log order.
    pub lines: Vec<StatementLine<P>>,
    /// Cursor for the next page, or `None` at the end.
    pub next: Option<PostingCursor>,
}

/// A page of open items.
#[derive(Debug, PartialEq, Eq)]
pub struct OpenItemPage<const P: u8> {
    /// The items, oldest first.
    pub items: Vec<OpenItem<P>>,
    /// Cursor for the next page, or `None` at the end.
    pub next: Option<PostingCursor>,
}

impl<const P: u8> OpenItemPage<P> {
    /// True when the page holds no items.
    #[must_use]
    pub fn is_empty(&self) -> (r: bool)
        ensures
            r == (self.items@.len() == 0),
    {
        self.items.len() == 0
    }
}

// ── reading a journal page by page ──────────────────────────────────────────

/// Where a page ends that starts at `start` in a list of `len`.
pub open spec fn page_end(start: int, limit: usize, len: int) -> int {
    if start + clamped_limit(limit) < len {
        start + clamped_limit(limit)
    } else {
        len
    }
}

/// Where a log is resumed.
pub open spec fn resume_at(after: Option<LogIndex>, len: int) -> int {
    match after {
        None => 0,
        Some(index) => if index.position < len {
            index.position + 1
        } else {
            len
        },
    }
}

/// The records of a log between two positions.
pub open spec fn records_between(
    p: u8,
    entries: Seq<entry::EntryFacts>,
    start: int,
    end: int,
) -> Seq<StoredFacts> {
    Seq::new((end - start) as nat, |k: int| stored_at(p, entries, start + k))
}

/// The first position past another one, from `i` on.
pub open spec fn first_past(
    positions: Seq<PostingPosition>,
    after: PostingPosition,
    i: int,
) -> int
    decreases positions.len() - i,
{
    if i >= positions.len() {
        positions.len() as int
    } else if books::position_before(after, positions[i]) {
        i
    } else {
        first_past(positions, after, i + 1)
    }
}

/// Where a list of postings is resumed.
pub open spec fn resume_past(
    positions: Seq<PostingPosition>,
    after: Option<PostingPosition>,
) -> int {
    match after {
        None => 0,
        Some(after) => first_past(positions, after, 0),
    }
}

/// The cursor that follows a page of a list of postings.
pub open spec fn cursor_past(
    positions: Seq<PostingPosition>,
    start: int,
    end: int,
    limit: usize,
) -> Option<PostingCursor> {
    if start < end < positions.len() {
        Some(PostingCursor { after: Some(positions[end - 1]), limit })
    } else {
        None
    }
}

/// Where the lines of a statement sit.
pub open spec fn line_positions<const P: u8>(lines: Seq<LineFacts<P>>) -> Seq<PostingPosition> {
    lines.map_values(|l: LineFacts<P>| line_position(l))
}

/// Where open items sit.
pub open spec fn item_positions<const P: u8>(open: Seq<(PostingPosition, OpenItem<P>)>) -> Seq<
    PostingPosition,
> {
    open.map_values(|pair: (PostingPosition, OpenItem<P>)| pair.0)
}

/// True when positions are in log order.
pub open spec fn in_log_order(positions: Seq<PostingPosition>) -> bool {
    forall|i: int, j: int|
        0 <= i < j < positions.len() ==> books::position_before(
            #[trigger] positions[i],
            #[trigger] positions[j],
        )
}

fn is_past(after: &PostingPosition, position: &PostingPosition) -> (r: bool)
    ensures
        r == books::position_before(*after, *position),
{
    after.index.position < position.index.position || (after.index.position
        == position.index.position && after.posting < position.posting)
}

proof fn lemma_first_past(
    positions: Seq<PostingPosition>,
    after: PostingPosition,
    from: int,
    i: int,
)
    requires
        0 <= from <= i <= positions.len(),
        forall|j: int| from <= j < i ==> !books::position_before(after, #[trigger] positions[j]),
        i < positions.len() ==> books::position_before(after, positions[i]),
    ensures
        first_past(positions, after, from) == i,
    decreases i - from,
{
    if from < i {
        lemma_first_past(positions, after, from + 1, i);
    }
}

/// Fetches one entry by identifier.
#[must_use]
pub fn find_entry<const P: u8>(journal: &Journal<P>, id: EntryId) -> (r: Option<StoredEntry<P>>)
    requires
        journal.wf(),
    ensures
        match books::find_id(journal@.entries, id) {
            Some(i) => r matches Some(found) && found@ == stored_at(P, journal@.entries, i),
            None => r is None,
        },
{
    proof {
        books::lemma_find_id(journal@.entries, id);
    }
    match journal.index_of(id) {
        Some(index) => match journal.at(index) {
            Some(entry) => Some(
                StoredEntry {
                    index: Some(index),
                    entry: entry.clone(),
                    content_hash: entry.content_hash(),
                },
            ),
            None => None,
        },
        None => None,
    }
}

/// Reads a page of the log.
#[must_use]
pub fn read_page<const P: u8>(journal: &Journal<P>, cursor: Cursor) -> (page: Page<P>)
    ensures
        ({
            let entries = journal@.entries;
            let start = resume_at(cursor.after, entries.len() as int);
            let end = page_end(start, cursor.limit, entries.len() as int);
            &&& stored_facts(page.records@) == records_between(P, entries, start, end)
            &&& page.next == (if start < end < entries.len() {
                Some(
                    Cursor {
                        after: Some(LogIndex { position: (end - 1) as u64 }),
                        limit: cursor.limit,
                    },
                )
            } else {
                None
            })
        }),
{
    let entries = journal.entries();
    let ghost facts = journal@.entries;
    let len: usize = entries.len();
    let start: usize = match cursor.after {
        None => 0,
        Some(index) => if index.position < len as u64 {
            index.position as usize + 1
        } else {
            len
        },
    };
    let limit: usize = cursor.effective_limit();
    let end: usize = if limit < len - start {
        start + limit
    } else {
        len
    };
    let mut records: Vec<StoredEntry<P>> = Vec::with_capacity(end - start);
    let mut i: usize = start;
    let ghost wanted = records_between(P, facts, start as int, end as int);
    assert(stored_facts(records@) =~= wanted.take(0));
    while i < end
        invariant
            start <= i <= end <= len,
            len == entries@.len(),
            facts == journal::entry_facts(entries@),
            wanted == records_between(P, facts, start as int, end as int),
            stored_facts(records@) == wanted.take(i - start),
        decreases end - i,
    {
        let entry = &entries[i];
        let record = StoredEntry {
            index: Some(LogIndex { position: i as u64 }),
            entry: entry.clone(),
            content_hash: entry.content_hash(),
        };
        let ghost before = records@;
        records.push(record);
        assert(record@ == wanted[i - start]);
        assert(stored_facts(records@) =~= stored_facts(before).push(record@));
        assert(stored_facts(records@) =~= wanted.take(i + 1 - start));
        i += 1;
    }
    assert(wanted.take(end - start) =~= wanted);
    let next: Option<Cursor> = if start < end && end < len {
        Some(
            Cursor {
                after: Some(LogIndex { position: (end - 1) as u64 }),
                limit: cursor.limit,
            },
        )
    } else {
        None
    };
    Page { records, next }
}

/// Reads a page of one account's movements, with the running balance after each.
///
/// Resumes after a *posting*, not after an entry: one entry may put several
/// postings on an account, so a page can end inside one.
pub fn read_statement<const P: u8>(
    journal: &Journal<P>,
    key: &BalanceKey,
    cursor: PostingCursor,
) -> (r: Result<StatementPage<P>, MoneyError>)
    requires
        journal.wf(),
    ensures
        ({
            let all = books::statement_of::<P>(journal@.entries, *key);
            let positions = line_positions(all);
            let start = resume_past(positions, cursor.after);
            let end = page_end(start, cursor.limit, all.len() as int);
            &&& r matches Ok(page)
            &&& line_facts(page.lines@) == all.subrange(start, end)
            &&& page.next == cursor_past(positions, start, end, cursor.limit)
        }),
{
    let all = match journal.statement(key) {
        Ok(all) => all,
        Err(e) => {
            return Err(e);
        },
    };
    let ghost facts = line_facts(all@);
    let ghost positions = line_positions(facts);
    let len: usize = all.len();
    let mut start: usize = 0;
    if let Some(after) = cursor.after {
        while start < len && !is_past(&after, &all[start].position())
            invariant
                start <= len,
                len == all@.len(),
                facts == line_facts(all@),
                positions == line_positions(facts),
                forall|j: int|
                    0 <= j < start ==> !books::position_before(after, #[trigger] positions[j]),
            decreases len - start,
        {
            assert(positions[start as int] == line_position(all@[start as int]@));
            start += 1;
        }
        proof {
            if start < len {
                assert(positions[start as int] == line_position(all@[start as int]@));
            }
            lemma_first_past(positions, after, 0, start as int);
        }
    }
    let limit: usize = cursor.effective_limit();
    let end: usize = if limit < len - start {
        start + limit
    } else {
        len
    };
    let mut lines: Vec<StatementLine<P>> = Vec::with_capacity(end - start);
    let mut i: usize = start;
    let ghost wanted = facts.subrange(start as int, end as int);
    assert(line_facts(lines@) =~= wanted.take(0));
    while i < end
        invariant
            start <= i <= end <= len,
            len == all@.len(),
            facts == line_facts(all@),
            wanted == facts.subrange(start as int, end as int),
            line_facts(lines@) == wanted.take(i - start),
        decreases end - i,
    {
        let line = all[i].clone();
        let ghost before = lines@;
        lines.push(line);
        assert(line@ == wanted[i - start]);
        assert(line_facts(lines@) =~= line_facts(before).push(line@));
        assert(line_facts(lines@) =~= wanted.take(i + 1 - start));
        i += 1;
    }
    assert(wanted.take(end - start) =~= wanted);
    let next: Option<PostingCursor> = if start < end && end < len {
        assert(positions[end - 1] == line_position(all@[end - 1]@));
        Some(PostingCursor { after: Some(all[end - 1].position()), limit: cursor.limit })
    } else {
        None
    };
    Ok(StatementPage { lines, next })
}

/// Reads a page of what is still outstanding on an account, oldest first.
pub fn read_open_items<const P: u8>(
    journal: &Journal<P>,
    key: &BalanceKey,
    cursor: PostingCursor,
) -> (r: Result<OpenItemPage<P>, JournalError>)
    requires
        journal.wf(),
    ensures
        match books::open_on::<P>(journal@.clearings, journal@.entries, *key) {
            Ok(open) => {
                let positions = item_positions(open);
                let start = resume_past(positions, cursor.after);
                let end = page_end(start, cursor.limit, open.len() as int);
                &&& r matches Ok(page)
                &&& page.items@ == books::items_of(open).subrange(start, end)
                &&& page.next == cursor_past(positions, start, end, cursor.limit)
            },
            Err(e) => r matches Err(JournalError::Clearing(cause)) && cause == e,
        },
{
    let all = match journal.open_positions(key) {
        Ok(all) => all,
        Err(e) => {
            return Err(e);
        },
    };
    let ghost positions = item_positions(all@);
    let len: usize = all.len();
    let mut start: usize = 0;
    if let Some(after) = cursor.after {
        while start < len && !is_past(&after, &all[start].0)
            invariant
                start <= len,
                len == all@.len(),
                positions == item_positions(all@),
                forall|j: int|
                    0 <= j < start ==> !books::position_before(after, #[trigger] positions[j]),
            decreases len - start,
        {
            assert(positions[start as int] == all@[start as int].0);
            start += 1;
        }
        proof {
            if start < len {
                assert(positions[start as int] == all@[start as int].0);
            }
            lemma_first_past(positions, after, 0, start as int);
        }
    }
    let limit: usize = cursor.effective_limit();
    let end: usize = if limit < len - start {
        start + limit
    } else {
        len
    };
    let mut items: Vec<OpenItem<P>> = Vec::with_capacity(end - start);
    let mut i: usize = start;
    let ghost wanted = books::items_of(all@).subrange(start as int, end as int);
    assert(items@ =~= wanted.take(0));
    while i < end
        invariant
            start <= i <= end <= len,
            len == all@.len(),
            wanted == books::items_of(all@).subrange(start as int, end as int),
            items@ == wanted.take(i - start),
        decreases end - i,
    {
        items.push(all[i].1);
        assert(items@ =~= wanted.take(i + 1 - start));
        i += 1;
    }
    assert(wanted.take(end - start) =~= wanted);
    let next: Option<PostingCursor> = if start < end && end < len {
        assert(positions[end - 1] == all@[end - 1].0);
        Some(PostingCursor { after: Some(all[end - 1].0), limit: cursor.limit })
    } else {
        None
    };
    Ok(OpenItemPage { items, next })
}

/// The balances that some accounts hold in one currency and layer. An account
/// without a row is left out.
pub open spec fn balances_among<const P: u8>(
    balances: Map<BalanceKey, Balance<P>>,
    accounts: Seq<AccountId>,
    currency: Currency,
    layer: Layer,
) -> Seq<(AccountId, Balance<P>)>
    decreases accounts.len(),
{
    if accounts.len() == 0 {
        Seq::empty()
    } else {
        let before = balances_among(balances, accounts.drop_last(), currency, layer);
        let key = BalanceKey { account: accounts.last(), currency, layer };
        if balances.contains_key(key) {
            before.push((accounts.last(), balances[key]))
        } else {
            before
        }
    }
}

/// Balances for several accounts at once, in the order they were asked for.
///
/// Accounts with no postings are absent from the result rather than present with
/// a zero: the caller knows which it asked for.
pub fn read_balances<const P: u8>(
    journal: &Journal<P>,
    accounts: &[AccountId],
    currency: Currency,
    layer: Layer,
    size: Option<u64>,
) -> (r: Result<Vec<(AccountId, Balance<P>)>, MoneyError>)
    requires
        journal.wf(),
    ensures
        r matches Ok(found) && found@ == balances_among(
            books::balances_at::<P>(journal@.entries, size),
            accounts@,
            currency,
            layer,
        ),
{
    let balances = match journal.trial_balance(size) {
        Ok(balances) => balances,
        Err(e) => {
            return Err(e);
        },
    };
    let mut found: Vec<(AccountId, Balance<P>)> = Vec::new();
    let mut i: usize = 0;
    assert(accounts@.take(0) =~= Seq::<AccountId>::empty());
    while i < accounts.len()
        invariant
            i <= accounts.len(),
            found@ == balances_among(balances@, accounts@.take(i as int), currency, layer),
        decreases accounts.len() - i,
    {
        assert(accounts@.take(i + 1).drop_last() =~= accounts@.take(i as int));
        let account = accounts[i];
        if let Some(balance) = balances.get(&BalanceKey { account, currency, layer }) {
            found.push((account, *balance));
        }
        i += 1;
    }
    assert(accounts@.take(accounts@.len() as int) =~= accounts@);
    Ok(found)
}

// ── what paging loses ───────────────────────────────────────────────────────

/// Nothing is lost between pages: the page after the one that ended at `end`
/// starts there, so the pages tile the list whatever their size. A page that ends
/// inside an entry is resumed inside it.
pub proof fn law_pages_tile_the_list(
    positions: Seq<PostingPosition>,
    start: int,
    end: int,
    limit: usize,
)
    requires
        in_log_order(positions),
        0 <= start <= positions.len(),
        end == page_end(start, limit, positions.len() as int),
    ensures
        match cursor_past(positions, start, end, limit) {
            Some(next) => resume_past(positions, next.after) == end && next.limit == limit,
            None => end == positions.len(),
        },
        start < positions.len() ==> start < end,
{
    if start < end < positions.len() {
        let last = positions[end - 1];
        assert forall|j: int| 0 <= j < end implies !books::position_before(
            last,
            #[trigger] positions[j],
        ) by {
            if j < end - 1 {
                assert(books::position_before(positions[j], positions[end - 1]));
            }
        }
        lemma_first_past(positions, last, 0, end);
    }
}

/// The pages of the log tile it.
pub proof fn law_log_pages_tile_the_log(len: int, start: int, end: int, limit: usize)
    requires
        0 <= start <= len <= u64::MAX,
        end == page_end(start, limit, len),
    ensures
        start < end < len ==> resume_at(
            Some(LogIndex { position: (end - 1) as u64 }),
            len,
        ) == end,
        !(start < end < len) ==> end == len,
        start < len ==> start < end,
{
}

/// A statement lists its lines in log order, each at a position of its own.
pub proof fn law_statement_is_in_log_order<const P: u8>(
    entries: Seq<entry::EntryFacts>,
    key: BalanceKey,
)
    requires
        books::addressable(entries),
    ensures
        in_log_order(line_positions(books::statement_of::<P>(entries, key))),
{
    books::lemma_sites_ascend(entries, key);
    let all = books::statement_of::<P>(entries, key);
    let positions = line_positions(all);
    assert forall|i: int, j: int| 0 <= i < j < positions.len() implies books::position_before(
        #[trigger] positions[i],
        #[trigger] positions[j],
    ) by {
        assert(positions[i] == books::sites_of(entries, key)[i]);
        assert(positions[j] == books::sites_of(entries, key)[j]);
    }
}

proof fn lemma_open_sites_in_order<const P: u8>(
    events: Seq<clearing::EventFacts<P>>,
    entries: Seq<entry::EntryFacts>,
    key: BalanceKey,
    n: int,
)
    requires
        books::addressable(entries),
        0 <= n <= books::sites_of(entries, key).len(),
        books::open_sites::<P>(events, entries, key, n) is Ok,
    ensures
        ({
            let positions = item_positions(
                books::open_sites::<P>(events, entries, key, n)->Ok_0,
            );
            &&& in_log_order(positions)
            &&& forall|i: int|
                0 <= i < positions.len() && n < books::sites_of(entries, key).len()
                    ==> books::position_before(
                    #[trigger] positions[i],
                    books::sites_of(entries, key)[n],
                )
        }),
    decreases n,
{
    books::lemma_sites_ascend(entries, key);
    let sites = books::sites_of(entries, key);
    let open = books::open_sites::<P>(events, entries, key, n)->Ok_0;
    let positions = item_positions(open);
    if n > 0 {
        lemma_open_sites_in_order::<P>(events, entries, key, n - 1);
        let before = books::open_sites::<P>(events, entries, key, n - 1)->Ok_0;
        let earlier = item_positions(before);
        assert forall|i: int| 0 <= i < earlier.len() implies positions[i] == earlier[i] by {}
        assert forall|i: int, j: int| 0 <= i < j < positions.len() implies books::position_before(
            #[trigger] positions[i],
            #[trigger] positions[j],
        ) by {
            assert(positions[i] == earlier[i]);
            if j < earlier.len() {
                assert(positions[j] == earlier[j]);
            }
        }
        assert forall|i: int|
            0 <= i < positions.len() && n < sites.len() implies books::position_before(
            #[trigger] positions[i],
            sites[n],
        ) by {
            assert(books::position_before(sites[n - 1], sites[n]));
            if i < earlier.len() {
                assert(positions[i] == earlier[i]);
            }
        }
    }
}

/// Open items come oldest first, each at a position of its own.
pub proof fn law_open_items_are_in_log_order<const P: u8>(
    events: Seq<clearing::EventFacts<P>>,
    entries: Seq<entry::EntryFacts>,
    key: BalanceKey,
)
    requires
        books::addressable(entries),
        books::open_on::<P>(events, entries, key) is Ok,
    ensures
        in_log_order(item_positions(books::open_on::<P>(events, entries, key)->Ok_0)),
{
    lemma_open_sites_in_order::<P>(
        events,
        entries,
        key,
        books::sites_of(entries, key).len() as int,
    );
}

} // verus!
