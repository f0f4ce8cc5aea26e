//! An immutable, tamper-evident double-entry bookkeeping engine.
//!
//! A [`Journal`] records balanced entries and nothing else: what was recorded is
//! never edited, a correction is a further entry, and every balance is derived from
//! the entries. The log is committed to by a Merkle tree, periods are closed by a
//! chain of [`Seal`]s, and open items are settled by clearings that change no
//! balance.
//!
//! Contracts speak of ghost models: a journal's view is a [`books::Books`], and
//! [`books`] states what follows from its entries.

pub mod account;
pub mod balance;
pub mod books;
pub mod canonical;
pub mod checkpoint;
pub mod clearing;
pub mod closing;
pub mod date;
pub mod dimensions;
pub mod entry;
pub mod hash;
pub mod ident;
pub mod journal;
pub mod laws;
pub mod merkle;
pub mod money;
pub mod ordered;
pub mod period;
pub mod posting;
pub mod seal;
pub mod sorting;
mod state;
pub mod storage;
pub mod tag;
pub mod text;

pub use account::{
    account_binding_leaf, Account, AccountBindingProof, AccountError, AccountId, AccountKind,
    AccountPath, AccountRecord, AccountRegistry, BalanceLimit,
};
pub use balance::{Balance, BalanceKey, TrialBalance};
pub use canonical::{Canonical, CanonicalWriter};
pub use checkpoint::{AssertAt, AssertionOutcome, BalanceAssertion, Checkpoint, CheckpointError};
pub use clearing::{
    ClearedItem, Clearing, ClearingError, ClearingEvent, ClearingId, ClearingRegister, OpenItem,
    PostingLookup, PostingPosition, PostingRef,
};
pub use closing::{closing_postings, ClosingError};
pub use date::Date;
pub use dimensions::{DimensionError, Dimensions, Label};
pub use entry::{
    Balanced, CurrencyPolicy, Description, DocumentRef, Draft, Entry, EntryFieldError, EntryId,
    IdempotencyKey, IntegrityError, LedgerPolicy, Provenance, SealContext, ValidationError,
    ValidationErrors,
};
pub use hash::{Digest, ParseHashError, RESERVED_DOMAIN_PREFIX};
pub use journal::{Journal, JournalError, LogIndex, NotSequenced, Recorded};
pub use merkle::{
    empty_root, leaf_hash, Anchor, ConsistencyProof, InclusionProof, MalformedAccumulator,
    MerkleAccumulator, MerkleLog, ProofError, TreeHead,
};
pub use money::{Amount, Currency, MoneyError};
pub use period::{LedgerId, Period, PeriodCalendar, PeriodError, PeriodId, PeriodState};
pub use posting::{Direction, Layer, Posting};
pub use seal::{
    balance_leaf, trial_balance_root, BalanceProof, PeriodCoverage, Seal, SealChain,
    SealChainError, SealedBalance, SealedBalanceError, SealedBalanceOutcome,
    TrialBalanceCommitment,
};
pub use storage::{
    BatchError, Cursor, EntryBatch, OpenItemPage, Page, PostingCursor, StatementLine,
    StatementPage, StoredEntry,
};
