# doubleentry

An immutable, tamper-evident double-entry bookkeeping engine, verified with
[Verus](https://github.com/verus-lang/verus).

A `Journal` is one entity's books: its accounts, its calendar, its policy, its
entries, and the Merkle log that commits to them. Entries are validated before they
are recorded, what was recorded is never edited, every balance is derived from the
entries, and closed periods are committed to by a chain of seals. Money is a scaled
integer, and nothing here does I/O. Only the generators of identifiers look at a clock
and at random numbers.

## Layout

| Path | What it holds |
|---|---|
| `src/money.rs`, `balance.rs`, `posting.rs`, `dimensions.rs`, `date.rs` | amounts, splits, gross balances, movements, labels, calendar dates |
| `src/canonical.rs`, `hash.rs`, `merkle.rs` | the canonical encoding, tagged BLAKE3 digests, the Merkle log and its proofs |
| `src/account.rs`, `period.rs` | the account registry and the calendar |
| `src/entry.rs` | entries, their validation, reversal and content hash |
| `src/clearing.rs`, `closing.rs`, `checkpoint.rs`, `seal.rs` | open items, closing postings, checkpoints, seals and sealed balances |
| `src/books.rs` | the ghost model of a journal and what follows from it |
| `src/journal.rs`, `storage.rs` | the journal, and reading it page by page |
| `src/ordered.rs`, `sorting.rs`, `ident.rs`, `text.rs`, `tag.rs` | ordered maps, sorting, identifiers, text, domain tags |
| `tests/` | behaviour on concrete values |
| `app/` | failures as standard errors, the wire form, and homes for a ledger |

## How to read the contracts

Every type has a view. A journal's view is a `books::Books`: sequences of facts about
accounts, periods, entries, seals and clearings. Functions state their result over
those views, and each failure together with the inputs it comes on. The proof
functions named `law_…` state what holds of the library as a whole: that the books
balance, that a retry is safe, that a sealed balance cannot be restated, that a proof
that verifies names what was recorded.

Tamper evidence is stated up to collisions. A law that draws conclusions from equal
digests requires `hash::collision_free` of exactly the byte strings that were hashed.

## What is taken on trust

Five declarations state facts about code outside this crate: BLAKE3 (`hash.rs`), the
standard library's `sort` (`sorting.rs`) and `String::push` (`text.rs`), the Julian day
of a calendar date (`date.rs`) and the shape of a time-ordered UUID (`ident.rs`).
