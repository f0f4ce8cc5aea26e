//! What is hashed, byte for byte.
//!
//! A content hash outlives the program that took it, so the layout it is taken over
//! is part of what the engine promises. Numbers are least significant byte first,
//! in a fixed width; text and lists are counted ahead; options are marked.

use crate::account::{self, AccountKind, BalanceLimit, Binding};
use crate::balance::{Balance, BalanceKey};
use crate::canonical;
use crate::date::{self, Date};
use crate::entry::{self, DocumentFacts, EntryFacts};
use crate::hash;
use crate::ident;
use crate::posting::{self, Direction, Layer, Movement};
use crate::seal::{self, SealFacts};
use vstd::prelude::*;
use vstd::utf8::*;

verus! {

/// A number in a fixed number of bytes.
pub open spec fn fixed(v: int, width: nat) -> Seq<u8> {
    canonical::le_bytes(v as nat, width)
}

/// A signed amount in eight bytes.
pub open spec fn signed(v: int) -> Seq<u8> {
    fixed(
        if v < 0 {
            v + 0x1_0000_0000_0000_0000
        } else {
            v
        },
        8,
    )
}

/// A date: the year in four bytes, the month, the day.
pub open spec fn dated(d: Date) -> Seq<u8> {
    fixed(
        if d.year_number() < 0 {
            d.year_number() + 0x1_0000_0000
        } else {
            d.year_number()
        },
        4,
    ) + seq![d.month_number() as u8, d.day_number() as u8]
}

/// Text: its bytes, counted.
pub open spec fn text(t: Seq<char>) -> Seq<u8> {
    canonical::prefixed(encode_utf8(t))
}

/// Text that may be missing.
pub open spec fn optional_text(t: Option<Seq<char>>) -> Seq<u8> {
    match t {
        None => seq![0u8],
        Some(t) => seq![1u8] + text(t),
    }
}

/// What is hashed under a tag: the length of the tag in eight bytes, the tag, and
/// what it is the tag of.
pub proof fn law_hashes_are_taken_under_a_tag(tag: Seq<u8>, payload: Seq<u8>)
    ensures
        hash::tagged_hash(tag, payload)@ == hash::blake3_digest(
            fixed(tag.len() as int, 8) + tag + payload,
        )@,
        hash::tagged_preimage(tag, payload) == fixed(tag.len() as int, 8) + tag + payload,
{
}

/// Sides, layers, kinds and limits are single bytes.
pub proof fn law_choices_are_single_bytes()
    ensures
        posting::direction_byte(Direction::Debit) == 0,
        posting::direction_byte(Direction::Credit) == 1,
        posting::layer_byte(Layer::Settled) == 0,
        posting::layer_byte(Layer::Pending) == 1,
        account::kind_byte(AccountKind::Asset) == 0,
        account::kind_byte(AccountKind::Liability) == 1,
        account::kind_byte(AccountKind::Equity) == 2,
        account::kind_byte(AccountKind::Income) == 3,
        account::kind_byte(AccountKind::Expense) == 4,
        account::limit_byte(BalanceLimit::Unlimited) == 0,
        account::limit_byte(BalanceLimit::NoCreditBalance) == 1,
        account::limit_byte(BalanceLimit::NoDebitBalance) == 2,
{
}

/// A posting is hashed as its account in four bytes, its side, its amount, its
/// currency, its layer, and its dimensions, counted, axis ahead of value.
pub proof fn law_postings_are_laid_out_in_order(m: Movement)
    ensures
        posting::movement_encoding(m) == fixed(m.account.position as int, 4) + seq![
            if m.direction is Debit {
                0u8
            } else {
                1u8
            },
        ] + signed(m.minor) + m.currency@ + seq![
            if m.layer is Settled {
                0u8
            } else {
                1u8
            },
        ] + canonical::counted(
            m.dimensions.map_values(|p: (Seq<char>, Seq<char>)| text(p.0) + text(p.1)),
        ),
{
    let f = |p: (Seq<char>, Seq<char>)| canonical::text_bytes(p.0) + canonical::text_bytes(p.1);
    let g = |p: (Seq<char>, Seq<char>)| text(p.0) + text(p.1);
    assert(f =~= g);
}

/// A source document: its identifier, and its hash where there is one.
pub open spec fn cited(d: DocumentFacts) -> Seq<u8> {
    text(d.id) + match d.content_hash {
        None => seq![0u8],
        Some(h) => seq![1u8] + h@,
    }
}

/// An entry is hashed under its own tag as its precision, its key, its two dates and
/// its description; then its postings, counted; then its kind, who recorded it, its
/// document, and what it reverses and when that was booked.
pub proof fn law_entries_are_laid_out_in_order(p: u8, e: EntryFacts)
    ensures
        entry::entry_hash(p, e) == hash::tagged_hash(
            encode_utf8("doubleentry/entry/v1"@),
            entry::entry_encoding(p, e),
        ),
        ({
            let head = seq![p] + canonical::prefixed(e.key) + dated(e.booking_date) + dated(
                e.value_date,
            ) + text(e.description);
            let postings = canonical::counted(
                e.postings.map_values(|m: Movement| posting::movement_encoding(m)),
            );
            let recorded_by = optional_text(e.provenance.actor) + optional_text(
                e.provenance.source,
            ) + optional_text(e.provenance.correlation);
            let document = match e.document {
                None => seq![0u8],
                Some(d) => seq![1u8] + cited(d),
            };
            let reverses = match e.reverses {
                None => seq![0u8],
                Some(id) => seq![1u8] + ident::uuid_bytes(id.value),
            };
            let booked = match e.original_booking_date {
                None => seq![0u8],
                Some(d) => seq![1u8] + dated(d),
            };
            entry::entry_encoding(p, e) == head + postings + (optional_text(e.kind) + recorded_by
                + document + reverses + booked)
        }),
{
    lemma_dated(e.booking_date);
    lemma_dated(e.value_date);
    if let Some(d) = e.original_booking_date {
        lemma_dated(d);
    }
}

proof fn lemma_dated(d: Date)
    ensures
        date::date_encoding(d) == dated(d),
{
}

/// An account is hashed as its path, counted, its kind, the day it opens, the day
/// it closes, and its limit; bound to a handle, with the handle ahead in four bytes.
pub proof fn law_accounts_are_laid_out_in_order(b: Binding)
    ensures
        account::path_hash(b.account.path) == hash::tagged_hash(
            encode_utf8("doubleentry/account/v1"@),
            canonical::counted(b.account.path.map_values(|s: Seq<char>| text(s))),
        ),
        account::binding_leaf(b) == hash::tagged_hash(
            encode_utf8("doubleentry/accountbinding/v1"@),
            fixed(b.id.position as int, 4) + canonical::counted(
                b.account.path.map_values(|s: Seq<char>| text(s)),
            ) + (match b.account.kind {
                None => seq![0u8],
                Some(kind) => seq![1u8, account::kind_byte(kind)],
            }) + dated(b.account.opened_on) + (match b.account.closed_on {
                None => seq![0u8],
                Some(d) => seq![1u8] + dated(d),
            }) + seq![account::limit_byte(b.account.limit)],
        ),
{
    let f = |s: Seq<char>| canonical::text_bytes(s);
    let g = |s: Seq<char>| text(s);
    assert(f =~= g);
    assert(account::binding_encoding(b) =~= fixed(b.id.position as int, 4) + canonical::counted(
        b.account.path.map_values(|s: Seq<char>| text(s)),
    ) + (match b.account.kind {
        None => seq![0u8],
        Some(kind) => seq![1u8, account::kind_byte(kind)],
    }) + dated(b.account.opened_on) + (match b.account.closed_on {
        None => seq![0u8],
        Some(d) => seq![1u8] + dated(d),
    }) + seq![account::limit_byte(b.account.limit)]);
}

/// A row of a trial balance is hashed as its account, currency, layer and scale, its
/// debits and its credits.
pub proof fn law_rows_are_laid_out_in_order<const P: u8>(key: BalanceKey, b: Balance<P>)
    ensures
        seal::row_leaf(key, b) == hash::tagged_hash(
            encode_utf8("doubleentry/trialbalance/v1"@),
            fixed(key.account.position as int, 4) + key.currency@ + seq![
                posting::layer_byte(key.layer),
                P,
            ] + signed(b.debits.minor as int) + signed(b.credits.minor as int),
        ),
{
    assert(seal::row_encoding(key, b) =~= fixed(key.account.position as int, 4) + key.currency@
        + seq![posting::layer_byte(key.layer), P] + signed(b.debits.minor as int) + signed(
        b.credits.minor as int,
    ));
}

/// A seal is hashed as its ledger and period, the ends of its extent, its count, the
/// size and root of the log, the roots of the balances and of the accounts, and the
/// seal before it.
pub proof fn law_seals_are_laid_out_in_order(s: SealFacts)
    ensures
        seal::seal_digest(s) == hash::tagged_hash(
            encode_utf8("doubleentry/seal/v1"@),
            text(s.ledger) + text(s.period) + (match s.first_index {
                None => seq![0u8],
                Some(v) => seq![1u8] + fixed(v as int, 8),
            }) + (match s.last_index {
                None => seq![0u8],
                Some(v) => seq![1u8] + fixed(v as int, 8),
            }) + fixed(s.entry_count as int, 8) + fixed(s.tree_head.size as int, 8)
                + s.tree_head.root@ + s.trial_balance_root@ + s.accounts_root@ + (
            match s.prev_seal {
                None => seq![0u8],
                Some(h) => seq![1u8] + h@,
            }),
        ),
{
    assert(seal::seal_encoding(s) =~= text(s.ledger) + text(s.period) + (match s.first_index {
        None => seq![0u8],
        Some(v) => seq![1u8] + fixed(v as int, 8),
    }) + (match s.last_index {
        None => seq![0u8],
        Some(v) => seq![1u8] + fixed(v as int, 8),
    }) + fixed(s.entry_count as int, 8) + fixed(s.tree_head.size as int, 8) + s.tree_head.root@
        + s.trial_balance_root@ + s.accounts_root@ + (match s.prev_seal {
        None => seq![0u8],
        Some(h) => seq![1u8] + h@,
    }));
}

} // verus!
