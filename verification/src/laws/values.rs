//! Small values: what they start as, how they are told apart, and how they are
//! ordered.

use crate::account::{self, AccountError, AccountId, Binding};
use crate::balance::{self, Balance, BalanceKey};
use crate::checkpoint::{self, AssertionOutcome};
use crate::clearing::{ClearingId, PostingRef};
use crate::date::Date;
use crate::dimensions::Label;
use crate::entry::{self, CurrencyPolicy, EntryId, IdempotencyKey};
use crate::money::{self, Amount, Currency};
use crate::ordered::{self, Key};
use crate::period::PeriodId;
use crate::posting::{self, Direction, Layer, Movement};
use crate::storage::{self, LineFacts};
use vstd::prelude::*;
use vstd::utf8::*;

verus! {

// ── order ───────────────────────────────────────────────────────────────────

/// Text is ordered by its bytes, whether it is a label or the identifier of a
/// period.
pub proof fn law_labels_are_ordered_by_their_bytes(a: Seq<char>, b: Seq<char>)
    ensures
        Label::before(a, b) <==> ordered::bytes_before(encode_utf8(a), encode_utf8(b)),
        PeriodId::before(a, b) <==> ordered::bytes_before(encode_utf8(a), encode_utf8(b)),
{
}

/// Codes and keys are ordered by their bytes.
pub proof fn law_codes_are_ordered_by_their_bytes(a: Seq<u8>, b: Seq<u8>)
    ensures
        Currency::before(a, b) <==> ordered::bytes_before(a, b),
        IdempotencyKey::before(a, b) <==> ordered::bytes_before(a, b),
{
}

/// Identifiers are ordered by their value, so those of entries made later come
/// later.
pub proof fn law_identifiers_are_ordered_by_their_value(
    a: EntryId,
    b: EntryId,
    x: ClearingId,
    y: ClearingId,
    i: u16,
    j: u16,
)
    ensures
        EntryId::before(a, b) <==> a.value < b.value,
        ClearingId::before(x, y) <==> x.value < y.value,
        PostingRef::before(PostingRef { entry: a, index: i }, PostingRef { entry: b, index: j })
            <==> a.value < b.value || (a.value == b.value && i < j),
{
}

// ── currencies ──────────────────────────────────────────────────────────────

/// The text of a currency is its code, character for byte.
pub proof fn law_currencies_are_written_as_their_code(c: Currency, i: int)
    requires
        0 <= i < 3,
    ensures
        c.text().len() == 3,
        c@.len() == 3,
        c.text()[i] as int == c@[i] as int,
{
    c.lemma_code_len();
}

/// No currency is counted in two ways, and those counted in whole units, in
/// thousandths and in hundredths are the ones listed.
pub proof fn law_currencies_are_counted_in_one_way(code: Seq<char>)
    ensures
        money::zero_decimal_codes().contains(code) <==> code == "CLP"@ || code == "ISK"@ || code
            == "JPY"@ || code == "KRW"@ || code == "VND"@ || code == "XAF"@ || code == "XOF"@
            || code == "XPF"@,
        money::three_decimal_codes().contains(code) <==> code == "BHD"@ || code == "IQD"@ || code
            == "JOD"@ || code == "KWD"@ || code == "LYD"@ || code == "OMR"@ || code == "TND"@,
        money::two_decimal_codes().contains(code) <==> code == "AUD"@ || code == "CAD"@ || code
            == "CHF"@ || code == "CNY"@ || code == "CZK"@ || code == "DKK"@ || code == "EUR"@
            || code == "GBP"@ || code == "HUF"@ || code == "NOK"@ || code == "NZD"@ || code
            == "PLN"@ || code == "RON"@ || code == "SEK"@ || code == "TRY"@ || code == "USD"@
            || code == "ZAR"@,
{
    let (z, t, h) = (
        money::zero_decimal_codes(),
        money::three_decimal_codes(),
        money::two_decimal_codes(),
    );
    assert(z.len() == 8 && z[0] == "JPY"@ && z[1] == "KRW"@ && z[2] == "ISK"@ && z[3] == "CLP"@
        && z[4] == "VND"@ && z[5] == "XAF"@ && z[6] == "XOF"@ && z[7] == "XPF"@);
    assert(t.len() == 7 && t[0] == "BHD"@ && t[1] == "IQD"@ && t[2] == "JOD"@ && t[3] == "KWD"@
        && t[4] == "LYD"@ && t[5] == "OMR"@ && t[6] == "TND"@);
    assert(h.len() == 17 && h[0] == "EUR"@ && h[1] == "USD"@ && h[2] == "GBP"@ && h[3] == "CHF"@
        && h[4] == "AUD"@ && h[5] == "CAD"@ && h[6] == "CNY"@ && h[7] == "CZK"@ && h[8] == "DKK"@
        && h[9] == "HUF"@ && h[10] == "NOK"@ && h[11] == "NZD"@ && h[12] == "PLN"@ && h[13]
        == "RON"@ && h[14] == "SEK"@ && h[15] == "TRY"@ && h[16] == "ZAR"@);
}

/// The currencies of a trial balance are those of its rows, each once, by code.
pub proof fn law_currencies_are_those_of_the_rows<const P: u8>(
    balances: Map<BalanceKey, Balance<P>>,
    currencies: Seq<Currency>,
    c: Currency,
)
    requires
        balance::lists_currencies(balances, currencies),
    ensures
        currencies.contains(c) <==> exists|account: AccountId, layer: Layer|
            #[trigger] balances.contains_key((BalanceKey { account, currency: c, layer })),
        forall|i: int, j: int|
            0 <= i < j < currencies.len() ==> ordered::bytes_before(
                (#[trigger] currencies[i])@,
                (#[trigger] currencies[j])@,
            ),
{
    let codes = balance::codes_of(currencies);
    if currencies.contains(c) {
        let key = choose|key: BalanceKey| #[trigger]
            balances.contains_key(key) && key.currency == c;
        assert(key == (BalanceKey { account: key.account, currency: c, layer: key.layer }));
    }
    if exists|account: AccountId, layer: Layer|
        #[trigger] balances.contains_key((BalanceKey { account, currency: c, layer })) {
        let (account, layer) = choose|account: AccountId, layer: Layer|
            #[trigger] balances.contains_key((BalanceKey { account, currency: c, layer }));
        let key = BalanceKey { account, currency: c, layer };
        assert(balances.contains_key(key) && key.currency == c);
        assert(balance::has_currency(balances, c));
    }
    assert forall|i: int, j: int| 0 <= i < j < currencies.len() implies ordered::bytes_before(
        (#[trigger] currencies[i])@,
        (#[trigger] currencies[j])@,
    ) by {
        assert(Currency::before(codes[i], codes[j]));
    }
}

// ── postings and drafts ─────────────────────────────────────────────────────

/// Turning a posting round changes its side and nothing else, and turning it round
/// again changes it back.
pub proof fn law_turning_round_changes_the_side(m: Movement)
    ensures
        posting::opposite(Direction::Debit) == Direction::Credit,
        posting::opposite(Direction::Credit) == Direction::Debit,
        posting::flipped(m).direction != m.direction,
        posting::flipped(m).account == m.account,
        posting::flipped(m).minor == m.minor,
        posting::flipped(m).currency == m.currency,
        posting::flipped(m).layer == m.layer,
        posting::flipped(m).dimensions == m.dimensions,
        posting::flipped(posting::flipped(m)) == m,
{
}

/// A new draft has its identifier, its key and its day, is valued that day, and has
/// nothing else yet. A plain movement is settled and has no dimensions. A new policy
/// constrains nothing.
pub proof fn law_drafts_start_empty(
    id: EntryId,
    key: Seq<u8>,
    on: Date,
    account: AccountId,
    direction: Direction,
    minor: int,
    currency: Currency,
)
    ensures
        ({
            let e = entry::fresh_draft(id, key, on);
            &&& e.id == id
            &&& e.key == key
            &&& e.booking_date == on
            &&& e.value_date == on
            &&& e.description.len() == 0
            &&& e.postings.len() == 0
            &&& e.kind is None
            &&& e.provenance.actor is None
            &&& e.provenance.source is None
            &&& e.provenance.correlation is None
            &&& e.document is None
            &&& e.reverses is None
            &&& e.original_booking_date is None
        }),
        ({
            let m = entry::plain_movement(account, direction, minor, currency);
            &&& m.account == account
            &&& m.direction == direction
            &&& m.minor == minor
            &&& m.currency == currency
            &&& m.layer == Layer::Settled
            &&& m.dimensions.len() == 0
        }),
        entry::no_policy().currency == CurrencyPolicy::Multi,
        entry::no_policy().required.len() == 0,
        entry::no_policy().max_drift is None,
{
}

/// A statement line stands where its posting does.
pub proof fn law_lines_stand_where_their_postings_do<const P: u8>(line: LineFacts<P>)
    ensures
        storage::line_position(line).index == line.index,
        storage::line_position(line).posting == line.posting.index,
{
}

/// The outcome of an assertion in words shows every figure of it.
pub proof fn law_outcomes_show_their_figures<const P: u8>(
    expected: Amount<P>,
    found: Amount<P>,
    difference: Amount<P>,
    held: Balance<P>,
)
    ensures
        checkpoint::outcome_text(AssertionOutcome::Held { actual: held }) == "held (debits "@
            + money::literal(held.debits) + ", credits "@ + money::literal(held.credits) + ")"@,
        checkpoint::outcome_text(
            AssertionOutcome::Failed { expected, actual: found, difference },
        ) == "failed: expected "@ + money::literal(expected) + ", found "@ + money::literal(found)
            + ", off by "@ + money::literal(difference),
{
}

/// A posting carries at most eight dimensions, and a page that nobody sized holds
/// 256 records.
pub proof fn law_dimensions_and_pages_are_bounded()
    ensures
        crate::dimensions::MAX_DIMENSIONS == 8,
        storage::DEFAULT_PAGE_SIZE == 256,
        storage::MAX_PAGE_SIZE == 4096,
        entry::MAX_POSTINGS == 0x7fff,
        crate::books::ADDRESSABLE == 0x1_0000,
        Amount::<0>::MAX_PRECISION == 18,
{
}

// ── records ─────────────────────────────────────────────────────────────────

/// Records are taken by handle, all of them, those with one handle in the order
/// given.
pub proof fn law_records_are_taken_by_handle(records: Seq<Binding>, order: Seq<int>)
    requires
        account::by_handle(records, order),
    ensures
        account::picked(records, order).len() == records.len(),
        forall|i: int, j: int|
            0 <= i < j < records.len() ==> (#[trigger] account::picked(
                records,
                order,
            )[i]).id.position <= (#[trigger] account::picked(records, order)[j]).id.position,
        forall|i: int|
            0 <= i < records.len() ==> account::picked(records, order).contains(
                #[trigger] records[i],
            ),
{
    let taken = account::picked(records, order);
    assert forall|i: int, j: int| 0 <= i < j < records.len() implies (
    #[trigger] taken[i]).id.position <= (#[trigger] taken[j]).id.position by {
        let (a, b) = (records[order[i]].id, records[order[j]].id);
        assert(a.position < b.position || (a.position == b.position && order[i] < order[j]));
    }
    assert(order.no_duplicates()) by {
        assert forall|i: int, j: int| 0 <= i < j < order.len() implies order[i] != order[j] by {
            let (a, b) = (records[order[i]].id, records[order[j]].id);
            assert(a.position < b.position || (a.position == b.position && order[i] < order[j]));
        }
    }
    assert forall|i: int| 0 <= i < records.len() implies taken.contains(#[trigger] records[i]) by {
        crate::laws::clearing::lemma_every_position_is_taken(order, i);
        let k = choose|k: int| 0 <= k < order.len() && order[k] == i;
        assert(taken[k] == records[i]);
    }
}

/// A record that cannot be restored does not have the next handle, or cannot be
/// registered beside those before it, and the error says which.
pub proof fn law_records_fail_for_a_reason(records: Seq<Binding>, k: int, e: AccountError)
    requires
        0 <= k < records.len() <= u32::MAX,
        account::fails_at(records, k, e),
    ensures
        match e {
            AccountError::NotDense { expected, found } => expected == k && found
                == records[k].id.position && found != k,
            AccountError::AlreadyRegistered { path } => path@ == records[k].account.path && exists|
                i: int,
            | 0 <= i < k && (#[trigger] records[i]).account.path == path@,
            AccountError::ClosedBeforeOpened { path, opened, closed } => path@
                == records[k].account.path && opened == records[k].account.opened_on && Some(closed)
                == records[k].account.closed_on && closed@ < opened@,
            AccountError::RegistryFull => k >= 0xffff_ffff,
            _ => false,
        },
{
    if records[k].id.position == k {
        let before = account::accounts_of(records.take(k));
        crate::laws::accounts::law_accounts_are_registered_exactly_when_in_order(
            before,
            records[k].account,
            e,
        );
        if let AccountError::AlreadyRegistered { path } = e {
            let i = choose|i: int| 0 <= i < before.len() && (#[trigger] before[i]).path == path@;
            assert(records[i].account == before[i]);
        }
    }
}

} // verus!
