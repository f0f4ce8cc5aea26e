//! Which clearings are accepted, and what they leave open.

use crate::clearing::{
    self, ClearedItem, ClearingError, ClearingFacts, ClearingId, EventFacts, OpenItem, PostingRef,
};
use crate::date::Date;
use crate::money::MoneyError;
use crate::ordered::Key;
use crate::posting::{self, Direction};
use vstd::prelude::*;

verus! {

/// The sum of what items apply to postings on one side.
pub open spec fn applied_to_side<const P: u8>(
    items: Seq<ClearedItem<P>>,
    resolve: spec_fn(PostingRef) -> Option<posting::Movement>,
    side: Direction,
) -> int
    decreases items.len(),
{
    if items.len() == 0 {
        0
    } else {
        applied_to_side(items.drop_last(), resolve, side) + if resolve(
            items.last().posting,
        ) matches Some(m) && m.direction == side {
            items.last().applied.minor as int
        } else {
            0
        }
    }
}

/// True when an item applies a positive amount to a posting on the clearing's
/// account, in its currency and layer, within what is open on it.
pub open spec fn item_is_in_order<const P: u8>(
    events: Seq<EventFacts<P>>,
    clearing: ClearingFacts<P>,
    item: ClearedItem<P>,
    resolve: spec_fn(PostingRef) -> Option<posting::Movement>,
) -> bool {
    &&& item.applied.minor > 0
    &&& resolve(item.posting) matches Some(m) && {
        let open = m.minor - clearing::applied_sum(events, item.posting);
        &&& m.account == clearing.key.account
        &&& m.currency == clearing.key.currency
        &&& m.layer == clearing.key.layer
        &&& item.applied.minor <= open <= i64::MAX
    }
}

/// True when a clearing may be recorded: its identifier is new, it relates two or
/// more different postings, every item is in order, and what it applies to debits
/// equals what it applies to credits.
pub open spec fn may_be_recorded<const P: u8>(
    events: Seq<EventFacts<P>>,
    clearing: ClearingFacts<P>,
    resolve: spec_fn(PostingRef) -> Option<posting::Movement>,
) -> bool {
    &&& forall|i: int|
        0 <= i < events.len() ==> (#[trigger] events[i] matches EventFacts::Cleared(c) ==> c.id
            != clearing.id)
    &&& clearing.items.len() >= 2
    &&& forall|i: int, j: int|
        0 <= i < j < clearing.items.len() ==> (#[trigger] clearing.items[i]).posting != (
        #[trigger] clearing.items[j]).posting
    &&& forall|i: int|
        0 <= i < clearing.items.len() ==> item_is_in_order(
            events,
            clearing,
            #[trigger] clearing.items[i],
            resolve,
        )
    &&& applied_to_side(clearing.items, resolve, Direction::Debit) == applied_to_side(
        clearing.items,
        resolve,
        Direction::Credit,
    )
    &&& applied_to_side(clearing.items, resolve, Direction::Debit) <= i64::MAX
}

proof fn lemma_sides_grow<const P: u8>(
    items: Seq<ClearedItem<P>>,
    n: int,
    resolve: spec_fn(PostingRef) -> Option<posting::Movement>,
    side: Direction,
)
    requires
        0 <= n <= items.len(),
        forall|i: int| 0 <= i < items.len() ==> (#[trigger] items[i]).applied.minor > 0,
    ensures
        0 <= applied_to_side(items.take(n), resolve, side) <= applied_to_side(
            items,
            resolve,
            side,
        ),
    decreases items.len(),
{
    if items.len() == 0 {
        assert(items.take(n) =~= items);
    } else {
        let fewer = items.drop_last();
        assert(items.last() == items[items.len() - 1]);
        assert forall|i: int| 0 <= i < fewer.len() implies (#[trigger] fewer[i]).applied.minor
            > 0 by {
            assert(fewer[i] == items[i]);
        }
        if n < items.len() {
            lemma_sides_grow(fewer, n, resolve, side);
            assert(fewer.take(n) =~= items.take(n));
        } else {
            lemma_sides_grow(fewer, fewer.len() as int, resolve, side);
            assert(fewer.take(fewer.len() as int) =~= fewer);
            assert(items.take(n) =~= items);
        }
    }
}

proof fn lemma_sides_are_sums<const P: u8>(
    items: Seq<ClearedItem<P>>,
    n: int,
    resolve: spec_fn(PostingRef) -> Option<posting::Movement>,
)
    requires
        0 <= n <= items.len(),
        forall|i: int| 0 <= i < items.len() ==> (#[trigger] items[i]).applied.minor > 0,
        applied_to_side(items, resolve, Direction::Debit) <= i64::MAX,
        applied_to_side(items, resolve, Direction::Credit) <= i64::MAX,
    ensures
        clearing::sides_of::<P>(items, n, resolve).debits.minor == applied_to_side(
            items.take(n),
            resolve,
            Direction::Debit,
        ),
        clearing::sides_of::<P>(items, n, resolve).credits.minor == applied_to_side(
            items.take(n),
            resolve,
            Direction::Credit,
        ),
    decreases n,
{
    if n > 0 {
        lemma_sides_are_sums(items, n - 1, resolve);
        lemma_sides_grow(items, n, resolve, Direction::Debit);
        lemma_sides_grow(items, n, resolve, Direction::Credit);
        assert(items.take(n).drop_last() =~= items.take(n - 1));
        assert(items.take(n).last() == items[n - 1]);
    }
}

proof fn lemma_all_in_order<const P: u8>(
    events: Seq<EventFacts<P>>,
    clearing: ClearingFacts<P>,
    resolve: spec_fn(PostingRef) -> Option<posting::Movement>,
    i: int,
)
    requires
        may_be_recorded(events, clearing, resolve),
        0 <= i <= clearing.items.len(),
    ensures
        clearing::first_item_fault::<P>(events, clearing, i, resolve) is None,
    decreases clearing.items.len() - i,
{
    if i < clearing.items.len() {
        lemma_all_in_order(events, clearing, resolve, i + 1);
        let items = clearing.items;
        assert(item_is_in_order(events, clearing, items[i], resolve));
        assert forall|k: int| 0 <= k < items.len() implies (#[trigger] items[k]).applied.minor
            > 0 by {
            assert(item_is_in_order(events, clearing, items[k], resolve));
        }
        lemma_sides_are_sums(items, i, resolve);
        lemma_sides_are_sums(items, i + 1, resolve);
        lemma_sides_grow(items, i + 1, resolve, Direction::Debit);
        lemma_sides_grow(items, i + 1, resolve, Direction::Credit);
        lemma_sides_grow(items, i, resolve, Direction::Debit);
        lemma_sides_grow(items, i, resolve, Direction::Credit);
        assert(items.take(i + 1).drop_last() =~= items.take(i));
        assert(items.take(i + 1).last() == items[i]);
        assert(!clearing::applies_before(items, i, items[i].posting));
    }
}

proof fn lemma_accepted_sides<const P: u8>(
    events: Seq<EventFacts<P>>,
    clearing: ClearingFacts<P>,
    resolve: spec_fn(PostingRef) -> Option<posting::Movement>,
    n: int,
)
    requires
        forall|k: int|
            0 <= k < n ==> #[trigger] clearing::item_fault::<P>(events, clearing, k, resolve) is None,
        0 <= n <= clearing.items.len(),
    ensures
        clearing::sides_of::<P>(clearing.items, n, resolve).debits.minor == applied_to_side(
            clearing.items.take(n),
            resolve,
            Direction::Debit,
        ),
        clearing::sides_of::<P>(clearing.items, n, resolve).credits.minor == applied_to_side(
            clearing.items.take(n),
            resolve,
            Direction::Credit,
        ),
    decreases n,
{
    if n > 0 {
        lemma_accepted_sides(events, clearing, resolve, n - 1);
        assert(clearing::item_fault::<P>(events, clearing, n - 1, resolve) is None);
        let some = clearing.items.take(n);
        assert(some.drop_last() =~= clearing.items.take(n - 1));
        assert(some.last() == clearing.items[n - 1]);
    }
}

proof fn lemma_none_at_fault<const P: u8>(
    events: Seq<EventFacts<P>>,
    clearing: ClearingFacts<P>,
    resolve: spec_fn(PostingRef) -> Option<posting::Movement>,
)
    requires
        clearing::first_item_fault::<P>(events, clearing, 0, resolve) is None,
    ensures
        forall|k: int|
            0 <= k < clearing.items.len() ==> #[trigger] clearing::item_fault::<P>(
                events,
                clearing,
                k,
                resolve,
            ) is None,
{
    assert forall|k: int| 0 <= k < clearing.items.len() implies #[trigger] clearing::item_fault::<P>(
        events,
        clearing,
        k,
        resolve,
    ) is None by {
        clearing::lemma_no_item_fault::<P>(events, clearing, 0, k, resolve);
    }
}

/// A clearing is accepted exactly when it may be recorded: its identifier is new,
/// it has two or more items, however many, they name different postings, each
/// applied amount is positive and at most what is open on its posting, each
/// posting resolves and is on the clearing's account, currency and layer, and the
/// applied debits equal the applied credits.
pub proof fn law_clearings_are_accepted_exactly_when_in_order<const P: u8>(
    events: Seq<EventFacts<P>>,
    clearing: ClearingFacts<P>,
    resolve: spec_fn(PostingRef) -> Option<posting::Movement>,
)
    ensures
        clearing::clearing_fault::<P>(events, clearing, resolve) is None <==> may_be_recorded(
            events,
            clearing,
            resolve,
        ),
{
    let items = clearing.items;
    let n = items.len() as int;
    assert(items.take(n) =~= items);
    if may_be_recorded(events, clearing, resolve) {
        if clearing::recorded(events, clearing.id) {
            let i = choose|i: int| #[trigger] clearing::records(events, i, clearing.id);
            assert(events[i] is Cleared);
        }
        lemma_all_in_order(events, clearing, resolve, 0);
        lemma_none_at_fault(events, clearing, resolve);
        lemma_accepted_sides(events, clearing, resolve, n);
    }
    if clearing::clearing_fault::<P>(events, clearing, resolve) is None {
        assert forall|i: int| 0 <= i < events.len() implies (
        #[trigger] events[i] matches EventFacts::Cleared(c) ==> c.id != clearing.id) by {
            if events[i] is Cleared && (events[i]->Cleared_0).id == clearing.id {
                assert(clearing::records(events, i, clearing.id));
            }
        }
        assert forall|i: int, j: int| 0 <= i < j < items.len() implies (
        #[trigger] items[i]).posting != (#[trigger] items[j]).posting by {
            clearing::lemma_no_item_fault::<P>(events, clearing, 0, j, resolve);
            if items[i].posting == items[j].posting {
                assert(clearing::applies_before(items, j, items[j].posting));
            }
        }
        assert forall|i: int| 0 <= i < items.len() implies item_is_in_order(
            events,
            clearing,
            #[trigger] items[i],
            resolve,
        ) by {
            clearing::lemma_no_item_fault::<P>(events, clearing, 0, i, resolve);
        }
        lemma_none_at_fault(events, clearing, resolve);
        lemma_accepted_sides(events, clearing, resolve, n);
    }
}

proof fn lemma_fault_is_of_an_item<const P: u8>(
    events: Seq<EventFacts<P>>,
    clearing: ClearingFacts<P>,
    from: int,
    resolve: spec_fn(PostingRef) -> Option<posting::Movement>,
) -> (i: int)
    requires
        0 <= from,
        clearing::first_item_fault::<P>(events, clearing, from, resolve) is Some,
    ensures
        from <= i < clearing.items.len(),
        clearing::first_item_fault::<P>(events, clearing, from, resolve) == clearing::item_fault::<
            P,
        >(events, clearing, i, resolve),
        forall|k: int|
            from <= k < i ==> #[trigger] clearing::item_fault::<P>(events, clearing, k, resolve) is None,
    decreases clearing.items.len() - from,
{
    if clearing::item_fault::<P>(events, clearing, from, resolve) is Some {
        from
    } else {
        lemma_fault_is_of_an_item::<P>(events, clearing, from + 1, resolve)
    }
}

/// True when item `i` of a clearing is at fault in the way an error says, is the
/// first that is at fault, and is at fault in no way that is looked for earlier:
/// naming a posting again, applying nothing, naming no posting, being on another
/// account, currency or layer, and applying more than is open.
pub open spec fn names_a_faulty_item<const P: u8>(
    events: Seq<EventFacts<P>>,
    clearing: ClearingFacts<P>,
    resolve: spec_fn(PostingRef) -> Option<posting::Movement>,
    i: int,
    e: ClearingError,
) -> bool {
    let item = clearing.items[i];
    let found = resolve(item.posting);
    let m = found->0;
    let open = m.minor - clearing::applied_sum(events, item.posting);
    let named_before = exists|k: int|
        0 <= k < i && (#[trigger] clearing.items[k]).posting == item.posting;
    let applies = !named_before && item.applied.minor > 0;
    let on_account = applies && found is Some && m.account == clearing.key.account;
    let in_currency = on_account && m.currency == clearing.key.currency;
    let in_place = in_currency && m.layer == clearing.key.layer;
    &&& 0 <= i < clearing.items.len()
    &&& forall|k: int|
        0 <= k < i ==> item_is_in_order(events, clearing, #[trigger] clearing.items[k], resolve)
    &&& match e {
        ClearingError::DuplicateItem { posting } => posting == item.posting && named_before,
        ClearingError::NonPositiveApplication { posting } => posting == item.posting
            && !named_before && item.applied.minor <= 0,
        ClearingError::UnknownPosting { posting } => posting == item.posting && applies
            && found is None,
        ClearingError::WrongAccount { posting, expected } => posting == item.posting && expected
            == clearing.key.account && applies && found is Some && m.account != expected,
        ClearingError::WrongCurrency { posting, expected } => posting == item.posting && expected
            == clearing.key.currency && on_account && m.currency != expected,
        ClearingError::WrongLayer { posting, expected } => posting == item.posting && expected
            == clearing.key.layer && in_currency && m.layer != expected,
        ClearingError::OverApplied { posting, requested_minor, residual_minor, scale } => {
            &&& posting == item.posting
            &&& requested_minor == item.applied.minor
            &&& residual_minor == open
            &&& requested_minor > residual_minor
            &&& scale == P
            &&& in_place
        },
        ClearingError::Money(error) => {
            &&& error == MoneyError::Overflow
            &&& in_place
            &&& !(i64::MIN <= open <= i64::MAX) || (item.applied.minor <= open && applied_to_side(
                clearing.items.take(i + 1),
                resolve,
                m.direction,
            ) > i64::MAX)
        },
        _ => false,
    }
}

/// A clearing is refused for a reason that holds, and for the first one looked for:
/// the identifier was used before, there are too few items, an item is at fault in
/// the way the error says, or the two sums differ.
pub proof fn law_refused_clearings_name_what_is_wrong<const P: u8>(
    events: Seq<EventFacts<P>>,
    clearing: ClearingFacts<P>,
    resolve: spec_fn(PostingRef) -> Option<posting::Movement>,
)
    requires
        clearing::clearing_fault::<P>(events, clearing, resolve) is Some,
        clearing.items.len() <= usize::MAX,
    ensures
        clearing::clearing_fault::<P>(events, clearing, resolve)->0 is DuplicateId <==> exists|i: int|
            0 <= i < events.len() && (#[trigger] events[i] matches EventFacts::Cleared(c) && c.id
                == clearing.id),
        clearing::clearing_fault::<P>(events, clearing, resolve)->0 is Unbalanced ==> forall|i: int|
            0 <= i < clearing.items.len() ==> item_is_in_order(
                events,
                clearing,
                #[trigger] clearing.items[i],
                resolve,
            ),
        match clearing::clearing_fault::<P>(events, clearing, resolve)->0 {
            ClearingError::DuplicateId { id } => id == clearing.id && exists|i: int|
                0 <= i < events.len() && (#[trigger] events[i] matches EventFacts::Cleared(c)
                    && c.id == id),
            ClearingError::TooFewItems { count } => count == clearing.items.len() && count < 2,
            ClearingError::Unbalanced { debits_minor, credits_minor, scale } => {
                &&& debits_minor == applied_to_side(clearing.items, resolve, Direction::Debit)
                &&& credits_minor == applied_to_side(clearing.items, resolve, Direction::Credit)
                &&& debits_minor != credits_minor
                &&& scale == P
            },
            e => exists|i: int| #[trigger]
                names_a_faulty_item(events, clearing, resolve, i, e),
        },
{
    let items = clearing.items;
    if clearing::recorded(events, clearing.id) {
        let i = choose|i: int| #[trigger] clearing::records(events, i, clearing.id);
        assert(events[i] is Cleared);
    } else {
        assert forall|i: int| 0 <= i < events.len() implies !(
        #[trigger] events[i] matches EventFacts::Cleared(c) && c.id == clearing.id) by {
            assert(!clearing::records(events, i, clearing.id));
        }
    }
    if !clearing::recorded(events, clearing.id) && items.len() >= 2 {
        if clearing::first_item_fault::<P>(events, clearing, 0, resolve) is Some {
            let i = lemma_fault_is_of_an_item::<P>(events, clearing, 0, resolve);
            let e = clearing::item_fault::<P>(events, clearing, i, resolve)->0;
            lemma_accepted_sides(events, clearing, resolve, i);
            let some = items.take(i + 1);
            assert(some.drop_last() =~= items.take(i));
            assert(some.last() == items[i]);
            assert forall|k: int| 0 <= k < i implies item_is_in_order(
                events,
                clearing,
                #[trigger] items[k],
                resolve,
            ) by {
                assert(clearing::item_fault::<P>(events, clearing, k, resolve) is None);
            }
            assert(names_a_faulty_item(events, clearing, resolve, i, e));
        } else {
            assert(items.take(items.len() as int) =~= items);
            lemma_none_at_fault(events, clearing, resolve);
            lemma_accepted_sides(events, clearing, resolve, items.len() as int);
            assert forall|i: int| 0 <= i < items.len() implies item_is_in_order(
                events,
                clearing,
                #[trigger] items[i],
                resolve,
            ) by {
                assert(clearing::item_fault::<P>(events, clearing, i, resolve) is None);
            }
        }
    }
}

// ── what is applied ─────────────────────────────────────────────────────────

/// Nothing is applied to start with.
pub proof fn law_nothing_is_applied_at_first<const P: u8>(posting: PostingRef)
    ensures
        clearing::applied_sum::<P>(Seq::empty(), posting) == 0,
{
}

/// An accepted clearing applies to each posting it names what its item says, on
/// top of what was applied before, and nothing to any other.
pub proof fn law_clearing_applies_its_items<const P: u8>(
    events: Seq<EventFacts<P>>,
    clearing: ClearingFacts<P>,
    resolve: spec_fn(PostingRef) -> Option<posting::Movement>,
    posting: PostingRef,
)
    requires
        clearing::sound_events(events),
        may_be_recorded(events, clearing, resolve),
    ensures
        ({
            let after = events.push(EventFacts::Cleared(clearing));
            let (was, is) = (
                clearing::applied_sum(events, posting),
                clearing::applied_sum(after, posting),
            );
            &&& forall|i: int|
                0 <= i < clearing.items.len() && (#[trigger] clearing.items[i]).posting == posting
                    ==> is == was + clearing.items[i].applied.minor
            &&& (forall|i: int|
                0 <= i < clearing.items.len() ==> (#[trigger] clearing.items[i]).posting
                    != posting) ==> is == was
            &&& clearing::sound_events(after)
            &&& clearing::recorded(after, clearing.id)
            &&& !clearing::released(after, clearing.id)
        }),
{
    law_clearings_are_accepted_exactly_when_in_order(events, clearing, resolve);
    let items = clearing.items;
    assert forall|i: int| 0 <= i < items.len() implies (#[trigger] items[i]).applied.minor > 0 by {
        assert(item_is_in_order(events, clearing, items[i], resolve));
    }
    assert(clearing::sound_items(items));
    clearing::lemma_record(events, clearing);
    clearing::lemma_item_amount(items, items.len() as int, posting);
    assert(items.take(items.len() as int) =~= items);
    let after = events.push(EventFacts::Cleared(clearing));
    assert(clearing::applied_sum(after, posting) == clearing::applied_sum(events, posting)
        + clearing::item_amount(items, posting));
    assert(clearing::recorded(after, clearing.id));
    if clearing::released(after, clearing.id) {
        assert(clearing::released(events, clearing.id));
        let i = choose|i: int| #[trigger] clearing::releases(events, i, clearing.id);
        assert(clearing::recorded(events, clearing.id));
    }
    if forall|i: int| 0 <= i < items.len() ==> (#[trigger] items[i]).posting != posting {
        assert(!clearing::applies_before(items, items.len() as int, posting));
    }
}

/// A clearing can be released exactly when it was recorded and has not been
/// released, and releasing it takes back from each posting what it had applied.
pub proof fn law_resets_take_back_what_was_applied<const P: u8>(
    events: Seq<EventFacts<P>>,
    id: ClearingId,
    on: Date,
    posting: PostingRef,
)
    requires
        clearing::sound_events(events),
    ensures
        clearing::recorded(events, id) <==> exists|k: int|
            0 <= k < events.len() && (#[trigger] events[k] matches EventFacts::Cleared(c) && c.id
                == id),
        clearing::released(events, id) <==> exists|k: int|
            0 <= k < events.len() && (#[trigger] events[k] matches EventFacts::Reset {
                clearing,
                ..
            } && clearing == id),
        clearing::recorded(events, id) && !clearing::released(events, id) ==> {
            let after = events.push(EventFacts::Reset { clearing: id, on });
            let (was, is) = (
                clearing::applied_sum(events, posting),
                clearing::applied_sum(after, posting),
            );
            &&& clearing::released(after, id)
            &&& clearing::sound_events(after)
            &&& forall|k: int, i: int|
                0 <= k < events.len() && events[k] is Cleared && (events[k]->Cleared_0).id == id
                    && 0 <= i < (events[k]->Cleared_0).items.len() && (
                #[trigger] (events[k]->Cleared_0).items[i]).posting == posting ==> is == was - (
                events[k]->Cleared_0).items[i].applied.minor
            &&& forall|k: int|
                0 <= k < events.len() && (#[trigger] events[k]) is Cleared && (
                events[k]->Cleared_0).id == id && (forall|i: int|
                    0 <= i < (events[k]->Cleared_0).items.len() ==> (
                    #[trigger] (events[k]->Cleared_0).items[i]).posting != posting) ==> is == was
        },
{
    if clearing::recorded(events, id) {
        let k = choose|k: int| #[trigger] clearing::records(events, k, id);
        assert(events[k] is Cleared);
    }
    if exists|k: int|
        0 <= k < events.len() && (#[trigger] events[k] matches EventFacts::Cleared(c) && c.id
            == id) {
        let k = choose|k: int|
            0 <= k < events.len() && (#[trigger] events[k] matches EventFacts::Cleared(c) && c.id
                == id);
        assert(clearing::records(events, k, id));
    }
    if clearing::released(events, id) {
        let k = choose|k: int| #[trigger] clearing::releases(events, k, id);
        assert(events[k] is Reset);
    }
    if exists|k: int|
        0 <= k < events.len() && (#[trigger] events[k] matches EventFacts::Reset { clearing, .. }
            && clearing == id) {
        let k = choose|k: int|
            0 <= k < events.len() && (#[trigger] events[k] matches EventFacts::Reset {
                clearing,
                ..
            } && clearing == id);
        assert(clearing::releases(events, k, id));
    }
    if clearing::recorded(events, id) && !clearing::released(events, id) {
        let k = choose|k: int| #[trigger] clearing::records(events, k, id);
        let items = (events[k]->Cleared_0).items;
        clearing::lemma_released(events, k, on);
        clearing::lemma_item_amount(items, items.len() as int, posting);
        assert(items.take(items.len() as int) =~= items);
        let after = events.push(EventFacts::Reset { clearing: id, on });
        assert(clearing::applied_sum(after, posting) == clearing::applied_sum(events, posting)
            - clearing::item_amount(items, posting));
        assert(clearing::released(after, id));
        assert forall|j: int|
            0 <= j < events.len() && events[j] is Cleared && (#[trigger] events[j]->Cleared_0).id
                == id implies j == k by {
            assert(clearing::records(events, j, id));
        }
        if forall|i: int| 0 <= i < items.len() ==> (#[trigger] items[i]).posting != posting {
            assert(!clearing::applies_before(items, items.len() as int, posting));
        }
    }
}

// ── open items among candidates ─────────────────────────────────────────────

/// True when an open item shows the posting it names: its side and amount, what is
/// applied to it and what is left, which is more than nothing.
pub open spec fn is_left_open<const P: u8>(
    events: Seq<EventFacts<P>>,
    resolve: spec_fn(PostingRef) -> Option<posting::Movement>,
    item: OpenItem<P>,
) -> bool {
    let applied = clearing::applied_sum(events, item.posting);
    &&& resolve(item.posting) matches Some(m) && {
        &&& item.direction == m.direction
        &&& i64::MIN <= m.minor <= i64::MAX ==> item.original.minor == m.minor
        &&& i64::MIN <= applied <= i64::MAX ==> item.applied.minor == applied
        &&& item.residual.minor == m.minor - applied
    }
    &&& item.residual.minor > 0
}

/// A posting is open exactly when it is found and less is applied to it than it
/// moved; an open item shows it and what is left.
pub proof fn law_postings_are_open_while_something_is_left<const P: u8>(
    events: Seq<EventFacts<P>>,
    posting: PostingRef,
    resolve: spec_fn(PostingRef) -> Option<posting::Movement>,
)
    ensures
        match clearing::open_item_of::<P>(events, posting, resolve) {
            Ok(Some(item)) => item.posting == posting && is_left_open(events, resolve, item),
            Ok(None) => resolve(posting) matches Some(m) && m.minor <= clearing::applied_sum(
                events,
                posting,
            ),
            Err(ClearingError::UnknownPosting { posting: named }) => named == posting && resolve(
                posting,
            ) is None,
            Err(ClearingError::Money(e)) => e == MoneyError::Overflow && (resolve(
                posting,
            ) matches Some(m) && !(i64::MIN <= m.minor - clearing::applied_sum(events, posting)
                <= i64::MAX)),
            Err(_) => false,
        },
{
}

/// True when a candidate is found and something is left on it.
pub open spec fn has_more<const P: u8>(
    events: Seq<EventFacts<P>>,
    resolve: spec_fn(PostingRef) -> Option<posting::Movement>,
    posting: PostingRef,
) -> bool {
    resolve(posting) matches Some(m) && m.minor > clearing::applied_sum(events, posting)
}

/// The open items among candidates are the candidates with something left on them,
/// each shown, in the order given. They can be listed exactly when every candidate
/// is found and what is left on it is an amount.
pub proof fn law_open_candidates_are_listed<const P: u8>(
    events: Seq<EventFacts<P>>,
    candidates: Seq<PostingRef>,
    n: int,
    resolve: spec_fn(PostingRef) -> Option<posting::Movement>,
)
    requires
        0 <= n <= candidates.len(),
    ensures
        clearing::open_among::<P>(events, candidates, n, resolve) is Ok <==> (forall|j: int|
            0 <= j < n ==> (resolve(#[trigger] candidates[j]) matches Some(m) && i64::MIN <= m.minor
                - clearing::applied_sum(events, candidates[j]) <= i64::MAX)),
        clearing::open_among::<P>(events, candidates, n, resolve) matches Ok(open) ==> {
            &&& open.map_values(|item: OpenItem<P>| item.posting) == candidates.take(n).filter(
                |posting: PostingRef| has_more(events, resolve, posting),
            )
            &&& forall|x: int|
                0 <= x < open.len() ==> is_left_open(events, resolve, #[trigger] open[x])
        },
    decreases n,
{
    reveal(Seq::filter);
    let named = |item: OpenItem<P>| item.posting;
    let left = |posting: PostingRef| has_more(events, resolve, posting);
    let some = candidates.take(n);
    if n > 0 {
        law_open_candidates_are_listed::<P>(events, candidates, n - 1, resolve);
        assert(some.drop_last() =~= candidates.take(n - 1));
        assert(some.last() == candidates[n - 1]);
        law_postings_are_open_while_something_is_left::<P>(events, candidates[n - 1], resolve);
        if clearing::open_among::<P>(events, candidates, n - 1, resolve) is Ok {
            let before = clearing::open_among::<P>(events, candidates, n - 1, resolve)->Ok_0;
            if clearing::open_among::<P>(events, candidates, n, resolve) is Ok {
                let open = clearing::open_among::<P>(events, candidates, n, resolve)->Ok_0;
                if open.len() > before.len() {
                    assert(open.map_values(named) =~= before.map_values(named).push(
                        candidates[n - 1],
                    ));
                }
                assert forall|x: int| 0 <= x < open.len() implies is_left_open(
                    events,
                    resolve,
                    #[trigger] open[x],
                ) by {
                    if x < before.len() {
                        assert(open[x] == before[x]);
                    }
                }
            }
        }
    } else {
        assert(Seq::<OpenItem<P>>::empty().map_values(named) =~= some.filter(left));
    }
}

/// The clearings counted are those recorded, whether or not they were released.
pub proof fn law_clearings_are_counted_once_recorded<const P: u8>(events: Seq<EventFacts<P>>)
    ensures
        clearing::clearing_count(events) == events.filter(
            |e: EventFacts<P>| e is Cleared,
        ).len(),
    decreases events.len(),
{
    reveal(Seq::filter);
    if events.len() > 0 {
        law_clearings_are_counted_once_recorded(events.drop_last());
    }
}

pub proof fn lemma_every_position_is_taken(order: Seq<int>, i: int)
    requires
        forall|k: int| 0 <= k < order.len() ==> 0 <= #[trigger] order[k] < order.len(),
        order.no_duplicates(),
        0 <= i < order.len(),
    ensures
        order.contains(i),
{
    let n = order.len() as int;
    let taken = order.to_set();
    let all = vstd::set_lib::set_int_range(0, n);
    vstd::set_lib::lemma_int_range(0, n);
    order.unique_seq_to_set();
    assert forall|x: int| taken.contains(x) implies all.contains(x) by {
        let k = choose|k: int| 0 <= k < order.len() && order[k] == x;
    }
    assert(taken.subset_of(all));
    vstd::set_lib::lemma_subset_equality(taken, all);
    assert(all.contains(i));
}

/// Items in the order of their postings are the same items, ascending by entry and,
/// within one, by position.
pub proof fn law_items_are_listed_by_reference<const P: u8>(
    items: Seq<OpenItem<P>>,
    listed: Seq<OpenItem<P>>,
)
    requires
        clearing::in_reference_order(items, listed),
    ensures
        listed.len() == items.len(),
        forall|x: int| 0 <= x < listed.len() ==> items.contains(#[trigger] listed[x]),
        forall|i: int| 0 <= i < items.len() ==> listed.contains(#[trigger] items[i]),
        forall|x: int, y: int|
            0 <= x < y < listed.len() ==> {
                let (a, b) = ((#[trigger] listed[x]).posting, (#[trigger] listed[y]).posting);
                a.entry.value < b.entry.value || (a.entry.value == b.entry.value && a.index
                    <= b.index)
            },
{
    let order = choose|order: Seq<int>| #[trigger]
        clearing::by_reference(items, order) && listed == clearing::items_at(items, order);
    assert forall|x: int| 0 <= x < listed.len() implies items.contains(#[trigger] listed[x]) by {
        assert(items[order[x]] == listed[x]);
    }
    assert(order.no_duplicates()) by {
        assert forall|j: int, k: int| 0 <= j < k < order.len() implies order[j] != order[k] by {
            let (a, b) = (items[order[j]].posting, items[order[k]].posting);
            assert(PostingRef::before(a, b) || (a == b && order[j] < order[k]));
            PostingRef::lemma_irreflexive(a);
        }
    }
    assert forall|i: int| 0 <= i < items.len() implies listed.contains(#[trigger] items[i]) by {
        lemma_every_position_is_taken(order, i);
        let k = choose|k: int| 0 <= k < order.len() && order[k] == i;
        assert(listed[k] == items[i]);
    }
    assert forall|x: int, y: int| 0 <= x < y < listed.len() implies {
        let (a, b) = ((#[trigger] listed[x]).posting, (#[trigger] listed[y]).posting);
        a.entry.value < b.entry.value || (a.entry.value == b.entry.value && a.index <= b.index)
    } by {
        let (a, b) = (items[order[x]].posting, items[order[y]].posting);
        assert(PostingRef::before(a, b) || a == b);
    }
}

} // verus!
