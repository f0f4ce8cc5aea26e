//! When days are open, and how periods are opened, closed and sealed.

use crate::ordered;
use crate::period::{self, Period, PeriodError, PeriodFacts, PeriodState};
use vstd::prelude::*;
use vstd::utf8::*;

verus! {

/// True when no day falls inside two periods.
pub open spec fn apart(periods: Map<Seq<char>, PeriodFacts>) -> bool {
    forall|a: Seq<char>, b: Seq<char>|
        #![trigger periods.contains_key(a), periods.contains_key(b)]
        periods.contains_key(a) && periods.contains_key(b) && a != b ==> periods[a].end@
            < periods[b].start@ || periods[b].end@ < periods[a].start@
}

/// True when a sealed period ends on a day or after it.
pub open spec fn below_a_seal(periods: Map<Seq<char>, PeriodFacts>, day: int) -> bool {
    exists|id: Seq<char>| #[trigger]
        periods.contains_key(id) && periods[id].state == PeriodState::Sealed && day
            <= periods[id].end@
}

/// True when a day falls inside a period.
pub open spec fn falls_inside(
    periods: Map<Seq<char>, PeriodFacts>,
    id: Seq<char>,
    day: int,
) -> bool {
    periods.contains_key(id) && periods[id].start@ <= day && day <= periods[id].end@
}

/// True when a state is that of a day: sealed on and before the last day of any
/// sealed period, otherwise the state of the period around it, and open where there
/// is none.
pub open spec fn governs(
    periods: Map<Seq<char>, PeriodFacts>,
    day: int,
    state: PeriodState,
) -> bool {
    if below_a_seal(periods, day) {
        state == PeriodState::Sealed
    } else {
        ||| exists|id: Seq<char>| #[trigger]
            falls_inside(periods, id, day) && state == periods[id].state
        ||| (forall|id: Seq<char>| !#[trigger] falls_inside(periods, id, day)) && state
            == PeriodState::Open
    }
}

/// Each day has one state, and it is the one that governs it.
pub proof fn law_one_state_governs_each_day(
    periods: Map<Seq<char>, PeriodFacts>,
    day: int,
    state: PeriodState,
)
    requires
        apart(periods),
    ensures
        period::governing_state(periods, day) == state <==> governs(periods, day, state),
{
    let found = period::governing_state(periods, day);
    if period::sealed_on(periods, day) {
        let id = choose|id: Seq<char>| #[trigger]
            periods.contains_key(id) && periods[id].state is Sealed && day <= periods[id].end@;
        assert(periods.contains_key(id) && periods[id].state == PeriodState::Sealed);
        assert(below_a_seal(periods, day));
    } else {
        assert(!below_a_seal(periods, day)) by {
            if below_a_seal(periods, day) {
                let id = choose|id: Seq<char>| #[trigger]
                    periods.contains_key(id) && periods[id].state == PeriodState::Sealed && day
                        <= periods[id].end@;
                assert(periods.contains_key(id) && periods[id].state is Sealed);
            }
        }
        if exists|id: Seq<char>| #[trigger]
            periods.contains_key(id) && period::covers(periods[id], day) {
            let id = choose|id: Seq<char>| #[trigger]
                periods.contains_key(id) && period::covers(periods[id], day);
            assert(falls_inside(periods, id, day));
            assert forall|other: Seq<char>| #[trigger] falls_inside(
                periods,
                other,
                day,
            ) implies other == id by {
                assert(periods.contains_key(other) && periods.contains_key(id));
            }
        } else {
            assert forall|id: Seq<char>| !#[trigger] falls_inside(periods, id, day) by {
                if falls_inside(periods, id, day) {
                    assert(periods.contains_key(id) && period::covers(periods[id], day));
                }
            }
        }
    }
}

/// The books are sealed through the latest day on which a sealed period ends: a day
/// is sealed exactly when it is no later.
pub proof fn law_the_watermark_is_the_last_sealed_day(
    periods: Map<Seq<char>, PeriodFacts>,
    mark: int,
    day: int,
)
    requires
        period::is_watermark(periods, mark),
    ensures
        period::sealed_on(periods, day) <==> day <= mark,
        below_a_seal(periods, day) <==> day <= mark,
{
    let last = choose|id: Seq<char>| #[trigger]
        periods.contains_key(id) && periods[id].state is Sealed && periods[id].end@ == mark;
    assert(periods.contains_key(last));
    if period::sealed_on(periods, day) {
        let id = choose|id: Seq<char>| #[trigger]
            periods.contains_key(id) && periods[id].state is Sealed && day <= periods[id].end@;
        assert(periods.contains_key(id) && periods[id].state == PeriodState::Sealed);
    }
    if below_a_seal(periods, day) {
        let id = choose|id: Seq<char>| #[trigger]
            periods.contains_key(id) && periods[id].state == PeriodState::Sealed && day
                <= periods[id].end@;
        assert(periods.contains_key(id) && periods[id].state is Sealed);
    }
    if day <= mark {
        assert(periods.contains_key(last) && periods[last].state == PeriodState::Sealed);
    }
}

/// A period moves from open to closing, and from closing back to open or on to
/// sealed. No other move is allowed, and none out of sealed.
pub proof fn law_periods_move_through_closing(from: PeriodState, to: PeriodState)
    ensures
        period::may_become(from, to) <==> (from, to) == (PeriodState::Open, PeriodState::Closing)
            || (from, to) == (PeriodState::Closing, PeriodState::Open) || (from, to) == (
            PeriodState::Closing,
            PeriodState::Sealed,
        ),
{
}

/// A period is admitted exactly when its identifier is new and no period shares a
/// day with it. Periods that were apart stay apart.
pub proof fn law_periods_are_admitted_when_apart(
    periods: Map<Seq<char>, PeriodFacts>,
    period: PeriodFacts,
)
    requires
        apart(periods),
        period.start@ <= period.end@,
        forall|id: Seq<char>| #[trigger]
            periods.contains_key(id) ==> periods[id].start@ <= periods[id].end@,
    ensures
        period::admits(periods, period) <==> !periods.contains_key(period.id) && forall|
            id: Seq<char>,
            day: int,
        |
            #![trigger falls_inside(periods, id, day)]
            falls_inside(periods, id, day) ==> !(period.start@ <= day <= period.end@),
        period::admits(periods, period) ==> apart(periods.insert(period.id, period)),
{
    if period::admits(periods, period) {
        assert forall|id: Seq<char>, day: int|
            #![trigger falls_inside(periods, id, day)]
            falls_inside(periods, id, day) implies !(period.start@ <= day <= period.end@) by {
            assert(periods.contains_key(id));
            assert(!period::overlapping(periods[id], period));
        }
        let after = periods.insert(period.id, period);
        assert forall|a: Seq<char>, b: Seq<char>|
            #![trigger after.contains_key(a), after.contains_key(b)]
            after.contains_key(a) && after.contains_key(b) && a != b implies after[a].end@
            < after[b].start@ || after[b].end@ < after[a].start@ by {
            assert(a != period.id ==> periods.contains_key(a));
            assert(b != period.id ==> periods.contains_key(b));
        }
    }
    if !periods.contains_key(period.id) && forall|id: Seq<char>, day: int|
        #![trigger falls_inside(periods, id, day)]
        falls_inside(periods, id, day) ==> !(period.start@ <= day <= period.end@) {
        assert forall|id: Seq<char>| #[trigger]
            periods.contains_key(id) implies !period::overlapping(periods[id], period) by {
            if period::overlapping(periods[id], period) {
                let day = if periods[id].start@ >= period.start@ {
                    periods[id].start@
                } else {
                    period.start@
                };
                assert(falls_inside(periods, id, day));
            }
        }
    }
}

/// A refused period is refused for a reason that holds: another has its identifier,
/// or shares a day with it.
pub proof fn law_refused_periods_name_what_is_wrong(
    periods: Map<Seq<char>, PeriodFacts>,
    period: PeriodFacts,
    e: PeriodError,
)
    requires
        period::refuses_period(periods, period, e),
        period.start@ <= period.end@,
        forall|id: Seq<char>| #[trigger]
            periods.contains_key(id) ==> periods[id].start@ <= periods[id].end@,
    ensures
        match e {
            PeriodError::Duplicate { id } => id@ == period.id && periods.contains_key(id@),
            PeriodError::Overlap { id, existing } => {
                &&& id@ == period.id
                &&& !periods.contains_key(period.id)
                &&& exists|day: int| #[trigger]
                    falls_inside(periods, existing@, day) && period.start@ <= day <= period.end@
                &&& forall|other: Seq<char>, day: int| #[trigger]
                    falls_inside(periods, other, day) && period.start@ <= day <= period.end@
                        ==> other == existing@ || ordered::bytes_before(
                        encode_utf8(existing@),
                        encode_utf8(other),
                    )
            },
            _ => false,
        },
{
    if let PeriodError::Overlap { id, existing } = e {
        let day = if periods[existing@].start@ >= period.start@ {
            periods[existing@].start@
        } else {
            period.start@
        };
        assert(falls_inside(periods, existing@, day));
        assert forall|other: Seq<char>, day: int| #[trigger]
            falls_inside(periods, other, day) && period.start@ <= day
                <= period.end@ implies other == existing@ || ordered::bytes_before(
            encode_utf8(existing@),
            encode_utf8(other),
        ) by {
            assert(periods.contains_key(other) && period::overlapping(periods[other], period));
        }
    }
}

/// Two periods overlap exactly when a day falls inside both, and a day falls inside
/// a period from its first day through its last.
pub proof fn law_periods_overlap_when_they_share_a_day(a: PeriodFacts, b: PeriodFacts, day: int)
    requires
        a.start@ <= a.end@,
        b.start@ <= b.end@,
    ensures
        period::covers(a, day) <==> a.start@ <= day && day <= a.end@,
        period::overlapping(a, b) <==> exists|d: int| #[trigger]
            period::covers(a, d) && period::covers(b, d),
{
    if period::overlapping(a, b) {
        let d = if a.start@ >= b.start@ {
            a.start@
        } else {
            b.start@
        };
        assert(period::covers(a, d) && period::covers(b, d));
    }
}

/// The periods a list defines are those of the list, each under its own identifier,
/// as long as no two share one.
pub proof fn law_lists_define_their_periods(list: Seq<Period>, n: int, i: int)
    requires
        0 <= i < n <= list.len(),
        forall|j: int, k: int|
            0 <= j < k < n ==> (#[trigger] list[j])@.id != (#[trigger] list[k])@.id,
    ensures
        period::defined(list, n).contains_key(list[i]@.id),
        period::defined(list, n)[list[i]@.id] == list[i]@,
        forall|id: Seq<char>| #[trigger]
            period::defined(list, n).contains_key(id) ==> exists|j: int|
                0 <= j < n && (#[trigger] list[j])@.id == id,
    decreases n,
{
    if i < n - 1 {
        law_lists_define_their_periods(list, n - 1, i);
    } else if n > 1 {
        law_lists_define_their_periods(list, n - 1, 0);
    }
    assert forall|id: Seq<char>| #[trigger] period::defined(list, n).contains_key(id) implies exists|
        j: int,
    | 0 <= j < n && (#[trigger] list[j])@.id == id by {
        if id == list[n - 1]@.id {
            assert(list[n - 1]@.id == id);
        } else {
            assert(period::defined(list, n - 1).contains_key(id));
            if n > 1 {
                let j = choose|j: int| 0 <= j < n - 1 && (#[trigger] list[j])@.id == id;
                assert(list[j]@.id == id);
            }
        }
    }
}

/// A period may be sealed exactly when it is defined, is closing, and every period
/// that starts before it is sealed.
pub proof fn law_periods_are_sealed_in_order(
    periods: Map<Seq<char>, PeriodFacts>,
    id: Seq<char>,
)
    ensures
        period::sealable(periods, id) <==> {
            &&& periods.contains_key(id)
            &&& periods[id].state == PeriodState::Closing
            &&& forall|other: Seq<char>| #[trigger]
                periods.contains_key(other) && periods[other].start@ < periods[id].start@
                    ==> periods[other].state == PeriodState::Sealed
        },
{
    if period::sealable(periods, id) {
        assert forall|other: Seq<char>| #[trigger]
            periods.contains_key(other) && periods[other].start@
                < periods[id].start@ implies periods[other].state == PeriodState::Sealed by {
            assert(!period::is_due_before(periods, other, id));
        }
    }
}

/// Sealing is refused for a reason that holds: the period is not defined, is not
/// closing, or comes after one that is not sealed, the earliest such being named.
pub proof fn law_refused_sealings_name_what_is_wrong(
    periods: Map<Seq<char>, PeriodFacts>,
    id: Seq<char>,
    e: PeriodError,
)
    requires
        period::refuses_sealing(periods, id, e),
    ensures
        match e {
            PeriodError::Unknown { id: named } => named@ == id && !periods.contains_key(id),
            PeriodError::NotClosing { id: named, state } => named@ == id && periods.contains_key(
                id,
            ) && state == periods[id].state && state != PeriodState::Closing,
            PeriodError::UnsealedPredecessor { id: named, predecessor } => {
                let other = predecessor@;
                &&& named@ == id
                &&& periods.contains_key(other)
                &&& periods[other].state != PeriodState::Sealed
                &&& periods[other].start@ < periods[id].start@
                &&& forall|x: Seq<char>| #[trigger]
                    periods.contains_key(x) && periods[x].state != PeriodState::Sealed
                        ==> periods[other].start@ <= periods[x].start@
            },
            _ => false,
        },
{
    if let PeriodError::UnsealedPredecessor { id: named, predecessor } = e {
        let other = predecessor@;
        assert forall|x: Seq<char>| #[trigger]
            periods.contains_key(x) && periods[x].state
                != PeriodState::Sealed implies periods[other].start@ <= periods[x].start@ by {
            if periods[x].start@ < periods[id].start@ {
                assert(period::is_due_before(periods, x, id));
            }
        }
    }
}

} // verus!
