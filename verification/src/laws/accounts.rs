//! Which paths and accounts are accepted, and how they are found again.

use crate::account::{self, AccountError, AccountFacts, BalanceLimit, Binding};
use crate::laws::fields;
use crate::laws::validation;
use crate::text;
use vstd::prelude::*;

verus! {

// ── paths ───────────────────────────────────────────────────────────────────

/// True of a segment that a path may have.
pub open spec fn is_segment(s: Seq<char>) -> bool {
    1 <= s.len() <= 64 && !fields::has_controls(s)
}

proof fn lemma_segment(s: Seq<char>, position: int)
    ensures
        account::segment_fault(s, position) is None <==> is_segment(s),
        match account::segment_fault(s, position) {
            None => true,
            Some(AccountError::EmptySegment { position: at }) => s.len() == 0 && at
                == position as usize,
            Some(AccountError::SegmentTooLong { position: at }) => s.len() > 64 && at
                == position as usize,
            Some(AccountError::ControlCharacter { position: at }) => 1 <= s.len() <= 64
                && fields::has_controls(s) && at == position as usize,
            Some(_) => false,
        },
{
    fields::law_labels_are_short_and_plain(s);
    if text::has_control(s) {
        let i = choose|i: int| 0 <= i < s.len() && text::control(#[trigger] s[i]);
        fields::law_control_characters_come_in_two_runs(s[i]);
        assert(fields::has_controls(s)) by {
            assert((s[i] as int) < 0x20 || 0x7f <= s[i] as int <= 0x9f);
        }
    }
    if fields::has_controls(s) {
        let i = choose|i: int|
            0 <= i < s.len() && ((#[trigger] s[i] as int) < 0x20 || 0x7f <= s[i] as int <= 0x9f);
        fields::law_control_characters_come_in_two_runs(s[i]);
        assert(text::control(s[i]));
    }
}

/// True of segments that make a path: one to sixteen of them, each of one to
/// sixty-four characters, none of those a control character.
pub open spec fn makes_a_path(segments: Seq<Seq<char>>) -> bool {
    &&& 1 <= segments.len() <= 16
    &&& forall|i: int| 0 <= i < segments.len() ==> is_segment(#[trigger] segments[i])
}

proof fn lemma_first_fault(segments: Seq<Seq<char>>, from: int)
    requires
        0 <= from <= segments.len() <= 16,
    ensures
        match account::first_fault(segments, from) {
            None => forall|i: int|
                from <= i < segments.len() ==> is_segment(#[trigger] segments[i]),
            Some(e) => exists|i: int| #[trigger] is_first_fault(segments, from, i, e),
        },
    decreases segments.len() - from,
{
    if from < segments.len() {
        lemma_segment(segments[from], from);
        lemma_first_fault(segments, from + 1);
        if account::segment_fault(segments[from], from) is Some {
            assert(is_first_fault(
                segments,
                from,
                from,
                account::segment_fault(segments[from], from)->0,
            ));
        } else if account::first_fault(segments, from + 1) is Some {
            let e = account::first_fault(segments, from + 1)->0;
            let i = choose|i: int| #[trigger] is_first_fault(segments, from + 1, i, e);
            assert(is_first_fault(segments, from, i, e));
        }
    }
}

/// True when segment `i` is the first from `from` on that no path may have, and an
/// error says so of it.
pub open spec fn is_first_fault(
    segments: Seq<Seq<char>>,
    from: int,
    i: int,
    e: AccountError,
) -> bool {
    &&& from <= i < segments.len()
    &&& forall|k: int| from <= k < i ==> is_segment(#[trigger] segments[k])
    &&& match e {
        AccountError::EmptySegment { position } => position == i && segments[i].len() == 0,
        AccountError::SegmentTooLong { position } => position == i && segments[i].len() > 64,
        AccountError::ControlCharacter { position } => position == i && 1 <= segments[i].len()
            <= 64 && fields::has_controls(segments[i]),
        _ => false,
    }
}

/// Segments make a path exactly when there are one to sixteen of them and each is
/// one to sixty-four plain characters. Otherwise the error says which of these is
/// broken, naming the first segment that breaks it.
pub proof fn law_paths_are_shallow_and_plain(segments: Seq<Seq<char>>)
    ensures
        account::is_path(segments) <==> makes_a_path(segments),
        match account::path_fault(segments) {
            None => true,
            Some(AccountError::Empty) => segments.len() == 0,
            Some(AccountError::TooDeep) => segments.len() > 16,
            Some(e) => 1 <= segments.len() <= 16 && exists|i: int| #[trigger]
                is_first_fault(segments, 0, i, e),
        },
{
    if 1 <= segments.len() <= 16 {
        lemma_first_fault(segments, 0);
        if account::first_fault(segments, 0) is Some {
            let e = account::first_fault(segments, 0)->0;
            let i = choose|i: int| #[trigger] is_first_fault(segments, 0, i, e);
            assert(!is_segment(segments[i]));
        }
    }
}

/// Text is read as the segments between its colons: it is accepted exactly when
/// they make a path, and for every run of segments without a colon in them the text
/// that joins them with colons is read as those segments.
pub proof fn law_paths_are_read_between_colons(s: Seq<char>, segments: Seq<Seq<char>>)
    requires
        segments.len() >= 1,
        forall|i: int| 0 <= i < segments.len() ==> !(#[trigger] segments[i]).contains(':'),
    ensures
        account::parse_fault(s) is None <==> s.len() > 0 && makes_a_path(
            account::split_segments(s),
        ),
        s.len() == 0 ==> account::parse_fault(s) == Some(AccountError::Empty),
        account::split_segments(account::join_segments(segments)) == segments,
        account::join_segments(account::split_segments(s)) == s,
        account::join_segments(seq![segments[0]]) == segments[0],
        forall|last: Seq<char>|
            #[trigger] account::join_segments(segments.push(last)) == account::join_segments(
                segments,
            ).push(':') + last,
{
    law_paths_are_shallow_and_plain(account::split_segments(s));
    assert(account::separable(segments)) by {
        assert forall|i: int| 0 <= i < segments.len() implies !(#[trigger] segments[i]).contains(
            account::SEPARATOR,
        ) by {}
    }
    account::law_splitting_undoes_joining(segments);
    account::law_joining_undoes_splitting(s);
    assert forall|last: Seq<char>|
        #[trigger] account::join_segments(segments.push(last)) == account::join_segments(
            segments,
        ).push(':') + last by {
        assert(segments.push(last).drop_last() =~= segments);
    }
}

/// A path is under another exactly when it begins with all of its segments.
pub proof fn law_a_path_is_under_what_it_continues(
    path: Seq<Seq<char>>,
    prefix: Seq<Seq<char>>,
    rest: Seq<Seq<char>>,
)
    ensures
        account::is_under(path, prefix) <==> validation::continues(path, prefix),
        account::is_under(prefix + rest, prefix),
{
    validation::lemma_under(path, prefix);
    validation::lemma_under(prefix + rest, prefix);
    assert forall|s: int| 0 <= s < prefix.len() implies #[trigger] (prefix + rest)[s]
        == prefix[s] by {}
}

/// True when two paths agree up to a depth where the first has ended, or has the
/// segment that comes first.
pub open spec fn parts_first_at(a: Seq<Seq<char>>, b: Seq<Seq<char>>, k: int) -> bool {
    &&& 0 <= k <= a.len()
    &&& k < b.len()
    &&& forall|i: int| 0 <= i < k ==> #[trigger] a[i] == b[i]
    &&& k == a.len() || (a[k] != b[k] && crate::ordered::bytes_before(
        vstd::utf8::encode_utf8(a[k]),
        vstd::utf8::encode_utf8(b[k]),
    ))
}

/// Paths are ordered segment by segment, by the bytes of their text, and a path
/// comes before what is under it.
pub proof fn law_paths_are_ordered_by_segment(a: Seq<Seq<char>>, b: Seq<Seq<char>>)
    ensures
        account::path_before(a, b) <==> exists|k: int| #[trigger] parts_first_at(a, b, k),
    decreases b.len(),
{
    if b.len() == 0 {
        assert forall|k: int| !#[trigger] parts_first_at(a, b, k) by {}
    } else if a.len() == 0 {
        assert(parts_first_at(a, b, 0));
    } else if a[0] == b[0] {
        let (x, y) = (a.skip(1), b.skip(1));
        law_paths_are_ordered_by_segment(x, y);
        if account::path_before(x, y) {
            let k = choose|k: int| #[trigger] parts_first_at(x, y, k);
            assert forall|i: int| 0 <= i < k + 1 implies #[trigger] a[i] == b[i] by {
                if i > 0 {
                    assert(x[i - 1] == y[i - 1]);
                }
            }
            assert(parts_first_at(a, b, k + 1));
        }
        if exists|k: int| #[trigger] parts_first_at(a, b, k) {
            let k = choose|k: int| #[trigger] parts_first_at(a, b, k);
            assert forall|i: int| 0 <= i < k - 1 implies #[trigger] x[i] == y[i] by {
                assert(a[i + 1] == b[i + 1]);
            }
            assert(parts_first_at(x, y, k - 1));
        }
    } else {
        if account::text_before(a[0], b[0]) {
            assert(parts_first_at(a, b, 0));
        }
        assert forall|k: int| #[trigger] parts_first_at(a, b, k) implies account::text_before(
            a[0],
            b[0],
        ) by {
            if k > 0 {
                assert(a[0] == b[0]);
            }
        }
    }
}

// ── accounts ────────────────────────────────────────────────────────────────

/// An account is open from the day it opens through the day it closes, both
/// included, and closes no earlier than it opens.
pub proof fn law_accounts_are_open_through_their_window(a: AccountFacts, day: int)
    ensures
        account::open_on(a, day) <==> validation::in_window(a, day),
        account::window_in_order(a) <==> a.closed_on is None || account::open_on(
            a,
            a.opened_on@,
        ),
        account::open_on(a, day) ==> account::window_in_order(a),
{
}

/// A limit holds a net to one side: on or above zero where credits may not exceed
/// debits, on or below where debits may not exceed credits. A net that is no amount
/// breaks either; without a limit nothing does.
pub proof fn law_limits_hold_nets_to_one_side(debits: int, credits: int)
    ensures
        account::within_limit(BalanceLimit::Unlimited, debits, credits),
        account::within_limit(BalanceLimit::NoCreditBalance, debits, credits) <==> credits
            <= debits <= credits + i64::MAX,
        account::within_limit(BalanceLimit::NoDebitBalance, debits, credits) <==> debits <= credits
            <= debits - i64::MIN,
{
}

/// An account is registered exactly when it closes no earlier than it opens, no
/// account has its path, and a handle is left for it. Otherwise the error says which
/// of these is broken, in that order.
pub proof fn law_accounts_are_registered_exactly_when_in_order(
    accounts: Seq<AccountFacts>,
    a: AccountFacts,
    e: AccountError,
)
    ensures
        account::accepts_account(accounts, a) <==> {
            &&& a.closed_on matches Some(last) ==> a.opened_on@ <= last@
            &&& forall|i: int| 0 <= i < accounts.len() ==> (#[trigger] accounts[i]).path != a.path
            &&& accounts.len() < 0xffff_ffff
        },
        account::refuses_account(accounts, a, e) ==> match e {
            AccountError::ClosedBeforeOpened { path, opened, closed } => path@ == a.path && opened
                == a.opened_on && a.closed_on == Some(closed) && closed@ < opened@,
            AccountError::AlreadyRegistered { path } => path@ == a.path && exists|i: int|
                0 <= i < accounts.len() && (#[trigger] accounts[i]).path == path@,
            AccountError::RegistryFull => accounts.len() >= 0xffff_ffff,
            _ => false,
        },
        account::accepts_account(accounts, a) ==> !account::refuses_account(accounts, a, e),
{
    if account::registered(accounts, a.path) {
        let i = choose|i: int| 0 <= i < accounts.len() && (#[trigger] accounts[i]).path == a.path;
        assert(accounts[i].path == a.path);
    }
}

/// Records are of the accounts in handle order, each with its position for a
/// handle.
pub proof fn law_records_carry_handles_in_order(accounts: Seq<AccountFacts>)
    requires
        accounts.len() <= 0xffff_ffff,
    ensures
        account::bindings(accounts).len() == accounts.len(),
        forall|i: int|
            0 <= i < accounts.len() ==> (#[trigger] account::bindings(accounts)[i]).id.position
                == i && account::bindings(accounts)[i].account == accounts[i],
        account::accounts_of(account::bindings(accounts)) == accounts,
{
    assert(account::accounts_of(account::bindings(accounts)) =~= accounts);
}

/// Records restore exactly when their handles are theirs in turn, no two have one
/// path, and each closes no earlier than it opens. The records of a registry
/// restore it.
pub proof fn law_records_restore_when_dense_and_distinct(records: Seq<Binding>)
    requires
        records.len() <= 0xffff_ffff,
    ensures
        account::restores(records, records.len() as int) <==> {
            &&& forall|i: int|
                0 <= i < records.len() ==> (#[trigger] records[i]).id.position == i && (
                records[i].account.closed_on matches Some(last)
                    ==> records[i].account.opened_on@ <= last@)
            &&& forall|i: int, j: int|
                0 <= i < j < records.len() ==> (#[trigger] records[i]).account.path != (
                #[trigger] records[j]).account.path
        },
{
    let n = records.len() as int;
    if account::restores(records, n) {
        assert forall|i: int, j: int| 0 <= i < j < n implies (
        #[trigger] records[i]).account.path != (#[trigger] records[j]).account.path by {
            let before = account::accounts_of(records.take(j));
            assert(account::accepts_account(before, records[j].account));
            assert(before[i] == records[i].account);
            assert(!account::registered(before, records[j].account.path));
        }
    }
    if (forall|i: int|
        0 <= i < records.len() ==> (#[trigger] records[i]).id.position == i && (
        records[i].account.closed_on matches Some(last) ==> records[i].account.opened_on@
            <= last@)) && (forall|i: int, j: int|
        0 <= i < j < records.len() ==> (#[trigger] records[i]).account.path != (
        #[trigger] records[j]).account.path) {
        assert forall|k: int| 0 <= k < n implies (#[trigger] records[k]).id.position == k
            && account::accepts_account(
            account::accounts_of(records.take(k)),
            records[k].account,
        ) by {
            let before = account::accounts_of(records.take(k));
            assert forall|i: int| 0 <= i < before.len() implies (#[trigger] before[i]).path
                != records[k].account.path by {
                assert(before[i] == records[i].account);
            }
        }
    }
}

} // verus!
