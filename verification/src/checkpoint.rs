//! Checkpoints and balance assertions.
//!
//! Both are *claims about balances that the journal can check*, and they exist
//! for opposite reasons.
//!
//! A [`Checkpoint`] is an optimisation. A balance is defined as a fold over the
//! journal, which is correct and linear in history; a checkpoint records the
//! fold up to a point so later reads start from there. Because that trades a
//! definition for a cache, a checkpoint carries the tree head it was taken
//! against, which does double duty: it *names* the prefix the balance covers and
//! *pins* the history that prefix belongs to. So a checkpoint cannot be quietly
//! reused against a log that has changed, and the journal can always re-derive
//! it.
//!
//! A [`BalanceAssertion`] is the opposite: a claim from *outside* the ledger — a
//! bank statement, a counterparty confirmation, an ERP export — checked against
//! the fold. It catches the divergence that reconciliation exists to find, and
//! it is the cheapest such mechanism there is.

use crate::balance::{Balance, BalanceKey};
use crate::date::Date;
use crate::merkle::TreeHead;
use crate::money::{self, Amount, MoneyError};
use crate::posting::Direction;
use crate::text::push_text;
use vstd::prelude::*;
use vstd::string::*;

verus! {

/// A recorded balance over a known prefix of the log.
///
/// The prefix is the tree head's [`size`](TreeHead::size) — there is no separate
/// position field, because two fields that must agree are two fields that can
/// disagree. A checkpoint says: *after these `size` entries, whose Merkle root
/// was this, the account held this balance.*
#[derive(Debug, Clone, Copy, PartialEq, Eq)]
pub struct Checkpoint<const P: u8> {
    /// What the balance is for.
    pub key: BalanceKey,
    /// The balance after the first [`Self::size`] entries.
    pub balance: Balance<P>,
    /// The tree head the checkpoint was taken against.
    ///
    /// Pins the checkpoint to one specific history *and* names the prefix it
    /// covers. A checkpoint whose head no longer matches the log it is being
    /// used with is stale by construction, not by convention.
    pub tree_head: TreeHead,
}

impl<const P: u8> Checkpoint<P> {
    /// Creates a checkpoint over the prefix `tree_head` commits to.
    #[must_use]
    pub fn new(key: BalanceKey, balance: Balance<P>, tree_head: TreeHead) -> (c: Self)
        ensures
            c == (Checkpoint { key, balance, tree_head }),
    {
        Checkpoint { key, balance, tree_head }
    }

    /// Number of entries folded into the balance.
    ///
    /// Zero for a checkpoint taken over an empty log, which is a perfectly
    /// ordinary checkpoint: it says the account had not moved yet, and it stays
    /// true however far the log grows afterwards.
    #[must_use]
    pub fn size(&self) -> (size: u64)
        ensures
            size == self.tree_head.size,
    {
        self.tree_head.size
    }

    /// True when this checkpoint was taken against `head`.
    #[must_use]
    pub fn matches_head(&self, head: &TreeHead) -> (r: bool)
        ensures
            r == (self.tree_head == *head),
    {
        self.tree_head == *head
    }
}

/// Why a checkpoint failed verification.
#[derive(Debug, Clone, Copy, PartialEq, Eq)]
#[non_exhaustive]
pub enum CheckpointError {
    /// The recorded balance disagrees with a fold over the journal.
    BalanceMismatch,
    /// The checkpoint covers more entries than the journal holds.
    SizeOutOfRange {
        /// The prefix size claimed.
        size: u64,
    },
    /// The checkpoint was taken against a different history.
    HeadMismatch,
    /// Folding the journal overflowed.
    Money(MoneyError),
}

/// Which state of the books an assertion is evaluated against.
///
/// The two are genuinely different questions, and picking the wrong one is the
/// classic reconciliation mistake. A log position is exact and reproducible but
/// only meaningful inside this system. A date is what every external source
/// speaks — a bank statement says "as at 31 March", not "after 4,812 entries" —
/// and it folds by *booking date* regardless of when an entry was recorded, so a
/// backdated entry lands where it economically belongs.
#[derive(Debug, Clone, Copy, PartialEq, Eq, Structural)]
pub enum AssertAt {
    /// Everything recorded so far.
    Now,
    /// The first `size` entries in log order.
    ///
    /// Zero asserts against an empty ledger.
    Prefix {
        /// Number of entries folded in.
        size: u64,
    },
    /// Every entry booked on or before `date`, whenever it was recorded.
    OnDate {
        /// The last booking date folded in, inclusive.
        date: Date,
    },
}

/// A claim that an account holds a particular balance at a point in the books.
///
/// The expected value is a **signed net**, debit positive, because that is the
/// form an external source reports: a statement says what the balance is, not
/// how much moved in each direction.
#[derive(Debug, Clone, Copy, PartialEq, Eq)]
pub struct BalanceAssertion<const P: u8> {
    /// What is being asserted about.
    pub key: BalanceKey,
    /// Which state of the books to evaluate against.
    pub at: AssertAt,
    /// The expected signed net, debit positive.
    pub expected: Amount<P>,
}

/// What checking an expected net against a balance comes to.
pub open spec fn outcome_of<const P: u8>(expected: Amount<P>, actual: Balance<P>) -> Result<
    AssertionOutcome<P>,
    MoneyError,
> {
    let net = actual.debits.minor - actual.credits.minor;
    if !(i64::MIN <= net <= i64::MAX) {
        Err(MoneyError::Overflow)
    } else if net == expected.minor {
        Ok(AssertionOutcome::Held { actual })
    } else if !(i64::MIN <= net - expected.minor <= i64::MAX) {
        Err(MoneyError::Overflow)
    } else {
        Ok(
            AssertionOutcome::Failed {
                expected,
                actual: Amount { minor: net as i64 },
                difference: Amount { minor: (net - expected.minor) as i64 },
            },
        )
    }
}

impl<const P: u8> BalanceAssertion<P> {
    /// Asserts a signed net, debit positive, against the current state.
    #[must_use]
    pub fn net(key: BalanceKey, expected: Amount<P>) -> (a: Self)
        ensures
            a == (BalanceAssertion { key, at: AssertAt::Now, expected }),
    {
        BalanceAssertion { key, at: AssertAt::Now, expected }
    }

    /// Asserts a magnitude on a given side.
    pub fn on_side(key: BalanceKey, direction: Direction, magnitude: Amount<P>) -> (r: Result<
        Self,
        MoneyError,
    >)
        ensures
            ({
                let signed = match direction {
                    Direction::Debit => magnitude.minor as int,
                    Direction::Credit => -magnitude.minor,
                };
                match money::amount_or_overflow::<P>(signed) {
                    Ok(expected) => r == Ok::<Self, MoneyError>(
                        BalanceAssertion { key, at: AssertAt::Now, expected },
                    ),
                    Err(e) => r == Err::<Self, MoneyError>(e),
                }
            }),
    {
        let expected = match direction {
            Direction::Debit => magnitude,
            Direction::Credit => match magnitude.checked_neg() {
                Ok(negated) => negated,
                Err(e) => {
                    return Err(e);
                },
            },
        };
        Ok(Self::net(key, expected))
    }

    /// Evaluates the assertion over the first `size` entries.
    #[must_use]
    pub fn over_prefix(self, size: u64) -> (a: Self)
        ensures
            a == (BalanceAssertion { at: AssertAt::Prefix { size }, ..self }),
    {
        BalanceAssertion { key: self.key, at: AssertAt::Prefix { size }, expected: self.expected }
    }

    /// Evaluates the assertion over everything booked on or before `date`.
    ///
    /// This is the form to reconcile against an external statement.
    #[must_use]
    pub fn on_date(self, date: Date) -> (a: Self)
        ensures
            a == (BalanceAssertion { at: AssertAt::OnDate { date }, ..self }),
    {
        BalanceAssertion { key: self.key, at: AssertAt::OnDate { date }, expected: self.expected }
    }

    /// Compares the assertion against an actual balance.
    pub fn check(&self, actual: &Balance<P>) -> (r: Result<AssertionOutcome<P>, MoneyError>)
        ensures
            r == outcome_of(self.expected, *actual),
    {
        let actual_net = match actual.signed_net() {
            Ok(net) => net,
            Err(e) => {
                return Err(e);
            },
        };
        if actual_net.minor == self.expected.minor {
            Ok(AssertionOutcome::Held { actual: *actual })
        } else {
            match actual_net.checked_sub(self.expected) {
                Ok(difference) => Ok(
                    AssertionOutcome::Failed {
                        expected: self.expected,
                        actual: actual_net,
                        difference,
                    },
                ),
                Err(e) => Err(e),
            }
        }
    }
}

/// The result of checking a [`BalanceAssertion`].
#[derive(Debug, Clone, Copy, PartialEq, Eq)]
#[non_exhaustive]
#[allow(inconsistent_fields)]
pub enum AssertionOutcome<const P: u8> {
    /// The ledger agrees with the claim.
    Held {
        /// The balance found, with both gross totals.
        actual: Balance<P>,
    },
    /// The ledger disagrees.
    Failed {
        /// What was claimed, as a signed net.
        expected: Amount<P>,
        /// What the ledger holds, as a signed net.
        actual: Amount<P>,
        /// `actual - expected`; the amount unaccounted for.
        difference: Amount<P>,
    },
}

impl<const P: u8> AssertionOutcome<P> {
    /// True when the ledger agreed.
    #[must_use]
    pub fn held(&self) -> (r: bool)
        ensures
            r == (self is Held),
    {
        matches!(self, AssertionOutcome::Held { .. })
    }

    /// The outcome in words an operator can read.
    #[must_use]
    pub fn to_string(&self) -> (s: String)
        ensures
            s@ == outcome_text(*self),
    {
        let mut s: String = String::new();
        match self {
            AssertionOutcome::Held { actual } => {
                push_text(&mut s, "held (debits ");
                push_text(&mut s, actual.debits.to_string().as_str());
                push_text(&mut s, ", credits ");
                push_text(&mut s, actual.credits.to_string().as_str());
                push_text(&mut s, ")");
            },
            AssertionOutcome::Failed { expected, actual, difference } => {
                push_text(&mut s, "failed: expected ");
                push_text(&mut s, expected.to_string().as_str());
                push_text(&mut s, ", found ");
                push_text(&mut s, actual.to_string().as_str());
                push_text(&mut s, ", off by ");
                push_text(&mut s, difference.to_string().as_str());
            },
        }
        assert(s@ =~= outcome_text(*self));
        s
    }
}

/// An outcome in words.
pub open spec fn outcome_text<const P: u8>(outcome: AssertionOutcome<P>) -> Seq<char> {
    match outcome {
        AssertionOutcome::Held { actual } => "held (debits "@ + money::literal(actual.debits)
            + ", credits "@ + money::literal(actual.credits) + ")"@,
        AssertionOutcome::Failed { expected, actual, difference } => "failed: expected "@
            + money::literal(expected) + ", found "@ + money::literal(actual) + ", off by "@
            + money::literal(difference),
    }
}

/// An assertion holds exactly when the balance nets to what was claimed, whatever
/// moved in each direction.
pub proof fn law_assertion_holds_on_the_net<const P: u8>(expected: Amount<P>, actual: Balance<P>)
    ensures
        outcome_of(expected, actual) matches Ok(AssertionOutcome::Held { .. }) <==> actual.debits.minor
            - actual.credits.minor == expected.minor,
{
}

} // verus!
