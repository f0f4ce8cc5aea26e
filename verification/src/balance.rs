//! Balances and trial balances.
//!
//! A balance carries the gross debit total and the gross credit total, not just
//! the net. A trial balance that reports only the net cannot answer how much
//! moved through an account, and the gross totals cannot be reconstructed from
//! the net afterwards.

use crate::account::AccountId;
use crate::money::{self, Amount, Currency, MoneyError};
use crate::ordered::{self, Key, Rank, SortedMap};
use crate::posting::{self, Direction, Layer, Posting};
use vstd::prelude::*;

verus! {

// ── balances ────────────────────────────────────────────────────────────────

/// Gross debit and credit totals, and the net derived from them.
#[derive(Debug, Clone, Copy, Eq)]
pub struct Balance<const P: u8> {
    /// Gross total of debit movements.
    pub debits: Amount<P>,
    /// Gross total of credit movements.
    pub credits: Amount<P>,
}

impl<const P: u8> PartialEq for Balance<P> {
    fn eq(&self, other: &Self) -> (same: bool) {
        self.debits == other.debits && self.credits == other.credits
    }
}

impl<const P: u8> vstd::std_specs::cmp::PartialEqSpecImpl for Balance<P> {
    open spec fn obeys_eq_spec() -> bool {
        true
    }

    open spec fn eq_spec(&self, other: &Self) -> bool {
        self.debits.minor == other.debits.minor && self.credits.minor == other.credits.minor
    }
}

/// An empty balance.
pub open spec fn zero_balance<const P: u8>() -> Balance<P> {
    Balance { debits: Amount { minor: 0 }, credits: Amount { minor: 0 } }
}

/// A balance after a movement on one side, or the overflow of that side.
pub open spec fn moved<const P: u8>(
    b: Balance<P>,
    direction: Direction,
    minor: int,
) -> Result<Balance<P>, MoneyError> {
    match direction {
        Direction::Debit => match money::amount_or_overflow::<P>(b.debits.minor + minor) {
            Ok(debits) => Ok(Balance { debits, credits: b.credits }),
            Err(e) => Err(e),
        },
        Direction::Credit => match money::amount_or_overflow::<P>(b.credits.minor + minor) {
            Ok(credits) => Ok(Balance { debits: b.debits, credits }),
            Err(e) => Err(e),
        },
    }
}

impl<const P: u8> Default for Balance<P> {
    fn default() -> (b: Self)
        ensures
            b == zero_balance::<P>(),
    {
        Balance::zero()
    }
}

impl<const P: u8> Balance<P> {
    /// An empty balance.
    #[must_use]
    pub fn zero() -> (b: Self)
        ensures
            b == zero_balance::<P>(),
    {
        Balance { debits: Amount { minor: 0 }, credits: Amount { minor: 0 } }
    }

    /// Adds a movement on the given side.
    pub fn add(&mut self, direction: Direction, amount: Amount<P>) -> (r: Result<(), MoneyError>)
        ensures
            match moved(*old(self), direction, amount.minor as int) {
                Ok(after) => r is Ok && *final(self) == after,
                Err(e) => r == Err::<(), MoneyError>(e) && *final(self) == *old(self),
            },
    {
        match direction {
            Direction::Debit => match self.debits.checked_add(amount) {
                Ok(debits) => {
                    self.debits = debits;
                    Ok(())
                },
                Err(e) => Err(e),
            },
            Direction::Credit => match self.credits.checked_add(amount) {
                Ok(credits) => {
                    self.credits = credits;
                    Ok(())
                },
                Err(e) => Err(e),
            },
        }
    }

    /// The net balance and the side it falls on.
    ///
    /// A net of zero is reported as a debit of zero by convention; callers that
    /// care should test the magnitude rather than the side.
    pub fn net(&self) -> (r: Result<(Direction, Amount<P>), MoneyError>)
        ensures
            ({
                let d = self.debits.minor;
                let c = self.credits.minor;
                let side = if d >= c {
                    Direction::Debit
                } else {
                    Direction::Credit
                };
                let size = if d >= c {
                    d - c
                } else {
                    c - d
                };
                match money::amount_or_overflow::<P>(size) {
                    Ok(amount) => r == Ok::<(Direction, Amount<P>), MoneyError>((side, amount)),
                    Err(e) => r == Err::<(Direction, Amount<P>), MoneyError>(e),
                }
            }),
    {
        if self.debits.minor >= self.credits.minor {
            match self.debits.checked_sub(self.credits) {
                Ok(amount) => Ok((Direction::Debit, amount)),
                Err(e) => Err(e),
            }
        } else {
            match self.credits.checked_sub(self.debits) {
                Ok(amount) => Ok((Direction::Credit, amount)),
                Err(e) => Err(e),
            }
        }
    }

    /// The net as a signed amount, debit positive.
    pub fn signed_net(&self) -> (r: Result<Amount<P>, MoneyError>)
        ensures
            r == money::amount_or_overflow::<P>(self.debits.minor - self.credits.minor),
    {
        self.debits.checked_sub(self.credits)
    }

    /// True when debits and credits are equal.
    #[must_use]
    pub fn is_balanced(&self) -> (r: bool)
        ensures
            r == (self.debits.minor == self.credits.minor),
    {
        self.debits.minor == self.credits.minor
    }

    /// True when nothing has moved at all.
    #[must_use]
    pub fn is_empty(&self) -> (r: bool)
        ensures
            r == (self.debits.minor == 0 && self.credits.minor == 0),
    {
        self.debits.is_zero() && self.credits.is_zero()
    }

    /// Combines two balances.
    pub fn checked_add(&self, other: &Self) -> (r: Result<Self, MoneyError>)
        ensures
            r == combined(*self, *other),
    {
        match self.debits.checked_add(other.debits) {
            Ok(debits) => match self.credits.checked_add(other.credits) {
                Ok(credits) => Ok(Balance { debits, credits }),
                Err(e) => Err(e),
            },
            Err(e) => Err(e),
        }
    }
}

/// The sum of two balances, side by side.
pub open spec fn combined<const P: u8>(a: Balance<P>, b: Balance<P>) -> Result<
    Balance<P>,
    MoneyError,
> {
    let debits = a.debits.minor + b.debits.minor;
    let credits = a.credits.minor + b.credits.minor;
    if i64::MIN <= debits <= i64::MAX && i64::MIN <= credits <= i64::MAX {
        Ok(
            Balance {
                debits: Amount { minor: debits as i64 },
                credits: Amount { minor: credits as i64 },
            },
        )
    } else {
        Err(MoneyError::Overflow)
    }
}

/// The key a balance is reported against.
#[derive(Debug, Clone, Copy, PartialEq, Eq, Structural, PartialOrd, Ord, Hash)]
pub struct BalanceKey {
    /// The account.
    pub account: AccountId,
    /// The currency.
    pub currency: Currency,
    /// Settled or pending.
    pub layer: Layer,
}

impl View for BalanceKey {
    type V = BalanceKey;

    open spec fn view(&self) -> BalanceKey {
        *self
    }
}

impl Key for BalanceKey {
    /// By account, then currency code, then layer.
    open spec fn before(a: BalanceKey, b: BalanceKey) -> bool {
        ||| a.account.position < b.account.position
        ||| a.account.position == b.account.position && ordered::bytes_before(
            a.currency@,
            b.currency@,
        )
        ||| a.account.position == b.account.position && a.currency@ == b.currency@
            && posting::layer_byte(a.layer) < posting::layer_byte(b.layer)
    }

    proof fn lemma_irreflexive(a: BalanceKey) {
        ordered::lemma_bytes_irreflexive(a.currency@);
    }

    proof fn lemma_transitive(a: BalanceKey, b: BalanceKey, c: BalanceKey) {
        if ordered::bytes_before(a.currency@, b.currency@) && ordered::bytes_before(
            b.currency@,
            c.currency@,
        ) {
            ordered::lemma_bytes_transitive(a.currency@, b.currency@, c.currency@);
        }
    }

    proof fn lemma_total(a: BalanceKey, b: BalanceKey) {
        ordered::lemma_bytes_total(a.currency@, b.currency@);
        if a.currency@ == b.currency@ {
            Currency::lemma_code_determines(a.currency, b.currency);
        }
    }

    fn rank(&self, other: &Self) -> (r: Rank) {
        proof {
            ordered::lemma_bytes_irreflexive(self.currency@);
            ordered::lemma_bytes_total(self.currency@, other.currency@);
            if ordered::bytes_before(self.currency@, other.currency@) && ordered::bytes_before(
                other.currency@,
                self.currency@,
            ) {
                ordered::lemma_bytes_transitive(self.currency@, other.currency@, self.currency@);
            }
            if self.currency@ == other.currency@ {
                Currency::lemma_code_determines(self.currency, other.currency);
            }
        }
        if self.account.position < other.account.position {
            return Rank::Before;
        }
        if self.account.position > other.account.position {
            return Rank::After;
        }
        match self.currency.rank(&other.currency) {
            Rank::Before => Rank::Before,
            Rank::After => Rank::After,
            Rank::Same => {
                let (a, b): (u8, u8) = (self.layer.discriminant(), other.layer.discriminant());
                if a < b {
                    Rank::Before
                } else if a > b {
                    Rank::After
                } else {
                    Rank::Same
                }
            },
        }
    }
}

/// The key a posting moves.
pub open spec fn key_of_movement(m: posting::Movement) -> BalanceKey {
    BalanceKey { account: m.account, currency: m.currency, layer: m.layer }
}

/// The key a posting moves.
pub fn key_of<const P: u8>(posting: &Posting<P>) -> (key: BalanceKey)
    ensures
        key == key_of_movement(posting@),
{
    BalanceKey { account: posting.account, currency: posting.currency, layer: posting.layer }
}

// ── trial balances ──────────────────────────────────────────────────────────

/// The balance under a key, defaulting to zero.
pub open spec fn balance_at<const P: u8>(m: Map<BalanceKey, Balance<P>>, key: BalanceKey) -> Balance<
    P,
> {
    if m.contains_key(key) {
        m[key]
    } else {
        zero_balance::<P>()
    }
}

/// Balances after one more movement, or the overflow of its key.
pub open spec fn apply_movement<const P: u8>(
    m: Map<BalanceKey, Balance<P>>,
    movement: posting::Movement,
) -> Result<Map<BalanceKey, Balance<P>>, MoneyError> {
    let key = key_of_movement(movement);
    match moved(balance_at(m, key), movement.direction, movement.minor) {
        Ok(after) => Ok(m.insert(key, after)),
        Err(e) => Err(e),
    }
}

/// Balances for a set of accounts, currencies, and layers.
///
/// Iteration order is deterministic, so any report or hash derived from a trial
/// balance is reproducible.
#[derive(Debug, PartialEq, Eq)]
pub struct TrialBalance<const P: u8> {
    entries: SortedMap<BalanceKey, Balance<P>>,
}

impl<const P: u8> View for TrialBalance<P> {
    type V = Map<BalanceKey, Balance<P>>;

    closed spec fn view(&self) -> Map<BalanceKey, Balance<P>> {
        self.entries@
    }
}

impl<const P: u8> Clone for TrialBalance<P> {
    fn clone(&self) -> (copy: Self)
        ensures
            copy@ == self@,
            copy.rows() == self.rows(),
            copy.wf(),
    {
        TrialBalance { entries: self.entries.copied() }
    }
}

impl<const P: u8> Default for TrialBalance<P> {
    fn default() -> (tb: Self)
        ensures
            tb@ == Map::<BalanceKey, Balance<P>>::empty(),
            tb.wf(),
    {
        TrialBalance::new()
    }
}

/// True of balances that can be listed in key order.
pub open spec fn listable<const P: u8>(m: Map<BalanceKey, Balance<P>>) -> bool {
    ordered::lists_keys::<BalanceKey, Balance<P>>(
        m,
        ordered::sorted_keys::<BalanceKey, Balance<P>>(m),
    )
}

/// Every key and balance of a mapping, in key order.
pub open spec fn rows_of<const P: u8>(m: Map<BalanceKey, Balance<P>>) -> Seq<
    (BalanceKey, Balance<P>),
> {
    let keys = ordered::sorted_keys::<BalanceKey, Balance<P>>(m);
    Seq::new(keys.len(), |i: int| (keys[i], m[keys[i]]))
}

/// The totals of some rows for one currency and layer, in order.
pub open spec fn rows_total<const P: u8>(
    rows: Seq<(BalanceKey, Balance<P>)>,
    currency: Currency,
    layer: Layer,
) -> Result<Balance<P>, MoneyError>
    decreases rows.len(),
{
    if rows.len() == 0 {
        Ok(zero_balance::<P>())
    } else {
        match rows_total(rows.drop_last(), currency, layer) {
            Err(e) => Err(e),
            Ok(total) => {
                let (key, balance) = rows.last();
                if key.currency == currency && key.layer == layer {
                    combined(total, balance)
                } else {
                    Ok(total)
                }
            },
        }
    }
}

impl<const P: u8> TrialBalance<P> {
    /// Every key and balance, in key order.
    pub closed spec fn rows(&self) -> Seq<(BalanceKey, Balance<P>)> {
        Seq::new(
            self.entries.keys().len(),
            |i: int| (self.entries.keys()[i], self.entries.values()[i]),
        )
    }

    /// The rows are in strict key order.
    pub closed spec fn wf(&self) -> bool {
        self.entries.wf()
    }

    /// The rows list the mapping in key order.
    pub proof fn lemma_rows(&self)
        requires
            self.wf(),
        ensures
            listable(self@),
            self.rows() == rows_of(self@),
            self@.dom().finite(),
            self@.dom().len() == self.rows().len(),
            forall|i: int, j: int|
                0 <= i < j < self.rows().len() ==> BalanceKey::before(
                    (#[trigger] self.rows()[i]).0,
                    (#[trigger] self.rows()[j]).0,
                ),
            forall|i: int|
                0 <= i < self.rows().len() ==> self@.contains_key((#[trigger] self.rows()[i]).0)
                    && self@[self.rows()[i].0] == self.rows()[i].1,
            forall|k: BalanceKey| #[trigger]
                self@.contains_key(k) ==> exists|i: int|
                    0 <= i < self.rows().len() && (#[trigger] self.rows()[i]).0 == k,
    {
        self.entries.lemma_sequences();
        self.entries.lemma_len();
        self.entries.lemma_keys_are_sorted();
        assert(self.rows() =~= rows_of(self@)) by {
            assert forall|i: int| 0 <= i < self.rows().len() implies self.rows()[i] == rows_of(
                self@,
            )[i] by {
                assert(self.entries@[self.entries.keys()[i]] == self.entries.values()[i]);
            }
        }
        assert forall|i: int, j: int| 0 <= i < j < self.rows().len() implies BalanceKey::before(
            (#[trigger] self.rows()[i]).0,
            (#[trigger] self.rows()[j]).0,
        ) by {
            assert(BalanceKey::before(self.entries.keys()[i], self.entries.keys()[j]));
        }
        assert forall|i: int| 0 <= i < self.rows().len() implies self@.contains_key(
            (#[trigger] self.rows()[i]).0,
        ) && self@[self.rows()[i].0] == self.rows()[i].1 by {
            assert(self.entries@.contains_key(self.entries.keys()[i]));
        }
        assert forall|k: BalanceKey| #[trigger] self@.contains_key(k) implies exists|i: int|
            0 <= i < self.rows().len() && (#[trigger] self.rows()[i]).0 == k by {
            let i = choose|i: int|
                0 <= i < self.entries.keys().len() && #[trigger] self.entries.keys()[i] == k;
            assert(self.rows()[i].0 == k);
        }
    }

    /// The order in which balances were accumulated leaves no trace: trial
    /// balances that hold the same balances list the same rows.
    pub proof fn law_rows_are_determined(&self, other: &Self)
        requires
            self.wf(),
            other.wf(),
            self@ == other@,
        ensures
            self.rows() == other.rows(),
    {
        self.entries.lemma_walk_is_unique(&other.entries);
    }

    /// Creates an empty trial balance.
    #[must_use]
    pub fn new() -> (tb: Self)
        ensures
            tb@ == Map::<BalanceKey, Balance<P>>::empty(),
            tb.rows() == Seq::<(BalanceKey, Balance<P>)>::empty(),
            tb.wf(),
    {
        let tb = TrialBalance { entries: SortedMap::new() };
        assert(tb.rows() =~= Seq::<(BalanceKey, Balance<P>)>::empty());
        tb
    }

    /// Accumulates a posting.
    ///
    /// A posting that overflows leaves the trial balance unchanged.
    pub fn apply(&mut self, posting: &Posting<P>) -> (r: Result<(), MoneyError>)
        ensures
            final(self).wf(),
            match apply_movement(old(self)@, posting@) {
                Ok(after) => r is Ok && final(self)@ == after,
                Err(e) => r == Err::<(), MoneyError>(e) && final(self)@ == old(self)@,
            },
    {
        let key = key_of(posting);
        let mut balance = self.get_or_zero(&key);
        let r = balance.add(posting.direction, posting.amount);
        self.entries.insert(key, balance);
        assert(r is Err ==> self@ =~= old(self)@);
        r
    }

    /// Sets the balance for one key, replacing any existing value.
    ///
    /// Accumulating postings via [`TrialBalance::apply`] is the usual path; this
    /// is for reconstructing a balance set that was computed elsewhere.
    pub fn set(&mut self, key: BalanceKey, balance: Balance<P>)
        ensures
            final(self)@ == old(self)@.insert(key, balance),
            final(self).wf(),
    {
        self.entries.insert(key, balance);
    }

    /// Removes one key, returning the balance it held.
    ///
    /// For rebuilding a balance set, not for editing one: a trial balance with a
    /// key removed says the account never moved, which is a different claim from
    /// a balance of zero.
    pub fn remove(&mut self, key: &BalanceKey) -> (r: Option<Balance<P>>)
        ensures
            final(self)@ == old(self)@.remove(*key),
            final(self).wf(),
            r == (if old(self)@.contains_key(*key) {
                Some(old(self)@[*key])
            } else {
                None
            }),
    {
        self.entries.remove(key)
    }

    /// The balance for one key, if anything has been posted to it.
    #[must_use]
    pub fn get(&self, key: &BalanceKey) -> (r: Option<&Balance<P>>)
        ensures
            match r {
                Some(balance) => self@.contains_key(*key) && *balance == self@[*key],
                None => !self@.contains_key(*key),
            },
    {
        self.entries.get(key)
    }

    /// The balance for one key, defaulting to zero.
    #[must_use]
    pub fn get_or_zero(&self, key: &BalanceKey) -> (balance: Balance<P>)
        ensures
            balance == balance_at(self@, *key),
    {
        match self.entries.get(key) {
            Some(balance) => *balance,
            None => Balance::zero(),
        }
    }

    /// Every key and balance, in deterministic order.
    #[must_use]
    pub fn iter(&self) -> (rows: Vec<(BalanceKey, Balance<P>)>)
        ensures
            rows@ == self.rows(),
            self.wf(),
    {
        let n: usize = self.entries.len();
        let mut rows: Vec<(BalanceKey, Balance<P>)> = Vec::with_capacity(n);
        let mut i: usize = 0;
        while i < n
            invariant
                i <= n,
                n == self.entries.keys().len(),
                rows@ == self.rows().take(i as int),
            decreases n - i,
        {
            rows.push((*self.entries.key_at(i), *self.entries.value_at(i)));
            assert(rows@ =~= self.rows().take(i + 1));
            i += 1;
        }
        assert(self.rows().take(n as int) =~= self.rows());
        rows
    }

    /// Number of populated keys.
    #[must_use]
    pub fn len(&self) -> (n: usize)
        ensures
            n == self.rows().len(),
            n == self@.dom().len(),
    {
        let n: usize = self.entries.len();
        proof {
            self.entries.lemma_len();
        }
        n
    }

    /// True when nothing has been accumulated.
    #[must_use]
    pub fn is_empty(&self) -> (r: bool)
        ensures
            r == (self@ == Map::<BalanceKey, Balance<P>>::empty()),
    {
        let n: usize = self.entries.len();
        proof {
            self.lemma_rows();
            if n == 0 {
                assert(self@ =~= Map::<BalanceKey, Balance<P>>::empty());
            } else {
                assert(self@.contains_key(self.rows()[0].0));
            }
        }
        n == 0
    }

    /// Totals across all accounts for one currency and layer.
    ///
    /// In a consistent ledger the debit and credit totals are equal; that
    /// equality is the classic trial-balance check and is exposed here so a
    /// caller can assert it.
    pub fn totals(&self, currency: Currency, layer: Layer) -> (r: Result<Balance<P>, MoneyError>)
        ensures
            r == rows_total(self.rows(), currency, layer),
    {
        let rows = self.iter();
        let mut acc: Balance<P> = Balance::zero();
        let mut i: usize = 0;
        assert(rows@.take(0) =~= Seq::empty());
        while i < rows.len()
            invariant
                i <= rows.len(),
                rows@ == self.rows(),
                rows_total(rows@.take(i as int), currency, layer) == Ok::<Balance<P>, MoneyError>(
                    acc,
                ),
            decreases rows.len() - i,
        {
            let (key, balance): (BalanceKey, Balance<P>) = rows[i];
            assert(rows@.take(i + 1).drop_last() =~= rows@.take(i as int));
            if key.currency == currency && key.layer == layer {
                acc = match acc.checked_add(&balance) {
                    Ok(sum) => sum,
                    Err(e) => {
                        proof {
                            lemma_total_error(rows@, i + 1, currency, layer);
                        }
                        return Err(e);
                    },
                };
            }
            i += 1;
        }
        assert(rows@.take(rows@.len() as int) =~= rows@);
        Ok(acc)
    }
}

/// True when some balance is in a currency.
pub open spec fn has_currency<const P: u8>(
    m: Map<BalanceKey, Balance<P>>,
    currency: Currency,
) -> bool {
    exists|key: BalanceKey| #[trigger] m.contains_key(key) && key.currency == currency
}

/// True when some of the first `n` rows is in a currency.
spec fn row_has_currency<const P: u8>(
    rows: Seq<(BalanceKey, Balance<P>)>,
    n: int,
    code: Seq<u8>,
) -> bool {
    exists|i: int| 0 <= i < n && (#[trigger] rows[i]).0.currency@ == code
}

/// The codes of some currencies.
pub open spec fn codes_of(currencies: Seq<Currency>) -> Seq<Seq<u8>> {
    currencies.map_values(|c: Currency| c@)
}

/// True when `currencies` are those that balances are in, in code order.
pub open spec fn lists_currencies<const P: u8>(
    m: Map<BalanceKey, Balance<P>>,
    currencies: Seq<Currency>,
) -> bool {
    &&& ordered::ascending::<Currency>(codes_of(currencies))
    &&& forall|c: Currency| #[trigger] currencies.contains(c) <==> has_currency(m, c)
}

impl<const P: u8> TrialBalance<P> {
    /// Every currency present, in deterministic order.
    #[must_use]
    pub fn currencies(&self) -> (currencies: Vec<Currency>)
        ensures
            lists_currencies(self@, currencies@),
    {
        let rows = self.iter();
        let mut present: SortedMap<Currency, bool> = SortedMap::new();
        let mut i: usize = 0;
        while i < rows.len()
            invariant
                i <= rows.len(),
                forall|code: Seq<u8>| #[trigger]
                    present@.contains_key(code) <==> row_has_currency(rows@, i as int, code),
            decreases rows.len() - i,
        {
            let ghost before = present@;
            present.insert(rows[i].0.currency, true);
            assert forall|code: Seq<u8>| #[trigger] present@.contains_key(code)
                <==> row_has_currency(rows@, i + 1, code) by {
                if row_has_currency(rows@, i as int, code) {
                    let j = choose|j: int|
                        0 <= j < i && (#[trigger] rows@[j]).0.currency@ == code;
                    assert(rows@[j].0.currency@ == code);
                }
                if code == rows@[i as int].0.currency@ {
                    assert(rows@[i as int].0.currency@ == code);
                }
                assert(before.contains_key(code) <==> row_has_currency(rows@, i as int, code));
            }
            i += 1;
        }
        let n: usize = present.len();
        let mut currencies: Vec<Currency> = Vec::with_capacity(n);
        let mut k: usize = 0;
        while k < n
            invariant
                k <= n,
                n == present.keys().len(),
                codes_of(currencies@) == present.keys().take(k as int),
            decreases n - k,
        {
            let ghost before = currencies@;
            currencies.push(*present.key_at(k));
            assert(codes_of(currencies@) =~= codes_of(before).push(present.keys()[k as int]));
            assert(codes_of(currencies@) =~= present.keys().take(k + 1));
            k += 1;
        }
        proof {
            self.lemma_rows();
            present.lemma_sequences();
            assert(present.keys().take(n as int) =~= present.keys());
            assert forall|c: Currency| #[trigger] currencies@.contains(c) <==> has_currency(
                self@,
                c,
            ) by {
                if currencies@.contains(c) {
                    let j = choose|j: int| 0 <= j < currencies@.len() && currencies@[j] == c;
                    assert(codes_of(currencies@)[j] == c@);
                    assert(present@.contains_key(present.keys()[j]));
                    let r = choose|r: int|
                        0 <= r < rows@.len() && (#[trigger] rows@[r]).0.currency@ == c@;
                    Currency::lemma_code_determines(rows@[r].0.currency, c);
                    assert(self@.contains_key(rows@[r].0));
                }
                if has_currency(self@, c) {
                    let key = choose|key: BalanceKey| #[trigger]
                        self@.contains_key(key) && key.currency == c;
                    let r = choose|r: int|
                        0 <= r < self.rows().len() && (#[trigger] self.rows()[r]).0 == key;
                    assert(rows@[r].0.currency@ == c@);
                    assert(row_has_currency(rows@, rows@.len() as int, c@));
                    assert(present@.contains_key(c@));
                    let j = choose|j: int|
                        0 <= j < present.keys().len() && #[trigger] present.keys()[j] == c@;
                    assert(codes_of(currencies@)[j] == c@);
                    Currency::lemma_code_determines(currencies@[j], c);
                    assert(currencies@[j] == c);
                }
            }
        }
        currencies
    }

    /// True when both hold the same balances.
    #[must_use]
    pub fn same(&self, other: &Self) -> (r: bool)
        ensures
            r == (self@ == other@),
    {
        let a = self.iter();
        let b = other.iter();
        proof {
            self.lemma_rows();
            other.lemma_rows();
        }
        if a.len() != b.len() {
            return false;
        }
        let mut i: usize = 0;
        while i < a.len()
            invariant
                i <= a.len(),
                a.len() == b.len(),
                a@ == rows_of(self@),
                b@ == rows_of(other@),
                forall|j: int| 0 <= j < i ==> #[trigger] a@[j] == b@[j],
            decreases a.len() - i,
        {
            if a[i].0 != b[i].0 || a[i].1 != b[i].1 {
                return false;
            }
            i += 1;
        }
        proof {
            assert(a@ =~= b@);
            assert forall|k: BalanceKey| self@.contains_key(k) <==> other@.contains_key(k) by {
                if self@.contains_key(k) {
                    let i = choose|i: int|
                        0 <= i < self.rows().len() && (#[trigger] self.rows()[i]).0 == k;
                    assert(other.rows()[i].0 == k);
                }
                if other@.contains_key(k) {
                    let i = choose|i: int|
                        0 <= i < other.rows().len() && (#[trigger] other.rows()[i]).0 == k;
                    assert(self.rows()[i].0 == k);
                }
            }
            assert forall|k: BalanceKey| self@.contains_key(k) implies self@[k] == other@[k] by {
                let i = choose|i: int|
                    0 <= i < self.rows().len() && (#[trigger] self.rows()[i]).0 == k;
                assert(other.rows()[i].0 == k);
            }
            assert(self@ =~= other@);
        }
        true
    }
}

proof fn lemma_total_error<const P: u8>(
    rows: Seq<(BalanceKey, Balance<P>)>,
    k: int,
    currency: Currency,
    layer: Layer,
)
    requires
        0 <= k <= rows.len(),
        rows_total(rows.take(k), currency, layer) is Err,
    ensures
        rows_total(rows, currency, layer) == rows_total(rows.take(k), currency, layer),
    decreases rows.len(),
{
    if k == rows.len() {
        assert(rows.take(k) =~= rows);
    } else {
        assert(rows.drop_last().take(k) =~= rows.take(k));
        lemma_total_error(rows.drop_last(), k, currency, layer);
    }
}

} // verus!
