//! Postings — the atomic monetary movements that make up an entry.

use crate::account::AccountId;
use crate::canonical::{self, Canonical, CanonicalWriter};
use crate::dimensions::{self, Dimensions};
use crate::money::{self, Amount, Currency, MoneyError};
use vstd::prelude::*;

verus! {

/// Which side of the account a posting falls on.
///
/// The direction is explicit rather than encoded in the sign of the amount.
/// A signed net cannot express gross turnover: an account showing zero could
/// have seen no activity or a large volume in both directions, and a trial
/// balance is required to distinguish them.
#[derive(Debug, Clone, Copy, PartialEq, Eq, Structural, PartialOrd, Ord, Hash)]
pub enum Direction {
    /// The left side.
    Debit,
    /// The right side.
    Credit,
}

/// The opposite side.
pub open spec fn opposite(d: Direction) -> Direction {
    match d {
        Direction::Debit => Direction::Credit,
        Direction::Credit => Direction::Debit,
    }
}

/// The byte a direction is encoded as.
pub open spec fn direction_byte(d: Direction) -> u8 {
    match d {
        Direction::Debit => 0,
        Direction::Credit => 1,
    }
}

impl Direction {
    /// The opposite side.
    #[must_use]
    pub fn inverse(self) -> (d: Self)
        ensures
            d == opposite(self),
    {
        match self {
            Direction::Debit => Direction::Credit,
            Direction::Credit => Direction::Debit,
        }
    }

    /// True for [`Direction::Debit`].
    #[must_use]
    pub fn is_debit(self) -> (r: bool)
        ensures
            r == (self is Debit),
    {
        matches!(self, Direction::Debit)
    }

    /// True for [`Direction::Credit`].
    #[must_use]
    pub fn is_credit(self) -> (r: bool)
        ensures
            r == (self is Credit),
    {
        matches!(self, Direction::Credit)
    }

    /// The byte a direction is encoded as.
    pub fn discriminant(self) -> (b: u8)
        ensures
            b == direction_byte(self),
    {
        match self {
            Direction::Debit => 0,
            Direction::Credit => 1,
        }
    }

    /// The name of the side.
    #[must_use]
    pub fn name(self) -> (s: &'static str)
        ensures
            s@ == (match self {
                Direction::Debit => "debit"@,
                Direction::Credit => "credit"@,
            }),
    {
        match self {
            Direction::Debit => "debit",
            Direction::Credit => "credit",
        }
    }
}

/// Whether a posting has settled or is still reserved.
///
/// A pending posting reserves an amount without moving the settled balance. It
/// is later resolved by a further entry that either settles or releases it —
/// both of which are ordinary appends, so nothing is ever mutated.
#[derive(Debug, Clone, Copy, PartialEq, Eq, Structural, PartialOrd, Ord, Hash)]
pub enum Layer {
    /// The amount has moved.
    Settled,
    /// The amount is reserved but has not moved.
    Pending,
}

impl Default for Layer {
    fn default() -> (l: Self)
        ensures
            l is Settled,
    {
        Layer::Settled
    }
}

/// The byte a layer is encoded as.
pub open spec fn layer_byte(l: Layer) -> u8 {
    match l {
        Layer::Settled => 0,
        Layer::Pending => 1,
    }
}

impl Layer {
    /// The byte a layer is encoded as.
    pub fn discriminant(self) -> (b: u8)
        ensures
            b == layer_byte(self),
    {
        match self {
            Layer::Settled => 0,
            Layer::Pending => 1,
        }
    }

    /// The name of the layer.
    #[must_use]
    pub fn name(self) -> (s: &'static str)
        ensures
            s@ == (match self {
                Layer::Settled => "settled"@,
                Layer::Pending => "pending"@,
            }),
    {
        match self {
            Layer::Settled => "settled",
            Layer::Pending => "pending",
        }
    }
}

/// What a posting says, as mathematics.
pub struct Movement {
    /// The account being moved.
    pub account: AccountId,
    /// Which side of the account.
    pub direction: Direction,
    /// The magnitude of the movement, in minor units.
    pub minor: int,
    /// The currency of the movement.
    pub currency: Currency,
    /// Settled or reserved.
    pub layer: Layer,
    /// Axis/value pairs, in axis order.
    pub dimensions: Seq<(Seq<char>, Seq<char>)>,
}

/// The same movement on the opposite side.
pub open spec fn flipped(m: Movement) -> Movement {
    Movement { direction: opposite(m.direction), ..m }
}

/// The bytes a movement is encoded as.
pub open spec fn movement_encoding(m: Movement) -> Seq<u8> {
    canonical::le_bytes(m.account.position as nat, 4) + seq![direction_byte(m.direction)]
        + canonical::le_bytes(canonical::twos64(m.minor), 8) + m.currency@ + seq![
        layer_byte(m.layer),
    ] + dimensions::axes_encoding(m.dimensions)
}

/// True for a movement that a posting can carry.
pub open spec fn valid_movement(m: Movement) -> bool {
    i64::MIN <= m.minor <= i64::MAX && dimensions::valid_axes(m.dimensions)
}

/// The encoding of a movement is read back in one way only, whatever follows it.
pub proof fn lemma_movement_unambiguous(a: Movement, b: Movement, x: Seq<u8>, y: Seq<u8>)
    requires
        valid_movement(a),
        valid_movement(b),
        movement_encoding(a) + x == movement_encoding(b) + y,
    ensures
        a == b,
        x == y,
{
    Currency::lemma_code_len(&a.currency);
    Currency::lemma_code_len(&b.currency);
    canonical::lemma_byte_range_values();
    let (na, nb) = (a.account.position as nat, b.account.position as nat);
    let (va, vb) = (canonical::twos64(a.minor), canonical::twos64(b.minor));
    lemma_movement_parts(a, x);
    lemma_movement_parts(b, y);
    canonical::lemma_le_bytes_unambiguous(na, nb, 4, after_account(a, x), after_account(b, y));
    let (da, db) = (seq![direction_byte(a.direction)], seq![direction_byte(b.direction)]);
    canonical::lemma_split_at(da, db, after_direction(a, x), after_direction(b, y));
    assert(da[0] == db[0]);
    canonical::lemma_le_bytes_unambiguous(va, vb, 8, after_amount(a, x), after_amount(b, y));
    canonical::lemma_split_at(a.currency@, b.currency@, after_currency(a, x), after_currency(b, y));
    Currency::lemma_code_determines(a.currency, b.currency);
    let (la, lb) = (seq![layer_byte(a.layer)], seq![layer_byte(b.layer)]);
    let (ea, eb) = (
        dimensions::axes_encoding(a.dimensions),
        dimensions::axes_encoding(b.dimensions),
    );
    canonical::lemma_split_at(la, lb, ea + x, eb + y);
    assert(la[0] == lb[0]);
    dimensions::lemma_axes_unambiguous(a.dimensions, b.dimensions, x, y);
}

spec fn after_currency(m: Movement, rest: Seq<u8>) -> Seq<u8> {
    seq![layer_byte(m.layer)] + (dimensions::axes_encoding(m.dimensions) + rest)
}

spec fn after_amount(m: Movement, rest: Seq<u8>) -> Seq<u8> {
    m.currency@ + after_currency(m, rest)
}

spec fn after_direction(m: Movement, rest: Seq<u8>) -> Seq<u8> {
    canonical::le_bytes(canonical::twos64(m.minor), 8) + after_amount(m, rest)
}

spec fn after_account(m: Movement, rest: Seq<u8>) -> Seq<u8> {
    seq![direction_byte(m.direction)] + after_direction(m, rest)
}

proof fn lemma_regroup(
    a: Seq<u8>,
    d: Seq<u8>,
    v: Seq<u8>,
    c: Seq<u8>,
    l: Seq<u8>,
    e: Seq<u8>,
    rest: Seq<u8>,
)
    ensures
        a + d + v + c + l + e + rest == a + (d + (v + (c + (l + (e + rest))))),
{
    assert(a + d + v + c + l + e + rest =~= a + (d + (v + (c + (l + (e + rest))))));
}

proof fn lemma_movement_parts(m: Movement, rest: Seq<u8>)
    ensures
        movement_encoding(m) + rest == canonical::le_bytes(m.account.position as nat, 4)
            + after_account(m, rest),
{
    lemma_regroup(
        canonical::le_bytes(m.account.position as nat, 4),
        seq![direction_byte(m.direction)],
        canonical::le_bytes(canonical::twos64(m.minor), 8),
        m.currency@,
        seq![layer_byte(m.layer)],
        dimensions::axes_encoding(m.dimensions),
        rest,
    );
}

/// A single movement on a single account.
///
/// The amount is a magnitude and must not be negative; the side is carried by
/// [`Posting::direction`]. A negative amount is rejected at entry validation
/// rather than being silently reinterpreted as the opposite direction.
#[derive(Debug, PartialEq, Eq)]
pub struct Posting<const P: u8> {
    /// The account being moved.
    pub account: AccountId,
    /// Which side of the account.
    pub direction: Direction,
    /// The magnitude of the movement.
    pub amount: Amount<P>,
    /// The currency of the movement.
    pub currency: Currency,
    /// Settled or reserved.
    pub layer: Layer,
    /// Reporting dimensions.
    pub dimensions: Dimensions,
}

impl<const P: u8> View for Posting<P> {
    type V = Movement;

    open spec fn view(&self) -> Movement {
        Movement {
            account: self.account,
            direction: self.direction,
            minor: self.amount.minor as int,
            currency: self.currency,
            layer: self.layer,
            dimensions: self.dimensions@,
        }
    }
}

impl<const P: u8> Clone for Posting<P> {
    fn clone(&self) -> (copy: Self)
        ensures
            copy@ == self@,
            copy.dimensions.mapping() == self.dimensions.mapping(),
    {
        Posting {
            account: self.account,
            direction: self.direction,
            amount: self.amount,
            currency: self.currency,
            layer: self.layer,
            dimensions: self.dimensions.clone(),
        }
    }
}

impl<const P: u8> Posting<P> {
    /// Creates a settled posting with no dimensions.
    #[must_use]
    pub fn new(
        account: AccountId,
        direction: Direction,
        amount: Amount<P>,
        currency: Currency,
    ) -> (p: Self)
        ensures
            p@ == (Movement {
                account,
                direction,
                minor: amount.minor as int,
                currency,
                layer: Layer::Settled,
                dimensions: Seq::empty(),
            }),
    {
        Posting {
            account,
            direction,
            amount,
            currency,
            layer: Layer::Settled,
            dimensions: Dimensions::none(),
        }
    }

    /// Creates a settled debit.
    #[must_use]
    pub fn debit(account: AccountId, amount: Amount<P>, currency: Currency) -> (p: Self)
        ensures
            p@ == (Movement {
                account,
                direction: Direction::Debit,
                minor: amount.minor as int,
                currency,
                layer: Layer::Settled,
                dimensions: Seq::empty(),
            }),
    {
        Self::new(account, Direction::Debit, amount, currency)
    }

    /// Creates a settled credit.
    #[must_use]
    pub fn credit(account: AccountId, amount: Amount<P>, currency: Currency) -> (p: Self)
        ensures
            p@ == (Movement {
                account,
                direction: Direction::Credit,
                minor: amount.minor as int,
                currency,
                layer: Layer::Settled,
                dimensions: Seq::empty(),
            }),
    {
        Self::new(account, Direction::Credit, amount, currency)
    }

    /// Sets the layer.
    #[must_use]
    pub fn in_layer(self, layer: Layer) -> (p: Self)
        ensures
            p@ == (Movement { layer, ..self@ }),
    {
        let mut p = self;
        p.layer = layer;
        p
    }

    /// Sets the dimensions.
    #[must_use]
    pub fn with_dimensions(self, dimensions: Dimensions) -> (p: Self)
        ensures
            p@ == (Movement { dimensions: dimensions@, ..self@ }),
    {
        let mut p = self;
        p.dimensions = dimensions;
        p
    }

    /// Returns the same movement on the opposite side.
    ///
    /// This is how a reversal is built: the magnitude is untouched and the side
    /// flips, so no arithmetic is performed and no overflow is possible.
    #[must_use]
    pub fn inverted(&self) -> (p: Self)
        ensures
            p@ == flipped(self@),
    {
        Posting {
            account: self.account,
            direction: self.direction.inverse(),
            amount: self.amount,
            currency: self.currency,
            layer: self.layer,
            dimensions: self.dimensions.clone(),
        }
    }

    /// The signed contribution of this posting, debit positive.
    ///
    /// Convenient for netting. Prefer [`Direction`] and magnitudes when gross
    /// turnover matters, since a signed total cannot reproduce it.
    pub fn signed(&self) -> (r: Result<Amount<P>, MoneyError>)
        ensures
            r == money::amount_or_overflow::<P>(
                match self.direction {
                    Direction::Debit => self.amount.minor as int,
                    Direction::Credit => -self.amount.minor,
                },
            ),
    {
        match self.direction {
            Direction::Debit => Ok(self.amount),
            Direction::Credit => self.amount.checked_neg(),
        }
    }
}

impl<const P: u8> Canonical for Posting<P> {
    open spec fn encoding(&self) -> Seq<u8> {
        movement_encoding(self@)
    }

    fn encode(&self, w: &mut CanonicalWriter) {
        w.u32(self.account.position);
        w.u8(self.direction.discriminant());
        w.i64(self.amount.minor);
        w.fixed(self.currency.as_bytes().as_slice());
        w.u8(self.layer.discriminant());
        self.dimensions.encode(w);
        assert(w@ =~= old(w)@ + self.encoding());
    }
}

/// Reversing a posting twice gives the posting back.
pub proof fn law_inverting_twice_restores(m: Movement)
    ensures
        flipped(flipped(m)) == m,
{
}

} // verus!
