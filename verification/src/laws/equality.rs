//! When values compare as equal.

use crate::balance::Balance;
use crate::hash::Digest;
use crate::merkle::TreeHead;
use crate::money::Amount;
use vstd::prelude::*;
use vstd::std_specs::cmp::PartialEqSpec;

verus! {

/// Amounts, balances, hashes and tree heads compare as equal exactly when they are
/// the same.
pub proof fn law_values_compare_equal_when_the_same<const P: u8>(
    a: Amount<P>,
    b: Amount<P>,
    x: Balance<P>,
    y: Balance<P>,
    p: Digest,
    q: Digest,
    s: TreeHead,
    t: TreeHead,
)
    ensures
        a.eq_spec(&b) <==> a == b,
        x.eq_spec(&y) <==> x == y,
        p.eq_spec(&q) <==> p == q,
        s.eq_spec(&t) <==> s == t,
        Amount::<P>::obeys_eq_spec(),
        Balance::<P>::obeys_eq_spec(),
        Digest::obeys_eq_spec(),
        TreeHead::obeys_eq_spec(),
{
}

} // verus!
