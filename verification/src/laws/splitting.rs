//! Sums of amounts, and how amounts are split.

use crate::money::{self, Amount, MoneyError};
use vstd::arithmetic::power;
use vstd::prelude::*;

verus! {

/// A result is the amount asked for, or an overflow where no amount is that large.
pub proof fn law_results_are_exact_or_refused<const P: u8>(minor: int)
    ensures
        match money::amount_or_overflow::<P>(minor) {
            Ok(a) => a.minor == minor,
            Err(e) => e == MoneyError::Overflow && !(-0x8000_0000_0000_0000 <= minor
                <= 0x7fff_ffff_ffff_ffff),
        },
{
}

/// A major unit is ten times as many minor units at each further scale, for as
/// long as that fits an amount.
pub proof fn law_scales_count_in_tens(scale: nat)
    ensures
        money::units_per_major(0) == 1,
        scale < 18 ==> money::units_per_major(scale + 1) == 10 * money::units_per_major(scale),
        scale <= 18 ==> money::units_per_major(scale) == power::pow(10, scale),
        scale > 18 ==> money::units_per_major(scale) == i64::MAX && power::pow(10, scale) > i64::MAX,
    decreases scale,
{
    lemma_ten_to(scale);
    if scale > 18 {
        money::lemma_ten_to_18();
        lemma_ten_to(18);
        power::lemma_pow_adds(10, 18, (scale - 18) as nat);
        lemma_at_least_ten((scale - 18) as nat);
        let p = power::pow(10, (scale - 18) as nat);
        assert(power::pow(10, 18) * p >= power::pow(10, 18) * 10) by (nonlinear_arith)
            requires
                p >= 10,
                power::pow(10, 18) > 0,
        ;
    }
}

proof fn lemma_ten_to(n: nat)
    ensures
        money::ten_to(n) == power::pow(10, n),
    decreases n,
{
    reveal(power::pow);
    if n > 0 {
        lemma_ten_to((n - 1) as nat);
    }
}

proof fn lemma_at_least_ten(n: nat)
    requires
        n >= 1,
    ensures
        power::pow(10, n) >= 10,
    decreases n,
{
    if n == 1 {
        power::lemma_pow1(10);
    } else {
        lemma_at_least_ten((n - 1) as nat);
        reveal(power::pow);
    }
}

/// Sums add up: nothing sums to nothing, one more amount adds itself, and two
/// lists sum to what both do.
pub proof fn law_sums_add_up<const P: u8>(a: Seq<Amount<P>>, b: Seq<Amount<P>>, x: Amount<P>)
    ensures
        money::sum_minor(Seq::<Amount<P>>::empty()) == 0,
        money::sum_minor(a.push(x)) == money::sum_minor(a) + x.minor,
        money::sum_minor(a + b) == money::sum_minor(a) + money::sum_minor(b),
    decreases b.len(),
{
    assert(a.push(x).drop_last() =~= a);
    if b.len() == 0 {
        assert(a + b =~= a);
    } else {
        law_sums_add_up(a, b.drop_last(), x);
        assert((a + b).drop_last() =~= a + b.drop_last());
        assert((a + b).last() == b.last());
    }
}

/// A sum fits exactly when what the first so many amounts come to fits, however
/// many they are.
pub proof fn law_sums_fit_when_every_prefix_does<const P: u8>(a: Seq<Amount<P>>, x: Amount<P>)
    ensures
        money::sums_fit(Seq::<Amount<P>>::empty()),
        money::sums_fit(a.push(x)) <==> money::sums_fit(a) && i64::MIN <= money::sum_minor(a)
            + x.minor <= i64::MAX,
{
    let longer = a.push(x);
    assert forall|k: int| 0 <= k <= Seq::<Amount<P>>::empty().len() implies i64::MIN
        <= #[trigger] money::sum_minor(Seq::<Amount<P>>::empty().take(k)) <= i64::MAX by {
        assert(Seq::<Amount<P>>::empty().take(k) =~= Seq::<Amount<P>>::empty());
    }
    assert(longer.take(longer.len() as int) =~= longer);
    assert(longer.drop_last() =~= a);
    if money::sums_fit(longer) {
        assert forall|k: int| 0 <= k <= a.len() implies i64::MIN <= #[trigger] money::sum_minor(
            a.take(k),
        ) <= i64::MAX by {
            assert(longer.take(k) =~= a.take(k));
            assert(i64::MIN <= money::sum_minor(longer.take(k)) <= i64::MAX);
        }
        assert(i64::MIN <= money::sum_minor(longer.take(longer.len() as int)) <= i64::MAX);
    }
    if money::sums_fit(a) && i64::MIN <= money::sum_minor(a) + x.minor <= i64::MAX {
        assert forall|k: int| 0 <= k <= longer.len() implies i64::MIN
            <= #[trigger] money::sum_minor(longer.take(k)) <= i64::MAX by {
            if k <= a.len() {
                assert(longer.take(k) =~= a.take(k));
                assert(i64::MIN <= money::sum_minor(a.take(k)) <= i64::MAX);
            }
        }
    }
}

/// A magnitude with its sign is the number it came from.
pub proof fn law_magnitudes_keep_their_number(v: int)
    ensures
        money::with_sign_of(v, money::magnitude_of(v)) == v,
        money::magnitude_of(v) == v || money::magnitude_of(v) == -v,
        forall|m: nat|
            #[trigger] money::with_sign_of(v, m) == (if v < 0 {
                -(m as int)
            } else {
                m as int
            }),
{
}

/// Weights add up.
pub proof fn law_weights_add_up(weights: Seq<u64>, w: u64)
    ensures
        money::weight_sum(Seq::<u64>::empty()) == 0,
        money::weight_sum(weights.push(w)) == money::weight_sum(weights) + w,
{
    assert(weights.push(w).drop_last() =~= weights);
}

// ── proportional splits ─────────────────────────────────────────────────────

proof fn lemma_ahead_of(magnitude: nat, weights: Seq<u64>, i: int, j: int, k: int)
    requires
        0 <= i,
        0 <= j,
        money::comes_ahead(magnitude, weights, j, i),
    ensures
        money::parts_ahead(magnitude, weights, j, k) <= money::parts_ahead(
            magnitude,
            weights,
            i,
            k,
        ),
    decreases k,
{
    if k > 0 {
        lemma_ahead_of(magnitude, weights, i, j, k - 1);
    }
}

/// A proportional split is by largest remainder. With the weight of part `i` the
/// exact share is a fraction; a part receives that fraction rounded down or up, so
/// it is never a whole unit off, and where one part is rounded up and another is
/// not, the first had the larger remainder, or stood ahead of it with the same.
pub proof fn law_splits_are_by_largest_remainder(magnitude: nat, weights: Seq<u64>, i: int, j: int)
    requires
        money::weight_sum(weights) > 0,
        0 <= i < weights.len(),
        0 <= j < weights.len(),
    ensures
        ({
            let total = money::weight_sum(weights) as int;
            let (exact, other) = (
                magnitude as int * weights[i] as int,
                magnitude as int * weights[j] as int,
            );
            let (up, down) = (
                money::share(magnitude, weights, i) as int,
                money::share(magnitude, weights, j) as int,
            );
            &&& exact - total < up * total <= exact + total
            &&& up * total > exact && down * total <= other ==> exact % total > other % total || (
            exact % total == other % total && i < j)
        }),
{
    let total = money::weight_sum(weights) as int;
    let (exact, other) = (
        magnitude as int * weights[i] as int,
        magnitude as int * weights[j] as int,
    );
    let (a, b) = (money::quota(magnitude, weights, i), money::quota(magnitude, weights, j));
    assert(magnitude * (weights[i] as nat) == exact);
    assert(magnitude * (weights[j] as nat) == other);
    vstd::arithmetic::div_mod::lemma_fundamental_div_mod(exact, total);
    vstd::arithmetic::div_mod::lemma_fundamental_div_mod(other, total);
    assert(total * (exact / total) == (exact / total) * total) by (nonlinear_arith);
    assert(total * (other / total) == (other / total) * total) by (nonlinear_arith);
    let (up, down) = (
        money::share(magnitude, weights, i) as int,
        money::share(magnitude, weights, j) as int,
    );
    let n = weights.len() as int;
    let (q, r) = (exact / total, other / total);
    assert((q + 1) * total == q * total + total) by (nonlinear_arith);
    assert((r + 1) * total == r * total + total) by (nonlinear_arith);
    assert(0 <= exact % total < total && 0 <= other % total < total);
    if up * total > exact && down * total <= other {
        assert(up == q + 1);
        assert(down == r);
        if i != j && money::comes_ahead(magnitude, weights, j, i) {
            lemma_ahead_of(magnitude, weights, i, j, n);
        }
    }
}

/// An even split gives every part the same, and one unit more to the leading parts
/// as far as units are left over.
pub proof fn law_even_splits_favour_the_leading_parts(magnitude: nat, n: nat, i: int, j: int)
    requires
        0 <= i <= j < n,
    ensures
        money::even_share(magnitude, n, j) <= money::even_share(magnitude, n, i)
            <= money::even_share(magnitude, n, j) + 1,
        money::even_share(magnitude, n, n - 1) * n <= magnitude < (money::even_share(
            magnitude,
            n,
            n - 1,
        ) + 1) * n,
        (money::even_share(magnitude, n, i) > money::even_share(magnitude, n, n - 1)) <==> i
            < magnitude - money::even_share(magnitude, n, n - 1) * n,
{
    let (m, d) = (magnitude as int, n as int);
    vstd::arithmetic::div_mod::lemma_fundamental_div_mod(m, d);
    assert(d * (m / d) == (m / d) * d) by (nonlinear_arith);
    let q = m / d;
    assert((q + 1) * d == q * d + d) by (nonlinear_arith);
    assert(0 <= m % d < d);
    assert(money::even_share(magnitude, n, n - 1) == q);
}

/// A currency code is three capital letters.
pub proof fn law_currency_codes_are_three_capitals(code: Seq<u8>)
    ensures
        money::currency_code(code) <==> {
            &&& code.len() == 3
            &&& forall|i: int| 0 <= i < code.len() ==> 'A' as u8 <= #[trigger] code[i] <= 'Z' as u8
        },
{
    if money::currency_code(code) {
        assert forall|i: int| 0 <= i < code.len() implies 'A' as u8 <= #[trigger] code[i]
            <= 'Z' as u8 by {
            assert(money::uppercase(code[i]));
        }
    }
    if code.len() == 3 && (forall|i: int|
        0 <= i < code.len() ==> 'A' as u8 <= #[trigger] code[i] <= 'Z' as u8) {
        assert('A' as u8 <= code[0] <= 'Z' as u8);
        assert('A' as u8 <= code[1] <= 'Z' as u8);
        assert('A' as u8 <= code[2] <= 'Z' as u8);
    }
}

} // verus!
