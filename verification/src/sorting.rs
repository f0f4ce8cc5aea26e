//! Sorting.

use vstd::multiset::*;
use vstd::prelude::*;
use vstd::seq_lib::*;

verus! {

/// The order of three integers: by the first, then by the second, then by the
/// third.
pub open spec fn at_most(a: (u128, u16, usize), b: (u128, u16, usize)) -> bool {
    a.0 < b.0 || (a.0 == b.0 && (a.1 < b.1 || (a.1 == b.1 && a.2 <= b.2)))
}

/// The slice method `sort`, which orders tuples of integers by the first, then by
/// the second and then by the third: the same tuples come back, in ascending
/// order.
#[verifier::external_body]
pub(crate) fn sort_triples(triples: &mut Vec<(u128, u16, usize)>)
    ensures
        final(triples)@.to_multiset() == old(triples)@.to_multiset(),
        forall|i: int, j: int|
            0 <= i <= j < final(triples)@.len() ==> at_most(
                #[trigger] final(triples)@[i],
                #[trigger] final(triples)@[j],
            ),
{
    triples.sort();
}

/// How many of `triples` come strictly before `x`.
pub open spec fn count_before(triples: Seq<(u128, u16, usize)>, x: (u128, u16, usize)) -> nat
    decreases triples.len(),
{
    if triples.len() == 0 {
        0
    } else {
        count_before(triples.drop_last(), x) + if at_most(x, triples.last()) {
            0nat
        } else {
            1nat
        }
    }
}

proof fn lemma_count_before_is_of_multiset(triples: Seq<(u128, u16, usize)>, x: (u128, u16, usize))
    ensures
        count_before(triples, x) == triples.to_multiset().filter(
            |y: (u128, u16, usize)| !at_most(x, y),
        ).len(),
    decreases triples.len(),
{
    broadcast use group_multiset_axioms;

    let ahead = |y: (u128, u16, usize)| !at_most(x, y);
    if triples.len() == 0 {
        triples.to_multiset_ensures();
        assert(triples.to_multiset().filter(ahead) =~= Multiset::empty());
    } else {
        let rest = triples.drop_last();
        let last = triples.last();
        lemma_count_before_is_of_multiset(rest, x);
        assert(triples =~= rest.push(last));
        to_multiset_build(rest, last);
        let m = rest.to_multiset();
        if ahead(last) {
            assert(m.insert(last).filter(ahead) =~= m.filter(ahead).insert(last));
        } else {
            assert(m.insert(last).filter(ahead) =~= m.filter(ahead));
        }
    }
}

proof fn lemma_count_before_in_sorted(sorted: Seq<(u128, u16, usize)>, p: int, k: int)
    requires
        sorted.no_duplicates(),
        forall|i: int, j: int|
            0 <= i <= j < sorted.len() ==> at_most(
                #[trigger] sorted[i],
                #[trigger] sorted[j],
            ),
        0 <= p < sorted.len(),
        0 <= k <= sorted.len(),
    ensures
        count_before(sorted.take(k), sorted[p]) == (if k < p {
            k
        } else {
            p
        }),
    decreases k,
{
    if k > 0 {
        lemma_count_before_in_sorted(sorted, p, k - 1);
        assert(sorted.take(k).drop_last() =~= sorted.take(k - 1));
        if k - 1 < p {
            assert(at_most(sorted[k - 1], sorted[p]));
            assert(sorted[k - 1] != sorted[p]);
        } else {
            assert(at_most(sorted[p], sorted[k - 1]));
        }
    }
}

/// Sorting distinct triples puts each at the position that the number of triples
/// before it gives.
pub proof fn lemma_sorted_positions(triples: Seq<(u128, u16, usize)>, sorted: Seq<(u128, u16, usize)>)
    requires
        triples.no_duplicates(),
        sorted.to_multiset() == triples.to_multiset(),
        forall|i: int, j: int|
            0 <= i <= j < sorted.len() ==> at_most(
                #[trigger] sorted[i],
                #[trigger] sorted[j],
            ),
    ensures
        sorted.no_duplicates(),
        sorted.len() == triples.len(),
        forall|x: (u128, u16, usize)| #[trigger] sorted.contains(x) <==> triples.contains(x),
        forall|p: int|
            0 <= p < sorted.len() ==> count_before(triples, #[trigger] sorted[p]) == p,
{
    triples.lemma_multiset_has_no_duplicates();
    sorted.lemma_multiset_has_no_duplicates_conv();
    triples.to_multiset_ensures();
    sorted.to_multiset_ensures();
    assert forall|x: (u128, u16, usize)| #[trigger] sorted.contains(x) <==> triples.contains(x) by {
        assert(sorted.contains(x) <==> sorted.to_multiset().count(x) > 0);
        assert(triples.contains(x) <==> triples.to_multiset().count(x) > 0);
    }
    assert forall|p: int| 0 <= p < sorted.len() implies count_before(triples, #[trigger] sorted[p])
        == p by {
        lemma_count_before_is_of_multiset(triples, sorted[p]);
        lemma_count_before_is_of_multiset(sorted, sorted[p]);
        lemma_count_before_in_sorted(sorted, p, sorted.len() as int);
        assert(sorted.take(sorted.len() as int) =~= sorted);
    }
}

} // verus!
