//! Ordering segment positions by weight.

use vstd::prelude::*;
use vstd::relations::{sorted_by, total_ordering};

verus! {

/// The order in which segments are taken: the lighter one first, and among equally
/// heavy ones the older one first.
pub open spec fn no_later(weights: Seq<usize>, a: usize, b: usize) -> bool {
    weights[a as int] < weights[b as int] || (weights[a as int] == weights[b as int] && a <= b)
}

/// [`no_later`] as a relation.
pub open spec fn lightest_first(weights: Seq<usize>) -> spec_fn(usize, usize) -> bool {
    |a: usize, b: usize| no_later(weights, a, b)
}

/// `picks`, lightest first.
pub open spec fn ordered(weights: Seq<usize>, picks: Seq<usize>) -> Seq<usize> {
    picks.sort_by(lightest_first(weights))
}

/// Taking lighter segments first is a total order.
pub proof fn lightest_first_is_total(weights: Seq<usize>)
    ensures
        total_ordering(lightest_first(weights)),
{
}

/// There is one way to order: whatever holds the same positions, lightest first, is it.
pub proof fn ordered_is_unique(weights: Seq<usize>, picks: Seq<usize>, sorted: Seq<usize>)
    requires
        sorted_by(sorted, lightest_first(weights)),
        sorted.to_multiset() == picks.to_multiset(),
    ensures
        ordered(weights, picks) == sorted,
{
    lightest_first_is_total(weights);
    picks.lemma_sort_by_ensures(lightest_first(weights));
    vstd::seq_lib::lemma_sorted_unique(
        sorted,
        ordered(weights, picks),
        lightest_first(weights),
    );
}

/// Ordering keeps what is ordered, each as often as before.
pub proof fn ordered_rearranges(weights: Seq<usize>, picks: Seq<usize>)
    ensures
        ordered(weights, picks).to_multiset() == picks.to_multiset(),
        ordered(weights, picks).len() == picks.len(),
        sorted_by(ordered(weights, picks), lightest_first(weights)),
        forall|x: usize| #[trigger] ordered(weights, picks).contains(x) <==> picks.contains(x),
{
    broadcast use vstd::seq_lib::group_to_multiset_ensures;

    lightest_first_is_total(weights);
    picks.lemma_sort_by_ensures(lightest_first(weights));
    assert(ordered(weights, picks).to_multiset().len() == picks.to_multiset().len());
    assert forall|x: usize| #[trigger] ordered(weights, picks).contains(x) <==> picks.contains(
        x,
    ) by {
        assert(ordered(weights, picks).to_multiset().count(x) == picks.to_multiset().count(x));
    }
}

/// The positions in `picks`, lightest first.
pub(crate) fn order(picks: &[usize], weights: &[usize]) -> (sorted: Vec<usize>)
    requires
        forall|i: int| 0 <= i < picks@.len() ==> #[trigger] picks@[i] < weights@.len(),
    ensures
        sorted@ == ordered(weights@, picks@),
{
    let ghost leq = lightest_first(weights@);
    let mut sorted: Vec<usize> = Vec::new();
    let mut i: usize = 0;
    assert(picks@.take(0) =~= sorted@);
    while i < picks.len()
        invariant
            i <= picks@.len(),
            leq == lightest_first(weights@),
            forall|k: int| 0 <= k < picks@.len() ==> #[trigger] picks@[k] < weights@.len(),
            forall|k: int| 0 <= k < sorted@.len() ==> #[trigger] sorted@[k] < weights@.len(),
            sorted_by(sorted@, leq),
            sorted@.to_multiset() == picks@.take(i as int).to_multiset(),
        decreases picks@.len() - i,
    {
        let pick = picks[i];
        let mut at: usize = sorted.len();
        while at > 0 && (weights[pick] < weights[sorted[at - 1]] || (weights[pick]
            == weights[sorted[at - 1]] && pick < sorted[at - 1]))
            invariant
                at <= sorted@.len(),
                pick < weights@.len(),
                forall|k: int| 0 <= k < sorted@.len() ==> #[trigger] sorted@[k] < weights@.len(),
                forall|k: int|
                    at <= k < sorted@.len() ==> no_later(weights@, pick, #[trigger] sorted@[k]),
            decreases at,
        {
            at -= 1;
        }
        let ghost before = sorted@;
        sorted.insert(at, pick);
        proof {
            vstd::seq_lib::to_multiset_insert(before, at as int, pick);
            assert(picks@.take(i + 1) =~= picks@.take(i as int).push(pick));
            vstd::seq_lib::to_multiset_build(picks@.take(i as int), pick);
            assert forall|a: int, b: int| 0 <= a < b < sorted@.len() implies #[trigger] leq(
                sorted@[a],
                sorted@[b],
            ) by {
                let a0 = if a < at { a } else { a - 1 };
                let b0 = if b < at { b } else { b - 1 };
                if a != at && b != at {
                    assert(leq(before[a0], before[b0]));
                } else if b == at {
                    assert(a < at);
                    assert(no_later(weights@, before[at - 1], pick));
                    assert(a < at - 1 ==> leq(before[a], before[at - 1]));
                }
            }
        }
        i += 1;
    }
    proof {
        assert(picks@.take(i as int) =~= picks@);
        ordered_is_unique(weights@, picks@, sorted@);
    }
    sorted
}

/// A filtered sequence without duplicates has none.
pub proof fn filter_keeps_distinct(s: Seq<usize>, keep: spec_fn(usize) -> bool)
    requires
        s.no_duplicates(),
    ensures
        s.filter(keep).no_duplicates(),
    decreases s.len(),
{
    if s.len() > 0 {
        let rest = s.drop_last();
        filter_keeps_distinct(rest, keep);
        assert(s =~= rest.push(s.last()));
        rest.lemma_filter_push(s.last(), keep);
        assert forall|i: int| 0 <= i < rest.filter(keep).len() implies rest.filter(keep)[i]
            != s.last() by {
            assert(rest.filter(keep).contains(rest.filter(keep)[i]));
            rest.lemma_filter_contains_rev(keep, rest.filter(keep)[i]);
        }
    }
}

/// A rearranged sequence without duplicates has none.
pub proof fn same_elements_stay_distinct(a: Seq<usize>, b: Seq<usize>)
    requires
        a.no_duplicates(),
        a.to_multiset() == b.to_multiset(),
    ensures
        b.no_duplicates(),
{
    a.lemma_multiset_has_no_duplicates();
    b.lemma_multiset_has_no_duplicates_conv();
}

/// Ordering all positions keeps each of them once.
pub proof fn ordered_positions(weights: Seq<usize>, n: nat)
    requires
        n <= usize::MAX,
    ensures
        ({
            let all = crate::state::positions(n);
            &&& ordered(weights, all).len() == n
            &&& ordered(weights, all).no_duplicates()
            &&& forall|i: int| 0 <= i < n ==> #[trigger] ordered(weights, all)[i] < n
        }),
{
    let all = crate::state::positions(n);
    let sorted = ordered(weights, all);
    ordered_rearranges(weights, all);
    crate::state::positions_are_distinct(n);
    same_elements_stay_distinct(all, sorted);
    assert forall|i: int| 0 <= i < n implies #[trigger] sorted[i] < n by {
        assert(sorted.contains(sorted[i]));
        assert(all.contains(sorted[i]));
    }
}

} // verus!
