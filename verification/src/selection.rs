//! What size tiering chooses, said without the way it chooses.
//!
//! Bucketing and choosing are computed step by step. The laws here say what comes out:
//! which bucket a segment joins, which segments of a bucket a merge takes, which bucket
//! is merged first, and when there is something to merge at all.

use crate::band::{MeanSize, RatioBand, SizeBand};
use crate::config::TierConfig;
use crate::order::{ordered, ordered_rearranges, same_elements_stay_distinct};
use crate::tiers::{
    bucketed, bucketed_draws, bucketed_step, fitting, floored, group_of, home, items_at,
    least_group, lightest_bucket, lightest_bucket_is_worth_it, merge_choice, placed, size_buckets,
    unfrozen, unfrozen_are_positions, Bucket,
};
use vstd::prelude::*;

verus! {

/// One segment comes before another: it is lighter, or as heavy and older.
pub open spec fn before(sizes: Seq<usize>, a: usize, b: usize) -> bool {
    sizes[a as int] < sizes[b as int] || (sizes[a as int] == sizes[b as int] && a < b)
}

/// What the sizes at `picks` add up to.
pub open spec fn summed(sizes: Seq<usize>, picks: Seq<usize>) -> int {
    picks.map_values(|i: usize| sizes[i as int] as int).fold_left(0, |sum: int, n: int| sum + n)
}

/// The items at some positions are what the sizes there add up to.
pub proof fn items_are_summed(sizes: Seq<usize>, picks: Seq<usize>)
    ensures
        items_at(sizes, picks) == summed(sizes, picks),
    decreases picks.len(),
{
    let count = |i: usize| sizes[i as int] as int;
    let all = picks.map_values(count);
    if picks.len() > 0 {
        items_are_summed(sizes, picks.drop_last());
        assert(all.drop_last() =~= picks.drop_last().map_values(count));
        assert(all.last() == count(picks.last()));
    }
}

/// Ordering rearranges, and puts the lighter before the heavier, and among equally heavy
/// ones the older before the newer.
pub proof fn ordering_puts_the_lighter_first(weights: Seq<usize>, picks: Seq<usize>)
    ensures
        ordered(weights, picks).to_multiset() == picks.to_multiset(),
        ordered(weights, picks).len() == picks.len(),
        forall|i: int, j: int|
            #![trigger ordered(weights, picks)[i], ordered(weights, picks)[j]]
            0 <= i < j < picks.len() ==> {
                let a = ordered(weights, picks)[i];
                let b = ordered(weights, picks)[j];
                weights[a as int] < weights[b as int] || (weights[a as int] == weights[b as int]
                    && a <= b)
            },
        picks.no_duplicates() ==> forall|i: int, j: int|
            #![trigger ordered(weights, picks)[i], ordered(weights, picks)[j]]
            0 <= i < j < picks.len() ==> before(
                weights,
                ordered(weights, picks)[i],
                ordered(weights, picks)[j],
            ),
{
    let leq = crate::order::lightest_first(weights);
    let sorted = ordered(weights, picks);
    ordered_rearranges(weights, picks);
    assert forall|i: int, j: int|
        #![trigger sorted[i], sorted[j]]
        0 <= i < j < picks.len() implies {
        let a = sorted[i];
        let b = sorted[j];
        weights[a as int] < weights[b as int] || (weights[a as int] == weights[b as int] && a <= b)
    } by {
        assert(leq(sorted[i], sorted[j]));
    }
    if picks.no_duplicates() {
        same_elements_stay_distinct(picks, sorted);
    }
}

/// [`home`] is the first bucket that admits the size, if one does.
proof fn home_is_the_first<B: SizeBand>(
    band: B,
    buckets: Seq<Bucket<B::Average>>,
    size: usize,
    from: nat,
)
    requires
        from <= buckets.len(),
    ensures
        from <= home(band, buckets, size, from) <= buckets.len(),
        home(band, buckets, size, from) < buckets.len() ==> band.admitted(
            buckets[home(band, buckets, size, from) as int].average,
            size,
        ),
        forall|c: int|
            from <= c < home(band, buckets, size, from) ==> !band.admitted(
                (#[trigger] buckets[c]).average,
                size,
            ),
    decreases buckets.len() - from,
{
    if from < buckets.len() && !band.admitted(buckets[from as int].average, size) {
        home_is_the_first(band, buckets, size, from + 1);
    }
}

/// A segment opens a bucket of its own only where no bucket's band admits its size;
/// otherwise it joins the first bucket that does. The other buckets stay as they are.
pub proof fn a_segment_joins_the_first_bucket_that_admits_it<B: SizeBand>(
    band: B,
    weights: Seq<usize>,
    picks: Seq<usize>,
    pick: usize,
)
    ensures
        bucketed(band, weights, Seq::empty()).len() == 0,
        ({
            let old_ones = bucketed(band, weights, picks);
            let new_ones = bucketed(band, weights, picks.push(pick));
            let size = weights[pick as int];
            &&& (forall|b: int|
                0 <= b < old_ones.len() ==> !band.admitted((#[trigger] old_ones[b]).average, size))
                ==> {
                &&& new_ones.len() == old_ones.len() + 1
                &&& forall|b: int| 0 <= b < old_ones.len() ==> new_ones[b] == #[trigger] old_ones[b]
                &&& new_ones.last().members == seq![pick]
                &&& new_ones.last().average == band.opened(size)
            }
            &&& forall|b: int|
                0 <= b < old_ones.len() && band.admitted((#[trigger] old_ones[b]).average, size)
                    && (forall|c: int|
                    0 <= c < b ==> !band.admitted((#[trigger] old_ones[c]).average, size)) ==> {
                    &&& new_ones.len() == old_ones.len()
                    &&& forall|c: int|
                        0 <= c < old_ones.len() && c != b ==> new_ones[c] == #[trigger] old_ones[c]
                    &&& new_ones[b].members == old_ones[b].members.push(pick)
                    &&& new_ones[b].average == band.joined(
                        old_ones[b].average,
                        old_ones[b].members.len(),
                        size,
                    )
                }
        }),
{
    let old_ones = bucketed(band, weights, picks);
    let new_ones = bucketed(band, weights, picks.push(pick));
    let size = weights[pick as int];
    assert(picks.push(pick).drop_last() =~= picks);
    assert(new_ones == placed(band, weights, old_ones, pick));
    home_is_the_first(band, old_ones, size, 0);
    let at = home(band, old_ones, size, 0) as int;
    assert(at < old_ones.len() ==> band.admitted(old_ones[at].average, size));
    assert forall|b: int|
        0 <= b < old_ones.len() && band.admitted((#[trigger] old_ones[b]).average, size) && (forall|
            c: int,
        |
            0 <= c < b ==> !band.admitted((#[trigger] old_ones[c]).average, size)) implies b
        == at by {
        if b < at {
            assert(!band.admitted(old_ones[b].average, size));
        }
    }
}

/// `group` is what one merge takes of a bucket: its lightest members, lightest first, as
/// many as `max_merge` and `max_merged_len` allow.
pub open spec fn lightest_fit<B>(
    sizes: Seq<usize>,
    cfg: TierConfig<B>,
    members: Seq<usize>,
    group: Seq<usize>,
) -> bool {
    &&& forall|k: int| 0 <= k < group.len() ==> members.contains(#[trigger] group[k])
    &&& forall|i: int, j: int|
        #![trigger group[i], group[j]]
        0 <= i < j < group.len() ==> before(sizes, group[i], group[j])
    &&& forall|k: int, other: usize|
        #![trigger group[k], members.contains(other)]
        0 <= k < group.len() && members.contains(other) && !group.contains(other) ==> before(
            sizes,
            group[k],
            other,
        )
    &&& group.len() <= cfg.max_merge
    &&& group.len() <= 1 || summed(sizes, group) <= cfg.max_merged_len
    &&& forall|other: usize| #[trigger]
        members.contains(other) && !group.contains(other) ==> group.len() == cfg.max_merge || (
        group.len() > 0 && summed(sizes, group) + sizes[other as int] > cfg.max_merged_len)
}

/// Where a merge stops: at the end, at `max_merge`, or where the next segment would go
/// past `max_merged_len`.
proof fn fitting_stops<B>(
    sizes: Seq<usize>,
    cfg: TierConfig<B>,
    sorted: Seq<usize>,
    taken: nat,
)
    requires
        taken <= sorted.len(),
        taken <= cfg.max_merge,
        taken <= 1 || items_at(sizes, sorted.take(taken as int)) <= cfg.max_merged_len,
    ensures
        ({
            let k = fitting(sizes, cfg, sorted, taken);
            &&& taken <= k <= sorted.len()
            &&& k <= cfg.max_merge
            &&& k <= 1 || items_at(sizes, sorted.take(k as int)) <= cfg.max_merged_len
            &&& k == sorted.len() || k == cfg.max_merge || (k > 0 && items_at(
                sizes,
                sorted.take(k as int),
            ) + sizes[sorted[k as int] as int] > cfg.max_merged_len)
        }),
    decreases sorted.len() - taken,
{
    if taken < sorted.len() && taken < cfg.max_merge && (taken == 0 || items_at(
        sizes,
        sorted.take(taken as int),
    ) + sizes[sorted[taken as int] as int] <= cfg.max_merged_len) {
        let more = sorted.take(taken as int + 1);
        assert(more.drop_last() =~= sorted.take(taken as int));
        assert(more.last() == sorted[taken as int]);
        fitting_stops(sizes, cfg, sorted, taken + 1);
    }
}

/// A bucket is worth a merge exactly where its lightest members that fit are at least two
/// and at least `min_merge`, and the merge takes those.
pub proof fn a_merge_takes_the_lightest_that_fit<B>(
    sizes: Seq<usize>,
    cfg: TierConfig<B>,
    members: Seq<usize>,
) -> (group: Seq<usize>)
    requires
        members.no_duplicates(),
    ensures
        lightest_fit(sizes, cfg, members, group),
        group_of(sizes, cfg, members) == if group.len() >= 2 && group.len() >= cfg.min_merge {
            Some(group)
        } else {
            None
        },
{
    let sorted = ordered(sizes, members);
    let n = fitting(sizes, cfg, sorted, 0);
    let group = sorted.take(n as int);
    ordering_puts_the_lighter_first(sizes, members);
    ordered_rearranges(sizes, members);
    fitting_stops(sizes, cfg, sorted, 0);
    items_are_summed(sizes, group);
    assert forall|k: int| 0 <= k < group.len() implies members.contains(#[trigger] group[k]) by {
        assert(sorted.contains(sorted[k]));
    }
    assert forall|i: int, j: int|
        #![trigger group[i], group[j]]
        0 <= i < j < group.len() implies before(sizes, group[i], group[j]) by {
        assert(group[i] == sorted[i] && group[j] == sorted[j]);
    }
    assert forall|other: usize| #[trigger]
        members.contains(other) && !group.contains(other) implies exists|at: int|
        n <= at < sorted.len() && #[trigger] sorted[at] == other by {
        assert(sorted.contains(other));
        let at = choose|at: int| 0 <= at < sorted.len() && sorted[at] == other;
        if at < n {
            assert(group[at] == other);
        }
    }
    assert forall|k: int, other: usize|
        #![trigger group[k], members.contains(other)]
        0 <= k < group.len() && members.contains(other) && !group.contains(
            other,
        ) implies before(sizes, group[k], other) by {
        let at = choose|at: int| n <= at < sorted.len() && #[trigger] sorted[at] == other;
        assert(group[k] == sorted[k]);
    }
    assert forall|other: usize| #[trigger]
        members.contains(other) && !group.contains(other) implies group.len() == cfg.max_merge || (
    group.len() > 0 && summed(sizes, group) + sizes[other as int] > cfg.max_merged_len) by {
        let at = choose|at: int| n <= at < sorted.len() && #[trigger] sorted[at] == other;
        assert(n < at ==> before(sizes, sorted[n as int], sorted[at]));
    }
    group
}

/// The averages of some buckets can be told apart like numbers: being lower is
/// transitive, never of itself, and what is lower than another is lower than, or has
/// above it, any third.
pub open spec fn told_apart<B: SizeBand>(band: B, buckets: Seq<Bucket<B::Average>>) -> bool {
    &&& forall|i: int|
        0 <= i < buckets.len() ==> !band.lower(
            (#[trigger] buckets[i]).average,
            buckets[i].average,
        )
    &&& forall|i: int, j: int, k: int|
        #![trigger buckets[i], buckets[j], buckets[k]]
        0 <= i < buckets.len() && 0 <= j < buckets.len() && 0 <= k < buckets.len() ==> {
            &&& band.lower(buckets[i].average, buckets[j].average) && band.lower(
                buckets[j].average,
                buckets[k].average,
            ) ==> band.lower(buckets[i].average, buckets[k].average)
            &&& band.lower(buckets[i].average, buckets[j].average) ==> band.lower(
                buckets[i].average,
                buckets[k].average,
            ) || band.lower(buckets[k].average, buckets[j].average)
        }
}

/// Of the buckets worth it, the one chosen has the lowest average, and was opened first
/// among those with that average.
proof fn the_chosen_bucket_is_lowest<B: SizeBand>(
    sizes: Seq<usize>,
    cfg: TierConfig<B>,
    buckets: Seq<Bucket<B::Average>>,
    n: nat,
)
    requires
        n <= buckets.len(),
        told_apart(cfg.band, buckets),
    ensures
        lightest_bucket(sizes, cfg, buckets, n) matches Some(b) ==> {
            &&& 0 <= b < n
            &&& forall|c: int|
                0 <= c < n && group_of(sizes, cfg, (#[trigger] buckets[c]).members) is Some ==> {
                    &&& !cfg.band.lower(buckets[c].average, buckets[b].average)
                    &&& c < b ==> cfg.band.lower(buckets[b].average, buckets[c].average)
                }
        },
    decreases n,
{
    if n > 0 {
        let m = (n - 1) as nat;
        the_chosen_bucket_is_lowest(sizes, cfg, buckets, m);
        lightest_bucket_is_worth_it(sizes, cfg, buckets, m);
        lightest_bucket_is_worth_it(sizes, cfg, buckets, n);
        if let Some(b) = lightest_bucket(sizes, cfg, buckets, n) {
            assert forall|c: int|
                0 <= c < n && group_of(
                    sizes,
                    cfg,
                    (#[trigger] buckets[c]).members,
                ) is Some implies !cfg.band.lower(buckets[c].average, buckets[b].average) && (c < b
                ==> cfg.band.lower(buckets[b].average, buckets[c].average)) by {
                match lightest_bucket(sizes, cfg, buckets, m) {
                    Some(x) => {
                        if c < m {
                            assert(!cfg.band.lower(buckets[c].average, buckets[x].average));
                        }
                        assert(buckets[m as int] == buckets[n - 1]);
                        let bx = buckets[x];
                        let bb = buckets[b];
                    },
                    None => {
                        if c < m {
                            assert(group_of(sizes, cfg, buckets[c].members) is None);
                        }
                    },
                }
            }
        }
    }
}

/// Tiering merges the bucket with the lowest average among those worth a merge (the one
/// opened first among equals), and does nothing only where no bucket is worth one.
///
/// `weights` are the sizes that bucketing goes by, no size being below the flush threshold
/// or below one. `picks` are the segments of at most half the cap, lighter ones first and
/// older ones first among equals. `groups` is what a merge of each bucket would take.
pub proof fn the_lightest_full_bucket_is_merged<B: SizeBand>(
    sizes: Seq<usize>,
    flush_threshold: usize,
    cfg: TierConfig<B>,
    weights: Seq<usize>,
    picks: Seq<usize>,
) -> (groups: Seq<Seq<usize>>)
    requires
        sizes.len() <= usize::MAX,
        weights.len() == sizes.len(),
        forall|i: int|
            0 <= i < sizes.len() ==> (#[trigger] weights[i]) >= flush_threshold && weights[i] >= 1
                && weights[i] >= sizes[i] && (weights[i] == flush_threshold || weights[i] == 1
                || weights[i] == sizes[i]),
        forall|i: usize|
            #[trigger] picks.contains(i) <==> i < sizes.len() && sizes[i as int]
                <= cfg.max_merged_len / 2,
        forall|i: int, j: int|
            #![trigger picks[i], picks[j]]
            0 <= i < j < picks.len() ==> before(weights, picks[i], picks[j]),
        told_apart(cfg.band, bucketed(cfg.band, weights, picks)),
    ensures
        ({
            let buckets = bucketed(cfg.band, weights, picks);
            &&& groups.len() == buckets.len()
            &&& forall|b: int|
                0 <= b < buckets.len() ==> lightest_fit(
                    sizes,
                    cfg,
                    (#[trigger] buckets[b]).members,
                    groups[b],
                )
            &&& match merge_choice(sizes, flush_threshold, cfg) {
                Some(group) => exists|b: int|
                    0 <= b < buckets.len() && group == #[trigger] groups[b] && group.len() >= 2
                        && group.len() >= cfg.min_merge && forall|c: int|
                        0 <= c < buckets.len() && (#[trigger] groups[c]).len() >= 2
                            && groups[c].len() >= cfg.min_merge ==> {
                            &&& !cfg.band.lower(buckets[c].average, buckets[b].average)
                            &&& c < b ==> cfg.band.lower(buckets[b].average, buckets[c].average)
                        },
                None => forall|c: int|
                    0 <= c < buckets.len() ==> (#[trigger] groups[c]).len() < 2 || groups[c].len()
                        < cfg.min_merge,
            }
        }),
{
    let buckets = bucketed(cfg.band, weights, picks);
    assert(weights =~= floored(sizes, flush_threshold));
    picks_are_ordered(sizes, cfg, weights, picks);
    assert(buckets == size_buckets(sizes, flush_threshold, cfg));
    bucketed_draws(cfg.band, weights, picks);
    let groups = Seq::new(
        buckets.len(),
        |b: int|
            choose|group: Seq<usize>|
                lightest_fit(sizes, cfg, buckets[b].members, group) && group_of(
                    sizes,
                    cfg,
                    buckets[b].members,
                ) == if group.len() >= 2 && group.len() >= cfg.min_merge {
                    Some(group)
                } else {
                    None
                },
    );
    assert forall|b: int| 0 <= b < buckets.len() implies {
        &&& lightest_fit(sizes, cfg, (#[trigger] buckets[b]).members, groups[b])
        &&& group_of(sizes, cfg, buckets[b].members) == if groups[b].len() >= 2
            && groups[b].len() >= cfg.min_merge {
            Some(groups[b])
        } else {
            None
        }
    } by {
        let group = a_merge_takes_the_lightest_that_fit(sizes, cfg, buckets[b].members);
    }
    lightest_bucket_is_worth_it(sizes, cfg, buckets, buckets.len());
    the_chosen_bucket_is_lowest(sizes, cfg, buckets, buckets.len());
    match lightest_bucket(sizes, cfg, buckets, buckets.len()) {
        Some(b) => {
            assert(merge_choice(sizes, flush_threshold, cfg) == Some(groups[b]));
            assert forall|c: int|
                0 <= c < buckets.len() && (#[trigger] groups[c]).len() >= 2 && groups[c].len()
                    >= cfg.min_merge implies {
                &&& !cfg.band.lower(buckets[c].average, buckets[b].average)
                &&& c < b ==> cfg.band.lower(buckets[b].average, buckets[c].average)
            } by {
                assert(group_of(sizes, cfg, buckets[c].members) is Some);
            }
        },
        None => {
            assert forall|c: int| 0 <= c < buckets.len() implies (#[trigger] groups[c]).len() < 2
                || groups[c].len() < cfg.min_merge by {
                assert(group_of(sizes, cfg, buckets[c].members) is None);
            }
        },
    }
    groups
}

/// The unfrozen segments in their order are what bucketing goes through.
proof fn picks_are_ordered<B>(
    sizes: Seq<usize>,
    cfg: TierConfig<B>,
    weights: Seq<usize>,
    picks: Seq<usize>,
)
    requires
        sizes.len() <= usize::MAX,
        forall|i: usize|
            #[trigger] picks.contains(i) <==> i < sizes.len() && sizes[i as int]
                <= cfg.max_merged_len / 2,
        forall|i: int, j: int|
            #![trigger picks[i], picks[j]]
            0 <= i < j < picks.len() ==> before(weights, picks[i], picks[j]),
    ensures
        picks == ordered(weights, unfrozen(sizes, cfg)),
        picks.no_duplicates(),
{
    broadcast use vstd::seq_lib::group_to_multiset_ensures;

    let free = unfrozen(sizes, cfg);
    unfrozen_are_positions(sizes, cfg);
    assert(picks.no_duplicates());
    picks.lemma_multiset_has_no_duplicates();
    free.lemma_multiset_has_no_duplicates();
    assert forall|i: usize| picks.to_multiset().count(i) == free.to_multiset().count(i) by {
        assert(picks.contains(i) <==> free.contains(i)) by {
            if i < sizes.len() {
                let n = sizes[i as int];
            }
        }
        assert(picks.contains(i) <==> picks.to_multiset().count(i) > 0);
        assert(free.contains(i) <==> free.to_multiset().count(i) > 0);
    }
    assert(picks.to_multiset() =~= free.to_multiset());
    crate::order::ordered_is_unique(weights, free, picks);
}

/// Joining a bucket that admits a size leaves one that still admits it.
pub open spec fn steady<B: SizeBand>(
    band: B,
    buckets: Seq<Bucket<B::Average>>,
    size: usize,
) -> bool {
    forall|b: int|
        0 <= b < buckets.len() && band.admitted((#[trigger] buckets[b]).average, size)
            ==> band.admitted(
            band.joined(buckets[b].average, buckets[b].members.len(), size),
            size,
        )
}

/// Segments of the same size come together in one bucket, at `b`.
proof fn alike_segments_share_a_bucket<B: SizeBand>(
    band: B,
    weights: Seq<usize>,
    picks: Seq<usize>,
    size: usize,
    n: nat,
) -> (b: int)
    requires
        n <= picks.len(),
        forall|i: int, j: int|
            #![trigger picks[i], picks[j]]
            0 <= i < j < picks.len() ==> weights[picks[i] as int] <= weights[picks[j] as int],
        band.admitted(band.opened(size), size),
        forall|i: int|
            0 <= i < picks.len() ==> steady(
                band,
                #[trigger] bucketed(band, weights, picks.take(i)),
                size,
            ),
    ensures
        ({
            let buckets = bucketed(band, weights, picks.take(n as int));
            &&& forall|k: int|
                0 <= k < n && weights[#[trigger] picks[k] as int] == size ==> 0 <= b
                    < buckets.len() && buckets[b].members.contains(picks[k])
            &&& n > 0 && weights[picks[n - 1] as int] == size ==> home(band, buckets, size, 0) == b
        }),
    decreases n,
{
    if n == 0 {
        0
    } else {
        let m = n - 1;
        let earlier = bucketed(band, weights, picks.take(m));
        let buckets = bucketed(band, weights, picks.take(n as int));
        let pick = picks[m];
        let at = home(band, earlier, weights[pick as int], 0) as int;
        let b = alike_segments_share_a_bucket(band, weights, picks, size, m as nat);
        bucketed_step(band, weights, picks, m);
        assert(picks.take(m + 1) == picks.take(n as int));
        home_is_the_first(band, earlier, weights[pick as int], 0);
        assert forall|c: int, x: usize|
            0 <= c < earlier.len() && #[trigger] earlier[c].members.contains(x) implies c
            < buckets.len() && buckets[c].members.contains(x) by {
            let k = choose|k: int| 0 <= k < earlier[c].members.len() && earlier[c].members[k] == x;
            assert(buckets[c].members[k] == x);
        }
        if weights[pick as int] != size {
            assert forall|k: int|
                0 <= k < n && weights[#[trigger] picks[k] as int] == size implies 0 <= b
                < buckets.len() && buckets[b].members.contains(picks[k]) by {
                assert(k < m);
                assert(earlier[b].members.contains(picks[k]));
            }
            b
        } else {
            assert(buckets[at].members.last() == pick);
            assert(buckets[at].members.contains(pick));
            assert(band.admitted(buckets[at].average, size)) by {
                assert(steady(band, bucketed(band, weights, picks.take(m)), size));
            }
            assert forall|c: int| 0 <= c < at implies !band.admitted(
                (#[trigger] buckets[c]).average,
                size,
            ) by {
                assert(buckets[c] == earlier[c]);
            }
            home_is_the_first(band, buckets, size, 0);
            assert(home(band, buckets, size, 0) == at) by {
                let found = home(band, buckets, size, 0) as int;
                if found < at {
                    assert(!band.admitted(buckets[found].average, size));
                }
            }
            assert forall|k: int|
                0 <= k < n && weights[#[trigger] picks[k] as int] == size implies 0 <= at
                < buckets.len() && buckets[at].members.contains(picks[k]) by {
                if k < m {
                    assert(k < m - 1 ==> weights[picks[k] as int] <= weights[picks[m - 1] as int]);
                    assert(weights[picks[m - 1] as int] <= weights[picks[m] as int]);
                    assert(at == b);
                    assert(earlier[b].members.contains(picks[k]));
                }
            }
            at
        }
    }
}

/// The `j`th of some members, lightest first, is no earlier than at `j` among all of them.
proof fn no_earlier(
    sizes: Seq<usize>,
    sorted: Seq<usize>,
    alike: Seq<usize>,
    j: int,
) -> (at: int)
    requires
        0 <= j < alike.len(),
        forall|k: int| 0 <= k < alike.len() ==> sorted.contains(#[trigger] alike[k]),
        forall|i: int, k: int|
            #![trigger sorted[i], sorted[k]]
            0 <= i < k < sorted.len() ==> before(sizes, sorted[i], sorted[k]),
        forall|i: int, k: int|
            #![trigger alike[i], alike[k]]
            0 <= i < k < alike.len() ==> before(sizes, alike[i], alike[k]),
    ensures
        j <= at < sorted.len(),
        sorted[at] == alike[j],
        sizes[sorted[j] as int] <= sizes[alike[j] as int],
    decreases j,
{
    assert(sorted.contains(alike[j]));
    let at = choose|at: int| 0 <= at < sorted.len() && sorted[at] == alike[j];
    if j > 0 {
        let earlier = no_earlier(sizes, sorted, alike, j - 1);
        assert(before(sizes, alike[j - 1], alike[j]));
        if at < earlier {
            assert(before(sizes, sorted[at], sorted[earlier]));
        }
        assert(at > earlier);
    }
    if j < at {
        assert(before(sizes, sorted[j], sorted[at]));
    }
    at
}

/// The lightest of all members hold no more than as many of some of them.
proof fn the_lightest_hold_least(
    sizes: Seq<usize>,
    sorted: Seq<usize>,
    alike: Seq<usize>,
    n: int,
)
    requires
        0 <= n <= alike.len() <= sorted.len(),
        forall|k: int| 0 <= k < alike.len() ==> sorted.contains(#[trigger] alike[k]),
        forall|i: int, k: int|
            #![trigger sorted[i], sorted[k]]
            0 <= i < k < sorted.len() ==> before(sizes, sorted[i], sorted[k]),
        forall|i: int, k: int|
            #![trigger alike[i], alike[k]]
            0 <= i < k < alike.len() ==> before(sizes, alike[i], alike[k]),
    ensures
        items_at(sizes, sorted.take(n)) <= items_at(sizes, alike.take(n)),
    decreases n,
{
    if n > 0 {
        the_lightest_hold_least(sizes, sorted, alike, n - 1);
        let at = no_earlier(sizes, sorted, alike, n - 1);
        assert(sorted.take(n).drop_last() =~= sorted.take(n - 1));
        assert(alike.take(n).drop_last() =~= alike.take(n - 1));
    }
}

/// More segments hold no fewer items.
proof fn items_grow(sizes: Seq<usize>, picks: Seq<usize>, n: int)
    requires
        0 <= n <= picks.len(),
    ensures
        items_at(sizes, picks.take(n)) <= items_at(sizes, picks),
    decreases picks.len() - n,
{
    if n < picks.len() {
        items_grow(sizes, picks, n + 1);
        assert(picks.take(n + 1).drop_last() =~= picks.take(n));
    } else {
        assert(picks.take(n) =~= picks);
    }
}

/// A merge goes on as long as the segments fit.
proof fn fitting_goes_on<B>(
    sizes: Seq<usize>,
    cfg: TierConfig<B>,
    sorted: Seq<usize>,
    taken: nat,
    n: nat,
)
    requires
        taken <= n <= sorted.len(),
        n <= cfg.max_merge,
        items_at(sizes, sorted.take(n as int)) <= cfg.max_merged_len,
    ensures
        n <= fitting(sizes, cfg, sorted, taken) <= sorted.len(),
    decreases sorted.len() - taken,
{
    if taken < sorted.len() && taken < cfg.max_merge && (taken == 0 || items_at(
        sizes,
        sorted.take(taken as int),
    ) + sizes[sorted[taken as int] as int] <= cfg.max_merged_len) {
        if taken < n {
            fitting_goes_on(sizes, cfg, sorted, taken + 1, n);
        } else {
            fitting_is_no_less(sizes, cfg, sorted, taken + 1);
        }
    } else if taken < n {
        let head = sorted.take(n as int);
        items_grow(sizes, head, taken as int + 1);
        assert(head.take(taken as int + 1) =~= sorted.take(taken as int + 1));
        assert(sorted.take(taken as int + 1).drop_last() =~= sorted.take(taken as int));
    }
}

/// What is taken stays taken.
proof fn fitting_is_no_less<B>(
    sizes: Seq<usize>,
    cfg: TierConfig<B>,
    sorted: Seq<usize>,
    taken: nat,
)
    requires
        taken <= sorted.len(),
    ensures
        taken <= fitting(sizes, cfg, sorted, taken) <= sorted.len(),
    decreases sorted.len() - taken,
{
    if taken < sorted.len() {
        fitting_is_no_less(sizes, cfg, sorted, taken + 1);
    }
}

/// A bucket is worth a merge if enough of its members fit together.
proof fn enough_that_fit_are_merged<B>(
    sizes: Seq<usize>,
    cfg: TierConfig<B>,
    members: Seq<usize>,
    alike: Seq<usize>,
)
    requires
        members.no_duplicates(),
        forall|k: int| 0 <= k < alike.len() ==> members.contains(#[trigger] alike[k]),
        forall|i: int, k: int|
            #![trigger alike[i], alike[k]]
            0 <= i < k < alike.len() ==> before(sizes, alike[i], alike[k]),
        alike.len() == least_group(cfg),
        alike.len() <= cfg.max_merge,
        items_at(sizes, alike) <= cfg.max_merged_len,
    ensures
        group_of(sizes, cfg, members) is Some,
{
    let sorted = ordered(sizes, members);
    let n = alike.len() as int;
    ordering_puts_the_lighter_first(sizes, members);
    ordered_rearranges(sizes, members);
    assert forall|k: int| 0 <= k < alike.len() implies sorted.contains(#[trigger] alike[k]) by {
        assert(members.contains(alike[k]));
    }
    let last = no_earlier(sizes, sorted, alike, n - 1);
    the_lightest_hold_least(sizes, sorted, alike, n);
    assert(alike.take(n) =~= alike);
    fitting_goes_on(sizes, cfg, sorted, 0, n as nat);
}

/// Enough segments of the same size are merged, whatever other segments there are.
///
/// `alike` are as many unfrozen segments as a merge takes, lightest first, which count as
/// being of the same size and together keep the cap. The band admits that size around
/// its own average, and goes on admitting it where it joins a bucket.
pub proof fn enough_alike_segments_are_merged<B: SizeBand>(
    sizes: Seq<usize>,
    flush_threshold: usize,
    cfg: TierConfig<B>,
    weight: usize,
    alike: Seq<usize>,
)
    requires
        sizes.len() <= usize::MAX,
        alike.len() == if cfg.min_merge < 2 {
            2
        } else {
            cfg.min_merge as int
        },
        alike.len() <= cfg.max_merge,
        forall|k: int|
            0 <= k < alike.len() ==> (#[trigger] alike[k]) < sizes.len() && sizes[alike[k] as int]
                <= cfg.max_merged_len / 2 && weight == (if sizes[alike[k] as int]
                < flush_threshold {
                flush_threshold
            } else if sizes[alike[k] as int] < 1 {
                1
            } else {
                sizes[alike[k] as int]
            }),
        forall|j: int, k: int|
            #![trigger alike[j], alike[k]]
            0 <= j < k < alike.len() ==> before(sizes, alike[j], alike[k]),
        summed(sizes, alike) <= cfg.max_merged_len,
        cfg.band.admitted(cfg.band.opened(weight), weight),
        ({
            let weights = floored(sizes, flush_threshold);
            let picks = ordered(weights, unfrozen(sizes, cfg));
            forall|i: int|
                0 <= i < picks.len() ==> steady(
                    cfg.band,
                    #[trigger] bucketed(cfg.band, weights, picks.take(i)),
                    weight,
                )
        }),
    ensures
        merge_choice(sizes, flush_threshold, cfg) is Some,
{
    let weights = floored(sizes, flush_threshold);
    let free = unfrozen(sizes, cfg);
    let picks = ordered(weights, free);
    let buckets = size_buckets(sizes, flush_threshold, cfg);
    unfrozen_are_positions(sizes, cfg);
    ordering_puts_the_lighter_first(weights, free);
    ordered_rearranges(weights, free);
    same_elements_stay_distinct(free, picks);
    bucketed_draws(cfg.band, weights, picks);
    assert forall|i: int, j: int|
        #![trigger picks[i], picks[j]]
        0 <= i < j < picks.len() implies weights[picks[i] as int] <= weights[picks[j] as int] by {}
    let b = alike_segments_share_a_bucket(cfg.band, weights, picks, weight, picks.len());
    assert(picks.take(picks.len() as int) =~= picks);
    assert forall|k: int| 0 <= k < alike.len() implies 0 <= b < buckets.len()
        && buckets[b].members.contains(#[trigger] alike[k]) by {
        let x = alike[k];
        let n = sizes[x as int];
        assert(free.contains(x));
        assert(picks.contains(x));
        let at = choose|at: int| 0 <= at < picks.len() && picks[at] == x;
        assert(weights[picks[at] as int] == weight);
    }
    items_are_summed(sizes, alike);
    assert(buckets[b].members.contains(alike[0]));
    enough_that_fit_are_merged(sizes, cfg, buckets[b].members, alike);
    lightest_bucket_is_worth_it(sizes, cfg, buckets, buckets.len());
}

/// Around a whole mean the band is what its fractions say: a size is admitted if it lies
/// strictly between the two multiples of the mean.
pub proof fn the_band_lies_between_its_fractions(
    band: RatioBand,
    average: MeanSize,
    mean: u64,
    size: usize,
)
    requires
        average.count > 0,
        average.sum == mean * average.count,
    ensures
        band.admitted(average, size) <==> size * band.low_den > mean * band.low_num && size
            * band.high_den < mean * band.high_num,
{
    let s = size as int;
    let c = average.count as int;
    let m = mean as int;
    let ld = band.low_den as int;
    let ln = band.low_num as int;
    let hd = band.high_den as int;
    let hn = band.high_num as int;
    assert((s * c) * ld > (m * c) * ln <==> s * ld > m * ln) by (nonlinear_arith)
        requires
            c > 0,
    ;
    assert((s * c) * hd < (m * c) * hn <==> s * hd < m * hn) by (nonlinear_arith)
        requires
            c > 0,
    ;
}

/// Whole means are told apart as numbers.
pub proof fn lower_means_are_lower(
    band: RatioBand,
    a: MeanSize,
    mean_a: u64,
    b: MeanSize,
    mean_b: u64,
)
    requires
        a.count > 0,
        a.sum == mean_a * a.count,
        b.count > 0,
        b.sum == mean_b * b.count,
    ensures
        band.lower(a, b) <==> mean_a < mean_b,
{
    let x = a.count as int;
    let y = b.count as int;
    let m = mean_a as int;
    let n = mean_b as int;
    assert((m * x) * y < (n * y) * x <==> m < n) by (nonlinear_arith)
        requires
            x > 0,
            y > 0,
    ;
}

/// A bucket's average is that of its members: what their sizes add up to, over how many
/// they are.
pub proof fn averages_are_means(
    band: RatioBand,
    weights: Seq<usize>,
    picks: Seq<usize>,
    limit: nat,
)
    requires
        forall|k: int| 0 <= k < picks.len() ==> weights[#[trigger] picks[k] as int] <= limit,
        picks.len() * limit <= u64::MAX,
        picks.len() <= u32::MAX,
    ensures
        forall|b: int|
            0 <= b < bucketed(band, weights, picks).len() ==> {
                let bucket = #[trigger] bucketed(band, weights, picks)[b];
                &&& 0 < bucket.members.len() <= picks.len()
                &&& bucket.average.count == bucket.members.len()
                &&& bucket.average.sum == summed(weights, bucket.members)
                &&& bucket.average.sum <= bucket.members.len() * limit
            },
    decreases picks.len(),
{
    if picks.len() > 0 {
        let rest = picks.drop_last();
        let pick = picks.last();
        let size = weights[pick as int];
        let earlier = bucketed(band, weights, rest);
        let buckets = bucketed(band, weights, picks);
        let at = home(band, earlier, size, 0) as int;
        let n = picks.len() as int;
        let most = limit as int;
        assert((n - 1) * most <= n * most) by (nonlinear_arith)
            requires
                most >= 0,
        ;
        assert forall|k: int| 0 <= k < rest.len() implies weights[#[trigger] rest[k] as int]
            <= limit by {
            assert(rest[k] == picks[k]);
        }
        assert(weights[picks[n - 1] as int] <= limit);
        averages_are_means(band, weights, rest, limit);
        home_is_the_first(band, earlier, size, 0);
        assert forall|b: int| 0 <= b < buckets.len() implies {
            let bucket = #[trigger] buckets[b];
            &&& 0 < bucket.members.len() <= picks.len()
            &&& bucket.average.count == bucket.members.len()
            &&& bucket.average.sum == summed(weights, bucket.members)
            &&& bucket.average.sum <= bucket.members.len() * limit
        } by {
            if b == at && at < earlier.len() {
                let old_one = earlier[at];
                let c = old_one.members.len() as int;
                assert(c <= n - 1);
                assert(c * most + most == (c + 1) * most) by (nonlinear_arith);
                assert((c + 1) * most <= n * most) by (nonlinear_arith)
                    requires
                        c + 1 <= n,
                        most >= 0,
                ;
                one_more_is_summed(weights, old_one.members, pick);
            } else if b == at {
                assert(buckets[b].members =~= Seq::<usize>::empty().push(pick));
                one_more_is_summed(weights, Seq::empty(), pick);
                items_are_summed(weights, Seq::empty());
                assert(1 * most == most) by (nonlinear_arith);
            } else {
                assert(buckets[b] == earlier[b]);
            }
        }
    }
}

/// One more position adds its size.
proof fn one_more_is_summed(sizes: Seq<usize>, picks: Seq<usize>, pick: usize)
    ensures
        summed(sizes, picks.push(pick)) == summed(sizes, picks) + sizes[pick as int],
{
    items_are_summed(sizes, picks);
    items_are_summed(sizes, picks.push(pick));
    assert(picks.push(pick).drop_last() =~= picks);
}

/// Exact averages are told apart like numbers.
pub proof fn means_are_told_apart(
    band: RatioBand,
    weights: Seq<usize>,
    picks: Seq<usize>,
    limit: nat,
)
    requires
        forall|k: int| 0 <= k < picks.len() ==> weights[#[trigger] picks[k] as int] <= limit,
        picks.len() * limit <= u64::MAX,
        picks.len() <= u32::MAX,
    ensures
        told_apart(band, bucketed(band, weights, picks)),
{
    let buckets = bucketed(band, weights, picks);
    averages_are_means(band, weights, picks, limit);
    assert forall|i: int, j: int, k: int|
        #![trigger buckets[i], buckets[j], buckets[k]]
        0 <= i < buckets.len() && 0 <= j < buckets.len() && 0 <= k < buckets.len() implies {
        &&& band.lower(buckets[i].average, buckets[j].average) && band.lower(
            buckets[j].average,
            buckets[k].average,
        ) ==> band.lower(buckets[i].average, buckets[k].average)
        &&& band.lower(buckets[i].average, buckets[j].average) ==> band.lower(
            buckets[i].average,
            buckets[k].average,
        ) || band.lower(buckets[k].average, buckets[j].average)
    } by {
        fractions_are_told_apart(
            buckets[i].average.sum as int,
            buckets[i].average.count as int,
            buckets[j].average.sum as int,
            buckets[j].average.count as int,
            buckets[k].average.sum as int,
            buckets[k].average.count as int,
        );
    }
}

/// Fractions are ordered.
proof fn fractions_are_told_apart(a: int, x: int, b: int, y: int, c: int, z: int)
    by (nonlinear_arith)
    requires
        x > 0,
        y > 0,
        z > 0,
    ensures
        a * y < b * x && b * z < c * y ==> a * z < c * x,
        a * y < b * x ==> a * z < c * x || c * y < b * z,
{
}

/// A size that a mean admits is admitted by the mean that it gives.
proof fn joining_stays_inside(band: RatioBand, average: MeanSize, size: usize)
    requires
        band.low_num <= band.low_den,
        band.high_den <= band.high_num,
        average.sum + size <= u64::MAX,
        average.count < u32::MAX,
        band.admitted(average, size),
    ensures
        band.admitted(band.joined(average, 0, size), size),
{
    let s = size as int;
    let c = average.count as int;
    let m = average.sum as int;
    let ld = band.low_den as int;
    let ln = band.low_num as int;
    let hd = band.high_den as int;
    let hn = band.high_num as int;
    assert((s * (c + 1)) * ld > (m + s) * ln) by (nonlinear_arith)
        requires
            (s * c) * ld > m * ln,
            ln <= ld,
            s >= 0,
    ;
    assert((s * (c + 1)) * hd < (m + s) * hn) by (nonlinear_arith)
        requires
            (s * c) * hd < m * hn,
            hd <= hn,
            s >= 0,
    ;
}

/// Whenever as many unfrozen segments as a merge takes count as being of the same size,
/// and together keep the cap, there is something to merge, whatever other segments
/// there are.
///
/// The band is one that admits a size around its own average. `alike` are the segments,
/// lightest first. The last conditions are the machine's: averages are exact as long as
/// all sizes together fit 64 bits.
pub proof fn a_full_tier_is_merged(
    sizes: Seq<usize>,
    flush_threshold: usize,
    cfg: TierConfig<RatioBand>,
    weight: usize,
    alike: Seq<usize>,
    limit: nat,
)
    requires
        cfg.band.low_num < cfg.band.low_den,
        cfg.band.high_den < cfg.band.high_num,
        alike.len() == if cfg.min_merge < 2 {
            2
        } else {
            cfg.min_merge as int
        },
        alike.len() <= cfg.max_merge,
        forall|k: int|
            0 <= k < alike.len() ==> (#[trigger] alike[k]) < sizes.len() && sizes[alike[k] as int]
                <= cfg.max_merged_len / 2 && weight == (if sizes[alike[k] as int]
                < flush_threshold {
                flush_threshold
            } else if sizes[alike[k] as int] < 1 {
                1
            } else {
                sizes[alike[k] as int]
            }),
        forall|j: int, k: int|
            #![trigger alike[j], alike[k]]
            0 <= j < k < alike.len() ==> before(sizes, alike[j], alike[k]),
        summed(sizes, alike) <= cfg.max_merged_len,
        forall|i: int| 0 <= i < sizes.len() ==> (#[trigger] sizes[i]) <= limit,
        1 <= limit,
        flush_threshold <= limit,
        sizes.len() * limit <= u64::MAX,
        sizes.len() <= u32::MAX,
    ensures
        merge_choice(sizes, flush_threshold, cfg) is Some,
{
    let weights = floored(sizes, flush_threshold);
    let free = unfrozen(sizes, cfg);
    let picks = ordered(weights, free);
    let most = limit as int;
    unfrozen_are_positions(sizes, cfg);
    ordered_rearranges(weights, free);
    unfrozen_are_few(sizes, cfg);
    assert(alike[0] < sizes.len());
    assert(weight >= 1 && weight <= limit);
    assert forall|k: int| 0 <= k < picks.len() implies weights[#[trigger] picks[k] as int]
        <= limit by {
        assert(picks.contains(picks[k]));
        assert(free.contains(picks[k]));
    }
    assert(cfg.band.admitted(cfg.band.opened(weight), weight)) by {
        let s = weight as int;
        let ld = cfg.band.low_den as int;
        let ln = cfg.band.low_num as int;
        let hd = cfg.band.high_den as int;
        let hn = cfg.band.high_num as int;
        assert((s * 1) * ld > s * ln && (s * 1) * hd < s * hn) by (nonlinear_arith)
            requires
                s >= 1,
                ln < ld,
                hd < hn,
        ;
    }
    assert forall|i: int| 0 <= i < picks.len() implies steady(
        cfg.band,
        #[trigger] bucketed(cfg.band, weights, picks.take(i)),
        weight,
    ) by {
        let head = picks.take(i);
        let buckets = bucketed(cfg.band, weights, head);
        let n = sizes.len() as int;
        assert forall|k: int| 0 <= k < head.len() implies weights[#[trigger] head[k] as int]
            <= limit by {
            assert(head[k] == picks[k]);
        }
        assert(i * most <= n * most) by (nonlinear_arith)
            requires
                i <= n,
                most >= 0,
        ;
        averages_are_means(cfg.band, weights, head, limit);
        assert forall|b: int|
            0 <= b < buckets.len() && cfg.band.admitted(
                (#[trigger] buckets[b]).average,
                weight,
            ) implies cfg.band.admitted(
            cfg.band.joined(buckets[b].average, buckets[b].members.len(), weight),
            weight,
        ) by {
            let c = buckets[b].members.len() as int;
            assert(c * most + most <= n * most) by (nonlinear_arith)
                requires
                    c + 1 <= n,
                    most >= 0,
            ;
            joining_stays_inside(cfg.band, buckets[b].average, weight);
        }
    }
    enough_alike_segments_are_merged(sizes, flush_threshold, cfg, weight, alike);
}

/// There are no more unfrozen segments than segments.
proof fn unfrozen_are_few<B>(sizes: Seq<usize>, cfg: TierConfig<B>)
    ensures
        unfrozen(sizes, cfg).len() <= sizes.len(),
{
    Seq::new(sizes.len(), |i: int| i as usize).lemma_filter_len(
        |i: usize| sizes[i as int] <= cfg.max_merged_len / 2,
    );
}

/// The band goes by the mean alone: a size lies within it around a mean of several sizes as
/// it lies, that many times as large, around what they add up to.
pub proof fn the_band_scales(band: RatioBand, average: MeanSize, size: usize)
    requires
        size * average.count <= usize::MAX,
    ensures
        band.admitted(average, size) <==> band.admitted(
            MeanSize { sum: average.sum, count: 1 },
            (size * average.count) as usize,
        ),
{
    let s = size as int;
    let c = average.count as int;
    assert((s * c) * 1 == s * c) by (nonlinear_arith);
    assert(s * c >= 0) by (nonlinear_arith)
        requires
            s >= 0,
            c >= 0,
    ;
}

/// Which of two means is lower is told over a common denominator.
pub proof fn means_are_told_apart_over_a_common_denominator(
    band: RatioBand,
    a: MeanSize,
    b: MeanSize,
)
    requires
        a.sum * b.count <= u64::MAX,
        b.sum * a.count <= u64::MAX,
    ensures
        band.lower(a, b) <==> band.lower(
            MeanSize { sum: (a.sum * b.count) as u64, count: 1 },
            MeanSize { sum: (b.sum * a.count) as u64, count: 1 },
        ),
{
    let m = a.sum * b.count;
    let n = b.sum * a.count;
    assert(m >= 0 && n >= 0) by (nonlinear_arith)
        requires
            m == a.sum * b.count,
            n == b.sum * a.count,
    ;
    assert(m * 1 == m && n * 1 == n) by (nonlinear_arith);
}

/// One more size adds to the sum and to the count, each up to the largest number it can
/// be.
pub proof fn joining_adds_up(band: RatioBand, average: MeanSize, count: nat, size: usize)
    ensures
        ({
            let joined = band.joined(average, count, size);
            &&& joined.sum <= average.sum + size
            &&& joined.sum == average.sum + size || joined.sum == u64::MAX
            &&& joined.count <= average.count + 1
            &&& joined.count == average.count + 1 || joined.count == u32::MAX
        }),
{
}

} // verus!
