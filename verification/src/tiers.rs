//! Size-tiered selection: which segments to merge next.

use crate::band::SizeBand;
use crate::config::TierConfig;
use crate::order::{
    filter_keeps_distinct, order, ordered, ordered_rearranges, same_elements_stay_distinct,
};
use vstd::prelude::*;

verus! {

/// A group of one would merge a segment into itself, which makes no progress, so
/// two is the least number of segments worth merging whatever the configuration.
pub open spec fn least_group<B>(cfg: TierConfig<B>) -> nat {
    if cfg.min_merge < 2 {
        2
    } else {
        cfg.min_merge as nat
    }
}

/// The sizes that bucketing goes by: small segments count as full flushes.
pub open spec fn floored(sizes: Seq<usize>, flush_threshold: usize) -> Seq<usize> {
    sizes.map_values(
        |n: usize|
            if n < flush_threshold {
                flush_threshold
            } else if n < 1 {
                1
            } else {
                n
            },
    )
}

/// The positions of the segments that tiering may touch, oldest first: those of at
/// most half the cap.
pub open spec fn unfrozen<B>(sizes: Seq<usize>, cfg: TierConfig<B>) -> Seq<usize> {
    Seq::new(sizes.len(), |i: int| i as usize).filter(
        |i: usize| sizes[i as int] <= cfg.max_merged_len / 2,
    )
}

/// A size bucket: its running average and the segments in it.
#[verifier::ext_equal]
pub struct Bucket<A> {
    pub average: A,
    pub members: Seq<usize>,
}

/// The first bucket from `from` on whose band admits `size`, or the number of
/// buckets where there is none.
pub open spec fn home<B: SizeBand>(
    band: B,
    buckets: Seq<Bucket<B::Average>>,
    size: usize,
    from: nat,
) -> nat
    decreases buckets.len() - from,
{
    if from >= buckets.len() {
        buckets.len()
    } else if band.admitted(buckets[from as int].average, size) {
        from
    } else {
        home(band, buckets, size, from + 1)
    }
}

/// The buckets after the segment at `pick` joined the first that admits it, or
/// opened one of its own.
pub open spec fn placed<B: SizeBand>(
    band: B,
    weights: Seq<usize>,
    buckets: Seq<Bucket<B::Average>>,
    pick: usize,
) -> Seq<Bucket<B::Average>> {
    let size = weights[pick as int];
    let at = home(band, buckets, size, 0) as int;
    if at < buckets.len() {
        buckets.update(
            at,
            Bucket {
                average: band.joined(buckets[at].average, buckets[at].members.len(), size),
                members: buckets[at].members.push(pick),
            },
        )
    } else {
        buckets.push(Bucket { average: band.opened(size), members: seq![pick] })
    }
}

/// The buckets that taking `picks` one after the other gives.
pub open spec fn bucketed<B: SizeBand>(band: B, weights: Seq<usize>, picks: Seq<usize>) -> Seq<
    Bucket<B::Average>,
>
    decreases picks.len(),
{
    if picks.len() == 0 {
        Seq::empty()
    } else {
        placed(band, weights, bucketed(band, weights, picks.drop_last()), picks.last())
    }
}

/// How many items the segments at `picks` hold together.
pub open spec fn items_at(sizes: Seq<usize>, picks: Seq<usize>) -> nat
    decreases picks.len(),
{
    if picks.len() == 0 {
        0
    } else {
        items_at(sizes, picks.drop_last()) + sizes[picks.last() as int] as nat
    }
}

/// How many of `members` one merge takes, the first `taken` being taken already:
/// no more than `max_merge`, and not past `max_merged_len` items.
pub open spec fn fitting<B>(
    sizes: Seq<usize>,
    cfg: TierConfig<B>,
    members: Seq<usize>,
    taken: nat,
) -> nat
    decreases members.len() - taken,
{
    if taken >= members.len() || taken >= cfg.max_merge || (taken > 0 && items_at(
        sizes,
        members.take(taken as int),
    ) + sizes[members[taken as int] as int] > cfg.max_merged_len) {
        taken
    } else {
        fitting(sizes, cfg, members, taken + 1)
    }
}

/// What a merge of one bucket would take, lightest first, if the bucket is worth it.
pub open spec fn group_of<B>(
    sizes: Seq<usize>,
    cfg: TierConfig<B>,
    members: Seq<usize>,
) -> Option<Seq<usize>> {
    let sorted = ordered(sizes, members);
    let group = sorted.take(fitting(sizes, cfg, sorted, 0) as int);
    if members.len() >= least_group(cfg) && group.len() >= least_group(cfg) {
        Some(group)
    } else {
        None
    }
}

/// The bucket to merge among the first `n`: of those worth it the one with the
/// lowest average, and the one opened first among equals.
pub open spec fn lightest_bucket<B: SizeBand>(
    sizes: Seq<usize>,
    cfg: TierConfig<B>,
    buckets: Seq<Bucket<B::Average>>,
    n: nat,
) -> Option<int>
    decreases n,
{
    if n == 0 {
        None
    } else {
        let before = lightest_bucket(sizes, cfg, buckets, (n - 1) as nat);
        let last = buckets[n - 1];
        if group_of(sizes, cfg, last.members) is None {
            before
        } else {
            match before {
                Some(b) => if cfg.band.lower(last.average, buckets[b].average) {
                    Some(n - 1)
                } else {
                    before
                },
                None => Some(n - 1),
            }
        }
    }
}

/// The buckets that segments of the given sizes fall into.
pub open spec fn size_buckets<B: SizeBand>(
    sizes: Seq<usize>,
    flush_threshold: usize,
    cfg: TierConfig<B>,
) -> Seq<Bucket<B::Average>> {
    let weights = floored(sizes, flush_threshold);
    bucketed(cfg.band, weights, ordered(weights, unfrozen(sizes, cfg)))
}

/// The group to merge next, or `None` if no bucket is eligible.
pub open spec fn merge_choice<B: SizeBand>(
    sizes: Seq<usize>,
    flush_threshold: usize,
    cfg: TierConfig<B>,
) -> Option<Seq<usize>> {
    let buckets = size_buckets(sizes, flush_threshold, cfg);
    match lightest_bucket(sizes, cfg, buckets, buckets.len()) {
        Some(b) => group_of(sizes, cfg, buckets[b].members),
        None => None,
    }
}

/// The buckets held as two parallel lists.
spec fn paired<A>(averages: Seq<A>, members: Seq<Vec<usize>>) -> Seq<Bucket<A>> {
    Seq::new(averages.len(), |i: int| Bucket { average: averages[i], members: members[i]@ })
}

/// The sizes that bucketing goes by.
fn floor_sizes(sizes: &[usize], flush_threshold: usize) -> (weights: Vec<usize>)
    ensures
        weights@ == floored(sizes@, flush_threshold),
{
    let mut weights: Vec<usize> = Vec::new();
    let mut i: usize = 0;
    while i < sizes.len()
        invariant
            i <= sizes@.len(),
            weights@ =~= floored(sizes@, flush_threshold).take(i as int),
        decreases sizes@.len() - i,
    {
        let n = sizes[i];
        let weight: usize = if n < flush_threshold {
            flush_threshold
        } else if n < 1 {
            1
        } else {
            n
        };
        weights.push(weight);
        i += 1;
    }
    weights
}

/// The positions of the segments that tiering may touch, oldest first.
fn unfrozen_positions<B>(sizes: &[usize], cfg: &TierConfig<B>) -> (picks: Vec<usize>)
    ensures
        picks@ == unfrozen(sizes@, *cfg),
{
    let half: usize = cfg.max_merged_len / 2;
    let ghost small = |i: usize| sizes@[i as int] <= cfg.max_merged_len / 2;
    let ghost all = Seq::new(sizes@.len(), |i: int| i as usize);
    let mut picks: Vec<usize> = Vec::new();
    let mut i: usize = 0;
    assert(all.take(0).filter(small) =~= picks@);
    while i < sizes.len()
        invariant
            i <= sizes@.len(),
            half == cfg.max_merged_len / 2,
            small == (|i: usize| sizes@[i as int] <= cfg.max_merged_len / 2),
            all == Seq::new(sizes@.len(), |i: int| i as usize),
            picks@ == all.take(i as int).filter(small),
        decreases sizes@.len() - i,
    {
        proof {
            assert(all.take(i + 1) =~= all.take(i as int).push(i));
            all.take(i as int).lemma_filter_push(i, small);
        }
        if sizes[i] <= half {
            picks.push(i);
        }
        i += 1;
    }
    assert(all.take(i as int) =~= all);
    picks
}

/// What a merge of one bucket would take, if the bucket is worth it.
fn bucket_group<B>(sizes: &[usize], cfg: &TierConfig<B>, members: &Vec<usize>) -> (group: Option<
    Vec<usize>,
>)
    requires
        forall|i: int| 0 <= i < members@.len() ==> #[trigger] members@[i] < sizes@.len(),
    ensures
        match (group, group_of(sizes@, *cfg, members@)) {
            (Some(g), Some(picks)) => g@ == picks,
            (None, None) => true,
            _ => false,
        },
{
    let least: usize = if cfg.min_merge < 2 {
        2
    } else {
        cfg.min_merge
    };
    if members.len() < least {
        return None;
    }
    let sorted = order(members.as_slice(), sizes);
    proof {
        ordered_rearranges(sizes@, members@);
        assert forall|k: int| 0 <= k < sorted@.len() implies #[trigger] sorted@[k]
            < sizes@.len() by {
            assert(ordered(sizes@, members@).contains(sorted@[k]));
        }
    }
    let ghost end = fitting(sizes@, *cfg, sorted@, 0);
    let mut group: Vec<usize> = Vec::new();
    let mut total: usize = 0;
    let mut i: usize = 0;
    assert(sorted@.take(0) =~= group@);
    while i < sorted.len() && i < cfg.max_merge && (i == 0 || (total <= cfg.max_merged_len
        && sizes[sorted[i]] <= cfg.max_merged_len - total))
        invariant
            i <= sorted@.len(),
            forall|k: int| 0 <= k < sorted@.len() ==> #[trigger] sorted@[k] < sizes@.len(),
            group@ == sorted@.take(i as int),
            total == items_at(sizes@, sorted@.take(i as int)),
            i > 1 ==> total <= cfg.max_merged_len,
            end == fitting(sizes@, *cfg, sorted@, i as nat),
        decreases sorted@.len() - i,
    {
        proof {
            assert(sorted@.take(i + 1) =~= sorted@.take(i as int).push(sorted@[i as int]));
            assert(sorted@.take(i + 1).drop_last() =~= sorted@.take(i as int));
        }
        total = total + sizes[sorted[i]];
        group.push(sorted[i]);
        i += 1;
    }
    assert(end == i);
    if group.len() >= least {
        Some(group)
    } else {
        None
    }
}

/// Every member of every bucket is one of `picks`, and no bucket holds one twice.
pub(crate) open spec fn drawn_from<A>(buckets: Seq<Bucket<A>>, picks: Seq<usize>) -> bool {
    &&& forall|b: int, i: int|
        0 <= b < buckets.len() && 0 <= i < buckets[b].members.len() ==> picks.contains(
            #[trigger] buckets[b].members[i],
        )
    &&& forall|b: int| 0 <= b < buckets.len() ==> (#[trigger] buckets[b]).members.no_duplicates()
}

/// [`home`] names a bucket or the number of buckets.
pub(crate) proof fn home_is_a_bucket<B: SizeBand>(
    band: B,
    buckets: Seq<Bucket<B::Average>>,
    size: usize,
    from: nat,
)
    requires
        from <= buckets.len(),
    ensures
        from <= home(band, buckets, size, from) <= buckets.len(),
    decreases buckets.len() - from,
{
    if from < buckets.len() && !band.admitted(buckets[from as int].average, size) {
        home_is_a_bucket(band, buckets, size, from + 1);
    }
}

/// Bucketing puts each pick into one bucket at most.
pub(crate) proof fn bucketed_draws<B: SizeBand>(band: B, weights: Seq<usize>, picks: Seq<usize>)
    requires
        picks.no_duplicates(),
    ensures
        drawn_from(bucketed(band, weights, picks), picks),
    decreases picks.len(),
{
    if picks.len() > 0 {
        let rest = picks.drop_last();
        let pick = picks.last();
        bucketed_draws(band, weights, rest);
        let before = bucketed(band, weights, rest);
        let after = bucketed(band, weights, picks);
        let at = home(band, before, weights[pick as int], 0) as int;
        home_is_a_bucket(band, before, weights[pick as int], 0);
        assert(picks[picks.len() - 1] == pick);
        assert(!rest.contains(pick));
        assert forall|x: usize| rest.contains(x) implies picks.contains(x) by {
            let k = choose|k: int| 0 <= k < rest.len() && rest[k] == x;
            assert(picks[k] == x);
        }
        assert forall|b: int, i: int|
            0 <= b < after.len() && 0 <= i < after[b].members.len() implies picks.contains(
            #[trigger] after[b].members[i],
        ) by {
            if b < before.len() && i < before[b].members.len() {
                assert(after[b].members[i] == before[b].members[i]);
            } else {
                assert(after[b].members[i] == pick);
            }
        }
        assert forall|b: int| 0 <= b < after.len() implies (
        #[trigger] after[b]).members.no_duplicates() by {
            if b < before.len() {
                assert(before[b].members.no_duplicates());
                if b == at {
                    assert forall|i: int| 0 <= i < before[b].members.len() implies before[b].members[i]
                        != pick by {
                        assert(rest.contains(before[b].members[i]));
                    }
                }
            }
        }
    }
}

/// Adding one pick after the other reaches the buckets of all of them.
pub(crate) proof fn bucketed_step<B: SizeBand>(band: B, weights: Seq<usize>, picks: Seq<usize>, i: int)
    requires
        0 <= i < picks.len(),
    ensures
        bucketed(band, weights, picks.take(i + 1)) == placed(
            band,
            weights,
            bucketed(band, weights, picks.take(i)),
            picks[i],
        ),
{
    assert(picks.take(i + 1).drop_last() =~= picks.take(i));
}

/// The positions that tiering may touch, each once and in range.
pub(crate) proof fn unfrozen_are_positions<B>(sizes: Seq<usize>, cfg: TierConfig<B>)
    requires
        sizes.len() <= usize::MAX,
    ensures
        unfrozen(sizes, cfg).no_duplicates(),
        forall|x: usize|
            unfrozen(sizes, cfg).contains(x) <==> x < sizes.len() && #[trigger] sizes[x as int]
                <= cfg.max_merged_len / 2,
{
    let all = Seq::new(sizes.len(), |i: int| i as usize);
    let small = |i: usize| sizes[i as int] <= cfg.max_merged_len / 2;
    filter_keeps_distinct(all, small);
    assert forall|x: usize|
        unfrozen(sizes, cfg).contains(x) <==> x < sizes.len() && #[trigger] sizes[x as int]
            <= cfg.max_merged_len / 2 by {
        if x < sizes.len() && small(x) {
            assert(all[x as int] == x);
            all.lemma_filter_contains(small, x as int);
        }
        if unfrozen(sizes, cfg).contains(x) {
            let k = choose|k: int|
                0 <= k < unfrozen(sizes, cfg).len() && unfrozen(sizes, cfg)[k] == x;
            all.lemma_filter_pred(small, k);
            all.lemma_filter_contains_rev(small, x);
        }
    }
}

/// One merge takes a prefix of the bucket that keeps both limits.
proof fn fitting_keeps_limits<B>(
    sizes: Seq<usize>,
    cfg: TierConfig<B>,
    members: Seq<usize>,
    taken: nat,
)
    requires
        taken <= members.len(),
        taken <= cfg.max_merge,
        items_at(sizes, members.take(taken as int)) <= cfg.max_merged_len,
        forall|i: int| 0 <= i < members.len() ==> sizes[#[trigger] members[i] as int]
            <= cfg.max_merged_len,
    ensures
        taken <= fitting(sizes, cfg, members, taken) <= members.len(),
        fitting(sizes, cfg, members, taken) <= cfg.max_merge,
        items_at(sizes, members.take(fitting(sizes, cfg, members, taken) as int))
            <= cfg.max_merged_len,
    decreases members.len() - taken,
{
    if fitting(sizes, cfg, members, taken) != taken {
        let more = members.take(taken as int + 1);
        assert(more.drop_last() =~= members.take(taken as int));
        assert(more.last() == members[taken as int]);
        assert(taken == 0 ==> items_at(sizes, members.take(taken as int)) == 0);
        fitting_keeps_limits(sizes, cfg, members, taken + 1);
    }
}

/// The bucket to merge is one of those looked at, and worth it.
pub(crate) proof fn lightest_bucket_is_worth_it<B: SizeBand>(
    sizes: Seq<usize>,
    cfg: TierConfig<B>,
    buckets: Seq<Bucket<B::Average>>,
    n: nat,
)
    requires
        n <= buckets.len(),
    ensures
        match lightest_bucket(sizes, cfg, buckets, n) {
            Some(b) => 0 <= b < n && group_of(sizes, cfg, buckets[b].members) is Some,
            None => forall|b: int|
                0 <= b < n ==> group_of(sizes, cfg, (#[trigger] buckets[b]).members) is None,
        },
    decreases n,
{
    if n > 0 {
        lightest_bucket_is_worth_it(sizes, cfg, buckets, (n - 1) as nat);
    }
}

/// The group to merge next holds at least two segments and no fewer than
/// `min_merge`, at most `max_merge`, each once. None of them is frozen, and
/// together they hold at most `max_merged_len` items.
pub proof fn merge_choice_keeps_limits<B: SizeBand>(
    sizes: Seq<usize>,
    flush_threshold: usize,
    cfg: TierConfig<B>,
)
    requires
        sizes.len() <= usize::MAX,
    ensures
        merge_choice(sizes, flush_threshold, cfg) matches Some(group) ==> {
            &&& 2 <= group.len()
            &&& cfg.min_merge <= group.len() <= cfg.max_merge
            &&& group.no_duplicates()
            &&& forall|i: int|
                0 <= i < group.len() ==> (#[trigger] group[i]) < sizes.len()
                    && sizes[group[i] as int] <= cfg.max_merged_len / 2
            &&& items_at(sizes, group) <= cfg.max_merged_len
        },
{
    let weights = floored(sizes, flush_threshold);
    let free = unfrozen(sizes, cfg);
    let picks = ordered(weights, free);
    let buckets = size_buckets(sizes, flush_threshold, cfg);
    unfrozen_are_positions(sizes, cfg);
    ordered_rearranges(weights, free);
    same_elements_stay_distinct(free, picks);
    bucketed_draws(cfg.band, weights, picks);
    lightest_bucket_is_worth_it(sizes, cfg, buckets, buckets.len());
    if let Some(b) = lightest_bucket(sizes, cfg, buckets, buckets.len()) {
        let members = buckets[b].members;
        let sorted = ordered(sizes, members);
        ordered_rearranges(sizes, members);
        same_elements_stay_distinct(members, sorted);
        assert forall|i: int| 0 <= i < sorted.len() implies (#[trigger] sorted[i]) < sizes.len()
            && sizes[sorted[i] as int] <= cfg.max_merged_len / 2 by {
            assert(sorted.contains(sorted[i]));
            assert(members.contains(sorted[i]));
            let k = choose|k: int| 0 <= k < members.len() && members[k] == sorted[i];
            assert(picks.contains(buckets[b].members[k]));
            assert(free.contains(sorted[i]));
        }
        assert(sorted.take(0) =~= Seq::<usize>::empty());
        fitting_keeps_limits(sizes, cfg, sorted, 0);
    }
}

/// No bucket holds more than there is.
proof fn bucketed_is_small<B: SizeBand>(band: B, weights: Seq<usize>, picks: Seq<usize>)
    ensures
        forall|b: int|
            0 <= b < bucketed(band, weights, picks).len() ==> (#[trigger] bucketed(
                band,
                weights,
                picks,
            )[b]).members.len() <= picks.len(),
    decreases picks.len(),
{
    if picks.len() > 0 {
        let rest = picks.drop_last();
        bucketed_is_small(band, weights, rest);
        let before = bucketed(band, weights, rest);
        let after = bucketed(band, weights, picks);
        home_is_a_bucket(band, before, weights[picks.last() as int], 0);
        assert forall|b: int| 0 <= b < after.len() implies (#[trigger] after[b]).members.len()
            <= picks.len() by {
            if b < before.len() {
                assert(before[b].members.len() <= rest.len());
            }
        }
    }
}

/// Fewer unfrozen segments than a merge takes are left alone.
pub proof fn too_few_segments_do_not_merge<B: SizeBand>(
    sizes: Seq<usize>,
    flush_threshold: usize,
    cfg: TierConfig<B>,
)
    requires
        unfrozen(sizes, cfg).len() < least_group(cfg),
    ensures
        merge_choice(sizes, flush_threshold, cfg) is None,
{
    let weights = floored(sizes, flush_threshold);
    let picks = ordered(weights, unfrozen(sizes, cfg));
    let buckets = size_buckets(sizes, flush_threshold, cfg);
    ordered_rearranges(weights, unfrozen(sizes, cfg));
    bucketed_is_small(cfg.band, weights, picks);
    lightest_bucket_is_worth_it(sizes, cfg, buckets, buckets.len());
}

/// Choose the next group of segment positions to merge (size-tiered selection), or
/// `None` if no bucket is eligible. Lowest-average bucket first.
pub fn next_merge_group<B: SizeBand>(
    sizes: &[usize],
    flush_threshold: usize,
    cfg: &TierConfig<B>,
) -> (group: Option<Vec<usize>>)
    ensures
        match (group, merge_choice(sizes@, flush_threshold, *cfg)) {
            (Some(g), Some(picks)) => g@ == picks,
            (None, None) => true,
            _ => false,
        },
{
    let weights = floor_sizes(sizes, flush_threshold);
    let free = unfrozen_positions(sizes, cfg);
    proof {
        assert(sizes@.len() == sizes.len());
        unfrozen_are_positions(sizes@, *cfg);
        assert forall|i: int| 0 <= i < free@.len() implies #[trigger] free@[i] < sizes@.len() by {
            assert(free@.contains(free@[i]));
        }
    }
    let picks = order(free.as_slice(), weights.as_slice());
    proof {
        ordered_rearranges(weights@, free@);
        same_elements_stay_distinct(free@, picks@);
        assert forall|i: int| 0 <= i < picks@.len() implies #[trigger] picks@[i] < sizes@.len() by {
            assert(ordered(weights@, free@).contains(picks@[i]));
        }
    }
    let mut averages: Vec<B::Average> = Vec::new();
    let mut members: Vec<Vec<usize>> = Vec::new();
    let mut i: usize = 0;
    assert(paired(averages@, members@) =~= bucketed(cfg.band, weights@, picks@.take(0)));
    while i < picks.len()
        invariant
            i <= picks@.len(),
            weights@.len() == sizes@.len(),
            forall|k: int| 0 <= k < picks@.len() ==> #[trigger] picks@[k] < sizes@.len(),
            averages@.len() == members@.len(),
            paired(averages@, members@) == bucketed(cfg.band, weights@, picks@.take(i as int)),
        decreases picks@.len() - i,
    {
        let pick = picks[i];
        let size = weights[pick];
        let ghost before = paired(averages@, members@);
        let mut at: usize = 0;
        while at < averages.len() && !cfg.band.admits(&averages[at], size)
            invariant
                at <= averages@.len(),
                averages@.len() == members@.len(),
                before == paired(averages@, members@),
                home(cfg.band, before, size, 0) == home(cfg.band, before, size, at as nat),
            decreases averages@.len() - at,
        {
            at += 1;
        }
        proof {
            bucketed_step(cfg.band, weights@, picks@, i as int);
        }
        if at < averages.len() {
            let after = cfg.band.join(&averages[at], members[at].len(), size);
            averages.set(at, after);
            members[at].push(pick);
        } else {
            averages.push(cfg.band.open(size));
            let mut single: Vec<usize> = Vec::new();
            single.push(pick);
            members.push(single);
        }
        assert(paired(averages@, members@) =~= placed(cfg.band, weights@, before, pick));
        i += 1;
    }
    assert(picks@.take(i as int) =~= picks@);
    let ghost buckets = size_buckets(sizes@, flush_threshold, *cfg);
    proof {
        bucketed_draws(cfg.band, weights@, picks@);
        assert forall|b: int, k: int|
            0 <= b < members@.len() && 0 <= k < members@[b]@.len() implies #[trigger] members@[b]@[k]
            < sizes@.len() by {
            assert(picks@.contains(buckets[b].members[k]));
        }
    }
    let mut best: Option<(usize, Vec<usize>)> = None;
    let mut b: usize = 0;
    while b < averages.len()
        invariant
            b <= averages@.len(),
            averages@.len() == members@.len(),
            buckets == paired(averages@, members@),
            forall|b: int, k: int|
                0 <= b < members@.len() && 0 <= k < members@[b]@.len()
                    ==> #[trigger] members@[b]@[k] < sizes@.len(),
            match (best, lightest_bucket(sizes@, *cfg, buckets, b as nat)) {
                (Some((at, group)), Some(x)) => {
                    &&& at == x
                    &&& at < b
                    &&& group_of(sizes@, *cfg, buckets[x].members) == Some(group@)
                },
                (None, None) => true,
                _ => false,
            },
        decreases averages@.len() - b,
    {
        let group = bucket_group(sizes, cfg, &members[b]);
        assert(buckets[b as int].members == members@[b as int]@);
        if let Some(group) = group {
            let better = match &best {
                Some((at, _)) => cfg.band.below(&averages[b], &averages[*at]),
                None => true,
            };
            if better {
                best = Some((b, group));
            }
        }
        b += 1;
    }
    match best {
        Some((_, group)) => Some(group),
        None => None,
    }
}

} // verus!
