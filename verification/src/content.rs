//! What a store holds, and that compaction never changes it.
//!
//! A segment is opaque, so what it holds is a reading of it: a function from segments
//! to the entries in them. Where the consumer's model follows such a reading, the laws
//! here say what each operation does to the entries.

use crate::band::SizeBand;
use crate::config::{CompactionStats, TierConfig};
use crate::log::Op;
use crate::state::{
    applied, compacted, consolidated, consolidation_group, force_merged, merged, merged_into,
    performed, picked, positions, positions_are_distinct, reclaimed, reclamation, sealed, sizes_of, sparse,
    tier_group, tier_merged, tiers_compacted, without, without_same_picks, State,
};
use crate::store::Store;
use vstd::multiset::Multiset;
use vstd::prelude::*;

verus! {

/// The entries of all segments together.
pub open spec fn together<S: Store>(
    content: spec_fn(S::Segment) -> Multiset<(S::Id, S::Item)>,
    segments: Seq<S::Segment>,
) -> Multiset<(S::Id, S::Item)>
    decreases segments.len(),
{
    if segments.len() == 0 {
        Multiset::empty()
    } else {
        together::<S>(content, segments.drop_last()).add(content(segments.last()))
    }
}

/// Segments that are read alike, one by one, hold the same entries together.
pub proof fn together_by_readings<S: Store>(
    content: spec_fn(S::Segment) -> Multiset<(S::Id, S::Item)>,
    a: Seq<S::Segment>,
    b: Seq<S::Segment>,
)
    requires
        a.map_values(content) == b.map_values(content),
    ensures
        together::<S>(content, a) == together::<S>(content, b),
    decreases a.len(),
{
    assert(a.map_values(content).len() == a.len() && b.map_values(content).len() == b.len());
    if a.len() > 0 {
        assert(a.drop_last().map_values(content) =~= a.map_values(content).drop_last());
        assert(b.drop_last().map_values(content) =~= b.map_values(content).drop_last());
        together_by_readings::<S>(content, a.drop_last(), b.drop_last());
        assert(a.map_values(content)[a.len() - 1] == content(a.last()));
        assert(b.map_values(content)[b.len() - 1] == content(b.last()));
    }
}

/// The entries whose identity is not in `dead`.
pub open spec fn alive<Id, Item>(entries: Multiset<(Id, Item)>, dead: Set<Id>) -> Multiset<
    (Id, Item),
> {
    entries.filter(|e: (Id, Item)| !dead.contains(e.0))
}

/// The consumer's model follows a reading of segments: a batch becomes a segment of its
/// entries, a merge keeps exactly the live entries of its inputs, and a segment of
/// length zero holds nothing.
pub open spec fn faithful<S: Store>(
    store: S,
    content: spec_fn(S::Segment) -> Multiset<(S::Id, S::Item)>,
) -> bool {
    &&& forall|batch: Seq<(S::Id, S::Item)>, segment: S::Segment| #[trigger]
        store.builds(batch, segment) ==> content(segment) == batch.to_multiset()
    &&& forall|segments: Seq<S::Segment>, dead: Set<S::Id>, out: S::Segment| #[trigger]
        store.merges(segments, dead, out) ==> content(out) == alive(
            together::<S>(content, segments),
            dead,
        )
    &&& forall|segment: S::Segment| #[trigger]
        store.len_of(segment) == 0 ==> content(segment) == Multiset::<(S::Id, S::Item)>::empty()
}

/// Every entry that a store holds, live or not.
pub open spec fn stored<S: Store>(
    content: spec_fn(S::Segment) -> Multiset<(S::Id, S::Item)>,
    st: State<S>,
) -> Multiset<(S::Id, S::Item)> {
    together::<S>(content, st.segments).add(st.buffer.to_multiset())
}

/// Every live entry of a store: what a query over segments and buffer finds, filtered
/// by the tombstones.
pub open spec fn live<S: Store>(
    content: spec_fn(S::Segment) -> Multiset<(S::Id, S::Item)>,
    st: State<S>,
) -> Multiset<(S::Id, S::Item)> {
    alive(stored(content, st), st.tombstones)
}

/// Filtering goes entry by entry.
pub(crate) proof fn alive_adds<Id, Item>(
    a: Multiset<(Id, Item)>,
    b: Multiset<(Id, Item)>,
    dead: Set<Id>,
)
    ensures
        alive(a.add(b), dead) == alive(a, dead).add(alive(b, dead)),
{
    assert(alive(a.add(b), dead) =~= alive(a, dead).add(alive(b, dead)));
}

/// Filtering twice is filtering once.
proof fn alive_twice<Id, Item>(a: Multiset<(Id, Item)>, dead: Set<Id>)
    ensures
        alive(alive(a, dead), dead) == alive(a, dead),
{
    assert(alive(alive(a, dead), dead) =~= alive(a, dead));
}

/// An empty batch has no entries.
pub(crate) proof fn nothing_in_empty<T>(batch: Seq<T>)
    requires
        batch.len() == 0,
    ensures
        batch.to_multiset() == Multiset::<T>::empty(),
{
    broadcast use vstd::seq_lib::group_to_multiset_ensures;

    assert forall|x: T| batch.to_multiset().count(x) == 0 by {
        assert(!batch.contains(x));
    }
    assert(batch.to_multiset() =~= Multiset::<T>::empty());
}

/// One more segment adds its entries.
proof fn together_push<S: Store>(
    content: spec_fn(S::Segment) -> Multiset<(S::Id, S::Item)>,
    segments: Seq<S::Segment>,
    segment: S::Segment,
)
    ensures
        together::<S>(content, segments.push(segment)) == together::<S>(content, segments).add(
            content(segment),
        ),
{
    assert(segments.push(segment).drop_last() =~= segments);
}

/// The order of segments does not matter: any one can be taken out.
proof fn together_remove<S: Store>(
    content: spec_fn(S::Segment) -> Multiset<(S::Id, S::Item)>,
    segments: Seq<S::Segment>,
    k: int,
)
    requires
        0 <= k < segments.len(),
    ensures
        together::<S>(content, segments) == together::<S>(content, segments.remove(k)).add(
            content(segments[k]),
        ),
    decreases segments.len(),
{
    let front = segments.drop_last();
    let last = segments.last();
    if k == segments.len() - 1 {
        assert(segments.remove(k) =~= front);
    } else {
        together_remove::<S>(content, front, k);
        assert(segments.remove(k) =~= front.remove(k).push(last));
        together_push::<S>(content, front.remove(k), last);
        let rest = together::<S>(content, front.remove(k));
        assert(rest.add(content(segments[k])).add(content(last)) =~= rest.add(content(last)).add(
            content(segments[k]),
        ));
    }
}

/// What is picked and what is left make up the whole.
proof fn together_split<S: Store>(
    content: spec_fn(S::Segment) -> Multiset<(S::Id, S::Item)>,
    segments: Seq<S::Segment>,
    picks: Seq<usize>,
)
    requires
        segments.len() <= usize::MAX,
        picks.no_duplicates(),
        forall|k: int| 0 <= k < picks.len() ==> #[trigger] picks[k] < segments.len(),
    ensures
        together::<S>(content, segments) == together::<S>(content, without(segments, picks)).add(
            together::<S>(content, picked(segments, picks)),
        ),
    decreases segments.len(),
{
    let whole = together::<S>(content, segments);
    let left = together::<S>(content, without(segments, picks));
    let taken = together::<S>(content, picked(segments, picks));
    if segments.len() == 0 {
        if picks.len() > 0 {
            assert(picks[0] < segments.len());
        }
        assert(picked(segments, picks) =~= Seq::empty());
        assert(whole =~= left.add(taken));
    } else {
        let at = (segments.len() - 1) as usize;
        let front = segments.drop_last();
        let last = segments.last();
        if picks.contains(at) {
            let k = choose|k: int| 0 <= k < picks.len() && picks[k] == at;
            let others = picks.remove(k);
            assert forall|i: int, j: int|
                0 <= i < others.len() && 0 <= j < others.len() && i != j implies others[i]
                != others[j] by {
                let i0 = if i < k { i } else { i + 1 };
                let j0 = if j < k { j } else { j + 1 };
                assert(picks[i0] != picks[j0]);
            }
            assert forall|j: int| 0 <= j < others.len() implies #[trigger] others[j]
                < front.len() by {
                let j0 = if j < k { j } else { j + 1 };
                assert(picks[j0] != picks[k]);
            }
            assert forall|i: usize| i < front.len() implies #[trigger] picks.contains(i)
                == others.contains(i) by {
                if picks.contains(i) {
                    let j = choose|j: int| 0 <= j < picks.len() && picks[j] == i;
                    let j1 = if j < k { j } else { j - 1 };
                    assert(others[j1] == i);
                }
                if others.contains(i) {
                    let j = choose|j: int| 0 <= j < others.len() && others[j] == i;
                    let j0 = if j < k { j } else { j + 1 };
                    assert(picks[j0] == i);
                }
            }
            without_same_picks(front, picks, others);
            together_split::<S>(content, front, others);
            assert(picked(segments, picks).remove(k) =~= picked(front, others));
            together_remove::<S>(content, picked(segments, picks), k);
            let rest = together::<S>(content, picked(front, others));
            assert(left.add(rest).add(content(last)) =~= left.add(rest.add(content(last))));
        } else {
            assert forall|k: int| 0 <= k < picks.len() implies #[trigger] picks[k]
                < front.len() by {
                assert(picks[k] != at);
            }
            together_split::<S>(content, front, picks);
            assert(picked(segments, picks) =~= picked(front, picks));
            together_push::<S>(content, without(front, picks), last);
            let kept = together::<S>(content, without(front, picks));
            assert(kept.add(taken).add(content(last)) =~= kept.add(content(last)).add(taken));
        }
    }
}

/// Sealing the buffer changes neither what is stored nor what is live.
pub proof fn sealing_keeps_content<S: Store>(
    store: S,
    content: spec_fn(S::Segment) -> Multiset<(S::Id, S::Item)>,
    pre: State<S>,
    post: State<S>,
)
    requires
        faithful(store, content),
        sealed(store, pre, post),
    ensures
        stored(content, post) == stored(content, pre),
        live(content, post) == live(content, pre),
        post.tombstones == pre.tombstones,
        post.buffer.len() == 0,
{
    if pre.buffer.len() > 0 {
        let segment = post.segments.last();
        together_push::<S>(content, pre.segments, segment);
        nothing_in_empty(post.buffer);
        assert(stored(content, post) =~= stored(content, pre));
    }
}

/// Merging any segments keeps what is live, drops from what is stored exactly the dead
/// entries of the segments merged, and leaves the tombstones and the buffer alone.
pub proof fn merging_keeps_live_content<S: Store>(
    store: S,
    content: spec_fn(S::Segment) -> Multiset<(S::Id, S::Item)>,
    pre: State<S>,
    picks: Seq<usize>,
    n: usize,
    post: State<S>,
)
    requires
        faithful(store, content),
        merged(store, pre, picks, n, post),
        pre.segments.len() <= usize::MAX,
        picks.no_duplicates(),
        forall|k: int| 0 <= k < picks.len() ==> #[trigger] picks[k] < pre.segments.len(),
    ensures
        live(content, post) == live(content, pre),
        post.tombstones == pre.tombstones,
        post.buffer == pre.buffer,
        stored(content, post) == together::<S>(content, without(pre.segments, picks)).add(
            alive(together::<S>(content, picked(pre.segments, picks)), pre.tombstones),
        ).add(pre.buffer.to_multiset()),
{
    let out = choose|out: S::Segment| #[trigger]
        merged_into(store, pre, picks, out, post) && n == store.len_of(out);
    let left = together::<S>(content, without(pre.segments, picks));
    let taken = together::<S>(content, picked(pre.segments, picks));
    let dead = pre.tombstones;
    let buffered = pre.buffer.to_multiset();
    together_split::<S>(content, pre.segments, picks);
    assert(content(out) == alive(taken, dead));
    if store.len_of(out) > 0 {
        together_push::<S>(content, without(pre.segments, picks), out);
    } else {
        assert(left.add(alive(taken, dead)) =~= left);
    }
    assert(together::<S>(content, post.segments) == left.add(alive(taken, dead)));
    alive_adds(left.add(alive(taken, dead)), buffered, dead);
    alive_adds(left, alive(taken, dead), dead);
    alive_twice(taken, dead);
    alive_adds(left.add(taken), buffered, dead);
    alive_adds(left, taken, dead);
}

/// The group that tiering chooses can be merged: positions of segments, each once.
pub proof fn tier_group_is_mergeable<S: Store, B: SizeBand>(
    store: S,
    flush_threshold: usize,
    cfg: TierConfig<B>,
    st: State<S>,
)
    requires
        st.segments.len() <= usize::MAX,
    ensures
        tier_group(store, flush_threshold, cfg, st) matches Some(group) ==> {
            &&& group.len() >= 2
            &&& group.no_duplicates()
            &&& forall|k: int| 0 <= k < group.len() ==> #[trigger] group[k] < st.segments.len()
        },
{
    crate::tiers::merge_choice_keeps_limits(sizes_of(store, st.segments), flush_threshold, cfg);
}

/// Merging leaves at most as many segments as there were.
pub proof fn merging_shrinks<S: Store>(
    store: S,
    pre: State<S>,
    picks: Seq<usize>,
    n: usize,
    post: State<S>,
)
    requires
        merged(store, pre, picks, n, post),
        pre.segments.len() <= usize::MAX,
        picks.no_duplicates(),
        picks.len() > 0,
        forall|k: int| 0 <= k < picks.len() ==> #[trigger] picks[k] < pre.segments.len(),
    ensures
        post.segments.len() <= pre.segments.len() - picks.len() + 1,
        n > 0 ==> post.segments.len() == pre.segments.len() - picks.len() + 1,
{
    let out = choose|out: S::Segment| #[trigger]
        merged_into(store, pre, picks, out, post) && n == store.len_of(out);
    crate::state::without_len(pre.segments, picks);
}

/// Each tier merge leaves at least one segment less.
pub proof fn tier_merges_shrink<S: Store, B: SizeBand>(
    store: S,
    flush_threshold: usize,
    cfg: TierConfig<B>,
    pre: State<S>,
    steps: nat,
    items: nat,
    post: State<S>,
)
    requires
        pre.segments.len() <= usize::MAX,
        tier_merged(store, flush_threshold, cfg, pre, steps, items, post),
    ensures
        post.segments.len() + steps <= pre.segments.len(),
    decreases steps,
{
    if steps > 0 {
        let (mid, n) = choose|mid: State<S>, n: usize|
            #![trigger merged(store, mid, tier_group(store, flush_threshold, cfg, mid)->0, n, post)]
            n <= items && tier_merged(
                store,
                flush_threshold,
                cfg,
                pre,
                (steps - 1) as nat,
                (items - n) as nat,
                mid,
            ) && tier_group(store, flush_threshold, cfg, mid) is Some && merged(
                store,
                mid,
                tier_group(store, flush_threshold, cfg, mid)->0,
                n,
                post,
            );
        tier_merges_shrink(
            store,
            flush_threshold,
            cfg,
            pre,
            (steps - 1) as nat,
            (items - n) as nat,
            mid,
        );
        let group = tier_group(store, flush_threshold, cfg, mid)->0;
        tier_group_is_mergeable(store, flush_threshold, cfg, mid);
        merging_shrinks(store, mid, group, n, post);
    }
}

/// Each consolidating merge leaves at least one segment less.
pub proof fn consolidating_merges_shrink<S: Store, B>(
    store: S,
    cfg: TierConfig<B>,
    max_segments: usize,
    pre: State<S>,
    steps: nat,
    items: nat,
    post: State<S>,
)
    requires
        max_segments >= 1,
        pre.segments.len() <= usize::MAX,
        consolidated(store, cfg, max_segments, pre, steps, items, post),
    ensures
        post.segments.len() + steps <= pre.segments.len(),
    decreases steps,
{
    if steps > 0 {
        let (mid, n) = choose|mid: State<S>, n: usize|
            #![trigger merged(store, mid, consolidation_group(store, cfg, max_segments, mid), n, post)]
            n <= items && consolidated(
                store,
                cfg,
                max_segments,
                pre,
                (steps - 1) as nat,
                (items - n) as nat,
                mid,
            ) && mid.segments.len() > max_segments && merged(
                store,
                mid,
                consolidation_group(store, cfg, max_segments, mid),
                n,
                post,
            );
        consolidating_merges_shrink(
            store,
            cfg,
            max_segments,
            pre,
            (steps - 1) as nat,
            (items - n) as nat,
            mid,
        );
        consolidation_group_is_mergeable(store, cfg, max_segments, mid);
        merging_shrinks(
            store,
            mid,
            consolidation_group(store, cfg, max_segments, mid),
            n,
            post,
        );
    }
}

/// Any number of tier merges keeps what is live, the tombstones and the buffer.
proof fn tier_merges_keep_live_content<S: Store, B: SizeBand>(
    store: S,
    content: spec_fn(S::Segment) -> Multiset<(S::Id, S::Item)>,
    flush_threshold: usize,
    cfg: TierConfig<B>,
    pre: State<S>,
    steps: nat,
    items: nat,
    post: State<S>,
)
    requires
        faithful(store, content),
        pre.segments.len() <= usize::MAX,
        tier_merged(store, flush_threshold, cfg, pre, steps, items, post),
    ensures
        live(content, post) == live(content, pre),
        post.tombstones == pre.tombstones,
        post.buffer == pre.buffer,
        post.segments.len() + steps <= pre.segments.len(),
    decreases steps,
{
    if steps > 0 {
        let (mid, n) = choose|mid: State<S>, n: usize|
            #![trigger merged(store, mid, tier_group(store, flush_threshold, cfg, mid)->0, n, post)]
            n <= items && tier_merged(
                store,
                flush_threshold,
                cfg,
                pre,
                (steps - 1) as nat,
                (items - n) as nat,
                mid,
            ) && tier_group(store, flush_threshold, cfg, mid) is Some && merged(
                store,
                mid,
                tier_group(store, flush_threshold, cfg, mid)->0,
                n,
                post,
            );
        tier_merges_keep_live_content(
            store,
            content,
            flush_threshold,
            cfg,
            pre,
            (steps - 1) as nat,
            (items - n) as nat,
            mid,
        );
        let group = tier_group(store, flush_threshold, cfg, mid)->0;
        tier_group_is_mergeable(store, flush_threshold, cfg, mid);
        merging_keeps_live_content(store, content, mid, group, n, post);
        merging_shrinks(store, mid, group, n, post);
    }
}

/// Size-tiered compaction keeps what is live and does not touch the tombstones; each
/// merge leaves at least one segment less.
pub proof fn tier_compaction_keeps_live_content<S: Store, B: SizeBand>(
    store: S,
    content: spec_fn(S::Segment) -> Multiset<(S::Id, S::Item)>,
    flush_threshold: usize,
    cfg: TierConfig<B>,
    pre: State<S>,
    stats: CompactionStats,
    post: State<S>,
)
    requires
        faithful(store, content),
        pre.segments.len() <= usize::MAX,
        tiers_compacted(store, flush_threshold, cfg, pre, stats, post),
    ensures
        live(content, post) == live(content, pre),
        post.tombstones == pre.tombstones,
        post.segments.len() + stats.merges <= pre.segments.len(),
{
    let items = choose|items: nat| #[trigger]
        tier_merged(store, flush_threshold, cfg, pre, stats.merges as nat, items, post)
            && stats.items_merged == crate::state::capped(items);
    tier_merges_keep_live_content(
        store,
        content,
        flush_threshold,
        cfg,
        pre,
        stats.merges as nat,
        items,
        post,
    );
}

/// The group that consolidation chooses can be merged.
pub proof fn consolidation_group_is_mergeable<S: Store, B>(
    store: S,
    cfg: TierConfig<B>,
    max_segments: usize,
    st: State<S>,
)
    requires
        st.segments.len() <= usize::MAX,
        st.segments.len() > max_segments,
        max_segments >= 1,
    ensures
        ({
            let group = consolidation_group(store, cfg, max_segments, st);
            &&& group.len() >= 2
            &&& group.no_duplicates()
            &&& forall|k: int| 0 <= k < group.len() ==> #[trigger] group[k] < st.segments.len()
        }),
{
    let sizes = sizes_of(store, st.segments);
    let all = positions(st.segments.len());
    crate::order::ordered_positions(sizes, st.segments.len());
    let sorted = crate::order::ordered(sizes, all);
    let group = consolidation_group(store, cfg, max_segments, st);
    assert forall|k: int| 0 <= k < group.len() implies #[trigger] group[k] < st.segments.len() by {
        assert(group[k] == sorted[k]);
    }
}

/// Any number of consolidating merges keeps what is live, the tombstones and the
/// buffer.
proof fn consolidating_merges_keep_live_content<S: Store, B>(
    store: S,
    content: spec_fn(S::Segment) -> Multiset<(S::Id, S::Item)>,
    cfg: TierConfig<B>,
    max_segments: usize,
    pre: State<S>,
    steps: nat,
    items: nat,
    post: State<S>,
)
    requires
        faithful(store, content),
        max_segments >= 1,
        pre.segments.len() <= usize::MAX,
        consolidated(store, cfg, max_segments, pre, steps, items, post),
    ensures
        live(content, post) == live(content, pre),
        post.tombstones == pre.tombstones,
        post.buffer == pre.buffer,
        post.segments.len() + steps <= pre.segments.len(),
    decreases steps,
{
    if steps > 0 {
        let (mid, n) = choose|mid: State<S>, n: usize|
            #![trigger merged(store, mid, consolidation_group(store, cfg, max_segments, mid), n, post)]
            n <= items && consolidated(
                store,
                cfg,
                max_segments,
                pre,
                (steps - 1) as nat,
                (items - n) as nat,
                mid,
            ) && mid.segments.len() > max_segments && merged(
                store,
                mid,
                consolidation_group(store, cfg, max_segments, mid),
                n,
                post,
            );
        consolidating_merges_keep_live_content(
            store,
            content,
            cfg,
            max_segments,
            pre,
            (steps - 1) as nat,
            (items - n) as nat,
            mid,
        );
        let group = consolidation_group(store, cfg, max_segments, mid);
        consolidation_group_is_mergeable(store, cfg, max_segments, mid);
        merging_keeps_live_content(store, content, mid, group, n, post);
        merging_shrinks(store, mid, group, n, post);
    }
}

/// Consolidation to more than one segment keeps what is live and does not touch the
/// tombstones; it ends with at most the wanted number of segments, and does nothing
/// where there were no more.
pub proof fn consolidation_keeps_live_content<S: Store, B>(
    store: S,
    content: spec_fn(S::Segment) -> Multiset<(S::Id, S::Item)>,
    cfg: TierConfig<B>,
    max_segments: usize,
    pre: State<S>,
    stats: CompactionStats,
    post: State<S>,
)
    requires
        faithful(store, content),
        max_segments > 1,
        pre.segments.len() <= usize::MAX,
        force_merged(store, cfg, max_segments, pre, stats, post),
    ensures
        live(content, post) == live(content, pre),
        post.tombstones == pre.tombstones,
        post.segments.len() <= max_segments,
        pre.segments.len() <= max_segments ==> post == pre && stats.merges == 0,
{
    let items = choose|items: nat| #[trigger]
        consolidated(store, cfg, max_segments, pre, stats.merges as nat, items, post)
            && stats.items_merged == crate::state::capped(items);
    consolidating_merges_keep_live_content(
        store,
        content,
        cfg,
        max_segments,
        pre,
        stats.merges as nat,
        items,
        post,
    );
    if pre.segments.len() <= max_segments && stats.merges > 0 {
        consolidation_starts_above(
            store,
            cfg,
            max_segments,
            pre,
            stats.merges as nat,
            items,
            post,
        );
    }
}

/// A consolidating merge happens only where there are too many segments to start with.
proof fn consolidation_starts_above<S: Store, B>(
    store: S,
    cfg: TierConfig<B>,
    max_segments: usize,
    pre: State<S>,
    steps: nat,
    items: nat,
    post: State<S>,
)
    requires
        steps > 0,
        consolidated(store, cfg, max_segments, pre, steps, items, post),
    ensures
        pre.segments.len() > max_segments,
    decreases steps,
{
    let (mid, n) = choose|mid: State<S>, n: usize|
        #![trigger merged(store, mid, consolidation_group(store, cfg, max_segments, mid), n, post)]
        n <= items && consolidated(
            store,
            cfg,
            max_segments,
            pre,
            (steps - 1) as nat,
            (items - n) as nat,
            mid,
        ) && mid.segments.len() > max_segments && merged(
            store,
            mid,
            consolidation_group(store, cfg, max_segments, mid),
            n,
            post,
        );
    if steps > 1 {
        consolidation_starts_above(
            store,
            cfg,
            max_segments,
            pre,
            (steps - 1) as nat,
            (items - n) as nat,
            mid,
        );
    }
}

/// Full compaction of a sealed store keeps what is live, and leaves nothing else: no
/// tombstones, at most one segment, and every entry stored is live.
pub proof fn compaction_keeps_exactly_live_content<S: Store>(
    store: S,
    content: spec_fn(S::Segment) -> Multiset<(S::Id, S::Item)>,
    pre: State<S>,
    stats: CompactionStats,
    post: State<S>,
)
    requires
        faithful(store, content),
        pre.segments.len() <= usize::MAX,
        pre.buffer.len() == 0,
        compacted(store, pre, stats, post),
    ensures
        live(content, post) == live(content, pre),
        stored(content, post) == live(content, post),
        post.tombstones == Set::<S::Id>::empty(),
        post.segments.len() <= 1,
{
    let before = pre.segments.len();
    nothing_in_empty(pre.buffer);
    if before > 1 || (before == 1 && !pre.tombstones.is_empty()) {
        let mid = choose|mid: State<S>|
            #![trigger merged(store, pre, positions(before), stats.items_merged, mid)]
            merged(store, pre, positions(before), stats.items_merged, mid) && post == (State {
                tombstones: Set::empty(),
                ..mid
            }) && stats == (CompactionStats {
                merges: 1,
                segments_before: before as usize,
                segments_after: mid.segments.len() as usize,
                items_merged: stats.items_merged,
            });
        positions_are_distinct(before);
        merging_keeps_live_content(
            store,
            content,
            pre,
            positions(before),
            stats.items_merged,
            mid,
        );
        merging_shrinks(store, pre, positions(before), stats.items_merged, mid);
        crate::state::without_len(pre.segments, positions(before));
        assert(without(pre.segments, positions(before)) =~= Seq::empty());
        assert(picked(pre.segments, positions(before)) =~= pre.segments);
        let all = together::<S>(content, pre.segments);
        assert(stored(content, pre) =~= all);
        assert(stored(content, mid) =~= alive(all, pre.tombstones));
    } else {
        assert(stored(content, post) =~= stored(content, pre));
        if before == 0 {
            assert(stored(content, pre) =~= Multiset::empty());
            assert(live(content, pre) =~= Multiset::empty());
        } else {
            assert(pre.tombstones =~= Set::empty());
        }
    }
    assert(live(content, post) =~= stored(content, post));
}

/// Reclaiming dead entries keeps what is live and does not touch the tombstones.
pub proof fn reclaiming_keeps_live_content<S: Store>(
    store: S,
    content: spec_fn(S::Segment) -> Multiset<(S::Id, S::Item)>,
    low: spec_fn(usize, usize) -> bool,
    pre: State<S>,
    stats: CompactionStats,
    post: State<S>,
)
    requires
        faithful(store, content),
        pre.segments.len() <= usize::MAX,
        reclaimed(store, low, pre, stats, post),
    ensures
        live(content, post) == live(content, pre),
        post.tombstones == pre.tombstones,
{
    let targets = sparse(store, low, pre);
    if crate::state::counts_live(store, pre) && targets.len() > 0 {
        positions_are_distinct(pre.segments.len());
        let all = positions(pre.segments.len());
        let keep = |i: usize|
            store.len_of(pre.segments[i as int]) > 0 && low(
                store.live_of(pre.segments[i as int], pre.tombstones)->0,
                store.len_of(pre.segments[i as int]),
            );
        crate::order::filter_keeps_distinct(all, keep);
        assert forall|k: int| 0 <= k < targets.len() implies #[trigger] targets[k]
            < pre.segments.len() by {
            assert(all.filter(keep).contains(targets[k]));
            all.lemma_filter_contains_rev(keep, targets[k]);
        }
        merging_keeps_live_content(store, content, pre, targets, stats.items_merged, post);
    }
}

/// Reclaiming, with the seal that goes before it, keeps what is live and does not touch
/// the tombstones.
pub proof fn reclamation_keeps_live_content<S: Store>(
    store: S,
    content: spec_fn(S::Segment) -> Multiset<(S::Id, S::Item)>,
    low: spec_fn(usize, usize) -> bool,
    pre: State<S>,
    stats: CompactionStats,
    post: State<S>,
)
    requires
        faithful(store, content),
        pre.segments.len() < usize::MAX,
        reclamation(store, low, pre, stats, post),
    ensures
        live(content, post) == live(content, pre),
        post.tombstones == pre.tombstones,
{
    if crate::state::counts_live(store, pre) {
        let mid = choose|mid: State<S>| #[trigger]
            sealed(store, pre, mid) && if crate::state::counts_live(store, mid) && sparse(
                store,
                low,
                mid,
            ).len() > 0 {
                reclaimed(store, low, mid, stats, post)
            } else {
                crate::state::idle(pre, stats, post)
            };
        if crate::state::counts_live(store, mid) && sparse(store, low, mid).len() > 0 {
            sealing_keeps_content(store, content, pre, mid);
            reclaiming_keeps_live_content(store, content, low, mid, stats, post);
        }
    }
}

/// Performing an add stores one more entry, revives its identity and changes nothing
/// else.
pub proof fn adding_stores_the_entry<S: Store>(
    store: S,
    content: spec_fn(S::Segment) -> Multiset<(S::Id, S::Item)>,
    flush_threshold: usize,
    pre: State<S>,
    id: S::Id,
    item: S::Item,
    post: State<S>,
)
    requires
        faithful(store, content),
        performed(store, flush_threshold, pre, Op::Add(id, item), post),
    ensures
        stored(content, post) == stored(content, pre).insert((id, item)),
        post.tombstones == pre.tombstones.remove(id),
        live(content, post).count((id, item)) == stored(content, pre).count((id, item)) + 1,
        !pre.tombstones.contains(id) ==> live(content, post) == live(content, pre).insert(
            (id, item),
        ),
{
    broadcast use vstd::seq_lib::group_to_multiset_ensures;

    let mid = applied(pre, Op::Add(id, item));
    assert(mid.buffer.to_multiset() =~= pre.buffer.to_multiset().insert((id, item)));
    assert(stored(content, mid) =~= stored(content, pre).insert((id, item)));
    if mid.buffer.len() >= flush_threshold {
        sealing_keeps_content(store, content, mid, post);
    }
    if !pre.tombstones.contains(id) {
        assert(pre.tombstones.remove(id) =~= pre.tombstones);
        assert(live(content, post) =~= live(content, pre).insert((id, item)));
    }
}

/// Performing a delete makes every entry of the identity dead, and changes nothing
/// about the other live entries.
pub proof fn deleting_takes_the_identity_out<S: Store>(
    store: S,
    content: spec_fn(S::Segment) -> Multiset<(S::Id, S::Item)>,
    flush_threshold: usize,
    pre: State<S>,
    id: S::Id,
    post: State<S>,
)
    requires
        faithful(store, content),
        performed(store, flush_threshold, pre, Op::Delete(id), post),
    ensures
        post.tombstones == pre.tombstones.insert(id),
        live(content, post) == live(content, pre).filter(|e: (S::Id, S::Item)| e.0 != id),
{
    let mid = applied(pre, Op::Delete(id));
    filtered_multiset(pre.buffer, |e: (S::Id, S::Item)| e.0 != id);
    assert(live(content, mid) =~= live(content, pre).filter(|e: (S::Id, S::Item)| e.0 != id));
    if mid.buffer.len() > 0 && mid.buffer.len() >= flush_threshold {
        sealing_keeps_content(store, content, mid, post);
    }
}

/// Filtering a sequence filters its entries.
pub(crate) proof fn filtered_multiset<T>(s: Seq<T>, keep: spec_fn(T) -> bool)
    ensures
        s.filter(keep).to_multiset() == s.to_multiset().filter(keep),
    decreases s.len(),
{
    broadcast use vstd::seq_lib::group_to_multiset_ensures;

    if s.len() == 0 {
        reveal(Seq::filter);
        nothing_in_empty(s);
        assert(s.filter(keep).to_multiset() =~= s.to_multiset().filter(keep));
    } else {
        let front = s.drop_last();
        let last = s.last();
        filtered_multiset(front, keep);
        assert(s =~= front.push(last));
        front.lemma_filter_push(last, keep);
        assert(s.filter(keep).to_multiset() =~= s.to_multiset().filter(keep));
    }
}

/// The reading of the list-backed model: a list holds its entries.
pub open spec fn entries<Id, Item>() -> spec_fn(Vec<(Id, Item)>) -> Multiset<(Id, Item)> {
    |list: Vec<(Id, Item)>| list@.to_multiset()
}

/// Where clones are exact, a copied list is the list.
pub proof fn copied_is_same<Id: Clone, Item: Clone>(from: Seq<(Id, Item)>, to: Seq<(Id, Item)>)
    requires
        crate::ids::exact_clone::<Id>(),
        crate::ids::exact_clone::<Item>(),
        crate::store::copied(from, to),
    ensures
        to == from,
{
    assert forall|i: int| 0 <= i < from.len() implies to[i] == from[i] by {
        assert(cloned(from[i].0, to[i].0) && cloned(from[i].1, to[i].1));
    }
    assert(to =~= from);
}

/// The live entries of lists are those of the lists together.
proof fn live_entries_together<Id: Clone + Eq + std::hash::Hash, Item: Clone>(
    segments: Seq<Vec<(Id, Item)>>,
    dead: Set<Id>,
)
    ensures
        crate::store::live_entries(segments, dead).to_multiset() == alive(
            together::<crate::store::DefaultStore<Id, Item>>(entries(), segments),
            dead,
        ),
    decreases segments.len(),
{
    let all = together::<crate::store::DefaultStore<Id, Item>>(entries(), segments);
    let kept = crate::store::live_entries(segments, dead);
    if segments.len() == 0 {
        nothing_in_empty(kept);
        assert(kept.to_multiset() =~= alive(all, dead));
    } else {
        let front = segments.drop_last();
        let last = segments.last()@;
        live_entries_together::<Id, Item>(front, dead);
        filtered_multiset(last, |e: (Id, Item)| !dead.contains(e.0));
        vstd::seq_lib::lemma_multiset_commutative(
            crate::store::live_entries(front, dead),
            crate::store::survivors(last, dead),
        );
        alive_adds(
            together::<crate::store::DefaultStore<Id, Item>>(entries(), front),
            last.to_multiset(),
            dead,
        );
    }
}

/// The list-backed model follows the plain reading of lists, where clones are exact.
pub proof fn default_store_is_faithful<Id: Clone + Eq + std::hash::Hash, Item: Clone>(
    store: crate::store::DefaultStore<Id, Item>,
)
    requires
        crate::ids::exact_clone::<Id>(),
        crate::ids::exact_clone::<Item>(),
    ensures
        faithful(store, entries::<Id, Item>()),
{
    let content = entries::<Id, Item>();
    assert forall|batch: Seq<(Id, Item)>, segment: Vec<(Id, Item)>| #[trigger]
        store.builds(batch, segment) implies content(segment) == batch.to_multiset() by {
        copied_is_same(batch, segment@);
    }
    assert forall|segments: Seq<Vec<(Id, Item)>>, dead: Set<Id>, out: Vec<(Id, Item)>| #[trigger]
        store.merges(segments, dead, out) implies content(out) == alive(
        together::<crate::store::DefaultStore<Id, Item>>(content, segments),
        dead,
    ) by {
        copied_is_same(crate::store::live_entries(segments, dead), out@);
        live_entries_together::<Id, Item>(segments, dead);
    }
    assert forall|segment: Vec<(Id, Item)>| #[trigger] store.len_of(segment) == 0 implies content(
        segment,
    ) == Multiset::<(Id, Item)>::empty() by {
        nothing_in_empty(segment@);
    }
}

/// The list-backed model's merges never hold more entries than went in.
pub proof fn default_store_is_thrifty<Id: Clone + Eq + std::hash::Hash, Item: Clone>(
    store: crate::store::DefaultStore<Id, Item>,
)
    ensures
        crate::lineage::thrifty(store),
{
    assert forall|segments: Seq<Vec<(Id, Item)>>, dead: Set<Id>, out: Vec<(Id, Item)>| #[trigger]
        store.merges(segments, dead, out) implies store.len_of(out) <= crate::state::total_of(
        sizes_of(store, segments),
    ) by {
        live_entries_are_few::<Id, Item>(store, segments, dead);
    }
}

/// There are no more live entries than entries.
proof fn live_entries_are_few<Id: Clone + Eq + std::hash::Hash, Item: Clone>(
    store: crate::store::DefaultStore<Id, Item>,
    segments: Seq<Vec<(Id, Item)>>,
    dead: Set<Id>,
)
    ensures
        crate::store::live_entries(segments, dead).len() <= crate::state::total_of(
            sizes_of(store, segments),
        ),
    decreases segments.len(),
{
    if segments.len() > 0 {
        let front = segments.drop_last();
        live_entries_are_few(store, front, dead);
        assert(sizes_of(store, segments).drop_last() =~= sizes_of(store, front));
        segments.last()@.lemma_filter_len(|e: (Id, Item)| !dead.contains(e.0));
    }
}

} // verus!
