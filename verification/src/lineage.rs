//! Segment ids: handed out once while a store lives, in growing order, each naming one
//! segment for good.
//!
//! After a crash, an id that was handed out since the last checkpoint can be handed out
//! again: no manifest has named it, and its file, if there is one, is garbage.

use crate::band::SizeBand;
use crate::config::{CompactionStats, TierConfig};
use crate::log::Op;
use crate::state::{
    applied, committed, compacted, consolidated, consolidation_group, force_merged, ids_grow,
    merged, merged_into, performed, positions, reclaimed, replayed, sealed, sparse, tier_group,
    tier_merged, tiers_compacted, without, State,
};
use crate::store::Store;
use vstd::prelude::*;

verus! {

/// Segments and ids are in lockstep, and ids grow.
pub open spec fn orderly<S: Store>(st: State<S>) -> bool {
    st.segments.len() == st.ids.len() && ids_grow(st)
}

/// The segment at `j` of `post` was in `pre`, under the same id.
pub open spec fn inherited<S: Store>(pre: State<S>, post: State<S>, j: int) -> bool {
    exists|i: int|
        0 <= i < pre.ids.len() && #[trigger] pre.ids[i] == post.ids[j] && pre.segments[i]
            == post.segments[j]
}

/// `post` comes after `pre`: it is orderly, no id below the first free one is handed
/// out again, and a segment either keeps its id or has a new one.
pub open spec fn descends<S: Store>(pre: State<S>, post: State<S>) -> bool {
    &&& orderly(post)
    &&& pre.next_id <= post.next_id
    &&& forall|j: int|
        0 <= j < post.ids.len() ==> inherited(pre, post, j) || #[trigger] post.ids[j]
            >= pre.next_id
}

/// Nothing changed about segments and ids.
proof fn descends_same<S: Store>(pre: State<S>, post: State<S>)
    requires
        orderly(pre),
        post.segments == pre.segments,
        post.ids == pre.ids,
        post.next_id == pre.next_id,
    ensures
        descends(pre, post),
{
    assert forall|j: int| 0 <= j < post.ids.len() implies inherited(pre, post, j)
        || #[trigger] post.ids[j] >= pre.next_id by {
        assert(pre.ids[j] == post.ids[j]);
    }
}

/// Coming after is transitive: an id that is gone does not come back.
pub proof fn descends_through<S: Store>(a: State<S>, b: State<S>, c: State<S>)
    requires
        descends(a, b),
        descends(b, c),
    ensures
        descends(a, c),
{
    assert forall|j: int| 0 <= j < c.ids.len() implies inherited(a, c, j) || #[trigger] c.ids[j]
        >= a.next_id by {
        if inherited(b, c, j) {
            let k = choose|k: int|
                0 <= k < b.ids.len() && #[trigger] b.ids[k] == c.ids[j] && b.segments[k]
                    == c.segments[j];
            if inherited(a, b, k) {
                let i = choose|i: int|
                    0 <= i < a.ids.len() && #[trigger] a.ids[i] == b.ids[k] && a.segments[i]
                        == b.segments[k];
                assert(a.ids[i] == c.ids[j] && a.segments[i] == c.segments[j]);
            } else {
                assert(b.ids[k] >= a.next_id);
            }
        }
    }
}

/// `a` and `b` stand at the same place of `s` and `t`.
pub open spec fn paired_in<A, B>(s: Seq<A>, t: Seq<B>, a: A, b: B) -> bool {
    exists|i: int| 0 <= i < s.len() && #[trigger] s[i] == a && t[i] == b
}

/// Two sequences in lockstep that are thinned out alike stay in lockstep.
pub proof fn without_origin<A, B>(s: Seq<A>, t: Seq<B>, picks: Seq<usize>)
    requires
        s.len() == t.len(),
    ensures
        without(s, picks).len() == without(t, picks).len(),
        forall|j: int|
            0 <= j < without(s, picks).len() ==> paired_in(
                s,
                t,
                #[trigger] without(s, picks)[j],
                without(t, picks)[j],
            ),
    decreases s.len(),
{
    if s.len() > 0 {
        without_origin(s.drop_last(), t.drop_last(), picks);
        let ws = without(s, picks);
        let wt = without(t, picks);
        let fs = without(s.drop_last(), picks);
        let ft = without(t.drop_last(), picks);
        assert forall|j: int| 0 <= j < ws.len() implies paired_in(
            s,
            t,
            #[trigger] ws[j],
            wt[j],
        ) by {
            if j < fs.len() {
                assert(paired_in(s.drop_last(), t.drop_last(), fs[j], ft[j]));
                let i = choose|i: int|
                    0 <= i < s.drop_last().len() && #[trigger] s.drop_last()[i] == fs[j]
                        && t.drop_last()[i] == ft[j];
                assert(s[i] == ws[j] && t[i] == wt[j]);
            } else {
                assert(s[s.len() - 1] == ws[j] && t[t.len() - 1] == wt[j]);
            }
        }
    }
}

/// Thinning out a growing sequence keeps it growing.
proof fn without_grows(s: Seq<u64>, picks: Seq<usize>)
    requires
        forall|i: int, j: int| 0 <= i < j < s.len() ==> s[i] < s[j],
    ensures
        forall|i: int, j: int|
            0 <= i < j < without(s, picks).len() ==> without(s, picks)[i] < without(s, picks)[j],
        forall|i: int| 0 <= i < without(s, picks).len() ==> s.contains(#[trigger] without(s, picks)[i]),
    decreases s.len(),
{
    if s.len() > 0 {
        let front = s.drop_last();
        without_grows(front, picks);
        let w = without(s, picks);
        let f = without(front, picks);
        assert forall|i: int| 0 <= i < f.len() implies s.contains(#[trigger] f[i]) && f[i]
            < s.last() by {
            let k = choose|k: int| 0 <= k < front.len() && front[k] == f[i];
            assert(s[k] == f[i]);
        }
        assert forall|i: int| 0 <= i < w.len() implies s.contains(#[trigger] w[i]) by {
            if i < f.len() {
                assert(w[i] == f[i]);
            } else {
                assert(s[s.len() - 1] == w[i]);
            }
        }
    }
}

/// Sealing hands out the next id.
pub proof fn sealing_descends<S: Store>(store: S, pre: State<S>, post: State<S>)
    requires
        orderly(pre),
        pre.next_id < u64::MAX,
        sealed(store, pre, post),
    ensures
        descends(pre, post),
        post.next_id <= pre.next_id + 1,
        post.segments.len() <= pre.segments.len() + 1,
{
    if pre.buffer.len() == 0 {
        descends_same(pre, post);
    } else {
        assert forall|j: int| 0 <= j < post.ids.len() implies inherited(pre, post, j)
            || #[trigger] post.ids[j] >= pre.next_id by {
            if j < pre.ids.len() {
                assert(pre.ids[j] == post.ids[j] && pre.segments[j] == post.segments[j]);
            }
        }
    }
}

/// Performing an operation hands out the next id at most.
pub proof fn performing_descends<S: Store>(
    store: S,
    flush_threshold: usize,
    pre: State<S>,
    op: Op<S::Id, S::Item>,
    post: State<S>,
)
    requires
        orderly(pre),
        pre.next_id < u64::MAX,
        performed(store, flush_threshold, pre, op, post),
    ensures
        descends(pre, post),
        post.next_id <= pre.next_id + 1,
{
    let mid = applied(pre, op);
    descends_same(pre, mid);
    if mid.buffer.len() > 0 && mid.buffer.len() >= flush_threshold {
        sealing_descends(store, mid, post);
        descends_through(pre, mid, post);
    }
}

/// Replaying a log hands out one id per operation at most.
pub proof fn replaying_descends<S: Store>(
    store: S,
    flush_threshold: usize,
    pre: State<S>,
    ops: Seq<Op<S::Id, S::Item>>,
    post: State<S>,
)
    requires
        orderly(pre),
        pre.next_id + ops.len() < u64::MAX,
        replayed(store, flush_threshold, pre, ops, post),
    ensures
        descends(pre, post),
        post.next_id <= pre.next_id + ops.len(),
    decreases ops.len(),
{
    if ops.len() == 0 {
        descends_same(pre, post);
    } else {
        let mid = choose|mid: State<S>|
            replayed(store, flush_threshold, pre, ops.drop_last(), mid) && #[trigger] performed(
                store,
                flush_threshold,
                mid,
                ops.last(),
                post,
            );
        replaying_descends(store, flush_threshold, pre, ops.drop_last(), mid);
        performing_descends(store, flush_threshold, mid, ops.last(), post);
        descends_through(pre, mid, post);
    }
}

/// A merge hands out the next id at most, and every segment it does not touch keeps
/// its own.
pub proof fn merging_descends<S: Store>(
    store: S,
    pre: State<S>,
    picks: Seq<usize>,
    n: usize,
    post: State<S>,
)
    requires
        orderly(pre),
        pre.next_id < u64::MAX,
        merged(store, pre, picks, n, post),
    ensures
        descends(pre, post),
        post.next_id <= pre.next_id + 1,
{
    let out = choose|out: S::Segment| #[trigger]
        merged_into(store, pre, picks, out, post) && n == store.len_of(out);
    let ids = without(pre.ids, picks);
    let segments = without(pre.segments, picks);
    without_origin(pre.ids, pre.segments, picks);
    without_grows(pre.ids, picks);
    assert forall|i: int| 0 <= i < ids.len() implies #[trigger] ids[i] < pre.next_id by {
        assert(pre.ids.contains(ids[i]));
    }
    assert forall|j: int| 0 <= j < post.ids.len() implies inherited(pre, post, j)
        || #[trigger] post.ids[j] >= pre.next_id by {
        if j < ids.len() {
            assert(paired_in(pre.ids, pre.segments, ids[j], segments[j]));
            let i = choose|i: int|
                0 <= i < pre.ids.len() && #[trigger] pre.ids[i] == ids[j] && pre.segments[i]
                    == segments[j];
            assert(pre.ids[i] == post.ids[j] && pre.segments[i] == post.segments[j]);
        }
    }
}

/// Tier merges hand out one id each at most.
proof fn tier_merges_descend<S: Store, B: SizeBand>(
    store: S,
    flush_threshold: usize,
    cfg: TierConfig<B>,
    pre: State<S>,
    steps: nat,
    items: nat,
    post: State<S>,
)
    requires
        orderly(pre),
        pre.next_id + steps < u64::MAX,
        tier_merged(store, flush_threshold, cfg, pre, steps, items, post),
    ensures
        descends(pre, post),
        post.next_id <= pre.next_id + steps,
    decreases steps,
{
    if steps == 0 {
        descends_same(pre, post);
    } else {
        let (mid, n) = choose|mid: State<S>, n: usize|
            #![trigger merged(store, mid, tier_group(store, flush_threshold, cfg, mid)->0, n, post)]
            n <= items && tier_merged(
                store,
                flush_threshold,
                cfg,
                pre,
                (steps - 1) as nat,
                (items - n) as nat,
                mid,
            ) && tier_group(store, flush_threshold, cfg, mid) is Some && merged(
                store,
                mid,
                tier_group(store, flush_threshold, cfg, mid)->0,
                n,
                post,
            );
        tier_merges_descend(
            store,
            flush_threshold,
            cfg,
            pre,
            (steps - 1) as nat,
            (items - n) as nat,
            mid,
        );
        let group = tier_group(store, flush_threshold, cfg, mid)->0;
        merging_descends(store, mid, group, n, post);
        descends_through(pre, mid, post);
    }
}

/// Size-tiered compaction never hands out an id twice.
pub proof fn tier_compaction_descends<S: Store, B: SizeBand>(
    store: S,
    flush_threshold: usize,
    cfg: TierConfig<B>,
    pre: State<S>,
    stats: CompactionStats,
    post: State<S>,
)
    requires
        orderly(pre),
        pre.next_id + stats.merges < u64::MAX,
        tiers_compacted(store, flush_threshold, cfg, pre, stats, post),
    ensures
        descends(pre, post),
{
    let items = choose|items: nat| #[trigger]
        tier_merged(store, flush_threshold, cfg, pre, stats.merges as nat, items, post)
            && stats.items_merged == crate::state::capped(items);
    tier_merges_descend(
        store,
        flush_threshold,
        cfg,
        pre,
        stats.merges as nat,
        items,
        post,
    );
}

/// Consolidating merges hand out one id each at most.
proof fn consolidating_merges_descend<S: Store, B>(
    store: S,
    cfg: TierConfig<B>,
    max_segments: usize,
    pre: State<S>,
    steps: nat,
    items: nat,
    post: State<S>,
)
    requires
        orderly(pre),
        pre.next_id + steps < u64::MAX,
        consolidated(store, cfg, max_segments, pre, steps, items, post),
    ensures
        descends(pre, post),
        post.next_id <= pre.next_id + steps,
    decreases steps,
{
    if steps == 0 {
        descends_same(pre, post);
    } else {
        let (mid, n) = choose|mid: State<S>, n: usize|
            #![trigger merged(store, mid, consolidation_group(store, cfg, max_segments, mid), n, post)]
            n <= items && consolidated(
                store,
                cfg,
                max_segments,
                pre,
                (steps - 1) as nat,
                (items - n) as nat,
                mid,
            ) && mid.segments.len() > max_segments && merged(
                store,
                mid,
                consolidation_group(store, cfg, max_segments, mid),
                n,
                post,
            );
        consolidating_merges_descend(
            store,
            cfg,
            max_segments,
            pre,
            (steps - 1) as nat,
            (items - n) as nat,
            mid,
        );
        merging_descends(
            store,
            mid,
            consolidation_group(store, cfg, max_segments, mid),
            n,
            post,
        );
        descends_through(pre, mid, post);
    }
}

/// Consolidation never hands out an id twice.
pub proof fn consolidation_descends<S: Store, B>(
    store: S,
    cfg: TierConfig<B>,
    max_segments: usize,
    pre: State<S>,
    stats: CompactionStats,
    post: State<S>,
)
    requires
        orderly(pre),
        pre.next_id + stats.merges < u64::MAX,
        force_merged(store, cfg, max_segments, pre, stats, post),
    ensures
        descends(pre, post),
{
    let items = choose|items: nat| #[trigger]
        consolidated(store, cfg, max_segments, pre, stats.merges as nat, items, post)
            && stats.items_merged == crate::state::capped(items);
    consolidating_merges_descend(
        store,
        cfg,
        max_segments,
        pre,
        stats.merges as nat,
        items,
        post,
    );
}

/// Full compaction never hands out an id twice.
pub proof fn compaction_descends<S: Store>(
    store: S,
    pre: State<S>,
    stats: CompactionStats,
    post: State<S>,
)
    requires
        orderly(pre),
        pre.next_id < u64::MAX,
        compacted(store, pre, stats, post),
    ensures
        descends(pre, post),
{
    let before = pre.segments.len();
    if before > 1 || (before == 1 && !pre.tombstones.is_empty()) {
        let mid = choose|mid: State<S>|
            #![trigger merged(store, pre, positions(before), stats.items_merged, mid)]
            merged(store, pre, positions(before), stats.items_merged, mid) && post == (State {
                tombstones: Set::empty(),
                ..mid
            }) && stats == (CompactionStats {
                merges: 1,
                segments_before: before as usize,
                segments_after: mid.segments.len() as usize,
                items_merged: stats.items_merged,
            });
        merging_descends(store, pre, positions(before), stats.items_merged, mid);
        descends_same(mid, post);
        descends_through(pre, mid, post);
    } else {
        descends_same(pre, post);
    }
}

/// Reclaiming never hands out an id twice.
pub proof fn reclaiming_descends<S: Store>(
    store: S,
    low: spec_fn(usize, usize) -> bool,
    pre: State<S>,
    stats: CompactionStats,
    post: State<S>,
)
    requires
        orderly(pre),
        pre.next_id < u64::MAX,
        reclaimed(store, low, pre, stats, post),
    ensures
        descends(pre, post),
{
    let targets = sparse(store, low, pre);
    if crate::state::counts_live(store, pre) && targets.len() > 0 {
        merging_descends(store, pre, targets, stats.items_merged, post);
    } else {
        descends_same(pre, post);
    }
}

/// Committing a checkpoint changes no segment and no id.
pub proof fn committing_descends<S: Store>(pre: State<S>)
    requires
        orderly(pre),
    ensures
        descends(pre, committed(pre)),
{
    descends_same(pre, committed(pre));
}

/// What is not picked is still there, in lockstep.
proof fn without_keeps<A, B>(s: Seq<A>, t: Seq<B>, picks: Seq<usize>, i: int)
    requires
        s.len() == t.len(),
        s.len() <= usize::MAX,
        0 <= i < s.len(),
        !picks.contains(i as usize),
    ensures
        paired_in(without(s, picks), without(t, picks), s[i], t[i]),
    decreases s.len(),
{
    let ws = without(s, picks);
    let wt = without(t, picks);
    without_origin(s, t, picks);
    without_origin(s.drop_last(), t.drop_last(), picks);
    if i == s.len() - 1 {
        assert(ws[ws.len() - 1] == s[i] && wt[ws.len() - 1] == t[i]);
    } else {
        let fs = without(s.drop_last(), picks);
        let ft = without(t.drop_last(), picks);
        without_keeps(s.drop_last(), t.drop_last(), picks, i);
        assert(paired_in(fs, ft, s[i], t[i]));
        let j = choose|j: int| 0 <= j < fs.len() && #[trigger] fs[j] == s[i] && ft[j] == t[i];
        assert(ws[j] == s[i] && wt[j] == t[i]);
    }
}

/// The segment at `i` of `pre` is still in `post`, under the same id.
pub open spec fn survives<S: Store>(pre: State<S>, post: State<S>, i: int) -> bool {
    paired_in(post.ids, post.segments, pre.ids[i], pre.segments[i])
}

/// A merge leaves every segment that it does not take as it is.
pub proof fn merging_leaves_the_rest<S: Store>(
    store: S,
    pre: State<S>,
    picks: Seq<usize>,
    n: usize,
    post: State<S>,
    i: int,
)
    requires
        pre.segments.len() == pre.ids.len(),
        pre.segments.len() <= usize::MAX,
        merged(store, pre, picks, n, post),
        0 <= i < pre.ids.len(),
        !picks.contains(i as usize),
    ensures
        survives(pre, post, i),
{
    let out = choose|out: S::Segment| #[trigger]
        merged_into(store, pre, picks, out, post) && n == store.len_of(out);
    let ids = without(pre.ids, picks);
    let segments = without(pre.segments, picks);
    without_keeps(pre.ids, pre.segments, picks, i);
    without_origin(pre.ids, pre.segments, picks);
    assert(paired_in(ids, segments, pre.ids[i], pre.segments[i]));
    let j = choose|j: int|
        0 <= j < ids.len() && #[trigger] ids[j] == pre.ids[i] && segments[j] == pre.segments[i];
    assert(post.ids[j] == pre.ids[i] && post.segments[j] == pre.segments[i]);
}

/// Tier merges leave every segment over half the cap as it is.
proof fn tier_merges_leave_frozen<S: Store, B: SizeBand>(
    store: S,
    flush_threshold: usize,
    cfg: TierConfig<B>,
    pre: State<S>,
    steps: nat,
    items: nat,
    post: State<S>,
    i: int,
)
    requires
        pre.segments.len() == pre.ids.len(),
        pre.segments.len() <= usize::MAX,
        tier_merged(store, flush_threshold, cfg, pre, steps, items, post),
        0 <= i < pre.ids.len(),
        store.len_of(pre.segments[i]) > cfg.max_merged_len / 2,
    ensures
        survives(pre, post, i),
        post.segments.len() == post.ids.len(),
        post.segments.len() <= pre.segments.len(),
    decreases steps,
{
    if steps == 0 {
        assert(post.ids[i] == pre.ids[i]);
    } else {
        let (mid, n) = choose|mid: State<S>, n: usize|
            #![trigger merged(store, mid, tier_group(store, flush_threshold, cfg, mid)->0, n, post)]
            n <= items && tier_merged(
                store,
                flush_threshold,
                cfg,
                pre,
                (steps - 1) as nat,
                (items - n) as nat,
                mid,
            ) && tier_group(store, flush_threshold, cfg, mid) is Some && merged(
                store,
                mid,
                tier_group(store, flush_threshold, cfg, mid)->0,
                n,
                post,
            );
        tier_merges_leave_frozen(
            store,
            flush_threshold,
            cfg,
            pre,
            (steps - 1) as nat,
            (items - n) as nat,
            mid,
            i,
        );
        let group = tier_group(store, flush_threshold, cfg, mid)->0;
        let sizes = crate::state::sizes_of(store, mid.segments);
        crate::tiers::merge_choice_keeps_limits(sizes, flush_threshold, cfg);
        let k = choose|k: int|
            0 <= k < mid.ids.len() && #[trigger] mid.ids[k] == pre.ids[i] && mid.segments[k]
                == pre.segments[i];
        assert(sizes[k] > cfg.max_merged_len / 2);
        assert forall|x: int| 0 <= x < group.len() implies group[x] != k as usize by {
            assert(sizes[group[x] as int] <= cfg.max_merged_len / 2);
        }
        merging_leaves_the_rest(store, mid, group, n, post, k);
        let out = choose|out: S::Segment| #[trigger]
            merged_into(store, mid, group, out, post) && n == store.len_of(out);
        without_origin(mid.ids, mid.segments, group);
        crate::state::without_len(mid.segments, group);
    }
}

/// Size-tiered compaction never rewrites a frozen segment: one that holds more than
/// half of `max_merged_len` items is still there afterwards, under the same id.
pub proof fn tiering_leaves_frozen_segments<S: Store, B: SizeBand>(
    store: S,
    flush_threshold: usize,
    cfg: TierConfig<B>,
    pre: State<S>,
    stats: CompactionStats,
    post: State<S>,
    i: int,
)
    requires
        pre.segments.len() == pre.ids.len(),
        pre.segments.len() <= usize::MAX,
        tiers_compacted(store, flush_threshold, cfg, pre, stats, post),
        0 <= i < pre.ids.len(),
        store.len_of(pre.segments[i]) > cfg.max_merged_len / 2,
    ensures
        survives(pre, post, i),
{
    let items = choose|items: nat| #[trigger]
        tier_merged(store, flush_threshold, cfg, pre, stats.merges as nat, items, post)
            && stats.items_merged == crate::state::capped(items);
    tier_merges_leave_frozen(
        store,
        flush_threshold,
        cfg,
        pre,
        stats.merges as nat,
        items,
        post,
        i,
    );
}

/// The consumer's merges never hold more items than went in.
pub open spec fn thrifty<S: Store>(store: S) -> bool {
    forall|segments: Seq<S::Segment>, dead: Set<S::Id>, out: S::Segment| #[trigger]
        store.merges(segments, dead, out) ==> store.len_of(out) <= crate::state::total_of(
            crate::state::sizes_of(store, segments),
        )
}

/// Counting the items at positions counts those of the segments there.
proof fn items_at_is_total<S: Store>(store: S, segments: Seq<S::Segment>, picks: Seq<usize>)
    requires
        forall|k: int| 0 <= k < picks.len() ==> #[trigger] picks[k] < segments.len(),
    ensures
        crate::tiers::items_at(crate::state::sizes_of(store, segments), picks)
            == crate::state::total_of(
            crate::state::sizes_of(store, crate::state::picked(segments, picks)),
        ),
    decreases picks.len(),
{
    let sizes = crate::state::sizes_of(store, segments);
    let taken = crate::state::sizes_of(store, crate::state::picked(segments, picks));
    if picks.len() > 0 {
        items_at_is_total(store, segments, picks.drop_last());
        assert(taken.drop_last() =~= crate::state::sizes_of(
            store,
            crate::state::picked(segments, picks.drop_last()),
        ));
        assert(picks[picks.len() - 1] < segments.len());
    }
}

/// A tier merge never gives a segment of more than `max_merged_len` items.
pub proof fn tier_merges_keep_the_cap<S: Store, B: SizeBand>(
    store: S,
    flush_threshold: usize,
    cfg: TierConfig<B>,
    pre: State<S>,
    n: usize,
    post: State<S>,
)
    requires
        thrifty(store),
        pre.segments.len() <= usize::MAX,
        tier_group(store, flush_threshold, cfg, pre) is Some,
        merged(store, pre, tier_group(store, flush_threshold, cfg, pre)->0, n, post),
    ensures
        n <= cfg.max_merged_len,
{
    let group = tier_group(store, flush_threshold, cfg, pre)->0;
    let sizes = crate::state::sizes_of(store, pre.segments);
    let out = choose|out: S::Segment| #[trigger]
        merged_into(store, pre, group, out, post) && n == store.len_of(out);
    crate::tiers::merge_choice_keeps_limits(sizes, flush_threshold, cfg);
    items_at_is_total(store, pre.segments, group);
}

} // verus!
