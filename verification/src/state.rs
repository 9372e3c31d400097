//! What a store is, and how each operation changes it.
//!
//! The states here are mathematical: sequences and sets. Operations are relations
//! between states, because the consumer's [`Store`] decides what segments come out
//! of a batch or a merge.

use crate::band::SizeBand;
use crate::config::{CompactionStats, TierConfig};
use crate::log::Op;
use crate::store::Store;
use std::collections::HashSet;
use std::sync::Arc;
use vstd::prelude::*;

verus! {

/// What readers see: the segments, their ids and the tombstones of a checkpoint.
#[verifier::ext_equal]
#[verifier::reject_recursive_types(S)]
pub struct Snapshot<S: Store> {
    pub segments: Seq<S::Segment>,
    pub ids: Seq<u64>,
    pub tombstones: Set<S::Id>,
}

/// A store at one moment.
#[verifier::ext_equal]
#[verifier::reject_recursive_types(S)]
pub struct State<S: Store> {
    /// Adds not yet sealed into a segment, oldest first.
    pub buffer: Seq<(S::Id, S::Item)>,
    /// Immutable segments, oldest first.
    pub segments: Seq<S::Segment>,
    /// The persistent id of each segment.
    pub ids: Seq<u64>,
    /// Logically deleted identities.
    pub tombstones: Set<S::Id>,
    /// The id that the next segment gets.
    pub next_id: u64,
    /// The current log generation.
    pub epoch: u64,
    /// The segments whose files are known to be on disk.
    pub persisted: Set<u64>,
    /// What readers see.
    pub published: Snapshot<S>,
}

/// The sizes of segments, in their order.
pub open spec fn sizes_of<S: Store>(store: S, segments: Seq<S::Segment>) -> Seq<usize> {
    segments.map_values(|s: S::Segment| store.len_of(s))
}

/// The positions of `n` segments, oldest first.
pub open spec fn positions(n: nat) -> Seq<usize> {
    Seq::new(n, |i: int| i as usize)
}

/// What is left of `s` when the elements at `picks` go, in the same order.
pub open spec fn without<T>(s: Seq<T>, picks: Seq<usize>) -> Seq<T>
    decreases s.len(),
{
    if s.len() == 0 {
        s
    } else {
        let rest = without(s.drop_last(), picks);
        if picks.contains((s.len() - 1) as usize) {
            rest
        } else {
            rest.push(s.last())
        }
    }
}

/// The elements of `s` at `picks`.
pub open spec fn picked<T>(s: Seq<T>, picks: Seq<usize>) -> Seq<T> {
    picks.map_values(|i: usize| s[i as int])
}

/// The state after an operation, before anything is sealed.
pub open spec fn applied<S: Store>(pre: State<S>, op: Op<S::Id, S::Item>) -> State<S> {
    State {
        buffer: crate::log::buffer_after(pre.buffer, op),
        tombstones: crate::log::tombstones_after(pre.tombstones, op),
        ..pre
    }
}

/// The buffer went into a fresh segment at the end, under the next id; an empty buffer
/// changes nothing.
pub open spec fn sealed<S: Store>(store: S, pre: State<S>, post: State<S>) -> bool {
    if pre.buffer.len() == 0 {
        post == pre
    } else {
        &&& post.segments.len() == pre.segments.len() + 1
        &&& store.builds(pre.buffer, post.segments.last())
        &&& post == (State {
            buffer: Seq::empty(),
            segments: pre.segments.push(post.segments.last()),
            ids: pre.ids.push(pre.next_id),
            next_id: (pre.next_id + 1) as u64,
            ..pre
        })
    }
}

/// An operation was applied, and the buffer sealed if that filled it.
pub open spec fn performed<S: Store>(
    store: S,
    flush_threshold: usize,
    pre: State<S>,
    op: Op<S::Id, S::Item>,
    post: State<S>,
) -> bool {
    let mid = applied(pre, op);
    if mid.buffer.len() > 0 && mid.buffer.len() >= flush_threshold {
        sealed(store, mid, post)
    } else {
        post == mid
    }
}

/// The operations were performed one after the other.
pub open spec fn replayed<S: Store>(
    store: S,
    flush_threshold: usize,
    pre: State<S>,
    ops: Seq<Op<S::Id, S::Item>>,
    post: State<S>,
) -> bool
    decreases ops.len(),
{
    if ops.len() == 0 {
        post == pre
    } else {
        exists|mid: State<S>|
            replayed(store, flush_threshold, pre, ops.drop_last(), mid) && #[trigger] performed(
                store,
                flush_threshold,
                mid,
                ops.last(),
                post,
            )
    }
}

/// The segments at `picks` were merged into `merged`, without the tombstoned entries.
/// They are gone, and the result stands at the end under the next id, unless it is
/// empty.
pub open spec fn merged_into<S: Store>(
    store: S,
    pre: State<S>,
    picks: Seq<usize>,
    merged: S::Segment,
    post: State<S>,
) -> bool {
    &&& store.merges(picked(pre.segments, picks), pre.tombstones, merged)
    &&& if store.len_of(merged) > 0 {
        post == (State {
            segments: without(pre.segments, picks).push(merged),
            ids: without(pre.ids, picks).push(pre.next_id),
            next_id: (pre.next_id + 1) as u64,
            ..pre
        })
    } else {
        post == (State {
            segments: without(pre.segments, picks),
            ids: without(pre.ids, picks),
            ..pre
        })
    }
}

/// The segments at `picks` were merged into one of `n` items.
pub open spec fn merged<S: Store>(
    store: S,
    pre: State<S>,
    picks: Seq<usize>,
    n: usize,
    post: State<S>,
) -> bool {
    exists|out: S::Segment| #[trigger]
        merged_into(store, pre, picks, out, post) && n == store.len_of(out)
}

/// The group that size tiering merges next.
pub open spec fn tier_group<S: Store, B: SizeBand>(
    store: S,
    flush_threshold: usize,
    cfg: TierConfig<B>,
    st: State<S>,
) -> Option<Seq<usize>> {
    crate::tiers::merge_choice(sizes_of(store, st.segments), flush_threshold, cfg)
}

/// `steps` tier merges were performed, each of the group that tiering chose at that
/// point; their results hold `items` items together.
pub open spec fn tier_merged<S: Store, B: SizeBand>(
    store: S,
    flush_threshold: usize,
    cfg: TierConfig<B>,
    pre: State<S>,
    steps: nat,
    items: nat,
    post: State<S>,
) -> bool
    decreases steps,
{
    if steps == 0 {
        post == pre && items == 0
    } else {
        exists|mid: State<S>, n: usize|
            #![trigger merged(store, mid, tier_group(store, flush_threshold, cfg, mid)->0, n, post)]
            n <= items && tier_merged(
                store,
                flush_threshold,
                cfg,
                pre,
                (steps - 1) as nat,
                (items - n) as nat,
                mid,
            ) && tier_group(store, flush_threshold, cfg, mid) is Some && merged(
                store,
                mid,
                tier_group(store, flush_threshold, cfg, mid)->0,
                n,
                post,
            )
    }
}

/// The group that consolidation to `max_segments` merges next: the lightest segments,
/// one more than there are too many, but at most `max_merge` (or two).
pub open spec fn consolidation_group<S: Store, B>(
    store: S,
    cfg: TierConfig<B>,
    max_segments: usize,
    st: State<S>,
) -> Seq<usize> {
    let over = st.segments.len() - max_segments;
    let limit: int = if cfg.max_merge < 2 {
        2
    } else {
        cfg.max_merge as int
    };
    crate::order::ordered(sizes_of(store, st.segments), positions(st.segments.len())).take(
        if over + 1 < limit {
            over + 1
        } else {
            limit
        },
    )
}

/// `steps` consolidating merges were performed, each while there were more than
/// `max_segments`; their results hold `items` items together.
pub open spec fn consolidated<S: Store, B>(
    store: S,
    cfg: TierConfig<B>,
    max_segments: usize,
    pre: State<S>,
    steps: nat,
    items: nat,
    post: State<S>,
) -> bool
    decreases steps,
{
    if steps == 0 {
        post == pre && items == 0
    } else {
        exists|mid: State<S>, n: usize|
            #![trigger merged(store, mid, consolidation_group(store, cfg, max_segments, mid), n, post)]
            n <= items && consolidated(
                store,
                cfg,
                max_segments,
                pre,
                (steps - 1) as nat,
                (items - n) as nat,
                mid,
            ) && mid.segments.len() > max_segments && merged(
                store,
                mid,
                consolidation_group(store, cfg, max_segments, mid),
                n,
                post,
            )
    }
}

/// A count that stops at the largest `usize`.
pub open spec fn capped(items: nat) -> usize {
    if items <= usize::MAX {
        items as usize
    } else {
        usize::MAX
    }
}

/// All segments became one and the tombstones went. With a single segment and no
/// tombstones, or with no segment, nothing is merged.
pub open spec fn compacted<S: Store>(
    store: S,
    pre: State<S>,
    stats: CompactionStats,
    post: State<S>,
) -> bool {
    let before = pre.segments.len();
    if before > 1 || (before == 1 && !pre.tombstones.is_empty()) {
        exists|mid: State<S>|
            #![trigger merged(store, pre, positions(before), stats.items_merged, mid)]
            merged(store, pre, positions(before), stats.items_merged, mid) && post == (State {
                tombstones: Set::empty(),
                ..mid
            }) && stats == (CompactionStats {
                merges: 1,
                segments_before: before as usize,
                segments_after: mid.segments.len() as usize,
                items_merged: stats.items_merged,
            })
    } else {
        &&& post == (State { tombstones: Set::empty(), ..pre })
        &&& stats == (CompactionStats {
            merges: 0,
            segments_before: before as usize,
            segments_after: before as usize,
            items_merged: 0,
        })
    }
}

/// The consumer counts the live items of every segment that holds any.
pub open spec fn counts_live<S: Store>(store: S, st: State<S>) -> bool {
    forall|i: int|
        0 <= i < st.segments.len() && store.len_of(st.segments[i]) > 0 ==> store.live_of(
            #[trigger] st.segments[i],
            st.tombstones,
        ) is Some
}

/// The segments with too few live items, by `low`, which judges a live count and a
/// total. Empty segments do not count.
pub open spec fn sparse<S: Store>(
    store: S,
    low: spec_fn(usize, usize) -> bool,
    st: State<S>,
) -> Seq<usize> {
    positions(st.segments.len()).filter(
        |i: usize|
            store.len_of(st.segments[i as int]) > 0 && low(
                store.live_of(st.segments[i as int], st.tombstones)->0,
                store.len_of(st.segments[i as int]),
            ),
    )
}

/// The segments with too few live items were merged into one, if the consumer counts
/// live items and there are any such segments.
pub open spec fn reclaimed<S: Store>(
    store: S,
    low: spec_fn(usize, usize) -> bool,
    pre: State<S>,
    stats: CompactionStats,
    post: State<S>,
) -> bool {
    if counts_live(store, pre) && sparse(store, low, pre).len() > 0 {
        &&& merged(store, pre, sparse(store, low, pre), stats.items_merged, post)
        &&& stats == (CompactionStats {
            merges: 1,
            segments_before: pre.segments.len() as usize,
            segments_after: post.segments.len() as usize,
            items_merged: stats.items_merged,
        })
    } else {
        idle(pre, stats, post)
    }
}

/// Nothing changed, and the statistics say so.
pub open spec fn idle<S: Store>(pre: State<S>, stats: CompactionStats, post: State<S>) -> bool {
    &&& post == pre
    &&& stats == (CompactionStats {
        merges: 0,
        segments_before: pre.segments.len() as usize,
        segments_after: pre.segments.len() as usize,
        items_merged: 0,
    })
}

/// Dead entries were reclaimed, the segment that the buffer becomes being judged like the
/// others. Nothing changes, and the buffer is not sealed, if the consumer does not count
/// the live items of some segment, or if none has too few of them.
pub open spec fn reclamation<S: Store>(
    store: S,
    low: spec_fn(usize, usize) -> bool,
    pre: State<S>,
    stats: CompactionStats,
    post: State<S>,
) -> bool {
    if !counts_live(store, pre) {
        idle(pre, stats, post)
    } else {
        exists|mid: State<S>| #[trigger]
            sealed(store, pre, mid) && if counts_live(store, mid) && sparse(store, low, mid).len()
                > 0 {
                reclaimed(store, low, mid, stats, post)
            } else {
                idle(pre, stats, post)
            }
    }
}

/// The judge said of the segment at `i` that it has too few live items.
pub open spec fn found_sparse<S: Store, G: Fn(usize, usize) -> bool>(
    store: S,
    below: G,
    st: State<S>,
    i: usize,
) -> bool {
    below.ensures(
        (store.live_of(st.segments[i as int], st.tombstones)->0, store.len_of(
            st.segments[i as int],
        )),
        true,
    )
}

/// The judge said of the segment at `i`, by its own live and total counts, that it has too
/// few live items, or that it has not.
pub open spec fn judged<S: Store, G: Fn(usize, usize) -> bool>(
    store: S,
    below: G,
    st: State<S>,
    i: int,
    verdict: bool,
) -> bool {
    below.ensures(
        (store.live_of(st.segments[i], st.tombstones)->0, store.len_of(st.segments[i])),
        verdict,
    )
}

/// The judge was asked of every segment that holds anything, and said of exactly those at
/// `picks` that they have too few live items.
pub open spec fn all_judged<S: Store, G: Fn(usize, usize) -> bool>(
    store: S,
    below: G,
    st: State<S>,
    n: int,
    picks: Seq<usize>,
) -> bool {
    &&& forall|i: int|
        0 <= i < n && store.len_of(#[trigger] st.segments[i]) > 0 ==> judged(
            store,
            below,
            st,
            i,
            picks.contains(i as usize),
        )
    &&& forall|k: int|
        0 <= k < picks.len() ==> #[trigger] picks[k] < n && store.len_of(
            st.segments[picks[k] as int],
        ) > 0
    &&& forall|j: int, k: int|
        #![trigger picks[j], picks[k]]
        0 <= j < k < picks.len() ==> picks[j] < picks[k]
}

/// The segments that the judge found sparse, and no others, were merged into one of the
/// sealed store, oldest first.
pub open spec fn merged_some<S: Store, G: Fn(usize, usize) -> bool>(
    store: S,
    below: G,
    mid: State<S>,
    picks: Seq<usize>,
    stats: CompactionStats,
    post: State<S>,
) -> bool {
    &&& picks.len() > 0
    &&& picks.no_duplicates()
    &&& forall|k: int|
        0 <= k < picks.len() ==> #[trigger] picks[k] < mid.segments.len() && found_sparse(
            store,
            below,
            mid,
            picks[k],
        )
    &&& counts_live(store, mid)
    &&& all_judged(store, below, mid, mid.segments.len() as int, picks)
    &&& merged(store, mid, picks, stats.items_merged, post)
    &&& stats == (CompactionStats {
        merges: 1,
        segments_before: mid.segments.len() as usize,
        segments_after: post.segments.len() as usize,
        items_merged: stats.items_merged,
    })
}

/// There is nothing to reclaim: the consumer does not count the live items of some segment,
/// or the judge found none sparse.
pub open spec fn nothing_to_reclaim<S: Store, G: Fn(usize, usize) -> bool>(
    store: S,
    below: G,
    st: State<S>,
) -> bool {
    !counts_live(store, st) || all_judged(
        store,
        below,
        st,
        st.segments.len() as int,
        Seq::<usize>::empty(),
    )
}

/// How many segments there are once the buffer is sealed.
pub open spec fn sealed_count<S: Store>(st: State<S>) -> nat {
    st.segments.len() + if st.buffer.len() > 0 {
        1nat
    } else {
        0nat
    }
}

/// Size tiering merged what was eligible, until nothing was.
pub open spec fn tiers_compacted<S: Store, B: SizeBand>(
    store: S,
    flush_threshold: usize,
    cfg: TierConfig<B>,
    pre: State<S>,
    stats: CompactionStats,
    post: State<S>,
) -> bool {
    &&& tier_group(store, flush_threshold, cfg, post) is None
    &&& exists|items: nat| #[trigger]
        tier_merged(store, flush_threshold, cfg, pre, stats.merges as nat, items, post)
            && stats.items_merged == capped(items)
    &&& stats.segments_before == pre.segments.len()
    &&& stats.segments_after == post.segments.len()
}

/// The lightest segments were merged until at most `max_segments` were left.
pub open spec fn force_merged<S: Store, B>(
    store: S,
    cfg: TierConfig<B>,
    max_segments: usize,
    pre: State<S>,
    stats: CompactionStats,
    post: State<S>,
) -> bool {
    &&& post.segments.len() <= max_segments
    &&& exists|items: nat| #[trigger]
        consolidated(store, cfg, max_segments, pre, stats.merges as nat, items, post)
            && stats.items_merged == capped(items)
    &&& stats.segments_before == pre.segments.len()
    &&& stats.segments_after == post.segments.len()
}

/// `below` can be asked of any two counts, and answers as `low` says.
pub open spec fn judges<G: Fn(usize, usize) -> bool>(
    below: G,
    low: spec_fn(usize, usize) -> bool,
) -> bool {
    &&& forall|live: usize, total: usize| #[trigger] below.requires((live, total))
    &&& forall|live: usize, total: usize, yes: bool| #[trigger]
        below.ensures((live, total), yes) ==> yes == low(live, total)
}

/// What sizes add up to.
pub open spec fn total_of(sizes: Seq<usize>) -> nat
    decreases sizes.len(),
{
    if sizes.len() == 0 {
        0
    } else {
        total_of(sizes.drop_last()) + sizes.last() as nat
    }
}

/// The live counts of segments, in their order, where the consumer counts them.
pub open spec fn live_sizes_of<S: Store>(
    store: S,
    segments: Seq<S::Segment>,
    dead: Set<S::Id>,
) -> Seq<Option<usize>> {
    segments.map_values(|s: S::Segment| store.live_of(s, dead))
}

/// Every segment's live items are counted.
pub open spec fn all_counted(counts: Seq<Option<usize>>) -> bool {
    forall|i: int| 0 <= i < counts.len() ==> #[trigger] counts[i] is Some
}

/// What readers see after a checkpoint.
pub open spec fn snapshot_of<S: Store>(st: State<S>) -> Snapshot<S> {
    Snapshot { segments: st.segments, ids: st.ids, tombstones: st.tombstones }
}

/// A store that a checkpoint describes, before any log is replayed.
pub open spec fn checkpointed<S: Store>(epoch: u64, next_id: u64, shown: Snapshot<S>) -> State<S> {
    State {
        buffer: Seq::empty(),
        segments: shown.segments,
        ids: shown.ids,
        tombstones: shown.tombstones,
        next_id,
        epoch,
        persisted: shown.ids.to_set(),
        published: shown,
    }
}

/// A store without any history.
pub open spec fn fresh<S: Store>() -> State<S> {
    checkpointed(
        0,
        0,
        Snapshot { segments: Seq::empty(), ids: Seq::empty(), tombstones: Set::empty() },
    )
}

/// The first segment from `from` on whose file is not known to be on disk, or the
/// number of segments where there is none.
pub open spec fn unwritten_from<S: Store>(st: State<S>, from: nat) -> nat
    decreases st.ids.len() - from,
{
    if from >= st.ids.len() {
        st.ids.len()
    } else if !st.persisted.contains(st.ids[from as int]) {
        from
    } else {
        unwritten_from(st, from + 1)
    }
}

/// The manifest is on disk: a new epoch starts, only the named files are known to be
/// on disk, and readers see the new state.
pub open spec fn committed<S: Store>(pre: State<S>) -> State<S> {
    State {
        epoch: (pre.epoch + 1) as u64,
        persisted: pre.persisted.filter(|id: u64| pre.ids.contains(id)),
        published: snapshot_of(pre),
        ..pre
    }
}

/// Every id is higher than those before it.
pub open spec fn in_order(ids: Seq<u64>) -> bool {
    forall|i: int, j: int| 0 <= i < j < ids.len() ==> ids[i] < ids[j]
}

/// Ids are handed out in growing order, and every id in use was handed out.
pub open spec fn ids_grow<S: Store>(st: State<S>) -> bool {
    &&& in_order(st.ids)
    &&& forall|i: int| 0 <= i < st.ids.len() ==> #[trigger] st.ids[i] < st.next_id
}

/// The values behind shared pointers.
pub open spec fn payloads<T>(shared: Seq<Arc<T>>) -> Seq<T> {
    shared.map_values(|a: Arc<T>| *a)
}

/// The elements of a list.
pub open spec fn list_of<T>(list: Vec<T>) -> Seq<T> {
    list@
}

/// The elements of a slice.
pub open spec fn slice_of<T>(slice: &[T]) -> Seq<T> {
    slice@
}

/// The members of a hash set.
pub open spec fn members_of<T>(set: HashSet<T>) -> Set<T> {
    set@
}

/// A second list of the same shared values.
pub(crate) fn share_all<T>(list: &Vec<Arc<T>>) -> (shared: Vec<Arc<T>>)
    ensures
        shared@ == list@,
{
    let mut shared: Vec<Arc<T>> = Vec::new();
    let mut i: usize = 0;
    while i < list.len()
        invariant
            i <= list@.len(),
            shared@ =~= list@.take(i as int),
        decreases list@.len() - i,
    {
        shared.push(list[i].clone());
        i += 1;
    }
    shared
}

/// A second list of the same numbers.
pub(crate) fn copy_numbers(list: &Vec<u64>) -> (copy: Vec<u64>)
    ensures
        copy@ == list@,
{
    let mut copy: Vec<u64> = Vec::new();
    copy.extend_from_slice(list.as_slice());
    assert(copy@ =~= list@);
    copy
}

/// What is left depends only on which positions go.
pub proof fn without_same_picks<T>(s: Seq<T>, p: Seq<usize>, q: Seq<usize>)
    requires
        s.len() <= usize::MAX,
        forall|i: usize| i < s.len() ==> #[trigger] p.contains(i) == q.contains(i),
    ensures
        without(s, p) == without(s, q),
    decreases s.len(),
{
    if s.len() > 0 {
        without_same_picks(s.drop_last(), p, q);
        assert(p.contains((s.len() - 1) as usize) == q.contains((s.len() - 1) as usize));
    }
}

/// Each position that goes takes one element with it.
pub proof fn without_len<T>(s: Seq<T>, picks: Seq<usize>)
    requires
        s.len() <= usize::MAX,
        picks.no_duplicates(),
        forall|k: int| 0 <= k < picks.len() ==> #[trigger] picks[k] < s.len(),
    ensures
        without(s, picks).len() == s.len() - picks.len(),
    decreases s.len(),
{
    if s.len() > 0 {
        let last = (s.len() - 1) as usize;
        let front = s.drop_last();
        if picks.contains(last) {
            let k = choose|k: int| 0 <= k < picks.len() && picks[k] == last;
            let others = picks.remove(k);
            assert forall|i: int, j: int|
                0 <= i < others.len() && 0 <= j < others.len() && i != j implies others[i]
                != others[j] by {
                let i0 = if i < k { i } else { i + 1 };
                let j0 = if j < k { j } else { j + 1 };
                assert(picks[i0] != picks[j0]);
            }
            assert forall|j: int| 0 <= j < others.len() implies #[trigger] others[j]
                < front.len() by {
                let j0 = if j < k { j } else { j + 1 };
                assert(picks[j0] != picks[k]);
            }
            assert forall|i: usize| i < front.len() implies #[trigger] picks.contains(i)
                == others.contains(i) by {
                if picks.contains(i) {
                    let j = choose|j: int| 0 <= j < picks.len() && picks[j] == i;
                    let j1 = if j < k { j } else { j - 1 };
                    assert(others[j1] == i);
                }
                if others.contains(i) {
                    let j = choose|j: int| 0 <= j < others.len() && others[j] == i;
                    let j0 = if j < k { j } else { j + 1 };
                    assert(picks[j0] == i);
                }
            }
            without_len(front, others);
            without_same_picks(front, picks, others);
        } else {
            assert forall|k: int| 0 <= k < picks.len() implies #[trigger] picks[k]
                < front.len() by {
                assert(picks[k] != last);
            }
            without_len(front, picks);
        }
    } else if picks.len() > 0 {
        assert(picks[0] < s.len());
    }
}

/// Every position occurs once.
pub proof fn positions_are_distinct(n: nat)
    requires
        n <= usize::MAX,
    ensures
        positions(n).no_duplicates(),
        forall|k: int| 0 <= k < n ==> #[trigger] positions(n)[k] == k,
{
}

} // verus!
