//! What each operation does to a store, in plain terms.
//!
//! The operations are defined over one another. The laws here say what comes out of
//! each: where an added entry stands, which segments a merge takes and what is left of
//! the others, what the counts count.

use crate::band::SizeBand;
use crate::config::{CompactionStats, TierConfig};
use crate::content::{
    alive, alive_adds, copied_is_same, entries, filtered_multiset, live, stored, together,
};
use crate::log::{buffer_after, tombstones_after, Op};
use crate::state::{
    all_counted, applied, compacted, consolidated, consolidation_group, counts_live, force_merged,
    idle, live_sizes_of, merged, merged_into, performed, picked, positions, positions_are_distinct,
    reclaimed, reclamation, replayed, sealed, sizes_of, sparse, tier_group, tier_merged,
    tiers_compacted, total_of, without, State,
};
use crate::store::{DefaultStore, Store};
use std::hash::Hash;
use vstd::multiset::Multiset;
use vstd::prelude::*;

verus! {

/// `at` lists, in order and each once, the positions of `from` that are wanted, and `to`
/// is what stands there.
pub open spec fn drawn<T>(
    from: Seq<T>,
    wanted: spec_fn(int) -> bool,
    at: Seq<int>,
    to: Seq<T>,
) -> bool {
    &&& at.len() == to.len()
    &&& forall|i: int, j: int| #![trigger at[i], at[j]] 0 <= i < j < at.len() ==> at[i] < at[j]
    &&& forall|i: int|
        0 <= i < at.len() ==> 0 <= #[trigger] at[i] < from.len() && wanted(at[i]) && to[i]
            == from[at[i]]
    &&& forall|p: int| 0 <= p < from.len() && wanted(p) ==> #[trigger] at.contains(p)
}

/// A filter keeps the positions that it says, in order.
proof fn filtering_draws<T>(s: Seq<T>, keep: spec_fn(T) -> bool) -> (at: Seq<int>)
    ensures
        drawn(s, |p: int| keep(s[p]), at, s.filter(keep)),
    decreases s.len(),
{
    let wanted = |p: int| keep(s[p]);
    if s.len() == 0 {
        reveal(Seq::filter);
        Seq::empty()
    } else {
        let front = s.drop_last();
        let last = s.last();
        let earlier = filtering_draws(front, keep);
        assert(s =~= front.push(last));
        front.lemma_filter_push(last, keep);
        let at = if keep(last) {
            earlier.push(s.len() - 1)
        } else {
            earlier
        };
        assert forall|i: int| 0 <= i < at.len() implies 0 <= #[trigger] at[i] < s.len() && wanted(
            at[i],
        ) && s.filter(keep)[i] == s[at[i]] by {
            if i < earlier.len() {
                assert(0 <= earlier[i] < front.len());
            }
        }
        assert forall|i: int, j: int|
            #![trigger at[i], at[j]]
            0 <= i < j < at.len() implies at[i] < at[j] by {
            assert(0 <= earlier[i] < front.len());
            if j < earlier.len() {
                assert(earlier[i] < earlier[j]);
            }
        }
        assert forall|p: int| 0 <= p < s.len() && wanted(p) implies #[trigger] at.contains(p) by {
            if p < front.len() {
                assert(earlier.contains(p));
                let i = choose|i: int| 0 <= i < earlier.len() && earlier[i] == p;
                assert(at[i] == p);
            } else {
                assert(at[earlier.len() as int] == p);
            }
        }
        at
    }
}

/// An add leaves the buffer as it is and puts its entry last.
pub proof fn adding_appends<Id, Item>(buffer: Seq<(Id, Item)>, id: Id, item: Item)
    ensures
        ({
            let after = buffer_after(buffer, Op::Add(id, item));
            &&& after.len() == buffer.len() + 1
            &&& forall|i: int| 0 <= i < buffer.len() ==> #[trigger] after[i] == buffer[i]
            &&& after[buffer.len() as int] == (id, item)
        }),
{
}

/// Adds one after the other put their entries behind the buffer, in order.
pub proof fn adds_append_in_order<Id, Item>(buffer: Seq<(Id, Item)>, entries: Seq<(Id, Item)>)
    ensures
        entries.fold_left(
            buffer,
            |b: Seq<(Id, Item)>, e: (Id, Item)| buffer_after(b, Op::Add(e.0, e.1)),
        ) == buffer + entries,
    decreases entries.len(),
{
    if entries.len() > 0 {
        adds_append_in_order(buffer, entries.drop_last());
        assert((buffer + entries.drop_last()).push(entries.last()) =~= buffer + entries);
    } else {
        assert(buffer + entries =~= buffer);
    }
}

/// A delete leaves the buffered entries of the other identities, in their order, and none
/// of its own. `at` says where they stood.
pub proof fn deleting_keeps_the_others_in_order<Id, Item>(buffer: Seq<(Id, Item)>, id: Id) -> (at:
    Seq<int>)
    ensures
        drawn(
            buffer,
            |p: int| buffer[p].0 != id,
            at,
            buffer_after(buffer, Op::<Id, Item>::Delete(id)),
        ),
{
    let at = filtering_draws(buffer, |e: (Id, Item)| e.0 != id);
    at
}

/// An add revives its identity and a delete buries it; neither touches another.
pub proof fn one_identity_is_touched<Id, Item>(
    tombstones: Set<Id>,
    id: Id,
    item: Item,
    other: Id,
)
    ensures
        !tombstones_after(tombstones, Op::Add(id, item)).contains(id),
        tombstones_after(tombstones, Op::<Id, Item>::Delete(id)).contains(id),
        other != id ==> tombstones_after(tombstones, Op::Add(id, item)).contains(other)
            == tombstones.contains(other),
        other != id ==> tombstones_after(tombstones, Op::<Id, Item>::Delete(id)).contains(other)
            == tombstones.contains(other),
{
}

/// What no operation on the entries changes.
pub open spec fn same_files<S: Store>(pre: State<S>, post: State<S>) -> bool {
    pre.epoch == post.epoch && pre.persisted == post.persisted && pre.published == post.published
}

/// An add goes to the end of the buffer. Where that fills the buffer, all of it becomes
/// one segment, in the order of the adds, behind the others and under the next id;
/// otherwise no segment changes.
pub proof fn an_add_is_buffered_or_sealed<S: Store>(
    store: S,
    flush_threshold: usize,
    pre: State<S>,
    id: S::Id,
    item: S::Item,
    post: State<S>,
)
    requires
        performed(store, flush_threshold, pre, Op::Add(id, item), post),
        pre.next_id < u64::MAX,
    ensures
        same_files(pre, post),
        forall|other: S::Id| #[trigger]
            post.tombstones.contains(other) <==> pre.tombstones.contains(other) && other != id,
        pre.buffer.len() + 1 < flush_threshold ==> {
            &&& post.buffer == pre.buffer + seq![(id, item)]
            &&& post.segments == pre.segments
            &&& post.ids == pre.ids
            &&& post.next_id == pre.next_id
        },
        pre.buffer.len() + 1 >= flush_threshold ==> {
            &&& post.buffer.len() == 0
            &&& post.segments.len() == pre.segments.len() + 1
            &&& forall|i: int|
                0 <= i < pre.segments.len() ==> #[trigger] post.segments[i] == pre.segments[i]
            &&& store.builds(
                pre.buffer + seq![(id, item)],
                post.segments[pre.segments.len() as int],
            )
            &&& post.ids == pre.ids + seq![pre.next_id]
            &&& post.next_id == pre.next_id + 1
        },
{
    let mid = applied(pre, Op::Add(id, item));
    adding_appends(pre.buffer, id, item);
    assert(mid.buffer =~= pre.buffer + seq![(id, item)]);
}

/// A delete buries its identity, takes its entries out of the buffer, and touches no
/// segment. `at` says where the entries left in the buffer stood.
pub proof fn a_delete_touches_no_segment<S: Store>(
    store: S,
    flush_threshold: usize,
    pre: State<S>,
    id: S::Id,
    post: State<S>,
) -> (at: Seq<int>)
    requires
        performed(store, flush_threshold, pre, Op::Delete(id), post),
        pre.buffer.len() == 0 || pre.buffer.len() < flush_threshold,
    ensures
        same_files(pre, post),
        forall|other: S::Id| #[trigger]
            post.tombstones.contains(other) <==> pre.tombstones.contains(other) || other == id,
        drawn(pre.buffer, |p: int| pre.buffer[p].0 != id, at, post.buffer),
        post.segments == pre.segments,
        post.ids == pre.ids,
        post.next_id == pre.next_id,
{
    let at = deleting_keeps_the_others_in_order(pre.buffer, id);
    pre.buffer.lemma_filter_len(|e: (S::Id, S::Item)| e.0 != id);
    at
}

/// The operations that add some entries.
pub open spec fn adds_of<Id, Item>(entries: Seq<(Id, Item)>) -> Seq<Op<Id, Item>> {
    entries.map_values(|e: (Id, Item)| Op::Add(e.0, e.1))
}

/// As long as the buffer does not fill up, adds stand in it in the order in which they
/// were made, and nothing else changes.
pub proof fn adds_are_buffered_in_order<S: Store>(
    store: S,
    flush_threshold: usize,
    pre: State<S>,
    entries: Seq<(S::Id, S::Item)>,
    post: State<S>,
)
    requires
        replayed(store, flush_threshold, pre, adds_of(entries), post),
        pre.buffer.len() + entries.len() < flush_threshold,
        pre.next_id < u64::MAX,
    ensures
        post.buffer == pre.buffer + entries,
        post.segments == pre.segments,
        post.ids == pre.ids,
        post.next_id == pre.next_id,
        same_files(pre, post),
        forall|other: S::Id| #[trigger]
            post.tombstones.contains(other) <==> pre.tombstones.contains(other) && forall|k: int|
                0 <= k < entries.len() ==> (#[trigger] entries[k]).0 != other,
    decreases entries.len(),
{
    let ops = adds_of(entries);
    if entries.len() > 0 {
        let front = entries.drop_last();
        let last = entries.last();
        let mid = choose|mid: State<S>|
            replayed(store, flush_threshold, pre, ops.drop_last(), mid) && #[trigger] performed(
                store,
                flush_threshold,
                mid,
                ops.last(),
                post,
            );
        assert(ops.drop_last() =~= adds_of(front));
        adds_are_buffered_in_order(store, flush_threshold, pre, front, mid);
        an_add_is_buffered_or_sealed(store, flush_threshold, mid, last.0, last.1, post);
        assert(post.buffer =~= pre.buffer + entries);
        assert forall|other: S::Id| #[trigger]
            post.tombstones.contains(other) <==> pre.tombstones.contains(other) && forall|k: int|
                0 <= k < entries.len() ==> (#[trigger] entries[k]).0 != other by {
            assert(post.tombstones.contains(other) <==> mid.tombstones.contains(other) && other
                != last.0);
            if pre.tombstones.contains(other) && (forall|k: int|
                0 <= k < entries.len() ==> (#[trigger] entries[k]).0 != other) {
                assert forall|k: int| 0 <= k < front.len() implies (#[trigger] front[k]).0
                    != other by {
                    assert(entries[k].0 != other);
                }
                assert(entries[entries.len() - 1].0 != other);
            }
            if post.tombstones.contains(other) {
                assert forall|k: int| 0 <= k < entries.len() implies (#[trigger] entries[k]).0
                    != other by {
                    if k < front.len() {
                        assert(front[k].0 != other);
                    }
                }
            }
        }
    } else {
        assert(post.buffer =~= pre.buffer + entries);
    }
}

/// The add that fills the buffer turns all of it into one segment, in the order in which
/// the adds were made, behind the segments there were.
pub proof fn a_full_buffer_becomes_a_segment<S: Store>(
    store: S,
    flush_threshold: usize,
    pre: State<S>,
    entries: Seq<(S::Id, S::Item)>,
    post: State<S>,
)
    requires
        replayed(store, flush_threshold, pre, adds_of(entries), post),
        pre.buffer.len() + entries.len() == flush_threshold,
        entries.len() > 0,
        pre.next_id < u64::MAX,
    ensures
        post.buffer.len() == 0,
        post.segments.len() == pre.segments.len() + 1,
        forall|i: int|
            0 <= i < pre.segments.len() ==> #[trigger] post.segments[i] == pre.segments[i],
        store.builds(pre.buffer + entries, post.segments[pre.segments.len() as int]),
        post.ids == pre.ids + seq![pre.next_id],
        post.next_id == pre.next_id + 1,
        same_files(pre, post),
{
    let ops = adds_of(entries);
    let front = entries.drop_last();
    let last = entries.last();
    let mid = choose|mid: State<S>|
        replayed(store, flush_threshold, pre, ops.drop_last(), mid) && #[trigger] performed(
            store,
            flush_threshold,
            mid,
            ops.last(),
            post,
        );
    assert(ops.drop_last() =~= adds_of(front));
    adds_are_buffered_in_order(store, flush_threshold, pre, front, mid);
    an_add_is_buffered_or_sealed(store, flush_threshold, mid, last.0, last.1, post);
    assert(mid.buffer + seq![(last.0, last.1)] =~= pre.buffer + entries);
}

/// Sealing turns the whole buffer into one segment, in order, behind the others and under
/// the next id; an empty buffer leaves everything as it is.
pub proof fn sealing_takes_the_whole_buffer<S: Store>(store: S, pre: State<S>, post: State<S>)
    requires
        sealed(store, pre, post),
        pre.next_id < u64::MAX,
    ensures
        same_files(pre, post),
        post.tombstones == pre.tombstones,
        post.buffer.len() == 0,
        pre.buffer.len() == 0 ==> post == pre,
        pre.buffer.len() > 0 ==> {
            &&& post.segments.len() == pre.segments.len() + 1
            &&& forall|i: int|
                0 <= i < pre.segments.len() ==> #[trigger] post.segments[i] == pre.segments[i]
            &&& store.builds(pre.buffer, post.segments[pre.segments.len() as int])
            &&& post.ids == pre.ids + seq![pre.next_id]
            &&& post.next_id == pre.next_id + 1
        },
{
    if pre.buffer.len() > 0 {
        assert(post.ids =~= pre.ids + seq![pre.next_id]);
    }
}

/// What is left when some positions go stands at the others, in order.
proof fn the_rest_is_drawn<T>(s: Seq<T>, picks: Seq<usize>) -> (at: Seq<int>)
    requires
        s.len() <= usize::MAX,
    ensures
        drawn(s, |p: int| !picks.contains(p as usize), at, without(s, picks)),
    decreases s.len(),
{
    let wanted = |p: int| !picks.contains(p as usize);
    if s.len() == 0 {
        Seq::empty()
    } else {
        let front = s.drop_last();
        let earlier = the_rest_is_drawn(front, picks);
        let here = s.len() - 1;
        let at = if wanted(here) {
            earlier.push(here)
        } else {
            earlier
        };
        let left = without(s, picks);
        assert forall|i: int| 0 <= i < at.len() implies 0 <= #[trigger] at[i] < s.len() && wanted(
            at[i],
        ) && left[i] == s[at[i]] by {
            if i < earlier.len() {
                assert(0 <= earlier[i] < front.len());
            }
        }
        assert forall|i: int, j: int|
            #![trigger at[i], at[j]]
            0 <= i < j < at.len() implies at[i] < at[j] by {
            assert(0 <= earlier[i] < front.len());
            if j < earlier.len() {
                assert(earlier[i] < earlier[j]);
            }
        }
        assert forall|p: int| 0 <= p < s.len() && wanted(p) implies #[trigger] at.contains(p) by {
            if p < front.len() {
                assert(earlier.contains(p));
                let i = choose|i: int| 0 <= i < earlier.len() && earlier[i] == p;
                assert(at[i] == p);
            } else {
                assert(at[earlier.len() as int] == p);
            }
        }
        at
    }
}

/// Positions in order are determined by which they are.
proof fn one_way_to_list(a: Seq<int>, b: Seq<int>)
    requires
        forall|i: int, j: int| #![trigger a[i], a[j]] 0 <= i < j < a.len() ==> a[i] < a[j],
        forall|i: int, j: int| #![trigger b[i], b[j]] 0 <= i < j < b.len() ==> b[i] < b[j],
        forall|p: int| #[trigger] a.contains(p) <==> b.contains(p),
    ensures
        a == b,
    decreases a.len(),
{
    if a.len() == 0 {
        if b.len() > 0 {
            assert(b.contains(b[0]));
            assert(a.contains(b[0]));
        }
        assert(a =~= b);
    } else {
        assert(a.contains(a.last()));
        assert(b.contains(a.last()));
        assert(b.contains(b.last()));
        assert(a.contains(b.last()));
        let i = choose|i: int| 0 <= i < a.len() && a[i] == b.last();
        let j = choose|j: int| 0 <= j < b.len() && b[j] == a.last();
        assert(i < a.len() - 1 ==> a[i] < a[a.len() - 1]);
        assert(j < b.len() - 1 ==> b[j] < b[b.len() - 1]);
        assert(a.last() == b.last());
        let x = a.drop_last();
        let y = b.drop_last();
        assert forall|p: int| #[trigger] x.contains(p) <==> y.contains(p) by {
            if x.contains(p) {
                let k = choose|k: int| 0 <= k < x.len() && x[k] == p;
                assert(a[k] == p && a[k] < a[a.len() - 1]);
                assert(a.contains(p));
                assert(b.contains(p));
                let m = choose|m: int| 0 <= m < b.len() && b[m] == p;
                assert(y[m] == p);
            }
            if y.contains(p) {
                let k = choose|k: int| 0 <= k < y.len() && y[k] == p;
                assert(b[k] == p && b[k] < b[b.len() - 1]);
                assert(b.contains(p));
                assert(a.contains(p));
                let m = choose|m: int| 0 <= m < a.len() && a[m] == p;
                assert(x[m] == p);
            }
        }
        one_way_to_list(x, y);
        assert(a =~= x.push(a.last()));
        assert(b =~= y.push(b.last()));
    }
}

/// A merge hands the picked segments over in the order of the picks. The result stands
/// last, under the next id, if it holds anything; before it stand the other segments, in
/// their order and under their ids. `at` says where those stood.
pub proof fn a_merge_replaces_what_it_takes<S: Store>(
    store: S,
    pre: State<S>,
    picks: Seq<usize>,
    n: usize,
    post: State<S>,
) -> (result: (S::Segment, Seq<int>))
    requires
        merged(store, pre, picks, n, post),
        pre.segments.len() == pre.ids.len(),
        pre.segments.len() <= usize::MAX,
        pre.next_id < u64::MAX,
    ensures
        ({
            let (out, at) = result;
            let left = at.len() as int;
            &&& store.merges(
                Seq::new(picks.len(), |k: int| pre.segments[picks[k] as int]),
                pre.tombstones,
                out,
            )
            &&& n == store.len_of(out)
            &&& left <= post.segments.len() && left <= post.ids.len()
            &&& drawn(
                pre.segments,
                |p: int| !picks.contains(p as usize),
                at,
                post.segments.take(left),
            )
            &&& drawn(pre.ids, |p: int| !picks.contains(p as usize), at, post.ids.take(left))
            &&& post.segments.skip(left) == if n > 0 {
                seq![out]
            } else {
                Seq::empty()
            }
            &&& post.ids.skip(left) == if n > 0 {
                seq![pre.next_id]
            } else {
                Seq::empty()
            }
            &&& post.next_id == if n > 0 {
                pre.next_id + 1
            } else {
                pre.next_id as int
            }
        }),
        post.buffer == pre.buffer,
        post.tombstones == pre.tombstones,
        same_files(pre, post),
{
    let out = choose|out: S::Segment| #[trigger]
        merged_into(store, pre, picks, out, post) && n == store.len_of(out);
    assert(Seq::new(picks.len(), |k: int| pre.segments[picks[k] as int]) =~= picked(
        pre.segments,
        picks,
    ));
    let at = the_rest_is_drawn(pre.segments, picks);
    let at_ids = the_rest_is_drawn(pre.ids, picks);
    let left = at.len() as int;
    assert(at == at_ids) by {
        assert forall|p: int| #[trigger] at.contains(p) <==> at_ids.contains(p) by {
            if at.contains(p) {
                let k = choose|k: int| 0 <= k < at.len() && at[k] == p;
                assert(0 <= at[k] < pre.segments.len());
            }
            if at_ids.contains(p) {
                let k = choose|k: int| 0 <= k < at_ids.len() && at_ids[k] == p;
                assert(0 <= at_ids[k] < pre.ids.len());
            }
        }
        one_way_to_list(at, at_ids);
    }
    assert(post.segments.take(left) =~= without(pre.segments, picks));
    assert(post.ids.take(left) =~= without(pre.ids, picks));
    if n > 0 {
        assert(post.segments.skip(left) =~= seq![out]);
        assert(post.ids.skip(left) =~= seq![pre.next_id]);
    } else {
        assert(post.segments.skip(left) =~= Seq::empty());
        assert(post.ids.skip(left) =~= Seq::empty());
    }
    (out, at)
}

/// Full compaction hands all segments over, oldest first, and leaves one segment or none,
/// and no tombstones. It merges where there are two segments or more, or one that a
/// tombstone may have entries in; otherwise only the tombstones go.
pub proof fn compaction_takes_all_in_order<S: Store>(
    store: S,
    pre: State<S>,
    stats: CompactionStats,
    post: State<S>,
) -> (out: S::Segment)
    requires
        compacted(store, pre, stats, post),
        pre.segments.len() == pre.ids.len(),
        pre.segments.len() <= usize::MAX,
        pre.next_id < u64::MAX,
    ensures
        same_files(pre, post),
        post.buffer == pre.buffer,
        forall|id: S::Id| !post.tombstones.contains(id),
        stats.segments_before == pre.segments.len(),
        stats.segments_after == post.segments.len(),
        pre.segments.len() > 1 || (pre.segments.len() == 1 && exists|id: S::Id|
            pre.tombstones.contains(id)) ==> {
            &&& stats.merges == 1
            &&& store.merges(pre.segments, pre.tombstones, out)
            &&& stats.items_merged == store.len_of(out)
            &&& store.len_of(out) > 0 ==> post.segments == seq![out] && post.ids
                == seq![pre.next_id] && post.next_id == pre.next_id + 1
            &&& store.len_of(out) == 0 ==> post.segments.len() == 0 && post.ids.len() == 0
                && post.next_id == pre.next_id
        },
        pre.segments.len() == 0 || (pre.segments.len() == 1 && forall|id: S::Id|
            !pre.tombstones.contains(id)) ==> {
            &&& stats.merges == 0
            &&& stats.items_merged == 0
            &&& post.segments == pre.segments
            &&& post.ids == pre.ids
            &&& post.next_id == pre.next_id
        },
{
    let before = pre.segments.len();
    assert(!pre.tombstones.is_empty() <==> exists|id: S::Id| pre.tombstones.contains(id)) by {
        if forall|id: S::Id| !pre.tombstones.contains(id) {
            assert(pre.tombstones =~= Set::empty());
        }
        if exists|id: S::Id| pre.tombstones.contains(id) {
            let id = choose|id: S::Id| pre.tombstones.contains(id);
            assert(pre.tombstones != Set::<S::Id>::empty());
        }
    }
    if before > 1 || (before == 1 && !pre.tombstones.is_empty()) {
        let mid = choose|mid: State<S>|
            #![trigger merged(store, pre, positions(before), stats.items_merged, mid)]
            merged(store, pre, positions(before), stats.items_merged, mid) && post == (State {
                tombstones: Set::empty(),
                ..mid
            }) && stats == (CompactionStats {
                merges: 1,
                segments_before: before as usize,
                segments_after: mid.segments.len() as usize,
                items_merged: stats.items_merged,
            });
        positions_are_distinct(before);
        let (out, at) = a_merge_replaces_what_it_takes(
            store,
            pre,
            positions(before),
            stats.items_merged,
            mid,
        );
        if at.len() > 0 {
            let p = at[0];
            assert(0 <= p < before);
            assert(positions(before)[p] == p as usize);
            assert(positions(before).contains(p as usize));
        }
        assert(mid.segments.skip(0) =~= mid.segments);
        assert(mid.ids.skip(0) =~= mid.ids);
        assert(Seq::new(
            positions(before).len(),
            |k: int| pre.segments[positions(before)[k] as int],
        ) =~= pre.segments);
        out
    } else {
        arbitrary()
    }
}

/// Merges were performed one after the other, each of picks that are `fit` at that point;
/// their results hold `items` items together.
pub open spec fn merge_chain<S: Store>(
    store: S,
    fit: spec_fn(State<S>, Seq<usize>) -> bool,
    pre: State<S>,
    steps: nat,
    items: nat,
    post: State<S>,
) -> bool
    decreases steps,
{
    if steps == 0 {
        post == pre && items == 0
    } else {
        exists|mid: State<S>, picks: Seq<usize>, n: usize| #[trigger]
            merged(store, mid, picks, n, post) && fit(mid, picks) && n <= items && merge_chain(
                store,
                fit,
                pre,
                (steps - 1) as nat,
                (items - n) as nat,
                mid,
            )
    }
}

/// One segment of a store comes before another: it holds fewer items, or as many and is
/// older.
pub open spec fn smaller<S: Store>(store: S, st: State<S>, a: int, b: int) -> bool {
    store.len_of(st.segments[a]) < store.len_of(st.segments[b]) || (store.len_of(st.segments[a])
        == store.len_of(st.segments[b]) && a < b)
}

/// `picks` are the smallest segments, smallest first: one more than there are too many,
/// or as many as one merge may take (two at least).
pub open spec fn smallest<S: Store, B>(
    store: S,
    cfg: TierConfig<B>,
    max_segments: usize,
    st: State<S>,
    picks: Seq<usize>,
) -> bool {
    &&& st.segments.len() > max_segments
    &&& picks.len() >= 2
    &&& picks.len() <= st.segments.len() - max_segments + 1
    &&& picks.len() <= cfg.max_merge || picks.len() <= 2
    &&& picks.len() == st.segments.len() - max_segments + 1 || picks.len() == cfg.max_merge || (
    picks.len() == 2 && cfg.max_merge < 2)
    &&& forall|k: int| 0 <= k < picks.len() ==> #[trigger] picks[k] < st.segments.len()
    &&& forall|j: int, k: int|
        #![trigger picks[j], picks[k]]
        0 <= j < k < picks.len() ==> smaller(store, st, picks[j] as int, picks[k] as int)
    &&& forall|k: int, other: usize|
        #![trigger picks[k], picks.contains(other)]
        0 <= k < picks.len() && other < st.segments.len() && !picks.contains(other) ==> smaller(
            store,
            st,
            picks[k] as int,
            other as int,
        )
}

/// Every segment that consolidation merges next holds no more items than any that it
/// leaves out, and among equally large ones the older goes first.
pub proof fn consolidation_takes_the_smallest<S: Store, B>(
    store: S,
    cfg: TierConfig<B>,
    max_segments: usize,
    st: State<S>,
)
    requires
        1 <= max_segments < st.segments.len() <= usize::MAX,
    ensures
        smallest(
            store,
            cfg,
            max_segments,
            st,
            consolidation_group(store, cfg, max_segments, st),
        ),
{
    let sizes = sizes_of(store, st.segments);
    let all = positions(st.segments.len());
    let sorted = crate::order::ordered(sizes, all);
    let picks = consolidation_group(store, cfg, max_segments, st);
    positions_are_distinct(st.segments.len());
    crate::order::ordered_positions(sizes, st.segments.len());
    crate::order::ordered_rearranges(sizes, all);
    crate::selection::ordering_puts_the_lighter_first(sizes, all);
    assert forall|k: int| 0 <= k < picks.len() implies #[trigger] picks[k] < st.segments.len() by {
        assert(picks[k] == sorted[k]);
    }
    assert forall|j: int, k: int|
        #![trigger picks[j], picks[k]]
        0 <= j < k < picks.len() implies smaller(store, st, picks[j] as int, picks[k] as int) by {
        assert(picks[j] == sorted[j] && picks[k] == sorted[k]);
    }
    assert forall|k: int, other: usize|
        #![trigger picks[k], picks.contains(other)]
        0 <= k < picks.len() && other < st.segments.len() && !picks.contains(
            other,
        ) implies smaller(store, st, picks[k] as int, other as int) by {
        assert(all[other as int] == other);
        assert(all.contains(other));
        assert(sorted.contains(other));
        let at = choose|at: int| 0 <= at < sorted.len() && sorted[at] == other;
        if at < picks.len() {
            assert(picks[at] == other);
        }
        assert(picks[k] == sorted[k]);
        assert(crate::selection::before(sizes, sorted[k], sorted[at]));
        assert(sorted[k] < st.segments.len());
    }
}

/// Every merge of a consolidation takes the smallest segments there are at that point.
pub proof fn consolidating_merges_take_the_smallest<S: Store, B>(
    store: S,
    cfg: TierConfig<B>,
    max_segments: usize,
    pre: State<S>,
    steps: nat,
    items: nat,
    post: State<S>,
)
    requires
        max_segments >= 1,
        pre.segments.len() <= usize::MAX,
        consolidated(store, cfg, max_segments, pre, steps, items, post),
    ensures
        merge_chain(
            store,
            |st: State<S>, picks: Seq<usize>| smallest(store, cfg, max_segments, st, picks),
            pre,
            steps,
            items,
            post,
        ),
    decreases steps,
{
    let fit = |st: State<S>, picks: Seq<usize>| smallest(store, cfg, max_segments, st, picks);
    if steps > 0 {
        let (mid, n) = choose|mid: State<S>, n: usize|
            #![trigger merged(store, mid, consolidation_group(store, cfg, max_segments, mid), n, post)]
            n <= items && consolidated(
                store,
                cfg,
                max_segments,
                pre,
                (steps - 1) as nat,
                (items - n) as nat,
                mid,
            ) && mid.segments.len() > max_segments && merged(
                store,
                mid,
                consolidation_group(store, cfg, max_segments, mid),
                n,
                post,
            );
        let picks = consolidation_group(store, cfg, max_segments, mid);
        consolidating_merges_take_the_smallest(
            store,
            cfg,
            max_segments,
            pre,
            (steps - 1) as nat,
            (items - n) as nat,
            mid,
        );
        crate::content::consolidating_merges_shrink(
            store,
            cfg,
            max_segments,
            pre,
            (steps - 1) as nat,
            (items - n) as nat,
            mid,
        );
        consolidation_takes_the_smallest(store, cfg, max_segments, mid);
        assert(fit(mid, picks));
        assert(merged(store, mid, picks, n, post));
    }
}

/// Consolidation merges the smallest segments, again and again, each time while there are
/// too many, until there are not. The statistics count the merges and the items that
/// they wrote, the latter up to the largest `usize`.
pub proof fn consolidation_merges_the_smallest<S: Store, B>(
    store: S,
    cfg: TierConfig<B>,
    max_segments: usize,
    pre: State<S>,
    stats: CompactionStats,
    post: State<S>,
) -> (items: nat)
    requires
        max_segments >= 1,
        pre.segments.len() <= usize::MAX,
        force_merged(store, cfg, max_segments, pre, stats, post),
    ensures
        merge_chain(
            store,
            |st: State<S>, picks: Seq<usize>| smallest(store, cfg, max_segments, st, picks),
            pre,
            stats.merges as nat,
            items,
            post,
        ),
        post.segments.len() <= max_segments,
        items <= usize::MAX ==> stats.items_merged == items,
        items > usize::MAX ==> stats.items_merged == usize::MAX,
        stats.segments_before == pre.segments.len(),
        stats.segments_after == post.segments.len(),
{
    let items = choose|items: nat| #[trigger]
        consolidated(store, cfg, max_segments, pre, stats.merges as nat, items, post)
            && stats.items_merged == crate::state::capped(items);
    consolidating_merges_take_the_smallest(
        store,
        cfg,
        max_segments,
        pre,
        stats.merges as nat,
        items,
        post,
    );
    items
}

/// Merging the smallest segments never leaves fewer than wanted, if what it writes is not
/// empty.
pub proof fn consolidation_stops_at_the_target<S: Store, B>(
    store: S,
    cfg: TierConfig<B>,
    max_segments: usize,
    pre: State<S>,
    picks: Seq<usize>,
    n: usize,
    post: State<S>,
)
    requires
        pre.segments.len() <= usize::MAX,
        max_segments >= 1,
        smallest(store, cfg, max_segments, pre, picks),
        merged(store, pre, picks, n, post),
        n > 0,
    ensures
        max_segments <= post.segments.len() < pre.segments.len(),
{
    assert forall|i: int, j: int|
        0 <= i < picks.len() && 0 <= j < picks.len() && i != j implies picks[i] != picks[j] by {
        let low = if i < j { i } else { j };
        let high = if i < j { j } else { i };
        assert(smaller(store, pre, picks[low] as int, picks[high] as int));
    }
    crate::content::merging_shrinks(store, pre, picks, n, post);
}

/// The sizes that tiering goes by are the item counts of the segments, oldest first.
pub proof fn tiering_goes_by_item_counts<S: Store, B: SizeBand>(
    store: S,
    flush_threshold: usize,
    cfg: TierConfig<B>,
    st: State<S>,
)
    ensures
        tier_group(store, flush_threshold, cfg, st) == crate::tiers::merge_choice(
            Seq::new(st.segments.len(), |i: int| store.len_of(st.segments[i])),
            flush_threshold,
            cfg,
        ),
{
    assert(Seq::new(st.segments.len(), |i: int| store.len_of(st.segments[i])) =~= sizes_of(
        store,
        st.segments,
    ));
}

/// Every tier merge takes what tiering chooses at that point, by the item counts.
pub proof fn tier_merges_take_what_is_chosen<S: Store, B: SizeBand>(
    store: S,
    flush_threshold: usize,
    cfg: TierConfig<B>,
    pre: State<S>,
    steps: nat,
    items: nat,
    post: State<S>,
)
    requires
        tier_merged(store, flush_threshold, cfg, pre, steps, items, post),
    ensures
        merge_chain(
            store,
            |st: State<S>, picks: Seq<usize>|
                crate::tiers::merge_choice(
                    Seq::new(st.segments.len(), |i: int| store.len_of(st.segments[i])),
                    flush_threshold,
                    cfg,
                ) == Some(picks),
            pre,
            steps,
            items,
            post,
        ),
    decreases steps,
{
    let fit = |st: State<S>, picks: Seq<usize>|
        crate::tiers::merge_choice(
            Seq::new(st.segments.len(), |i: int| store.len_of(st.segments[i])),
            flush_threshold,
            cfg,
        ) == Some(picks);
    if steps > 0 {
        let (mid, n) = choose|mid: State<S>, n: usize|
            #![trigger merged(store, mid, tier_group(store, flush_threshold, cfg, mid)->0, n, post)]
            n <= items && tier_merged(
                store,
                flush_threshold,
                cfg,
                pre,
                (steps - 1) as nat,
                (items - n) as nat,
                mid,
            ) && tier_group(store, flush_threshold, cfg, mid) is Some && merged(
                store,
                mid,
                tier_group(store, flush_threshold, cfg, mid)->0,
                n,
                post,
            );
        let picks = tier_group(store, flush_threshold, cfg, mid)->0;
        tier_merges_take_what_is_chosen(
            store,
            flush_threshold,
            cfg,
            pre,
            (steps - 1) as nat,
            (items - n) as nat,
            mid,
        );
        tiering_goes_by_item_counts(store, flush_threshold, cfg, mid);
        assert(fit(mid, picks));
        assert(merged(store, mid, picks, n, post));
    }
}

/// Tier compaction performs what tiering chooses until nothing is chosen. The statistics
/// count the merges and the items that they wrote, the latter up to the largest `usize`.
pub proof fn tier_compaction_goes_on_to_the_end<S: Store, B: SizeBand>(
    store: S,
    flush_threshold: usize,
    cfg: TierConfig<B>,
    pre: State<S>,
    stats: CompactionStats,
    post: State<S>,
) -> (items: nat)
    requires
        tiers_compacted(store, flush_threshold, cfg, pre, stats, post),
    ensures
        merge_chain(
            store,
            |st: State<S>, picks: Seq<usize>|
                crate::tiers::merge_choice(
                    Seq::new(st.segments.len(), |i: int| store.len_of(st.segments[i])),
                    flush_threshold,
                    cfg,
                ) == Some(picks),
            pre,
            stats.merges as nat,
            items,
            post,
        ),
        crate::tiers::merge_choice(
            Seq::new(post.segments.len(), |i: int| store.len_of(post.segments[i])),
            flush_threshold,
            cfg,
        ) is None,
        items <= usize::MAX ==> stats.items_merged == items,
        items > usize::MAX ==> stats.items_merged == usize::MAX,
        stats.segments_before == pre.segments.len(),
        stats.segments_after == post.segments.len(),
{
    let items = choose|items: nat| #[trigger]
        tier_merged(store, flush_threshold, cfg, pre, stats.merges as nat, items, post)
            && stats.items_merged == crate::state::capped(items);
    tier_merges_take_what_is_chosen(
        store,
        flush_threshold,
        cfg,
        pre,
        stats.merges as nat,
        items,
        post,
    );
    tiering_goes_by_item_counts(store, flush_threshold, cfg, post);
    items
}

/// The live items of a segment are counted, unless it is empty.
pub open spec fn counted_at<S: Store>(store: S, st: State<S>, i: int) -> bool {
    store.len_of(st.segments[i]) > 0 ==> store.live_of(st.segments[i], st.tombstones) is Some
}

/// The segment at `i` holds something, and the judge finds its own live and total counts
/// too low.
pub open spec fn too_sparse<S: Store>(
    store: S,
    low: spec_fn(usize, usize) -> bool,
    st: State<S>,
    i: int,
) -> bool {
    store.len_of(st.segments[i]) > 0 && (store.live_of(st.segments[i], st.tombstones) matches Some(
        live,
    ) && low(live, store.len_of(st.segments[i])))
}

/// Reclaiming judges each segment by itself: where all live items are counted, it merges
/// exactly the segments that hold something and whose own counts are too low, whatever
/// the others are, oldest first; and where there are none, or some segment is not
/// counted, it changes nothing.
pub proof fn reclaiming_judges_each_segment_by_itself<S: Store>(
    store: S,
    low: spec_fn(usize, usize) -> bool,
    pre: State<S>,
    stats: CompactionStats,
    post: State<S>,
) -> (picks: Seq<usize>)
    requires
        reclaimed(store, low, pre, stats, post),
        pre.segments.len() <= usize::MAX,
    ensures
        (forall|i: int| 0 <= i < pre.segments.len() ==> counted_at(store, pre, i)) ==> {
            &&& forall|i: usize| #[trigger]
                picks.contains(i) <==> i < pre.segments.len() && too_sparse(
                    store,
                    low,
                    pre,
                    i as int,
                )
            &&& forall|j: int, k: int|
                #![trigger picks[j], picks[k]]
                0 <= j < k < picks.len() ==> picks[j] < picks[k]
            &&& picks.len() > 0 ==> merged(store, pre, picks, stats.items_merged, post)
                && stats.merges == 1
            &&& picks.len() == 0 ==> post == pre && stats.merges == 0 && stats.items_merged == 0
        },
        (exists|i: int| 0 <= i < pre.segments.len() && !counted_at(store, pre, i)) ==> post == pre
            && stats.merges == 0 && stats.items_merged == 0,
        stats.segments_before == pre.segments.len(),
        stats.segments_after == post.segments.len(),
{
    let picks = sparse(store, low, pre);
    assert(counts_live(store, pre) <==> forall|i: int|
        0 <= i < pre.segments.len() ==> counted_at(store, pre, i)) by {
        if counts_live(store, pre) {
            assert forall|i: int| 0 <= i < pre.segments.len() implies counted_at(
                store,
                pre,
                i,
            ) by {
                let segment = pre.segments[i];
            }
        } else {
            let i = choose|i: int|
                0 <= i < pre.segments.len() && store.len_of(pre.segments[i]) > 0 && !(
                store.live_of(#[trigger] pre.segments[i], pre.tombstones) is Some);
            assert(!counted_at(store, pre, i));
        }
    }
    if counts_live(store, pre) {
        let all = positions(pre.segments.len());
        let keep = |i: usize|
            store.len_of(pre.segments[i as int]) > 0 && low(
                store.live_of(pre.segments[i as int], pre.tombstones)->0,
                store.len_of(pre.segments[i as int]),
            );
        let at = filtering_draws(all, keep);
        assert forall|i: usize| #[trigger] picks.contains(i) <==> i < pre.segments.len()
            && too_sparse(store, low, pre, i as int) by {
            if i < pre.segments.len() {
                assert(counted_at(store, pre, i as int));
                if too_sparse(store, low, pre, i as int) {
                    assert(all[i as int] == i);
                    all.lemma_filter_contains(keep, i as int);
                }
            }
            if picks.contains(i) {
                let k = choose|k: int| 0 <= k < picks.len() && picks[k] == i;
                assert(picks[k] == all[at[k]]);
                assert(0 <= at[k] < all.len());
                assert(counted_at(store, pre, i as int));
            }
        }
        assert forall|j: int, k: int|
            #![trigger picks[j], picks[k]]
            0 <= j < k < picks.len() implies picks[j] < picks[k] by {
            assert(picks[j] == all[at[j]] && picks[k] == all[at[k]]);
            assert(0 <= at[j] < all.len() && 0 <= at[k] < all.len());
            assert(at[j] < at[k]);
        }
        assert(pre.segments.len() > 0 || picks.len() == 0) by {
            all.lemma_filter_len(keep);
        }
        if picks.len() > 0 {
            sparse_merge_shrinks(store, pre, picks, stats.items_merged, post);
        }
    }
    picks
}

/// Merging some segments leaves no more than there were.
proof fn sparse_merge_shrinks<S: Store>(
    store: S,
    pre: State<S>,
    picks: Seq<usize>,
    n: usize,
    post: State<S>,
)
    requires
        merged(store, pre, picks, n, post),
        pre.segments.len() <= usize::MAX,
        picks.len() > 0,
        forall|i: usize| #[trigger] picks.contains(i) ==> i < pre.segments.len(),
        forall|j: int, k: int|
            #![trigger picks[j], picks[k]]
            0 <= j < k < picks.len() ==> picks[j] < picks[k],
    ensures
        post.segments.len() <= pre.segments.len(),
{
    assert forall|i: int, j: int|
        0 <= i < picks.len() && 0 <= j < picks.len() && i != j implies picks[i] != picks[j] by {
        let low = if i < j { i } else { j };
        let high = if i < j { j } else { i };
        assert(picks[low] < picks[high]);
    }
    assert forall|k: int| 0 <= k < picks.len() implies #[trigger] picks[k]
        < pre.segments.len() by {
        assert(picks.contains(picks[k]));
    }
    crate::content::merging_shrinks(store, pre, picks, n, post);
}

/// After reclaiming, a segment of the store is gone if and only if it holds something and
/// the judge finds its own live and total counts too low, whatever the others are. The
/// others are still there, under their ids.
pub proof fn exactly_the_sparse_segments_go<S: Store>(
    store: S,
    low: spec_fn(usize, usize) -> bool,
    pre: State<S>,
    stats: CompactionStats,
    post: State<S>,
    i: int,
)
    requires
        reclamation(store, low, pre, stats, post),
        crate::lineage::orderly(pre),
        pre.segments.len() < usize::MAX,
        pre.next_id + 1 < u64::MAX,
        forall|segment: S::Segment| #[trigger]
            store.len_of(segment) > 0 ==> store.live_of(segment, pre.tombstones) is Some,
        0 <= i < pre.segments.len(),
    ensures
        too_sparse(store, low, pre, i) <==> !post.ids.contains(pre.ids[i]),
        !too_sparse(store, low, pre, i) ==> exists|j: int|
            0 <= j < post.ids.len() && j < post.segments.len() && #[trigger] post.ids[j]
                == pre.ids[i] && post.segments[j] == pre.segments[i],
{
    assert(counts_live(store, pre));
    let mid = choose|mid: State<S>| #[trigger]
        sealed(store, pre, mid) && if counts_live(store, mid) && sparse(store, low, mid).len()
            > 0 {
            reclaimed(store, low, mid, stats, post)
        } else {
            idle(pre, stats, post)
        };
    sealing_takes_the_whole_buffer(store, pre, mid);
    crate::lineage::sealing_descends(store, pre, mid);
    assert(counts_live(store, mid));
    assert(mid.segments[i] == pre.segments[i]);
    assert(mid.ids[i] == pre.ids[i]);
    assert(too_sparse(store, low, pre, i) == too_sparse(store, low, mid, i));
    if sparse(store, low, mid).len() > 0 {
        let picks = reclaiming_judges_each_segment_by_itself(store, low, mid, stats, post);
        assert forall|k: int| 0 <= k < mid.segments.len() implies counted_at(store, mid, k) by {
            let segment = mid.segments[k];
        }
        assert(picks.len() > 0) by {
            let k = where_it_is_sparse(store, low, mid);
            assert(picks.contains(k));
        }
        let (out, at) = a_merge_replaces_what_it_takes(store, mid, picks, stats.items_merged, post);
        let left = at.len() as int;
        if too_sparse(store, low, mid, i) {
            assert(picks.contains(i as usize));
            if post.ids.contains(mid.ids[i]) {
                let j = choose|j: int| 0 <= j < post.ids.len() && post.ids[j] == mid.ids[i];
                if j < left {
                    assert(post.ids.take(left)[j] == mid.ids[at[j]]);
                    assert(0 <= at[j] < mid.ids.len() && !picks.contains(at[j] as usize));
                    assert(at[j] != i);
                    if at[j] < i {
                        assert(mid.ids[at[j]] < mid.ids[i]);
                    } else {
                        assert(mid.ids[i] < mid.ids[at[j]]);
                    }
                } else {
                    assert(post.ids.skip(left).len() == post.ids.len() - left);
                    assert(post.ids.skip(left)[j - left] == post.ids[j]);
                    assert(j == left);
                    assert(mid.ids[i] < mid.next_id);
                }
                assert(false);
            }
        } else {
            assert(!picks.contains(i as usize));
            assert(at.contains(i));
            let j = choose|j: int| 0 <= j < at.len() && at[j] == i;
            assert(post.ids.take(left)[j] == mid.ids[at[j]]);
            assert(post.segments.take(left)[j] == mid.segments[at[j]]);
            assert(post.ids[j] == pre.ids[i]);
        }
    } else {
        assert(post.ids[i] == pre.ids[i]);
        if too_sparse(store, low, mid, i) {
            what_is_sparse_is_found(store, low, mid, i);
        }
    }
}

/// Where something is too sparse, here is where.
proof fn where_it_is_sparse<S: Store>(
    store: S,
    low: spec_fn(usize, usize) -> bool,
    st: State<S>,
) -> (k: usize)
    requires
        st.segments.len() <= usize::MAX,
        counts_live(store, st),
        sparse(store, low, st).len() > 0,
    ensures
        k < st.segments.len(),
        too_sparse(store, low, st, k as int),
{
    let all = positions(st.segments.len());
    let keep = |i: usize|
        store.len_of(st.segments[i as int]) > 0 && low(
            store.live_of(st.segments[i as int], st.tombstones)->0,
            store.len_of(st.segments[i as int]),
        );
    let at = filtering_draws(all, keep);
    let k = sparse(store, low, st)[0];
    assert(k == all[at[0]]);
    assert(0 <= at[0] < all.len());
    assert(store.live_of(st.segments[k as int], st.tombstones) is Some);
    k
}

/// A segment that is too sparse is found.
proof fn what_is_sparse_is_found<S: Store>(
    store: S,
    low: spec_fn(usize, usize) -> bool,
    st: State<S>,
    i: int,
)
    requires
        st.segments.len() <= usize::MAX,
        0 <= i < st.segments.len(),
        too_sparse(store, low, st, i),
    ensures
        sparse(store, low, st).len() > 0,
{
    let all = positions(st.segments.len());
    let keep = |i: usize|
        store.len_of(st.segments[i as int]) > 0 && low(
            store.live_of(st.segments[i as int], st.tombstones)->0,
            store.len_of(st.segments[i as int]),
        );
    assert(all[i] == i as usize);
    all.lemma_filter_contains(keep, i);
}

/// The consumer's counts count what a reading finds: the length of a segment is the number
/// of its entries, and its live count, where there is one, the number of those that are
/// not dead.
pub open spec fn counts_entries<S: Store>(
    store: S,
    content: spec_fn(S::Segment) -> Multiset<(S::Id, S::Item)>,
) -> bool {
    &&& forall|segment: S::Segment| #[trigger]
        store.len_of(segment) == content(segment).len()
    &&& forall|segment: S::Segment, dead: Set<S::Id>| #[trigger]
        store.live_of(segment, dead) matches Some(n) ==> n == alive(content(segment), dead).len()
}

/// The list-backed model counts the entries of its lists: all of them, and always those
/// whose identity is not dead.
pub proof fn default_store_counts_entries<Id: Clone + Eq + Hash, Item: Clone>(
    store: DefaultStore<Id, Item>,
)
    ensures
        counts_entries(store, entries::<Id, Item>()),
        forall|segment: Vec<(Id, Item)>, dead: Set<Id>| #[trigger]
            store.live_of(segment, dead) is Some,
{
    broadcast use vstd::seq_lib::group_to_multiset_ensures;

    let content = entries::<Id, Item>();
    assert forall|segment: Vec<(Id, Item)>| #[trigger] store.len_of(segment) == content(
        segment,
    ).len() by {
        assert(segment@.len() == segment.len());
    }
    assert forall|segment: Vec<(Id, Item)>, dead: Set<Id>| #[trigger]
        store.live_of(segment, dead) is Some && store.live_of(segment, dead)->0 == alive(
            content(segment),
            dead,
        ).len() by {
        let keep = |e: (Id, Item)| !dead.contains(e.0);
        filtered_multiset(segment@, keep);
        segment@.lemma_filter_len(keep);
        assert(segment@.len() == segment.len());
        assert(segment@.filter(keep).to_multiset().len() == segment@.filter(keep).len());
    }
}

/// Where nothing is dead, the list-backed model counts every entry as live; where every
/// identity of a list is dead, none.
pub proof fn default_store_counts_all_or_none<Id: Clone + Eq + Hash, Item: Clone>(
    store: DefaultStore<Id, Item>,
    segment: Vec<(Id, Item)>,
    dead: Set<Id>,
)
    ensures
        store.len_of(segment) == segment@.len(),
        (forall|i: int| 0 <= i < segment@.len() ==> !dead.contains((#[trigger] segment@[i]).0))
            ==> store.live_of(segment, dead) == Some(store.len_of(segment)),
        (forall|i: int| 0 <= i < segment@.len() ==> dead.contains((#[trigger] segment@[i]).0))
            ==> store.live_of(segment, dead) == Some(0usize),
{
    let keep = |e: (Id, Item)| !dead.contains(e.0);
    let kept = segment@.filter(keep);
    let at = filtering_draws(segment@, keep);
    assert(segment@.len() == segment.len());
    if forall|i: int| 0 <= i < segment@.len() ==> !dead.contains((#[trigger] segment@[i]).0) {
        let all = Seq::new(segment@.len(), |i: int| i);
        assert forall|p: int| #[trigger] at.contains(p) <==> all.contains(p) by {
            if at.contains(p) {
                let k = choose|k: int| 0 <= k < at.len() && at[k] == p;
                assert(0 <= at[k] < segment@.len());
                assert(all[p] == p);
            }
            if all.contains(p) {
                assert(!dead.contains(segment@[p].0));
            }
        }
        one_way_to_list(at, all);
        assert(kept.len() == segment@.len());
    }
    if forall|i: int| 0 <= i < segment@.len() ==> dead.contains((#[trigger] segment@[i]).0) {
        if at.len() > 0 {
            assert(0 <= at[0] < segment@.len());
            assert(dead.contains(segment@[at[0]].0));
        }
    }
}

/// One more entry of a list counts as live unless its identity is dead.
pub proof fn default_store_counts_one_by_one<Id: Clone + Eq + Hash, Item: Clone>(
    store: DefaultStore<Id, Item>,
    segment: Vec<(Id, Item)>,
    more: Vec<(Id, Item)>,
    entry: (Id, Item),
    dead: Set<Id>,
)
    requires
        more@ == segment@.push(entry),
    ensures
        store.len_of(more) == store.len_of(segment) + 1,
        store.live_of(more, dead)->0 == store.live_of(segment, dead)->0 + if dead.contains(
            entry.0,
        ) {
            0int
        } else {
            1int
        },
{
    let keep = |e: (Id, Item)| !dead.contains(e.0);
    segment@.lemma_filter_push(entry, keep);
    segment@.lemma_filter_len(keep);
    more@.lemma_filter_len(keep);
    assert(segment@.len() == segment.len());
    assert(more@.len() == more.len());
}

/// The list-backed model turns a batch into the list of its entries, in their order, and
/// a merge into the list of the live entries of its segments, one segment after the
/// other and each in its order, where clones are exact.
pub proof fn default_store_keeps_the_order<Id: Clone + Eq + Hash, Item: Clone>(
    store: DefaultStore<Id, Item>,
    batch: Seq<(Id, Item)>,
    segments: Seq<Vec<(Id, Item)>>,
    dead: Set<Id>,
    out: Vec<(Id, Item)>,
)
    requires
        crate::ids::exact_clone::<Id>(),
        crate::ids::exact_clone::<Item>(),
    ensures
        store.builds(batch, out) ==> out@ == batch,
        store.merges(segments, dead, out) ==> out@ == segments.map_values(
            |list: Vec<(Id, Item)>| list@,
        ).flatten().filter(|e: (Id, Item)| !dead.contains(e.0)),
{
    if store.builds(batch, out) {
        copied_is_same(batch, out@);
    }
    if store.merges(segments, dead, out) {
        copied_is_same(crate::store::live_entries(segments, dead), out@);
        live_entries_in_order::<Id, Item>(segments, dead);
    }
}

/// The live entries of lists are what is live of the lists strung together.
proof fn live_entries_in_order<Id, Item>(segments: Seq<Vec<(Id, Item)>>, dead: Set<Id>)
    ensures
        crate::store::live_entries(segments, dead) == segments.map_values(
            |list: Vec<(Id, Item)>| list@,
        ).flatten().filter(|e: (Id, Item)| !dead.contains(e.0)),
    decreases segments.len(),
{
    let lists = segments.map_values(|list: Vec<(Id, Item)>| list@);
    let keep = |e: (Id, Item)| !dead.contains(e.0);
    lists.lemma_flatten_and_flatten_alt_are_equivalent();
    if segments.len() == 0 {
        reveal(Seq::filter);
        assert(lists.flatten().filter(keep) =~= Seq::empty());
    } else {
        let front = segments.drop_last();
        let front_lists = front.map_values(|list: Vec<(Id, Item)>| list@);
        live_entries_in_order::<Id, Item>(front, dead);
        front_lists.lemma_flatten_and_flatten_alt_are_equivalent();
        assert(lists.drop_last() =~= front_lists);
        assert(lists.last() == segments.last()@);
        Seq::filter_distributes_over_add(front_lists.flatten_alt(), segments.last()@, keep);
    }
}

/// Every buffered entry is live.
pub open spec fn buffer_is_live<S: Store>(st: State<S>) -> bool {
    forall|i: int|
        0 <= i < st.buffer.len() ==> !st.tombstones.contains((#[trigger] st.buffer[i]).0)
}

/// No operation leaves a dead entry in the buffer.
pub proof fn the_buffer_stays_live<S: Store>(
    store: S,
    flush_threshold: usize,
    pre: State<S>,
    op: Op<S::Id, S::Item>,
    post: State<S>,
)
    requires
        buffer_is_live(pre),
        performed(store, flush_threshold, pre, op, post),
    ensures
        buffer_is_live(post),
{
    let mid = applied(pre, op);
    match op {
        Op::Add(id, item) => {},
        Op::Delete(id) => {
            let at = deleting_keeps_the_others_in_order(pre.buffer, id);
            assert forall|i: int| 0 <= i < mid.buffer.len() implies !mid.tombstones.contains(
                (#[trigger] mid.buffer[i]).0,
            ) by {
                assert(mid.buffer[i] == pre.buffer[at[i]]);
                assert(0 <= at[i] < pre.buffer.len());
            }
        },
    }
}

/// Where the consumer counts entries, the sizes of all segments add up to the entries that
/// they hold, and their live counts to those that are live.
pub proof fn counts_add_up<S: Store>(
    store: S,
    content: spec_fn(S::Segment) -> Multiset<(S::Id, S::Item)>,
    segments: Seq<S::Segment>,
    dead: Set<S::Id>,
)
    requires
        counts_entries(store, content),
    ensures
        total_of(sizes_of(store, segments)) == together::<S>(content, segments).len(),
        all_counted(live_sizes_of(store, segments, dead)) ==> total_of(
            live_sizes_of(store, segments, dead).map_values(|n: Option<usize>| n->0),
        ) == alive(together::<S>(content, segments), dead).len(),
    decreases segments.len(),
{
    let sizes = sizes_of(store, segments);
    let lives = live_sizes_of(store, segments, dead);
    let numbers = lives.map_values(|n: Option<usize>| n->0);
    if segments.len() == 0 {
        assert(alive(together::<S>(content, segments), dead) =~= Multiset::empty());
    } else {
        let front = segments.drop_last();
        let last = segments.last();
        let front_lives = live_sizes_of(store, front, dead);
        counts_add_up(store, content, front, dead);
        assert(sizes.drop_last() =~= sizes_of(store, front));
        assert(lives.drop_last() =~= front_lives);
        assert(numbers.drop_last() =~= front_lives.map_values(|n: Option<usize>| n->0));
        alive_adds(together::<S>(content, front), content(last), dead);
        assert(store.len_of(last) == content(last).len());
        if all_counted(lives) {
            assert forall|i: int| 0 <= i < front_lives.len() implies #[trigger] front_lives[i]
                is Some by {
                assert(lives[i] is Some);
            }
            assert(lives[segments.len() - 1] is Some);
            assert(store.live_of(last, dead) is Some);
        }
    }
}

/// Where the consumer counts entries, the stored count of a store is the number of all its
/// entries, and the live count, where there is one, the number of its live entries.
pub proof fn space_is_what_is_held<S: Store>(
    store: S,
    content: spec_fn(S::Segment) -> Multiset<(S::Id, S::Item)>,
    st: State<S>,
)
    requires
        counts_entries(store, content),
        buffer_is_live(st),
    ensures
        total_of(sizes_of(store, st.segments)) + st.buffer.len() == stored(content, st).len(),
        all_counted(live_sizes_of(store, st.segments, st.tombstones)) ==> total_of(
            live_sizes_of(store, st.segments, st.tombstones).map_values(|n: Option<usize>| n->0),
        ) + st.buffer.len() == live(content, st).len(),
{
    broadcast use vstd::seq_lib::group_to_multiset_ensures;

    let buffered = st.buffer.to_multiset();
    counts_add_up(store, content, st.segments, st.tombstones);
    alive_adds(together::<S>(content, st.segments), buffered, st.tombstones);
    assert(alive(buffered, st.tombstones) =~= buffered) by {
        assert forall|e: (S::Id, S::Item)| alive(buffered, st.tombstones).count(e)
            == buffered.count(e) by {
            if buffered.count(e) > 0 {
                assert(st.buffer.contains(e));
                let i = choose|i: int| 0 <= i < st.buffer.len() && st.buffer[i] == e;
                assert(!st.tombstones.contains(st.buffer[i].0));
            }
        }
    }
}

/// What a checkpoint describes is what it lists, in its order; without one there is
/// nothing. Nothing is buffered, exactly the listed files count as written, and readers
/// see the same.
pub proof fn recovery_starts_from_what_is_listed<S: Store>(
    checkpoint: Option<crate::segmented::Checkpoint<S>>,
)
    ensures
        ({
            let base = crate::segmented::recovered_base(checkpoint);
            &&& base.buffer.len() == 0
            &&& base.published.segments == base.segments
            &&& base.published.ids == base.ids
            &&& base.published.tombstones == base.tombstones
            &&& forall|id: u64| #[trigger] base.persisted.contains(id) <==> base.ids.contains(id)
            &&& match checkpoint {
                Some(found) => {
                    &&& base.epoch == found.epoch
                    &&& base.next_id == found.next_seg_id
                    &&& base.segments.len() == found.segments@.len()
                    &&& base.ids.len() == found.segments@.len()
                    &&& forall|i: int|
                        0 <= i < found.segments@.len() ==> (#[trigger] found.segments@[i]).0
                            == base.ids[i] && found.segments@[i].1 == base.segments[i]
                    &&& forall|id: S::Id| #[trigger]
                        base.tombstones.contains(id) <==> found.tombstones@.contains(id)
                },
                None => base.epoch == 0 && base.next_id == 0 && base.segments.len() == 0
                    && base.ids.len() == 0 && forall|id: S::Id| !base.tombstones.contains(id),
            }
        }),
{
}

/// A commit starts the next epoch and shows readers the segments, ids and tombstones there
/// are. Of the files known to be written it goes on to know those that are named.
pub proof fn a_commit_shows_what_there_is<S: Store>(pre: State<S>)
    requires
        pre.epoch < u64::MAX,
    ensures
        ({
            let post = crate::state::committed(pre);
            &&& post.epoch == pre.epoch + 1
            &&& post.buffer == pre.buffer
            &&& post.segments == pre.segments
            &&& post.ids == pre.ids
            &&& post.tombstones == pre.tombstones
            &&& post.next_id == pre.next_id
            &&& post.published.segments == pre.segments
            &&& post.published.ids == pre.ids
            &&& post.published.tombstones == pre.tombstones
            &&& forall|id: u64| #[trigger]
                post.persisted.contains(id) <==> pre.persisted.contains(id) && pre.ids.contains(id)
        }),
{
}

/// Sealing leaves as many segments as are counted beforehand: one more if anything is
/// buffered.
pub proof fn sealing_gives_the_sealed_count<S: Store>(store: S, pre: State<S>, post: State<S>)
    requires
        sealed(store, pre, post),
    ensures
        post.segments.len() == crate::state::sealed_count(pre),
        pre.buffer.len() > 0 ==> crate::state::sealed_count(pre) == pre.segments.len() + 1,
        pre.buffer.len() == 0 ==> crate::state::sealed_count(pre) == pre.segments.len(),
{
}

/// Where a compaction is idle, nothing changes, and its statistics say so.
pub proof fn idling_changes_nothing<S: Store>(
    pre: State<S>,
    stats: CompactionStats,
    post: State<S>,
)
    requires
        idle(pre, stats, post),
        pre.segments.len() <= usize::MAX,
    ensures
        post == pre,
        stats.merges == 0,
        stats.items_merged == 0,
        stats.segments_before == pre.segments.len(),
        stats.segments_after == pre.segments.len(),
{
}

/// Reclaiming judges the segment that the buffer becomes like the others: something is
/// merged if and only if some segment of the sealed store is too sparse, and otherwise
/// nothing changes and nothing is sealed. `mid` is the sealed store.
pub proof fn reclaiming_judges_the_buffer_too<S: Store>(
    store: S,
    low: spec_fn(usize, usize) -> bool,
    pre: State<S>,
    stats: CompactionStats,
    post: State<S>,
) -> (mid: State<S>)
    requires
        reclamation(store, low, pre, stats, post),
        pre.segments.len() < usize::MAX,
        pre.next_id < u64::MAX,
        forall|segment: S::Segment| #[trigger]
            store.len_of(segment) > 0 ==> store.live_of(segment, pre.tombstones) is Some,
    ensures
        sealed(store, pre, mid),
        (exists|i: int| 0 <= i < mid.segments.len() && too_sparse(store, low, mid, i)) ==> {
            &&& stats.merges == 1
            &&& reclaimed(store, low, mid, stats, post)
        },
        (forall|i: int| 0 <= i < mid.segments.len() ==> !too_sparse(store, low, mid, i)) ==> {
            &&& stats.merges == 0
            &&& post == pre
        },
{
    assert(counts_live(store, pre));
    let mid = choose|mid: State<S>| #[trigger]
        sealed(store, pre, mid) && if counts_live(store, mid) && sparse(store, low, mid).len()
            > 0 {
            reclaimed(store, low, mid, stats, post)
        } else {
            idle(pre, stats, post)
        };
    sealing_takes_the_whole_buffer(store, pre, mid);
    assert(counts_live(store, mid));
    if sparse(store, low, mid).len() > 0 {
        let k = where_it_is_sparse(store, low, mid);
        assert(too_sparse(store, low, mid, k as int));
    } else {
        assert forall|i: int| 0 <= i < mid.segments.len() implies !too_sparse(
            store,
            low,
            mid,
            i,
        ) by {
            if too_sparse(store, low, mid, i) {
                what_is_sparse_is_found(store, low, mid, i);
            }
        }
    }
    mid
}

/// Where the live items of some segment are not counted, reclaiming changes nothing.
pub proof fn reclaiming_needs_every_count<S: Store>(
    store: S,
    low: spec_fn(usize, usize) -> bool,
    pre: State<S>,
    stats: CompactionStats,
    post: State<S>,
    i: int,
)
    requires
        reclamation(store, low, pre, stats, post),
        0 <= i < pre.segments.len() <= usize::MAX,
        store.len_of(pre.segments[i]) > 0,
        store.live_of(pre.segments[i], pre.tombstones) is None,
    ensures
        post == pre,
        stats.merges == 0,
{
    assert(!counts_live(store, pre));
}

/// A manifest covers a state exactly where nothing is buffered and every segment's file is
/// written.
pub proof fn a_manifest_covers_what_is_written<S: Store>(st: State<S>)
    ensures
        crate::segmented::committable(st) <==> st.buffer.len() == 0 && forall|i: int|
            0 <= i < st.ids.len() ==> st.persisted.contains(#[trigger] st.ids[i]),
{
    let at = crate::state::unwritten_from(st, 0);
    crate::recovery::next_file_is_new(st, 0);
    if at < st.ids.len() {
        assert(!st.persisted.contains(st.ids[at as int]));
    }
}

/// Replaying nothing changes nothing, and replaying one more operation is replaying the
/// others and performing it.
pub proof fn replaying_performs_one_after_the_other<S: Store>(
    store: S,
    flush_threshold: usize,
    pre: State<S>,
    ops: Seq<Op<S::Id, S::Item>>,
    op: Op<S::Id, S::Item>,
    mid: State<S>,
    post: State<S>,
)
    ensures
        replayed(store, flush_threshold, pre, Seq::empty(), post) <==> post == pre,
        replayed(store, flush_threshold, pre, ops, mid) && performed(
            store,
            flush_threshold,
            mid,
            op,
            post,
        ) ==> replayed(store, flush_threshold, pre, ops.push(op), post),
        replayed(store, flush_threshold, pre, seq![op], post) <==> performed(
            store,
            flush_threshold,
            pre,
            op,
            post,
        ),
{
    assert(ops.push(op).drop_last() =~= ops);
    if performed(store, flush_threshold, mid, op, post) {
        assert(performed(store, flush_threshold, mid, ops.push(op).last(), post));
    }
    assert(seq![op].drop_last() =~= Seq::empty());
    assert(seq![op].last() == op);
    if performed(store, flush_threshold, pre, op, post) {
        assert(replayed(store, flush_threshold, pre, seq![op].drop_last(), pre));
        assert(performed(store, flush_threshold, pre, seq![op].last(), post));
    }
    if replayed(store, flush_threshold, pre, seq![op], post) {
        let at = choose|at: State<S>|
            replayed(store, flush_threshold, pre, seq![op].drop_last(), at) && #[trigger] performed(
                store,
                flush_threshold,
                at,
                seq![op].last(),
                post,
            );
        assert(at == pre);
    }
}

/// A checkpoint is owed exactly after a full compaction or after any merge.
pub proof fn a_merge_owes_a_checkpoint(stats: CompactionStats)
    ensures
        stats.owes_checkpoint(true),
        stats.merges > 0 ==> stats.owes_checkpoint(false),
        stats.merges == 0 ==> !stats.owes_checkpoint(false),
{
}

/// There is a live count exactly where every segment, empty or not, has one.
pub proof fn one_missing_count_spoils_the_report<S: Store>(
    store: S,
    segments: Seq<S::Segment>,
    dead: Set<S::Id>,
)
    ensures
        all_counted(live_sizes_of(store, segments, dead)) <==> forall|i: int|
            0 <= i < segments.len() ==> store.live_of(#[trigger] segments[i], dead) is Some,
{
    let counts = live_sizes_of(store, segments, dead);
    if all_counted(counts) {
        assert forall|i: int| 0 <= i < segments.len() implies store.live_of(
            #[trigger] segments[i],
            dead,
        ) is Some by {
            assert(counts[i] is Some);
        }
    }
    if forall|i: int|
        0 <= i < segments.len() ==> store.live_of(#[trigger] segments[i], dead) is Some {
        assert forall|i: int| 0 <= i < counts.len() implies #[trigger] counts[i] is Some by {
            assert(store.live_of(segments[i], dead) is Some);
        }
    }
}

/// Whatever clones are, the list-backed model clones each entry of a batch in its place,
/// and of a merge each live entry of its segments, one segment after the other.
pub proof fn default_store_clones_in_place<Id: Clone + Eq + Hash, Item: Clone>(
    store: DefaultStore<Id, Item>,
    batch: Seq<(Id, Item)>,
    segments: Seq<Vec<(Id, Item)>>,
    dead: Set<Id>,
    out: Vec<(Id, Item)>,
)
    ensures
        store.builds(batch, out) ==> {
            &&& out@.len() == batch.len()
            &&& forall|i: int|
                0 <= i < batch.len() ==> cloned(batch[i].0, (#[trigger] out@[i]).0) && cloned(
                    batch[i].1,
                    out@[i].1,
                )
        },
        store.merges(segments, dead, out) ==> {
            let kept = segments.map_values(|list: Vec<(Id, Item)>| list@).flatten().filter(
                |e: (Id, Item)| !dead.contains(e.0),
            );
            &&& out@.len() == kept.len()
            &&& forall|i: int|
                0 <= i < kept.len() ==> cloned(kept[i].0, (#[trigger] out@[i]).0) && cloned(
                    kept[i].1,
                    out@[i].1,
                )
        },
{
    live_entries_in_order::<Id, Item>(segments, dead);
}

/// A store can be opened in a directory of a format that is read, if the directory is
/// backed by a file system or every write is merely to be flushed.
pub proof fn a_readable_directory_can_be_opened(
    sync: crate::config::SyncPolicy,
    probe: crate::names::DirectoryProbe,
)
    ensures
        crate::segmented::openable(sync, probe) <==> !probe.legacy_wal && (!probe.legacy_ckpt
            || probe.manifest) && (probe.file_backed || sync == crate::config::SyncPolicy::Flush),
{
}

/// What stands in the way of opening a store is told in this order: a sync policy that the
/// directory cannot honour, an unsuffixed log, a monolithic checkpoint.
pub proof fn refusals_are_told_in_order<T>(
    sync: crate::config::SyncPolicy,
    probe: crate::names::DirectoryProbe,
    result: crate::error::PersistenceResult<T>,
)
    requires
        !crate::segmented::openable(sync, probe),
        crate::segmented::open_fault(sync, probe, result),
    ensures
        result matches Err(crate::error::PersistenceError::InvalidConfig(m)) && m@ == if sync
            == crate::config::SyncPolicy::Fsync && !probe.file_backed {
            "SyncPolicy::Fsync requires a filesystem-backed Directory"@
        } else if probe.legacy_wal {
            crate::names::legacy_wal_complaint()
        } else {
            crate::names::legacy_ckpt_complaint()
        },
{
}

} // verus!
