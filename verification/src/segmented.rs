//! The store: buffered adds, immutable segments, tombstones, compaction and the
//! checkpoint protocol.

use crate::band::{RatioBand, SizeBand};
use crate::config::{CompactionStats, Options, SyncPolicy, TierConfig};
use crate::error::{PersistenceError, PersistenceResult};
use crate::ids::{collect_ids, lawful_id};
use crate::log::{apply, Op};
use crate::names::{
    idx_name, is_leftover, is_orphan, kind_complaint, leftovers, orphans, readable_format,
    reject_legacy_formats, valid_kind, wal_name, wal_path, DirectoryProbe,
};
use crate::state::{
    all_counted, all_judged, applied, capped, checkpointed, committed, compacted, consolidated,
    consolidation_group, counts_live, force_merged, found_sparse, fresh, idle, judged, judges,
    live_sizes_of, merged, merged_into, merged_some, nothing_to_reclaim, payloads, performed,
    picked, positions, reclaimed, reclamation, replayed, sealed, sealed_count, sizes_of,
    snapshot_of, sparse, tier_group, tier_merged, tiers_compacted, total_of, unwritten_from,
    without, without_len, Snapshot, State,
};
use crate::store::{decides, Store};
use std::collections::HashSet;
use std::sync::Arc;
use vstd::prelude::*;
use vstd::string::StringExecFns;

verus! {

/// A generic, durable, segmented mutable store.
///
/// This is the state behind the files: what an operation does to the buffer, the
/// segments, the tombstones and the ids. The caller keeps the files: it logs each
/// operation before handing it over, and does the writes that [`Self::checkpoint`]
/// asks for.
#[verifier::reject_recursive_types(S)]
pub struct SegmentedStore<S: Store, B = RatioBand> {
    store: S,
    /// Live adds not yet flushed into a segment.
    buffer: Vec<(S::Id, S::Item)>,
    /// Immutable segments, oldest first.
    segments: Vec<Arc<S::Segment>>,
    /// The persisted id of each segment, parallel to `segments`.
    segment_ids: Vec<u64>,
    /// Logically deleted ids.
    tombstones: HashSet<S::Id>,
    /// Monotonic source of new segment ids.
    next_seg_id: u64,
    /// Current log generation.
    epoch: u64,
    /// Ids whose segment file is durably on disk, so a checkpoint can skip rewriting
    /// an unchanged segment.
    persisted_ids: HashSet<u64>,
    /// What readers see.
    published: crate::view::View<S>,
    /// Tuning.
    options: Options<B>,
}

impl<S: Store, B: SizeBand> SegmentedStore<S, B> {
    /// The state of the store.
    pub closed spec fn state(&self) -> State<S> {
        State {
            buffer: self.buffer@,
            segments: payloads(self.segments@),
            ids: self.segment_ids@,
            tombstones: self.tombstones@,
            next_id: self.next_seg_id,
            epoch: self.epoch,
            persisted: self.persisted_ids@,
            published: self.published.shows(),
        }
    }

    /// The consumer's payload model.
    pub closed spec fn model(&self) -> S {
        self.store
    }

    /// The tuning that the store was opened with.
    pub closed spec fn options(&self) -> Options<B> {
        self.options
    }

    /// Each segment has an id, and identities behave.
    closed spec fn aligned(&self) -> bool {
        &&& lawful_id::<S::Id>()
        &&& self.segments@.len() == self.segment_ids@.len()
    }

    /// A store between two operations: each segment has an id, identities behave, and
    /// a full buffer has been sealed.
    pub closed spec fn wf(&self) -> bool {
        &&& self.aligned()
        &&& self.buffer@.len() == 0 || self.buffer@.len() < self.options.flush_threshold
    }

    /// Nothing but the state changes.
    pub open spec fn same_setup(&self, before: &Self) -> bool {
        self.model() == before.model() && self.options() == before.options()
    }

    /// What a store keeps between two operations: identities behave, segments and ids
    /// stay in lockstep, and a buffer that reaches the threshold is sealed at once.
    pub proof fn wf_says(&self)
        requires
            self.wf(),
        ensures
            lawful_id::<S::Id>(),
            self.state().segments.len() == self.state().ids.len(),
            self.state().segments.len() <= usize::MAX,
            self.state().buffer.len() == 0 || self.state().buffer.len()
                < self.options().flush_threshold,
    {
        assert(self.segments.len() == self.segments@.len());
    }

    /// Drain the buffer into a fresh immutable segment (no-op when empty).
    fn flush_buffer(&mut self)
        requires
            old(self).aligned(),
            old(self).buffer@.len() > 0 ==> old(self).next_seg_id < u64::MAX,
        ensures
            final(self).wf(),
            final(self).same_setup(old(self)),
            sealed(old(self).model(), old(self).state(), final(self).state()),
    {
        if self.buffer.len() == 0 {
            return;
        }
        let segment = self.store.build_segment(self.buffer.as_slice());
        self.seal(segment);
    }

    /// Replace the buffer by the segment that it became.
    fn seal(&mut self, segment: S::Segment)
        requires
            old(self).aligned(),
            old(self).next_seg_id < u64::MAX,
        ensures
            final(self).wf(),
            final(self).same_setup(old(self)),
            final(self).state() == (State {
                buffer: Seq::empty(),
                segments: old(self).state().segments.push(segment),
                ids: old(self).state().ids.push(old(self).state().next_id),
                next_id: (old(self).state().next_id + 1) as u64,
                ..old(self).state()
            }),
    {
        let id = self.alloc_id();
        self.segments.push(Arc::new(segment));
        self.segment_ids.push(id);
        self.buffer.clear();
        proof {
            let pre = old(self).state();
            let post = self.state();
            assert(post.segments =~= pre.segments.push(segment));
            assert(post =~= (State {
                buffer: Seq::empty(),
                segments: pre.segments.push(segment),
                ids: pre.ids.push(pre.next_id),
                next_id: (pre.next_id + 1) as u64,
                ..pre
            }));
        }
    }

    /// Allocate a fresh, never-reused segment id.
    fn alloc_id(&mut self) -> (id: u64)
        requires
            old(self).next_seg_id < u64::MAX,
        ensures
            id == old(self).next_seg_id,
            *final(self) == (SegmentedStore { next_seg_id: (id + 1) as u64, ..*old(self) }),
    {
        let id = self.next_seg_id;
        self.next_seg_id = self.next_seg_id + 1;
        id
    }

    /// Apply one operation, and seal the buffer if that filled it.
    fn perform(&mut self, op: Op<S::Id, S::Item>) -> (sealed_one: bool)
        requires
            old(self).wf(),
            applied(old(self).state(), op).buffer.len()
                >= old(self).options().flush_threshold ==> old(self).next_seg_id < u64::MAX,
        ensures
            final(self).wf(),
            final(self).same_setup(old(self)),
            performed(
                old(self).model(),
                old(self).options().flush_threshold,
                old(self).state(),
                op,
                final(self).state(),
            ),
            sealed_one == (applied(old(self).state(), op).buffer.len() > 0 && applied(
                old(self).state(),
                op,
            ).buffer.len() >= old(self).options().flush_threshold),
            final(self).next_seg_id <= old(self).next_seg_id + 1,
    {
        apply(&mut self.buffer, &mut self.tombstones, op);
        assert(self.state() =~= applied(old(self).state(), op));
        if self.buffer.len() > 0 && self.buffer.len() >= self.options.flush_threshold {
            self.flush_buffer();
            true
        } else {
            false
        }
    }

    /// Add (or re-add) an item, after its record has been logged. Returns whether tier
    /// compaction is now due: the add sealed a segment, auto-compaction is on, and a
    /// size bucket is eligible.
    pub fn add(&mut self, id: S::Id, item: S::Item) -> (compaction_due: bool)
        requires
            old(self).wf(),
            old(self).state().buffer.len() + 1 >= old(self).options().flush_threshold
                ==> old(self).state().next_id < u64::MAX,
        ensures
            final(self).wf(),
            final(self).same_setup(old(self)),
            performed(
                old(self).model(),
                old(self).options().flush_threshold,
                old(self).state(),
                Op::Add(id, item),
                final(self).state(),
            ),
            old(self).state().buffer.len() + 1 < old(self).options().flush_threshold
                ==> final(self).state().buffer == old(self).state().buffer.push((id, item))
                && final(self).state().segments == old(self).state().segments,
            old(self).state().buffer.len() + 1 >= old(self).options().flush_threshold
                ==> final(self).state().buffer.len() == 0 && final(self).state().segments.len()
                == old(self).state().segments.len() + 1 && old(self).model().builds(
                old(self).state().buffer.push((id, item)),
                final(self).state().segments.last(),
            ),
            compaction_due == (old(self).options().auto_compact && old(self).state().buffer.len()
                + 1 >= old(self).options().flush_threshold && final(self).eligible_group()
                is Some),
    {
        let sealed_one = self.perform(Op::Add(id, item));
        sealed_one && self.options.auto_compact && self.has_eligible_tier()
    }

    /// Add (or re-add) many items, syncing the log once for the whole batch instead of
    /// per item, one step at a time: hand over each item after its record has been
    /// logged, synced or not, and `None` when there are no more, and get told what to do
    /// next.
    ///
    /// The durability boundary is the batch's final sync, so a crash mid-batch may leave a
    /// prefix of the batch durable. Where a merge is due, the batch so far has to be
    /// durable before the merge rewrites it.
    pub fn extend(&mut self, batch: &mut Batch, next: Option<(S::Id, S::Item)>) -> (action:
        BatchAction)
        requires
            old(self).wf(),
            next is Some && old(self).state().buffer.len() + 1
                >= old(self).options().flush_threshold ==> old(self).state().next_id < u64::MAX,
        ensures
            final(self).wf(),
            final(self).same_setup(old(self)),
            match next {
                Some((id, item)) => {
                    &&& performed(
                        old(self).model(),
                        old(self).options().flush_threshold,
                        old(self).state(),
                        Op::Add(id, item),
                        final(self).state(),
                    )
                    &&& final(batch).appended
                    &&& action == (if old(self).options().auto_compact
                        && old(self).state().buffer.len() + 1 >= old(self).options().flush_threshold
                        && final(self).eligible_group() is Some {
                        BatchAction::SyncAndCompact
                    } else {
                        BatchAction::LogNext
                    })
                },
                None => {
                    &&& final(self).state() == old(self).state()
                    &&& *final(batch) == *old(batch)
                    &&& action == (if old(batch).appended {
                        BatchAction::SyncAndFinish
                    } else {
                        BatchAction::Finish
                    })
                },
            },
    {
        match next {
            Some((id, item)) => {
                batch.appended = true;
                if self.add(id, item) {
                    BatchAction::SyncAndCompact
                } else {
                    BatchAction::LogNext
                }
            },
            None => if batch.appended {
                BatchAction::SyncAndFinish
            } else {
                BatchAction::Finish
            },
        }
    }

    /// Tombstone an item, after its record has been logged.
    pub fn delete(&mut self, id: S::Id)
        requires
            old(self).wf(),
        ensures
            final(self).wf(),
            final(self).same_setup(old(self)),
            performed(
                old(self).model(),
                old(self).options().flush_threshold,
                old(self).state(),
                Op::Delete(id),
                final(self).state(),
            ),
            final(self).state() == applied(old(self).state(), Op::Delete(id)),
    {
        proof {
            self.buffer@.lemma_filter_len(|e: (S::Id, S::Item)| e.0 != id);
        }
        apply(&mut self.buffer, &mut self.tombstones, Op::Delete(id));
        assert(self.state() =~= applied(old(self).state(), Op::Delete(id)));
    }

    /// The group that size tiering merges next.
    pub open spec fn eligible_group(&self) -> Option<Seq<usize>> {
        tier_group(
            self.model(),
            self.options().flush_threshold,
            self.options().tiering,
            self.state(),
        )
    }

    /// Per-segment item counts, oldest segment first.
    pub fn segment_sizes(&self) -> (sizes: Vec<usize>)
        ensures
            sizes@ == sizes_of(self.model(), self.state().segments),
            sizes@.len() == self.state().segments.len(),
            forall|i: int|
                0 <= i < sizes@.len() ==> #[trigger] sizes@[i] == self.model().len_of(
                    self.state().segments[i],
                ),
    {
        let mut sizes: Vec<usize> = Vec::new();
        let mut i: usize = 0;
        while i < self.segments.len()
            invariant
                i <= self.segments@.len(),
                sizes@ =~= sizes_of(self.model(), self.state().segments).take(i as int),
            decreases self.segments@.len() - i,
        {
            sizes.push(self.store.segment_len(&*self.segments[i]));
            i += 1;
        }
        sizes
    }

    /// Whether at least one size bucket is eligible to merge right now.
    pub fn has_eligible_tier(&self) -> (eligible: bool)
        ensures
            eligible == (self.eligible_group() is Some),
    {
        self.next_merge_group().is_some()
    }

    /// The next group of segment positions to merge (size-tiered selection), or `None`
    /// if no bucket is eligible. Lowest-average bucket first.
    pub fn next_merge_group(&self) -> (group: Option<Vec<usize>>)
        ensures
            match (group, self.eligible_group()) {
                (Some(g), Some(picks)) => g@ == picks,
                (None, None) => true,
                _ => false,
            },
    {
        let sizes = self.segment_sizes();
        crate::tiers::next_merge_group(
            sizes.as_slice(),
            self.options.flush_threshold,
            &self.options.tiering,
        )
    }

    /// Which positions are among `indices`.
    fn marks(&self, indices: &Vec<usize>) -> (gone: Vec<bool>)
        requires
            forall|k: int|
                0 <= k < indices@.len() ==> #[trigger] indices@[k] < self.segments@.len(),
        ensures
            gone@.len() == self.segments@.len(),
            forall|i: int|
                0 <= i < gone@.len() ==> #[trigger] gone@[i] == indices@.contains(i as usize),
    {
        let mut gone: Vec<bool> = Vec::new();
        let mut i: usize = 0;
        while i < self.segments.len()
            invariant
                i <= self.segments@.len(),
                gone@.len() == i,
                forall|k: int| 0 <= k < i ==> #[trigger] gone@[k] == false,
            decreases self.segments@.len() - i,
        {
            gone.push(false);
            i += 1;
        }
        let mut k: usize = 0;
        while k < indices.len()
            invariant
                k <= indices@.len(),
                gone@.len() == self.segments@.len(),
                forall|k: int|
                    0 <= k < indices@.len() ==> #[trigger] indices@[k] < self.segments@.len(),
                forall|i: int|
                    0 <= i < gone@.len() ==> #[trigger] gone@[i] == indices@.take(
                        k as int,
                    ).contains(i as usize),
            decreases indices@.len() - k,
        {
            let ghost before = gone@;
            let at = indices[k];
            gone.set(at, true);
            proof {
                let head = indices@.take(k as int);
                let more = indices@.take(k + 1);
                assert(more =~= head.push(at));
                assert forall|i: int| 0 <= i < gone@.len() implies #[trigger] gone@[i]
                    == more.contains(i as usize) by {
                    assert(gone.len() == gone@.len());
                    if i == at {
                        assert(more[k as int] == at);
                    } else {
                        assert(gone@[i] == before[i]);
                        if head.contains(i as usize) {
                            let j = choose|j: int| 0 <= j < head.len() && head[j] == i as usize;
                            assert(more[j] == i as usize);
                        }
                        if more.contains(i as usize) {
                            let j = choose|j: int| 0 <= j < more.len() && more[j] == i as usize;
                            assert(head[j] == i as usize);
                        }
                    }
                }
            }
            k += 1;
        }
        assert(indices@.take(k as int) =~= indices@);
        gone
    }

    /// Merge the segments at `indices` into one (dropping tombstoned ids), replacing
    /// them with the single result. Returns the merged item count.
    fn merge_group(&mut self, indices: &Vec<usize>) -> (n: usize)
        requires
            old(self).aligned(),
            old(self).next_seg_id < u64::MAX,
            forall|k: int|
                0 <= k < indices@.len() ==> #[trigger] indices@[k] < old(self).segments@.len(),
        ensures
            final(self).aligned(),
            final(self).same_setup(old(self)),
            merged(old(self).model(), old(self).state(), indices@, n, final(self).state()),
    {
        let ghost pre = self.state();
        let gone = self.marks(indices);
        let mut refs: Vec<&S::Segment> = Vec::new();
        let mut k: usize = 0;
        while k < indices.len()
            invariant
                k <= indices@.len(),
                forall|k: int|
                    0 <= k < indices@.len() ==> #[trigger] indices@[k] < self.segments@.len(),
                refs@.len() == k,
                forall|j: int|
                    0 <= j < k ==> *(#[trigger] refs@[j]) == *self.segments@[indices@[j] as int],
            decreases indices@.len() - k,
        {
            refs.push(&*self.segments[indices[k]]);
            k += 1;
        }
        let tombstones = &self.tombstones;
        let live = |id: &S::Id| -> (yes: bool)
            requires
                lawful_id::<S::Id>(),
            ensures
                yes == !tombstones@.contains(*id),
            { !tombstones.contains(id) };
        let out = self.store.merge_segments(refs.as_slice(), &live);
        proof {
            assert(decides::<S::Id, _>(live, self.tombstones@));
            assert(refs@.map_values(|s: &S::Segment| *s) =~= picked(pre.segments, indices@));
        }
        let n = self.store.segment_len(&out);
        let mut segments: Vec<Arc<S::Segment>> = Vec::new();
        let mut segment_ids: Vec<u64> = Vec::new();
        let mut i: usize = 0;
        assert(payloads(segments@) =~= without(pre.segments.take(0), indices@));
        assert(segment_ids@ =~= without(pre.ids.take(0), indices@));
        while i < self.segments.len()
            invariant
                i <= self.segments@.len(),
                self.segments@.len() == self.segment_ids@.len(),
                self.segments@.len() == gone@.len(),
                pre == self.state(),
                segments@.len() == segment_ids@.len(),
                forall|i: int|
                    0 <= i < gone@.len() ==> #[trigger] gone@[i] == indices@.contains(i as usize),
                payloads(segments@) == without(pre.segments.take(i as int), indices@),
                segment_ids@ == without(pre.ids.take(i as int), indices@),
            decreases self.segments@.len() - i,
        {
            proof {
                assert(pre.segments.take(i + 1).drop_last() =~= pre.segments.take(i as int));
                assert(pre.ids.take(i + 1).drop_last() =~= pre.ids.take(i as int));
                assert(gone@[i as int] == indices@.contains(i));
            }
            if !gone[i] {
                let ghost before = segments@;
                segments.push(self.segments[i].clone());
                segment_ids.push(self.segment_ids[i]);
                assert(payloads(segments@) =~= payloads(before).push(pre.segments[i as int]));
            }
            i += 1;
        }
        proof {
            assert(pre.segments.take(i as int) =~= pre.segments);
            assert(pre.ids.take(i as int) =~= pre.ids);
        }
        self.segments = segments;
        self.segment_ids = segment_ids;
        if n > 0 {
            let id = self.alloc_id();
            self.segments.push(Arc::new(out));
            self.segment_ids.push(id);
        }
        proof {
            let post = self.state();
            if n > 0 {
                assert(post.segments =~= without(pre.segments, indices@).push(out));
                assert(post =~= (State {
                    segments: without(pre.segments, indices@).push(out),
                    ids: without(pre.ids, indices@).push(pre.next_id),
                    next_id: (pre.next_id + 1) as u64,
                    ..pre
                }));
            } else {
                assert(post =~= (State {
                    segments: without(pre.segments, indices@),
                    ids: without(pre.ids, indices@),
                    ..pre
                }));
            }
            assert(merged_into(old(self).model(), pre, indices@, out, post));
        }
        n
    }

    /// Run all currently eligible size-tier merges, persisting being left to the
    /// caller: a checkpoint is owed if anything merged.
    ///
    /// Segments are grouped into size buckets (a band around a running average, with
    /// the flush threshold as a floor); a bucket with at least `min_merge` segments is
    /// merged (smallest first, up to `max_merge` at once, never exceeding
    /// `max_merged_len` items), dropping tombstoned ids from the merged output.
    /// Segments above half of `max_merged_len` are frozen out, so the largest segment
    /// is never rewritten here. The tombstone set is not purged (only
    /// [`Self::compact`] can); a tombstoned id surviving in a frozen segment stays
    /// filtered by [`Self::is_live`].
    pub fn compact_tiers(&mut self) -> (stats: CompactionStats)
        requires
            old(self).wf(),
            old(self).state().next_id + old(self).state().segments.len() < u64::MAX,
        ensures
            final(self).wf(),
            final(self).same_setup(old(self)),
            exists|mid: State<S>| #[trigger]
                sealed(old(self).model(), old(self).state(), mid) && tiers_compacted(
                    old(self).model(),
                    old(self).options().flush_threshold,
                    old(self).options().tiering,
                    mid,
                    stats,
                    final(self).state(),
                ),
    {
        let ghost store = self.model();
        let ghost floor = self.options().flush_threshold;
        let ghost cfg = self.options().tiering;
        self.flush_buffer();
        let ghost mid = self.state();
        let before = self.segments.len();
        let mut merges: usize = 0;
        let mut items_merged: usize = 0;
        let ghost mut items: nat = 0;
        let mut next = self.next_merge_group();
        while next.is_some()
            invariant
                self.aligned(),
                self.state().buffer.len() == 0,
                self.same_setup(old(self)),
                store == old(self).model(),
                floor == old(self).options().flush_threshold,
                cfg == old(self).options().tiering,
                before == mid.segments.len(),
                tier_merged(store, floor, cfg, mid, merges as nat, items, self.state()),
                items_merged == capped(items),
                merges + self.state().segments.len() <= before,
                self.state().next_id + self.state().segments.len() <= u64::MAX + 1,
                match (next, self.eligible_group()) {
                    (Some(g), Some(picks)) => g@ == picks,
                    (None, None) => true,
                    _ => false,
                },
            decreases self.state().segments.len(),
        {
            let group = next.unwrap();
            let ghost here = self.state();
            proof {
                let sizes = sizes_of(store, here.segments);
                assert(self.segments.len() == self.segments@.len());
                crate::tiers::merge_choice_keeps_limits(sizes, floor, cfg);
                assert forall|k: int| 0 <= k < group@.len() implies #[trigger] group@[k]
                    < self.segments@.len() by {}
                without_len(here.segments, group@);
            }
            let n = self.merge_group(&group);
            items_merged = items_merged.saturating_add(n);
            merges = merges + 1;
            proof {
                assert(merged(
                    store,
                    here,
                    tier_group(store, floor, cfg, here)->0,
                    n,
                    self.state(),
                ));
                items = items + n as nat;
                assert(tier_merged(store, floor, cfg, mid, merges as nat, items, self.state()));
            }
            next = self.next_merge_group();
        }
        let stats = CompactionStats {
            merges,
            segments_before: before,
            segments_after: self.segments.len(),
            items_merged,
        };
        assert(tier_merged(store, floor, cfg, mid, stats.merges as nat, items, self.state()));
        assert(tiers_compacted(store, floor, cfg, mid, stats, self.state()));
        stats
    }

    /// The positions of all segments.
    fn all_positions(&self) -> (all: Vec<usize>)
        ensures
            all@ == positions(self.state().segments.len()),
            forall|k: int| 0 <= k < all@.len() ==> #[trigger] all@[k] < self.segments@.len(),
    {
        let mut all: Vec<usize> = Vec::new();
        let mut i: usize = 0;
        while i < self.segments.len()
            invariant
                i <= self.segments@.len(),
                all@ =~= positions(i as nat),
            decreases self.segments@.len() - i,
        {
            all.push(i);
            i += 1;
        }
        all
    }

    /// Merge all segments into one, dropping tombstoned ids and purging the tombstone
    /// set; a checkpoint is owed. This is the full compaction; it is the only path
    /// that touches frozen (over-cap) segments and the only one that purges
    /// tombstones (a partial tier merge cannot, since a tombstoned id may live in a
    /// segment it did not merge).
    pub fn compact(&mut self) -> (stats: CompactionStats)
        requires
            old(self).wf(),
            old(self).state().next_id + 1 < u64::MAX,
        ensures
            final(self).wf(),
            final(self).same_setup(old(self)),
            exists|mid: State<S>| #[trigger]
                sealed(old(self).model(), old(self).state(), mid) && compacted(
                    old(self).model(),
                    mid,
                    stats,
                    final(self).state(),
                ),
    {
        let ghost store = self.model();
        self.flush_buffer();
        let ghost mid = self.state();
        let before = self.segments.len();
        let mut merges: usize = 0;
        let mut items_merged: usize = 0;
        if before > 1 || (before == 1 && !self.tombstones.is_empty()) {
            let all = self.all_positions();
            items_merged = self.merge_group(&all);
            merges = 1;
        }
        let ghost here = self.state();
        self.tombstones.clear();
        let stats = CompactionStats {
            merges,
            segments_before: before,
            segments_after: self.segments.len(),
            items_merged,
        };
        proof {
            assert(self.state() =~= (State { tombstones: Set::empty(), ..here }));
            if merges == 1 {
                assert(merged(
                    store,
                    mid,
                    positions(mid.segments.len()),
                    stats.items_merged,
                    here,
                ));
            }
            assert(compacted(store, mid, stats, self.state()));
        }
        stats
    }

    /// Consolidate on demand: merge segments until at most `max_segments` remain,
    /// ignoring the size band, the per-bucket minimum, and the merged-size cap (this is
    /// explicit user intent, e.g. before a read-heavy phase, so it may produce a
    /// segment larger than `max_merged_len`). Merging to a single segment
    /// (`max_segments <= 1`) also purges the tombstone set, exactly like
    /// [`Self::compact`]; merging to more keeps the set (an id may live in a segment the
    /// call did not merge). Smallest segments are merged first to keep the work down. A
    /// no-op when already at or below `max_segments`, counting the segment that the
    /// buffer would become. Whether a checkpoint is owed then,
    /// [`CompactionStats::checkpoint_owed`] says.
    pub fn force_merge_to(&mut self, max_segments: usize) -> (stats: CompactionStats)
        requires
            old(self).wf(),
            max_segments <= 1 ==> old(self).state().next_id + 1 < u64::MAX,
            max_segments > 1 ==> old(self).state().next_id + old(self).state().segments.len()
                < u64::MAX,
        ensures
            final(self).wf(),
            final(self).same_setup(old(self)),
            max_segments <= 1 ==> exists|mid: State<S>| #[trigger]
                sealed(old(self).model(), old(self).state(), mid) && compacted(
                    old(self).model(),
                    mid,
                    stats,
                    final(self).state(),
                ),
            max_segments > 1 && sealed_count(old(self).state()) <= max_segments ==> idle(
                old(self).state(),
                stats,
                final(self).state(),
            ),
            max_segments > 1 && sealed_count(old(self).state()) > max_segments ==> exists|
                mid: State<S>,
            | #[trigger]
                sealed(old(self).model(), old(self).state(), mid) && force_merged(
                    old(self).model(),
                    old(self).options().tiering,
                    max_segments,
                    mid,
                    stats,
                    final(self).state(),
                ),
    {
        if max_segments <= 1 {
            return self.compact();
        }
        let count = self.segments.len();
        if count < max_segments || (count == max_segments && self.buffer.len() == 0) {
            return CompactionStats {
                merges: 0,
                segments_before: count,
                segments_after: count,
                items_merged: 0,
            };
        }
        let ghost store = self.model();
        let ghost cfg = self.options().tiering;
        self.flush_buffer();
        let ghost mid = self.state();
        let before = self.segments.len();
        let mut merges: usize = 0;
        let mut items_merged: usize = 0;
        let ghost mut items: nat = 0;
        while self.segments.len() > max_segments
            invariant
                max_segments > 1,
                self.aligned(),
                self.state().buffer.len() == 0,
                self.same_setup(old(self)),
                store == old(self).model(),
                cfg == old(self).options().tiering,
                before == mid.segments.len(),
                consolidated(store, cfg, max_segments, mid, merges as nat, items, self.state()),
                items_merged == capped(items),
                merges + self.state().segments.len() <= before,
                self.state().next_id + self.state().segments.len() <= u64::MAX + 1,
            decreases self.state().segments.len(),
        {
            let ghost here = self.state();
            let all = self.all_positions();
            let sizes = self.segment_sizes();
            let mut group = crate::order::order(all.as_slice(), sizes.as_slice());
            let over: usize = self.segments.len() - max_segments;
            let limit: usize = if self.options.tiering.max_merge < 2 {
                2
            } else {
                self.options.tiering.max_merge
            };
            let k: usize = if over + 1 < limit {
                over + 1
            } else {
                limit
            };
            let ghost sorted = group@;
            proof {
                assert(self.segments.len() == self.segments@.len());
                crate::order::ordered_positions(sizes@, here.segments.len());
            }
            group.truncate(k);
            proof {
                assert(group@ =~= consolidation_group(store, cfg, max_segments, here));
                assert forall|i: int| 0 <= i < group@.len() implies #[trigger] group@[i]
                    < self.segments@.len() by {
                    assert(sorted[i] < all@.len());
                }
                without_len(here.segments, group@);
            }
            let n = self.merge_group(&group);
            items_merged = items_merged.saturating_add(n);
            merges = merges + 1;
            proof {
                assert(merged(
                    store,
                    here,
                    consolidation_group(store, cfg, max_segments, here),
                    n,
                    self.state(),
                ));
                items = items + n as nat;
                assert(consolidated(
                    store,
                    cfg,
                    max_segments,
                    mid,
                    merges as nat,
                    items,
                    self.state(),
                ));
            }
        }
        let stats = CompactionStats {
            merges,
            segments_before: before,
            segments_after: self.segments.len(),
            items_merged,
        };
        assert(consolidated(
            store,
            cfg,
            max_segments,
            mid,
            stats.merges as nat,
            items,
            self.state(),
        ));
        assert(force_merged(store, cfg, max_segments, mid, stats, self.state()));
        stats
    }

    /// The number of live items of a segment, if the consumer counts them.
    fn live_count(&self, segment: &S::Segment) -> (n: Option<usize>)
        requires
            lawful_id::<S::Id>(),
        ensures
            n == self.model().live_of(*segment, self.state().tombstones),
    {
        let tombstones = &self.tombstones;
        let live = |id: &S::Id| -> (yes: bool)
            requires
                lawful_id::<S::Id>(),
            ensures
                yes == !tombstones@.contains(*id),
            { !tombstones.contains(id) };
        let n = self.store.live_len(segment, &live);
        assert(decides::<S::Id, _>(live, self.tombstones@));
        n
    }

    /// Merge the segments whose live share is too low, reclaiming their dead
    /// (tombstoned) entries into one fresh segment. `below` judges a segment by its
    /// live count and its item count. The cheap alternative to [`Self::compact`] when
    /// only a few segments are tombstone-heavy. Requires [`Store::live_len`]; a no-op if
    /// that returns `None` or nothing qualifies, neither a segment nor what the buffer
    /// would become. Keeps the tombstone set (a reclaimed id
    /// may still live in a segment this did not touch). Whether a checkpoint is owed
    /// then, [`CompactionStats::checkpoint_owed`] says.
    pub fn reclaim_tombstones<G: Fn(usize, usize) -> bool>(&mut self, below: &G) -> (stats:
        CompactionStats)
        requires
            old(self).wf(),
            old(self).state().next_id + 1 < u64::MAX,
            forall|live: usize, total: usize| #[trigger] (*below).requires((live, total)),
        ensures
            final(self).wf(),
            final(self).same_setup(old(self)),
            forall|low: spec_fn(usize, usize) -> bool| #[trigger]
                judges(*below, low) ==> reclamation(
                    old(self).model(),
                    low,
                    old(self).state(),
                    stats,
                    final(self).state(),
                ),
            (idle(old(self).state(), stats, final(self).state()) && (!counts_live(
                old(self).model(),
                old(self).state(),
            ) || exists|mid: State<S>| #[trigger]
                sealed(old(self).model(), old(self).state(), mid) && nothing_to_reclaim(
                    old(self).model(),
                    *below,
                    mid,
                ))) || exists|mid: State<S>, picks: Seq<usize>|
                sealed(old(self).model(), old(self).state(), mid) && #[trigger] merged_some(
                    old(self).model(),
                    *below,
                    mid,
                    picks,
                    stats,
                    final(self).state(),
                ),
    {
        let ghost store = self.model();
        let ghost pre = self.state();
        let before = self.segments.len();
        let mut targets: Vec<usize> = Vec::new();
        let mut i: usize = 0;
        proof {
            assert forall|low: spec_fn(usize, usize) -> bool| #[trigger] judges(
                *below,
                low,
            ) implies targets@ == sparse_to(store, low, pre, 0) by {
                reveal(Seq::filter);
                assert(positions(pre.segments.len()).take(0).filter(is_sparse(store, low, pre))
                    =~= targets@);
            }
        }
        while i < before
            invariant
                *self == *old(self),
                self.wf(),
                self.state() == pre,
                store == self.model(),
                before == pre.segments.len(),
                before == self.segments@.len(),
                i <= before,
                forall|live: usize, total: usize| #[trigger] (*below).requires((live, total)),
                all_judged(store, *below, pre, i as int, targets@),
                forall|k: int|
                    0 <= k < i && store.len_of(pre.segments[k]) > 0 ==> store.live_of(
                        #[trigger] pre.segments[k],
                        pre.tombstones,
                    ) is Some,
                forall|low: spec_fn(usize, usize) -> bool| #[trigger]
                    judges(*below, low) ==> targets@ == sparse_to(store, low, pre, i as int),
            decreases before - i,
        {
            let total = self.store.segment_len(&*self.segments[i]);
            let mut qualifies = false;
            if total > 0 {
                match self.live_count(&*self.segments[i]) {
                    Some(live) => {
                        qualifies = below(live, total);
                    },
                    None => {
                        proof {
                            assert(store.live_of(pre.segments[i as int], pre.tombstones) is None);
                            assert(!counts_live(store, pre));
                        }
                        return CompactionStats {
                            merges: 0,
                            segments_before: before,
                            segments_after: before,
                            items_merged: 0,
                        };
                    },
                }
            }
            proof {
                assert forall|low: spec_fn(usize, usize) -> bool| #[trigger] judges(
                    *below,
                    low,
                ) implies sparse_to(store, low, pre, i + 1) == if qualifies {
                    sparse_to(store, low, pre, i as int).push(i)
                } else {
                    sparse_to(store, low, pre, i as int)
                } by {
                    sparse_to_step(store, low, pre, i);
                }
            }
            let ghost earlier = targets@;
            if qualifies {
                targets.push(i);
            }
            proof {
                assert(total > 0 ==> judged(store, *below, pre, i as int, qualifies));
                one_more_judged(store, *below, pre, i, earlier, qualifies);
            }
            i += 1;
        }
        proof {
            assert(counts_live(store, pre));
            assert forall|low: spec_fn(usize, usize) -> bool| #[trigger] judges(
                *below,
                low,
            ) implies targets@ == sparse(store, low, pre) by {
                let all = positions(pre.segments.len());
                assert(all.take(i as int) =~= all);
            }
        }
        let ghost first = targets@;
        if self.buffer.len() > 0 {
            let segment = self.store.build_segment(self.buffer.as_slice());
            let total = self.store.segment_len(&segment);
            let mut qualifies = false;
            let ghost mid = State {
                buffer: Seq::empty(),
                segments: pre.segments.push(segment),
                ids: pre.ids.push(pre.next_id),
                next_id: (pre.next_id + 1) as u64,
                ..pre
            };
            proof {
                assert(mid.segments.last() == segment);
                assert(sealed(store, pre, mid));
                assert(mid.segments[before as int] == segment);
            }
            if total > 0 {
                match self.live_count(&segment) {
                    Some(live) => {
                        qualifies = below(live, total);
                    },
                    None => {
                        assert(!counts_live(store, mid));
                        assert(nothing_to_reclaim(store, *below, mid));
                        return CompactionStats {
                            merges: 0,
                            segments_before: before,
                            segments_after: before,
                            items_merged: 0,
                        };
                    },
                }
            }
            proof {
                assert(self.segments.len() == self.segments@.len());
                assert forall|k: int|
                    0 <= k < mid.segments.len() && store.len_of(mid.segments[k]) > 0 implies store.live_of(
                    #[trigger] mid.segments[k],
                    mid.tombstones,
                ) is Some by {
                    if k < before {
                        assert(mid.segments[k] == pre.segments[k]);
                    }
                }
                assert forall|low: spec_fn(usize, usize) -> bool| #[trigger] judges(
                    *below,
                    low,
                ) implies sparse(store, low, mid) == if qualifies {
                    first.push(before)
                } else {
                    first
                } by {
                    sparse_to_agrees(store, low, pre, mid, before as int);
                    sparse_to_step(store, low, mid, before);
                    let all = positions(mid.segments.len());
                    assert(all.take(before + 1) =~= all);
                    assert(positions(pre.segments.len()).take(before as int) =~= positions(
                        pre.segments.len(),
                    ));
                }
            }
            if qualifies {
                targets.push(before);
            }
            proof {
                assert(total > 0 ==> judged(store, *below, mid, before as int, qualifies));
                judged_alike(store, *below, pre, mid, before as int, first);
                one_more_judged(store, *below, mid, before, first, qualifies);
                assert(counts_live(store, mid));
                if targets@.len() == 0 {
                    assert(targets@ =~= Seq::<usize>::empty());
                    assert(nothing_to_reclaim(store, *below, mid));
                }
            }
            if targets.len() == 0 {
                return CompactionStats {
                    merges: 0,
                    segments_before: before,
                    segments_after: before,
                    items_merged: 0,
                };
            }
            self.seal(segment);
            proof {
                assert(self.state() == mid);
            }
        } else {
            assert(sealed(store, pre, pre));
            proof {
                if targets@.len() == 0 {
                    assert(targets@ =~= Seq::<usize>::empty());
                    assert(nothing_to_reclaim(store, *below, pre));
                }
            }
            if targets.len() == 0 {
                return CompactionStats {
                    merges: 0,
                    segments_before: before,
                    segments_after: before,
                    items_merged: 0,
                };
            }
        }
        let ghost mid = self.state();
        let count = self.segments.len();
        assert forall|i: int, j: int|
            0 <= i < targets@.len() && 0 <= j < targets@.len() && i != j implies targets@[i]
            != targets@[j] by {
            let low = if i < j { i } else { j };
            let high = if i < j { j } else { i };
            assert(targets@[low] < targets@[high]);
        }
        assert forall|k: int| 0 <= k < targets@.len() implies #[trigger] targets@[k]
            < mid.segments.len() && found_sparse(store, *below, mid, targets@[k]) by {
            assert(targets@.contains(targets@[k]));
            let segment = mid.segments[targets@[k] as int];
            assert(judged(store, *below, mid, targets@[k] as int, true));
        }
        let items_merged = self.merge_group(&targets);
        let stats = CompactionStats {
            merges: 1,
            segments_before: count,
            segments_after: self.segments.len(),
            items_merged,
        };
        proof {
            assert(sealed(store, pre, mid));
            assert(merged_some(store, *below, mid, targets@, stats, self.state()));
            assert forall|low: spec_fn(usize, usize) -> bool| #[trigger] judges(
                *below,
                low,
            ) implies reclamation(store, low, pre, stats, self.state()) by {
                assert(sparse(store, low, mid) == targets@);
                assert(counts_live(store, mid));
                assert(reclaimed(store, low, mid, stats, self.state()));
            }
        }
        stats
    }

    /// Total items physically stored across segments and the buffer. This counts
    /// tombstoned-but-not-yet-purged items; pair with [`Self::tombstone_count`] to
    /// gauge space amplification.
    pub fn stored_len(&self) -> (n: usize)
        requires
            total_of(sizes_of(self.model(), self.state().segments))
                + self.state().buffer.len() <= usize::MAX,
        ensures
            n == total_of(sizes_of(self.model(), self.state().segments))
                + self.state().buffer.len(),
    {
        let ghost sizes = sizes_of(self.model(), self.state().segments);
        let mut n: usize = 0;
        let mut i: usize = 0;
        while i < self.segments.len()
            invariant
                i <= self.segments@.len(),
                sizes == sizes_of(self.model(), self.state().segments),
                total_of(sizes) <= usize::MAX,
                n == total_of(sizes.take(i as int)),
            decreases self.segments@.len() - i,
        {
            proof {
                assert(sizes.take(i + 1).drop_last() =~= sizes.take(i as int));
                total_of_grows(sizes, i + 1);
            }
            n = n + self.store.segment_len(&*self.segments[i]);
            i += 1;
        }
        assert(sizes.take(i as int) =~= sizes);
        n + self.buffer.len()
    }

    /// Stored items and live items, or `None` if the consumer does not count the live
    /// items of some segment. Space amplification is the first over the second: near
    /// one means little dead data, higher means tombstoned items are accumulating,
    /// reclaimable with [`Self::reclaim_tombstones`] or [`Self::compact`].
    pub fn space_amplification(&self) -> (counts: Option<(u128, u128)>)
        requires
            self.wf(),
        ensures
            ({
                let lives = live_sizes_of(
                    self.model(),
                    self.state().segments,
                    self.state().tombstones,
                );
                let buffered = self.state().buffer.len();
                if all_counted(lives) {
                    counts matches Some((stored, live)) && stored == total_of(
                        sizes_of(self.model(), self.state().segments),
                    ) + buffered && live == total_of(
                        lives.map_values(|n: Option<usize>| n->0),
                    ) + buffered
                } else {
                    counts is None
                }
            }),
    {
        let ghost sizes = sizes_of(self.model(), self.state().segments);
        let ghost lives = live_sizes_of(
            self.model(),
            self.state().segments,
            self.state().tombstones,
        );
        let ghost numbers = lives.map_values(|n: Option<usize>| n->0);
        let mut stored: u128 = 0;
        let mut live: u128 = 0;
        let mut i: usize = 0;
        while i < self.segments.len()
            invariant
                self.wf(),
                i <= self.segments@.len(),
                sizes == sizes_of(self.model(), self.state().segments),
                lives == live_sizes_of(
                    self.model(),
                    self.state().segments,
                    self.state().tombstones,
                ),
                numbers == lives.map_values(|n: Option<usize>| n->0),
                forall|k: int| 0 <= k < i ==> #[trigger] lives[k] is Some,
                stored == total_of(sizes.take(i as int)),
                live == total_of(numbers.take(i as int)),
            decreases self.segments@.len() - i,
        {
            proof {
                assert(self.segments.len() == self.segments@.len());
                assert(sizes.take(i + 1).drop_last() =~= sizes.take(i as int));
                assert(numbers.take(i + 1).drop_last() =~= numbers.take(i as int));
                total_of_bounded(sizes.take(i as int));
                total_of_bounded(numbers.take(i as int));
                wide_sum_fits(i as nat);
            }
            let here: usize = match self.live_count(&*self.segments[i]) {
                Some(n) => n,
                None => {
                    assert(lives[i as int] is None);
                    return None;
                },
            };
            assert(lives[i as int] == Some(here));
            stored = stored + self.store.segment_len(&*self.segments[i]) as u128;
            live = live + here as u128;
            i += 1;
        }
        proof {
            assert(self.segments.len() == self.segments@.len());
            assert(sizes.take(i as int) =~= sizes);
            assert(numbers.take(i as int) =~= numbers);
            total_of_bounded(sizes);
            total_of_bounded(numbers);
            wide_sum_fits(i as nat);
        }
        Some((stored + self.buffer.len() as u128, live + self.buffer.len() as u128))
    }

    /// Like [`Self::open`], but with full [`Options`] (per-write durability,
    /// size-tiered compaction tuning, auto-compaction).
    ///
    /// [`SyncPolicy::Fsync`] requires a directory backed by a file system; opening with
    /// it on any other returns an error rather than silently degrading to a flush.
    pub fn open_with_options(
        store: S,
        options: Options<B>,
        probe: &DirectoryProbe,
        checkpoint: Option<Checkpoint<S>>,
        log: Vec<Op<S::Id, S::Item>>,
    ) -> (result: PersistenceResult<Self>)
        requires
            lawful_id::<S::Id>(),
            recovered_base(checkpoint).next_id + log@.len() < u64::MAX,
        ensures
            openable(options.sync, *probe) ==> (result matches Ok(opened) && opened.wf()
                && opened.model() == store && opened.options() == options && replayed(
                store,
                options.flush_threshold,
                recovered_base(checkpoint),
                log@,
                opened.state(),
            )),
            !openable(options.sync, *probe) ==> open_fault(options.sync, *probe, result),
    {
        match check_directory(options.sync, probe) {
            Ok(()) => {},
            Err(e) => {
                return Err(e);
            },
        }
        let ghost floor = options.flush_threshold;
        let ghost base = recovered_base(checkpoint);
        let mut opened = Self::at_checkpoint(store, options, checkpoint);
        let ghost ops = log@;
        assert(ops.take(0) =~= Seq::empty());
        for op in it: log
            invariant
                it.seq() == ops,
                opened.wf(),
                opened.model() == store,
                opened.options() == options,
                floor == options.flush_threshold,
                opened.state().next_id + (ops.len() - it.index()) < u64::MAX,
                replayed(store, floor, base, ops.take(it.index()), opened.state()),
                it.index() == it.seq().len() ==> replayed(
                    store,
                    floor,
                    base,
                    ops,
                    opened.state(),
                ),
        {
            let ghost here = opened.state();
            opened.perform(op);
            proof {
                let k = it.index();
                assert(ops.take(k + 1).drop_last() =~= ops.take(k));
                assert(performed(store, floor, here, ops.take(k + 1).last(), opened.state()));
                assert(k + 1 == ops.len() ==> ops.take(k + 1) =~= ops);
            }
        }
        Ok(opened)
    }

    /// The store that a checkpoint describes, before any log is replayed.
    fn at_checkpoint(store: S, options: Options<B>, checkpoint: Option<Checkpoint<S>>) -> (opened:
        Self)
        requires
            lawful_id::<S::Id>(),
        ensures
            opened.wf(),
            opened.model() == store,
            opened.options() == options,
            opened.state() == recovered_base(checkpoint),
    {
        let mut segments: Vec<Arc<S::Segment>> = Vec::new();
        let mut segment_ids: Vec<u64> = Vec::new();
        let mut tombstones: HashSet<S::Id> = HashSet::new();
        let mut epoch: u64 = 0;
        let mut next_seg_id: u64 = 0;
        let ghost base = recovered_base(checkpoint);
        if let Some(found) = checkpoint {
            epoch = found.epoch;
            next_seg_id = found.next_seg_id;
            tombstones = collect_ids(found.tombstones);
            let ghost all = found.segments@;
            assert(payloads(segments@) =~= all.take(0).map_values(
                |p: (u64, S::Segment)| p.1,
            ));
            assert(segment_ids@ =~= all.take(0).map_values(|p: (u64, S::Segment)| p.0));
            for pair in it: found.segments
                invariant
                    it.seq() == all,
                    segments@.len() == segment_ids@.len(),
                    payloads(segments@) == all.take(it.index()).map_values(
                        |p: (u64, S::Segment)| p.1,
                    ),
                    segment_ids@ == all.take(it.index()).map_values(
                        |p: (u64, S::Segment)| p.0,
                    ),
                    it.index() == it.seq().len() ==> payloads(segments@) == all.map_values(
                        |p: (u64, S::Segment)| p.1,
                    ) && segment_ids@ == all.map_values(|p: (u64, S::Segment)| p.0),
            {
                let ghost before = segments@;
                segments.push(Arc::new(pair.1));
                segment_ids.push(pair.0);
                proof {
                    let k = it.index();
                    assert(all.take(k + 1) =~= all.take(k).push(pair));
                    assert(payloads(segments@) =~= payloads(before).push(pair.1));
                    assert(payloads(segments@) =~= all.take(k + 1).map_values(
                        |p: (u64, S::Segment)| p.1,
                    ));
                    assert(segment_ids@ =~= all.take(k + 1).map_values(
                        |p: (u64, S::Segment)| p.0,
                    ));
                    assert(k + 1 == all.len() ==> all.take(k + 1) =~= all);
                }
            }
        }
        let published = crate::view::View::of(&segments, &segment_ids, &tombstones);
        let persisted_ids = collect_ids(crate::state::copy_numbers(&segment_ids));
        let opened = SegmentedStore {
            store,
            buffer: Vec::new(),
            segments,
            segment_ids,
            tombstones,
            next_seg_id,
            epoch,
            persisted_ids,
            published,
            options,
        };
        assert(opened.state() =~= base);
        opened
    }

    /// What a checkpoint has to do next: write the first segment whose file is not
    /// known to be on disk, or else the manifest.
    pub open spec fn owed(&self) -> CheckpointAction {
        let st = self.state();
        let at = unwritten_from(st, 0);
        if at < st.ids.len() {
            CheckpointAction::WriteSegment { index: at as usize, id: st.ids[at as int] }
        } else {
            CheckpointAction::WriteManifest { epoch: (st.epoch + 1) as u64 }
        }
    }

    /// Snapshot the current segments and tombstones durably, then rotate the log, one
    /// write at a time: tell what has happened, and get told what to do next.
    ///
    /// [`CheckpointEvent::Begin`] seals the buffer. Every segment that is not on disk
    /// yet has to be written, durably, to its own file before the manifest names it,
    /// so a crash leaves at worst a file that no manifest refers to. Writing the
    /// manifest is the commit point: it records the new epoch, so once it is durable,
    /// recovery replays only the new (initially empty) log. The old log and the files
    /// that the manifest no longer names are garbage then.
    pub fn checkpoint(&mut self, event: CheckpointEvent) -> (action: CheckpointAction)
        requires
            old(self).wf(),
            old(self).state().buffer.len() > 0 ==> old(self).state().next_id < u64::MAX,
            old(self).state().epoch < u64::MAX,
        ensures
            final(self).wf(),
            final(self).same_setup(old(self)),
            match event {
                CheckpointEvent::Begin => sealed(
                    old(self).model(),
                    old(self).state(),
                    final(self).state(),
                ) && action == final(self).owed(),
                CheckpointEvent::SegmentWritten(id) => final(self).state() == (State {
                    persisted: old(self).state().persisted.insert(id),
                    ..old(self).state()
                }) && action == final(self).owed(),
                CheckpointEvent::ManifestWritten => if committable(old(self).state()) {
                    final(self).state() == committed(old(self).state()) && action
                        == (CheckpointAction::Done { retired_epoch: old(self).state().epoch })
                } else {
                    final(self).state() == old(self).state() && action == final(self).owed()
                },
            },
    {
        match event {
            CheckpointEvent::Begin => {
                self.flush_buffer();
                self.next_write()
            },
            CheckpointEvent::SegmentWritten(id) => {
                self.persisted_ids.insert(id);
                assert(self.state() =~= (State {
                    persisted: old(self).state().persisted.insert(id),
                    ..old(self).state()
                }));
                self.next_write()
            },
            CheckpointEvent::ManifestWritten => {
                let owed = self.next_write();
                let everything_written = match owed {
                    CheckpointAction::WriteManifest { .. } => true,
                    _ => false,
                };
                if everything_written && self.buffer.len() == 0 {
                    let retired_epoch = self.epoch;
                    self.epoch = self.epoch + 1;
                    self.forget_superseded();
                    self.republish();
                    assert(self.state() =~= committed(old(self).state()));
                    assert(self.buffer@ == self.state().buffer);
                    CheckpointAction::Done { retired_epoch }
                } else {
                    owed
                }
            },
        }
    }

    /// What a checkpoint has to do next.
    fn next_write(&self) -> (action: CheckpointAction)
        requires
            self.aligned(),
            self.state().epoch < u64::MAX,
        ensures
            action == self.owed(),
            action is WriteManifest <==> unwritten_from(self.state(), 0)
                == self.state().ids.len(),
            !(action is Done),
    {
        let mut i: usize = 0;
        while i < self.segment_ids.len() && self.persisted_ids.contains(&self.segment_ids[i])
            invariant
                i <= self.segment_ids@.len(),
                unwritten_from(self.state(), 0) == unwritten_from(self.state(), i as nat),
            decreases self.segment_ids@.len() - i,
        {
            i += 1;
        }
        if i < self.segment_ids.len() {
            CheckpointAction::WriteSegment { index: i, id: self.segment_ids[i] }
        } else {
            CheckpointAction::WriteManifest { epoch: self.epoch + 1 }
        }
    }

    /// Forget the files that the manifest no longer names.
    fn forget_superseded(&mut self)
        requires
            old(self).aligned(),
        ensures
            final(self).state() == (State {
                persisted: old(self).state().persisted.filter(
                    |id: u64| old(self).state().ids.contains(id),
                ),
                ..old(self).state()
            }),
            final(self).same_setup(old(self)),
            final(self).aligned(),
    {
        let mut kept: HashSet<u64> = HashSet::new();
        let mut i: usize = 0;
        while i < self.segment_ids.len()
            invariant
                i <= self.segment_ids@.len(),
                *self == *old(self),
                forall|id: u64| #[trigger]
                    kept@.contains(id) <==> self.persisted_ids@.contains(id)
                        && self.segment_ids@.take(i as int).contains(id),
            decreases self.segment_ids@.len() - i,
        {
            let id = self.segment_ids[i];
            let ghost before = kept@;
            if self.persisted_ids.contains(&id) {
                kept.insert(id);
            }
            proof {
                let head = self.segment_ids@.take(i as int);
                let more = self.segment_ids@.take(i + 1);
                assert(more =~= head.push(id));
                assert forall|x: u64| #[trigger] kept@.contains(x) <==> self.persisted_ids@.contains(
                    x,
                ) && more.contains(x) by {
                    if head.contains(x) {
                        let j = choose|j: int| 0 <= j < head.len() && head[j] == x;
                        assert(more[j] == x);
                    }
                    if more.contains(x) && x != id {
                        let j = choose|j: int| 0 <= j < more.len() && more[j] == x;
                        assert(head[j] == x);
                    }
                    assert(more[i as int] == id);
                    assert(before.contains(x) ==> kept@.contains(x));
                }
            }
            i += 1;
        }
        assert(self.segment_ids@.take(i as int) =~= self.segment_ids@);
        let ghost wanted = old(self).state().persisted.filter(
            |id: u64| old(self).state().ids.contains(id),
        );
        assert(kept@ =~= wanted);
        self.persisted_ids = kept;
        assert(self.state() =~= (State { persisted: wanted, ..old(self).state() }));
    }

    /// Rebuild the published snapshot from the current segments and tombstones. Called
    /// only at the commit point. Segments are shared, not copied.
    fn republish(&mut self)
        requires
            old(self).aligned(),
        ensures
            final(self).state() == (State {
                published: snapshot_of(old(self).state()),
                ..old(self).state()
            }),
            final(self).same_setup(old(self)),
            final(self).aligned(),
    {
        self.published = crate::view::View::of(
            &self.segments,
            &self.segment_ids,
            &self.tombstones,
        );
    }

    /// What the manifest has to hold.
    pub fn manifest(&self) -> (manifest: ManifestRef<'_, S::Id>)
        ensures
            manifest.next_seg_id == self.state().next_id,
            manifest.segment_ids@ == self.state().ids,
            manifest.tombstones@ == self.state().tombstones,
    {
        ManifestRef {
            next_seg_id: self.next_seg_id,
            segment_ids: self.segment_ids.as_slice(),
            tombstones: &self.tombstones,
        }
    }

    /// The files to delete after a checkpoint, among all those found: the retired log,
    /// and the files and sidecars of segments that the manifest does not name. Safe
    /// only once the manifest is durable; a crash midway just leaves orphans that the
    /// next open takes.
    pub fn gc_orphan_segments(&self, names: &[String], retired_epoch: u64) -> (garbage: Vec<String>)
        ensures
            garbage@.len() > 0,
            garbage@[0]@ == wal_name(retired_epoch),
            garbage@.skip(1) == names@.filter(
                |n: String| is_orphan(n@, self.state().ids.to_set()),
            ),
    {
        let keep = collect_ids(crate::state::copy_numbers(&self.segment_ids));
        let mut garbage: Vec<String> = Vec::new();
        garbage.push(wal_path(retired_epoch));
        let mut found = orphans(names, &keep);
        let ghost rest = found@;
        garbage.append(&mut found);
        assert(garbage@.skip(1) =~= rest);
        garbage
    }

    /// The files to delete on open, among all those found: what a crash left behind.
    pub fn gc_leftovers(&self, names: &[String]) -> (garbage: Vec<String>)
        ensures
            garbage@ == names@.filter(
                |n: String| is_leftover(n@, self.state().epoch, self.state().persisted),
            ),
    {
        leftovers(names, self.epoch, &self.persisted_ids)
    }

    /// What readers see: the state as of the last checkpoint.
    pub fn published(&self) -> (view: crate::view::View<S>)
        ensures
            view.shows() == self.state().published,
    {
        self.published.again()
    }

    /// The sync policy that the store was opened with.
    pub fn sync_policy(&self) -> (sync: SyncPolicy)
        ensures
            sync == self.options().sync,
    {
        self.options.sync
    }

    /// The current log generation.
    pub fn epoch(&self) -> (epoch: u64)
        ensures
            epoch == self.state().epoch,
    {
        self.epoch
    }

    /// The id that the next segment gets.
    pub fn next_segment_id(&self) -> (id: u64)
        ensures
            id == self.state().next_id,
    {
        self.next_seg_id
    }

    /// The immutable segments, oldest first. Query these plus [`Self::buffer`],
    /// filtering with [`Self::is_live`]. Segments are shared: an unchanged segment
    /// keeps its identity across mutations, so a consumer can cache per-segment state
    /// and rebuild only new segments. For a cache key that also survives a restart,
    /// use [`Self::segment_ids`].
    pub fn segments(&self) -> (segments: &[Arc<S::Segment>])
        ensures
            payloads(segments@) == self.state().segments,
            segments@.len() == self.state().segments.len(),
            forall|i: int|
                0 <= i < segments@.len() ==> *(#[trigger] segments@[i])
                    == self.state().segments[i],
    {
        self.segments.as_slice()
    }

    /// The stable persistence id of each segment in [`Self::segments`], same order. It
    /// names the segment's file and is stable across checkpoints and restarts. An id is
    /// never reused after its segment is compacted away.
    pub fn segment_ids(&self) -> (ids: &[u64])
        ensures
            ids@ == self.state().ids,
    {
        self.segment_ids.as_slice()
    }

    /// The reserved sidecar file name for a per-segment index of the given `kind`
    /// (e.g. `"hnsw"`), keyed by a stable [`Self::segment_ids`] id.
    pub fn try_index_name(&self, id: u64, kind: &str) -> (result: PersistenceResult<String>)
        ensures
            match result {
                Ok(name) => valid_kind(kind@) && name@ == idx_name(id, kind@),
                Err(_) => !valid_kind(kind@) && crate::error::config_error(
                    result,
                    kind_complaint(kind@),
                ),
            },
    {
        crate::names::try_index_name(id, kind)
    }

    /// Infallible form of [`Self::try_index_name`] for a kind known to be valid.
    pub fn index_name(&self, id: u64, kind: &str) -> (name: String)
        requires
            valid_kind(kind@),
        ensures
            name@ == idx_name(id, kind@),
    {
        crate::names::index_name(id, kind)
    }

    /// Live adds not yet flushed into a segment.
    pub fn buffer(&self) -> (buffer: &[(S::Id, S::Item)])
        ensures
            buffer@ == self.state().buffer,
    {
        self.buffer.as_slice()
    }

    /// Whether `id` is not tombstoned.
    pub fn is_live(&self, id: &S::Id) -> (live: bool)
        requires
            self.wf(),
        ensures
            live == !self.state().tombstones.contains(*id),
    {
        !self.tombstones.contains(id)
    }

    /// Number of immutable segments.
    pub fn segment_count(&self) -> (n: usize)
        ensures
            n == self.state().segments.len(),
    {
        self.segments.len()
    }

    /// Number of tombstoned ids.
    pub fn tombstone_count(&self) -> (n: usize)
        requires
            self.wf(),
        ensures
            n == self.state().tombstones.len(),
    {
        self.tombstones.len()
    }
}

impl<S: Store> SegmentedStore<S, RatioBand> {
    /// Open (or create) a store, recovering prior state from what was read from its
    /// directory: the checkpoint, if there is one, and the operations of its log.
    ///
    /// `flush_threshold` is the buffered-add count that triggers a new segment.
    pub fn open(
        store: S,
        flush_threshold: usize,
        probe: &DirectoryProbe,
        checkpoint: Option<Checkpoint<S>>,
        log: Vec<Op<S::Id, S::Item>>,
    ) -> (result: PersistenceResult<Self>)
        requires
            lawful_id::<S::Id>(),
            recovered_base(checkpoint).next_id + log@.len() < u64::MAX,
        ensures
            readable_format(*probe) ==> (result matches Ok(opened) && opened.wf()
                && opened.model() == store && opened.options() == (Options {
                flush_threshold,
                sync: SyncPolicy::Flush,
                tiering: TierConfig {
                    min_merge: 4,
                    max_merge: 32,
                    band: RatioBand { low_num: 1, low_den: 2, high_num: 3, high_den: 2 },
                    max_merged_len: 10_000_000,
                },
                auto_compact: false,
            }) && replayed(
                store,
                flush_threshold,
                recovered_base(checkpoint),
                log@,
                opened.state(),
            )),
            !readable_format(*probe) ==> open_fault(SyncPolicy::Flush, *probe, result),
    {
        SegmentedStore::open_with_options(
            store,
            Options::new(flush_threshold),
            probe,
            checkpoint,
            log,
        )
    }
}

/// A batch of adds in the course of [`SegmentedStore::extend`].
#[derive(Debug, Clone, Copy)]
pub struct Batch {
    /// Whether any record of the batch has been logged.
    pub appended: bool,
}

impl Default for Batch {
    /// A batch that has not begun.
    fn default() -> (batch: Self)
        ensures
            batch == (Batch { appended: false }),
    {
        Batch { appended: false }
    }
}

/// What has to be done next in the course of a batch of adds.
#[derive(Debug, Clone, Copy, PartialEq, Eq, Structural)]
pub enum BatchAction {
    /// Log the next item, if there is one.
    LogNext,
    /// Sync the log, run [`SegmentedStore::compact_tiers`], then log the next item.
    SyncAndCompact,
    /// Sync the log; the batch is complete then.
    SyncAndFinish,
    /// The batch is complete, and there is nothing to sync.
    Finish,
}

/// What has happened in the course of a checkpoint.
#[derive(Debug, Clone, Copy)]
pub enum CheckpointEvent {
    /// A checkpoint is wanted.
    Begin,
    /// The file of the segment with this id is durable.
    SegmentWritten(u64),
    /// The manifest is durable.
    ManifestWritten,
}

/// What has to be done next in the course of a checkpoint.
#[derive(Debug, Clone, Copy, PartialEq, Eq, Structural)]
pub enum CheckpointAction {
    /// Write the segment at `index` to the file of segment `id`, durably.
    WriteSegment {
        /// The position of the segment.
        index: usize,
        /// The id that names its file.
        id: u64,
    },
    /// Write the manifest under the new epoch, durably.
    WriteManifest {
        /// The new epoch.
        epoch: u64,
    },
    /// The checkpoint is complete: start the log of the new epoch, and delete what is
    /// garbage now.
    Done {
        /// The epoch whose log is garbage.
        retired_epoch: u64,
    },
}

/// The checkpoint manifest as it has to be written.
pub struct ManifestRef<'a, Id> {
    /// The id that the next segment gets.
    pub next_seg_id: u64,
    /// The ids of the current segments, oldest first.
    pub segment_ids: &'a [u64],
    /// The tombstoned identities.
    pub tombstones: &'a HashSet<Id>,
}

/// A state that a manifest covers entirely: nothing is buffered, and the file of every
/// segment is on disk.
pub open spec fn committable<S: Store>(st: State<S>) -> bool {
    st.buffer.len() == 0 && unwritten_from(st, 0) == st.ids.len()
}

/// A checkpoint as read from a directory: the manifest, with the segment that each
/// named file holds.
pub struct Checkpoint<S: Store> {
    /// The log epoch that the manifest covers.
    pub epoch: u64,
    /// The id that the next segment gets.
    pub next_seg_id: u64,
    /// The named segments and what their files hold, oldest first.
    pub segments: Vec<(u64, S::Segment)>,
    /// The tombstoned identities.
    pub tombstones: Vec<S::Id>,
}

/// What readers see of a checkpoint.
pub open spec fn shown_by<S: Store>(checkpoint: Checkpoint<S>) -> Snapshot<S> {
    Snapshot {
        segments: checkpoint.segments@.map_values(|p: (u64, S::Segment)| p.1),
        ids: checkpoint.segments@.map_values(|p: (u64, S::Segment)| p.0),
        tombstones: checkpoint.tombstones@.to_set(),
    }
}

/// The state that recovery starts from: that of the checkpoint, or that of a store
/// without any history.
pub open spec fn recovered_base<S: Store>(checkpoint: Option<Checkpoint<S>>) -> State<S> {
    match checkpoint {
        Some(found) => checkpointed(found.epoch, found.next_seg_id, shown_by(found)),
        None => fresh(),
    }
}

/// What is said of a sync policy that the directory cannot honour.
pub open spec fn fsync_complaint() -> Seq<char> {
    "SyncPolicy::Fsync requires a filesystem-backed Directory"@
}

/// A directory that a store with this sync policy can be opened in.
pub open spec fn openable(sync: SyncPolicy, probe: DirectoryProbe) -> bool {
    (sync == SyncPolicy::Fsync ==> probe.file_backed) && readable_format(probe)
}

/// What opening a store in any other directory gives.
pub open spec fn open_fault<T>(
    sync: SyncPolicy,
    probe: DirectoryProbe,
    result: PersistenceResult<T>,
) -> bool {
    if sync == SyncPolicy::Fsync && !probe.file_backed {
        crate::error::config_error(result, fsync_complaint())
    } else if probe.legacy_wal {
        crate::error::config_error(result, crate::names::legacy_wal_complaint())
    } else {
        crate::error::config_error(result, crate::names::legacy_ckpt_complaint())
    }
}

/// Whether a store with this sync policy can be opened in a directory.
pub fn check_directory(sync: SyncPolicy, probe: &DirectoryProbe) -> (result: PersistenceResult<()>)
    ensures
        openable(sync, *probe) <==> result is Ok,
        !openable(sync, *probe) ==> open_fault(sync, *probe, result),
{
    if sync == SyncPolicy::Fsync && !probe.file_backed {
        return Err(
            PersistenceError::InvalidConfig(
                String::from_str("SyncPolicy::Fsync requires a filesystem-backed Directory"),
            ),
        );
    }
    reject_legacy_formats(probe)
}

/// The segment at a position has too few live items.
spec fn is_sparse<S: Store>(
    store: S,
    low: spec_fn(usize, usize) -> bool,
    st: State<S>,
) -> spec_fn(usize) -> bool {
    |i: usize|
        store.len_of(st.segments[i as int]) > 0 && low(
            store.live_of(st.segments[i as int], st.tombstones)->0,
            store.len_of(st.segments[i as int]),
        )
}

/// Those of the first `n` segments that have too few live items.
spec fn sparse_to<S: Store>(
    store: S,
    low: spec_fn(usize, usize) -> bool,
    st: State<S>,
    n: int,
) -> Seq<usize> {
    positions(st.segments.len()).take(n).filter(is_sparse(store, low, st))
}

/// Looking at one more segment adds it if it has too few live items.
proof fn sparse_to_step<S: Store>(
    store: S,
    low: spec_fn(usize, usize) -> bool,
    st: State<S>,
    i: usize,
)
    requires
        i < st.segments.len(),
    ensures
        sparse_to(store, low, st, i + 1) == if is_sparse(store, low, st)(i) {
            sparse_to(store, low, st, i as int).push(i)
        } else {
            sparse_to(store, low, st, i as int)
        },
{
    let all = positions(st.segments.len());
    assert(all.take(i + 1) =~= all.take(i as int).push(i));
    all.take(i as int).lemma_filter_push(i, is_sparse(store, low, st));
}

/// Judging one more segment adds it to the picks if it was found sparse.
proof fn one_more_judged<S: Store, G: Fn(usize, usize) -> bool>(
    store: S,
    below: G,
    st: State<S>,
    i: usize,
    picks: Seq<usize>,
    qualifies: bool,
)
    requires
        i < st.segments.len(),
        all_judged(store, below, st, i as int, picks),
        store.len_of(st.segments[i as int]) > 0 ==> judged(store, below, st, i as int, qualifies),
        qualifies ==> store.len_of(st.segments[i as int]) > 0,
    ensures
        all_judged(
            store,
            below,
            st,
            i + 1,
            if qualifies {
                picks.push(i)
            } else {
                picks
            },
        ),
{
    let more = if qualifies {
        picks.push(i)
    } else {
        picks
    };
    assert forall|k: int|
        0 <= k < i + 1 && store.len_of(#[trigger] st.segments[k]) > 0 implies judged(
        store,
        below,
        st,
        k,
        more.contains(k as usize),
    ) by {
        if k < i {
            assert(more.contains(k as usize) == picks.contains(k as usize)) by {
                if picks.contains(k as usize) {
                    let j = choose|j: int| 0 <= j < picks.len() && picks[j] == k as usize;
                    assert(more[j] == k as usize);
                }
                if more.contains(k as usize) {
                    let j = choose|j: int| 0 <= j < more.len() && more[j] == k as usize;
                    assert(picks[j] == k as usize);
                }
            }
        } else {
            if qualifies {
                assert(more[picks.len() as int] == i);
            } else if more.contains(i) {
                let j = choose|j: int| 0 <= j < picks.len() && picks[j] == i;
                assert(picks[j] < i);
            }
        }
    }
    assert forall|k: int| 0 <= k < more.len() implies #[trigger] more[k] < i + 1 && store.len_of(
        st.segments[more[k] as int],
    ) > 0 by {
        if k < picks.len() {
            assert(picks[k] < i);
        }
    }
    assert forall|j: int, k: int|
        #![trigger more[j], more[k]]
        0 <= j < k < more.len() implies more[j] < more[k] by {
        assert(picks[j] < i);
        if k < picks.len() {
            assert(picks[j] < picks[k]);
        }
    }
}

/// What was said of segments holds in every state that has them, under the same
/// tombstones.
proof fn judged_alike<S: Store, G: Fn(usize, usize) -> bool>(
    store: S,
    below: G,
    a: State<S>,
    b: State<S>,
    n: int,
    picks: Seq<usize>,
)
    requires
        all_judged(store, below, a, n, picks),
        0 <= n <= a.segments.len(),
        n <= b.segments.len(),
        a.tombstones == b.tombstones,
        forall|k: int| 0 <= k < n ==> #[trigger] a.segments[k] == b.segments[k],
    ensures
        all_judged(store, below, b, n, picks),
{
    assert forall|k: int|
        0 <= k < n && store.len_of(#[trigger] b.segments[k]) > 0 implies judged(
        store,
        below,
        b,
        k,
        picks.contains(k as usize),
    ) by {
        assert(a.segments[k] == b.segments[k]);
    }
    assert forall|k: int| 0 <= k < picks.len() implies #[trigger] picks[k] < n && store.len_of(
        b.segments[picks[k] as int],
    ) > 0 by {
        assert(a.segments[picks[k] as int] == b.segments[picks[k] as int]);
    }
}

/// Segments that are the same under the same tombstones are judged alike.
proof fn sparse_to_agrees<S: Store>(
    store: S,
    low: spec_fn(usize, usize) -> bool,
    a: State<S>,
    b: State<S>,
    n: int,
)
    requires
        0 <= n <= a.segments.len() <= usize::MAX,
        n <= b.segments.len(),
        a.tombstones == b.tombstones,
        forall|k: int| 0 <= k < n ==> #[trigger] a.segments[k] == b.segments[k],
    ensures
        sparse_to(store, low, a, n) == sparse_to(store, low, b, n),
    decreases n,
{
    if n == 0 {
        reveal(Seq::filter);
        assert(sparse_to(store, low, a, n) =~= sparse_to(store, low, b, n));
    } else {
        sparse_to_agrees(store, low, a, b, n - 1);
        sparse_to_step(store, low, a, (n - 1) as usize);
        sparse_to_step(store, low, b, (n - 1) as usize);
        assert(a.segments[n - 1] == b.segments[n - 1]);
    }
}

/// More sizes add up to no less.
proof fn total_of_grows(sizes: Seq<usize>, i: int)
    requires
        0 <= i <= sizes.len(),
    ensures
        total_of(sizes.take(i)) <= total_of(sizes),
    decreases sizes.len() - i,
{
    if i < sizes.len() {
        total_of_grows(sizes, i + 1);
        assert(sizes.take(i + 1).drop_last() =~= sizes.take(i));
    } else {
        assert(sizes.take(i) =~= sizes);
    }
}

/// Sizes add up to at most their number times the largest size.
proof fn total_of_bounded(sizes: Seq<usize>)
    ensures
        total_of(sizes) <= sizes.len() * usize::MAX,
    decreases sizes.len(),
{
    if sizes.len() > 0 {
        total_of_bounded(sizes.drop_last());
        assert((sizes.len() - 1) * usize::MAX + usize::MAX == sizes.len() * usize::MAX)
            by (nonlinear_arith);
    } else {
        assert(0 * usize::MAX == 0) by (nonlinear_arith);
    }
}

/// Two more sizes on top of as many as there can be still fit 128 bits.
proof fn wide_sum_fits(n: nat)
    requires
        n <= usize::MAX,
    ensures
        n * usize::MAX + usize::MAX + usize::MAX <= u128::MAX,
{
    assert(n * usize::MAX <= 0xffff_ffff_ffff_ffff * 0xffff_ffff_ffff_ffff) by (nonlinear_arith)
        requires
            n <= usize::MAX,
            usize::MAX <= 0xffff_ffff_ffff_ffff,
    ;
}

} // verus!
