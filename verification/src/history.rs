//! Whole runs of a writer: what reopening gives after any number of steps.
//!
//! A run is a list of steps, from the moment a store was opened to the moment at which
//! the writer stops, for whatever reason. A write that fails leaves the disk as it was,
//! so a run that stops at a failed write is a run without that step.

use crate::band::SizeBand;
use crate::config::{CompactionStats, TierConfig};
use crate::content::{
    adding_stores_the_entry, consolidating_merges_shrink, deleting_takes_the_identity_out,
    faithful, live, stored, tier_merges_shrink,
};
use crate::lineage::{
    compaction_descends, consolidation_descends, merging_descends, sealing_descends,
    tier_compaction_descends,
};
use crate::log::Op;
use crate::recovery::{
    a_disk_in_use_is_sound, backed, base_of, bookkeeping_survives, committing_is_mirrored,
    committing_keeps_backing, committing_keeps_bookkeeping, compaction_keeps_backing,
    consolidating_merges_keep_bookkeeping, consolidation_keeps_backing, definite,
    exact_backing_is_backing, log_of, logging_keeps_backing, logging_keeps_bookkeeping,
    logging_keeps_mirror, merging_keeps_backing, mirrored, on_disk, opening_is_backed,
    opening_is_mirrored, recovered_before, recovers, recovery_loses_nothing,
    replaying_keeps_bookkeeping, revives_alike, same, sealing_keeps_backing, sound,
    stray_files_keep_backing, stray_files_keep_bookkeeping, sweeping_keeps_backing,
    sweeping_keeps_bookkeeping, swept, tier_compaction_keeps_backing,
    tier_merges_keep_bookkeeping, unchanged_recovery_keeps_mirror, with_file, with_manifest,
    with_record, writing_a_segment_keeps_backing, writing_a_segment_keeps_bookkeeping, Disk,
};
use crate::segmented::committable;
use crate::state::{
    committed, compacted, consolidated, force_merged, merged, performed, replayed, sealed,
    tier_merged, tiers_compacted, State,
};
use crate::store::{DefaultStore, Store};
use vstd::multiset::Multiset;
use vstd::prelude::*;

verus! {

/// A writer at one moment: what is on its disk, and its state.
#[verifier::ext_equal]
#[verifier::reject_recursive_types(S)]
pub struct Moment<S: Store> {
    pub disk: Disk<S>,
    pub st: State<S>,
}

/// What a writer does to its disk and to its state.
///
/// An add is acknowledged, and a delete is. A checkpoint is a seal, any number of files,
/// a commit and a sweep; it may stop anywhere. A compaction is a seal, the merge, and a
/// checkpoint if one is owed.
#[verifier::reject_recursive_types(S)]
pub enum Step<S: Store> {
    /// An operation is logged, and then performed.
    Acknowledge(Op<S::Id, S::Item>),
    /// The buffer is sealed, which no record tells.
    Seal,
    /// Size tiering merges what is eligible.
    MergeTiers(CompactionStats),
    /// Segments are merged until at most that many are left.
    Consolidate(usize, CompactionStats),
    /// All segments are merged into one, and the tombstones go.
    Compact(CompactionStats),
    /// The segments at these positions are merged into one of that many items.
    Reclaim(Seq<usize>, usize),
    /// The file of the segment at this position is written, and noted to be on disk.
    WriteFile(int),
    /// A file is left behind that is not noted to be on disk, whatever it holds.
    LeaveFile(u64, S::Segment),
    /// The manifest is written.
    Commit,
    /// Some garbage is deleted.
    Sweep,
}

/// The step leads from one moment to the other.
pub open spec fn stepped<S: Store, B: SizeBand>(
    store: S,
    flush_threshold: usize,
    cfg: TierConfig<B>,
    from: Moment<S>,
    step: Step<S>,
    to: Moment<S>,
) -> bool {
    match step {
        Step::Acknowledge(op) => {
            &&& performed(store, flush_threshold, from.st, op, to.st)
            &&& to.disk == with_record(from.disk, op)
        },
        Step::Seal => sealed(store, from.st, to.st) && to.disk == from.disk,
        Step::MergeTiers(stats) => {
            &&& tiers_compacted(store, flush_threshold, cfg, from.st, stats, to.st)
            &&& to.disk == from.disk
        },
        Step::Consolidate(max_segments, stats) => {
            &&& max_segments > 1
            &&& force_merged(store, cfg, max_segments, from.st, stats, to.st)
            &&& to.disk == from.disk
        },
        Step::Compact(stats) => {
            &&& from.st.buffer.len() == 0
            &&& compacted(store, from.st, stats, to.st)
            &&& to.disk == from.disk
        },
        Step::Reclaim(picks, n) => {
            &&& picks.no_duplicates()
            &&& forall|k: int|
                0 <= k < picks.len() ==> #[trigger] picks[k] < from.st.segments.len()
            &&& merged(store, from.st, picks, n, to.st)
            &&& to.disk == from.disk
        },
        Step::WriteFile(i) => {
            &&& 0 <= i < from.st.ids.len()
            &&& !from.st.persisted.contains(from.st.ids[i])
            &&& to.disk == with_file(from.disk, from.st.ids[i], from.st.segments[i])
            &&& to.st == (State {
                persisted: from.st.persisted.insert(from.st.ids[i]),
                ..from.st
            })
        },
        Step::LeaveFile(id, segment) => {
            &&& !from.st.persisted.contains(id)
            &&& to.disk == with_file(from.disk, id, segment)
            &&& to.st == from.st
        },
        Step::Commit => {
            &&& committable(from.st)
            &&& to.disk == with_manifest(from.disk, from.st)
            &&& to.st == committed(from.st)
        },
        Step::Sweep => swept(from.disk, from.st, to.disk) && to.st == from.st,
    }
}

/// The counters of a state have room for one more step, and its segments fit a list.
pub open spec fn roomy<S: Store>(st: State<S>) -> bool {
    &&& st.segments.len() <= usize::MAX
    &&& st.next_id + st.segments.len() < u64::MAX
    &&& st.epoch < u64::MAX
}

/// The steps were taken one after the other, through these moments.
pub open spec fn ran<S: Store, B: SizeBand>(
    store: S,
    flush_threshold: usize,
    cfg: TierConfig<B>,
    steps: Seq<Step<S>>,
    moments: Seq<Moment<S>>,
) -> bool {
    &&& moments.len() == steps.len() + 1
    &&& forall|k: int|
        0 <= k < steps.len() ==> stepped(
            store,
            flush_threshold,
            cfg,
            moments[k],
            #[trigger] steps[k],
            moments[k + 1],
        ) && roomy(moments[k].st)
}

/// A store was opened: its state is what recovery gives on its disk.
pub open spec fn opened<S: Store>(store: S, flush_threshold: usize, first: Moment<S>) -> bool {
    &&& sound(first.disk)
    &&& base_of(first.disk).next_id + log_of(first.disk).len() < u64::MAX
    &&& recovers(store, flush_threshold, first.disk, first.st)
}

/// Merging keeps epoch, persisted files and what readers see, in as many steps as there
/// are segments at most.
proof fn rearranging_keeps_bookkeeping<S: Store, B: SizeBand>(
    store: S,
    flush_threshold: usize,
    cfg: TierConfig<B>,
    from: Moment<S>,
    step: Step<S>,
    to: Moment<S>,
)
    requires
        on_disk(from.disk, from.st),
        roomy(from.st),
        stepped(store, flush_threshold, cfg, from, step, to),
        step is Seal || step is MergeTiers || step is Consolidate || step is Compact
            || step is Reclaim,
    ensures
        on_disk(to.disk, to.st),
        to.disk == from.disk,
{
    match step {
        Step::Seal => {
            sealing_descends(store, from.st, to.st);
        },
        Step::MergeTiers(stats) => {
            let items = choose|items: nat| #[trigger]
                tier_merged(
                    store,
                    flush_threshold,
                    cfg,
                    from.st,
                    stats.merges as nat,
                    items,
                    to.st,
                ) && stats.items_merged == crate::state::capped(items);
            let merges = stats.merges as nat;
            tier_merges_shrink(store, flush_threshold, cfg, from.st, merges, items, to.st);
            tier_merges_keep_bookkeeping(
                store,
                flush_threshold,
                cfg,
                from.st,
                merges,
                items,
                to.st,
            );
            tier_compaction_descends(store, flush_threshold, cfg, from.st, stats, to.st);
        },
        Step::Consolidate(max_segments, stats) => {
            let items = choose|items: nat| #[trigger]
                consolidated(
                    store,
                    cfg,
                    max_segments,
                    from.st,
                    stats.merges as nat,
                    items,
                    to.st,
                ) && stats.items_merged == crate::state::capped(items);
            let merges = stats.merges as nat;
            consolidating_merges_shrink(
                store,
                cfg,
                max_segments,
                from.st,
                merges,
                items,
                to.st,
            );
            consolidating_merges_keep_bookkeeping(
                store,
                cfg,
                max_segments,
                from.st,
                merges,
                items,
                to.st,
            );
            consolidation_descends(store, cfg, max_segments, from.st, stats, to.st);
        },
        Step::Compact(stats) => {
            compaction_descends(store, from.st, stats, to.st);
        },
        Step::Reclaim(picks, n) => {
            merging_descends(store, from.st, picks, n, to.st);
        },
        _ => {},
    }
    bookkeeping_survives(from.disk, from.st, to.st);
}

/// Every step keeps the writer's bookkeeping in agreement with its disk.
pub proof fn stepping_keeps_bookkeeping<S: Store, B: SizeBand>(
    store: S,
    flush_threshold: usize,
    cfg: TierConfig<B>,
    from: Moment<S>,
    step: Step<S>,
    to: Moment<S>,
)
    requires
        on_disk(from.disk, from.st),
        roomy(from.st),
        stepped(store, flush_threshold, cfg, from, step, to),
    ensures
        on_disk(to.disk, to.st),
{
    match step {
        Step::Acknowledge(op) => {
            logging_keeps_bookkeeping(store, flush_threshold, from.disk, from.st, op, to.st);
        },
        Step::WriteFile(i) => {
            writing_a_segment_keeps_bookkeeping(from.disk, from.st, i);
        },
        Step::LeaveFile(id, segment) => {
            stray_files_keep_bookkeeping(from.disk, from.st, id, segment);
        },
        Step::Commit => {
            committing_keeps_bookkeeping(from.disk, from.st);
        },
        Step::Sweep => {
            sweeping_keeps_bookkeeping(from.disk, from.st, to.disk);
        },
        _ => {
            rearranging_keeps_bookkeeping(store, flush_threshold, cfg, from, step, to);
        },
    }
}

/// Every step but one that rearranges segments without a record keeps the disk mirroring
/// the state; a commit makes it so, whatever was before.
pub proof fn stepping_keeps_mirror<S: Store, B: SizeBand, V>(
    store: S,
    flush_threshold: usize,
    cfg: TierConfig<B>,
    shape: spec_fn(S::Segment) -> V,
    from: Moment<S>,
    step: Step<S>,
    to: Moment<S>,
)
    requires
        definite(store, shape),
        on_disk(from.disk, from.st),
        roomy(from.st),
        stepped(store, flush_threshold, cfg, from, step, to),
        step is Commit || mirrored(store, flush_threshold, shape, from.disk, from.st),
        step is Commit || step is Acknowledge || step is WriteFile || step is LeaveFile
            || step is Sweep,
    ensures
        mirrored(store, flush_threshold, shape, to.disk, to.st),
{
    match step {
        Step::Acknowledge(op) => {
            logging_keeps_mirror(store, flush_threshold, shape, from.disk, from.st, op, to.st);
        },
        Step::WriteFile(i) => {
            writing_a_segment_keeps_bookkeeping(from.disk, from.st, i);
            unchanged_recovery_keeps_mirror(
                store,
                flush_threshold,
                shape,
                from.disk,
                from.st,
                to.disk,
                to.st,
            );
        },
        Step::LeaveFile(id, segment) => {
            stray_files_keep_bookkeeping(from.disk, from.st, id, segment);
            unchanged_recovery_keeps_mirror(
                store,
                flush_threshold,
                shape,
                from.disk,
                from.st,
                to.disk,
                to.st,
            );
        },
        Step::Commit => {
            committing_is_mirrored(store, flush_threshold, shape, from.disk, from.st);
        },
        Step::Sweep => {
            sweeping_keeps_bookkeeping(from.disk, from.st, to.disk);
            unchanged_recovery_keeps_mirror(
                store,
                flush_threshold,
                shape,
                from.disk,
                from.st,
                to.disk,
                to.st,
            );
        },
        _ => {},
    }
}

/// Every step keeps every live entry recoverable, but for an add that brings other
/// entries back to life in the writer's state than in a recovered one.
pub proof fn stepping_keeps_backing<S: Store, B: SizeBand>(
    store: S,
    flush_threshold: usize,
    cfg: TierConfig<B>,
    content: spec_fn(S::Segment) -> Multiset<(S::Id, S::Item)>,
    from: Moment<S>,
    step: Step<S>,
    to: Moment<S>,
)
    requires
        faithful(store, content),
        backed(store, flush_threshold, content, false, from.disk, from.st),
        roomy(from.st),
        stepped(store, flush_threshold, cfg, from, step, to),
        step matches Step::Acknowledge(Op::Add(id, _)) ==> revives_alike(
            store,
            flush_threshold,
            content,
            from.disk,
            from.st,
            id,
        ),
    ensures
        backed(store, flush_threshold, content, false, to.disk, to.st),
        step !is Acknowledge ==> live(content, to.st) == live(content, from.st)
            && to.st.tombstones.subset_of(from.st.tombstones),
{
    let t = flush_threshold;
    if step !is Acknowledge {
        stepping_keeps_live_content(store, t, cfg, content, from, step, to);
    }
    match step {
        Step::Acknowledge(op) => {
            logging_keeps_backing(store, t, content, false, from.disk, from.st, op, to.st);
        },
        Step::Seal => {
            sealing_keeps_backing(store, t, content, false, from.disk, from.st, to.st);
        },
        Step::MergeTiers(stats) => {
            crate::content::tier_compaction_keeps_live_content(
                store,
                content,
                t,
                cfg,
                from.st,
                stats,
                to.st,
            );
            tier_compaction_keeps_backing(
                store,
                t,
                content,
                cfg,
                false,
                from.disk,
                from.st,
                stats,
                to.st,
            );
        },
        Step::Consolidate(max_segments, stats) => {
            let items = choose|items: nat| #[trigger]
                consolidated(
                    store,
                    cfg,
                    max_segments,
                    from.st,
                    stats.merges as nat,
                    items,
                    to.st,
                ) && stats.items_merged == crate::state::capped(items);
            consolidating_merges_shrink(
                store,
                cfg,
                max_segments,
                from.st,
                stats.merges as nat,
                items,
                to.st,
            );
            consolidation_keeps_backing(
                store,
                t,
                content,
                cfg,
                max_segments,
                false,
                from.disk,
                from.st,
                stats,
                to.st,
            );
        },
        Step::Compact(stats) => {
            compaction_keeps_backing(store, t, content, false, from.disk, from.st, stats, to.st);
        },
        Step::Reclaim(picks, n) => {
            merging_keeps_backing(
                store,
                t,
                content,
                false,
                from.disk,
                from.st,
                picks,
                n,
                to.st,
            );
        },
        Step::WriteFile(i) => {
            writing_a_segment_keeps_backing(store, t, content, false, from.disk, from.st, i);
        },
        Step::LeaveFile(id, segment) => {
            stray_files_keep_backing(
                store,
                t,
                content,
                false,
                from.disk,
                from.st,
                id,
                segment,
            );
        },
        Step::Commit => {
            committing_keeps_backing(store, t, content, false, from.disk, from.st, from.st);
            exact_backing_is_backing(store, t, content, true, to.disk, to.st);
        },
        Step::Sweep => {
            sweeping_keeps_backing(store, t, content, false, from.disk, from.st, to.disk);
        },
    }
}

/// At every moment of a run the bookkeeping agrees with the disk.
proof fn bookkeeping_throughout<S: Store, B: SizeBand>(
    store: S,
    flush_threshold: usize,
    cfg: TierConfig<B>,
    steps: Seq<Step<S>>,
    moments: Seq<Moment<S>>,
    k: int,
)
    requires
        opened(store, flush_threshold, moments[0]),
        ran(store, flush_threshold, cfg, steps, moments),
        0 <= k <= steps.len(),
    ensures
        on_disk(moments[k].disk, moments[k].st),
    decreases k,
{
    if k == 0 {
        opening_is_mirrored(
            store,
            flush_threshold,
            |s: S::Segment| (),
            moments[0].disk,
            moments[0].st,
        );
    } else {
        bookkeeping_throughout(store, flush_threshold, cfg, steps, moments, k - 1);
        assert(stepped(
            store,
            flush_threshold,
            cfg,
            moments[k - 1],
            steps[k - 1],
            moments[k - 1 + 1],
        ));
        stepping_keeps_bookkeeping(
            store,
            flush_threshold,
            cfg,
            moments[k - 1],
            steps[k - 1],
            moments[k],
        );
    }
}

/// Segments have not been sealed or merged without a record since the store was opened
/// or last committed: so it is after any adds, deletes, complete checkpoints and full
/// compactions.
pub open spec fn settled<S: Store>(steps: Seq<Step<S>>) -> bool
    decreases steps.len(),
{
    steps.len() == 0 || match steps.last() {
        Step::Commit => true,
        Step::Acknowledge(_) => settled(steps.drop_last()),
        Step::WriteFile(_) => settled(steps.drop_last()),
        Step::LeaveFile(_, _) => settled(steps.drop_last()),
        Step::Sweep => settled(steps.drop_last()),
        _ => false,
    }
}

/// After a settled run the disk mirrors the state.
proof fn mirrored_when_settled<S: Store, B: SizeBand, V>(
    store: S,
    flush_threshold: usize,
    cfg: TierConfig<B>,
    shape: spec_fn(S::Segment) -> V,
    steps: Seq<Step<S>>,
    moments: Seq<Moment<S>>,
    k: int,
)
    requires
        definite(store, shape),
        opened(store, flush_threshold, moments[0]),
        ran(store, flush_threshold, cfg, steps, moments),
        0 <= k <= steps.len(),
        settled(steps.take(k)),
    ensures
        mirrored(store, flush_threshold, shape, moments[k].disk, moments[k].st),
    decreases k,
{
    if k == 0 {
        opening_is_mirrored(store, flush_threshold, shape, moments[0].disk, moments[0].st);
    } else {
        let step = steps[k - 1];
        assert(steps.take(k).drop_last() =~= steps.take(k - 1));
        assert(steps.take(k).last() == step);
        bookkeeping_throughout(store, flush_threshold, cfg, steps, moments, k - 1);
        if !(step is Commit) {
            mirrored_when_settled(store, flush_threshold, cfg, shape, steps, moments, k - 1);
        }
        assert(stepped(
            store,
            flush_threshold,
            cfg,
            moments[k - 1],
            steps[k - 1],
            moments[k - 1 + 1],
        ));
        stepping_keeps_mirror(
            store,
            flush_threshold,
            cfg,
            shape,
            moments[k - 1],
            step,
            moments[k],
        );
    }
}

/// Reopening after a settled run gives the same store: the same buffer, tombstones, ids,
/// epoch and segment boundaries, segments of the same shape, and the same view for
/// readers.
pub proof fn reopening_gives_the_same_store<S: Store, B: SizeBand, V>(
    store: S,
    flush_threshold: usize,
    cfg: TierConfig<B>,
    shape: spec_fn(S::Segment) -> V,
    steps: Seq<Step<S>>,
    moments: Seq<Moment<S>>,
    reopened: State<S>,
)
    requires
        definite(store, shape),
        opened(store, flush_threshold, moments[0]),
        ran(store, flush_threshold, cfg, steps, moments),
        settled(steps),
        recovers(store, flush_threshold, moments.last().disk, reopened),
    ensures
        same(shape, reopened, moments.last().st),
        reopened.published == moments.last().st.published,
{
    let last = moments.last();
    assert(steps.take(steps.len() as int) =~= steps);
    mirrored_when_settled(
        store,
        flush_threshold,
        cfg,
        shape,
        steps,
        moments,
        steps.len() as int,
    );
    replaying_keeps_bookkeeping(
        store,
        flush_threshold,
        base_of(last.disk),
        log_of(last.disk),
        reopened,
    );
    assert(base_of(last.disk).published =~= crate::state::snapshot_of(base_of(last.disk)));
}

/// Where clones are exact, the list-backed model fixes the whole list that a batch
/// becomes.
pub proof fn default_store_is_definite<Id: Clone + Eq + std::hash::Hash, Item: Clone>(
    store: DefaultStore<Id, Item>,
)
    requires
        crate::ids::exact_clone::<Id>(),
        crate::ids::exact_clone::<Item>(),
    ensures
        definite(store, |list: Vec<(Id, Item)>| list@),
{
    let shape = |list: Vec<(Id, Item)>| list@;
    assert forall|batch: Seq<(Id, Item)>, a: Vec<(Id, Item)>, b: Vec<(Id, Item)>|
        #![trigger store.builds(batch, a), store.builds(batch, b)]
        store.builds(batch, a) && store.builds(batch, b) implies shape(a) == shape(b) by {
        crate::content::copied_is_same(batch, a@);
        crate::content::copied_is_same(batch, b@);
    }
}

/// Reopening a list-backed store after any adds, deletes, complete checkpoints and full
/// compactions gives a store with the same segments, entry for entry, the same ids, the
/// same buffer, the same epoch, and the same identities live.
pub proof fn reopening_gives_the_same_lists<
    Id: Clone + Eq + std::hash::Hash,
    Item: Clone,
    B: SizeBand,
>(
    store: DefaultStore<Id, Item>,
    flush_threshold: usize,
    cfg: TierConfig<B>,
    steps: Seq<Step<DefaultStore<Id, Item>>>,
    moments: Seq<Moment<DefaultStore<Id, Item>>>,
    reopened: State<DefaultStore<Id, Item>>,
)
    requires
        crate::ids::exact_clone::<Id>(),
        crate::ids::exact_clone::<Item>(),
        opened(store, flush_threshold, moments[0]),
        ran(store, flush_threshold, cfg, steps, moments),
        settled(steps),
        recovers(store, flush_threshold, moments.last().disk, reopened),
    ensures
        ({
            let st = moments.last().st;
            &&& reopened.segments.len() == st.segments.len()
            &&& forall|i: int|
                0 <= i < st.segments.len() ==> (#[trigger] reopened.segments[i])@
                    == st.segments[i]@
            &&& reopened.ids == st.ids
            &&& reopened.next_id == st.next_id
            &&& reopened.buffer == st.buffer
            &&& reopened.epoch == st.epoch
            &&& forall|id: Id| #[trigger]
                reopened.tombstones.contains(id) == st.tombstones.contains(id)
        }),
{
    let shape = |list: Vec<(Id, Item)>| list@;
    let st = moments.last().st;
    default_store_is_definite(store);
    reopening_gives_the_same_store(
        store,
        flush_threshold,
        cfg,
        shape,
        steps,
        moments,
        reopened,
    );
    assert forall|i: int| 0 <= i < st.segments.len() implies (#[trigger] reopened.segments[i])@
        == st.segments[i]@ by {
        assert(reopened.segments.map_values(shape)[i] == reopened.segments[i]@);
        assert(st.segments.map_values(shape)[i] == st.segments[i]@);
    }
}

/// Every add of a run brings the same entries back to life in the writer's state as in
/// any that recovery would give at that moment.
pub open spec fn adds_revive_alike<S: Store>(
    store: S,
    flush_threshold: usize,
    content: spec_fn(S::Segment) -> Multiset<(S::Id, S::Item)>,
    steps: Seq<Step<S>>,
    moments: Seq<Moment<S>>,
) -> bool {
    forall|k: int|
        0 <= k < steps.len() ==> (#[trigger] steps[k] matches Step::Acknowledge(Op::Add(id, _))
            ==> revives_alike(
            store,
            flush_threshold,
            content,
            moments[k].disk,
            moments[k].st,
            id,
        ))
}

/// At every moment of such a run the disk backs the state.
proof fn backed_throughout<S: Store, B: SizeBand>(
    store: S,
    flush_threshold: usize,
    cfg: TierConfig<B>,
    content: spec_fn(S::Segment) -> Multiset<(S::Id, S::Item)>,
    steps: Seq<Step<S>>,
    moments: Seq<Moment<S>>,
    k: int,
)
    requires
        faithful(store, content),
        opened(store, flush_threshold, moments[0]),
        ran(store, flush_threshold, cfg, steps, moments),
        adds_revive_alike(store, flush_threshold, content, steps, moments),
        0 <= k <= steps.len(),
    ensures
        backed(store, flush_threshold, content, false, moments[k].disk, moments[k].st),
    decreases k,
{
    if k == 0 {
        opening_is_backed(store, flush_threshold, content, moments[0].disk, moments[0].st);
        exact_backing_is_backing(
            store,
            flush_threshold,
            content,
            true,
            moments[0].disk,
            moments[0].st,
        );
    } else {
        backed_throughout(store, flush_threshold, cfg, content, steps, moments, k - 1);
        assert(stepped(
            store,
            flush_threshold,
            cfg,
            moments[k - 1],
            steps[k - 1],
            moments[k - 1 + 1],
        ));
        stepping_keeps_backing(
            store,
            flush_threshold,
            cfg,
            content,
            moments[k - 1],
            steps[k - 1],
            moments[k],
        );
    }
}

/// Wherever a run stops, reopening gives exactly the live entries that the writer had.
pub proof fn a_run_loses_nothing<S: Store, B: SizeBand>(
    store: S,
    flush_threshold: usize,
    cfg: TierConfig<B>,
    content: spec_fn(S::Segment) -> Multiset<(S::Id, S::Item)>,
    steps: Seq<Step<S>>,
    moments: Seq<Moment<S>>,
    reopened: State<S>,
)
    requires
        faithful(store, content),
        opened(store, flush_threshold, moments[0]),
        ran(store, flush_threshold, cfg, steps, moments),
        adds_revive_alike(store, flush_threshold, content, steps, moments),
        recovers(store, flush_threshold, moments.last().disk, reopened),
    ensures
        live(content, reopened) == live(content, moments.last().st),
{
    let last = moments.last();
    backed_throughout(
        store,
        flush_threshold,
        cfg,
        content,
        steps,
        moments,
        steps.len() as int,
    );
    recovery_loses_nothing(
        store,
        flush_threshold,
        content,
        false,
        last.disk,
        last.st,
        reopened,
    );
}

/// The live entries that acknowledged operations make up: an add puts its entry in, a
/// delete takes the entries of its identity out, and nothing else matters.
pub open spec fn acknowledged<S: Store>(
    before: Multiset<(S::Id, S::Item)>,
    steps: Seq<Step<S>>,
) -> Multiset<(S::Id, S::Item)>
    decreases steps.len(),
{
    if steps.len() == 0 {
        before
    } else {
        let so_far = acknowledged(before, steps.drop_last());
        match steps.last() {
            Step::Acknowledge(Op::Add(id, item)) => so_far.insert((id, item)),
            Step::Acknowledge(Op::Delete(id)) => so_far.filter(
                |e: (S::Id, S::Item)| e.0 != id,
            ),
            _ => so_far,
        }
    }
}

/// The last acknowledged operation on an identity was a delete.
pub open spec fn ends_deleted<S: Store>(steps: Seq<Step<S>>, id: S::Id) -> bool
    decreases steps.len(),
{
    steps.len() > 0 && match steps.last() {
        Step::Acknowledge(Op::Add(x, _)) => x != id && ends_deleted(steps.drop_last(), id),
        Step::Acknowledge(Op::Delete(x)) => x == id || ends_deleted(steps.drop_last(), id),
        _ => ends_deleted(steps.drop_last(), id),
    }
}

/// The identities that the state or recovery may have tombstoned after these first steps
/// of a run: those that were tombstoned at the last commit, and those deleted since.
pub open spec fn buried<S: Store>(steps: Seq<Step<S>>, moments: Seq<Moment<S>>) -> Set<S::Id>
    decreases steps.len(),
{
    if steps.len() == 0 {
        base_of(moments[0].disk).tombstones.union(deleted_by(log_of(moments[0].disk)))
    } else {
        let so_far = buried(steps.drop_last(), moments);
        match steps.last() {
            Step::Acknowledge(Op::Delete(id)) => so_far.insert(id),
            Step::Commit => moments[steps.len() - 1].st.tombstones,
            _ => so_far,
        }
    }
}

/// The identities that a log deletes.
pub open spec fn deleted_by<Id, Item>(ops: Seq<Op<Id, Item>>) -> Set<Id> {
    Set::new(|id: Id| ops.contains(Op::Delete(id)))
}

/// No step adds this identity while it may be tombstoned.
pub open spec fn never_revived<S: Store>(
    steps: Seq<Step<S>>,
    moments: Seq<Moment<S>>,
    id: S::Id,
) -> bool {
    forall|k: int|
        0 <= k < steps.len() && (#[trigger] steps[k] matches Step::Acknowledge(Op::Add(x, _))
            && x == id) ==> !buried(steps.take(k), moments).contains(id)
}

/// Replaying a log tombstones nothing but what was tombstoned and what the log deletes.
proof fn replaying_buries_no_more<S: Store>(
    store: S,
    flush_threshold: usize,
    pre: State<S>,
    ops: Seq<Op<S::Id, S::Item>>,
    post: State<S>,
)
    requires
        replayed(store, flush_threshold, pre, ops, post),
    ensures
        post.tombstones.subset_of(pre.tombstones.union(deleted_by(ops))),
    decreases ops.len(),
{
    if ops.len() > 0 {
        let mid = choose|mid: State<S>|
            replayed(store, flush_threshold, pre, ops.drop_last(), mid) && #[trigger] performed(
                store,
                flush_threshold,
                mid,
                ops.last(),
                post,
            );
        replaying_buries_no_more(store, flush_threshold, pre, ops.drop_last(), mid);
        assert forall|id: S::Id| post.tombstones.contains(id) implies pre.tombstones.union(
            deleted_by(ops),
        ).contains(id) by {
            if mid.tombstones.contains(id) {
                if ops.drop_last().contains(Op::Delete(id)) {
                    let j = choose|j: int|
                        0 <= j < ops.drop_last().len() && ops.drop_last()[j] == Op::<
                            S::Id,
                            S::Item,
                        >::Delete(id);
                    assert(ops[j] == Op::<S::Id, S::Item>::Delete(id));
                }
            } else {
                assert(ops[ops.len() - 1] == Op::<S::Id, S::Item>::Delete(id));
            }
        }
    }
}

/// One more record deletes at most its own identity more.
proof fn logging_buries<Id, Item>(ops: Seq<Op<Id, Item>>, op: Op<Id, Item>)
    ensures
        op matches Op::Delete(id) ==> deleted_by(ops.push(op)).subset_of(
            deleted_by(ops).insert(id),
        ),
        op is Add ==> deleted_by(ops.push(op)).subset_of(deleted_by(ops)),
{
    assert forall|id: Id| deleted_by(ops.push(op)).contains(id) implies deleted_by(ops).contains(id)
        || op == Op::<Id, Item>::Delete(id) by {
        let j = choose|j: int|
            0 <= j < ops.push(op).len() && ops.push(op)[j] == Op::<Id, Item>::Delete(id);
        if j < ops.len() {
            assert(ops[j] == Op::<Id, Item>::Delete(id));
        }
    }
}

/// A step that is no operation keeps the live entries, and adds no tombstone.
pub proof fn stepping_keeps_live_content<S: Store, B: SizeBand>(
    store: S,
    flush_threshold: usize,
    cfg: TierConfig<B>,
    content: spec_fn(S::Segment) -> Multiset<(S::Id, S::Item)>,
    from: Moment<S>,
    step: Step<S>,
    to: Moment<S>,
)
    requires
        faithful(store, content),
        from.st.segments.len() <= usize::MAX,
        stepped(store, flush_threshold, cfg, from, step, to),
        step !is Acknowledge,
    ensures
        live(content, to.st) == live(content, from.st),
        to.st.tombstones.subset_of(from.st.tombstones),
{
    match step {
        Step::Seal => {
            crate::content::sealing_keeps_content(store, content, from.st, to.st);
        },
        Step::MergeTiers(stats) => {
            crate::content::tier_compaction_keeps_live_content(
                store,
                content,
                flush_threshold,
                cfg,
                from.st,
                stats,
                to.st,
            );
        },
        Step::Consolidate(max_segments, stats) => {
            crate::content::consolidation_keeps_live_content(
                store,
                content,
                cfg,
                max_segments,
                from.st,
                stats,
                to.st,
            );
        },
        Step::Compact(stats) => {
            crate::content::compaction_keeps_exactly_live_content(
                store,
                content,
                from.st,
                stats,
                to.st,
            );
        },
        Step::Reclaim(picks, n) => {
            crate::content::merging_keeps_live_content(
                store,
                content,
                from.st,
                picks,
                n,
                to.st,
            );
        },
        _ => {},
    }
}

/// Everything that the state or recovery has tombstoned is among `dead`.
spec fn buried_covers<S: Store>(dead: Set<S::Id>, at: Moment<S>) -> bool {
    &&& at.st.tombstones.subset_of(dead)
    &&& base_of(at.disk).tombstones.subset_of(dead)
    &&& deleted_by(log_of(at.disk)).subset_of(dead)
}

/// At every moment of a run, whatever is tombstoned counts as buried.
proof fn buried_throughout<S: Store, B: SizeBand>(
    store: S,
    flush_threshold: usize,
    cfg: TierConfig<B>,
    content: spec_fn(S::Segment) -> Multiset<(S::Id, S::Item)>,
    steps: Seq<Step<S>>,
    moments: Seq<Moment<S>>,
    k: int,
)
    requires
        faithful(store, content),
        opened(store, flush_threshold, moments[0]),
        ran(store, flush_threshold, cfg, steps, moments),
        0 <= k <= steps.len(),
    ensures
        buried_covers(buried(steps.take(k), moments), moments[k]),
    decreases k,
{
    if k == 0 {
        let first = moments[0];
        replaying_buries_no_more(
            store,
            flush_threshold,
            base_of(first.disk),
            log_of(first.disk),
            first.st,
        );
    } else {
        let from = moments[k - 1];
        let to = moments[k];
        let step = steps[k - 1];
        buried_throughout(store, flush_threshold, cfg, content, steps, moments, k - 1);
        bookkeeping_throughout(store, flush_threshold, cfg, steps, moments, k - 1);
        assert(steps.take(k).drop_last() =~= steps.take(k - 1));
        assert(steps.take(k).last() == step);
        assert(stepped(store, flush_threshold, cfg, from, steps[k - 1], moments[k - 1 + 1]));
        match step {
            Step::Acknowledge(op) => {
                logging_keeps_bookkeeping(
                    store,
                    flush_threshold,
                    from.disk,
                    from.st,
                    op,
                    to.st,
                );
                logging_buries(log_of(from.disk), op);
            },
            Step::WriteFile(i) => {
                writing_a_segment_keeps_bookkeeping(from.disk, from.st, i);
            },
            Step::LeaveFile(id, segment) => {
                stray_files_keep_bookkeeping(from.disk, from.st, id, segment);
            },
            Step::Commit => {
                committing_keeps_bookkeeping(from.disk, from.st);
            },
            Step::Sweep => {
                sweeping_keeps_bookkeeping(from.disk, from.st, to.disk);
            },
            _ => {
                stepping_keeps_live_content(
                    store,
                    flush_threshold,
                    cfg,
                    content,
                    from,
                    step,
                    to,
                );
            },
        }
    }
}

/// What an operation does to the number of live copies of one entry: an add counts its
/// own entry once more, and may only bring further entries of its identity back to life;
/// a delete leaves none of its identity.
proof fn performing_counts<S: Store>(
    store: S,
    flush_threshold: usize,
    content: spec_fn(S::Segment) -> Multiset<(S::Id, S::Item)>,
    pre: State<S>,
    op: Op<S::Id, S::Item>,
    post: State<S>,
    e: (S::Id, S::Item),
)
    requires
        faithful(store, content),
        performed(store, flush_threshold, pre, op, post),
    ensures
        match op {
            Op::Add(id, item) => {
                let own: nat = if e == (id, item) {
                    1
                } else {
                    0
                };
                &&& live(content, post).count(e) >= live(content, pre).count(e) + own
                &&& e.0 != id || !pre.tombstones.contains(id) ==> live(content, post).count(e)
                    == live(content, pre).count(e) + own
            },
            Op::Delete(id) => live(content, post).count(e) == (if e.0 == id {
                0
            } else {
                live(content, pre).count(e)
            }),
        },
{
    match op {
        Op::Add(id, item) => {
            adding_stores_the_entry(store, content, flush_threshold, pre, id, item, post);
            assert(stored(content, post).count(e) == stored(content, pre).count(e) + (if e == (
                id,
                item,
            ) {
                1nat
            } else {
                0nat
            }));
            assert(live(content, post).count(e) == if post.tombstones.contains(e.0) {
                0
            } else {
                stored(content, post).count(e)
            });
            assert(live(content, pre).count(e) == if pre.tombstones.contains(e.0) {
                0
            } else {
                stored(content, pre).count(e)
            });
        },
        Op::Delete(id) => {
            deleting_takes_the_identity_out(store, content, flush_threshold, pre, id, post);
        },
    }
}

/// The number of live copies of an entry accounts for the acknowledged operations of a
/// run: there are no fewer than those make up, none if the last one deleted its identity,
/// and no more if its identity was never revived.
spec fn accounts<S: Store>(
    before: Multiset<(S::Id, S::Item)>,
    done: Seq<Step<S>>,
    exact: bool,
    e: (S::Id, S::Item),
    count: nat,
) -> bool {
    &&& acknowledged(before, done).count(e) <= count
    &&& ends_deleted(done, e.0) ==> count == 0
    &&& exact ==> count == acknowledged(before, done).count(e)
}

/// At every moment of a run, the state and whatever recovery would give account for the
/// acknowledged operations.
proof fn accounts_throughout<S: Store, B: SizeBand>(
    store: S,
    flush_threshold: usize,
    cfg: TierConfig<B>,
    content: spec_fn(S::Segment) -> Multiset<(S::Id, S::Item)>,
    steps: Seq<Step<S>>,
    moments: Seq<Moment<S>>,
    k: int,
    e: (S::Id, S::Item),
)
    requires
        faithful(store, content),
        opened(store, flush_threshold, moments[0]),
        ran(store, flush_threshold, cfg, steps, moments),
        0 <= k <= steps.len(),
    ensures
        ({
            let before = live(content, moments[0].st);
            let exact = never_revived(steps, moments, e.0);
            &&& accounts(
                before,
                steps.take(k),
                exact,
                e,
                live(content, moments[k].st).count(e),
            )
            &&& forall|r: State<S>| #[trigger]
                recovers(store, flush_threshold, moments[k].disk, r) ==> accounts(
                    before,
                    steps.take(k),
                    exact,
                    e,
                    live(content, r).count(e),
                )
        }),
    decreases k,
{
    let first = moments[0];
    let before = live(content, first.st);
    let exact = never_revived(steps, moments, e.0);
    let done = steps.take(k);
    if k == 0 {
        opening_is_backed(store, flush_threshold, content, first.disk, first.st);
        assert forall|r: State<S>| #[trigger] recovers(
            store,
            flush_threshold,
            first.disk,
            r,
        ) implies accounts(before, done, exact, e, live(content, r).count(e)) by {
            recovery_loses_nothing(
                store,
                flush_threshold,
                content,
                true,
                first.disk,
                first.st,
                r,
            );
        }
    } else {
        let from = moments[k - 1];
        let to = moments[k];
        let step = steps[k - 1];
        let done_before = steps.take(k - 1);
        accounts_throughout(store, flush_threshold, cfg, content, steps, moments, k - 1, e);
        buried_throughout(store, flush_threshold, cfg, content, steps, moments, k - 1);
        bookkeeping_throughout(store, flush_threshold, cfg, steps, moments, k - 1);
        assert(done.drop_last() =~= done_before);
        assert(done.last() == step);
        assert(stepped(store, flush_threshold, cfg, from, steps[k - 1], moments[k - 1 + 1]));
        match step {
            Step::Acknowledge(op) => {
                performing_counts(store, flush_threshold, content, from.st, op, to.st, e);
                assert forall|r: State<S>| #[trigger] recovers(
                    store,
                    flush_threshold,
                    to.disk,
                    r,
                ) implies accounts(before, done, exact, e, live(content, r).count(e)) by {
                    let r_before = recovered_before(store, flush_threshold, from.disk, op, r);
                    replaying_buries_no_more(
                        store,
                        flush_threshold,
                        base_of(from.disk),
                        log_of(from.disk),
                        r_before,
                    );
                    performing_counts(store, flush_threshold, content, r_before, op, r, e);
                }
            },
            Step::Commit => {
                stepping_keeps_live_content(
                    store,
                    flush_threshold,
                    cfg,
                    content,
                    from,
                    step,
                    to,
                );
                committing_is_mirrored(store, flush_threshold, content, from.disk, from.st);
                assert forall|r: State<S>| #[trigger] recovers(
                    store,
                    flush_threshold,
                    to.disk,
                    r,
                ) implies accounts(before, done, exact, e, live(content, r).count(e)) by {
                    recovery_loses_nothing(
                        store,
                        flush_threshold,
                        content,
                        true,
                        to.disk,
                        to.st,
                        r,
                    );
                }
            },
            _ => {
                stepping_keeps_live_content(
                    store,
                    flush_threshold,
                    cfg,
                    content,
                    from,
                    step,
                    to,
                );
                stepping_keeps_recovery(store, flush_threshold, cfg, from, step, to);
                assert forall|r: State<S>| #[trigger] recovers(
                    store,
                    flush_threshold,
                    to.disk,
                    r,
                ) implies accounts(before, done, exact, e, live(content, r).count(e)) by {
                    assert(recovers(store, flush_threshold, from.disk, r));
                }
            },
        }
    }
}

/// A step that is neither an operation nor a commit changes nothing about what recovery
/// gives.
pub proof fn stepping_keeps_recovery<S: Store, B: SizeBand>(
    store: S,
    flush_threshold: usize,
    cfg: TierConfig<B>,
    from: Moment<S>,
    step: Step<S>,
    to: Moment<S>,
)
    requires
        on_disk(from.disk, from.st),
        stepped(store, flush_threshold, cfg, from, step, to),
        step !is Acknowledge,
        step !is Commit,
    ensures
        base_of(to.disk) == base_of(from.disk),
        log_of(to.disk) == log_of(from.disk),
{
    match step {
        Step::WriteFile(i) => {
            writing_a_segment_keeps_bookkeeping(from.disk, from.st, i);
        },
        Step::LeaveFile(id, segment) => {
            stray_files_keep_bookkeeping(from.disk, from.st, id, segment);
        },
        Step::Sweep => {
            sweeping_keeps_bookkeeping(from.disk, from.st, to.disk);
        },
        _ => {},
    }
}

/// No acknowledged write is lost: wherever a run stops, at a failed write or by a crash,
/// reopening gives at least the live entries that the acknowledged operations make up.
pub proof fn no_acknowledged_write_is_lost<S: Store, B: SizeBand>(
    store: S,
    flush_threshold: usize,
    cfg: TierConfig<B>,
    content: spec_fn(S::Segment) -> Multiset<(S::Id, S::Item)>,
    steps: Seq<Step<S>>,
    moments: Seq<Moment<S>>,
    reopened: State<S>,
)
    requires
        faithful(store, content),
        opened(store, flush_threshold, moments[0]),
        ran(store, flush_threshold, cfg, steps, moments),
        recovers(store, flush_threshold, moments.last().disk, reopened),
    ensures
        acknowledged(live(content, moments[0].st), steps).subset_of(live(content, reopened)),
        acknowledged(live(content, moments[0].st), steps).subset_of(
            live(content, moments.last().st),
        ),
{
    let n = steps.len() as int;
    assert(steps.take(n) =~= steps);
    let all = acknowledged(live(content, moments[0].st), steps);
    assert forall|e: (S::Id, S::Item)| all.count(e) <= live(content, reopened).count(e)
        && all.count(e) <= live(content, moments.last().st).count(e) by {
        accounts_throughout(store, flush_threshold, cfg, content, steps, moments, n, e);
    }
}

/// No acknowledged delete is lost: an identity whose last acknowledged operation is a
/// delete has no live entry after reopening, nor had it any in the writer's state.
pub proof fn no_acknowledged_delete_is_lost<S: Store, B: SizeBand>(
    store: S,
    flush_threshold: usize,
    cfg: TierConfig<B>,
    content: spec_fn(S::Segment) -> Multiset<(S::Id, S::Item)>,
    steps: Seq<Step<S>>,
    moments: Seq<Moment<S>>,
    reopened: State<S>,
    id: S::Id,
    item: S::Item,
)
    requires
        faithful(store, content),
        opened(store, flush_threshold, moments[0]),
        ran(store, flush_threshold, cfg, steps, moments),
        recovers(store, flush_threshold, moments.last().disk, reopened),
        ends_deleted(steps, id),
    ensures
        live(content, reopened).count((id, item)) == 0,
        live(content, moments.last().st).count((id, item)) == 0,
{
    let n = steps.len() as int;
    assert(steps.take(n) =~= steps);
    accounts_throughout(store, flush_threshold, cfg, content, steps, moments, n, (id, item));
}

/// An identity that is never added while it may be tombstoned has, after reopening and in
/// the writer's state, exactly the entries that the acknowledged operations make up,
/// whatever was done to other identities.
pub proof fn reopening_is_exact_by_identity<S: Store, B: SizeBand>(
    store: S,
    flush_threshold: usize,
    cfg: TierConfig<B>,
    content: spec_fn(S::Segment) -> Multiset<(S::Id, S::Item)>,
    steps: Seq<Step<S>>,
    moments: Seq<Moment<S>>,
    reopened: State<S>,
    id: S::Id,
    item: S::Item,
)
    requires
        faithful(store, content),
        opened(store, flush_threshold, moments[0]),
        ran(store, flush_threshold, cfg, steps, moments),
        recovers(store, flush_threshold, moments.last().disk, reopened),
        never_revived(steps, moments, id),
    ensures
        live(content, reopened).count((id, item)) == acknowledged(
            live(content, moments[0].st),
            steps,
        ).count((id, item)),
        live(content, moments.last().st).count((id, item)) == acknowledged(
            live(content, moments[0].st),
            steps,
        ).count((id, item)),
{
    let n = steps.len() as int;
    assert(steps.take(n) =~= steps);
    accounts_throughout(store, flush_threshold, cfg, content, steps, moments, n, (id, item));
}

/// Where no identity is added while it may be tombstoned, reopening gives exactly the
/// live entries that the acknowledged operations make up: every acknowledged add that was
/// not deleted since, and nothing else.
pub proof fn reopening_gives_what_was_acknowledged<S: Store, B: SizeBand>(
    store: S,
    flush_threshold: usize,
    cfg: TierConfig<B>,
    content: spec_fn(S::Segment) -> Multiset<(S::Id, S::Item)>,
    steps: Seq<Step<S>>,
    moments: Seq<Moment<S>>,
    reopened: State<S>,
)
    requires
        faithful(store, content),
        opened(store, flush_threshold, moments[0]),
        ran(store, flush_threshold, cfg, steps, moments),
        recovers(store, flush_threshold, moments.last().disk, reopened),
        forall|id: S::Id| #[trigger] never_revived(steps, moments, id),
    ensures
        live(content, reopened) == acknowledged(live(content, moments[0].st), steps),
        live(content, reopened) == live(content, moments.last().st),
{
    let all = acknowledged(live(content, moments[0].st), steps);
    let last = moments.last().st;
    assert forall|e: (S::Id, S::Item)| live(content, reopened).count(e) == all.count(e) && live(
        content,
        last,
    ).count(e) == all.count(e) by {
        assert(never_revived(steps, moments, e.0));
        reopening_is_exact_by_identity(
            store,
            flush_threshold,
            cfg,
            content,
            steps,
            moments,
            reopened,
            e.0,
            e.1,
        );
    }
    assert(live(content, reopened) =~= all);
    assert(live(content, last) =~= all);
}

/// Wherever a run stops, it leaves a disk that a store can be opened on again.
pub proof fn a_run_leaves_a_sound_disk<S: Store, B: SizeBand>(
    store: S,
    flush_threshold: usize,
    cfg: TierConfig<B>,
    steps: Seq<Step<S>>,
    moments: Seq<Moment<S>>,
)
    requires
        opened(store, flush_threshold, moments[0]),
        ran(store, flush_threshold, cfg, steps, moments),
    ensures
        sound(moments.last().disk),
{
    let last = moments.last();
    bookkeeping_throughout(store, flush_threshold, cfg, steps, moments, steps.len() as int);
    a_disk_in_use_is_sound(last.disk, last.st);
}

/// One session of a store: from an opening to wherever it stops.
#[verifier::reject_recursive_types(S)]
pub struct Session<S: Store> {
    pub steps: Seq<Step<S>>,
    pub moments: Seq<Moment<S>>,
}

/// Sessions follow each other: each is opened on the disk that the one before it left.
pub open spec fn followed<S: Store, B: SizeBand>(
    store: S,
    flush_threshold: usize,
    cfg: TierConfig<B>,
    sessions: Seq<Session<S>>,
) -> bool {
    &&& forall|j: int|
        0 <= j < sessions.len() ==> {
            let s = #[trigger] sessions[j];
            &&& ran(store, flush_threshold, cfg, s.steps, s.moments)
            &&& recovers(store, flush_threshold, s.moments[0].disk, s.moments[0].st)
            &&& base_of(s.moments[0].disk).next_id + log_of(s.moments[0].disk).len() < u64::MAX
        }
    &&& forall|i: int, j: int|
        0 <= i && i + 1 == j && j < sessions.len() ==> (#[trigger] sessions[j]).moments[0].disk
            == (#[trigger] sessions[i]).moments.last().disk
}

/// The live entries that the acknowledged operations of all sessions make up.
pub open spec fn acknowledged_over<S: Store>(
    before: Multiset<(S::Id, S::Item)>,
    sessions: Seq<Session<S>>,
) -> Multiset<(S::Id, S::Item)>
    decreases sessions.len(),
{
    if sessions.len() == 0 {
        before
    } else {
        acknowledged(acknowledged_over(before, sessions.drop_last()), sessions.last().steps)
    }
}

/// More entries to start with make up no fewer.
proof fn acknowledged_grows<S: Store>(
    a: Multiset<(S::Id, S::Item)>,
    b: Multiset<(S::Id, S::Item)>,
    steps: Seq<Step<S>>,
)
    requires
        a.subset_of(b),
    ensures
        acknowledged(a, steps).subset_of(acknowledged(b, steps)),
    decreases steps.len(),
{
    if steps.len() > 0 {
        acknowledged_grows(a, b, steps.drop_last());
    }
}

/// All sessions but the last follow each other too, and the last was opened on the disk
/// that they left.
proof fn earlier_sessions_follow<S: Store, B: SizeBand>(
    store: S,
    flush_threshold: usize,
    cfg: TierConfig<B>,
    sessions: Seq<Session<S>>,
)
    requires
        sessions.len() > 1,
        followed(store, flush_threshold, cfg, sessions),
    ensures
        followed(store, flush_threshold, cfg, sessions.drop_last()),
        sessions.drop_last()[0] == sessions[0],
        sessions.last().moments[0].disk == sessions.drop_last().last().moments.last().disk,
{
    let earlier = sessions.drop_last();
    let n = sessions.len() - 1;
    assert forall|j: int| 0 <= j < earlier.len() implies {
        let s = #[trigger] earlier[j];
        &&& ran(store, flush_threshold, cfg, s.steps, s.moments)
        &&& recovers(store, flush_threshold, s.moments[0].disk, s.moments[0].st)
        &&& base_of(s.moments[0].disk).next_id + log_of(s.moments[0].disk).len() < u64::MAX
    } by {
        assert(earlier[j] == sessions[j]);
    }
    assert forall|i: int, j: int| 0 <= i && i + 1 == j && j < earlier.len() implies (
    #[trigger] earlier[j]).moments[0].disk == (#[trigger] earlier[i]).moments.last().disk by {
        assert(earlier[j] == sessions[j] && earlier[i] == sessions[i]);
    }
    assert(sessions[n] == sessions.last() && sessions[n - 1] == earlier.last());
}

/// Over any number of sessions, each stopped anywhere and opened again, no acknowledged
/// write is lost, and the disk can be opened once more.
pub proof fn no_acknowledged_write_is_ever_lost<S: Store, B: SizeBand>(
    store: S,
    flush_threshold: usize,
    cfg: TierConfig<B>,
    content: spec_fn(S::Segment) -> Multiset<(S::Id, S::Item)>,
    sessions: Seq<Session<S>>,
    reopened: State<S>,
)
    requires
        faithful(store, content),
        sessions.len() > 0,
        sound(sessions[0].moments[0].disk),
        followed(store, flush_threshold, cfg, sessions),
        recovers(store, flush_threshold, sessions.last().moments.last().disk, reopened),
    ensures
        sound(sessions.last().moments.last().disk),
        acknowledged_over(live(content, sessions[0].moments[0].st), sessions).subset_of(
            live(content, reopened),
        ),
    decreases sessions.len(),
{
    let before = live(content, sessions[0].moments[0].st);
    let s = sessions.last();
    let first = s.moments[0];
    let earlier = sessions.drop_last();
    let n = sessions.len() - 1;
    assert(sessions[n] == s);
    if sessions.len() > 1 {
        earlier_sessions_follow(store, flush_threshold, cfg, sessions);
        no_acknowledged_write_is_ever_lost(
            store,
            flush_threshold,
            cfg,
            content,
            earlier,
            first.st,
        );
    } else {
        assert(earlier =~= Seq::empty());
    }
    assert(opened(store, flush_threshold, first));
    a_run_leaves_a_sound_disk(store, flush_threshold, cfg, s.steps, s.moments);
    no_acknowledged_write_is_lost(
        store,
        flush_threshold,
        cfg,
        content,
        s.steps,
        s.moments,
        reopened,
    );
    acknowledged_grows(
        acknowledged_over(before, earlier),
        live(content, first.st),
        s.steps,
    );
}

/// No step adds this identity.
pub open spec fn never_added<S: Store>(steps: Seq<Step<S>>, id: S::Id) -> bool {
    forall|k: int|
        0 <= k < steps.len() ==> (#[trigger] steps[k] matches Step::Acknowledge(Op::Add(x, _))
            ==> x != id)
}

/// The last acknowledged operation on an identity, over all sessions, was a delete.
pub open spec fn ends_deleted_over<S: Store>(sessions: Seq<Session<S>>, id: S::Id) -> bool
    decreases sessions.len(),
{
    sessions.len() > 0 && (ends_deleted(sessions.last().steps, id) || (never_added(
        sessions.last().steps,
        id,
    ) && ends_deleted_over(sessions.drop_last(), id)))
}

/// Without an add there are no more entries of an identity than before.
proof fn acknowledged_without_adds<S: Store>(
    before: Multiset<(S::Id, S::Item)>,
    steps: Seq<Step<S>>,
    e: (S::Id, S::Item),
)
    requires
        never_added(steps, e.0),
    ensures
        acknowledged(before, steps).count(e) <= before.count(e),
    decreases steps.len(),
{
    if steps.len() > 0 {
        let front = steps.drop_last();
        assert forall|k: int| 0 <= k < front.len() implies (
        #[trigger] front[k] matches Step::Acknowledge(Op::Add(x, _)) ==> x != e.0) by {
            assert(front[k] == steps[k]);
        }
        acknowledged_without_adds(before, front, e);
        assert(steps[steps.len() - 1] == steps.last());
    }
}

/// Over any number of sessions, no acknowledged delete is lost: an identity whose last
/// acknowledged operation is a delete has no live entry.
pub proof fn no_acknowledged_delete_is_ever_lost<S: Store, B: SizeBand>(
    store: S,
    flush_threshold: usize,
    cfg: TierConfig<B>,
    content: spec_fn(S::Segment) -> Multiset<(S::Id, S::Item)>,
    sessions: Seq<Session<S>>,
    reopened: State<S>,
    id: S::Id,
    item: S::Item,
)
    requires
        faithful(store, content),
        sound(sessions[0].moments[0].disk),
        followed(store, flush_threshold, cfg, sessions),
        recovers(store, flush_threshold, sessions.last().moments.last().disk, reopened),
        ends_deleted_over(sessions, id),
    ensures
        live(content, reopened).count((id, item)) == 0,
    decreases sessions.len(),
{
    let s = sessions.last();
    let first = s.moments[0];
    let earlier = sessions.drop_last();
    assert(sessions[sessions.len() - 1] == s);
    if sessions.len() > 1 {
        earlier_sessions_follow(store, flush_threshold, cfg, sessions);
        no_acknowledged_write_is_ever_lost(
            store,
            flush_threshold,
            cfg,
            content,
            earlier,
            first.st,
        );
    }
    assert(opened(store, flush_threshold, first));
    if ends_deleted(s.steps, id) {
        no_acknowledged_delete_is_lost(
            store,
            flush_threshold,
            cfg,
            content,
            s.steps,
            s.moments,
            reopened,
            id,
            item,
        );
    } else {
        assert(ends_deleted_over(earlier, id));
        assert(earlier.len() > 0);
        no_acknowledged_delete_is_ever_lost(
            store,
            flush_threshold,
            cfg,
            content,
            earlier,
            first.st,
            id,
            item,
        );
        acknowledged_without_adds(live(content, first.st), s.steps, (id, item));
        reopening_is_exact_by_identity(
            store,
            flush_threshold,
            cfg,
            content,
            s.steps,
            s.moments,
            reopened,
            id,
            item,
        );
    }
}

} // verus!
