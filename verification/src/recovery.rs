//! Crash recovery: what a directory holds is enough to rebuild every acknowledged
//! write, at every point between two of its changes.
//!
//! A [`Disk`] is what survives a crash: the manifest, the segment files and the logs.
//! The laws here go through everything that a writer does to its disk and to its
//! state, and say that what recovery would rebuild stays in step with the state.

use crate::band::SizeBand;
use crate::catalog::said_by;
use crate::config::{CompactionStats, TierConfig};
use crate::content::{
    adding_stores_the_entry, deleting_takes_the_identity_out, faithful, live,
    sealing_keeps_content, stored, together_by_readings,
};
use crate::lineage::{descends, inherited, orderly, performing_descends, sealing_descends};
use crate::log::Op;
use crate::segmented::committable;
use crate::state::{
    applied, checkpointed, committed, compacted, consolidated, consolidation_group, force_merged,
    fresh, in_order, merged, performed, reclaimed, replayed, sealed, snapshot_of, tier_group, tier_merged,
    tiers_compacted, unwritten_from, Snapshot, State,
};
use crate::store::Store;
use vstd::multiset::Multiset;
use vstd::prelude::*;

verus! {

/// A manifest on disk.
#[verifier::ext_equal]
#[verifier::reject_recursive_types(S)]
pub struct DiskManifest<S: Store> {
    pub epoch: u64,
    pub next_id: u64,
    pub ids: Seq<u64>,
    pub tombstones: Set<S::Id>,
}

/// What survives a crash.
#[verifier::ext_equal]
#[verifier::reject_recursive_types(S)]
pub struct Disk<S: Store> {
    /// The manifest, if one was ever written.
    pub manifest: Option<DiskManifest<S>>,
    /// What the segment files hold.
    pub files: Map<u64, S::Segment>,
    /// The records of each log.
    pub logs: Map<u64, Seq<Op<S::Id, S::Item>>>,
}

/// The state that the manifest describes, with the segments from their files.
pub open spec fn base_of<S: Store>(disk: Disk<S>) -> State<S> {
    match disk.manifest {
        Some(m) => checkpointed(
            m.epoch,
            m.next_id,
            Snapshot {
                segments: m.ids.map_values(|id: u64| disk.files[id]),
                ids: m.ids,
                tombstones: m.tombstones,
            },
        ),
        None => fresh(),
    }
}

/// The records of the log that the manifest covers up to.
pub open spec fn log_of<S: Store>(disk: Disk<S>) -> Seq<Op<S::Id, S::Item>> {
    if disk.logs.contains_key(base_of(disk).epoch) {
        disk.logs[base_of(disk).epoch]
    } else {
        Seq::empty()
    }
}

/// Opening a store on this disk can give this state.
pub open spec fn recovers<S: Store>(
    store: S,
    flush_threshold: usize,
    disk: Disk<S>,
    st: State<S>,
) -> bool {
    replayed(store, flush_threshold, base_of(disk), log_of(disk), st)
}

/// The consumer's model fixes the shape of the segment that a batch becomes. A shape is
/// what a segment looks like to whoever compares: the entries in it, their order, or
/// nothing at all.
pub open spec fn definite<S: Store, V>(store: S, shape: spec_fn(S::Segment) -> V) -> bool {
    forall|batch: Seq<(S::Id, S::Item)>, a: S::Segment, b: S::Segment|
        #![trigger store.builds(batch, a), store.builds(batch, b)]
        store.builds(batch, a) && store.builds(batch, b) ==> shape(a) == shape(b)
}

/// A faithful model fixes the entries of the segment that a batch becomes.
pub proof fn faithful_is_definite<S: Store>(
    store: S,
    content: spec_fn(S::Segment) -> Multiset<(S::Id, S::Item)>,
)
    requires
        faithful(store, content),
    ensures
        definite(store, content),
{
}

/// Two states are the same, up to the shape of their segments: the same buffer,
/// tombstones, ids and epoch, and as many segments, each of the same shape.
pub open spec fn same<S: Store, V>(
    shape: spec_fn(S::Segment) -> V,
    a: State<S>,
    b: State<S>,
) -> bool {
    &&& a.buffer == b.buffer
    &&& a.tombstones == b.tombstones
    &&& a.ids == b.ids
    &&& a.next_id == b.next_id
    &&& a.epoch == b.epoch
    &&& a.segments.len() == b.segments.len()
    &&& a.segments.map_values(shape) == b.segments.map_values(shape)
}

/// A recovered state has the live entries of the writer's; it may still hold
/// tombstones that the writer has purged.
pub open spec fn alike<S: Store>(
    content: spec_fn(S::Segment) -> Multiset<(S::Id, S::Item)>,
    recovered: State<S>,
    st: State<S>,
) -> bool {
    &&& live(content, recovered) == live(content, st)
    &&& st.tombstones.subset_of(recovered.tombstones)
}

/// The writer's bookkeeping agrees with its disk.
pub open spec fn on_disk<S: Store>(disk: Disk<S>, st: State<S>) -> bool {
    &&& orderly(st)
    &&& base_of(disk).epoch == st.epoch
    &&& snapshot_of(base_of(disk)) == st.published
    &&& orderly(base_of(disk))
    &&& forall|id: u64| #[trigger]
        base_of(disk).ids.contains(id) ==> st.persisted.contains(id) && disk.files.contains_key(id)
    &&& forall|id: u64| #[trigger] st.persisted.contains(id) ==> id < st.next_id
    &&& forall|i: int|
        0 <= i < st.ids.len() && st.persisted.contains(#[trigger] st.ids[i])
            ==> disk.files.contains_key(st.ids[i]) && disk.files[st.ids[i]] == st.segments[i]
    &&& forall|e: u64| #[trigger]
        disk.logs.contains_key(e) && disk.logs[e].len() > 0 ==> e <= st.epoch
}

/// The disk mirrors the writer's state: its bookkeeping agrees, and whatever recovery
/// gives is the same, up to the shape of segments.
pub open spec fn mirrored<S: Store, V>(
    store: S,
    flush_threshold: usize,
    shape: spec_fn(S::Segment) -> V,
    disk: Disk<S>,
    st: State<S>,
) -> bool {
    &&& on_disk(disk, st)
    &&& forall|r: State<S>| #[trigger]
        recovers(store, flush_threshold, disk, r) ==> same(shape, r, st)
}

/// The disk backs the writer's state: it mirrors the state, entry by entry (`exact`), or
/// at least its bookkeeping agrees and whatever recovery gives has the same live entries.
pub open spec fn backed<S: Store>(
    store: S,
    flush_threshold: usize,
    content: spec_fn(S::Segment) -> Multiset<(S::Id, S::Item)>,
    exact: bool,
    disk: Disk<S>,
    st: State<S>,
) -> bool {
    if exact {
        mirrored(store, flush_threshold, content, disk, st)
    } else {
        &&& on_disk(disk, st)
        &&& forall|r: State<S>| #[trigger]
            recovers(store, flush_threshold, disk, r) ==> alike(content, r, st)
    }
}

/// No acknowledged write is lost: what is recovered from a disk that backs a state has
/// exactly the live entries of that state.
pub proof fn recovery_loses_nothing<S: Store>(
    store: S,
    flush_threshold: usize,
    content: spec_fn(S::Segment) -> Multiset<(S::Id, S::Item)>,
    exact: bool,
    disk: Disk<S>,
    st: State<S>,
    recovered: State<S>,
)
    requires
        backed(store, flush_threshold, content, exact, disk, st),
        recovers(store, flush_threshold, disk, recovered),
    ensures
        live(content, recovered) == live(content, st),
{
    if exact {
        same_is_alike(content, recovered, st);
    }
}

/// States that are the same are alike.
proof fn same_is_alike<S: Store>(
    content: spec_fn(S::Segment) -> Multiset<(S::Id, S::Item)>,
    r: State<S>,
    st: State<S>,
)
    requires
        same(content, r, st),
    ensures
        alike(content, r, st),
        stored(content, r) == stored(content, st),
{
    together_by_readings::<S>(content, r.segments, st.segments);
}

/// A disk that mirrors a state backs it.
pub proof fn exact_backing_is_backing<S: Store>(
    store: S,
    flush_threshold: usize,
    content: spec_fn(S::Segment) -> Multiset<(S::Id, S::Item)>,
    exact: bool,
    disk: Disk<S>,
    st: State<S>,
)
    requires
        backed(store, flush_threshold, content, exact, disk, st),
    ensures
        backed(store, flush_threshold, content, false, disk, st),
{
    assert forall|r: State<S>| #[trigger] recovers(store, flush_threshold, disk, r) implies alike(
        content,
        r,
        st,
    ) by {
        if exact {
            same_is_alike(content, r, st);
        }
    }
}

/// Performing an operation keeps epoch, persisted files and what readers see: adds and
/// deletes become visible at the next checkpoint only.
pub proof fn performing_keeps_bookkeeping<S: Store>(
    store: S,
    flush_threshold: usize,
    pre: State<S>,
    op: Op<S::Id, S::Item>,
    post: State<S>,
)
    requires
        performed(store, flush_threshold, pre, op, post),
    ensures
        post.epoch == pre.epoch,
        post.persisted == pre.persisted,
        post.published == pre.published,
{
}

/// Replaying a log keeps epoch, persisted files and what readers see.
pub proof fn replaying_keeps_bookkeeping<S: Store>(
    store: S,
    flush_threshold: usize,
    pre: State<S>,
    ops: Seq<Op<S::Id, S::Item>>,
    post: State<S>,
)
    requires
        replayed(store, flush_threshold, pre, ops, post),
    ensures
        post.epoch == pre.epoch,
        post.persisted == pre.persisted,
        post.published == pre.published,
    decreases ops.len(),
{
    if ops.len() > 0 {
        let mid = choose|mid: State<S>|
            replayed(store, flush_threshold, pre, ops.drop_last(), mid) && #[trigger] performed(
                store,
                flush_threshold,
                mid,
                ops.last(),
                post,
            );
        replaying_keeps_bookkeeping(store, flush_threshold, pre, ops.drop_last(), mid);
        performing_keeps_bookkeeping(store, flush_threshold, mid, ops.last(), post);
    }
}

/// The same operation performed on two states that are the same gives states that are
/// the same: both fill up at the same time.
pub proof fn performing_agrees<S: Store, V>(
    store: S,
    flush_threshold: usize,
    shape: spec_fn(S::Segment) -> V,
    a: State<S>,
    b: State<S>,
    op: Op<S::Id, S::Item>,
    a_after: State<S>,
    b_after: State<S>,
)
    requires
        definite(store, shape),
        same(shape, a, b),
        performed(store, flush_threshold, a, op, a_after),
        performed(store, flush_threshold, b, op, b_after),
    ensures
        same(shape, a_after, b_after),
{
    let a_mid = applied(a, op);
    let b_mid = applied(b, op);
    if a_mid.buffer.len() > 0 && a_mid.buffer.len() >= flush_threshold {
        let x = a_after.segments.last();
        let y = b_after.segments.last();
        assert(store.builds(a_mid.buffer, x) && store.builds(a_mid.buffer, y));
        assert(a_after.segments.map_values(shape) =~= a.segments.map_values(shape).push(shape(x)));
        assert(b_after.segments.map_values(shape) =~= b.segments.map_values(shape).push(shape(y)));
    }
}

/// Replaying the same log twice gives the same buffer, tombstones, ids and segment
/// boundaries, and segments of the same shape: log replay and live writes cannot diverge.
pub proof fn replaying_agrees<S: Store, V>(
    store: S,
    flush_threshold: usize,
    shape: spec_fn(S::Segment) -> V,
    pre: State<S>,
    ops: Seq<Op<S::Id, S::Item>>,
    a: State<S>,
    b: State<S>,
)
    requires
        definite(store, shape),
        replayed(store, flush_threshold, pre, ops, a),
        replayed(store, flush_threshold, pre, ops, b),
    ensures
        same(shape, a, b),
    decreases ops.len(),
{
    if ops.len() > 0 {
        let a_mid = choose|mid: State<S>|
            replayed(store, flush_threshold, pre, ops.drop_last(), mid) && #[trigger] performed(
                store,
                flush_threshold,
                mid,
                ops.last(),
                a,
            );
        let b_mid = choose|mid: State<S>|
            replayed(store, flush_threshold, pre, ops.drop_last(), mid) && #[trigger] performed(
                store,
                flush_threshold,
                mid,
                ops.last(),
                b,
            );
        replaying_agrees(store, flush_threshold, shape, pre, ops.drop_last(), a_mid, b_mid);
        performing_agrees(store, flush_threshold, shape, a_mid, b_mid, ops.last(), a, b);
    }
}

/// Replaying the same log twice gives the same ids and as many segments, whatever the
/// consumer's model does.
pub proof fn replaying_keeps_boundaries<S: Store>(
    store: S,
    flush_threshold: usize,
    pre: State<S>,
    ops: Seq<Op<S::Id, S::Item>>,
    a: State<S>,
    b: State<S>,
)
    requires
        replayed(store, flush_threshold, pre, ops, a),
        replayed(store, flush_threshold, pre, ops, b),
    ensures
        a.buffer == b.buffer,
        a.tombstones == b.tombstones,
        a.ids == b.ids,
        a.next_id == b.next_id,
        a.segments.len() == b.segments.len(),
{
    replaying_agrees(store, flush_threshold, |s: S::Segment| (), pre, ops, a, b);
}

/// A disk that a store can be opened on: the ids of the manifest grow and their files
/// are there, and no log is ahead of it.
pub open spec fn sound<S: Store>(disk: Disk<S>) -> bool {
    &&& orderly(base_of(disk))
    &&& forall|id: u64| #[trigger]
        base_of(disk).ids.contains(id) ==> disk.files.contains_key(id)
    &&& forall|e: u64| #[trigger]
        disk.logs.contains_key(e) && disk.logs[e].len() > 0 ==> e <= base_of(disk).epoch
}

/// A disk that a writer's bookkeeping agrees with can be opened again.
pub proof fn a_disk_in_use_is_sound<S: Store>(disk: Disk<S>, st: State<S>)
    requires
        on_disk(disk, st),
    ensures
        sound(disk),
{
}

/// A freshly opened store is backed, exactly, by the disk it was opened on.
pub proof fn opening_is_backed<S: Store>(
    store: S,
    flush_threshold: usize,
    content: spec_fn(S::Segment) -> Multiset<(S::Id, S::Item)>,
    disk: Disk<S>,
    st: State<S>,
)
    requires
        faithful(store, content),
        sound(disk),
        base_of(disk).next_id + log_of(disk).len() < u64::MAX,
        recovers(store, flush_threshold, disk, st),
    ensures
        backed(store, flush_threshold, content, true, disk, st),
{
    faithful_is_definite(store, content);
    opening_is_mirrored(store, flush_threshold, content, disk, st);
}

/// A freshly opened store is mirrored by the disk it was opened on.
pub proof fn opening_is_mirrored<S: Store, V>(
    store: S,
    flush_threshold: usize,
    shape: spec_fn(S::Segment) -> V,
    disk: Disk<S>,
    st: State<S>,
)
    requires
        definite(store, shape),
        sound(disk),
        base_of(disk).next_id + log_of(disk).len() < u64::MAX,
        recovers(store, flush_threshold, disk, st),
    ensures
        mirrored(store, flush_threshold, shape, disk, st),
{
    let base = base_of(disk);
    replaying_keeps_bookkeeping(store, flush_threshold, base, log_of(disk), st);
    crate::lineage::replaying_descends(store, flush_threshold, base, log_of(disk), st);
    assert(base.persisted == base.ids.to_set());
    assert forall|id: u64| #[trigger] st.persisted.contains(id) implies id < st.next_id by {
        assert(base.ids.contains(id));
        let k = choose|k: int| 0 <= k < base.ids.len() && base.ids[k] == id;
        assert(base.ids[k] < base.next_id);
    }
    assert forall|i: int|
        0 <= i < st.ids.len() && st.persisted.contains(#[trigger] st.ids[i]) implies
        disk.files.contains_key(st.ids[i]) && disk.files[st.ids[i]] == st.segments[i] by {
        assert(base.ids.contains(st.ids[i]));
        let x = choose|x: int| 0 <= x < base.ids.len() && base.ids[x] == st.ids[i];
        assert(base.ids[x] < base.next_id);
        assert(inherited(base, st, i));
        let k = choose|k: int|
            0 <= k < base.ids.len() && #[trigger] base.ids[k] == st.ids[i] && base.segments[k]
                == st.segments[i];
        assert(base.segments[k] == disk.files[base.ids[k]]);
    }
    assert forall|id: u64| #[trigger] base_of(disk).ids.contains(id) implies st.persisted.contains(
        id,
    ) && disk.files.contains_key(id) by {}
    assert forall|r: State<S>| #[trigger] recovers(store, flush_threshold, disk, r) implies same(
        shape,
        r,
        st,
    ) by {
        replaying_agrees(store, flush_threshold, shape, base, log_of(disk), r, st);
    }
}

/// The disk after one more record in the current log.
pub open spec fn with_record<S: Store>(disk: Disk<S>, op: Op<S::Id, S::Item>) -> Disk<S> {
    Disk { logs: disk.logs.insert(base_of(disk).epoch, log_of(disk).push(op)), ..disk }
}

/// Every entry of an identity that a store holds, live or not.
pub open spec fn entries_of<S: Store>(
    content: spec_fn(S::Segment) -> Multiset<(S::Id, S::Item)>,
    st: State<S>,
    id: S::Id,
) -> Multiset<(S::Id, S::Item)> {
    stored(content, st).filter(|e: (S::Id, S::Item)| e.0 == id)
}

/// Adding the identity brings the same entries back to life in the writer's state as in
/// any that recovery gives: of that identity both hold the same entries, live or not.
pub open spec fn revives_alike<S: Store>(
    store: S,
    flush_threshold: usize,
    content: spec_fn(S::Segment) -> Multiset<(S::Id, S::Item)>,
    disk: Disk<S>,
    st: State<S>,
    id: S::Id,
) -> bool {
    forall|r: State<S>| #[trigger]
        recovers(store, flush_threshold, disk, r) ==> entries_of(content, r, id) == entries_of(
            content,
            st,
            id,
        )
}

/// An identity that recovery finds live has the same entries in both.
pub proof fn live_identities_revive_alike<S: Store>(
    store: S,
    flush_threshold: usize,
    content: spec_fn(S::Segment) -> Multiset<(S::Id, S::Item)>,
    exact: bool,
    disk: Disk<S>,
    st: State<S>,
    id: S::Id,
)
    requires
        backed(store, flush_threshold, content, exact, disk, st),
        forall|r: State<S>| #[trigger]
            recovers(store, flush_threshold, disk, r) ==> !r.tombstones.contains(id),
    ensures
        revives_alike(store, flush_threshold, content, disk, st, id),
{
    assert forall|r: State<S>| #[trigger] recovers(
        store,
        flush_threshold,
        disk,
        r,
    ) implies entries_of(content, r, id) == entries_of(content, st, id) by {
        if exact {
            same_is_alike(content, r, st);
        }
        assert forall|e: (S::Id, S::Item)| entries_of(content, r, id).count(e) == entries_of(
            content,
            st,
            id,
        ).count(e) by {
            assert(live(content, r).count(e) == live(content, st).count(e));
        }
        assert(entries_of(content, r, id) =~= entries_of(content, st, id));
    }
}

/// A record that is in the log is recovered: after it, the disk backs the state that
/// performing the operation gives.
///
/// Where recovery gives the same state as before, this holds of any operation. Where
/// it is only alike (segments have been sealed or merged since the last checkpoint,
/// which no record tells), it holds of every delete, and of every add but one that
/// brings other entries back to life in the writer's state than in a recovered one.
pub proof fn logging_keeps_backing<S: Store>(
    store: S,
    flush_threshold: usize,
    content: spec_fn(S::Segment) -> Multiset<(S::Id, S::Item)>,
    exact: bool,
    disk: Disk<S>,
    st: State<S>,
    op: Op<S::Id, S::Item>,
    after: State<S>,
)
    requires
        faithful(store, content),
        backed(store, flush_threshold, content, exact, disk, st),
        performed(store, flush_threshold, st, op, after),
        st.next_id < u64::MAX,
        exact || (op matches Op::Add(id, _) ==> revives_alike(
            store,
            flush_threshold,
            content,
            disk,
            st,
            id,
        )),
    ensures
        backed(store, flush_threshold, content, exact, with_record(disk, op), after),
{
    let grown = with_record(disk, op);
    if exact {
        faithful_is_definite(store, content);
        logging_keeps_mirror(store, flush_threshold, content, disk, st, op, after);
    } else {
        logging_keeps_bookkeeping(store, flush_threshold, disk, st, op, after);
        assert forall|r: State<S>| #[trigger] recovers(
            store,
            flush_threshold,
            grown,
            r,
        ) implies alike(content, r, after) by {
            let before = recovered_before(store, flush_threshold, disk, op, r);
            match op {
                Op::Add(id, item) => {
                    adding_stores_the_entry(
                        store,
                        content,
                        flush_threshold,
                        before,
                        id,
                        item,
                        r,
                    );
                    adding_stores_the_entry(
                        store,
                        content,
                        flush_threshold,
                        st,
                        id,
                        item,
                        after,
                    );
                    adding_revives(content, before, st, id, item, r, after);
                },
                Op::Delete(id) => {
                    deleting_takes_the_identity_out(
                        store,
                        content,
                        flush_threshold,
                        before,
                        id,
                        r,
                    );
                    deleting_takes_the_identity_out(
                        store,
                        content,
                        flush_threshold,
                        st,
                        id,
                        after,
                    );
                },
            }
        }
    }
}

/// What is recovered with one more record comes from what was recovered without it.
pub proof fn recovered_before<S: Store>(
    store: S,
    flush_threshold: usize,
    disk: Disk<S>,
    op: Op<S::Id, S::Item>,
    r: State<S>,
) -> (before: State<S>)
    requires
        recovers(store, flush_threshold, with_record(disk, op), r),
    ensures
        recovers(store, flush_threshold, disk, before),
        performed(store, flush_threshold, before, op, r),
{
    let grown = with_record(disk, op);
    let ops = log_of(disk).push(op);
    assert(base_of(grown) == base_of(disk));
    assert(log_of(grown) == ops);
    assert(ops.drop_last() =~= log_of(disk));
    choose|mid: State<S>|
        replayed(store, flush_threshold, base_of(disk), ops.drop_last(), mid)
            && #[trigger] performed(store, flush_threshold, mid, ops.last(), r)
}

/// Logging an operation and performing it keeps the writer's bookkeeping in agreement
/// with its disk.
pub proof fn logging_keeps_bookkeeping<S: Store>(
    store: S,
    flush_threshold: usize,
    disk: Disk<S>,
    st: State<S>,
    op: Op<S::Id, S::Item>,
    after: State<S>,
)
    requires
        on_disk(disk, st),
        performed(store, flush_threshold, st, op, after),
        st.next_id < u64::MAX,
    ensures
        on_disk(with_record(disk, op), after),
        base_of(with_record(disk, op)) == base_of(disk),
        log_of(with_record(disk, op)) == log_of(disk).push(op),
{
    let grown = with_record(disk, op);
    assert(base_of(grown) == base_of(disk));
    performing_descends(store, flush_threshold, st, op, after);
    performing_keeps_bookkeeping(store, flush_threshold, st, op, after);
    bookkeeping_survives(disk, st, after);
}

/// A record that is in the log is recovered: after it, the disk mirrors the state that
/// performing the operation gives.
pub proof fn logging_keeps_mirror<S: Store, V>(
    store: S,
    flush_threshold: usize,
    shape: spec_fn(S::Segment) -> V,
    disk: Disk<S>,
    st: State<S>,
    op: Op<S::Id, S::Item>,
    after: State<S>,
)
    requires
        definite(store, shape),
        mirrored(store, flush_threshold, shape, disk, st),
        performed(store, flush_threshold, st, op, after),
        st.next_id < u64::MAX,
    ensures
        mirrored(store, flush_threshold, shape, with_record(disk, op), after),
{
    logging_keeps_bookkeeping(store, flush_threshold, disk, st, op, after);
    assert forall|r: State<S>| #[trigger] recovers(
        store,
        flush_threshold,
        with_record(disk, op),
        r,
    ) implies same(shape, r, after) by {
        let before = recovered_before(store, flush_threshold, disk, op, r);
        performing_agrees(store, flush_threshold, shape, before, st, op, r, after);
    }
}

/// Two states with the same live entries, and with the same entries of one identity,
/// have the same live entries after that identity is added to both.
proof fn adding_revives<S: Store>(
    content: spec_fn(S::Segment) -> Multiset<(S::Id, S::Item)>,
    a: State<S>,
    b: State<S>,
    id: S::Id,
    item: S::Item,
    a_after: State<S>,
    b_after: State<S>,
)
    requires
        live(content, a) == live(content, b),
        entries_of(content, a, id) == entries_of(content, b, id),
        stored(content, a_after) == stored(content, a).insert((id, item)),
        stored(content, b_after) == stored(content, b).insert((id, item)),
        a_after.tombstones == a.tombstones.remove(id),
        b_after.tombstones == b.tombstones.remove(id),
    ensures
        live(content, a_after) == live(content, b_after),
{
    assert forall|e: (S::Id, S::Item)| live(content, a_after).count(e) == live(
        content,
        b_after,
    ).count(e) by {
        if e.0 == id {
            assert(entries_of(content, a, id).count(e) == stored(content, a).count(e));
            assert(entries_of(content, b, id).count(e) == stored(content, b).count(e));
            assert(live(content, a_after).count(e) == stored(content, a_after).count(e));
            assert(live(content, b_after).count(e) == stored(content, b_after).count(e));
        } else {
            assert(e != (id, item));
            assert(stored(content, a_after).count(e) == stored(content, a).count(e));
            assert(stored(content, b_after).count(e) == stored(content, b).count(e));
            assert(live(content, a_after).count(e) == live(content, a).count(e));
            assert(live(content, b_after).count(e) == live(content, b).count(e));
        }
    }
    assert(live(content, a_after) =~= live(content, b_after));
}

/// Bookkeeping that agrees with a disk goes on agreeing when the state moves on
/// without touching it.
pub proof fn bookkeeping_survives<S: Store>(disk: Disk<S>, st: State<S>, after: State<S>)
    requires
        on_disk(disk, st),
        descends(st, after),
        after.epoch == st.epoch,
        after.persisted == st.persisted,
        after.published == st.published,
    ensures
        on_disk(disk, after),
{
    assert forall|i: int|
        0 <= i < after.ids.len() && after.persisted.contains(#[trigger] after.ids[i]) implies
        disk.files.contains_key(after.ids[i]) && disk.files[after.ids[i]] == after.segments[i] by {
        assert(after.ids[i] < st.next_id);
        assert(inherited(st, after, i));
        let k = choose|k: int|
            0 <= k < st.ids.len() && #[trigger] st.ids[k] == after.ids[i] && st.segments[k]
                == after.segments[i];
        assert(st.persisted.contains(st.ids[k]));
    }
}

/// Sealing the buffer without a record of it, as a compaction or a checkpoint does,
/// keeps every live entry recoverable.
pub proof fn sealing_keeps_backing<S: Store>(
    store: S,
    flush_threshold: usize,
    content: spec_fn(S::Segment) -> Multiset<(S::Id, S::Item)>,
    exact: bool,
    disk: Disk<S>,
    st: State<S>,
    after: State<S>,
)
    requires
        faithful(store, content),
        backed(store, flush_threshold, content, exact, disk, st),
        sealed(store, st, after),
        st.next_id < u64::MAX,
    ensures
        backed(store, flush_threshold, content, false, disk, after),
{
    sealing_descends(store, st, after);
    sealing_keeps_content(store, content, st, after);
    rearranging_keeps_backing(store, flush_threshold, content, exact, disk, st, after);
}

/// Whatever rearranges the segments, keeps the live entries and adds no tombstone keeps
/// every live entry recoverable.
proof fn rearranging_keeps_backing<S: Store>(
    store: S,
    flush_threshold: usize,
    content: spec_fn(S::Segment) -> Multiset<(S::Id, S::Item)>,
    exact: bool,
    disk: Disk<S>,
    st: State<S>,
    after: State<S>,
)
    requires
        backed(store, flush_threshold, content, exact, disk, st),
        descends(st, after),
        after.epoch == st.epoch,
        after.persisted == st.persisted,
        after.published == st.published,
        live(content, after) == live(content, st),
        after.tombstones.subset_of(st.tombstones),
    ensures
        backed(store, flush_threshold, content, false, disk, after),
{
    bookkeeping_survives(disk, st, after);
    assert forall|r: State<S>| #[trigger] recovers(store, flush_threshold, disk, r) implies alike(
        content,
        r,
        after,
    ) by {
        if exact {
            same_is_alike(content, r, st);
        }
    }
}

/// The disk after a segment file was written.
pub open spec fn with_file<S: Store>(disk: Disk<S>, id: u64, segment: S::Segment) -> Disk<S> {
    Disk { files: disk.files.insert(id, segment), ..disk }
}

/// A file that the manifest does not name does not matter, whatever it holds: a crash
/// in the middle of a checkpoint, before the manifest, leaves everything recoverable.
pub proof fn stray_files_keep_backing<S: Store>(
    store: S,
    flush_threshold: usize,
    content: spec_fn(S::Segment) -> Multiset<(S::Id, S::Item)>,
    exact: bool,
    disk: Disk<S>,
    st: State<S>,
    id: u64,
    segment: S::Segment,
)
    requires
        backed(store, flush_threshold, content, exact, disk, st),
        !st.persisted.contains(id),
    ensures
        backed(store, flush_threshold, content, exact, with_file(disk, id, segment), st),
        base_of(with_file(disk, id, segment)) == base_of(disk),
{
    stray_files_keep_bookkeeping(disk, st, id, segment);
    unchanged_recovery_keeps_backing(
        store,
        flush_threshold,
        content,
        exact,
        disk,
        st,
        with_file(disk, id, segment),
        st,
    );
}

/// A file that the manifest does not name changes nothing about bookkeeping and
/// recovery.
pub proof fn stray_files_keep_bookkeeping<S: Store>(
    disk: Disk<S>,
    st: State<S>,
    id: u64,
    segment: S::Segment,
)
    requires
        on_disk(disk, st),
        !st.persisted.contains(id),
    ensures
        on_disk(with_file(disk, id, segment), st),
        base_of(with_file(disk, id, segment)) == base_of(disk),
        log_of(with_file(disk, id, segment)) == log_of(disk),
{
    let grown = with_file(disk, id, segment);
    if let Some(m) = disk.manifest {
        let base = base_of(disk);
        assert forall|i: int| 0 <= i < m.ids.len() implies grown.files[#[trigger] m.ids[i]]
            == disk.files[m.ids[i]] by {
            assert(base.ids.contains(m.ids[i]));
        }
        assert(m.ids.map_values(|id: u64| grown.files[id]) =~= m.ids.map_values(
            |id: u64| disk.files[id],
        ));
    }
    assert(base_of(grown) == base_of(disk));
    assert(log_of(grown) == log_of(disk));
}

/// Where recovery starts from the same base and replays the same log, it gives the same
/// as before.
proof fn unchanged_recovery_keeps_backing<S: Store>(
    store: S,
    flush_threshold: usize,
    content: spec_fn(S::Segment) -> Multiset<(S::Id, S::Item)>,
    exact: bool,
    disk: Disk<S>,
    st: State<S>,
    disk_after: Disk<S>,
    after: State<S>,
)
    requires
        backed(store, flush_threshold, content, exact, disk, st),
        on_disk(disk_after, after),
        base_of(disk_after) == base_of(disk),
        log_of(disk_after) == log_of(disk),
        after == (State { persisted: after.persisted, ..st }),
    ensures
        backed(store, flush_threshold, content, exact, disk_after, after),
{
    if exact {
        unchanged_recovery_keeps_mirror(
            store,
            flush_threshold,
            content,
            disk,
            st,
            disk_after,
            after,
        );
    } else {
        assert forall|r: State<S>| #[trigger] recovers(
            store,
            flush_threshold,
            disk_after,
            r,
        ) implies alike(content, r, after) by {
            assert(recovers(store, flush_threshold, disk, r));
            assert(live(content, after) == live(content, st));
        }
    }
}

/// Where recovery starts from the same base and replays the same log, it gives the same
/// as before.
pub proof fn unchanged_recovery_keeps_mirror<S: Store, V>(
    store: S,
    flush_threshold: usize,
    shape: spec_fn(S::Segment) -> V,
    disk: Disk<S>,
    st: State<S>,
    disk_after: Disk<S>,
    after: State<S>,
)
    requires
        mirrored(store, flush_threshold, shape, disk, st),
        on_disk(disk_after, after),
        base_of(disk_after) == base_of(disk),
        log_of(disk_after) == log_of(disk),
        after == (State { persisted: after.persisted, ..st }),
    ensures
        mirrored(store, flush_threshold, shape, disk_after, after),
{
    assert forall|r: State<S>| #[trigger] recovers(
        store,
        flush_threshold,
        disk_after,
        r,
    ) implies same(shape, r, after) by {
        assert(recovers(store, flush_threshold, disk, r));
    }
}

/// Writing the file of a segment, and noting that it is on disk, keeps everything
/// recoverable.
pub proof fn writing_a_segment_keeps_backing<S: Store>(
    store: S,
    flush_threshold: usize,
    content: spec_fn(S::Segment) -> Multiset<(S::Id, S::Item)>,
    exact: bool,
    disk: Disk<S>,
    st: State<S>,
    i: int,
)
    requires
        backed(store, flush_threshold, content, exact, disk, st),
        0 <= i < st.ids.len(),
        !st.persisted.contains(st.ids[i]),
    ensures
        backed(
            store,
            flush_threshold,
            content,
            exact,
            with_file(disk, st.ids[i], st.segments[i]),
            State { persisted: st.persisted.insert(st.ids[i]), ..st },
        ),
{
    writing_a_segment_keeps_bookkeeping(disk, st, i);
    unchanged_recovery_keeps_backing(
        store,
        flush_threshold,
        content,
        exact,
        disk,
        st,
        with_file(disk, st.ids[i], st.segments[i]),
        State { persisted: st.persisted.insert(st.ids[i]), ..st },
    );
}

/// Writing the file of a segment, and noting that it is on disk, keeps the bookkeeping
/// in agreement and changes nothing about recovery.
pub proof fn writing_a_segment_keeps_bookkeeping<S: Store>(disk: Disk<S>, st: State<S>, i: int)
    requires
        on_disk(disk, st),
        0 <= i < st.ids.len(),
        !st.persisted.contains(st.ids[i]),
    ensures
        ({
            let grown = with_file(disk, st.ids[i], st.segments[i]);
            &&& on_disk(grown, State { persisted: st.persisted.insert(st.ids[i]), ..st })
            &&& base_of(grown) == base_of(disk)
            &&& log_of(grown) == log_of(disk)
        }),
{
    stray_files_keep_bookkeeping(disk, st, st.ids[i], st.segments[i]);
}

/// The disk after the manifest of a state was written under the next epoch.
pub open spec fn with_manifest<S: Store>(disk: Disk<S>, st: State<S>) -> Disk<S> {
    Disk {
        manifest: Some(
            DiskManifest {
                epoch: (st.epoch + 1) as u64,
                next_id: st.next_id,
                ids: st.ids,
                tombstones: st.tombstones,
            },
        ),
        ..disk
    }
}

/// Where no file is left to write, all are on disk.
proof fn everything_written<S: Store>(st: State<S>, from: nat)
    requires
        from <= st.ids.len(),
        unwritten_from(st, from) == st.ids.len(),
    ensures
        forall|i: int| from <= i < st.ids.len() ==> st.persisted.contains(#[trigger] st.ids[i]),
    decreases st.ids.len() - from,
{
    if from < st.ids.len() {
        everything_written(st, from + 1);
    }
}

/// Writing the manifest commits the state: from then on recovery gives exactly the
/// segments, ids and tombstones that the state has, with nothing buffered, and the disk
/// backs the committed state exactly.
pub proof fn committing_keeps_backing<S: Store>(
    store: S,
    flush_threshold: usize,
    content: spec_fn(S::Segment) -> Multiset<(S::Id, S::Item)>,
    exact: bool,
    disk: Disk<S>,
    st: State<S>,
    recovered: State<S>,
)
    requires
        backed(store, flush_threshold, content, exact, disk, st),
        committable(st),
        st.epoch < u64::MAX,
    ensures
        backed(
            store,
            flush_threshold,
            content,
            true,
            with_manifest(disk, st),
            committed(st),
        ),
        recovers(store, flush_threshold, with_manifest(disk, st), recovered) ==> {
            &&& recovered.segments == st.segments
            &&& recovered.ids == st.ids
            &&& recovered.tombstones == st.tombstones
            &&& recovered.next_id == st.next_id
            &&& recovered.epoch == st.epoch + 1
            &&& recovered.buffer.len() == 0
        },
{
    committing_is_mirrored(store, flush_threshold, content, disk, st);
    let grown = with_manifest(disk, st);
    committing_keeps_bookkeeping(disk, st);
    assert(recovers(store, flush_threshold, grown, recovered) ==> recovered == base_of(grown));
}

/// Writing the manifest keeps the bookkeeping in agreement; recovery starts from what
/// was committed, with an empty log.
pub proof fn committing_keeps_bookkeeping<S: Store>(disk: Disk<S>, st: State<S>)
    requires
        on_disk(disk, st),
        committable(st),
        st.epoch < u64::MAX,
    ensures
        on_disk(with_manifest(disk, st), committed(st)),
        base_of(with_manifest(disk, st)).segments == st.segments,
        log_of(with_manifest(disk, st)).len() == 0,
{
    let grown = with_manifest(disk, st);
    let base = base_of(grown);
    let after = committed(st);
    everything_written(st, 0);
    assert(base.segments =~= st.segments);
    assert(log_of(grown).len() == 0);
    assert(snapshot_of(base) =~= after.published);
    assert forall|id: u64| #[trigger] base.ids.contains(id) implies after.persisted.contains(id)
        && grown.files.contains_key(id) by {
        let i = choose|i: int| 0 <= i < st.ids.len() && st.ids[i] == id;
        assert(st.persisted.contains(st.ids[i]));
    }
}

/// Writing the manifest makes the disk mirror the committed state, whatever recovery
/// would have given before.
pub proof fn committing_is_mirrored<S: Store, V>(
    store: S,
    flush_threshold: usize,
    shape: spec_fn(S::Segment) -> V,
    disk: Disk<S>,
    st: State<S>,
)
    requires
        on_disk(disk, st),
        committable(st),
        st.epoch < u64::MAX,
    ensures
        mirrored(store, flush_threshold, shape, with_manifest(disk, st), committed(st)),
{
    let grown = with_manifest(disk, st);
    committing_keeps_bookkeeping(disk, st);
    assert forall|r: State<S>| #[trigger] recovers(store, flush_threshold, grown, r) implies same(
        shape,
        r,
        committed(st),
    ) by {
        assert(r == base_of(grown));
        assert(r.buffer =~= committed(st).buffer);
    }
}

/// What a complete checkpoint leaves: the next epoch, an empty buffer, the tombstones as
/// they were, the segments and ids as they were, with one fresh segment at the end if
/// anything was buffered; and readers see exactly that. `written` is the sealed state
/// once the files of all its segments are on disk.
pub proof fn what_a_checkpoint_leaves<S: Store>(
    store: S,
    pre: State<S>,
    mid: State<S>,
    written: State<S>,
)
    requires
        pre.epoch < u64::MAX,
        sealed(store, pre, mid),
        written == (State { persisted: written.persisted, ..mid }),
        committable(written),
    ensures
        ({
            let post = committed(written);
            &&& post.epoch == pre.epoch + 1
            &&& post.buffer.len() == 0
            &&& post.tombstones == pre.tombstones
            &&& pre.buffer.len() == 0 ==> post.segments == pre.segments && post.ids == pre.ids
                && post.next_id == pre.next_id
            &&& pre.buffer.len() > 0 ==> store.builds(pre.buffer, post.segments.last())
                && post.segments == pre.segments.push(post.segments.last()) && post.ids
                == pre.ids.push(pre.next_id)
            &&& post.published == (Snapshot::<S> {
                segments: post.segments,
                ids: post.ids,
                tombstones: post.tombstones,
            })
        }),
{
}

/// A checkpoint writes only what is new: the file it asks for next is that of a segment
/// not known to be on disk, and those of all segments before it are.
pub proof fn next_file_is_new<S: Store>(st: State<S>, from: nat)
    requires
        from <= st.ids.len(),
    ensures
        from <= unwritten_from(st, from) <= st.ids.len(),
        unwritten_from(st, from) < st.ids.len() ==> !st.persisted.contains(
            st.ids[unwritten_from(st, from) as int],
        ),
        forall|i: int|
            from <= i < unwritten_from(st, from) ==> st.persisted.contains(#[trigger] st.ids[i]),
    decreases st.ids.len() - from,
{
    if from < st.ids.len() && st.persisted.contains(st.ids[from as int]) {
        next_file_is_new(st, from + 1);
    }
}

/// A checkpoint comes to an end: each file written moves it on to a later segment.
pub proof fn writing_moves_on<S: Store>(st: State<S>)
    requires
        unwritten_from(st, 0) < st.ids.len(),
    ensures
        ({
            let id = st.ids[unwritten_from(st, 0) as int];
            unwritten_from(State { persisted: st.persisted.insert(id), ..st }, 0)
                > unwritten_from(st, 0)
        }),
{
    let at = unwritten_from(st, 0);
    let after = State { persisted: st.persisted.insert(st.ids[at as int]), ..st };
    next_file_is_new(st, 0);
    next_file_is_new(after, 0);
}

/// No segment is written twice: right after a checkpoint, the next one asks for no
/// segment file at all.
pub proof fn committed_segments_are_written<S: Store>(st: State<S>)
    requires
        committable(st),
    ensures
        committable(committed(st)),
{
    everything_written(st, 0);
    next_file_is_new(committed(st), 0);
}

/// What a manifest on disk says to a catalog.
pub open spec fn reads_as<S: Store>(
    disk: Disk<S>,
    manifest: Option<crate::catalog::Manifest<S::Id>>,
) -> bool {
    match (disk.manifest, manifest) {
        (Some(m), Some(read)) => {
            &&& read.epoch == m.epoch
            &&& read.next_seg_id == m.next_id
            &&& read.segment_ids@ == m.ids
            &&& read.tombstones@.to_set() == m.tombstones
        },
        (None, None) => true,
        _ => false,
    }
}

/// A catalog of the directory shows what the writer's readers see: the segments and
/// tombstones of the last checkpoint, whatever was written since.
pub proof fn catalogs_show_what_readers_see<S: Store>(
    disk: Disk<S>,
    st: State<S>,
    manifest: Option<crate::catalog::Manifest<S::Id>>,
)
    requires
        on_disk(disk, st),
        reads_as(disk, manifest),
    ensures
        said_by(manifest).epoch == st.epoch,
        said_by(manifest).ids == st.published.ids,
        said_by(manifest).tombstones == st.published.tombstones,
        in_order(said_by(manifest).ids),
{
}

/// `thinned` is the disk without some files and logs that recovery does not read: it
/// keeps the manifest, the file of every segment known to be on disk, and the current
/// log.
pub open spec fn swept<S: Store>(disk: Disk<S>, st: State<S>, thinned: Disk<S>) -> bool {
    &&& thinned.manifest == disk.manifest
    &&& forall|id: u64| #[trigger]
        disk.files.contains_key(id) && st.persisted.contains(id) ==> thinned.files.contains_key(id)
            && thinned.files[id] == disk.files[id]
    &&& forall|e: u64| #[trigger]
        thinned.logs.contains_key(e) ==> disk.logs.contains_key(e) && thinned.logs[e]
            == disk.logs[e]
    &&& disk.logs.contains_key(st.epoch) ==> thinned.logs.contains_key(st.epoch)
}

/// Deleting garbage, any part of it, keeps everything recoverable.
pub proof fn sweeping_keeps_backing<S: Store>(
    store: S,
    flush_threshold: usize,
    content: spec_fn(S::Segment) -> Multiset<(S::Id, S::Item)>,
    exact: bool,
    disk: Disk<S>,
    st: State<S>,
    thinned: Disk<S>,
)
    requires
        backed(store, flush_threshold, content, exact, disk, st),
        swept(disk, st, thinned),
    ensures
        backed(store, flush_threshold, content, exact, thinned, st),
{
    sweeping_keeps_bookkeeping(disk, st, thinned);
    unchanged_recovery_keeps_backing(
        store,
        flush_threshold,
        content,
        exact,
        disk,
        st,
        thinned,
        st,
    );
}

/// Deleting garbage, any part of it, changes nothing about bookkeeping and recovery.
pub proof fn sweeping_keeps_bookkeeping<S: Store>(disk: Disk<S>, st: State<S>, thinned: Disk<S>)
    requires
        on_disk(disk, st),
        swept(disk, st, thinned),
    ensures
        on_disk(thinned, st),
        base_of(thinned) == base_of(disk),
        log_of(thinned) == log_of(disk),
{
    if let Some(m) = disk.manifest {
        let base = base_of(disk);
        assert forall|i: int| 0 <= i < m.ids.len() implies thinned.files[#[trigger] m.ids[i]]
            == disk.files[m.ids[i]] by {
            assert(base.ids.contains(m.ids[i]));
        }
        assert(m.ids.map_values(|id: u64| thinned.files[id]) =~= m.ids.map_values(
            |id: u64| disk.files[id],
        ));
    }
    assert(base_of(thinned) == base_of(disk));
    assert(log_of(thinned) == log_of(disk));
}

/// `thinned` is the disk after files were deleted, all of them garbage by their names.
pub open spec fn collected<S: Store>(
    disk: Disk<S>,
    garbage: spec_fn(Seq<char>) -> bool,
    thinned: Disk<S>,
) -> bool {
    &&& thinned.manifest == disk.manifest
    &&& forall|id: u64| #[trigger]
        disk.files.contains_key(id) && !garbage(crate::names::seg_name(id))
            ==> thinned.files.contains_key(id) && thinned.files[id] == disk.files[id]
    &&& forall|e: u64| #[trigger]
        thinned.logs.contains_key(e) ==> disk.logs.contains_key(e) && thinned.logs[e]
            == disk.logs[e]
    &&& forall|e: u64| #[trigger]
        disk.logs.contains_key(e) && !garbage(crate::names::wal_name(e))
            ==> thinned.logs.contains_key(e)
}

/// What is deleted on open is nothing that recovery reads.
pub proof fn collecting_on_open_sweeps<S: Store>(disk: Disk<S>, st: State<S>, thinned: Disk<S>)
    requires
        collected(
            disk,
            |name: Seq<char>| crate::names::is_leftover(name, st.epoch, st.persisted),
            thinned,
        ),
    ensures
        swept(disk, st, thinned),
{
    let garbage = |name: Seq<char>| crate::names::is_leftover(name, st.epoch, st.persisted);
    assert forall|id: u64| #[trigger]
        disk.files.contains_key(id) && st.persisted.contains(id) implies thinned.files.contains_key(
        id,
    ) && thinned.files[id] == disk.files[id] by {
        crate::names::seg_name_has_its_role(id);
        assert(!garbage(crate::names::seg_name(id)));
    }
    crate::names::wal_name_has_its_role(st.epoch);
    assert(!garbage(crate::names::wal_name(st.epoch)));
}

/// What is deleted after a checkpoint is nothing that recovery reads.
pub proof fn collecting_after_commit_sweeps<S: Store>(
    disk: Disk<S>,
    pre: State<S>,
    thinned: Disk<S>,
)
    requires
        pre.epoch < u64::MAX,
        collected(
            disk,
            |name: Seq<char>|
                name == crate::names::wal_name(pre.epoch) || crate::names::is_orphan(
                    name,
                    committed(pre).ids.to_set(),
                ),
            thinned,
        ),
    ensures
        swept(disk, committed(pre), thinned),
{
    let st = committed(pre);
    let garbage = |name: Seq<char>|
        name == crate::names::wal_name(pre.epoch) || crate::names::is_orphan(
            name,
            committed(pre).ids.to_set(),
        );
    crate::names::wal_name_has_its_role(pre.epoch);
    crate::names::wal_name_has_its_role(st.epoch);
    assert forall|id: u64| #[trigger]
        disk.files.contains_key(id) && st.persisted.contains(id) implies thinned.files.contains_key(
        id,
    ) && thinned.files[id] == disk.files[id] by {
        crate::names::seg_name_has_its_role(id);
        assert(st.ids.to_set().contains(id));
        assert(!garbage(crate::names::seg_name(id)));
    }
    assert(!garbage(crate::names::wal_name(st.epoch)));
}

/// Tier merges keep epoch, persisted files and what readers see.
pub proof fn tier_merges_keep_bookkeeping<S: Store, B: SizeBand>(
    store: S,
    flush_threshold: usize,
    cfg: TierConfig<B>,
    pre: State<S>,
    steps: nat,
    items: nat,
    post: State<S>,
)
    requires
        tier_merged(store, flush_threshold, cfg, pre, steps, items, post),
    ensures
        post.epoch == pre.epoch,
        post.persisted == pre.persisted,
        post.published == pre.published,
    decreases steps,
{
    if steps > 0 {
        let (mid, n) = choose|mid: State<S>, n: usize|
            #![trigger merged(store, mid, tier_group(store, flush_threshold, cfg, mid)->0, n, post)]
            n <= items && tier_merged(
                store,
                flush_threshold,
                cfg,
                pre,
                (steps - 1) as nat,
                (items - n) as nat,
                mid,
            ) && tier_group(store, flush_threshold, cfg, mid) is Some && merged(
                store,
                mid,
                tier_group(store, flush_threshold, cfg, mid)->0,
                n,
                post,
            );
        tier_merges_keep_bookkeeping(
            store,
            flush_threshold,
            cfg,
            pre,
            (steps - 1) as nat,
            (items - n) as nat,
            mid,
        );
    }
}

/// Consolidating merges keep epoch, persisted files and what readers see.
pub proof fn consolidating_merges_keep_bookkeeping<S: Store, B>(
    store: S,
    cfg: TierConfig<B>,
    max_segments: usize,
    pre: State<S>,
    steps: nat,
    items: nat,
    post: State<S>,
)
    requires
        consolidated(store, cfg, max_segments, pre, steps, items, post),
    ensures
        post.epoch == pre.epoch,
        post.persisted == pre.persisted,
        post.published == pre.published,
    decreases steps,
{
    if steps > 0 {
        let (mid, n) = choose|mid: State<S>, n: usize|
            #![trigger merged(store, mid, consolidation_group(store, cfg, max_segments, mid), n, post)]
            n <= items && consolidated(
                store,
                cfg,
                max_segments,
                pre,
                (steps - 1) as nat,
                (items - n) as nat,
                mid,
            ) && mid.segments.len() > max_segments && merged(
                store,
                mid,
                consolidation_group(store, cfg, max_segments, mid),
                n,
                post,
            );
        consolidating_merges_keep_bookkeeping(
            store,
            cfg,
            max_segments,
            pre,
            (steps - 1) as nat,
            (items - n) as nat,
            mid,
        );
    }
}

/// Size-tiered compaction, before its checkpoint, keeps every live entry recoverable,
/// and readers see what they saw.
pub proof fn tier_compaction_keeps_backing<S: Store, B: SizeBand>(
    store: S,
    flush_threshold: usize,
    content: spec_fn(S::Segment) -> Multiset<(S::Id, S::Item)>,
    cfg: TierConfig<B>,
    exact: bool,
    disk: Disk<S>,
    st: State<S>,
    stats: CompactionStats,
    after: State<S>,
)
    requires
        faithful(store, content),
        backed(store, flush_threshold, content, exact, disk, st),
        st.segments.len() <= usize::MAX,
        st.next_id + stats.merges < u64::MAX,
        tiers_compacted(store, flush_threshold, cfg, st, stats, after),
    ensures
        backed(store, flush_threshold, content, false, disk, after),
        after.published == st.published,
{
    let items = choose|items: nat| #[trigger]
        tier_merged(store, flush_threshold, cfg, st, stats.merges as nat, items, after)
            && stats.items_merged == crate::state::capped(items);
    tier_merges_keep_bookkeeping(
        store,
        flush_threshold,
        cfg,
        st,
        stats.merges as nat,
        items,
        after,
    );
    crate::content::tier_compaction_keeps_live_content(
        store,
        content,
        flush_threshold,
        cfg,
        st,
        stats,
        after,
    );
    crate::lineage::tier_compaction_descends(store, flush_threshold, cfg, st, stats, after);
    rearranging_keeps_backing(store, flush_threshold, content, exact, disk, st, after);
}

/// Consolidation, before its checkpoint, keeps every live entry recoverable, and readers
/// see what they saw.
pub proof fn consolidation_keeps_backing<S: Store, B>(
    store: S,
    flush_threshold: usize,
    content: spec_fn(S::Segment) -> Multiset<(S::Id, S::Item)>,
    cfg: TierConfig<B>,
    max_segments: usize,
    exact: bool,
    disk: Disk<S>,
    st: State<S>,
    stats: CompactionStats,
    after: State<S>,
)
    requires
        faithful(store, content),
        backed(store, flush_threshold, content, exact, disk, st),
        max_segments > 1,
        st.segments.len() <= usize::MAX,
        st.next_id + stats.merges < u64::MAX,
        force_merged(store, cfg, max_segments, st, stats, after),
    ensures
        backed(store, flush_threshold, content, false, disk, after),
        after.published == st.published,
{
    let items = choose|items: nat| #[trigger]
        consolidated(store, cfg, max_segments, st, stats.merges as nat, items, after)
            && stats.items_merged == crate::state::capped(items);
    consolidating_merges_keep_bookkeeping(
        store,
        cfg,
        max_segments,
        st,
        stats.merges as nat,
        items,
        after,
    );
    crate::content::consolidation_keeps_live_content(
        store,
        content,
        cfg,
        max_segments,
        st,
        stats,
        after,
    );
    crate::lineage::consolidation_descends(store, cfg, max_segments, st, stats, after);
    rearranging_keeps_backing(store, flush_threshold, content, exact, disk, st, after);
}

/// Full compaction of a sealed store, before its checkpoint, keeps every live entry
/// recoverable, and readers see what they saw.
pub proof fn compaction_keeps_backing<S: Store>(
    store: S,
    flush_threshold: usize,
    content: spec_fn(S::Segment) -> Multiset<(S::Id, S::Item)>,
    exact: bool,
    disk: Disk<S>,
    st: State<S>,
    stats: CompactionStats,
    after: State<S>,
)
    requires
        faithful(store, content),
        backed(store, flush_threshold, content, exact, disk, st),
        st.buffer.len() == 0,
        st.segments.len() <= usize::MAX,
        st.next_id < u64::MAX,
        compacted(store, st, stats, after),
    ensures
        backed(store, flush_threshold, content, false, disk, after),
        after.published == st.published,
{
    crate::content::compaction_keeps_exactly_live_content(store, content, st, stats, after);
    crate::lineage::compaction_descends(store, st, stats, after);
    rearranging_keeps_backing(store, flush_threshold, content, exact, disk, st, after);
}

/// Where no checkpoint is owed, nothing was merged, and there is nothing new to commit:
/// the state is what it was.
pub proof fn nothing_owed_nothing_merged<S: Store, B: SizeBand>(
    store: S,
    flush_threshold: usize,
    cfg: TierConfig<B>,
    max_segments: usize,
    low: spec_fn(usize, usize) -> bool,
    st: State<S>,
    stats: CompactionStats,
    after: State<S>,
)
    requires
        tiers_compacted(store, flush_threshold, cfg, st, stats, after) || force_merged(
            store,
            cfg,
            max_segments,
            st,
            stats,
            after,
        ) || reclaimed(store, low, st, stats, after),
        !stats.owes_checkpoint(false),
    ensures
        after == st,
{
}

/// Merging any segments, before a checkpoint, keeps every live entry recoverable, and
/// readers see what they saw.
pub proof fn merging_keeps_backing<S: Store>(
    store: S,
    flush_threshold: usize,
    content: spec_fn(S::Segment) -> Multiset<(S::Id, S::Item)>,
    exact: bool,
    disk: Disk<S>,
    st: State<S>,
    picks: Seq<usize>,
    n: usize,
    after: State<S>,
)
    requires
        faithful(store, content),
        backed(store, flush_threshold, content, exact, disk, st),
        st.segments.len() <= usize::MAX,
        st.next_id < u64::MAX,
        picks.no_duplicates(),
        forall|k: int| 0 <= k < picks.len() ==> #[trigger] picks[k] < st.segments.len(),
        merged(store, st, picks, n, after),
    ensures
        backed(store, flush_threshold, content, false, disk, after),
        after.published == st.published,
{
    crate::content::merging_keeps_live_content(store, content, st, picks, n, after);
    crate::lineage::merging_descends(store, st, picks, n, after);
    rearranging_keeps_backing(store, flush_threshold, content, exact, disk, st, after);
}

/// Reclaiming dead entries, before its checkpoint, keeps every live entry recoverable,
/// and readers see what they saw.
pub proof fn reclaiming_keeps_backing<S: Store>(
    store: S,
    flush_threshold: usize,
    content: spec_fn(S::Segment) -> Multiset<(S::Id, S::Item)>,
    low: spec_fn(usize, usize) -> bool,
    exact: bool,
    disk: Disk<S>,
    st: State<S>,
    stats: CompactionStats,
    after: State<S>,
)
    requires
        faithful(store, content),
        backed(store, flush_threshold, content, exact, disk, st),
        st.segments.len() <= usize::MAX,
        st.next_id < u64::MAX,
        reclaimed(store, low, st, stats, after),
    ensures
        backed(store, flush_threshold, content, false, disk, after),
        after.published == st.published,
{
    crate::content::reclaiming_keeps_live_content(store, content, low, st, stats, after);
    crate::lineage::reclaiming_descends(store, low, st, stats, after);
    rearranging_keeps_backing(store, flush_threshold, content, exact, disk, st, after);
}

/// A torn log is a prefix of the log: what is recovered from it is a state that
/// replaying the whole log goes through.
pub proof fn replaying_goes_through_every_prefix<S: Store>(
    store: S,
    flush_threshold: usize,
    pre: State<S>,
    ops: Seq<Op<S::Id, S::Item>>,
    post: State<S>,
    k: int,
) -> (mid: State<S>)
    requires
        replayed(store, flush_threshold, pre, ops, post),
        0 <= k <= ops.len(),
    ensures
        replayed(store, flush_threshold, pre, ops.take(k), mid),
        replayed(store, flush_threshold, mid, ops.skip(k), post),
    decreases ops.len(),
{
    if k == ops.len() {
        assert(ops.take(k) =~= ops);
        post
    } else {
        let before = choose|mid: State<S>|
            replayed(store, flush_threshold, pre, ops.drop_last(), mid) && #[trigger] performed(
                store,
                flush_threshold,
                mid,
                ops.last(),
                post,
            );
        let mid = replaying_goes_through_every_prefix(
            store,
            flush_threshold,
            pre,
            ops.drop_last(),
            before,
            k,
        );
        assert(ops.drop_last().take(k) =~= ops.take(k));
        assert(ops.skip(k).drop_last() =~= ops.drop_last().skip(k));
        assert(performed(store, flush_threshold, before, ops.skip(k).last(), post));
        mid
    }
}

} // verus!
