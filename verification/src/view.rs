//! Point-in-time read views.

use crate::ids::{copy_ids, lawful_id};
use crate::state::{list_of, members_of, payloads, Snapshot};
use crate::store::Store;
use std::collections::HashSet;
use std::sync::Arc;
use vstd::prelude::*;

verus! {

/// A consistent, point-in-time read view of the store, independent of the writer.
///
/// Holding one keeps its segments alive for the whole query even as the writer adds,
/// deletes, or compacts. Visibility is *commit-style*: a view reflects the state as of
/// the last checkpoint (which compaction also performs), so adds and deletes since
/// then become visible after the next checkpoint.
pub struct View<S: Store> {
    segments: Arc<Vec<Arc<S::Segment>>>,
    segment_ids: Arc<Vec<u64>>,
    tombstones: Arc<HashSet<S::Id>>,
}

impl<S: Store> View<S> {
    /// What this view shows.
    pub closed spec fn shows(&self) -> Snapshot<S> {
        Snapshot {
            segments: payloads(list_of(*self.segments)),
            ids: list_of(*self.segment_ids),
            tombstones: members_of(*self.tombstones),
        }
    }

    /// A view of the given segments, ids and tombstones. The segments are shared, not
    /// copied.
    pub(crate) fn of(
        segments: &Vec<Arc<S::Segment>>,
        segment_ids: &Vec<u64>,
        tombstones: &HashSet<S::Id>,
    ) -> (view: Self)
        requires
            lawful_id::<S::Id>(),
        ensures
            view.shows() == (Snapshot::<S> {
                segments: payloads(list_of(*segments)),
                ids: list_of(*segment_ids),
                tombstones: members_of(*tombstones),
            }),
    {
        let shared = crate::state::share_all(segments);
        let ids = crate::state::copy_numbers(segment_ids);
        let dead = copy_ids(tombstones);
        View {
            segments: Arc::new(shared),
            segment_ids: Arc::new(ids),
            tombstones: Arc::new(dead),
        }
    }

    /// The same view once more.
    pub fn again(&self) -> (view: Self)
        ensures
            view.shows() == self.shows(),
    {
        View {
            segments: self.segments.clone(),
            segment_ids: self.segment_ids.clone(),
            tombstones: self.tombstones.clone(),
        }
    }

    /// The snapshot's immutable segments, oldest first. Query these, filtering with
    /// [`Self::is_live`].
    pub fn segments(&self) -> (segments: &[Arc<S::Segment>])
        ensures
            payloads(crate::state::slice_of(segments)) == self.shows().segments,
    {
        self.segments.as_slice()
    }

    /// The stable persistence id of each segment in [`Self::segments`], same order.
    /// This id is stable across checkpoints and restarts (it names the segment's
    /// file), so a consumer can key a persisted per-segment index on it and reload
    /// across a process restart instead of rebuilding from the raw payload.
    pub fn segment_ids(&self) -> (ids: &[u64])
        ensures
            crate::state::slice_of(ids) == self.shows().ids,
    {
        self.segment_ids.as_slice()
    }

    /// Whether `id` is not tombstoned in this snapshot.
    pub fn is_live(&self, id: &S::Id) -> (live: bool)
        requires
            lawful_id::<S::Id>(),
        ensures
            live == !self.shows().tombstones.contains(*id),
    {
        !self.tombstones.contains(id)
    }

    /// Number of segments in this snapshot.
    pub fn segment_count(&self) -> (n: usize)
        ensures
            n == self.shows().segments.len(),
    {
        self.segments.len()
    }
}

} // verus!
