//! Checkpointed segment metadata without the segments.

use crate::checkpoint::{
    holds_payload, payload_fault, read_checkpoint_payload, read_checkpoint_payload_info,
    read_checkpoint_payload_into, stored_payload, stored_payload_len, SegmentPayloadInfo,
};
use crate::error::{not_found, PersistenceError, PersistenceResult};
use crate::ids::{collect_ids, hashable_id};
use crate::names::{
    idx_name, kind_complaint, legacy_ckpt_complaint, legacy_wal_complaint, readable_format,
    reject_legacy_formats, seg_name, seg_path, valid_kind, DirectoryProbe,
};
use crate::state::in_order;
use crate::text::push_decimal;
use std::collections::HashSet;
use std::hash::Hash;
use vstd::prelude::*;
use vstd::string::StringExecFns;

verus! {

/// A checkpoint manifest as read: the commit point of the on-disk state. It names the
/// current segment files by id and carries the tombstone set.
pub struct Manifest<Id> {
    /// The log epoch that the manifest covers.
    pub epoch: u64,
    /// The id that the next segment gets.
    pub next_seg_id: u64,
    /// The ids of the current segments, oldest first.
    pub segment_ids: Vec<u64>,
    /// The tombstoned identities.
    pub tombstones: Vec<Id>,
}

/// What a catalog holds.
#[verifier::ext_equal]
#[verifier::reject_recursive_types(Id)]
pub struct Contents<Id> {
    pub epoch: u64,
    pub next_id: u64,
    pub ids: Seq<u64>,
    pub tombstones: Set<Id>,
}

/// What a manifest says; without one, that there is nothing.
pub open spec fn said_by<Id>(manifest: Option<Manifest<Id>>) -> Contents<Id> {
    match manifest {
        Some(m) => Contents {
            epoch: m.epoch,
            next_id: m.next_seg_id,
            ids: m.segment_ids@,
            tombstones: m.tombstones@.to_set(),
        },
        None => Contents { epoch: 0, next_id: 0, ids: Seq::empty(), tombstones: Set::empty() },
    }
}

/// What is said of a segment that the manifest does not name.
pub open spec fn unnamed_complaint(id: u64) -> Seq<char> {
    "segment id "@ + crate::text::decimal(id as nat) + " is not in the checkpoint manifest"@
}

/// Checkpointed segment metadata without deserializing segment payloads.
///
/// This is a manifest reader, not an out-of-core query engine. It exposes the segment
/// ids and tombstones named by the last checkpoint so a consumer can find segment
/// files or sidecars without opening a store for writing. Operations logged after that
/// checkpoint are not exposed because they have not been sealed into immutable segment
/// files.
pub struct SegmentCatalog<Id> {
    epoch: u64,
    next_segment_id: u64,
    segment_ids: Vec<u64>,
    tombstones: HashSet<Id>,
}

impl<Id: Eq + Hash> SegmentCatalog<Id> {
    /// What the catalog holds.
    pub closed spec fn contents(&self) -> Contents<Id> {
        Contents {
            epoch: self.epoch,
            next_id: self.next_segment_id,
            ids: self.segment_ids@,
            tombstones: self.tombstones@,
        }
    }

    /// Open the last checkpoint manifest, if there is one, of a directory.
    pub fn open(probe: &DirectoryProbe, manifest: Option<Manifest<Id>>) -> (result:
        PersistenceResult<Self>)
        requires
            hashable_id::<Id>(),
        ensures
            readable_format(*probe) ==> (result matches Ok(catalog) && catalog.contents()
                == said_by(manifest)),
            probe.legacy_wal ==> crate::error::config_error(result, legacy_wal_complaint()),
            !probe.legacy_wal && !readable_format(*probe) ==> crate::error::config_error(
                result,
                legacy_ckpt_complaint(),
            ),
    {
        match reject_legacy_formats(probe) {
            Ok(()) => {},
            Err(e) => {
                return Err(e);
            },
        }
        match manifest {
            Some(m) => Ok(
                SegmentCatalog {
                    epoch: m.epoch,
                    next_segment_id: m.next_seg_id,
                    segment_ids: m.segment_ids,
                    tombstones: collect_ids(m.tombstones),
                },
            ),
            None => Ok(
                SegmentCatalog {
                    epoch: 0,
                    next_segment_id: 0,
                    segment_ids: Vec::new(),
                    tombstones: HashSet::new(),
                },
            ),
        }
    }

    /// Log epoch covered by the checkpoint manifest.
    pub fn epoch(&self) -> (epoch: u64)
        ensures
            epoch == self.contents().epoch,
    {
        self.epoch
    }

    /// Next segment id recorded in the manifest.
    pub fn next_segment_id(&self) -> (id: u64)
        ensures
            id == self.contents().next_id,
    {
        self.next_segment_id
    }

    /// Stable ids of the checkpointed immutable segments, oldest first.
    pub fn segment_ids(&self) -> (ids: &[u64])
        ensures
            ids@ == self.contents().ids,
    {
        self.segment_ids.as_slice()
    }

    /// Number of checkpointed immutable segments.
    pub fn segment_count(&self) -> (n: usize)
        ensures
            n == self.contents().ids.len(),
    {
        self.segment_ids.len()
    }

    /// Number of tombstoned ids in the checkpoint.
    pub fn tombstone_count(&self) -> (n: usize)
        requires
            hashable_id::<Id>(),
        ensures
            n == self.contents().tombstones.len(),
    {
        self.tombstones.len()
    }

    /// Whether `id` is not tombstoned in this checkpoint.
    pub fn is_live(&self, id: &Id) -> (live: bool)
        requires
            hashable_id::<Id>(),
        ensures
            live == !self.contents().tombstones.contains(*id),
    {
        !self.tombstones.contains(id)
    }

    /// Whether a binary search finds a segment. Ids are handed out in growing order and
    /// kept oldest first, so a manifest lists them in that order.
    fn found_in_order(&self, id: u64) -> (found: bool)
        ensures
            found ==> self.contents().ids.contains(id),
            in_order(self.contents().ids) ==> found == self.contents().ids.contains(id),
    {
        let mut low: usize = 0;
        let mut high: usize = self.segment_ids.len();
        while low < high
            invariant
                low <= high <= self.segment_ids@.len(),
                in_order(self.segment_ids@) ==> forall|k: int|
                    0 <= k < low ==> #[trigger] self.segment_ids@[k] < id,
                in_order(self.segment_ids@) ==> forall|k: int|
                    high <= k < self.segment_ids@.len() ==> #[trigger] self.segment_ids@[k] > id,
            decreases high - low,
        {
            let mid: usize = low + (high - low) / 2;
            let here = self.segment_ids[mid];
            assert(self.segment_ids@[mid as int] == here);
            if here == id {
                return true;
            }
            if here < id {
                low = mid + 1;
            } else {
                high = mid;
            }
        }
        false
    }

    /// Whether the checkpoint names a segment. A manifest that lists its ids in another
    /// order is searched through.
    fn ensure_segment_id(&self, id: u64) -> (result: PersistenceResult<()>)
        ensures
            self.contents().ids.contains(id) <==> result is Ok,
            !self.contents().ids.contains(id) ==> not_found(result, unnamed_complaint(id)),
    {
        if self.found_in_order(id) {
            return Ok(());
        }
        let mut i: usize = 0;
        while i < self.segment_ids.len()
            invariant
                i <= self.segment_ids@.len(),
                forall|k: int| 0 <= k < i ==> #[trigger] self.segment_ids@[k] != id,
            decreases self.segment_ids@.len() - i,
        {
            if self.segment_ids[i] == id {
                assert(self.segment_ids@[i as int] == id);
                return Ok(());
            }
            i += 1;
        }
        let mut message = String::from_str("segment id ");
        push_decimal(&mut message, id);
        message.append(" is not in the checkpoint manifest");
        Err(PersistenceError::NotFound(message))
    }

    /// Segment file name for `id`, if the checkpoint names that segment.
    pub fn segment_name(&self, id: u64) -> (result: PersistenceResult<String>)
        ensures
            self.contents().ids.contains(id) ==> (result matches Ok(name) && name@ == seg_name(id)),
            !self.contents().ids.contains(id) ==> not_found(result, unnamed_complaint(id)),
    {
        match self.ensure_segment_id(id) {
            Ok(()) => Ok(seg_path(id)),
            Err(e) => Err(e),
        }
    }

    /// Where the serialized payload lives in the file of a segment, given the file's
    /// bytes.
    ///
    /// This validates the checkpoint envelope and computes the public payload CRC. Use
    /// the returned offset and length for mmap or range reads, then verify
    /// [`SegmentPayloadInfo::payload_crc32`] over the mapped bytes before trusting
    /// them.
    pub fn segment_payload_info(&self, id: u64, file: &[u8]) -> (result: PersistenceResult<
        SegmentPayloadInfo,
    >)
        ensures
            if !self.contents().ids.contains(id) {
                not_found(result, unnamed_complaint(id))
            } else if !holds_payload(file@) {
                payload_fault(file@, result)
            } else {
                result matches Ok(info) && info.payload_offset == 28 && info.payload_len
                    == stored_payload_len(file@) && info.payload_crc32 == crate::crc::crc32(
                    stored_payload(file@),
                )
            },
    {
        match self.ensure_segment_id(id) {
            Ok(()) => read_checkpoint_payload_info(file),
            Err(e) => Err(e),
        }
    }

    /// The CRC-validated serialized payload bytes of one checkpointed segment, given
    /// the bytes of its file.
    ///
    /// Tombstones are not applied: the payload is the segment as written, including
    /// records later deleted; filter with [`Self::is_live`] before treating contents as
    /// live data.
    pub fn read_segment_payload(&self, id: u64, file: &[u8]) -> (result: PersistenceResult<Vec<u8>>)
        ensures
            if !self.contents().ids.contains(id) {
                not_found(result, unnamed_complaint(id))
            } else if !holds_payload(file@) {
                payload_fault(file@, result)
            } else {
                result matches Ok(payload) && payload@ == stored_payload(file@)
            },
    {
        match self.ensure_segment_id(id) {
            Ok(()) => read_checkpoint_payload(file),
            Err(e) => Err(e),
        }
    }

    /// Reusable-buffer form of [`Self::read_segment_payload`] for sidecar builders that
    /// scan many segments. `payload` is cleared first; on error it is left empty.
    pub fn read_segment_payload_into(&self, id: u64, file: &[u8], payload: &mut Vec<u8>) -> (result:
        PersistenceResult<()>)
        ensures
            if !self.contents().ids.contains(id) {
                not_found(result, unnamed_complaint(id)) && final(payload)@ == Seq::<u8>::empty()
            } else if !holds_payload(file@) {
                payload_fault(file@, result) && final(payload)@ == Seq::<u8>::empty()
            } else {
                result is Ok && final(payload)@ == stored_payload(file@)
            },
    {
        payload.clear();
        match self.ensure_segment_id(id) {
            Ok(()) => read_checkpoint_payload_into(file, payload),
            Err(e) => Err(e),
        }
    }

    /// Reserved sidecar file name for a per-segment index of the given `kind`, if the
    /// checkpoint names that segment.
    pub fn try_index_name(&self, id: u64, kind: &str) -> (result: PersistenceResult<String>)
        ensures
            if !self.contents().ids.contains(id) {
                not_found(result, unnamed_complaint(id))
            } else if !valid_kind(kind@) {
                crate::error::config_error(result, kind_complaint(kind@))
            } else {
                result matches Ok(name) && name@ == idx_name(id, kind@)
            },
    {
        match self.ensure_segment_id(id) {
            Ok(()) => crate::names::try_index_name(id, kind),
            Err(e) => Err(e),
        }
    }

    /// Infallible form of [`Self::try_index_name`] for a segment known to be in the
    /// catalog and a kind known to be valid.
    pub fn index_name(&self, id: u64, kind: &str) -> (name: String)
        requires
            self.contents().ids.contains(id),
            valid_kind(kind@),
        ensures
            name@ == idx_name(id, kind@),
    {
        crate::names::index_name(id, kind)
    }
}

/// A catalog lists what the manifest lists, in its order, and the identities that the
/// manifest buries; without a manifest there is nothing.
pub proof fn a_catalog_lists_what_the_manifest_lists<Id>(manifest: Option<Manifest<Id>>)
    ensures
        ({
            let said = said_by(manifest);
            match manifest {
                Some(m) => {
                    &&& said.epoch == m.epoch
                    &&& said.next_id == m.next_seg_id
                    &&& said.ids.len() == m.segment_ids@.len()
                    &&& forall|i: int|
                        0 <= i < said.ids.len() ==> #[trigger] said.ids[i] == m.segment_ids@[i]
                    &&& forall|id: Id| #[trigger]
                        said.tombstones.contains(id) <==> m.tombstones@.contains(id)
                },
                None => said.epoch == 0 && said.next_id == 0 && said.ids.len() == 0 && forall|
                    id: Id,
                | !said.tombstones.contains(id),
            }
        }),
{
}

} // verus!
