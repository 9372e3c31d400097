//! Tuning: write durability, size tiers and open options.

use crate::band::RatioBand;
use vstd::prelude::*;

verus! {

/// How durable each logged write is before an add or a delete returns.
#[derive(Debug, Clone, Copy, PartialEq, Eq, Structural)]
pub enum SyncPolicy {
    /// Flush each record to the underlying writer (userspace to OS). The default;
    /// works on every directory backend.
    Flush,
    /// Sync each record to stable storage. Stronger (survives power loss) and
    /// slower; requires a directory backed by a file system.
    Fsync,
}

/// Size-tiered compaction tuning.
///
/// The size metric is the item count of a segment; these are item counts, not
/// bytes. Because a query scans every segment, the per-tier segment count is paid
/// on every read, so `min_merge` is kept small.
#[derive(Debug, Clone, Copy)]
pub struct TierConfig<B = RatioBand> {
    /// Minimum segments in a size bucket before it is eligible to merge. Values
    /// under 2 count as 2.
    pub min_merge: usize,
    /// Maximum segments merged in one job, bounding per-merge cost and pause.
    pub max_merge: usize,
    /// The size band around a bucket's running average.
    pub band: B,
    /// Cap on a merged segment's item count. A segment larger than half of this is
    /// frozen out of tier merges, so the largest segment is never rewritten by
    /// tiering, only by a full compaction.
    pub max_merged_len: usize,
}

impl Default for TierConfig<RatioBand> {
    fn default() -> (config: Self)
        ensures
            config == (TierConfig {
                min_merge: 4,
                max_merge: 32,
                band: RatioBand { low_num: 1, low_den: 2, high_num: 3, high_den: 2 },
                max_merged_len: 10_000_000,
            }),
    {
        TierConfig {
            min_merge: 4,
            max_merge: 32,
            band: RatioBand::default(),
            max_merged_len: 10_000_000,
        }
    }
}

/// What a compaction did, for the consumer to track merge cost against corpus size.
#[derive(Debug, Clone, Copy, PartialEq, Eq, Structural)]
pub struct CompactionStats {
    /// Number of merge operations performed.
    pub merges: usize,
    /// Segment count before the compaction.
    pub segments_before: usize,
    /// Segment count after the compaction.
    pub segments_after: usize,
    /// Total items written into the merged output segment(s).
    pub items_merged: usize,
}

impl CompactionStats {
    /// A checkpoint is owed: something was merged, or the compaction was full, which
    /// purges the tombstones whether or not it merges.
    pub open spec fn owes_checkpoint(self, full: bool) -> bool {
        full || self.merges > 0
    }

    /// Whether the compaction that gave these statistics has to be followed by a
    /// checkpoint. `full` says that it was a full one: a compaction of everything, or a
    /// consolidation to at most one segment.
    pub fn checkpoint_owed(&self, full: bool) -> (owed: bool)
        ensures
            owed == self.owes_checkpoint(full),
    {
        full || self.merges > 0
    }
}

impl Default for CompactionStats {
    fn default() -> (stats: Self)
        ensures
            stats == (CompactionStats {
                merges: 0,
                segments_before: 0,
                segments_after: 0,
                items_merged: 0,
            }),
    {
        CompactionStats { merges: 0, segments_before: 0, segments_after: 0, items_merged: 0 }
    }
}

/// Options for opening a store.
#[derive(Debug, Clone, Copy)]
pub struct Options<B = RatioBand> {
    /// Buffered-add count that seals a new segment.
    pub flush_threshold: usize,
    /// Per-write log durability.
    pub sync: SyncPolicy,
    /// Size-tiered compaction tuning.
    pub tiering: TierConfig<B>,
    /// When true, an add that seals a segment asks for tier compaction if a bucket
    /// is eligible.
    pub auto_compact: bool,
}

impl Options<RatioBand> {
    /// Options with the given flush threshold and defaults for the rest (`Flush`
    /// sync, default tiering, no auto-compaction).
    pub fn new(flush_threshold: usize) -> (options: Self)
        ensures
            options == (Options {
                flush_threshold,
                sync: SyncPolicy::Flush,
                tiering: TierConfig {
                    min_merge: 4,
                    max_merge: 32,
                    band: RatioBand { low_num: 1, low_den: 2, high_num: 3, high_den: 2 },
                    max_merged_len: 10_000_000,
                },
                auto_compact: false,
            }),
    {
        Options {
            flush_threshold,
            sync: SyncPolicy::Flush,
            tiering: TierConfig::default(),
            auto_compact: false,
        }
    }
}

} // verus!
