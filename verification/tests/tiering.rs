//! Size-tiered selection on given sizes, and logged operations on given buffers.

use segstore::band::{MeanSize, RatioBand, SizeBand};
use segstore::log::{apply, Op};
use segstore::tiers::next_merge_group;
use segstore::{Options, SyncPolicy, TierConfig};
use std::collections::HashSet;

/// The default band in floating point.
struct FloatBand;

impl SizeBand for FloatBand {
    type Average = f64;
    fn open(&self, size: usize) -> f64 {
        size as f64
    }
    fn admits(&self, average: &f64, size: usize) -> bool {
        size as f64 > average * 0.5 && (size as f64) < average * 1.5
    }
    fn join(&self, average: &f64, count: usize, size: usize) -> f64 {
        (average * count as f64 + size as f64) / (count as f64 + 1.0)
    }
    fn below(&self, a: &f64, b: &f64) -> bool {
        a < b
    }
}

fn group(sizes: &[usize], flush: usize, cfg: TierConfig) -> Option<Vec<usize>> {
    next_merge_group(sizes, flush, &cfg)
}

#[test]
fn defaults_are_the_documented_ones() {
    let cfg = TierConfig::default();
    assert_eq!((cfg.min_merge, cfg.max_merge), (4, 32));
    assert_eq!(cfg.max_merged_len, 10_000_000);
    assert_eq!((cfg.band.low_num, cfg.band.low_den), (1, 2));
    assert_eq!((cfg.band.high_num, cfg.band.high_den), (3, 2));
    let options = Options::new(7);
    assert_eq!(options.flush_threshold, 7);
    assert_eq!(options.sync, SyncPolicy::Flush);
    assert!(!options.auto_compact);
}

#[test]
fn a_full_bucket_is_merged_and_a_short_one_is_not() {
    let cfg = TierConfig::default();
    assert_eq!(group(&[2, 2, 2], 2, cfg), None);
    assert_eq!(group(&[2, 2, 2, 2], 2, cfg), Some(vec![0, 1, 2, 3]));
    assert_eq!(group(&[], 2, cfg), None);
}

#[test]
fn smallest_segments_come_first_and_older_ones_among_equals() {
    let cfg = TierConfig::default();
    assert_eq!(group(&[5, 4, 5, 4], 1, cfg), Some(vec![1, 3, 0, 2]));
}

#[test]
fn small_segments_count_as_full_flushes() {
    let cfg = TierConfig::default();
    // With a threshold of 8 all of these are in one tier, and the raw sizes decide the
    // order in which they are taken.
    assert_eq!(group(&[8, 1, 3, 2], 8, cfg), Some(vec![1, 3, 2, 0]));
    // Without it they are in different tiers.
    assert_eq!(group(&[8, 1, 3, 2], 0, cfg), None);
}

#[test]
fn the_band_is_strict_on_both_sides() {
    let band = RatioBand::default();
    let mean = MeanSize { sum: 10, count: 1 };
    assert!(!band.admits(&mean, 5));
    assert!(band.admits(&mean, 6));
    assert!(band.admits(&mean, 14));
    assert!(!band.admits(&mean, 15));
    let joined = band.join(&mean, 1, 6);
    assert_eq!((joined.sum, joined.count), (16, 2));
    assert!(band.below(&joined, &mean));
    assert!(!band.below(&mean, &mean));
}

#[test]
fn the_lightest_eligible_bucket_goes_first() {
    let cfg = TierConfig {
        min_merge: 2,
        ..Default::default()
    };
    assert_eq!(
        group(&[100, 100, 10, 10, 1], 1, cfg),
        Some(vec![2, 3]),
        "one segment of size 1 is no group"
    );
}

#[test]
fn merges_stay_within_both_limits() {
    let cfg = TierConfig {
        min_merge: 2,
        max_merge: 3,
        max_merged_len: 100,
        ..Default::default()
    };
    assert_eq!(group(&[2, 2, 2, 2, 2], 2, cfg), Some(vec![0, 1, 2]));
    let tight = TierConfig {
        min_merge: 2,
        max_merged_len: 7,
        ..Default::default()
    };
    assert_eq!(
        group(&[3, 3, 3], 1, tight),
        Some(vec![0, 1]),
        "a third one would exceed the cap"
    );
    let never = TierConfig {
        max_merge: 0,
        ..Default::default()
    };
    assert_eq!(group(&[2, 2, 2, 2], 2, never), None);
}

#[test]
fn segments_over_half_the_cap_are_frozen() {
    let cfg = TierConfig {
        min_merge: 2,
        max_merged_len: 8,
        ..Default::default()
    };
    assert_eq!(group(&[5, 5, 5, 5], 1, cfg), None);
    assert_eq!(group(&[4, 5, 4], 1, cfg), Some(vec![0, 2]));
}

#[test]
fn exact_and_floating_bands_choose_alike() {
    let mut state: u64 = 0x9E37_79B9_7F4A_7C15;
    for round in 0..400u32 {
        let mut sizes = Vec::new();
        for _ in 0..(round % 23) {
            state = state
                .wrapping_mul(6364136223846793005)
                .wrapping_add(1442695040888963407);
            sizes.push(((state >> 33) % 40) as usize);
        }
        let exact = TierConfig {
            min_merge: 3,
            max_merge: 6,
            max_merged_len: 60,
            ..Default::default()
        };
        let floating = TierConfig {
            min_merge: 3,
            max_merge: 6,
            max_merged_len: 60,
            band: FloatBand,
        };
        assert_eq!(
            next_merge_group(&sizes, 4, &exact),
            next_merge_group(&sizes, 4, &floating),
            "{sizes:?}"
        );
    }
}

#[test]
fn applying_an_add_revives_and_appends() {
    let mut buffer = vec![(1u32, "a")];
    let mut tombstones: HashSet<u32> = [2u32].into_iter().collect();
    apply(&mut buffer, &mut tombstones, Op::Add(2, "b"));
    assert_eq!(buffer, vec![(1, "a"), (2, "b")]);
    assert!(tombstones.is_empty());
}

#[test]
fn applying_a_delete_empties_the_buffer_of_the_identity() {
    let mut buffer = vec![(1u32, "a"), (2, "b"), (1, "c"), (3, "d")];
    let mut tombstones: HashSet<u32> = HashSet::new();
    apply(&mut buffer, &mut tombstones, Op::Delete(1));
    assert_eq!(buffer, vec![(2, "b"), (3, "d")]);
    assert!(tombstones.contains(&1) && tombstones.len() == 1);
}
