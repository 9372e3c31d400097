//! Generic durable segmented store.
//!
//! This library holds the lifecycle shared by updatable indexes: immutable segments,
//! tombstone deletes, a write-ahead log, checkpoint and compaction. It is generic over
//! the segment payload: a consumer implements [`Store`] to say how a batch of items
//! becomes a segment and how segments merge during compaction.
//!
//! # What it owns and what its caller owns
//!
//! The library owns the state behind the files: the buffer of adds not yet sealed, the
//! ordered list of immutable segments and their ids, the tombstones, the choice of what
//! to merge, the order in which a checkpoint is written, the names of the files and
//! which of them are garbage, and the envelopes around segment payloads and sidecars.
//! It does no input or output. The caller reads and writes the files: it hands over what
//! it read, logs each operation before handing it over, and does the writes that
//! [`SegmentedStore::checkpoint`] asks for.
//!
//! # Durability
//!
//! A checkpoint is the commit point. Each new segment goes to its own
//! `segstore.seg.<id>` file, written once and never rewritten; then a small manifest
//! names the current segment files and tombstones; then the log is rotated to a fresh
//! epoch. New segment files are durable before the manifest names them, and superseded
//! files are deleted only after the new manifest is durable, so every crash window is
//! safe: module [`recovery`] states and proves it.
//!
//! # Where things are
//!
//! - [`state`] says what a store is and how each operation changes it, [`segmented`]
//!   holds the operations, [`log`] the logged ones.
//! - [`tiers`], with [`order`] and [`band`], chooses what size tiering merges next;
//!   [`selection`] says what comes out of that choice.
//! - [`names`] and [`text`] hold file names, [`sidecar`] and [`checkpoint`], with
//!   [`bytes`] and [`crc`], the two envelopes.
//! - [`catalog`] and [`view`] are the two ways to look at the last checkpoint.
//! - [`outcomes`] says in plain terms what each operation does to a store.
//! - [`content`] says what a store holds, [`lineage`] what segment ids mean,
//!   [`recovery`] what survives a crash at each step, and [`history`] what survives a
//!   whole run.

pub mod band;
pub mod bytes;
pub mod catalog;
pub mod checkpoint;
pub mod config;
pub mod content;
pub mod crc;
pub mod error;
pub mod history;
pub mod ids;
pub mod lineage;
pub mod log;
pub mod names;
pub mod order;
pub mod outcomes;
pub mod recovery;
pub mod segmented;
pub mod selection;
pub mod sidecar;
pub mod state;
pub mod store;
pub mod text;
pub mod tiers;
pub mod view;

pub use crate::catalog::SegmentCatalog;
pub use crate::checkpoint::SegmentPayloadInfo;
pub use crate::config::{CompactionStats, Options, SyncPolicy, TierConfig};
pub use crate::error::{PersistenceError, PersistenceResult};
pub use crate::names::{index_name, try_index_name};
pub use crate::segmented::SegmentedStore;
pub use crate::sidecar::{SidecarEnvelope, SidecarPayloadInfo};
pub use crate::store::{DefaultStore, Store};
pub use crate::view::View;
