//! The store driven over a directory in memory, with the real log and checkpoint files.

use durability::checkpoint::CheckpointFile;
use durability::recordlog::{RecordLogReadMode, RecordLogReader, RecordLogWriter};
use durability::{Directory, MemoryDirectory, PersistenceError, PersistenceResult};
use segstore::band::{RatioBand, SizeBand};
use segstore::checkpoint::size_cap_context;
use segstore::names::{
    idx_seg_id, seg_path, wal_path, DirectoryProbe, IDX_PREFIX, LEGACY_CKPT_PATH, LEGACY_WAL_PATH,
    MANIFEST_PATH, SEG_PREFIX, WAL_PREFIX,
};
use segstore::segmented::{
    check_directory, Batch, BatchAction, Checkpoint, CheckpointAction, CheckpointEvent,
};
use segstore::{
    index_name, try_index_name, CompactionStats, DefaultStore, Options, Store, SyncPolicy,
    TierConfig, View,
};
use serde::de::DeserializeOwned;
use serde::Serialize;
use std::collections::HashSet;
use std::io::Read;
use std::ops::Deref;
use std::sync::{Arc, Mutex, RwLock};

/// A log record: an add, or a delete.
type Record<Id, Item> = Result<(Id, Item), Id>;

fn add_record<Id, Item>(id: Id, item: Item) -> Record<Id, Item> {
    Ok((id, item))
}

fn raise(e: segstore::PersistenceError) -> PersistenceError {
    match e {
        segstore::PersistenceError::Format(m) => PersistenceError::Format(m),
        segstore::PersistenceError::InvalidConfig(m) => PersistenceError::InvalidConfig(m),
        segstore::PersistenceError::CrcMismatch { expected, actual } => {
            PersistenceError::CrcMismatch { expected, actual }
        }
        segstore::PersistenceError::NotFound(m) => PersistenceError::NotFound(m),
        segstore::PersistenceError::InvalidState(m) => PersistenceError::InvalidState(m),
        segstore::PersistenceError::UnexpectedEof => {
            PersistenceError::Io(std::io::Error::from(std::io::ErrorKind::UnexpectedEof))
        }
    }
}

fn cap_context(e: PersistenceError, what: &str) -> PersistenceError {
    match e {
        PersistenceError::Format(m) => {
            raise(size_cap_context(segstore::PersistenceError::Format(m), what))
        }
        e => e,
    }
}

fn probe(dir: &dyn Directory) -> DirectoryProbe {
    DirectoryProbe {
        legacy_wal: dir.exists(LEGACY_WAL_PATH),
        legacy_ckpt: dir.exists(LEGACY_CKPT_PATH),
        manifest: dir.exists(MANIFEST_PATH),
        file_backed: dir.file_path(MANIFEST_PATH).is_some(),
    }
}

fn delete_all(dir: &dyn Directory, disk: &Disk, names: Vec<String>) {
    for name in names {
        if dir.exists(&name) && disk.gate().is_ok() {
            let _ = dir.delete(&name);
        }
    }
}

/// The store with its directory: logs each operation, and does the writes that a
/// checkpoint asks for.
struct SegmentedStore<S: Store, B: SizeBand = RatioBand> {
    core: segstore::SegmentedStore<S, B>,
    dir: Arc<dyn Directory>,
    wal: RecordLogWriter,
    reader: Reader<S>,
    disk: Disk,
}

/// What a store may do to its directory: how many changes before every further one
/// fails, if that is limited, and which files it has written.
#[derive(Clone)]
struct Disk {
    fuel: Arc<Mutex<Option<usize>>>,
    writes: Arc<Mutex<Vec<String>>>,
}

impl Disk {
    fn sound() -> Self {
        Disk {
            fuel: Arc::new(Mutex::new(None)),
            writes: Arc::new(Mutex::new(Vec::new())),
        }
    }

    /// Fails its Nth change (and every one after).
    fn failing_after(n: usize) -> Self {
        Disk {
            fuel: Arc::new(Mutex::new(Some(n))),
            writes: Arc::new(Mutex::new(Vec::new())),
        }
    }

    fn gate(&self) -> PersistenceResult<()> {
        let mut fuel = self.fuel.lock().unwrap();
        match *fuel {
            Some(0) => Err(PersistenceError::InvalidState("injected IO fault".into())),
            Some(n) => {
                *fuel = Some(n - 1);
                Ok(())
            }
            None => Ok(()),
        }
    }

    fn write(&self, path: &str) -> PersistenceResult<()> {
        self.gate()?;
        self.writes.lock().unwrap().push(path.to_string());
        Ok(())
    }
}

struct Reader<S: Store> {
    published: Arc<RwLock<Arc<View<S>>>>,
}

impl<S: Store> Reader<S> {
    fn view(&self) -> View<S> {
        self.published.read().unwrap().again()
    }
}

impl<S: Store, B: SizeBand> Deref for SegmentedStore<S, B> {
    type Target = segstore::SegmentedStore<S, B>;
    fn deref(&self) -> &Self::Target {
        &self.core
    }
}

impl<S> SegmentedStore<S, RatioBand>
where
    S: Store,
    S::Id: Serialize + DeserializeOwned,
    S::Item: Serialize + DeserializeOwned,
    S::Segment: Serialize + DeserializeOwned,
{
    fn open(dir: Arc<dyn Directory>, store: S, flush_threshold: usize) -> PersistenceResult<Self> {
        Self::open_with_options(dir, store, Options::new(flush_threshold))
    }
}

impl<S, B> SegmentedStore<S, B>
where
    S: Store,
    S::Id: Serialize + DeserializeOwned,
    S::Item: Serialize + DeserializeOwned,
    S::Segment: Serialize + DeserializeOwned,
    B: SizeBand,
{
    fn open_with_options(
        dir: Arc<dyn Directory>,
        store: S,
        options: Options<B>,
    ) -> PersistenceResult<Self> {
        Self::open_on(dir, store, options, Disk::sound())
    }

    fn open_on(
        dir: Arc<dyn Directory>,
        store: S,
        options: Options<B>,
        disk: Disk,
    ) -> PersistenceResult<Self> {
        let found = probe(&*dir);
        check_directory(options.sync, &found).map_err(raise)?;
        let mut epoch = 0;
        let mut checkpoint = None;
        if found.manifest {
            let ckpt = CheckpointFile::new(dir.clone());
            let (e, body): (u64, (u64, Vec<u64>, Vec<S::Id>)) =
                ckpt.read_postcard(MANIFEST_PATH)?;
            let mut segments = Vec::new();
            for id in body.1 {
                let (_, segment): (u64, S::Segment) = ckpt.read_postcard(&seg_path(id))?;
                segments.push((id, segment));
            }
            epoch = e;
            checkpoint = Some(Checkpoint {
                epoch: e,
                next_seg_id: body.0,
                segments,
                tombstones: body.2,
            });
        }
        let live_wal = wal_path(epoch);
        let mut log = Vec::new();
        if dir.exists(&live_wal) {
            let records: Vec<Record<S::Id, S::Item>> =
                RecordLogReader::new(dir.clone(), live_wal.clone())
                    .read_all_postcard(RecordLogReadMode::BestEffort)?;
            for record in records {
                log.push(match record {
                    Ok((id, item)) => segstore::log::Op::Add(id, item),
                    Err(id) => segstore::log::Op::Delete(id),
                });
            }
        }
        let core =
            segstore::SegmentedStore::open_with_options(store, options, &found, checkpoint, log)
                .map_err(raise)?;
        if let Ok(names) = dir.list_dir("") {
            delete_all(&*dir, &disk, core.gc_leftovers(&names));
        }
        let wal = RecordLogWriter::new(dir.clone(), live_wal);
        let reader = Reader {
            published: Arc::new(RwLock::new(Arc::new(core.published()))),
        };
        Ok(SegmentedStore {
            core,
            dir,
            wal,
            reader,
            disk,
        })
    }

    fn reader(&self) -> Reader<S> {
        Reader {
            published: self.reader.published.clone(),
        }
    }

    fn add(&mut self, id: S::Id, item: S::Item) -> PersistenceResult<()> {
        self.disk.gate()?;
        self.wal
            .append_postcard(&add_record(id.clone(), item.clone()))?;
        self.wal.flush()?;
        if self.core.add(id, item) {
            self.compact_tiers()?;
        }
        Ok(())
    }

    fn extend(&mut self, items: impl IntoIterator<Item = (S::Id, S::Item)>) -> PersistenceResult<()> {
        let mut batch = Batch::default();
        for (id, item) in items {
            self.wal
                .append_postcard(&add_record(id.clone(), item.clone()))?;
            if self.core.extend(&mut batch, Some((id, item))) == BatchAction::SyncAndCompact {
                self.wal.flush()?;
                self.compact_tiers()?;
            }
        }
        if self.core.extend(&mut batch, None) == BatchAction::SyncAndFinish {
            self.wal.flush()?;
        }
        Ok(())
    }

    fn delete(&mut self, id: S::Id) -> PersistenceResult<()> {
        self.disk.gate()?;
        let record: Record<S::Id, S::Item> = Err(id.clone());
        self.wal.append_postcard(&record)?;
        self.wal.flush()?;
        self.core.delete(id);
        Ok(())
    }

    fn compact(&mut self) -> PersistenceResult<CompactionStats> {
        let stats = self.core.compact();
        if stats.checkpoint_owed(true) {
            self.checkpoint()?;
        }
        Ok(stats)
    }

    fn compact_tiers(&mut self) -> PersistenceResult<CompactionStats> {
        let stats = self.core.compact_tiers();
        if stats.checkpoint_owed(false) {
            self.checkpoint()?;
        }
        Ok(stats)
    }

    fn force_merge_to(&mut self, max_segments: usize) -> PersistenceResult<CompactionStats> {
        let stats = self.core.force_merge_to(max_segments);
        if stats.checkpoint_owed(max_segments <= 1) {
            self.checkpoint()?;
        }
        Ok(stats)
    }

    fn reclaim_tombstones(&mut self, min_live_ratio: f64) -> PersistenceResult<CompactionStats> {
        let below = |live: usize, total: usize| (live as f64) < min_live_ratio * total as f64;
        let stats = self.core.reclaim_tombstones(&below);
        if stats.checkpoint_owed(false) {
            self.checkpoint()?;
        }
        Ok(stats)
    }

    fn space_amplification(&self) -> Option<f64> {
        let (stored, live) = self.core.space_amplification()?;
        if live == 0 {
            return Some(if stored == 0 { 1.0 } else { f64::INFINITY });
        }
        Some(stored as f64 / live as f64)
    }

    fn checkpoint(&mut self) -> PersistenceResult<()> {
        let ckpt = CheckpointFile::new(self.dir.clone());
        let mut action = self.core.checkpoint(CheckpointEvent::Begin);
        loop {
            match action {
                CheckpointAction::WriteSegment { index, id } => {
                    self.disk.write(&seg_path(id))?;
                    ckpt.write_postcard(&seg_path(id), 0, &*self.core.segments()[index])
                        .map_err(|e| cap_context(e, &format!("segment {id}")))?;
                    action = self.core.checkpoint(CheckpointEvent::SegmentWritten(id));
                }
                CheckpointAction::WriteManifest { epoch } => {
                    let manifest = self.core.manifest();
                    let tombstones: Vec<&S::Id> = manifest.tombstones.iter().collect();
                    let body = (manifest.next_seg_id, manifest.segment_ids, tombstones);
                    self.disk.write(MANIFEST_PATH)?;
                    ckpt.write_postcard(MANIFEST_PATH, epoch, &body)
                        .map_err(|e| cap_context(e, "manifest (segment ids + tombstones)"))?;
                    action = self.core.checkpoint(CheckpointEvent::ManifestWritten);
                }
                CheckpointAction::Done { retired_epoch } => {
                    self.wal = RecordLogWriter::new(self.dir.clone(), wal_path(self.core.epoch()));
                    let names = self.dir.list_dir("").unwrap_or_default();
                    let garbage = self.core.gc_orphan_segments(&names, retired_epoch);
                    delete_all(&*self.dir, &self.disk, garbage);
                    *self.reader.published.write().unwrap() = Arc::new(self.core.published());
                    return Ok(());
                }
            }
        }
    }
}

/// The last checkpoint of a directory, without opening it for writing.
struct SegmentCatalog<Id> {
    dir: Arc<dyn Directory>,
    catalog: segstore::SegmentCatalog<Id>,
}

impl<Id> Deref for SegmentCatalog<Id> {
    type Target = segstore::SegmentCatalog<Id>;
    fn deref(&self) -> &Self::Target {
        &self.catalog
    }
}

impl<Id: Clone + Eq + std::hash::Hash + DeserializeOwned> SegmentCatalog<Id> {
    fn open(dir: Arc<dyn Directory>) -> PersistenceResult<Self> {
        let found = probe(&*dir);
        let mut manifest = None;
        if found.manifest {
            let (epoch, body): (u64, (u64, Vec<u64>, Vec<Id>)) =
                CheckpointFile::new(dir.clone()).read_postcard(MANIFEST_PATH)?;
            manifest = Some(segstore::catalog::Manifest {
                epoch,
                next_seg_id: body.0,
                segment_ids: body.1,
                tombstones: body.2,
            });
        }
        let catalog = segstore::SegmentCatalog::open(&found, manifest).map_err(raise)?;
        Ok(SegmentCatalog { dir, catalog })
    }

    fn file(&self, id: u64) -> PersistenceResult<Vec<u8>> {
        let mut bytes = Vec::new();
        let name = self.catalog.segment_name(id).map_err(raise)?;
        self.dir.open_file(&name)?.read_to_end(&mut bytes)?;
        Ok(bytes)
    }

    fn read_segment_payload(&self, id: u64) -> PersistenceResult<Vec<u8>> {
        let file = self.file(id)?;
        self.catalog.read_segment_payload(id, &file).map_err(raise)
    }

    fn read_segment_payload_into(&self, id: u64, payload: &mut Vec<u8>) -> PersistenceResult<()> {
        let file = self.file(id)?;
        self.catalog
            .read_segment_payload_into(id, &file, payload)
            .map_err(raise)
    }

    fn read_segment<Segment: DeserializeOwned>(&self, id: u64) -> PersistenceResult<Segment> {
        let name = self.catalog.segment_name(id).map_err(raise)?;
        let (_, segment) = CheckpointFile::new(self.dir.clone()).read_postcard(&name)?;
        Ok(segment)
    }
}

struct Kv;
impl Store for Kv {
    type Id = u32;
    type Item = String;
    type Segment = Vec<(u32, String)>;
    fn build_segment(&self, batch: &[(u32, String)]) -> Vec<(u32, String)> {
        batch.to_vec()
    }
    fn merge_segments<F: Fn(&u32) -> bool>(
        &self,
        segs: &[&Vec<(u32, String)>],
        live: &F,
    ) -> Vec<(u32, String)> {
        segs.iter()
            .flat_map(|s| s.iter())
            .filter(|(id, _)| live(id))
            .cloned()
            .collect()
    }
    fn segment_len(&self, seg: &Vec<(u32, String)>) -> usize {
        seg.len()
    }
    fn live_len<F: Fn(&u32) -> bool>(&self, seg: &Vec<(u32, String)>, live: &F) -> Option<usize> {
        Some(seg.iter().filter(|(id, _)| live(id)).count())
    }
}

/// A store that does not count live items.
struct OpaqueKv;
impl Store for OpaqueKv {
    type Id = u32;
    type Item = String;
    type Segment = Vec<(u32, String)>;
    fn build_segment(&self, batch: &[(u32, String)]) -> Vec<(u32, String)> {
        batch.to_vec()
    }
    fn merge_segments<F: Fn(&u32) -> bool>(
        &self,
        segs: &[&Vec<(u32, String)>],
        live: &F,
    ) -> Vec<(u32, String)> {
        segs.iter()
            .flat_map(|s| s.iter())
            .filter(|(id, _)| live(id))
            .cloned()
            .collect()
    }
    fn segment_len(&self, seg: &Vec<(u32, String)>) -> usize {
        seg.len()
    }
    fn live_len<F: Fn(&u32) -> bool>(&self, _seg: &Vec<(u32, String)>, _live: &F) -> Option<usize> {
        None
    }
}

/// Count the `segstore.seg.*` files currently in the directory.
fn seg_file_count(dir: &Arc<dyn Directory>) -> usize {
    dir.list_dir("")
        .unwrap()
        .into_iter()
        .filter(|n| n.starts_with(SEG_PREFIX))
        .count()
}

/// Collect the live `(id, item)` set across segments and buffer.
fn live_set<B: SizeBand>(s: &SegmentedStore<Kv, B>) -> Vec<(u32, String)> {
    let mut out: Vec<(u32, String)> = Vec::new();
    for seg in s.segments() {
        for (id, it) in seg.iter() {
            if s.is_live(id) {
                out.push((*id, it.clone()));
            }
        }
    }
    for (id, it) in s.buffer() {
        if s.is_live(id) {
            out.push((*id, it.clone()));
        }
    }
    out.sort();
    out
}

/// The live `(id, item)` multiset, sorted, for invariant comparisons.
fn live_multiset<B: SizeBand>(s: &SegmentedStore<Kv, B>) -> Vec<(u32, String)> {
    live_set(s)
}

/// The same segments, not just equal ones.
fn same_arcs<T>(a: &[Arc<T>], b: &[Arc<T>]) -> bool {
    a.len() == b.len() && a.iter().zip(b).all(|(x, y)| Arc::ptr_eq(x, y))
}

fn tier_opts(flush: usize, cfg: TierConfig, auto: bool) -> Options {
    Options {
        tiering: cfg,
        auto_compact: auto,
        ..Options::new(flush)
    }
}

#[test]
fn catalog_payload_reader_rejects_truncated_length_claim() {
    let dir = MemoryDirectory::arc();
    let seg_id = {
        let mut s = SegmentedStore::open(dir.clone(), Kv, 1).unwrap();
        s.add(1, "a".into()).unwrap();
        s.checkpoint().unwrap();
        s.segment_ids()[0]
    };

    let name = seg_path(seg_id);
    let mut file = dir.open_file(&name).unwrap();
    let mut bytes = Vec::new();
    file.read_to_end(&mut bytes).unwrap();
    // Checkpoint envelope layout: magic(4), version(4), last_applied_id(8),
    // payload_len(8), crc32(4), then payload bytes.
    let len_offset = 4 + 4 + 8;
    let claimed = 4_u64 * 1024 * 1024;
    bytes[len_offset..len_offset + 8].copy_from_slice(&claimed.to_le_bytes());
    dir.atomic_write(&name, &bytes).unwrap();

    let catalog = SegmentCatalog::<u32>::open(dir).unwrap();
    let err = catalog
        .read_segment_payload(seg_id)
        .unwrap_err()
        .to_string();
    assert!(
        err.contains("truncated") || err.to_lowercase().contains("eof"),
        "expected truncation error, got: {err}"
    );
}

#[test]
fn default_store_implements_the_vec_segment_pattern() {
    let dir = MemoryDirectory::arc();
    let mut s = SegmentedStore::open(dir, DefaultStore::<u32, String>::new(), 2).unwrap();
    s.add(1, "a".into()).unwrap();
    s.add(2, "b".into()).unwrap();
    assert_eq!(s.segment_count(), 1);
    assert_eq!(
        s.segments()[0].as_ref(),
        &vec![(1, "a".into()), (2, "b".into())]
    );

    s.delete(2).unwrap();
    assert_eq!(
        s.space_amplification(),
        Some(2.0),
        "DefaultStore exposes live_len for tombstone policy"
    );

    s.compact().unwrap();
    assert_eq!(s.tombstone_count(), 0);
    assert_eq!(s.segments()[0].as_ref(), &vec![(1, "a".into())]);
}

#[test]
fn buffer_flushes_into_a_segment_at_threshold() {
    let dir = MemoryDirectory::arc();
    let mut s = SegmentedStore::open(dir, Kv, 2).unwrap();
    s.add(1, "a".into()).unwrap();
    assert_eq!(
        s.segment_count(),
        0,
        "one add stays buffered below threshold"
    );
    s.add(2, "b".into()).unwrap();
    assert_eq!(
        s.segment_count(),
        1,
        "second add hits threshold 2 and flushes"
    );
    assert!(s.buffer().is_empty());
}

#[test]
fn wal_replay_preserves_flush_threshold() {
    let dir = MemoryDirectory::arc();
    let mut s = SegmentedStore::open(dir.clone(), Kv, 3).unwrap();
    for id in 0..65 {
        s.add(id, format!("v{id}")).unwrap();
    }
    drop(s);

    let mut reopened = SegmentedStore::open(dir, Kv, 3).unwrap();
    assert_eq!(reopened.segment_sizes(), vec![3; 21]);
    assert_eq!(reopened.buffer().len(), 2);

    reopened.add(65, "v65".into()).unwrap();
    assert_eq!(reopened.segment_sizes(), vec![3; 22]);
    assert!(reopened.buffer().is_empty());
    assert_eq!(live_set(&reopened).len(), 66);
}

#[test]
fn wal_replay_preserves_checkpoint_visibility() {
    let dir = MemoryDirectory::arc();
    let mut s = SegmentedStore::open(dir.clone(), Kv, 2).unwrap();
    s.add(1, "a".into()).unwrap();
    s.add(2, "b".into()).unwrap();
    s.checkpoint().unwrap();

    s.add(3, "c".into()).unwrap();
    s.add(4, "d".into()).unwrap();
    s.delete(1).unwrap();
    drop(s);

    let mut reopened = SegmentedStore::open(dir, Kv, 2).unwrap();
    assert_eq!(
        live_set(&reopened),
        vec![(2, "b".into()), (3, "c".into()), (4, "d".into())]
    );

    let before_checkpoint = reopened.reader().view();
    assert_eq!(before_checkpoint.segment_count(), 1);
    assert!(before_checkpoint.is_live(&1));
    assert_eq!(before_checkpoint.segment_ids(), &[0]);

    reopened.checkpoint().unwrap();
    let after_checkpoint = reopened.reader().view();
    assert_eq!(after_checkpoint.segment_count(), 2);
    assert!(!after_checkpoint.is_live(&1));
    assert_eq!(after_checkpoint.segment_ids(), &[0, 1]);
}

#[test]
fn delete_tombstones_and_hides_from_live_set() {
    let dir = MemoryDirectory::arc();
    let mut s = SegmentedStore::open(dir, Kv, 2).unwrap();
    s.add(1, "a".into()).unwrap();
    s.add(2, "b".into()).unwrap();
    s.delete(2).unwrap();
    assert!(s.is_live(&1) && !s.is_live(&2));
    assert_eq!(live_set(&s), vec![(1, "a".into())]);
}

#[test]
fn re_add_of_a_live_id_double_lives_there_is_no_replace() {
    // Liveness is a per-id boolean, and `add` revives an id (clears its
    // tombstone), so a re-add of an already-live id does NOT supersede the old
    // copy: both the old and new values stay live. There is no last-write-wins
    // and no `replace`; a consumer must use unique ids, or compact away the old
    // copy before re-adding.
    let dir = MemoryDirectory::arc();
    let mut s = SegmentedStore::open(dir, Kv, 2).unwrap();
    s.add(1, "a".into()).unwrap();
    s.add(2, "x".into()).unwrap(); // flush=2 seals [(1,"a"),(2,"x")]
    s.add(1, "b".into()).unwrap(); // re-add 1: buffered; segment's (1,"a") survives
    let n_live_1 = live_set(&s).iter().filter(|(id, _)| *id == 1).count();
    assert_eq!(
        n_live_1, 2,
        "a re-add double-lives the id; no last-write-wins"
    );

    // delete-then-add does NOT supersede either: `add` revives (un-tombstones)
    // the old copy, so it comes back alongside the new value.
    s.delete(1).unwrap();
    s.add(1, "c".into()).unwrap();
    let live_1: Vec<String> = live_set(&s)
        .into_iter()
        .filter(|(id, _)| *id == 1)
        .map(|(_, v)| v)
        .collect();
    assert_eq!(
        live_1,
        vec!["a".to_string(), "c".to_string()],
        "delete-then-add revived the old value: no replace in the per-id model"
    );
}

#[test]
fn compaction_physically_drops_tombstoned_ids() {
    let dir = MemoryDirectory::arc();
    let mut s = SegmentedStore::open(dir, Kv, 2).unwrap();
    s.add(1, "a".into()).unwrap();
    s.add(2, "b".into()).unwrap();
    s.add(3, "c".into()).unwrap();
    s.delete(2).unwrap();
    s.compact().unwrap();
    assert_eq!(s.segment_count(), 1, "compaction merges into one segment");
    assert_eq!(s.tombstone_count(), 0, "compaction purges tombstones");
    // The merged segment no longer carries id 2 at all.
    let flat: Vec<u32> = s.segments()[0].iter().map(|(id, _)| *id).collect();
    assert!(!flat.contains(&2));
    assert_eq!(live_set(&s), vec![(1, "a".into()), (3, "c".into())]);
}

#[test]
fn recovers_from_checkpoint_plus_wal_replay() {
    let dir = MemoryDirectory::arc();
    {
        let mut s = SegmentedStore::open(dir.clone(), Kv, 2).unwrap();
        s.add(1, "a".into()).unwrap();
        s.add(2, "b".into()).unwrap(); // flushes a segment
        s.checkpoint().unwrap(); // checkpoint covers ids 1,2
        s.add(3, "c".into()).unwrap(); // post-checkpoint, only in the WAL
        s.delete(2).unwrap(); // post-checkpoint tombstone
    } // drop without a second checkpoint: 3 and delete(2) live only in the WAL

    // Reopen: checkpoint gives {1,2}; WAL replay applies add(3) + delete(2).
    let s2 = SegmentedStore::open(dir, Kv, 2).unwrap();
    assert_eq!(live_set(&s2), vec![(1, "a".into()), (3, "c".into())]);
    assert!(!s2.is_live(&2));
}

/// Each checkpoint rotates the WAL, so at most one generation file exists.
#[test]
fn wal_is_bounded_to_one_generation_across_checkpoints() {
    let dir = MemoryDirectory::arc();
    let mut s = SegmentedStore::open(dir.clone(), Kv, 100).unwrap();
    for i in 0..10u32 {
        s.add(i, format!("v{i}")).unwrap();
        s.checkpoint().unwrap();
    }
    let wals: Vec<String> = dir
        .list_dir("")
        .unwrap()
        .into_iter()
        .filter(|n| n.starts_with(WAL_PREFIX))
        .collect();
    assert!(
        wals.len() <= 1,
        "rotation bounds the WAL to the current generation, got {wals:?}"
    );
}

/// A stale WAL from an earlier epoch (the crash-mid-rotation leftover) is
/// never replayed and is garbage-collected on open.
#[test]
fn stale_wal_generation_is_ignored_and_gced() {
    let dir = MemoryDirectory::arc();
    {
        let mut s = SegmentedStore::open(dir.clone(), Kv, 100).unwrap();
        s.add(1, "a".into()).unwrap();
        s.add(2, "b".into()).unwrap();
        s.add(3, "c".into()).unwrap();
        s.checkpoint().unwrap(); // epoch 0 -> 1; snapshot holds {1,2,3}
    }
    // Forge a stale wal.0 (the generation a clean rotation deleted) carrying a
    // ghost op, as a crash mid-rotation would leave behind.
    {
        let mut ghost = RecordLogWriter::new(dir.clone(), wal_path(0));
        ghost
            .append_postcard(&add_record(99u32, "ghost".to_string()))
            .unwrap();
        ghost.flush().unwrap();
    }
    assert!(dir.exists(&wal_path(0)), "the stale WAL exists pre-open");

    let s2 = SegmentedStore::open(dir.clone(), Kv, 100).unwrap();
    assert_eq!(
        live_set(&s2),
        vec![(1, "a".into()), (2, "b".into()), (3, "c".into())],
        "the ghost op in the stale epoch is never replayed"
    );
    assert!(
        !dir.exists(&wal_path(0)),
        "the stale WAL generation is GC'd on open"
    );
}

#[test]
fn fsync_policy_rejected_without_filesystem_backend() {
    let dir = MemoryDirectory::arc();
    let opts = Options {
        sync: SyncPolicy::Fsync,
        ..Options::new(2)
    };
    let err = SegmentedStore::open_with_options(dir, Kv, opts);
    assert!(
        matches!(err, Err(PersistenceError::InvalidConfig(_))),
        "Fsync on an in-memory directory is a config error"
    );
}

#[test]
fn legacy_v01_unsuffixed_wal_is_rejected() {
    let dir = MemoryDirectory::arc();
    // Simulate a 0.1 store: a single unsuffixed WAL file.
    {
        let mut legacy = RecordLogWriter::new(dir.clone(), LEGACY_WAL_PATH);
        legacy
            .append_postcard(&add_record(1u32, "x".to_string()))
            .unwrap();
        legacy.flush().unwrap();
    }
    let err = SegmentedStore::open(dir, Kv, 2);
    assert!(
        matches!(err, Err(PersistenceError::InvalidConfig(_))),
        "a 0.1 on-disk store is rejected, not misread"
    );
}

#[test]
fn compact_tiers_merges_a_full_bucket_and_is_idempotent() {
    let dir = MemoryDirectory::arc();
    let cfg = TierConfig {
        min_merge: 4,
        ..Default::default()
    };
    let mut s = SegmentedStore::open_with_options(dir, Kv, tier_opts(2, cfg, false)).unwrap();
    // 8 adds at flush=2 -> 4 segments of size 2: one full bucket.
    for i in 0..8u32 {
        s.add(i, format!("v{i}")).unwrap();
    }
    assert_eq!(
        s.segment_count(),
        4,
        "four size-2 segments before compaction"
    );
    let stats = s.compact_tiers().unwrap();
    assert_eq!(stats.merges, 1, "the full bucket merges once");
    assert_eq!(s.segment_count(), 1, "into a single segment");
    assert_eq!(stats.items_merged, 8);
    // Idempotent: nothing eligible now.
    assert!(!s.has_eligible_tier());
    let again = s.compact_tiers().unwrap();
    assert_eq!(again.merges, 0, "second call is a no-op");
}

#[test]
fn tier_merge_respects_max_merged_len_cap() {
    let dir = MemoryDirectory::arc();
    // cap = 8 -> segments above 4 are frozen; 4 size-2 segments merge to exactly 8.
    let cfg = TierConfig {
        min_merge: 4,
        max_merged_len: 8,
        ..Default::default()
    };
    let mut s = SegmentedStore::open_with_options(dir, Kv, tier_opts(2, cfg, true)).unwrap();
    for i in 0..64u32 {
        s.add(i, format!("v{i}")).unwrap();
    }
    s.compact_tiers().unwrap();
    for seg in s.segments() {
        assert!(
            seg.len() <= cfg.max_merged_len,
            "no segment exceeds the cap; got {}",
            seg.len()
        );
    }
}

#[test]
fn auto_compact_bounds_segment_count() {
    let dir = MemoryDirectory::arc();
    let cfg = TierConfig::default(); // min_merge 4, large cap
    let mut s = SegmentedStore::open_with_options(dir, Kv, tier_opts(2, cfg, true)).unwrap();
    // 200 adds at flush=2 would be 100 segments without compaction.
    for i in 0..200u32 {
        s.add(i, format!("v{i}")).unwrap();
    }
    s.compact_tiers().unwrap();
    assert!(
        s.segment_count() <= 20,
        "tiering bounds segment count well below the uncompacted 100; got {}",
        s.segment_count()
    );
    // No data lost.
    assert_eq!(live_multiset(&s).len(), 200);
}

#[test]
fn tier_merge_preserves_live_set_and_keeps_tombstones() {
    let dir = MemoryDirectory::arc();
    let cfg = TierConfig {
        min_merge: 4,
        max_merged_len: 8, // force some frozen segments
        ..Default::default()
    };
    let mut s = SegmentedStore::open_with_options(dir, Kv, tier_opts(2, cfg, false)).unwrap();
    let mut expect: std::collections::BTreeMap<u32, String> = Default::default();
    for i in 0..40u32 {
        s.add(i, format!("v{i}")).unwrap();
        expect.insert(i, format!("v{i}"));
    }
    // Delete a spread of ids (some land in soon-to-be-frozen segments).
    for i in (0..40u32).step_by(5) {
        s.delete(i).unwrap();
        expect.remove(&i);
    }
    s.compact_tiers().unwrap();
    let want: Vec<(u32, String)> = expect.into_iter().collect();
    assert_eq!(live_multiset(&s), want, "tier merge preserves the live set");
    assert!(
        s.tombstone_count() > 0,
        "partial tier merge keeps the tombstone set (ids may live in frozen segments)"
    );
    // Full compaction purges the tombstones.
    s.compact().unwrap();
    assert_eq!(s.tombstone_count(), 0, "full compact purges tombstones");
    assert_eq!(live_multiset(&s), want, "and preserves the live set");
}

#[test]
fn min_merge_below_two_terminates() {
    let dir = MemoryDirectory::arc();
    let cfg = TierConfig {
        min_merge: 1, // would group-of-1 forever without the clamp
        ..Default::default()
    };
    let mut s = SegmentedStore::open_with_options(dir, Kv, tier_opts(1, cfg, false)).unwrap();
    for i in 0..8u32 {
        s.add(i, format!("v{i}")).unwrap();
    }
    // Must terminate (clamp forces min_merge >= 2).
    let stats = s.compact_tiers().unwrap();
    assert!(stats.segments_after <= stats.segments_before);
    assert_eq!(live_multiset(&s).len(), 8);
}

#[test]
fn large_scale_random_simulation_holds_invariants() {
    let dir = MemoryDirectory::arc();
    let cfg = TierConfig {
        min_merge: 4,
        max_merge: 8,
        max_merged_len: 64,
        ..Default::default()
    };
    let mut s = SegmentedStore::open_with_options(dir, Kv, tier_opts(3, cfg, true)).unwrap();
    // Unique ids per add (segstore makes no dedup promise; identity is the
    // Store impl's job, and the toy Kv appends duplicates on re-add). A
    // monotonic id keeps the reference model exact while still exercising
    // insert/delete/merge invariants.
    let mut expect: std::collections::BTreeMap<u32, String> = Default::default();
    let mut live_ids: Vec<u32> = Vec::new();
    let mut next_id = 0u32;
    // Deterministic LCG (no rand dep, no Math.random).
    let mut state: u64 = 0x9E3779B97F4A7C15;
    let mut next = || {
        state = state
            .wrapping_mul(6364136223846793005)
            .wrapping_add(1442695040888963407);
        (state >> 33) as u32
    };
    for _ in 0..2000 {
        if next() % 4 == 0 && !live_ids.is_empty() {
            let pos = (next() as usize) % live_ids.len();
            let id = live_ids.swap_remove(pos);
            s.delete(id).unwrap();
            expect.remove(&id);
        } else {
            let id = next_id;
            next_id += 1;
            let v = format!("v{id}");
            s.add(id, v.clone()).unwrap();
            expect.insert(id, v);
            live_ids.push(id);
        }
        if next() % 50 == 0 {
            s.compact_tiers().unwrap();
        }
        // Invariant: every segment is within the cap.
        for seg in s.segments() {
            assert!(
                seg.len() <= cfg.max_merged_len,
                "seg size {} exceeds cap {}",
                seg.len(),
                cfg.max_merged_len
            );
        }
    }
    s.compact().unwrap();
    let want: Vec<(u32, String)> = expect.into_iter().collect();
    assert_eq!(
        live_multiset(&s),
        want,
        "after a long random run, the live set matches the reference"
    );
}

#[test]
fn segment_sizes_reports_per_segment_counts() {
    let dir = MemoryDirectory::arc();
    let mut s = SegmentedStore::open(dir, Kv, 2).unwrap();
    for i in 0..6u32 {
        s.add(i, format!("v{i}")).unwrap(); // 3 segments of size 2
    }
    assert_eq!(s.segment_sizes(), vec![2, 2, 2]);
    assert_eq!(s.stored_len(), 6);
}

fn assert_send<T: Send>() {}

/// The store must be `Send` so the consumer can drive `compact_tiers` on a
/// background thread (the whole point of consumer-driven scheduling).
#[test]
fn store_is_send() {
    assert_send::<segstore::SegmentedStore<Kv>>();
}

#[test]
fn checkpoint_writes_only_new_segment_files() {
    // The point of the manifest format: a checkpoint rewrites only the segments
    // sealed since the last one, not the whole corpus (O(delta), not O(total)).
    let disk = Disk::sound();
    let writes = disk.writes.clone();
    let dir = MemoryDirectory::arc();
    let mut s = SegmentedStore::open_on(dir, Kv, Options::new(2), disk).unwrap();
    for i in 0..4u32 {
        s.add(i, format!("v{i}")).unwrap(); // two sealed segments (ids 0, 1)
    }
    s.checkpoint().unwrap(); // writes seg.0, seg.1, manifest
    writes.lock().unwrap().clear();

    // One more segment, then checkpoint again.
    s.add(4, "e".into()).unwrap();
    s.add(5, "f".into()).unwrap(); // seals a third segment (id 2)
    s.checkpoint().unwrap();

    let w = writes.lock().unwrap();
    let seg_writes: Vec<&String> = w.iter().filter(|p| p.starts_with(SEG_PREFIX)).collect();
    assert_eq!(
        seg_writes.len(),
        1,
        "only the one new segment file is rewritten, not the unchanged two: {:?}",
        *w
    );
    assert!(
        seg_writes[0].ends_with(".2"),
        "and it is the new segment's file: {:?}",
        seg_writes
    );
}

#[test]
fn compaction_gcs_superseded_segment_files() {
    let dir = MemoryDirectory::arc();
    let mut s = SegmentedStore::open(dir.clone(), Kv, 2).unwrap();
    for i in 0..8u32 {
        s.add(i, format!("v{i}")).unwrap(); // four segments
    }
    s.checkpoint().unwrap();
    assert_eq!(seg_file_count(&dir), 4, "one file per segment");
    s.compact().unwrap(); // merge to one; the four inputs are superseded
    assert_eq!(s.segment_count(), 1);
    assert_eq!(
        seg_file_count(&dir),
        1,
        "the merged-away segment files are GC'd; only the result remains"
    );
}

#[test]
fn index_sidecars_are_gced_with_their_segments() {
    // The persist-index hook: a consumer writes a per-segment index sidecar keyed
    // by a stable seg id; segstore GCs it when the segment is compacted away, and
    // sweeps orphans on open, on the same schedule as the segment files.
    let dir = MemoryDirectory::arc();
    let mut s = SegmentedStore::open(dir.clone(), Kv, 2).unwrap();
    for i in 0..8u32 {
        s.add(i, format!("v{i}")).unwrap(); // four segments
    }
    s.checkpoint().unwrap();
    // Simulate the consumer persisting one index sidecar per segment.
    for &id in s.segment_ids() {
        dir.atomic_write(&s.index_name(id, "toy"), b"built-index")
            .unwrap();
    }
    let idx_count = |d: &Arc<dyn Directory>| {
        d.list_dir("")
            .unwrap()
            .into_iter()
            .filter(|n| idx_seg_id(n).is_some())
            .count()
    };
    assert_eq!(idx_count(&dir), 4, "one sidecar per segment");

    // Compaction merges to one segment; the four inputs' sidecars are orphaned.
    s.compact().unwrap();
    assert_eq!(s.segment_count(), 1);
    assert_eq!(
        idx_count(&dir),
        0,
        "sidecars of compacted-away segments are GC'd"
    );

    // A sidecar for a segment that no longer exists is swept on open.
    dir.atomic_write(&s.index_name(9999, "toy"), b"orphan")
        .unwrap();
    drop(s);
    let _ = SegmentedStore::open(dir.clone(), Kv, 2).unwrap();
    assert_eq!(idx_count(&dir), 0, "orphan sidecar GC'd on open");
}

#[test]
fn legacy_sidecar_names_are_still_gced() {
    // `try_index_name` rejects dotted kinds for new writes, but pre-grammar
    // releases allowed callers to write names such as `hnsw.v1`. Treat them
    // as sidecars for GC so upgrades do not strand stale derived artifacts.
    let dir = MemoryDirectory::arc();
    let mut s = SegmentedStore::open(dir.clone(), Kv, 2).unwrap();
    for i in 0..4u32 {
        s.add(i, format!("v{i}")).unwrap();
    }
    s.checkpoint().unwrap();
    let stale_id = s.segment_ids()[0];
    dir.atomic_write(&format!("{IDX_PREFIX}{stale_id}.hnsw.v1"), b"old-index")
        .unwrap();

    s.compact().unwrap();

    assert!(
        !dir.exists(&format!("{IDX_PREFIX}{stale_id}.hnsw.v1")),
        "legacy dotted-kind sidecar is removed when its segment is compacted away"
    );
}

#[test]
fn index_sidecar_kind_is_checked() {
    let dir = MemoryDirectory::arc();
    let s = SegmentedStore::open(dir, Kv, 2).unwrap();

    assert_eq!(
        try_index_name(7, "hnsw_v1-fast").unwrap(),
        "segstore.idx.7.hnsw_v1-fast"
    );
    assert_eq!(
        s.try_index_name(7, "hnsw_v1-fast").unwrap(),
        try_index_name(7, "hnsw_v1-fast").unwrap()
    );
    assert_eq!(
        s.index_name(7, "hnsw_v1-fast"),
        index_name(7, "hnsw_v1-fast")
    );

    for kind in ["", "hnsw.v1", "hnsw/tmp", "../hnsw", ".tmp", "hnsw tmp"] {
        assert!(
            matches!(
                try_index_name(7, kind),
                Err(segstore::PersistenceError::InvalidConfig(_))
            ),
            "kind {kind:?} should be rejected by the free helper"
        );
        assert!(
            matches!(
                s.try_index_name(7, kind),
                Err(segstore::PersistenceError::InvalidConfig(_))
            ),
            "kind {kind:?} should be rejected"
        );
    }
}

#[test]
fn v02_ckpt_format_is_rejected() {
    let dir = MemoryDirectory::arc();
    // Simulate a 0.2 store: a monolithic checkpoint blob, no manifest.
    dir.atomic_write(LEGACY_CKPT_PATH, b"a 0.2 checkpoint blob")
        .unwrap();
    let err = SegmentedStore::open(dir, Kv, 2);
    assert!(
        matches!(err, Err(PersistenceError::InvalidConfig(_))),
        "a 0.2 on-disk store is rejected, not misread"
    );
}

#[test]
fn segment_catalog_reads_source_payloads_and_exposes_liveness_separately() {
    let dir = MemoryDirectory::arc();
    {
        let mut s = SegmentedStore::open(dir.clone(), Kv, 2).unwrap();
        s.add(1, "a".into()).unwrap();
        s.add(2, "b".into()).unwrap();
        s.delete(2).unwrap();
        s.checkpoint().unwrap();
    }

    let catalog = SegmentCatalog::<u32>::open(dir).unwrap();
    let segment_id = catalog.segment_ids()[0];
    let segment: Vec<(u32, String)> = catalog.read_segment(segment_id).unwrap();

    assert_eq!(segment, vec![(1, "a".into()), (2, "b".into())]);
    assert!(catalog.is_live(&1));
    assert!(!catalog.is_live(&2));
}

#[test]
fn segment_catalog_payload_into_reuses_buffer_and_clears_on_error() {
    let dir = MemoryDirectory::arc();
    let seg_id = {
        let mut s = SegmentedStore::open(dir.clone(), Kv, 1).unwrap();
        s.add(1, "a".into()).unwrap();
        s.checkpoint().unwrap();
        s.segment_ids()[0]
    };
    let catalog = SegmentCatalog::<u32>::open(dir.clone()).unwrap();

    let mut scratch = Vec::with_capacity(1024);
    let ptr = scratch.as_ptr();
    catalog
        .read_segment_payload_into(seg_id, &mut scratch)
        .unwrap();
    assert_eq!(
        scratch.as_ptr(),
        ptr,
        "a sufficiently large scratch buffer is reused"
    );
    let good_payload = scratch.clone();
    scratch.extend_from_slice(b"stale suffix");
    catalog
        .read_segment_payload_into(seg_id, &mut scratch)
        .unwrap();
    assert_eq!(scratch, good_payload, "the destination is cleared first");

    let name = seg_path(seg_id);
    let mut bytes = Vec::new();
    dir.open_file(&name)
        .unwrap()
        .read_to_end(&mut bytes)
        .unwrap();
    let last = bytes.len() - 1;
    bytes[last] ^= 0xFF;
    dir.atomic_write(&name, &bytes).unwrap();

    let err = catalog
        .read_segment_payload_into(seg_id, &mut scratch)
        .unwrap_err();
    assert!(
        matches!(err, PersistenceError::CrcMismatch { .. }),
        "payload corruption is still detected: {err}"
    );
    assert!(
        scratch.is_empty(),
        "partial/corrupt reads do not leak bytes"
    );
}

#[test]
fn segment_catalog_rejects_legacy_formats() {
    let dir = MemoryDirectory::arc();
    dir.atomic_write(LEGACY_CKPT_PATH, b"a 0.2 checkpoint blob")
        .unwrap();
    let err = SegmentCatalog::<u32>::open(dir);
    assert!(
        matches!(err, Err(PersistenceError::InvalidConfig(_))),
        "legacy monolithic checkpoints are rejected consistently"
    );
}

#[test]
fn recovers_consistently_from_io_fault_at_every_step() {
    // FoundationDB-style fault injection: fail the Nth IO op, then reopen on
    // the underlying (un-faulted) directory and assert the recovered live set
    // is EXACTLY the durably-acked adds -- every Ok(add) survives, no failed add
    // appears, recovery never panics and never sees corruption. Sweeps the
    // fault point across the whole op sequence.
    for fail_after in 0..30usize {
        let mem = MemoryDirectory::arc();
        let disk = Disk::failing_after(fail_after);
        let mut acked: Vec<u32> = Vec::new();
        if let Ok(mut s) = SegmentedStore::open_on(mem.clone(), Kv, Options::new(2), disk) {
            for i in 0..10u32 {
                if s.add(i, format!("v{i}")).is_err() {
                    break;
                }
                acked.push(i);
                if i % 3 == 0 && s.compact_tiers().is_err() {
                    break;
                }
            }
        }
        // Reopen on the clean underlying directory (the partial on-disk state).
        let s2 = SegmentedStore::open(mem, Kv, 2)
            .expect("recovery after an injected IO fault must not fail");
        let mut live: Vec<u32> = live_set(&s2).into_iter().map(|(id, _)| id).collect();
        live.sort_unstable();
        assert_eq!(
            live, acked,
            "fail_after={fail_after}: recovered set must be exactly the durably-acked adds"
        );
    }
}

#[test]
fn no_space_leak_across_crash_recovery_cycles() {
    // After many crash+recover cycles, deleting everything and a full compaction
    // returns the store to baseline: no leaked segments, items, tombstones, or WAL
    // generations. This is redb's canonical invariant and the bug class targeted
    // crash tests structurally miss (a slow leak across recovery cycles).
    let mem = MemoryDirectory::arc();
    for cycle in 0..20u32 {
        // "Crash": run a few ops under an IO fault and drop the store mid-flight.
        let disk = Disk::failing_after((cycle as usize % 5) + 1);
        if let Ok(mut s) = SegmentedStore::open_on(mem.clone(), Kv, Options::new(2), disk) {
            for j in 0..4u32 {
                let id = cycle * 100 + j;
                let _ = s.add(id, format!("v{id}"));
                let _ = s.compact_tiers();
            }
        }
        // Recover on the clean directory between cycles.
        let _ = SegmentedStore::open(mem.clone(), Kv, 2).unwrap();
    }
    // Delete every surviving id, then full-compact.
    let mut s = SegmentedStore::open(mem.clone(), Kv, 2).unwrap();
    let live: Vec<u32> = live_set(&s).into_iter().map(|(id, _)| id).collect();
    for id in live {
        s.delete(id).unwrap();
    }
    s.compact().unwrap();
    assert_eq!(
        s.segment_count(),
        0,
        "no leaked segments after delete-all + compact"
    );
    assert_eq!(s.stored_len(), 0, "no leaked stored items");
    assert_eq!(s.tombstone_count(), 0, "compact purged the tombstone set");
    let wals: Vec<String> = mem
        .list_dir("")
        .unwrap()
        .into_iter()
        .filter(|n| n.starts_with(WAL_PREFIX))
        .collect();
    assert!(wals.len() <= 1, "no leaked WAL generations: {wals:?}");
    assert_eq!(
        seg_file_count(&mem),
        0,
        "no leaked segment files after delete-all + compact"
    );
}

#[test]
fn space_amplification_tracks_dead_data() {
    let dir = MemoryDirectory::arc();
    let mut s = SegmentedStore::open(dir, Kv, 2).unwrap();
    for i in 0..10u32 {
        s.add(i, format!("v{i}")).unwrap();
    }
    assert_eq!(
        s.space_amplification(),
        Some(1.0),
        "no deletes, no dead data"
    );
    for i in 0..5u32 {
        s.delete(i).unwrap();
    }
    // 10 stored, 5 live -> amplification 2.0.
    assert_eq!(s.space_amplification(), Some(2.0));
    s.compact().unwrap();
    assert_eq!(s.space_amplification(), Some(1.0), "compaction reclaims it");
}

#[test]
fn space_amplification_is_none_without_live_len() {
    let dir = MemoryDirectory::arc();
    let mut s = SegmentedStore::open(dir, OpaqueKv, 2).unwrap();
    s.add(1, "a".into()).unwrap();
    s.add(2, "b".into()).unwrap();
    assert_eq!(
        s.space_amplification(),
        None,
        "a store without live_len cannot report it"
    );
}

#[test]
fn reclaim_tombstones_rewrites_only_heavy_segments() {
    let dir = MemoryDirectory::arc();
    let mut s = SegmentedStore::open(dir, Kv, 2).unwrap();
    // 5 segments of size 2 (ids 0..10).
    for i in 0..10u32 {
        s.add(i, format!("v{i}")).unwrap();
    }
    // Tombstone both items in the first two segments (ids 0,1,2,3) -> those
    // segments are fully dead; the rest are fully live.
    for i in 0..4u32 {
        s.delete(i).unwrap();
    }
    let before_stored = s.stored_len();
    let stats = s.reclaim_tombstones(0.5).unwrap();
    assert!(stats.merges > 0, "the dead segments were reclaimed");
    assert!(
        s.stored_len() < before_stored,
        "dead data dropped: {} < {}",
        s.stored_len(),
        before_stored
    );
    // Live set unchanged; tombstones kept (no full purge).
    let live: Vec<u32> = live_set(&s).into_iter().map(|(id, _)| id).collect();
    assert_eq!(live, (4..10).collect::<Vec<_>>());
}

#[test]
fn reclaim_tombstones_is_noop_without_live_len() {
    let dir = MemoryDirectory::arc();
    let mut s = SegmentedStore::open(dir, OpaqueKv, 2).unwrap();
    for i in 0..6u32 {
        s.add(i, format!("v{i}")).unwrap();
    }
    s.delete(0).unwrap();
    let before = s.segment_count();
    let stats = s.reclaim_tombstones(0.9).unwrap();
    assert_eq!(stats.merges, 0, "no live_len -> reclaim is a no-op");
    assert_eq!(s.segment_count(), before);
}

#[test]
fn reclaim_drops_a_fully_dead_segment() {
    let dir = MemoryDirectory::arc();
    let mut s = SegmentedStore::open(dir, Kv, 2).unwrap();
    for i in 0..4u32 {
        s.add(i, format!("v{i}")).unwrap(); // segment A=[0,1], B=[2,3]
    }
    assert_eq!(s.segment_count(), 2);
    s.delete(0).unwrap();
    s.delete(1).unwrap(); // segment A is now 0% live
    s.reclaim_tombstones(0.5).unwrap();
    // A's merge produces an empty segment, which is dropped (not kept as empty).
    assert_eq!(s.segment_count(), 1, "the fully-dead segment is dropped");
    assert_eq!(s.stored_len(), 2, "only the live segment remains");
}

#[test]
fn force_merge_to_consolidates_without_data_loss() {
    let dir = MemoryDirectory::arc();
    let mut s = SegmentedStore::open(dir, Kv, 2).unwrap();
    for i in 0..20u32 {
        s.add(i, format!("v{i}")).unwrap(); // 10 segments of size 2
    }
    assert_eq!(s.segment_count(), 10);
    let stats = s.force_merge_to(3).unwrap();
    // Minimum work: consolidates to exactly 3 in a single merge (k = over+1 = 8
    // segments at once), like Lucene's least-number-of-merges force-merge.
    assert_eq!(s.segment_count(), 3, "consolidated to exactly 3");
    assert_eq!(stats.merges, 1, "one merge suffices (minimum work)");
    assert!(stats.items_merged > 0, "merged work is reported");
    assert_eq!(live_multiset(&s).len(), 20, "no data lost");
}

#[test]
fn force_merge_to_one_purges_tombstones() {
    let dir = MemoryDirectory::arc();
    let mut s = SegmentedStore::open(dir, Kv, 2).unwrap();
    for i in 0..10u32 {
        s.add(i, format!("v{i}")).unwrap();
    }
    for i in 0..5u32 {
        s.delete(i).unwrap();
    }
    s.force_merge_to(1).unwrap();
    assert_eq!(s.segment_count(), 1);
    assert_eq!(s.tombstone_count(), 0, "merge to one purges tombstones");
    let live: Vec<u32> = live_set(&s).into_iter().map(|(id, _)| id).collect();
    assert_eq!(live, (5..10).collect::<Vec<_>>());
}

#[test]
fn force_merge_to_is_noop_when_already_small() {
    let dir = MemoryDirectory::arc();
    let mut s = SegmentedStore::open(dir, Kv, 2).unwrap();
    for i in 0..4u32 {
        s.add(i, format!("v{i}")).unwrap(); // 2 segments
    }
    let e = s.epoch();
    let stats = s.force_merge_to(5).unwrap();
    assert_eq!(stats.merges, 0, "already at/below target, nothing to merge");
    assert_eq!(s.segment_count(), 2);
    assert_eq!(s.epoch(), e, "no merge -> no checkpoint");
}

#[test]
fn force_merge_persists_across_reopen() {
    let dir = MemoryDirectory::arc();
    {
        let mut s = SegmentedStore::open(dir.clone(), Kv, 2).unwrap();
        for i in 0..20u32 {
            s.add(i, format!("v{i}")).unwrap(); // 10 segments
        }
        s.force_merge_to(2).unwrap();
        assert_eq!(s.segment_count(), 2);
    }
    let s = SegmentedStore::open(dir, Kv, 2).unwrap();
    assert_eq!(s.segment_count(), 2, "force-merge result was checkpointed");
    assert_eq!(live_multiset(&s).len(), 20);
}

/// Tiering rewrites each item O(log) times, so the total merged work over N
/// inserts is O(N log N) -- far below the O(N^2) of rebuilding everything on
/// each compaction, which is the cliff the max_merged_len cap exists to avoid.
#[test]
fn tiered_write_amplification_is_subquadratic() {
    let dir = MemoryDirectory::arc();
    let cfg = TierConfig::default(); // min_merge 4, large cap (no freezing here)
    let mut s = SegmentedStore::open_with_options(dir, Kv, tier_opts(4, cfg, false)).unwrap();
    let n: u32 = 4000;
    let mut total_merged = 0usize;
    for i in 0..n {
        s.add(i, format!("v{i}")).unwrap();
        if i % 16 == 0 {
            total_merged += s.compact_tiers().unwrap().items_merged;
        }
    }
    total_merged += s.compact_tiers().unwrap().items_merged;
    let n = n as usize;
    assert!(total_merged > 0, "compaction actually ran");
    assert!(
        total_merged < 20 * n,
        "tiered merge work {total_merged} is ~O(N log N) (< 20*N = {}), not O(N^2={})",
        20 * n,
        n * n
    );
    assert_eq!(live_multiset(&s).len(), n, "no data lost");
}

#[test]
fn epoch_advances_per_checkpoint() {
    let dir = MemoryDirectory::arc();
    let mut s = SegmentedStore::open(dir, Kv, 2).unwrap();
    assert_eq!(s.epoch(), 0);
    s.add(1, "a".into()).unwrap();
    s.checkpoint().unwrap();
    assert_eq!(s.epoch(), 1);
    s.checkpoint().unwrap();
    assert_eq!(s.epoch(), 2);
}

#[test]
fn stored_len_and_space_amp_count_the_buffer() {
    let dir = MemoryDirectory::arc();
    let mut s = SegmentedStore::open(dir, Kv, 100).unwrap(); // stays buffered
    s.add(1, "a".into()).unwrap();
    s.add(2, "b".into()).unwrap();
    assert_eq!(s.segment_count(), 0, "all buffered");
    assert_eq!(s.stored_len(), 2, "stored_len counts the buffer");
    assert_eq!(
        s.space_amplification(),
        Some(1.0),
        "buffered items are live"
    );
}

#[test]
fn space_amp_of_empty_store_is_one() {
    let dir = MemoryDirectory::arc();
    let s = SegmentedStore::open(dir, Kv, 2).unwrap();
    assert_eq!(s.space_amplification(), Some(1.0));
}

#[test]
fn space_amp_is_infinite_when_all_dead() {
    let dir = MemoryDirectory::arc();
    let mut s = SegmentedStore::open(dir, Kv, 2).unwrap();
    s.add(1, "a".into()).unwrap();
    s.add(2, "b".into()).unwrap(); // 1 segment, size 2
    s.delete(1).unwrap();
    s.delete(2).unwrap(); // stored 2, live 0
    assert!(
        s.space_amplification().unwrap().is_infinite(),
        "an all-dead segment is infinite amplification"
    );
}

#[test]
fn has_eligible_tier_is_true_when_a_bucket_is_full() {
    let dir = MemoryDirectory::arc();
    let cfg = TierConfig {
        min_merge: 4,
        ..Default::default()
    };
    let mut s = SegmentedStore::open_with_options(dir, Kv, tier_opts(2, cfg, false)).unwrap();
    for i in 0..8u32 {
        s.add(i, format!("v{i}")).unwrap(); // 4 size-2 segments = one full bucket
    }
    assert!(s.has_eligible_tier());
}

#[test]
fn compact_merges_only_when_there_is_work() {
    let dir = MemoryDirectory::arc();
    let mut s = SegmentedStore::open(dir, Kv, 2).unwrap();
    s.add(1, "a".into()).unwrap();
    s.add(2, "b".into()).unwrap(); // 1 segment, no tombstones
    assert_eq!(
        s.compact().unwrap().merges,
        0,
        "a single clean segment: nothing to merge"
    );
    s.delete(1).unwrap();
    assert_eq!(
        s.compact().unwrap().merges,
        1,
        "a tombstone present: merge to purge it"
    );
}

#[test]
fn reclaim_respects_the_live_ratio_threshold() {
    let dir = MemoryDirectory::arc();
    let mut s = SegmentedStore::open(dir, Kv, 4).unwrap();
    for i in 0..12u32 {
        s.add(i, format!("v{i}")).unwrap(); // 3 segments: [0-3] [4-7] [8-11]
    }
    // A: delete 0,1,2 -> 1/4 = 0.25 live. B: delete 4 -> 3/4 = 0.75. C: delete 8,9 -> 2/4 = 0.5.
    for i in [0u32, 1, 2, 4, 8, 9] {
        s.delete(i).unwrap();
    }
    let stats = s.reclaim_tombstones(0.5).unwrap();
    // Only A (0.25 < 0.5) qualifies; C (0.5) is at the threshold, not below; B (0.75) is above.
    assert_eq!(
        stats.merges, 1,
        "only the sub-threshold segment is reclaimed"
    );
    assert_eq!(stats.items_merged, 1, "A's single live item is rewritten");
    assert_eq!(
        s.segment_count(),
        3,
        "A rewritten in place; B and C untouched"
    );
    assert_eq!(s.stored_len(), 1 + 4 + 4, "only A's dead entries dropped");
}

#[test]
fn compact_tiers_persists_across_reopen() {
    let dir = MemoryDirectory::arc();
    let cfg = TierConfig {
        min_merge: 4,
        ..Default::default()
    };
    {
        let mut s =
            SegmentedStore::open_with_options(dir.clone(), Kv, tier_opts(2, cfg, false))
                .unwrap();
        for i in 0..8u32 {
            s.add(i, format!("v{i}")).unwrap();
        }
        assert_eq!(s.compact_tiers().unwrap().merges, 1);
        assert_eq!(s.segment_count(), 1);
    }
    let s = SegmentedStore::open_with_options(dir, Kv, tier_opts(2, cfg, false)).unwrap();
    assert_eq!(s.segment_count(), 1, "the tier merge was checkpointed");
    assert_eq!(live_multiset(&s).len(), 8);
}

#[test]
fn compact_tiers_without_eligible_bucket_does_not_checkpoint() {
    let dir = MemoryDirectory::arc();
    let mut s = SegmentedStore::open(dir, Kv, 100).unwrap();
    s.add(1, "a".into()).unwrap();
    let e = s.epoch();
    assert_eq!(s.compact_tiers().unwrap().merges, 0);
    assert_eq!(s.epoch(), e, "no merge -> no checkpoint -> epoch unchanged");
}

#[test]
fn cap_freezes_large_segments_from_tier_merges() {
    let dir = MemoryDirectory::arc();
    // cap = 8 -> a segment above cap/2 = 4 is frozen out of tier merges, so the
    // biggest segment is never rewritten by tiering (the O(N^2) cliff guard).
    let cfg = TierConfig {
        min_merge: 4,
        max_merged_len: 8,
        ..Default::default()
    };
    let mut s = SegmentedStore::open_with_options(dir, Kv, tier_opts(2, cfg, false)).unwrap();
    for i in 0..8u32 {
        s.add(i, format!("v{i}")).unwrap();
    }
    s.force_merge_to(1).unwrap(); // one size-8 segment, now frozen (> cap/2)
    assert_eq!(s.segment_sizes(), vec![8]);
    for i in 8..20u32 {
        s.add(i, format!("v{i}")).unwrap(); // 6 more size-2 segments
    }
    s.compact_tiers().unwrap();
    assert!(
        s.segment_sizes().contains(&8),
        "the frozen segment is never selected for a tier merge"
    );
    for sz in s.segment_sizes() {
        assert!(sz <= cfg.max_merged_len, "no segment exceeds the cap");
    }
    assert_eq!(live_multiset(&s).len(), 20, "no data lost");
}

#[test]
fn without_compaction_fan_out_grows_then_collapses() {
    // The failure mode tiering exists to prevent: with no compaction every
    // flush adds a segment, and a query scans all segments, so fan-out grows
    // linearly with the corpus. Compaction collapses it.
    let dir = MemoryDirectory::arc();
    let mut s = SegmentedStore::open(dir, Kv, 2).unwrap();
    for i in 0..40u32 {
        s.add(i, format!("v{i}")).unwrap();
    }
    assert_eq!(
        s.segment_count(),
        20,
        "no compaction: 40 adds / flush 2 = 20 segments to scan per query"
    );
    s.compact_tiers().unwrap();
    assert!(
        s.segment_count() < 20,
        "tiered compaction collapses the fan-out, got {}",
        s.segment_count()
    );
    assert_eq!(live_multiset(&s).len(), 40, "without losing data");
}

#[test]
fn view_reflects_segments_minus_tombstones() {
    let mut s = SegmentedStore::open(MemoryDirectory::arc(), Kv, 2).unwrap();
    for i in 0..6u32 {
        s.add(i, format!("v{i}")).unwrap();
    }
    s.delete(2).unwrap();
    s.checkpoint().unwrap(); // commit-visibility: publish to readers
    let v = s.reader().view();
    let mut live: Vec<u32> = Vec::new();
    for seg in v.segments() {
        for (id, _) in seg.iter() {
            if v.is_live(id) {
                live.push(*id);
            }
        }
    }
    live.sort_unstable();
    assert_eq!(
        live,
        vec![0, 1, 3, 4, 5],
        "view = checkpointed segments minus tombstones"
    );
}

#[test]
fn view_is_a_stable_snapshot_across_writes() {
    let mut s = SegmentedStore::open(MemoryDirectory::arc(), Kv, 2).unwrap();
    for i in 0..6u32 {
        s.add(i, format!("v{i}")).unwrap(); // 3 segments
    }
    s.checkpoint().unwrap(); // publish the 3 segments to readers
    let reader = s.reader();
    let v1 = reader.view();
    let before = v1.segment_count();
    assert_eq!(before, 3);
    // Mutate heavily while v1 is held.
    for i in 6..30u32 {
        s.add(i, format!("v{i}")).unwrap();
    }
    s.compact().unwrap();
    assert_eq!(v1.segment_count(), before, "the held view never changes");
    assert_eq!(
        reader.view().segment_count(),
        1,
        "a fresh view sees the compacted state"
    );
}

#[test]
fn unchanged_segments_keep_arc_identity_across_checkpoints() {
    // The point of Arc-internal segments: an unchanged segment keeps its Arc
    // identity across mutations, so a consumer can cache per-segment state keyed
    // by it and rebuild only new segments.
    let mut s = SegmentedStore::open(MemoryDirectory::arc(), Kv, 2).unwrap();
    for i in 0..6u32 {
        s.add(i, format!("v{i}")).unwrap(); // 3 segments
    }
    s.checkpoint().unwrap();
    let r = s.reader();
    let segs1 = r.view().segments().to_vec();
    assert_eq!(segs1.len(), 3);

    // A no-op checkpoint must keep every segment's identity.
    s.checkpoint().unwrap();
    let segs2 = r.view().segments().to_vec();
    assert!(
        same_arcs(&segs1, &segs2),
        "a no-op checkpoint keeps all segment identities"
    );

    // Sealing a new segment leaves the originals' identities intact.
    s.add(10, "x".into()).unwrap();
    s.add(11, "y".into()).unwrap(); // seals a 4th segment
    s.checkpoint().unwrap();
    let segs3 = r.view().segments().to_vec();
    assert_eq!(segs3.len(), 4);
    assert!(
        same_arcs(&segs3[..3], &segs1),
        "the original segments keep identity; only the new one is fresh"
    );
}

#[test]
fn segment_ids_align_and_are_stable_across_checkpoint_and_reopen() {
    // The stable-id contract the persist-index hook rests on: ids align 1:1 with
    // segments, an unchanged segment keeps its id (so a persisted-index cache key
    // does not move), and ids survive a restart (unlike the Arc pointer).
    let dir = MemoryDirectory::arc();
    let mut s = SegmentedStore::open(dir.clone(), Kv, 2).unwrap();
    for i in 0..6u32 {
        s.add(i, format!("v{i}")).unwrap(); // 3 segments
    }
    s.checkpoint().unwrap();
    assert_eq!(s.segment_ids().len(), s.segments().len());
    assert_eq!(s.segment_ids().len(), 3);
    let ids0: Vec<u64> = s.segment_ids().to_vec();
    // The concurrent View exposes the same ids as the writer.
    assert_eq!(s.reader().view().segment_ids(), &ids0[..]);

    // A no-op checkpoint keeps every id (the cache key must not move on no change).
    s.checkpoint().unwrap();
    assert_eq!(s.segment_ids(), &ids0[..], "no-op checkpoint keeps ids");

    // Sealing a new segment keeps the originals' ids and appends a fresh one.
    s.add(10, "x".into()).unwrap();
    s.add(11, "y".into()).unwrap(); // seals a 4th segment
    s.checkpoint().unwrap();
    assert_eq!(&s.segment_ids()[..3], &ids0[..], "old ids unchanged");
    assert_eq!(s.segment_ids().len(), 4);
    assert!(
        !ids0.contains(&s.segment_ids()[3]),
        "the new segment got a fresh, never-reused id"
    );

    // Ids survive a restart: a consumer keying a persisted index cache on these
    // reloads it instead of rebuilding from the raw payload.
    let before: Vec<u64> = s.segment_ids().to_vec();
    drop(s);
    let s2 = SegmentedStore::open(dir, Kv, 2).unwrap();
    assert_eq!(
        s2.segment_ids(),
        &before[..],
        "segment ids are stable across a restart (persisted in the manifest)"
    );
}

#[test]
fn extend_matches_individual_adds() {
    let mut s1 = SegmentedStore::open(MemoryDirectory::arc(), Kv, 2).unwrap();
    let mut s2 = SegmentedStore::open(MemoryDirectory::arc(), Kv, 2).unwrap();
    for i in 0..20u32 {
        s1.add(i, format!("v{i}")).unwrap();
    }
    s2.extend((0..20u32).map(|i| (i, format!("v{i}")))).unwrap();
    assert_eq!(live_set(&s1), live_set(&s2), "extend == individual adds");
    assert_eq!(s1.segment_count(), s2.segment_count());
}

#[test]
fn extend_is_durable_across_reopen() {
    let dir = MemoryDirectory::arc();
    {
        let mut s = SegmentedStore::open(dir.clone(), Kv, 4).unwrap();
        s.extend((0..20u32).map(|i| (i, format!("v{i}")))).unwrap();
    }
    let s = SegmentedStore::open(dir, Kv, 4).unwrap();
    assert_eq!(
        live_set(&s).len(),
        20,
        "the whole batch is durable after sync"
    );
}

// ---- the protocol, step by step ----

fn fresh(flush: usize) -> segstore::SegmentedStore<Kv> {
    let empty = DirectoryProbe {
        legacy_wal: false,
        legacy_ckpt: false,
        manifest: false,
        file_backed: false,
    };
    segstore::SegmentedStore::open(Kv, flush, &empty, None, Vec::new()).unwrap()
}

#[test]
fn a_checkpoint_asks_for_segments_before_the_manifest() {
    let mut s = fresh(2);
    for i in 0..5u32 {
        s.add(i, format!("v{i}"));
    }
    assert_eq!(
        s.checkpoint(CheckpointEvent::Begin),
        CheckpointAction::WriteSegment { index: 0, id: 0 }
    );
    assert!(s.buffer().is_empty(), "the buffer is sealed first");
    assert_eq!(s.segment_ids(), &[0, 1, 2]);
    // A manifest that came too soon is not taken for a commit.
    assert_eq!(
        s.checkpoint(CheckpointEvent::ManifestWritten),
        CheckpointAction::WriteSegment { index: 0, id: 0 }
    );
    assert_eq!(s.epoch(), 0);
    assert_eq!(
        s.checkpoint(CheckpointEvent::SegmentWritten(0)),
        CheckpointAction::WriteSegment { index: 1, id: 1 }
    );
    assert_eq!(
        s.checkpoint(CheckpointEvent::SegmentWritten(1)),
        CheckpointAction::WriteSegment { index: 2, id: 2 }
    );
    assert_eq!(
        s.checkpoint(CheckpointEvent::SegmentWritten(2)),
        CheckpointAction::WriteManifest { epoch: 1 }
    );
    assert_eq!(s.published().segment_count(), 0, "not committed yet");
    assert_eq!(
        s.checkpoint(CheckpointEvent::ManifestWritten),
        CheckpointAction::Done { retired_epoch: 0 }
    );
    assert_eq!(s.epoch(), 1);
    assert_eq!(s.published().segment_ids(), &[0, 1, 2]);
}

#[test]
fn a_second_checkpoint_writes_no_segment() {
    let mut s = fresh(1);
    s.add(1, "a".into());
    s.checkpoint(CheckpointEvent::Begin);
    s.checkpoint(CheckpointEvent::SegmentWritten(0));
    s.checkpoint(CheckpointEvent::ManifestWritten);
    assert_eq!(
        s.checkpoint(CheckpointEvent::Begin),
        CheckpointAction::WriteManifest { epoch: 2 }
    );
    s.add(2, "b".into());
    assert_eq!(
        s.checkpoint(CheckpointEvent::Begin),
        CheckpointAction::WriteSegment { index: 1, id: 1 }
    );
}

/// An identity that cannot be cloned.
#[derive(PartialEq, Eq, Hash)]
struct Unique(u8);

#[test]
fn a_manifest_out_of_order_is_searched_through() {
    let probe = DirectoryProbe {
        legacy_wal: false,
        legacy_ckpt: false,
        manifest: true,
        file_backed: false,
    };
    let manifest = |segment_ids: Vec<u64>| segstore::catalog::Manifest {
        epoch: 3,
        next_seg_id: 10,
        segment_ids,
        tombstones: vec![Unique(1), Unique(2), Unique(1)],
    };
    for ids in [vec![2u64, 5, 9], vec![9, 2, 5], vec![5, 9, 2]] {
        let catalog = segstore::SegmentCatalog::open(&probe, Some(manifest(ids))).unwrap();
        for id in 0..12u64 {
            assert_eq!(
                catalog.segment_name(id).is_ok(),
                id == 2 || id == 5 || id == 9,
                "segment {id}"
            );
        }
        assert_eq!(catalog.tombstone_count(), 2);
        assert!(catalog.is_live(&Unique(3)) && !catalog.is_live(&Unique(2)));
    }
}

#[test]
fn the_manifest_says_what_is_current() {
    let mut s = fresh(1);
    s.add(7, "a".into());
    s.add(8, "b".into());
    s.delete(7);
    let manifest = s.manifest();
    assert_eq!(manifest.next_seg_id, 2);
    assert_eq!(manifest.segment_ids, &[0, 1]);
    assert!(manifest.tombstones.contains(&7) && manifest.tombstones.len() == 1);
}

#[test]
fn garbage_after_a_checkpoint_starts_with_the_retired_log() {
    let mut s = fresh(1);
    s.add(7, "a".into());
    let names: Vec<String> = vec!["segstore.seg.0".into(), "segstore.seg.5".into()];
    assert_eq!(
        s.gc_orphan_segments(&names, 3),
        vec!["segstore.wal.3", "segstore.seg.5"]
    );
}

#[test]
fn replaying_a_log_is_performing_it() {
    let empty = DirectoryProbe {
        legacy_wal: false,
        legacy_ckpt: false,
        manifest: false,
        file_backed: false,
    };
    let mut live = fresh(3);
    let mut log = Vec::new();
    for i in 0..20u32 {
        if i % 4 == 3 {
            live.delete(i - 1);
            log.push(segstore::log::Op::Delete(i - 1));
        } else {
            live.add(i, format!("v{i}"));
            log.push(segstore::log::Op::Add(i, format!("v{i}")));
        }
    }
    let replayed = segstore::SegmentedStore::open(Kv, 3, &empty, None, log).unwrap();
    assert_eq!(replayed.segment_sizes(), live.segment_sizes());
    assert_eq!(replayed.segment_ids(), live.segment_ids());
    assert_eq!(replayed.buffer(), live.buffer());
    assert_eq!(replayed.tombstone_count(), live.tombstone_count());
}

#[test]
fn a_zero_threshold_seals_every_add() {
    let mut s = fresh(0);
    s.add(1, "a".into());
    s.add(2, "b".into());
    assert_eq!(s.segment_sizes(), vec![1, 1]);
    assert!(s.buffer().is_empty());
}

#[test]
fn auto_compaction_is_due_only_when_it_is_on_and_a_bucket_is_full() {
    let empty = DirectoryProbe {
        legacy_wal: false,
        legacy_ckpt: false,
        manifest: false,
        file_backed: false,
    };
    let open = |auto: bool| {
        segstore::SegmentedStore::open_with_options(
            Kv,
            tier_opts(1, TierConfig::default(), auto),
            &empty,
            None,
            Vec::new(),
        )
        .unwrap()
    };
    let mut on = open(true);
    let mut off = open(false);
    let due: Vec<bool> = (0..4u32).map(|i| on.add(i, "x".into())).collect();
    assert_eq!(due, vec![false, false, false, true]);
    assert!((0..4u32).all(|i| !off.add(i, "x".into())));
}

#[test]
fn consolidation_takes_the_smallest_segments() {
    let mut s = fresh(2);
    for i in 0..4u32 {
        s.add(i, "x".into());
    }
    let stats = s.compact();
    assert_eq!((stats.merges, stats.items_merged), (1, 4));
    for i in 4..10u32 {
        s.add(i, "x".into());
    }
    assert_eq!(s.segment_sizes(), vec![4, 2, 2, 2]);
    let stats = s.force_merge_to(2);
    assert_eq!(s.segment_sizes(), vec![4, 6]);
    assert_eq!(
        stats,
        CompactionStats {
            merges: 1,
            segments_before: 4,
            segments_after: 2,
            items_merged: 6
        }
    );
}

#[test]
fn consolidating_what_is_few_enough_is_a_no_op() {
    let mut s = fresh(4);
    for i in 0..9u32 {
        s.add(i, "x".into());
    }
    s.delete(0);
    let idle = CompactionStats {
        merges: 0,
        segments_before: 2,
        segments_after: 2,
        items_merged: 0,
    };
    // Two segments and a buffered entry make three at most.
    assert_eq!(s.force_merge_to(3), idle);
    assert_eq!(s.buffer().len(), 1);
    assert_eq!(s.segment_ids(), &[0, 1]);
    assert_eq!(s.tombstone_count(), 1);
    assert_eq!(s.next_segment_id(), 2);
    assert!(!idle.checkpoint_owed(false));
    // To two segments the buffer has to go, and the lightest are merged.
    let stats = s.force_merge_to(2);
    assert_eq!((stats.merges, stats.segments_before, stats.segments_after), (1, 3, 2));
    assert!(s.buffer().is_empty());
    assert!(stats.checkpoint_owed(false));
}

#[test]
fn reclaiming_what_nobody_finds_sparse_is_a_no_op() {
    let mut s = fresh(2);
    for i in 0..5u32 {
        s.add(i, "x".into());
    }
    s.delete(0);
    let idle = CompactionStats {
        merges: 0,
        segments_before: 2,
        segments_after: 2,
        items_merged: 0,
    };
    assert_eq!(s.reclaim_tombstones(&|_: usize, _: usize| false), idle);
    assert_eq!(s.buffer().len(), 1);
    assert_eq!(s.segment_ids(), &[0, 1]);
    // With one sparse segment the buffer is sealed too, and stays as it is.
    let stats = s.reclaim_tombstones(&|live: usize, total: usize| live < total);
    assert_eq!(
        stats,
        CompactionStats {
            merges: 1,
            segments_before: 3,
            segments_after: 3,
            items_merged: 1,
        }
    );
    assert!(s.buffer().is_empty());
    assert_eq!(s.segment_ids(), &[1, 2, 3]);
    // A buffer that is found sparse along with the rest goes into the merge.
    s.add(9, "x".into());
    let stats = s.reclaim_tombstones(&|_: usize, _: usize| true);
    assert_eq!((stats.merges, stats.items_merged), (1, 5));
    assert_eq!(s.segment_sizes(), vec![5]);
}

#[test]
fn reclaiming_judges_what_the_buffer_becomes() {
    let mut s = fresh(4);
    s.add(1, "a".into());
    let ratio = 1.5f64;
    let below = |live: usize, total: usize| (live as f64) < ratio * total as f64;
    let stats = s.reclaim_tombstones(&below);
    assert_eq!(
        stats,
        CompactionStats {
            merges: 1,
            segments_before: 1,
            segments_after: 1,
            items_merged: 1,
        }
    );
    assert!(s.buffer().is_empty());
    assert_eq!(s.segment_ids(), &[1]);
    assert!(stats.checkpoint_owed(false));
}

/// Segments whose live items are counted only while they hold more than one item.
struct Shy;

impl Store for Shy {
    type Id = u32;
    type Item = String;
    type Segment = Vec<(u32, String)>;
    fn build_segment(&self, batch: &[(u32, String)]) -> Vec<(u32, String)> {
        batch.to_vec()
    }
    fn merge_segments<F: Fn(&u32) -> bool>(
        &self,
        segments: &[&Vec<(u32, String)>],
        live: &F,
    ) -> Vec<(u32, String)> {
        segments
            .iter()
            .flat_map(|s| s.iter())
            .filter(|(id, _)| live(id))
            .cloned()
            .collect()
    }
    fn segment_len(&self, segment: &Vec<(u32, String)>) -> usize {
        segment.len()
    }
    fn live_len<F: Fn(&u32) -> bool>(
        &self,
        segment: &Vec<(u32, String)>,
        live: &F,
    ) -> Option<usize> {
        if segment.len() > 1 {
            Some(segment.iter().filter(|(id, _)| live(id)).count())
        } else {
            None
        }
    }
}

#[test]
fn reclaiming_with_a_buffer_that_is_not_counted_is_a_no_op() {
    let empty = DirectoryProbe {
        legacy_wal: false,
        legacy_ckpt: false,
        manifest: false,
        file_backed: false,
    };
    let mut s = segstore::SegmentedStore::open(Shy, 2, &empty, None, Vec::new()).unwrap();
    for i in 0..3u32 {
        s.add(i, "x".into());
    }
    s.delete(0);
    let stats = s.reclaim_tombstones(&|live: usize, total: usize| live < total);
    assert_eq!((stats.merges, stats.segments_before, stats.segments_after), (0, 1, 1));
    assert_eq!(s.buffer().len(), 1);
    s.add(3, "x".into());
    let stats = s.reclaim_tombstones(&|live: usize, total: usize| live < total);
    assert_eq!((stats.merges, stats.items_merged), (1, 1));
}

#[test]
fn a_batch_is_synced_once_and_before_a_merge() {
    let empty = DirectoryProbe {
        legacy_wal: false,
        legacy_ckpt: false,
        manifest: false,
        file_backed: false,
    };
    let mut s = segstore::SegmentedStore::open_with_options(
        Kv,
        tier_opts(1, TierConfig::default(), true),
        &empty,
        None,
        Vec::new(),
    )
    .unwrap();
    let mut batch = Batch::default();
    assert_eq!(s.extend(&mut batch, None), BatchAction::Finish);
    for i in 0..3u32 {
        assert_eq!(
            s.extend(&mut batch, Some((i, "x".into()))),
            BatchAction::LogNext
        );
    }
    assert_eq!(
        s.extend(&mut batch, Some((3, "x".into()))),
        BatchAction::SyncAndCompact
    );
    assert_eq!(s.segment_count(), 4);
    assert_eq!(s.extend(&mut batch, None), BatchAction::SyncAndFinish);
    assert_eq!(s.segment_count(), 4);
}

#[test]
fn full_compaction_always_owes_a_checkpoint() {
    let mut s = fresh(4);
    s.add(1, "a".into());
    s.delete(1);
    let stats = s.compact();
    assert_eq!(stats.merges, 0);
    assert_eq!(s.tombstone_count(), 0);
    assert!(stats.checkpoint_owed(true) && !stats.checkpoint_owed(false));
}

#[test]
fn reclaiming_is_judged_by_live_and_total_counts() {
    let mut s = fresh(4);
    for i in 0..8u32 {
        s.add(i, "x".into());
    }
    s.delete(0);
    let stats = s.reclaim_tombstones(&|live: usize, total: usize| live < total);
    assert_eq!((stats.merges, stats.items_merged), (1, 3));
    assert_eq!(s.segment_sizes(), vec![4, 3]);
    assert_eq!(s.tombstone_count(), 1, "the tombstones stay");
    let stats = s.reclaim_tombstones(&|_: usize, _: usize| false);
    assert_eq!(stats.merges, 0);
}

#[test]
fn counts_of_an_empty_store_are_zero() {
    let s = fresh(2);
    assert_eq!(s.space_amplification(), Some((0, 0)));
    assert_eq!(s.stored_len(), 0);
    assert_eq!(s.next_segment_id(), 0);
    assert_eq!(s.sync_policy(), SyncPolicy::Flush);
}

#[test]
fn ids_are_never_handed_out_twice() {
    let mut s = fresh(1);
    let mut seen: Vec<u64> = Vec::new();
    for i in 0..30u32 {
        s.add(i, "x".into());
        let newest = *s.segment_ids().last().unwrap();
        assert!(!seen.contains(&newest));
        seen.push(newest);
        if i % 7 == 6 {
            s.compact();
            let merged = s.segment_ids()[0];
            assert!(!seen.contains(&merged));
            seen.push(merged);
        }
        assert!(s.segment_ids().windows(2).all(|w| w[0] < w[1]));
    }
}

#[test]
fn the_list_backed_store_keeps_live_entries_in_order() {
    let store = DefaultStore::<u32, String>::default();
    let a = store.build_segment(&[(1, "a".into()), (2, "b".into())]);
    let b = store.build_segment(&[(3, "c".into())]);
    let live = |id: &u32| *id != 2;
    assert_eq!(
        store.merge_segments(&[&b, &a], &live),
        vec![(3, "c".to_string()), (1, "a".to_string())]
    );
    assert_eq!(store.live_len(&a, &live), Some(1));
    assert_eq!(store.segment_len(&a), 2);
}

// ---- crash points and damage ----

/// Bytes of a file.
fn bytes_of(dir: &Arc<dyn Directory>, name: &str) -> Vec<u8> {
    let mut bytes = Vec::new();
    dir.open_file(name).unwrap().read_to_end(&mut bytes).unwrap();
    bytes
}

#[test]
fn a_torn_log_gives_back_a_prefix() {
    let dir = MemoryDirectory::arc();
    {
        let mut s = SegmentedStore::open(dir.clone(), Kv, 100).unwrap();
        s.add(1, "aaaa".into()).unwrap();
        s.add(2, "bbbb".into()).unwrap();
        s.add(3, "cccc".into()).unwrap();
        s.add(4, "dddd".into()).unwrap();
    }
    let bytes = bytes_of(&dir, &wal_path(0));
    dir.atomic_write(&wal_path(0), &bytes[..bytes.len() - 3])
        .unwrap();
    let s2 = SegmentedStore::open(dir, Kv, 100).unwrap();
    assert_eq!(
        live_set(&s2),
        vec![(1, "aaaa".into()), (2, "bbbb".into()), (3, "cccc".into())]
    );
}

#[test]
fn damaged_manifests_and_segments_are_errors() {
    let dir = MemoryDirectory::arc();
    {
        let mut s = SegmentedStore::open(dir.clone(), Kv, 2).unwrap();
        s.add(1, "aaaaaaaa".into()).unwrap();
        s.add(2, "bbbbbbbb".into()).unwrap();
        s.checkpoint().unwrap();
    }
    for name in [MANIFEST_PATH.to_string(), seg_path(0)] {
        let good = bytes_of(&dir, &name);
        for i in 0..good.len() {
            let mut bad = good.clone();
            bad[i] ^= 0x80;
            dir.atomic_write(&name, &bad).unwrap();
            assert!(
                SegmentedStore::open(dir.clone(), Kv, 2).is_err(),
                "byte {i} of {name}"
            );
        }
        dir.atomic_write(&name, &good).unwrap();
    }
    assert!(SegmentedStore::open(dir, Kv, 2).is_ok());
}

#[test]
fn a_catalog_reads_one_segment_while_another_is_damaged() {
    let dir = MemoryDirectory::arc();
    {
        let mut s = SegmentedStore::open(dir.clone(), Kv, 2).unwrap();
        for (id, item) in [(1u32, "a"), (2, "b"), (3, "c"), (4, "d")] {
            s.add(id, item.into()).unwrap();
        }
        s.delete(2).unwrap();
        s.checkpoint().unwrap();
    }
    let mut bytes = bytes_of(&dir, &seg_path(0));
    let last = bytes.len() - 1;
    bytes[last] ^= 0xFF;
    dir.atomic_write(&seg_path(0), &bytes).unwrap();

    let catalog = SegmentCatalog::<u32>::open(dir).unwrap();
    assert_eq!(catalog.epoch(), 1);
    assert_eq!(catalog.next_segment_id(), 2);
    assert_eq!(catalog.segment_ids(), &[0, 1]);
    assert_eq!(catalog.segment_count(), 2);
    assert_eq!(catalog.tombstone_count(), 1);
    assert!(catalog.is_live(&1) && !catalog.is_live(&2));
    assert_eq!(catalog.segment_name(1).unwrap(), seg_path(1));
    assert_eq!(catalog.try_index_name(1, "toy").unwrap(), "segstore.idx.1.toy");
    assert_eq!(catalog.index_name(1, "toy"), index_name(1, "toy"));
    assert!(matches!(
        catalog.try_index_name(1, "t.y"),
        Err(segstore::PersistenceError::InvalidConfig(_))
    ));
    match catalog.segment_name(99) {
        Err(segstore::PersistenceError::NotFound(m)) => {
            assert_eq!(m, "segment id 99 is not in the checkpoint manifest")
        }
        other => panic!("expected a not-found error, got {other:?}"),
    }
    let payload = catalog.read_segment_payload(1).unwrap();
    let file = catalog.file(1).unwrap();
    let info = catalog.segment_payload_info(1, &file).unwrap();
    assert_eq!(info.payload_len, payload.len());
    assert_eq!(info.payload_crc32, crc32fast::hash(&payload));
    info.verify_payload(&payload).unwrap();
    assert_eq!(&file[info.payload_offset as usize..], &payload[..]);
    assert!(catalog.read_segment_payload(0).is_err());
    let seg1: Vec<(u32, String)> = catalog.read_segment(1).unwrap();
    assert_eq!(seg1, vec![(3, "c".into()), (4, "d".into())]);

    let mut scratch = b"stale".to_vec();
    assert!(matches!(
        segstore::SegmentCatalog::read_segment_payload_into(&catalog, 99, &file, &mut scratch),
        Err(segstore::PersistenceError::NotFound(_))
    ));
    assert!(scratch.is_empty());
}

/// The default band in floating point.
#[derive(Clone, Copy)]
struct FloatBand;

impl SizeBand for FloatBand {
    type Average = f64;
    fn open(&self, size: usize) -> f64 {
        size as f64
    }
    fn admits(&self, average: &f64, size: usize) -> bool {
        size as f64 > average * 0.5 && (size as f64) < average * 1.5
    }
    fn join(&self, average: &f64, count: usize, size: usize) -> f64 {
        (average * count as f64 + size as f64) / (count as f64 + 1.0)
    }
    fn below(&self, a: &f64, b: &f64) -> bool {
        a < b
    }
}

/// A sequence of numbers that looks random.
struct Numbers(u64);

impl Numbers {
    fn next(&mut self) -> u32 {
        self.0 = self
            .0
            .wrapping_mul(6364136223846793005)
            .wrapping_add(1442695040888963407);
        (self.0 >> 33) as u32
    }
}

#[test]
fn live_set_matches_a_model_under_random_operations() {
    for seed in 0..40u64 {
        let mut numbers = Numbers(seed.wrapping_mul(0x9E37_79B9_7F4A_7C15));
        let dir = MemoryDirectory::arc();
        let options = || Options {
            flush_threshold: 3,
            sync: SyncPolicy::Flush,
            tiering: TierConfig {
                min_merge: 4,
                max_merge: 8,
                max_merged_len: 64,
                band: FloatBand,
            },
            auto_compact: false,
        };
        let mut s = SegmentedStore::open_with_options(dir.clone(), Kv, options()).unwrap();
        let mut model: std::collections::BTreeMap<u32, String> = Default::default();
        let mut next_id = 0u32;
        let mut committed: (u64, Vec<u64>, usize) = (0, Vec::new(), 0);
        for _ in 0..150 {
            let before = s.epoch();
            match numbers.next() % 8 {
                0..=2 => {
                    s.add(next_id, format!("v{next_id}")).unwrap();
                    model.insert(next_id, format!("v{next_id}"));
                    next_id += 1;
                }
                3 | 4 => {
                    if next_id > 0 {
                        let id = numbers.next() % next_id;
                        s.delete(id).unwrap();
                        model.remove(&id);
                    }
                }
                5 => {
                    s.compact_tiers().unwrap();
                }
                6 => {
                    if numbers.next() % 3 == 0 {
                        s.compact().unwrap();
                    } else {
                        s.checkpoint().unwrap();
                    }
                }
                _ => {
                    s = SegmentedStore::open_with_options(dir.clone(), Kv, options()).unwrap();
                }
            }
            if s.epoch() != before {
                assert_eq!(s.epoch(), before + 1);
                committed = (s.epoch(), s.segment_ids().to_vec(), s.tombstone_count());
            }
            let catalog = SegmentCatalog::<u32>::open(dir.clone()).unwrap();
            assert_eq!(catalog.epoch(), committed.0);
            assert_eq!(catalog.segment_ids(), &committed.1[..]);
            assert_eq!(catalog.tombstone_count(), committed.2);
            assert_eq!(s.reader().view().segment_ids(), &committed.1[..]);
            assert_eq!(s.segment_ids().len(), s.segment_count());
            assert!(s.segment_sizes().iter().all(|n| *n <= 64));
        }
        let want: Vec<(u32, String)> = model.into_iter().collect();
        assert_eq!(live_set(&s), want, "seed {seed}");
        drop(s);
        let reopened = SegmentedStore::open_with_options(dir, Kv, options()).unwrap();
        assert_eq!(live_set(&reopened), want, "seed {seed}, reopened");
    }
}

#[test]
fn reopening_gives_the_same_lists() {
    for seed in 1..30u64 {
        let mut numbers = Numbers(seed.wrapping_mul(0x9E37_79B9_7F4A_7C15));
        let dir = MemoryDirectory::arc();
        let model = || DefaultStore::<u32, String>::new();
        let mut s = SegmentedStore::open(dir.clone(), model(), 3).unwrap();
        for _ in 0..60 {
            let id = numbers.next() % 12;
            match numbers.next() % 10 {
                0..=4 => s.add(id, format!("v{}", numbers.next())).unwrap(),
                5 | 6 => s.delete(id).unwrap(),
                7 => s
                    .extend([(id, "x".to_string()), (id + 20, "y".to_string())])
                    .unwrap(),
                8 => s.checkpoint().unwrap(),
                _ => {
                    s.compact().unwrap();
                }
            }
            let r = SegmentedStore::open(dir.clone(), model(), 3).unwrap();
            let lists = |x: &segstore::SegmentedStore<DefaultStore<u32, String>>| {
                x.segments().iter().map(|l| l.to_vec()).collect::<Vec<_>>()
            };
            assert_eq!(lists(&r), lists(&s), "seed {seed}");
            assert_eq!(r.segment_ids(), s.segment_ids());
            assert_eq!(r.next_segment_id(), s.next_segment_id());
            assert_eq!(r.buffer(), s.buffer());
            assert_eq!(r.epoch(), s.epoch());
            assert!((0..40u32).all(|x| r.is_live(&x) == s.is_live(&x)));
        }
    }
}

#[test]
fn adds_after_a_failed_compaction_survive() {
    let dir = MemoryDirectory::arc();
    let disk = Disk::sound();
    {
        let mut s =
            SegmentedStore::open_on(dir.clone(), Kv, Options::new(1), disk.clone()).unwrap();
        s.add(1, "a".into()).unwrap();
        s.checkpoint().unwrap();
        s.delete(1).unwrap();
        // The compaction stops at its manifest, and the writer goes on.
        *disk.fuel.lock().unwrap() = Some(0);
        assert!(s.compact().is_err());
        *disk.fuel.lock().unwrap() = None;
        s.add(1, "b".into()).unwrap();
        s.add(2, "c".into()).unwrap();
    }
    let r = SegmentedStore::open(dir, Kv, 1).unwrap();
    let live = live_set(&r);
    assert!(live.contains(&(1, "b".into())));
    assert!(live.contains(&(2, "c".into())));
}

#[test]
fn acknowledged_writes_survive_many_sessions() {
    let dir = MemoryDirectory::arc();
    let mut numbers = Numbers(7);
    // What the acknowledged operations make up, and which identities were deleted last.
    let mut entries: Vec<(u32, String)> = Vec::new();
    let mut gone: HashSet<u32> = HashSet::new();
    for session in 0..60usize {
        let disk = Disk::sound();
        let mut s =
            SegmentedStore::open_on(dir.clone(), Kv, Options::new(3), disk.clone()).unwrap();
        *disk.fuel.lock().unwrap() = Some(1 + session % 9);
        for step in 0..20u32 {
            let id = numbers.next() % 8;
            let kind = numbers.next() % 6;
            let done = match kind {
                0..=2 => {
                    let item = format!("{session}.{step}");
                    let done = s.add(id, item.clone());
                    if done.is_ok() {
                        entries.push((id, item));
                        gone.remove(&id);
                    }
                    done
                }
                3 => {
                    let done = s.delete(id);
                    if done.is_ok() {
                        entries.retain(|(x, _)| *x != id);
                        gone.insert(id);
                    }
                    done
                }
                4 => s.compact_tiers().map(|_| ()),
                _ => s.compact().map(|_| ()),
            };
            if done.is_err() {
                break;
            }
        }
        drop(s);
        let r = SegmentedStore::open(dir.clone(), Kv, 3).unwrap();
        let live = live_set(&r);
        for e in &entries {
            assert!(live.contains(e), "session {session}: {e:?} was lost");
        }
        assert!(live.iter().all(|(id, _)| !gone.contains(id)));
    }
}
