//! Sidecar envelopes, checkpoint envelopes, file names and error texts.

use segstore::checkpoint::{
    read_checkpoint_payload, read_checkpoint_payload_header, read_checkpoint_payload_info,
    read_checkpoint_payload_into, size_cap_context,
};
use segstore::names::{
    classify, idx_seg_id, leftovers, orphans, reject_legacy_formats, seg_path,
    validate_index_kind, wal_path, DirectoryProbe, FileRole,
};
use segstore::segmented::check_directory;
use segstore::sidecar::SIDECAR_ENVELOPE_HEADER_BYTES;
use segstore::{index_name, PersistenceError, SidecarEnvelope, SyncPolicy};
use std::collections::HashSet;
use std::io::Read;

/// The message of an error.
fn message(e: &PersistenceError) -> String {
    match e {
        PersistenceError::Format(m) => m.clone(),
        PersistenceError::InvalidConfig(m) => m.clone(),
        PersistenceError::NotFound(m) => m.clone(),
        PersistenceError::InvalidState(m) => m.clone(),
        other => format!("{other:?}"),
    }
}

#[test]
fn size_cap_context_makes_the_blob_error_actionable() {
    // The raw durability error is opaque about what overflowed and how to
    // fix it; the wrapper names the artifact and the levers.
    let raw = PersistenceError::Format(
        "checkpoint payload too large: 300000000 bytes (max 268435456)".into(),
    );
    let wrapped = size_cap_context(raw, "segment 7");
    let msg = message(&wrapped);
    assert!(msg.contains("segment 7"), "names the artifact: {msg}");
    assert!(
        msg.contains("max_merged_len"),
        "names the item-count lever: {msg}"
    );
    assert!(
        msg.contains("checkpoint payload too large"),
        "preserves the original detail: {msg}"
    );
}

#[test]
fn size_cap_context_passes_unrelated_errors_through() {
    let before = format!("{:?}", PersistenceError::InvalidState("something else".into()));
    let after = size_cap_context(
        PersistenceError::InvalidState("something else".into()),
        "segment 1",
    );
    assert_eq!(format!("{after:?}"), before, "non-cap errors are unchanged");
}

#[test]
fn sidecar_envelope_round_trips_payload() {
    let magic = b"SIDETST1";
    let recipe = b"demo-v1";
    let payload = b"payload bytes";

    let bytes = SidecarEnvelope::encode(magic, 2, 7, recipe, payload).unwrap();
    let decoded = SidecarEnvelope::decode(magic, 2, 7, recipe, &bytes).unwrap();

    assert_eq!(decoded, payload);
}

#[test]
fn sidecar_envelope_reports_payload_info_without_full_decode() {
    let magic = b"SIDETST1";
    let recipe = b"demo-v1";
    let payload = b"payload bytes";
    let bytes = SidecarEnvelope::encode(magic, 2, 7, recipe, payload).unwrap();

    let info =
        SidecarEnvelope::payload_info(magic, 2, 7, recipe, &bytes, bytes.len() as u64)
            .unwrap();

    let expected_offset = (SIDECAR_ENVELOPE_HEADER_BYTES + recipe.len()) as u64;
    assert_eq!(info.payload_offset(), expected_offset);
    assert_eq!(info.payload_len(), payload.len() as u64);
    assert_eq!(
        info.crc32(),
        u32::from_le_bytes(bytes[24..28].try_into().unwrap())
    );
    assert_eq!(&bytes[info.payload_offset() as usize..], payload);
}

#[test]
fn sidecar_envelope_rejects_corrupt_payload_by_crc() {
    let magic = b"SIDETST1";
    let recipe = b"demo-v1";
    let mut bytes = SidecarEnvelope::encode(magic, 2, 7, recipe, b"payload").unwrap();
    let last = bytes.len() - 1;
    bytes[last] ^= 0xff;

    let err = SidecarEnvelope::decode(magic, 2, 7, recipe, &bytes).unwrap_err();
    assert!(
        matches!(err, PersistenceError::CrcMismatch { .. }),
        "corrupt sidecar bytes should fail CRC, got: {err:?}"
    );
}

#[test]
fn sidecar_envelope_distinguishes_stale_recipe_from_corruption() {
    let magic = b"SIDETST1";
    let bytes = SidecarEnvelope::encode(magic, 2, 7, b"demo-v1", b"payload").unwrap();

    let err = SidecarEnvelope::decode(magic, 2, 7, b"demo-v2", &bytes).unwrap_err();
    assert!(
        message(&err).contains("recipe mismatch"),
        "valid but stale sidecars should be rebuildable mismatches, got: {err:?}"
    );
}

#[test]
fn sidecar_envelope_payload_info_distinguishes_stale_recipe() {
    let magic = b"SIDETST1";
    let bytes = SidecarEnvelope::encode(magic, 2, 7, b"demo-v1", b"payload").unwrap();

    let err =
        SidecarEnvelope::payload_info(magic, 2, 7, b"demo-v2", &bytes, bytes.len() as u64)
            .unwrap_err();
    assert!(
        message(&err).contains("recipe mismatch"),
        "valid but stale sidecars should be rebuildable mismatches, got: {err:?}"
    );
}

#[test]
fn sidecar_envelope_payload_info_rejects_corrupt_recipe_length() {
    let magic = b"SIDETST1";
    let mut bytes = SidecarEnvelope::encode(magic, 2, 7, b"demo-v1", b"payload").unwrap();
    bytes[20..24].copy_from_slice(&u32::MAX.to_le_bytes());

    let err =
        SidecarEnvelope::payload_info(magic, 2, 7, b"demo-v1", &bytes, bytes.len() as u64)
            .unwrap_err();
    assert!(
        message(&err).contains("recipe is truncated"),
        "corrupt recipe lengths should fail before reading payload bytes, got: {err:?}"
    );
}

#[test]
fn index_sidecar_parser_recognizes_legacy_names_for_gc() {
    assert_eq!(idx_seg_id("segstore.idx.7.hnsw_v1-fast"), Some(7));
    assert_eq!(
        idx_seg_id("segstore.idx.7.hnsw.v1"),
        Some(7),
        "legacy dotted kind is still classified for cleanup"
    );

    for name in [
        "segstore.idx.7",
        "segstore.idx.7.",
        "segstore.idx.not-a-number.hnsw",
        "segstore.idx..hnsw",
        "not-segstore.idx.7.hnsw",
    ] {
        assert_eq!(idx_seg_id(name), None, "{name:?} should not parse");
    }
}

/// An envelope built by hand, byte by byte.
fn hand_made(magic: &[u8; 8], version: u32, id: u64, recipe: &[u8], payload: &[u8]) -> Vec<u8> {
    let mut head = Vec::new();
    head.extend_from_slice(magic);
    head.extend_from_slice(&version.to_le_bytes());
    head.extend_from_slice(&id.to_le_bytes());
    head.extend_from_slice(&(recipe.len() as u32).to_le_bytes());
    let mut rest = recipe.to_vec();
    rest.extend_from_slice(payload);
    let mut covered = head.clone();
    covered.extend_from_slice(&rest);
    head.extend_from_slice(&crc32fast::hash(&covered).to_le_bytes());
    head.extend_from_slice(&rest);
    head
}

#[test]
fn encoding_gives_the_documented_bytes() {
    let encoded = SidecarEnvelope::encode(b"SIDETST1", 0x0102_0304, 0x1122_3344_5566_7788, b"r", b"pp")
        .unwrap();
    assert_eq!(
        encoded,
        hand_made(b"SIDETST1", 0x0102_0304, 0x1122_3344_5566_7788, b"r", b"pp")
    );
    assert_eq!(&encoded[8..12], &[4, 3, 2, 1]);
    assert_eq!(
        &encoded[12..20],
        &[0x88, 0x77, 0x66, 0x55, 0x44, 0x33, 0x22, 0x11]
    );
    assert_eq!(&encoded[20..24], &[1, 0, 0, 0]);
    assert_eq!(&encoded[28..], b"rpp");
}

#[test]
fn empty_recipe_and_payload_round_trip() {
    let encoded = SidecarEnvelope::encode(b"SIDETST1", 1, 2, b"", b"").unwrap();
    assert_eq!(encoded.len(), SIDECAR_ENVELOPE_HEADER_BYTES);
    let decoded = SidecarEnvelope::decode(b"SIDETST1", 1, 2, b"", &encoded).unwrap();
    assert!(decoded.is_empty());
}

#[test]
fn decoding_names_the_first_thing_that_is_wrong() {
    let good = SidecarEnvelope::encode(b"SIDETST1", 2, 7, b"demo", b"payload").unwrap();
    let say = |bytes: &[u8], magic: &[u8; 8], version: u32, id: u64| {
        message(&SidecarEnvelope::decode(magic, version, id, b"demo", bytes).unwrap_err())
    };
    assert_eq!(
        say(&good[..27], b"SIDETST1", 2, 7),
        "sidecar envelope header is truncated"
    );
    assert_eq!(
        say(&good, b"SIDETST2", 2, 7),
        "sidecar envelope magic mismatch"
    );
    assert_eq!(
        say(&good, b"SIDETST1", 3, 7),
        "sidecar envelope version mismatch: got 2, expected 3"
    );
    assert_eq!(
        say(&good, b"SIDETST1", 2, 18_446_744_073_709_551_615),
        "sidecar envelope segment id mismatch: got 7, expected 18446744073709551615"
    );
    assert_eq!(
        say(&good[..31], b"SIDETST1", 2, 7),
        "sidecar envelope recipe is truncated"
    );
    let err = SidecarEnvelope::decode(b"SIDETST1", 2, 7, b"demo-longer", &good).unwrap_err();
    assert_eq!(message(&err), "sidecar envelope recipe mismatch");
}

#[test]
fn every_byte_of_an_envelope_is_covered() {
    let good = SidecarEnvelope::encode(b"SIDETST1", 2, 7, b"demo", b"payload").unwrap();
    for i in 0..good.len() {
        let mut bad = good.clone();
        bad[i] ^= 0x10;
        assert!(
            SidecarEnvelope::decode(b"SIDETST1", 2, 7, b"demo", &bad).is_err(),
            "a flip in byte {i} was accepted"
        );
    }
}

#[test]
fn crc_mismatch_reports_both_checksums() {
    let mut bytes = SidecarEnvelope::encode(b"SIDETST1", 2, 7, b"demo", b"payload").unwrap();
    let stored = u32::from_le_bytes(bytes[24..28].try_into().unwrap());
    let last = bytes.len() - 1;
    bytes[last] ^= 1;
    let mut covered = bytes[..24].to_vec();
    covered.extend_from_slice(&bytes[28..]);
    match SidecarEnvelope::decode(b"SIDETST1", 2, 7, b"demo", &bytes) {
        Err(PersistenceError::CrcMismatch { expected, actual }) => {
            assert_eq!(expected, stored);
            assert_eq!(actual, crc32fast::hash(&covered));
        }
        other => panic!("expected a checksum error, got {other:?}"),
    }
}

#[test]
fn locating_a_payload_reads_no_more_than_header_and_recipe() {
    let bytes = SidecarEnvelope::encode(b"SIDETST1", 2, 7, b"demo", b"payload").unwrap();
    let len = bytes.len() as u64;
    let info = SidecarEnvelope::payload_info(b"SIDETST1", 2, 7, b"demo", &bytes[..32], len).unwrap();
    assert_eq!((info.payload_offset(), info.payload_len()), (32, 7));

    let locate = |head: &[u8], recipe: &[u8], len: u64| {
        SidecarEnvelope::payload_info(b"SIDETST1", 2, 7, recipe, head, len).unwrap_err()
    };
    assert!(matches!(
        locate(&bytes[..31], b"demo", len),
        PersistenceError::UnexpectedEof
    ));
    assert!(matches!(
        locate(&bytes[..27], b"demo", len),
        PersistenceError::UnexpectedEof
    ));
    assert_eq!(
        message(&locate(&bytes, b"demo", 27)),
        "sidecar envelope header is truncated"
    );
    assert_eq!(
        message(&locate(&bytes, b"demo", 31)),
        "sidecar envelope recipe is truncated"
    );
    assert_eq!(
        message(&locate(&bytes, b"dem", len)),
        "sidecar envelope recipe mismatch"
    );
    assert_eq!(
        message(&locate(&bytes, b"demp", len)),
        "sidecar envelope recipe mismatch"
    );
    let wrong_magic = SidecarEnvelope::payload_info(b"XIDETST1", 2, 7, b"demo", &bytes, len);
    assert_eq!(
        message(&wrong_magic.unwrap_err()),
        "sidecar envelope magic mismatch"
    );
    let wrong_version = SidecarEnvelope::payload_info(b"SIDETST1", 9, 7, b"demo", &bytes, len);
    assert_eq!(
        message(&wrong_version.unwrap_err()),
        "sidecar envelope version mismatch: got 2, expected 9"
    );
    let wrong_id = SidecarEnvelope::payload_info(b"SIDETST1", 2, 8, b"demo", &bytes, len);
    assert_eq!(
        message(&wrong_id.unwrap_err()),
        "sidecar envelope segment id mismatch: got 7, expected 8"
    );
}

/// A checkpoint envelope built by hand.
fn checkpoint_file(version: u32, last_applied_id: u64, payload: &[u8]) -> Vec<u8> {
    let mut head = b"VCKP".to_vec();
    head.extend_from_slice(&version.to_le_bytes());
    head.extend_from_slice(&last_applied_id.to_le_bytes());
    head.extend_from_slice(&(payload.len() as u64).to_le_bytes());
    let crc = if version == 1 {
        crc32fast::hash(payload)
    } else {
        let mut covered = head.clone();
        covered.extend_from_slice(payload);
        crc32fast::hash(&covered)
    };
    head.extend_from_slice(&crc.to_le_bytes());
    head.extend_from_slice(payload);
    head
}

#[test]
fn both_envelope_versions_are_read() {
    for version in [1u32, 2] {
        let file = checkpoint_file(version, 5, b"segment bytes");
        assert_eq!(read_checkpoint_payload(&file).unwrap(), b"segment bytes");
        let info = read_checkpoint_payload_info(&file).unwrap();
        assert_eq!(info.payload_offset, 28);
        assert_eq!(info.payload_len, 13);
        assert_eq!(info.payload_crc32, crc32fast::hash(b"segment bytes"));
        info.verify_payload(b"segment bytes").unwrap();
    }
}

#[test]
fn bytes_behind_the_payload_do_not_count() {
    let mut file = checkpoint_file(2, 0, b"abc");
    file.extend_from_slice(b"trailing");
    assert_eq!(read_checkpoint_payload(&file).unwrap(), b"abc");
}

#[test]
fn written_checkpoints_are_read_back() {
    let dir = durability::MemoryDirectory::arc();
    durability::checkpoint::CheckpointFile::new(dir.clone())
        .write_bytes("file", 9, b"payload of a segment")
        .unwrap();
    let mut bytes = Vec::new();
    dir.open_file("file").unwrap().read_to_end(&mut bytes).unwrap();
    assert_eq!(
        read_checkpoint_payload(&bytes).unwrap(),
        b"payload of a segment"
    );
}

#[test]
fn header_faults_come_in_the_order_of_the_fields() {
    let good = checkpoint_file(2, 5, b"segment bytes");
    let fault = |bytes: &[u8]| read_checkpoint_payload_header(bytes).unwrap_err();
    for cut in [0usize, 3, 4, 7, 8, 15, 16, 23, 24, 27] {
        assert!(
            matches!(fault(&good[..cut]), PersistenceError::UnexpectedEof),
            "cut at {cut}"
        );
    }
    let mut bad = good.clone();
    bad[0] = b'X';
    assert_eq!(message(&fault(&bad[..4])), "invalid checkpoint magic");
    let mut bad = good.clone();
    bad[4] = 3;
    assert_eq!(
        message(&fault(&bad[..8])),
        "checkpoint version mismatch (got 3)"
    );
    let mut bad = good.clone();
    bad[16..24].copy_from_slice(&268_435_457u64.to_le_bytes());
    assert_eq!(
        message(&fault(&bad[..24])),
        "checkpoint payload too large: 268435457 bytes (max 268435456)"
    );
    let mut bad = good.clone();
    bad[16..24].copy_from_slice(&268_435_456u64.to_le_bytes());
    assert_eq!(
        message(&read_checkpoint_payload(&bad).unwrap_err()),
        "checkpoint payload truncated: got 13 of 268435456 bytes"
    );
}

#[test]
fn header_corruption_is_caught_by_the_second_version_only() {
    let mut v2 = checkpoint_file(2, 5, b"segment bytes");
    v2[8] ^= 1;
    assert!(matches!(
        read_checkpoint_payload(&v2),
        Err(PersistenceError::CrcMismatch { .. })
    ));
    let mut v1 = checkpoint_file(1, 5, b"segment bytes");
    v1[8] ^= 1;
    assert_eq!(read_checkpoint_payload(&v1).unwrap(), b"segment bytes");
}

#[test]
fn failed_reads_leave_the_buffer_empty() {
    let mut buffer = b"stale".to_vec();
    assert!(read_checkpoint_payload_into(b"VCK", &mut buffer).is_err());
    assert!(buffer.is_empty());

    let mut file = checkpoint_file(2, 0, b"abc");
    let last = file.len() - 1;
    file[last] ^= 1;
    buffer.extend_from_slice(b"stale");
    assert!(read_checkpoint_payload_into(&file, &mut buffer).is_err());
    assert!(buffer.is_empty());
}

#[test]
fn payload_info_verifies_what_it_describes() {
    let file = checkpoint_file(2, 0, b"abcd");
    let info = read_checkpoint_payload_info(&file).unwrap();
    assert_eq!(
        message(&info.verify_payload(b"abc").unwrap_err()),
        "segment payload length mismatch: got 3 bytes, expected 4"
    );
    match info.verify_payload(b"abcx") {
        Err(PersistenceError::CrcMismatch { expected, actual }) => {
            assert_eq!(expected, crc32fast::hash(b"abcd"));
            assert_eq!(actual, crc32fast::hash(b"abcx"));
        }
        other => panic!("expected a checksum error, got {other:?}"),
    }
}

#[test]
fn size_cap_context_says_what_to_do() {
    let raw = PersistenceError::Format("payload too large".into());
    assert_eq!(
        message(&size_cap_context(raw, "segment 7")),
        "segment 7 does not fit the 268435456-byte per-blob limit \
         (durability::MAX_CHECKPOINT_PAYLOAD_BYTES): payload too large. Each segment and the \
         manifest are written as a single checkpoint blob. Keep them under the cap: lower \
         TierConfig::max_merged_len (it counts items, not bytes) or the open() flush_threshold \
         so segments stay smaller, and run compact() to drop tombstones from the manifest."
    );
    let other = PersistenceError::Format("payload too larg".into());
    assert_eq!(
        message(&size_cap_context(other, "segment 7")),
        "payload too larg"
    );
}

#[test]
fn files_have_the_documented_names() {
    assert_eq!(wal_path(0), "segstore.wal.0");
    assert_eq!(seg_path(u64::MAX), "segstore.seg.18446744073709551615");
    assert_eq!(index_name(42, "hnsw"), "segstore.idx.42.hnsw");
    assert_eq!(idx_seg_id(&index_name(42, "a")), Some(42));
}

#[test]
fn names_lead_back_to_what_they_name() {
    for n in [0u64, 9, 10, 99, 100, 12_345, u64::MAX] {
        assert_eq!(classify(&wal_path(n)), FileRole::Wal(n));
        assert_eq!(classify(&seg_path(n)), FileRole::Segment(n));
        assert_eq!(classify(&index_name(n, "k")), FileRole::Sidecar(n));
    }
    for name in [
        "segstore.manifest",
        "segstore.wal",
        "segstore.wal.",
        "segstore.wal.x",
        "segstore.wal.-1",
        "segstore.wal.+",
        "segstore.seg.18446744073709551616",
        "segstore.seg.1.tmp",
        "",
        "other",
    ] {
        assert_eq!(classify(name), FileRole::Foreign, "{name:?}");
    }
    assert_eq!(classify("segstore.seg.+7"), FileRole::Segment(7));
    assert_eq!(classify("segstore.wal.007"), FileRole::Wal(7));
}

#[test]
fn garbage_is_what_the_manifest_does_not_need() {
    let names: Vec<String> = [
        "segstore.manifest",
        "segstore.wal.3",
        "segstore.wal.4",
        "segstore.seg.1",
        "segstore.seg.2",
        "segstore.idx.1.hnsw",
        "segstore.idx.2.hnsw.v1",
        "notes.txt",
    ]
    .iter()
    .map(|n| n.to_string())
    .collect();
    let named: HashSet<u64> = [1u64].into_iter().collect();
    assert_eq!(
        leftovers(&names, 4, &named),
        vec!["segstore.wal.3", "segstore.seg.2", "segstore.idx.2.hnsw.v1"]
    );
    assert_eq!(
        orphans(&names, &named),
        vec!["segstore.seg.2", "segstore.idx.2.hnsw.v1"]
    );
}

#[test]
fn kinds_are_complained_about_by_name() {
    assert_eq!(
        message(&validate_index_kind("").unwrap_err()),
        "index sidecar kind must be non-empty"
    );
    assert_eq!(
        message(&validate_index_kind("a\"b").unwrap_err()),
        "index sidecar kind must contain only ASCII letters, digits, '_' or '-': \"a\\\"b\""
    );
    assert!(validate_index_kind("\u{e4}").is_err());
    assert!(validate_index_kind("Az09_-").is_ok());
}

#[test]
fn older_formats_are_rejected_by_name() {
    let probe = |legacy_wal: bool, legacy_ckpt: bool, manifest: bool| DirectoryProbe {
        legacy_wal,
        legacy_ckpt,
        manifest,
        file_backed: false,
    };
    assert!(reject_legacy_formats(&probe(false, false, false)).is_ok());
    assert!(reject_legacy_formats(&probe(false, true, true)).is_ok());
    assert_eq!(
        message(&reject_legacy_formats(&probe(true, true, false)).unwrap_err()),
        "segstore 0.1 on-disk store detected (unsuffixed segstore.wal); the on-disk format is \
         epoch-suffixed and cannot read it"
    );
    assert_eq!(
        message(&reject_legacy_formats(&probe(false, true, false)).unwrap_err()),
        "segstore 0.2 on-disk store detected (monolithic segstore.ckpt); the 0.3 on-disk format \
         is a manifest + per-segment files and cannot read it"
    );
    assert_eq!(
        message(&check_directory(SyncPolicy::Fsync, &probe(true, false, false)).unwrap_err()),
        "SyncPolicy::Fsync requires a filesystem-backed Directory"
    );
    assert!(check_directory(SyncPolicy::Flush, &probe(false, false, false)).is_ok());
}

/// CRC-32 (IEEE) bit by bit, as the library's contracts define it.
fn crc_by_bits(bytes: &[u8]) -> u32 {
    let mut c = 0xffff_ffffu32;
    for b in bytes {
        c ^= *b as u32;
        for _ in 0..8 {
            c = if c & 1 == 1 { (c >> 1) ^ 0xedb8_8320 } else { c >> 1 };
        }
    }
    !c
}

#[test]
fn checksums_are_crc32_ieee() {
    assert_eq!(crc_by_bits(b"123456789"), 0xcbf4_3926);
    let mut bytes = Vec::new();
    let mut state: u64 = 1;
    for _ in 0..600 {
        let file = checkpoint_file(1, 0, &bytes);
        let info = read_checkpoint_payload_info(&file).unwrap();
        assert_eq!(info.payload_crc32, crc_by_bits(&bytes), "{} bytes", bytes.len());
        let sidecar = SidecarEnvelope::encode(b"SIDETST1", 1, 2, b"r", &bytes).unwrap();
        let mut covered = sidecar[..24].to_vec();
        covered.extend_from_slice(&sidecar[28..]);
        let crc = u32::from_le_bytes(sidecar[24..28].try_into().unwrap());
        assert_eq!(crc, crc_by_bits(&covered), "{} bytes", bytes.len());
        state = state
            .wrapping_mul(6364136223846793005)
            .wrapping_add(1442695040888963407);
        bytes.push((state >> 33) as u8);
    }
}

#[test]
fn a_changed_byte_of_a_segment_file_is_reported() {
    for version in [1u32, 2] {
        let good = checkpoint_file(version, 5, b"segment bytes");
        for at in 0..good.len() {
            if at < 24 && (version == 1 || !(8..16).contains(&at)) {
                continue;
            }
            for flip in 1..=255u8 {
                let mut bad = good.clone();
                bad[at] ^= flip;
                assert!(
                    matches!(
                        read_checkpoint_payload(&bad),
                        Err(PersistenceError::CrcMismatch { .. })
                    ),
                    "byte {at} of version {version}"
                );
            }
        }
    }
}
