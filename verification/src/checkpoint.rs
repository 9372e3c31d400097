//! The checkpoint envelope around a segment's serialized payload.

use crate::bytes::{push_le, read_u32, read_u64, same_bytes};
use crate::crc::{crc32_of, crc32_of_both};
use crate::error::{PersistenceError, PersistenceResult};
use crate::text::{contains_text, push_decimal};
use vstd::prelude::*;
use vstd::slice::slice_subrange;
use vstd::string::StringExecFns;

verus! {

/// Version of the envelope whose checksum covers the payload.
pub const CHECKPOINT_FORMAT_VERSION_V1: u32 = 1;

/// Version of the envelope whose checksum covers the header fields and the payload.
pub const CHECKPOINT_FORMAT_VERSION_V2: u32 = 2;

/// Length of the envelope's header: `magic[4] | version:u32 | last_applied_id:u64 |
/// payload_len:u64 | checksum:u32`.
pub const CHECKPOINT_HEADER_BYTES: u64 = 28;

/// The bytes that an envelope starts with: `VCKP`.
pub open spec fn checkpoint_magic() -> Seq<u8> {
    seq![86u8, 67u8, 75u8, 80u8]
}

/// The largest payload of one envelope: 256 MiB.
pub open spec fn payload_cap() -> nat {
    268_435_456
}

/// `durability::checkpoint::MAX_CHECKPOINT_PAYLOAD_BYTES`, which is
/// `256 * 1024 * 1024`.
#[verifier::external_body]
fn max_checkpoint_payload_bytes() -> (max: usize)
    ensures
        max == payload_cap(),
{
    durability::checkpoint::MAX_CHECKPOINT_PAYLOAD_BYTES
}

/// Location and integrity metadata for the serialized payload inside a segment file.
///
/// `segstore.seg.<id>` files are checkpoint envelopes: a fixed header followed by the
/// serialized payload. This metadata lets filesystem-backed consumers map or
/// range-read only the payload bytes while keeping header parsing here. The CRC is
/// the expected checksum of the payload; callers that obtain the bytes on their own
/// must verify it before trusting bytes from untrusted storage.
#[derive(Debug, Clone, Copy, PartialEq, Eq, Structural)]
pub struct SegmentPayloadInfo {
    /// Byte offset in the segment file where the serialized payload starts.
    pub payload_offset: u64,
    /// Length of the serialized payload in bytes.
    pub payload_len: usize,
    /// CRC32 expected for the serialized payload bytes.
    pub payload_crc32: u32,
}

/// What is said of a payload of another length.
pub open spec fn payload_length_complaint(got: nat, expected: usize) -> Seq<char> {
    "segment payload length mismatch: got "@ + crate::text::decimal(got) + " bytes, expected "@
        + crate::text::decimal(expected as nat)
}

impl SegmentPayloadInfo {
    /// A payload of the recorded length and checksum.
    pub open spec fn describes(&self, payload: Seq<u8>) -> bool {
        payload.len() == self.payload_len && crate::crc::crc32(payload) == self.payload_crc32
    }

    /// Verify that bytes read from [`Self::payload_offset`] match this payload record.
    ///
    /// This is the check mmap and range-read consumers should run before trusting
    /// bytes that they obtained on their own.
    pub fn verify_payload(&self, payload: &[u8]) -> (result: PersistenceResult<()>)
        ensures
            result is Ok <==> self.describes(payload@),
            if payload@.len() != self.payload_len {
                crate::error::format_error(
                    result,
                    payload_length_complaint(payload@.len(), self.payload_len),
                )
            } else if crate::crc::crc32(payload@) != self.payload_crc32 {
                crate::error::crc_mismatch(
                    result,
                    self.payload_crc32,
                    crate::crc::crc32(payload@),
                )
            } else {
                result is Ok
            },
    {
        if payload.len() != self.payload_len {
            let mut message = String::from_str("segment payload length mismatch: got ");
            push_decimal(&mut message, payload.len() as u64);
            message.append(" bytes, expected ");
            push_decimal(&mut message, self.payload_len as u64);
            return Err(PersistenceError::Format(message));
        }
        let actual = crc32_of(payload);
        if actual != self.payload_crc32 {
            return Err(PersistenceError::CrcMismatch { expected: self.payload_crc32, actual });
        }
        Ok(())
    }
}

/// The header of a checkpoint envelope.
#[derive(Debug, Clone, Copy)]
pub struct CheckpointPayloadHeader {
    version: u32,
    last_applied_id: u64,
    payload_len: usize,
    checksum: u32,
}

/// The version in a header.
pub open spec fn stored_version(bytes: Seq<u8>) -> nat {
    crate::bytes::le_value(bytes.subrange(4, 8))
}

/// The payload length in a header.
pub open spec fn stored_payload_len(bytes: Seq<u8>) -> nat {
    crate::bytes::le_value(bytes.subrange(16, 24))
}

/// The checksum in a header.
pub open spec fn stored_checksum(bytes: Seq<u8>) -> nat {
    crate::bytes::le_value(bytes.subrange(24, 28))
}

/// What is said of an envelope of an unknown version.
pub open spec fn unknown_version_complaint(version: nat) -> Seq<char> {
    "checkpoint version mismatch (got "@ + crate::text::decimal(version) + ")"@
}

/// What is said of a payload over the cap.
pub open spec fn payload_cap_complaint(len: nat) -> Seq<char> {
    "checkpoint payload too large: "@ + crate::text::decimal(len) + " bytes (max "@
        + crate::text::decimal(payload_cap()) + ")"@
}

/// What is said of a payload that ends too soon.
pub open spec fn truncation_complaint(got: nat, expected: nat) -> Seq<char> {
    "checkpoint payload truncated: got "@ + crate::text::decimal(got) + " of "@
        + crate::text::decimal(expected) + " bytes"@
}

/// The first 28 bytes of a file are the header of an envelope this library reads.
pub open spec fn well_headed(bytes: Seq<u8>) -> bool {
    &&& bytes.len() >= 28
    &&& bytes.take(4) == checkpoint_magic()
    &&& stored_version(bytes) == 1 || stored_version(bytes) == 2
    &&& stored_payload_len(bytes) <= usize::MAX
    &&& stored_payload_len(bytes) <= payload_cap()
}

/// What reading the header of bytes that have none gives: the first thing found
/// wrong, in the order in which the fields stand.
pub open spec fn header_fault<T>(bytes: Seq<u8>, result: PersistenceResult<T>) -> bool {
    if bytes.len() < 4 {
        crate::error::ended_early(result)
    } else if bytes.take(4) != checkpoint_magic() {
        crate::error::format_error(result, "invalid checkpoint magic"@)
    } else if bytes.len() < 8 {
        crate::error::ended_early(result)
    } else if stored_version(bytes) != 1 && stored_version(bytes) != 2 {
        crate::error::format_error(result, unknown_version_complaint(stored_version(bytes)))
    } else if bytes.len() < 24 {
        crate::error::ended_early(result)
    } else if stored_payload_len(bytes) > usize::MAX {
        crate::error::format_error(result, "payload_len overflow"@)
    } else if stored_payload_len(bytes) > payload_cap() {
        crate::error::format_error(result, payload_cap_complaint(stored_payload_len(bytes)))
    } else {
        crate::error::ended_early(result)
    }
}

/// The checksum that an envelope with this header should carry for a payload.
pub open spec fn payload_checksum(bytes: Seq<u8>, payload: Seq<u8>) -> u32 {
    if stored_version(bytes) == 1 {
        crate::crc::crc32(payload)
    } else {
        crate::crc::crc32(bytes.take(24) + payload)
    }
}

impl CheckpointPayloadHeader {
    /// A header that parsing gives.
    pub closed spec fn wf(&self) -> bool {
        &&& self.version == 1 || self.version == 2
        &&& self.payload_len <= payload_cap()
    }

    /// This is the header that the bytes start with.
    pub closed spec fn heads(&self, bytes: Seq<u8>) -> bool {
        &&& self.version == stored_version(bytes)
        &&& self.last_applied_id == crate::bytes::le_value(bytes.subrange(8, 16))
        &&& self.payload_len == stored_payload_len(bytes)
        &&& self.checksum == stored_checksum(bytes)
    }

    /// How long the payload is.
    pub closed spec fn len(&self) -> nat {
        self.payload_len as nat
    }

    /// The stored checksum.
    pub closed spec fn stored(&self) -> u32 {
        self.checksum
    }

    /// The checksum that the header asks of a payload.
    pub closed spec fn asked(&self, payload: Seq<u8>) -> u32 {
        if self.version == 1 {
            crate::crc::crc32(payload)
        } else {
            crate::crc::crc32(
                checkpoint_magic() + crate::bytes::le_bytes(self.version as nat, 4)
                    + crate::bytes::le_bytes(self.last_applied_id as nat, 8)
                    + crate::bytes::le_bytes(self.payload_len as nat, 8) + payload,
            )
        }
    }

    /// Verify a payload read behind this header.
    pub fn verify_payload(&self, payload: &[u8]) -> (result: PersistenceResult<()>)
        requires
            self.wf(),
        ensures
            if payload@.len() != self.len() {
                crate::error::format_error(
                    result,
                    truncation_complaint(payload@.len(), self.len()),
                )
            } else if self.asked(payload@) != self.stored() {
                crate::error::crc_mismatch(result, self.stored(), self.asked(payload@))
            } else {
                result is Ok
            },
    {
        if payload.len() != self.payload_len {
            return truncated(payload.len(), self.payload_len);
        }
        let actual: u32 = if self.version == CHECKPOINT_FORMAT_VERSION_V1 {
            crc32_of(payload)
        } else {
            let mut head: Vec<u8> = Vec::with_capacity(24);
            head.push(86);
            head.push(67);
            head.push(75);
            head.push(80);
            assert(head@ =~= checkpoint_magic());
            push_le(&mut head, self.version as u64, 4);
            push_le(&mut head, self.last_applied_id, 8);
            push_le(&mut head, self.payload_len as u64, 8);
            proof {
                crate::bytes::byte_range_bounds(4);
                crate::bytes::le_value_of_bytes(self.version as nat, 4);
                crate::bytes::le_value_of_bytes(self.last_applied_id as nat, 8);
                crate::bytes::le_value_of_bytes(self.payload_len as nat, 8);
            }
            crc32_of_both(head.as_slice(), payload)
        };
        if actual != self.checksum {
            return Err(PersistenceError::CrcMismatch { expected: self.checksum, actual });
        }
        Ok(())
    }

    /// Where the payload lives, and its own checksum.
    pub fn payload_info(&self, payload: &[u8]) -> (info: SegmentPayloadInfo)
        ensures
            info.payload_offset == 28,
            info.payload_len == self.len(),
            info.payload_crc32 == crate::crc::crc32(payload@),
    {
        SegmentPayloadInfo {
            payload_offset: CHECKPOINT_HEADER_BYTES,
            payload_len: self.payload_len,
            payload_crc32: crc32_of(payload),
        }
    }
}

/// A header that stands at the start of a file asks of a payload the checksum that the
/// file's own bytes ask of it, and carries the length and the checksum stored there: the
/// header fields up to the checksum are the first 24 bytes of the file.
pub proof fn asked_is_payload_checksum(
    header: CheckpointPayloadHeader,
    bytes: Seq<u8>,
    payload: Seq<u8>,
)
    requires
        well_headed(bytes),
        header.heads(bytes),
    ensures
        header.wf(),
        header.len() == stored_payload_len(bytes),
        header.stored() == stored_checksum(bytes),
        header.asked(payload) == payload_checksum(bytes, payload),
{
    crate::bytes::le_bytes_of_value(bytes.subrange(4, 8));
    crate::bytes::le_bytes_of_value(bytes.subrange(8, 16));
    crate::bytes::le_bytes_of_value(bytes.subrange(16, 24));
    assert(bytes.take(24) =~= checkpoint_magic() + bytes.subrange(4, 8) + bytes.subrange(8, 16)
        + bytes.subrange(16, 24));
}

/// A truncation error.
fn truncated<T>(got: usize, expected: usize) -> (result: PersistenceResult<T>)
    ensures
        crate::error::format_error(result, truncation_complaint(got as nat, expected as nat)),
{
    let mut message = String::from_str("checkpoint payload truncated: got ");
    push_decimal(&mut message, got as u64);
    message.append(" of ");
    push_decimal(&mut message, expected as u64);
    message.append(" bytes");
    Err(PersistenceError::Format(message))
}

/// Reads the header at the start of a file's bytes.
pub fn read_checkpoint_payload_header(bytes: &[u8]) -> (result: PersistenceResult<
    CheckpointPayloadHeader,
>)
    ensures
        well_headed(bytes@) ==> (result matches Ok(header) && header.wf() && header.heads(bytes@)
            && header.len() == stored_payload_len(bytes@) && header.stored() == stored_checksum(
            bytes@,
        )),
        !well_headed(bytes@) ==> header_fault(bytes@, result),
{
    if bytes.len() < 4 {
        return Err(PersistenceError::UnexpectedEof);
    }
    let mut magic: Vec<u8> = Vec::with_capacity(4);
    magic.push(86);
    magic.push(67);
    magic.push(75);
    magic.push(80);
    assert(magic@ =~= checkpoint_magic());
    assert(bytes@.subrange(0, 4) =~= bytes@.take(4));
    if !same_bytes(bytes, 0, magic.as_slice()) {
        return Err(PersistenceError::Format(String::from_str("invalid checkpoint magic")));
    }
    if bytes.len() < 8 {
        return Err(PersistenceError::UnexpectedEof);
    }
    let version = read_u32(bytes, 4);
    if version != CHECKPOINT_FORMAT_VERSION_V1 && version != CHECKPOINT_FORMAT_VERSION_V2 {
        let mut message = String::from_str("checkpoint version mismatch (got ");
        push_decimal(&mut message, version as u64);
        message.append(")");
        return Err(PersistenceError::Format(message));
    }
    if bytes.len() < 24 {
        return Err(PersistenceError::UnexpectedEof);
    }
    let last_applied_id = read_u64(bytes, 8);
    let payload_len_u64 = read_u64(bytes, 16);
    if payload_len_u64 > usize::MAX as u64 {
        return Err(PersistenceError::Format(String::from_str("payload_len overflow")));
    }
    let payload_len: usize = payload_len_u64 as usize;
    let max = max_checkpoint_payload_bytes();
    if payload_len > max {
        let mut message = String::from_str("checkpoint payload too large: ");
        push_decimal(&mut message, payload_len as u64);
        message.append(" bytes (max ");
        push_decimal(&mut message, max as u64);
        message.append(")");
        return Err(PersistenceError::Format(message));
    }
    if bytes.len() < 28 {
        return Err(PersistenceError::UnexpectedEof);
    }
    let checksum = read_u32(bytes, 24);
    Ok(CheckpointPayloadHeader { version, last_applied_id, payload_len, checksum })
}

/// The payload behind the header of a file, if the file holds all of it. Bytes behind
/// the payload do not count.
pub open spec fn stored_payload(bytes: Seq<u8>) -> Seq<u8> {
    bytes.subrange(28, 28 + stored_payload_len(bytes) as int)
}

/// A file that holds a header, all of the payload, and the right checksum for it.
pub open spec fn holds_payload(bytes: Seq<u8>) -> bool {
    &&& well_headed(bytes)
    &&& 28 + stored_payload_len(bytes) <= bytes.len()
    &&& payload_checksum(bytes, stored_payload(bytes)) == stored_checksum(bytes)
}

/// What reading the payload of a file that holds none gives.
pub open spec fn payload_fault<T>(bytes: Seq<u8>, result: PersistenceResult<T>) -> bool {
    if !well_headed(bytes) {
        header_fault(bytes, result)
    } else if bytes.len() < 28 + stored_payload_len(bytes) {
        crate::error::format_error(
            result,
            truncation_complaint((bytes.len() - 28) as nat, stored_payload_len(bytes)),
        )
    } else {
        crate::error::crc_mismatch(
            result,
            stored_checksum(bytes) as u32,
            payload_checksum(bytes, stored_payload(bytes)),
        )
    }
}

/// Finds and verifies the payload in a file's bytes.
fn checked_payload<'a>(bytes: &'a [u8]) -> (result: PersistenceResult<
    (CheckpointPayloadHeader, &'a [u8]),
>)
    ensures
        holds_payload(bytes@) ==> (result matches Ok((header, payload)) && payload@
            == stored_payload(bytes@) && header.len() == stored_payload_len(bytes@)),
        !holds_payload(bytes@) ==> payload_fault(bytes@, result),
{
    let header = match read_checkpoint_payload_header(bytes) {
        Ok(header) => header,
        Err(e) => {
            return Err(e);
        },
    };
    if bytes.len() - 28 < header.payload_len {
        return truncated(bytes.len() - 28, header.payload_len);
    }
    let payload = slice_subrange(bytes, 28, 28 + header.payload_len);
    assert(payload@ =~= stored_payload(bytes@));
    proof {
        asked_is_payload_checksum(header, bytes@, payload@);
    }
    match header.verify_payload(payload) {
        Ok(()) => Ok((header, payload)),
        Err(e) => Err(e),
    }
}

/// Where the payload lives in a file with these bytes, and its own checksum.
pub fn read_checkpoint_payload_info(bytes: &[u8]) -> (result: PersistenceResult<
    SegmentPayloadInfo,
>)
    ensures
        holds_payload(bytes@) ==> (result matches Ok(info) && info.payload_offset == 28
            && info.payload_len == stored_payload_len(bytes@) && info.payload_crc32
            == crate::crc::crc32(stored_payload(bytes@))),
        !holds_payload(bytes@) ==> payload_fault(bytes@, result),
{
    match checked_payload(bytes) {
        Ok((header, payload)) => Ok(header.payload_info(payload)),
        Err(e) => Err(e),
    }
}

/// Copies the verified payload of a file with these bytes into `payload`, which is
/// cleared first and left empty on error.
pub fn read_checkpoint_payload_into(bytes: &[u8], payload: &mut Vec<u8>) -> (result:
    PersistenceResult<()>)
    ensures
        holds_payload(bytes@) ==> result is Ok && final(payload)@ == stored_payload(bytes@),
        !holds_payload(bytes@) ==> payload_fault(bytes@, result) && final(payload)@
            == Seq::<u8>::empty(),
{
    payload.clear();
    match checked_payload(bytes) {
        Ok((_, found)) => {
            payload.extend_from_slice(found);
            assert(payload@ =~= found@);
            Ok(())
        },
        Err(e) => Err(e),
    }
}

/// The verified payload of a file with these bytes.
pub fn read_checkpoint_payload(bytes: &[u8]) -> (result: PersistenceResult<Vec<u8>>)
    ensures
        holds_payload(bytes@) ==> (result matches Ok(payload) && payload@ == stored_payload(
            bytes@,
        )),
        !holds_payload(bytes@) ==> payload_fault(bytes@, result),
{
    let mut payload: Vec<u8> = Vec::new();
    match read_checkpoint_payload_into(bytes, &mut payload) {
        Ok(()) => Ok(payload),
        Err(e) => Err(e),
    }
}

/// The reported location is that of the payload: the bytes there are the payload, and
/// they have the reported length and checksum, so that verifying them succeeds.
pub proof fn payload_info_describes_the_payload(
    bytes: Seq<u8>,
    info: SegmentPayloadInfo,
    read: Seq<u8>,
)
    requires
        holds_payload(bytes),
        info.payload_offset == 28,
        info.payload_len == stored_payload_len(bytes),
        info.payload_crc32 == crate::crc::crc32(stored_payload(bytes)),
        read == bytes.subrange(
            info.payload_offset as int,
            info.payload_offset + info.payload_len,
        ),
    ensures
        read == stored_payload(bytes),
        info.describes(read),
{
}

/// Corruption of any single byte of the payload or of the checksum is reported as a
/// checksum error, whichever version the envelope has; in the second version, so is that
/// of any byte of the applied id.
pub proof fn a_changed_byte_is_reported<T>(
    good: Seq<u8>,
    bytes: Seq<u8>,
    at: int,
    result: PersistenceResult<T>,
)
    requires
        holds_payload(good),
        crate::crc::differ_at(good, bytes, at),
        24 <= at < 28 + stored_payload_len(good) || (8 <= at < 16 && stored_version(good) == 2),
        !holds_payload(bytes) ==> payload_fault(bytes, result),
    ensures
        !holds_payload(bytes),
        result matches Err(PersistenceError::CrcMismatch { .. }),
{
    let payload = stored_payload(good);
    let found = stored_payload(bytes);
    let covered = good.take(24) + payload;
    let covered_found = bytes.take(24) + found;
    assert(bytes.take(4) =~= good.take(4));
    assert(bytes.subrange(4, 8) =~= good.subrange(4, 8));
    assert(bytes.subrange(16, 24) =~= good.subrange(16, 24));
    crate::bytes::le_bytes_of_value(good.subrange(24, 28));
    crate::bytes::le_bytes_of_value(bytes.subrange(24, 28));
    if at < 16 {
        assert(bytes.subrange(24, 28) =~= good.subrange(24, 28));
        assert(found =~= payload);
        assert(crate::crc::differ_at(covered, covered_found, at));
        crate::crc::crc32_tells_a_changed_byte(covered, covered_found, at);
    } else if at < 28 {
        assert(bytes.take(24) =~= good.take(24));
        assert(found =~= payload);
        assert(good.subrange(24, 28)[at - 24] != bytes.subrange(24, 28)[at - 24]);
        assert(stored_checksum(bytes) != stored_checksum(good));
    } else {
        assert(bytes.subrange(24, 28) =~= good.subrange(24, 28));
        assert(found.len() == payload.len());
        assert(crate::crc::differ_at(payload, found, at - 28));
        crate::crc::crc32_tells_a_changed_byte(payload, found, at - 28);
        assert(crate::crc::differ_at(covered, covered_found, at - 4));
        crate::crc::crc32_tells_a_changed_byte(covered, covered_found, at - 4);
    }
}

/// A segment file as it is laid out: the letters `VCKP`, the version, the applied id and
/// the payload length, the checksum, the payload, and whatever follows.
pub open spec fn laid_out(
    version: u32,
    applied_id: u64,
    checksum: u32,
    payload: Seq<u8>,
    rest: Seq<u8>,
) -> Seq<u8> {
    seq![86u8, 67u8, 75u8, 80u8] + crate::bytes::le_bytes(version as nat, 4)
        + crate::bytes::le_bytes(applied_id as nat, 8) + crate::bytes::le_bytes(payload.len(), 8)
        + crate::bytes::le_bytes(checksum as nat, 4) + payload + rest
}

/// A file that is laid out as a segment file, in either version and with the right
/// checksum, holds its payload, and reading finds it. The first version's checksum is
/// that of the payload, the second's that of the header before it and the payload.
pub proof fn a_laid_out_file_holds_its_payload(
    version: u32,
    applied_id: u64,
    checksum: u32,
    payload: Seq<u8>,
    rest: Seq<u8>,
)
    requires
        payload.len() <= 256 * 1024 * 1024,
    ensures
        ({
            let bytes = laid_out(version, applied_id, checksum, payload, rest);
            &&& holds_payload(bytes) <==> (version == 1 && checksum == crate::crc::crc32(payload))
                || (version == 2 && checksum == crate::crc::crc32(bytes.take(24) + payload))
            &&& version == 1 || version == 2 ==> stored_payload(bytes) == payload
                && stored_payload_len(bytes) == payload.len()
        }),
{
    let bytes = laid_out(version, applied_id, checksum, payload, rest);
    crate::bytes::byte_range_bounds(4);
    crate::bytes::le_value_of_bytes(version as nat, 4);
    crate::bytes::le_value_of_bytes(applied_id as nat, 8);
    crate::bytes::le_value_of_bytes(payload.len(), 8);
    crate::bytes::le_value_of_bytes(checksum as nat, 4);
    assert(bytes.take(4) =~= checkpoint_magic());
    assert(bytes.subrange(4, 8) =~= crate::bytes::le_bytes(version as nat, 4));
    assert(bytes.subrange(16, 24) =~= crate::bytes::le_bytes(payload.len(), 8));
    assert(bytes.subrange(24, 28) =~= crate::bytes::le_bytes(checksum as nat, 4));
    assert(bytes.subrange(28, 28 + payload.len() as int) =~= payload);
}

/// Every file that holds a payload is laid out as a segment file.
pub proof fn what_holds_a_payload_is_laid_out(bytes: Seq<u8>)
    requires
        holds_payload(bytes),
    ensures
        bytes == laid_out(
            stored_version(bytes) as u32,
            crate::bytes::le_value(bytes.subrange(8, 16)) as u64,
            stored_checksum(bytes) as u32,
            stored_payload(bytes),
            bytes.skip(28 + stored_payload(bytes).len() as int),
        ),
        stored_payload(bytes).len() <= 256 * 1024 * 1024,
{
    let payload = stored_payload(bytes);
    crate::bytes::byte_range_bounds(4);
    crate::bytes::le_value_in_range(bytes.subrange(4, 8));
    crate::bytes::le_value_in_range(bytes.subrange(8, 16));
    crate::bytes::le_value_in_range(bytes.subrange(24, 28));
    crate::bytes::le_bytes_of_value(bytes.subrange(4, 8));
    crate::bytes::le_bytes_of_value(bytes.subrange(8, 16));
    crate::bytes::le_bytes_of_value(bytes.subrange(16, 24));
    crate::bytes::le_bytes_of_value(bytes.subrange(24, 28));
    assert(bytes =~= bytes.take(4) + bytes.subrange(4, 8) + bytes.subrange(8, 16)
        + bytes.subrange(16, 24) + bytes.subrange(24, 28) + payload + bytes.skip(
        28 + payload.len() as int,
    ));
}

/// What is wrong with a file is told in the order in which a reader comes upon it: other
/// letters than `VCKP`, an unknown version, a file that ends within the header or within
/// the payload, and at last another checksum than the stored one. `n` is how much of the
/// file there is.
pub proof fn faults_are_told_in_order<T>(
    version: u32,
    applied_id: u64,
    checksum: u32,
    payload: Seq<u8>,
    rest: Seq<u8>,
    n: int,
    result: PersistenceResult<T>,
)
    requires
        payload.len() <= 256 * 1024 * 1024,
        0 <= n <= laid_out(version, applied_id, checksum, payload, rest).len(),
        !holds_payload(laid_out(version, applied_id, checksum, payload, rest).take(n)),
        payload_fault(laid_out(version, applied_id, checksum, payload, rest).take(n), result),
    ensures
        n < 8 ==> result matches Err(PersistenceError::UnexpectedEof),
        n >= 8 && version != 1 && version != 2 ==> (result matches Err(PersistenceError::Format(m))
            && m@ == "checkpoint version mismatch (got "@ + crate::text::decimal(version as nat)
            + ")"@),
        n < 28 && (version == 1 || version == 2) ==> result matches Err(
            PersistenceError::UnexpectedEof,
        ),
        28 <= n < 28 + payload.len() && (version == 1 || version == 2) ==> (result matches Err(
            PersistenceError::Format(m),
        ) && m@ == "checkpoint payload truncated: got "@ + crate::text::decimal((n - 28) as nat)
            + " of "@ + crate::text::decimal(payload.len()) + " bytes"@),
        n >= 28 + payload.len() && version == 1 ==> (result matches Err(
            PersistenceError::CrcMismatch { expected, actual },
        ) && expected == checksum && actual == crate::crc::crc32(payload)),
        n >= 28 + payload.len() && version == 2 ==> (result matches Err(
            PersistenceError::CrcMismatch { expected, actual },
        ) && expected == checksum && actual == crate::crc::crc32(
            laid_out(version, applied_id, checksum, payload, rest).take(24) + payload,
        )),
{
    let bytes = laid_out(version, applied_id, checksum, payload, rest);
    let head = bytes.take(n);
    crate::bytes::byte_range_bounds(4);
    crate::bytes::le_value_of_bytes(version as nat, 4);
    crate::bytes::le_value_of_bytes(applied_id as nat, 8);
    crate::bytes::le_value_of_bytes(payload.len(), 8);
    crate::bytes::le_value_of_bytes(checksum as nat, 4);
    if n >= 4 {
        assert(head.take(4) =~= checkpoint_magic());
    }
    if n >= 8 {
        assert(head.subrange(4, 8) =~= crate::bytes::le_bytes(version as nat, 4));
    }
    if n >= 24 {
        assert(head.subrange(16, 24) =~= crate::bytes::le_bytes(payload.len(), 8));
        assert(head.take(24) =~= bytes.take(24));
    }
    if n >= 28 {
        assert(head.subrange(24, 28) =~= crate::bytes::le_bytes(checksum as nat, 4));
    }
    if n >= 28 + payload.len() {
        assert(head.subrange(28, 28 + payload.len() as int) =~= payload);
    }
}

/// What is said of an artifact that does not fit one checkpoint blob.
pub open spec fn size_cap_complaint(what: Seq<char>, message: Seq<char>) -> Seq<char> {
    what + " does not fit the "@ + crate::text::decimal(payload_cap())
        + "-byte per-blob limit (durability::MAX_CHECKPOINT_PAYLOAD_BYTES): "@ + message
        + ". Each segment and the manifest are written as a single checkpoint blob. Keep them under the cap: lower TierConfig::max_merged_len (it counts items, not bytes) or the open() flush_threshold so segments stay smaller, and run compact() to drop tombstones from the manifest."@
}

/// Rewraps the generic complaint about a payload that is too large into an actionable
/// message naming the artifact and the levers; unrelated errors pass through
/// unchanged.
///
/// Each segment, and the manifest, is written as one checkpoint blob, so it is bounded
/// in bytes. That cap and the item-count cap of size tiering are in different units
/// and do not know about each other, so a compaction can target an item count whose
/// serialized bytes exceed the blob cap.
pub fn size_cap_context(e: PersistenceError, what: &str) -> (wrapped: PersistenceError)
    ensures
        match e {
            PersistenceError::Format(m) if crate::text::occurs("payload too large"@, m@) =>
                wrapped matches PersistenceError::Format(w) && w@ == size_cap_complaint(
                what@,
                m@,
            ),
            _ => wrapped == e,
        },
{
    match e {
        PersistenceError::Format(m) => {
            if contains_text(m.as_str(), "payload too large") {
                let mut message = String::from_str(what);
                message.append(" does not fit the ");
                push_decimal(&mut message, max_checkpoint_payload_bytes() as u64);
                message.append(
                    "-byte per-blob limit (durability::MAX_CHECKPOINT_PAYLOAD_BYTES): ",
                );
                message.append(m.as_str());
                message.append(
                    ". Each segment and the manifest are written as a single checkpoint blob. Keep them under the cap: lower TierConfig::max_merged_len (it counts items, not bytes) or the open() flush_threshold so segments stay smaller, and run compact() to drop tombstones from the manifest.",
                );
                PersistenceError::Format(message)
            } else {
                PersistenceError::Format(m)
            }
        },
        e => e,
    }
}

/// The rewrapped message begins with the artifact and carries the message that it wraps.
pub proof fn the_wrapped_message_is_carried(what: Seq<char>, message: Seq<char>)
    ensures
        what.is_prefix_of(size_cap_complaint(what, message)),
        crate::text::occurs(message, size_cap_complaint(what, message)),
{
    let limit = crate::text::decimal(payload_cap());
    let said = size_cap_complaint(what, message);
    let front = what + " does not fit the "@ + limit
        + "-byte per-blob limit (durability::MAX_CHECKPOINT_PAYLOAD_BYTES): "@;
    let at = front.len() as int;
    assert(said.subrange(0, what.len() as int) =~= what);
    assert(said.subrange(at, at + message.len()) =~= message);
}

} // verus!
