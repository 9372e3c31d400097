//! The envelope around consumer-written sidecar files.

use crate::bytes::{push_le, read_u32, read_u64, same_bytes};
use crate::crc::crc32_of_both;
use crate::error::{PersistenceError, PersistenceResult};
use crate::text::push_decimal;
use vstd::prelude::*;
use vstd::slice::slice_subrange;
use vstd::string::StringExecFns;

verus! {

/// Length of the fixed header: `magic[8] | version:u32 | segment_id:u64 |
/// recipe_len:u32 | crc32:u32`.
pub const SIDECAR_ENVELOPE_HEADER_BYTES: usize = 28;

/// Consumer-owned sidecar envelope with checked shared mechanics.
///
/// The envelope covers the repeated cross-consumer header pattern:
/// `magic[8] | version:u32 | segment_id:u64 | recipe_len:u32 | crc32:u32 |
/// recipe | payload`. The CRC covers every byte except the CRC field itself, so
/// corrupt fixed header fields, recipe bytes, or payload bytes are rejected before
/// the payload is trusted.
///
/// This type does not define a sidecar format for consumers. `magic`, `version`,
/// `recipe`, and the payload codec remain consumer-owned compatibility choices; this
/// helper only centralizes the bounds checks and CRC framing.
pub struct SidecarEnvelope;

/// Payload range described by a sidecar envelope header.
#[derive(Clone, Copy, Debug, Eq, PartialEq, Structural)]
pub struct SidecarPayloadInfo {
    payload_offset: u64,
    payload_len: u64,
    crc32: u32,
}

impl SidecarPayloadInfo {
    /// Where the payload starts.
    pub closed spec fn offset(self) -> u64 {
        self.payload_offset
    }

    /// How long the payload is.
    pub closed spec fn len(self) -> u64 {
        self.payload_len
    }

    /// The stored checksum.
    pub closed spec fn checksum(self) -> u32 {
        self.crc32
    }

    /// Byte offset of the payload inside the containing sidecar file.
    pub fn payload_offset(self) -> (offset: u64)
        ensures
            offset == self.offset(),
    {
        self.payload_offset
    }

    /// Byte length of the payload inside the containing sidecar file.
    pub fn payload_len(self) -> (len: u64)
        ensures
            len == self.len(),
    {
        self.payload_len
    }

    /// Stored envelope CRC32.
    ///
    /// [`SidecarEnvelope::payload_info`] returns this value without verifying it, so
    /// lazy readers can decide whether to verify the full envelope or rely on
    /// payload-format checksums.
    pub fn crc32(self) -> (crc: u32)
        ensures
            crc == self.checksum(),
    {
        self.crc32
    }
}

/// The header up to the checksum.
pub open spec fn envelope_head(
    magic: Seq<u8>,
    version: u32,
    segment_id: u64,
    recipe_len: nat,
) -> Seq<u8> {
    magic + crate::bytes::le_bytes(version as nat, 4) + crate::bytes::le_bytes(
        segment_id as nat,
        8,
    ) + crate::bytes::le_bytes(recipe_len, 4)
}

/// A payload in its envelope.
pub open spec fn enveloped(
    magic: Seq<u8>,
    version: u32,
    segment_id: u64,
    recipe: Seq<u8>,
    payload: Seq<u8>,
) -> Seq<u8> {
    let head = envelope_head(magic, version, segment_id, recipe.len());
    head + crate::bytes::le_bytes(
        crate::crc::crc32(head + (recipe + payload)) as nat,
        4,
    ) + (recipe + payload)
}

/// The checksum of an envelope: over every byte but those of the checksum itself.
pub open spec fn envelope_crc(bytes: Seq<u8>) -> u32 {
    crate::crc::crc32(bytes.take(24) + bytes.skip(28))
}

/// The version in a header.
pub open spec fn header_version(bytes: Seq<u8>) -> nat {
    crate::bytes::le_value(bytes.subrange(8, 12))
}

/// The segment id in a header.
pub open spec fn header_segment_id(bytes: Seq<u8>) -> nat {
    crate::bytes::le_value(bytes.subrange(12, 20))
}

/// The recipe length in a header.
pub open spec fn header_recipe_len(bytes: Seq<u8>) -> nat {
    crate::bytes::le_value(bytes.subrange(20, 24))
}

/// The checksum in a header.
pub open spec fn header_crc(bytes: Seq<u8>) -> nat {
    crate::bytes::le_value(bytes.subrange(24, 28))
}

/// What is said of an envelope of another version.
pub open spec fn version_complaint(got: nat, expected: u32) -> Seq<char> {
    "sidecar envelope version mismatch: got "@ + crate::text::decimal(got) + ", expected "@
        + crate::text::decimal(expected as nat)
}

/// What is said of an envelope of another segment.
pub open spec fn segment_complaint(got: nat, expected: u64) -> Seq<char> {
    "sidecar envelope segment id mismatch: got "@ + crate::text::decimal(got) + ", expected "@
        + crate::text::decimal(expected as nat)
}

/// What is said of a recipe that does not fit its length field.
pub open spec fn recipe_complaint(len: nat) -> Seq<char> {
    "sidecar recipe too large: "@ + crate::text::decimal(len) + " bytes (max "@
        + crate::text::decimal(u32::MAX as nat) + ")"@
}

/// What decoding gives: the payload, or the first thing found wrong.
pub open spec fn decodes(
    magic: Seq<u8>,
    version: u32,
    segment_id: u64,
    recipe: Seq<u8>,
    bytes: Seq<u8>,
    result: PersistenceResult<&[u8]>,
) -> bool {
    let recipe_end = 28 + header_recipe_len(bytes);
    if bytes.len() < 28 {
        crate::error::format_error(result, "sidecar envelope header is truncated"@)
    } else if bytes.take(8) != magic {
        crate::error::format_error(result, "sidecar envelope magic mismatch"@)
    } else if header_version(bytes) != version {
        crate::error::format_error(result, version_complaint(header_version(bytes), version))
    } else if header_segment_id(bytes) != segment_id {
        crate::error::format_error(
            result,
            segment_complaint(header_segment_id(bytes), segment_id),
        )
    } else if recipe_end > usize::MAX {
        crate::error::format_error(result, "sidecar recipe length overflow"@)
    } else if bytes.len() < recipe_end {
        crate::error::format_error(result, "sidecar envelope recipe is truncated"@)
    } else if envelope_crc(bytes) != header_crc(bytes) {
        crate::error::crc_mismatch(result, header_crc(bytes) as u32, envelope_crc(bytes))
    } else if bytes.subrange(28, recipe_end as int) != recipe {
        crate::error::format_error(result, "sidecar envelope recipe mismatch"@)
    } else {
        result matches Ok(payload) && payload@ == bytes.skip(recipe_end as int)
    }
}

/// What reading the header and the recipe gives: the payload's range, or the first
/// thing found wrong. `head` is what can be read from the start of a sidecar of
/// `sidecar_len` bytes.
pub open spec fn locates(
    magic: Seq<u8>,
    version: u32,
    segment_id: u64,
    recipe: Seq<u8>,
    head: Seq<u8>,
    sidecar_len: u64,
    result: PersistenceResult<SidecarPayloadInfo>,
) -> bool {
    let recipe_end = 28 + header_recipe_len(head);
    if sidecar_len < 28 {
        crate::error::format_error(result, "sidecar envelope header is truncated"@)
    } else if head.len() < 28 {
        crate::error::ended_early(result)
    } else if head.take(8) != magic {
        crate::error::format_error(result, "sidecar envelope magic mismatch"@)
    } else if header_version(head) != version {
        crate::error::format_error(result, version_complaint(header_version(head), version))
    } else if header_segment_id(head) != segment_id {
        crate::error::format_error(result, segment_complaint(header_segment_id(head), segment_id))
    } else if sidecar_len < recipe_end {
        crate::error::format_error(result, "sidecar envelope recipe is truncated"@)
    } else if header_recipe_len(head) != recipe.len() {
        crate::error::format_error(result, "sidecar envelope recipe mismatch"@)
    } else if head.len() < recipe_end {
        crate::error::ended_early(result)
    } else if head.subrange(28, recipe_end as int) != recipe {
        crate::error::format_error(result, "sidecar envelope recipe mismatch"@)
    } else {
        result matches Ok(info) && info.offset() == recipe_end && info.len() == sidecar_len
            - recipe_end && info.checksum() == header_crc(head)
    }
}

/// A format error with a fixed message.
fn bad_format<T>(message: &str) -> (result: PersistenceResult<T>)
    ensures
        crate::error::format_error(result, message@),
{
    Err(PersistenceError::Format(String::from_str(message)))
}

/// A format error about two numbers.
fn bad_number<T>(what: &str, got: u64, expected: u64) -> (result: PersistenceResult<T>)
    ensures
        crate::error::format_error(
            result,
            what@ + crate::text::decimal(got as nat) + ", expected "@ + crate::text::decimal(
                expected as nat,
            ),
        ),
{
    let mut message = String::from_str(what);
    push_decimal(&mut message, got);
    message.append(", expected ");
    push_decimal(&mut message, expected);
    Err(PersistenceError::Format(message))
}

/// The checksum of an envelope: over every byte but those of the checksum itself.
fn sidecar_envelope_crc(bytes: &[u8]) -> (crc: u32)
    requires
        bytes@.len() >= 28,
    ensures
        crc == envelope_crc(bytes@),
{
    assert(bytes@.len() == bytes.len());
    let head = slice_subrange(bytes, 0, 24);
    let tail = slice_subrange(bytes, 28, bytes.len());
    assert(head@ =~= bytes@.take(24));
    assert(tail@ =~= bytes@.skip(28));
    crc32_of_both(head, tail)
}

impl SidecarEnvelope {
    /// Encode a payload with the common sidecar envelope.
    pub fn encode(
        magic: &[u8; 8],
        version: u32,
        segment_id: u64,
        recipe: &[u8],
        payload: &[u8],
    ) -> (result: PersistenceResult<Vec<u8>>)
        requires
            recipe@.len() <= u32::MAX ==> 28 + recipe@.len() + payload@.len() <= isize::MAX,
        ensures
            recipe@.len() <= u32::MAX ==> (result matches Ok(bytes) && bytes@ == enveloped(
                magic@,
                version,
                segment_id,
                recipe@,
                payload@,
            )),
            recipe@.len() > u32::MAX ==> crate::error::config_error(
                result,
                recipe_complaint(recipe@.len()),
            ),
    {
        if recipe.len() as u64 > u32::MAX as u64 {
            let mut message = String::from_str("sidecar recipe too large: ");
            push_decimal(&mut message, recipe.len() as u64);
            message.append(" bytes (max ");
            push_decimal(&mut message, u32::MAX as u64);
            message.append(")");
            return Err(PersistenceError::InvalidConfig(message));
        }
        let mut bytes: Vec<u8> = Vec::with_capacity(
            SIDECAR_ENVELOPE_HEADER_BYTES + recipe.len() + payload.len(),
        );
        bytes.extend_from_slice(magic.as_slice());
        push_le(&mut bytes, version as u64, 4);
        push_le(&mut bytes, segment_id, 8);
        push_le(&mut bytes, recipe.len() as u64, 4);
        let ghost head = envelope_head(magic@, version, segment_id, recipe@.len());
        assert(bytes@ =~= head);
        let mut rest: Vec<u8> = Vec::with_capacity(recipe.len() + payload.len());
        rest.extend_from_slice(recipe);
        rest.extend_from_slice(payload);
        assert(rest@ =~= recipe@ + payload@);
        proof {
            envelope_head_len(magic@, version, segment_id, recipe@.len());
        }
        let crc = crc32_of_both(bytes.as_slice(), rest.as_slice());
        push_le(&mut bytes, crc as u64, 4);
        bytes.extend_from_slice(rest.as_slice());
        assert(bytes@ =~= enveloped(magic@, version, segment_id, recipe@, payload@));
        Ok(bytes)
    }

    /// Decode and validate a common sidecar envelope, returning the payload.
    pub fn decode<'a>(
        expected_magic: &[u8; 8],
        expected_version: u32,
        expected_segment_id: u64,
        expected_recipe: &[u8],
        bytes: &'a [u8],
    ) -> (result: PersistenceResult<&'a [u8]>)
        ensures
            decodes(
                expected_magic@,
                expected_version,
                expected_segment_id,
                expected_recipe@,
                bytes@,
                result,
            ),
    {
        if bytes.len() < SIDECAR_ENVELOPE_HEADER_BYTES {
            return bad_format("sidecar envelope header is truncated");
        }
        assert(bytes@.subrange(0, 8) =~= bytes@.take(8));
        if !same_bytes(bytes, 0, expected_magic.as_slice()) {
            return bad_format("sidecar envelope magic mismatch");
        }
        let version = read_u32(bytes, 8);
        if version != expected_version {
            return bad_number(
                "sidecar envelope version mismatch: got ",
                version as u64,
                expected_version as u64,
            );
        }
        let segment_id = read_u64(bytes, 12);
        if segment_id != expected_segment_id {
            return bad_number(
                "sidecar envelope segment id mismatch: got ",
                segment_id,
                expected_segment_id,
            );
        }
        let recipe_len: usize = read_u32(bytes, 20) as usize;
        let recipe_end: usize = match SIDECAR_ENVELOPE_HEADER_BYTES.checked_add(recipe_len) {
            Some(end) => end,
            None => {
                return bad_format("sidecar recipe length overflow");
            },
        };
        if bytes.len() < recipe_end {
            return bad_format("sidecar envelope recipe is truncated");
        }
        let expected_crc = read_u32(bytes, 24);
        let actual_crc = sidecar_envelope_crc(bytes);
        if actual_crc != expected_crc {
            return Err(
                PersistenceError::CrcMismatch { expected: expected_crc, actual: actual_crc },
            );
        }
        if recipe_len != expected_recipe.len() || !same_bytes(bytes, 28, expected_recipe) {
            assert(bytes@.subrange(28, recipe_end as int).len() == recipe_len);
            return bad_format("sidecar envelope recipe mismatch");
        }
        let payload = slice_subrange(bytes, recipe_end, bytes.len());
        assert(payload@ =~= bytes@.skip(recipe_end as int));
        Ok(payload)
    }

    /// Validate the sidecar header and recipe, returning the payload range.
    ///
    /// `head` is what can be read from the start of a sidecar of `sidecar_len` bytes;
    /// no more than the fixed header and the recipe is looked at. This does not
    /// verify the stored envelope CRC over the payload; use [`Self::decode`] when the
    /// full sidecar is already resident and must be fully verified before use. This
    /// helper is for payload formats that have their own lazy checksums and need to
    /// keep the payload file-backed.
    pub fn payload_info(
        expected_magic: &[u8; 8],
        expected_version: u32,
        expected_segment_id: u64,
        expected_recipe: &[u8],
        head: &[u8],
        sidecar_len: u64,
    ) -> (result: PersistenceResult<SidecarPayloadInfo>)
        ensures
            locates(
                expected_magic@,
                expected_version,
                expected_segment_id,
                expected_recipe@,
                head@,
                sidecar_len,
                result,
            ),
    {
        if sidecar_len < SIDECAR_ENVELOPE_HEADER_BYTES as u64 {
            return bad_format("sidecar envelope header is truncated");
        }
        if head.len() < SIDECAR_ENVELOPE_HEADER_BYTES {
            return Err(PersistenceError::UnexpectedEof);
        }
        assert(head@.subrange(0, 8) =~= head@.take(8));
        if !same_bytes(head, 0, expected_magic.as_slice()) {
            return bad_format("sidecar envelope magic mismatch");
        }
        let version = read_u32(head, 8);
        if version != expected_version {
            return bad_number(
                "sidecar envelope version mismatch: got ",
                version as u64,
                expected_version as u64,
            );
        }
        let segment_id = read_u64(head, 12);
        if segment_id != expected_segment_id {
            return bad_number(
                "sidecar envelope segment id mismatch: got ",
                segment_id,
                expected_segment_id,
            );
        }
        let recipe_len: u64 = read_u32(head, 20) as u64;
        let payload_offset: u64 = SIDECAR_ENVELOPE_HEADER_BYTES as u64 + recipe_len;
        if sidecar_len < payload_offset {
            return bad_format("sidecar envelope recipe is truncated");
        }
        if recipe_len != expected_recipe.len() as u64 {
            return bad_format("sidecar envelope recipe mismatch");
        }
        if (head.len() as u64) < payload_offset {
            return Err(PersistenceError::UnexpectedEof);
        }
        if !same_bytes(head, 28, expected_recipe) {
            return bad_format("sidecar envelope recipe mismatch");
        }
        Ok(
            SidecarPayloadInfo {
                payload_offset,
                payload_len: sidecar_len - payload_offset,
                crc32: read_u32(head, 24),
            },
        )
    }
}

/// The header up to the checksum is 24 bytes long.
proof fn envelope_head_len(magic: Seq<u8>, version: u32, segment_id: u64, recipe_len: nat)
    requires
        magic.len() == 8,
        recipe_len <= u32::MAX,
    ensures
        envelope_head(magic, version, segment_id, recipe_len).len() == 24,
{
    crate::bytes::byte_range_bounds(4);
    crate::bytes::le_value_of_bytes(version as nat, 4);
    crate::bytes::le_value_of_bytes(segment_id as nat, 8);
    crate::bytes::le_value_of_bytes(recipe_len, 4);
}

/// The fields of an encoded envelope are where decoding looks for them.
proof fn enveloped_fields(
    magic: Seq<u8>,
    version: u32,
    segment_id: u64,
    recipe: Seq<u8>,
    payload: Seq<u8>,
)
    requires
        magic.len() == 8,
        recipe.len() <= u32::MAX,
    ensures
        ({
            let bytes = enveloped(magic, version, segment_id, recipe, payload);
            let end = 28 + recipe.len();
            &&& bytes.len() == end + payload.len()
            &&& bytes.take(8) == magic
            &&& header_version(bytes) == version
            &&& header_segment_id(bytes) == segment_id
            &&& header_recipe_len(bytes) == recipe.len()
            &&& header_crc(bytes) == envelope_crc(bytes)
            &&& bytes.subrange(28, end as int) == recipe
            &&& bytes.skip(end as int) == payload
        }),
{
    let head = envelope_head(magic, version, segment_id, recipe.len());
    let crc = crate::crc::crc32(head + (recipe + payload));
    let bytes = enveloped(magic, version, segment_id, recipe, payload);
    let end = 28 + recipe.len();
    crate::bytes::byte_range_bounds(4);
    crate::bytes::le_value_of_bytes(version as nat, 4);
    crate::bytes::le_value_of_bytes(segment_id as nat, 8);
    crate::bytes::le_value_of_bytes(recipe.len(), 4);
    crate::bytes::le_value_of_bytes(crc as nat, 4);
    envelope_head_len(magic, version, segment_id, recipe.len());
    assert(bytes.take(8) =~= magic);
    assert(bytes.subrange(8, 12) =~= crate::bytes::le_bytes(version as nat, 4));
    assert(bytes.subrange(12, 20) =~= crate::bytes::le_bytes(segment_id as nat, 8));
    assert(bytes.subrange(20, 24) =~= crate::bytes::le_bytes(recipe.len(), 4));
    assert(bytes.subrange(24, 28) =~= crate::bytes::le_bytes(crc as nat, 4));
    assert(bytes.take(24) =~= head);
    assert(bytes.skip(28) =~= recipe + payload);
    assert(bytes.subrange(28, end as int) =~= recipe);
    assert(bytes.skip(end as int) =~= payload);
}

/// Decoding what was encoded, with the same expectations, gives back the payload.
pub proof fn decoding_inverts_encoding(
    magic: Seq<u8>,
    version: u32,
    segment_id: u64,
    recipe: Seq<u8>,
    payload: Seq<u8>,
    result: PersistenceResult<&[u8]>,
)
    requires
        magic.len() == 8,
        recipe.len() <= u32::MAX,
        28 + recipe.len() + payload.len() <= isize::MAX,
        decodes(
            magic,
            version,
            segment_id,
            recipe,
            enveloped(magic, version, segment_id, recipe, payload),
            result,
        ),
    ensures
        result matches Ok(decoded) && decoded@ == payload,
{
    enveloped_fields(magic, version, segment_id, recipe, payload);
}

/// Reading the header of what was encoded gives the range and the checksum that the
/// payload has there.
pub proof fn locating_agrees_with_encoding(
    magic: Seq<u8>,
    version: u32,
    segment_id: u64,
    recipe: Seq<u8>,
    payload: Seq<u8>,
    result: PersistenceResult<SidecarPayloadInfo>,
)
    requires
        magic.len() == 8,
        recipe.len() <= u32::MAX,
        28 + recipe.len() + payload.len() <= isize::MAX,
        ({
            let bytes = enveloped(magic, version, segment_id, recipe, payload);
            locates(magic, version, segment_id, recipe, bytes, bytes.len() as u64, result)
        }),
    ensures
        result matches Ok(info) && {
            let bytes = enveloped(magic, version, segment_id, recipe, payload);
            &&& info.len() == payload.len()
            &&& bytes.subrange(info.offset() as int, info.offset() + info.len()) == payload
            &&& info.checksum() == envelope_crc(bytes)
        },
{
    enveloped_fields(magic, version, segment_id, recipe, payload);
    let bytes = enveloped(magic, version, segment_id, recipe, payload);
    let end = 28 + recipe.len();
    assert(bytes.subrange(end as int, (end + payload.len()) as int) =~= bytes.skip(end as int));
}

/// Decoding accepts nothing but what encoding gives for the same expectations and the
/// payload that comes out.
pub proof fn decoding_accepts_only_encodings(
    magic: Seq<u8>,
    version: u32,
    segment_id: u64,
    recipe: Seq<u8>,
    bytes: Seq<u8>,
    payload: &[u8],
)
    requires
        decodes(magic, version, segment_id, recipe, bytes, Ok(payload)),
    ensures
        bytes == enveloped(magic, version, segment_id, recipe, payload@),
{
    let head = envelope_head(magic, version, segment_id, recipe.len());
    let end = 28 + header_recipe_len(bytes);
    crate::bytes::le_bytes_of_value(bytes.subrange(8, 12));
    crate::bytes::le_bytes_of_value(bytes.subrange(12, 20));
    crate::bytes::le_bytes_of_value(bytes.subrange(20, 24));
    crate::bytes::le_bytes_of_value(bytes.subrange(24, 28));
    assert(bytes.subrange(28, end as int).len() == recipe.len());
    assert(bytes.take(24) =~= head);
    assert(bytes.skip(28) =~= recipe + payload@);
    assert(bytes =~= head + bytes.subrange(24, 28) + bytes.skip(28));
}

/// Corruption of any single byte of an encoded envelope, be it in the fixed header, the
/// checksum, the recipe or the payload, is rejected.
pub proof fn a_changed_byte_is_rejected(
    magic: Seq<u8>,
    version: u32,
    segment_id: u64,
    recipe: Seq<u8>,
    payload: Seq<u8>,
    bytes: Seq<u8>,
    at: int,
    result: PersistenceResult<&[u8]>,
)
    requires
        magic.len() == 8,
        recipe.len() <= u32::MAX,
        crate::crc::differ_at(
            enveloped(magic, version, segment_id, recipe, payload),
            bytes,
            at,
        ),
        decodes(magic, version, segment_id, recipe, bytes, result),
    ensures
        result is Err,
{
    if let Ok(found) = result {
        let good = enveloped(magic, version, segment_id, recipe, payload);
        let head = envelope_head(magic, version, segment_id, recipe.len());
        decoding_accepts_only_encodings(magic, version, segment_id, recipe, bytes, found);
        enveloped_fields(magic, version, segment_id, recipe, payload);
        enveloped_fields(magic, version, segment_id, recipe, found@);
        envelope_head_len(magic, version, segment_id, recipe.len());
        assert(found@.len() == payload.len());
        let covered = head + (recipe + payload);
        let covered_found = head + (recipe + found@);
        let start = 28 + recipe.len();
        if found@ =~= payload {
            assert(bytes == good);
        } else {
            let i = choose|i: int| 0 <= i < payload.len() && found@[i] != payload[i];
            assert(good.skip(start as int)[i] == payload[i]);
            assert(bytes.skip(start as int)[i] == found@[i]);
            assert(at == start + i);
            assert forall|j: int| 0 <= j < payload.len() && j != i implies found@[j]
                == payload[j] by {
                assert(good.skip(start as int)[j] == payload[j]);
                assert(bytes.skip(start as int)[j] == found@[j]);
            }
            assert(crate::crc::differ_at(covered, covered_found, 24 + recipe.len() + i));
            crate::crc::crc32_tells_a_changed_byte(
                covered,
                covered_found,
                24 + recipe.len() + i,
            );
            assert(good.subrange(24, 28) =~= bytes.subrange(24, 28));
            assert(good.take(24) + good.skip(28) =~= covered);
            assert(bytes.take(24) + bytes.skip(28) =~= covered_found);
        }
    }
}

/// How an envelope is laid out, byte by byte: the magic, the version, the segment id and
/// the recipe length, least significant byte first, the checksum of everything but
/// itself, the recipe and the payload.
pub proof fn an_envelope_is_laid_out_so(
    magic: Seq<u8>,
    version: u32,
    segment_id: u64,
    recipe: Seq<u8>,
    payload: Seq<u8>,
)
    requires
        magic.len() == 8,
        recipe.len() <= u32::MAX,
    ensures
        ({
            let b = enveloped(magic, version, segment_id, recipe, payload);
            &&& b.len() == 28 + recipe.len() + payload.len()
            &&& b.subrange(0, 8) == magic
            &&& version == b[8] + b[9] * 0x100 + b[10] * 0x1_0000 + b[11] * 0x100_0000
            &&& segment_id == b[12] + b[13] * 0x100 + b[14] * 0x1_0000 + b[15] * 0x100_0000 + b[16]
                * 0x1_0000_0000 + b[17] * 0x100_0000_0000 + b[18] * 0x1_0000_0000_0000 + b[19]
                * 0x100_0000_0000_0000
            &&& recipe.len() == b[20] + b[21] * 0x100 + b[22] * 0x1_0000 + b[23] * 0x100_0000
            &&& crate::crc::crc32(b.subrange(0, 24) + recipe + payload) == b[24] + b[25] * 0x100
                + b[26] * 0x1_0000 + b[27] * 0x100_0000
            &&& b.subrange(28, 28 + recipe.len() as int) == recipe
            &&& b.subrange(28 + recipe.len() as int, b.len() as int) == payload
        }),
{
    let b = enveloped(magic, version, segment_id, recipe, payload);
    let end = 28 + recipe.len() as int;
    enveloped_fields(magic, version, segment_id, recipe, payload);
    crate::bytes::numbers_are_little_endian(b.subrange(8, 12), b.subrange(12, 20));
    crate::bytes::numbers_are_little_endian(b.subrange(20, 24), b.subrange(12, 20));
    crate::bytes::numbers_are_little_endian(b.subrange(24, 28), b.subrange(12, 20));
    assert(b.subrange(0, 8) =~= b.take(8));
    assert(b.subrange(end, b.len() as int) =~= b.skip(end));
    assert(b.skip(28) =~= recipe + payload);
    assert(b.subrange(0, 24) + recipe + payload =~= b.take(24) + b.skip(28));
}

/// An envelope that was made for something else is refused by name: the first of magic,
/// version, segment id and recipe that differs is what the message is about.
pub proof fn another_envelope_is_refused_by_name(
    magic: Seq<u8>,
    version: u32,
    segment_id: u64,
    recipe: Seq<u8>,
    payload: Seq<u8>,
    wanted_magic: Seq<u8>,
    wanted_version: u32,
    wanted_segment_id: u64,
    wanted_recipe: Seq<u8>,
    result: PersistenceResult<&[u8]>,
)
    requires
        magic.len() == 8,
        recipe.len() <= u32::MAX,
        28 + recipe.len() + payload.len() <= isize::MAX,
        decodes(
            wanted_magic,
            wanted_version,
            wanted_segment_id,
            wanted_recipe,
            enveloped(magic, version, segment_id, recipe, payload),
            result,
        ),
    ensures
        magic != wanted_magic ==> (result matches Err(PersistenceError::Format(m)) && m@
            == "sidecar envelope magic mismatch"@),
        magic == wanted_magic && version != wanted_version ==> (result matches Err(
            PersistenceError::Format(m),
        ) && m@ == "sidecar envelope version mismatch: got "@ + crate::text::decimal(
            version as nat,
        ) + ", expected "@ + crate::text::decimal(wanted_version as nat)),
        magic == wanted_magic && version == wanted_version && segment_id != wanted_segment_id ==> (
        result matches Err(PersistenceError::Format(m)) && m@
            == "sidecar envelope segment id mismatch: got "@ + crate::text::decimal(
            segment_id as nat,
        ) + ", expected "@ + crate::text::decimal(wanted_segment_id as nat)),
        magic == wanted_magic && version == wanted_version && segment_id == wanted_segment_id
            && recipe != wanted_recipe ==> (result matches Err(PersistenceError::Format(m)) && m@
            == "sidecar envelope recipe mismatch"@),
        magic == wanted_magic && version == wanted_version && segment_id == wanted_segment_id
            && recipe == wanted_recipe ==> (result matches Ok(decoded) && decoded@ == payload),
{
    enveloped_fields(magic, version, segment_id, recipe, payload);
}

/// Looking an envelope up refuses it as decoding does, and otherwise says where the
/// payload lies, whatever more of the file could be read than its head.
pub proof fn another_envelope_is_not_located(
    magic: Seq<u8>,
    version: u32,
    segment_id: u64,
    recipe: Seq<u8>,
    payload: Seq<u8>,
    wanted_magic: Seq<u8>,
    wanted_version: u32,
    wanted_segment_id: u64,
    wanted_recipe: Seq<u8>,
    head_len: int,
    result: PersistenceResult<SidecarPayloadInfo>,
)
    requires
        magic.len() == 8,
        recipe.len() <= u32::MAX,
        28 + recipe.len() + payload.len() <= isize::MAX,
        28 + recipe.len() <= head_len <= 28 + recipe.len() + payload.len(),
        locates(
            wanted_magic,
            wanted_version,
            wanted_segment_id,
            wanted_recipe,
            enveloped(magic, version, segment_id, recipe, payload).take(head_len),
            (28 + recipe.len() + payload.len()) as u64,
            result,
        ),
    ensures
        magic != wanted_magic ==> (result matches Err(PersistenceError::Format(m)) && m@
            == "sidecar envelope magic mismatch"@),
        magic == wanted_magic && version != wanted_version ==> (result matches Err(
            PersistenceError::Format(m),
        ) && m@ == "sidecar envelope version mismatch: got "@ + crate::text::decimal(
            version as nat,
        ) + ", expected "@ + crate::text::decimal(wanted_version as nat)),
        magic == wanted_magic && version == wanted_version && segment_id != wanted_segment_id ==> (
        result matches Err(PersistenceError::Format(m)) && m@
            == "sidecar envelope segment id mismatch: got "@ + crate::text::decimal(
            segment_id as nat,
        ) + ", expected "@ + crate::text::decimal(wanted_segment_id as nat)),
        magic == wanted_magic && version == wanted_version && segment_id == wanted_segment_id
            && recipe != wanted_recipe ==> (result matches Err(PersistenceError::Format(m)) && m@
            == "sidecar envelope recipe mismatch"@),
        magic == wanted_magic && version == wanted_version && segment_id == wanted_segment_id
            && recipe == wanted_recipe ==> (result matches Ok(info) && info.offset() == 28
            + recipe.len() && info.len() == payload.len() && info.checksum() == crate::crc::crc32(
            enveloped(magic, version, segment_id, recipe, payload).take(24) + recipe + payload,
        )),
{
    let bytes = enveloped(magic, version, segment_id, recipe, payload);
    let head = bytes.take(head_len);
    let end = 28 + recipe.len() as int;
    enveloped_fields(magic, version, segment_id, recipe, payload);
    assert(head.take(8) =~= bytes.take(8));
    assert(head.subrange(8, 12) =~= bytes.subrange(8, 12));
    assert(head.subrange(12, 20) =~= bytes.subrange(12, 20));
    assert(head.subrange(20, 24) =~= bytes.subrange(20, 24));
    assert(head.subrange(24, 28) =~= bytes.subrange(24, 28));
    assert(head.subrange(28, end) =~= bytes.subrange(28, end));
    assert(bytes.skip(28) =~= recipe + payload);
    assert(bytes.take(24) + recipe + payload =~= bytes.take(24) + bytes.skip(28));
}

/// Corruption of any single byte of the checksum, the recipe or the payload is reported as
/// a checksum error.
pub proof fn a_changed_byte_is_a_checksum_error(
    magic: Seq<u8>,
    version: u32,
    segment_id: u64,
    recipe: Seq<u8>,
    payload: Seq<u8>,
    bytes: Seq<u8>,
    at: int,
    result: PersistenceResult<&[u8]>,
)
    requires
        magic.len() == 8,
        recipe.len() <= u32::MAX,
        28 + recipe.len() + payload.len() <= isize::MAX,
        at >= 24,
        crate::crc::differ_at(
            enveloped(magic, version, segment_id, recipe, payload),
            bytes,
            at,
        ),
        decodes(magic, version, segment_id, recipe, bytes, result),
    ensures
        result matches Err(PersistenceError::CrcMismatch { expected, actual }) && expected
            == header_crc(bytes) && actual == crate::crc::crc32(bytes.take(24) + bytes.skip(28)),
{
    let good = enveloped(magic, version, segment_id, recipe, payload);
    enveloped_fields(magic, version, segment_id, recipe, payload);
    assert(bytes.take(8) =~= good.take(8));
    assert(bytes.subrange(8, 12) =~= good.subrange(8, 12));
    assert(bytes.subrange(12, 20) =~= good.subrange(12, 20));
    assert(bytes.subrange(20, 24) =~= good.subrange(20, 24));
    assert(bytes.take(24) =~= good.take(24));
    crate::bytes::le_bytes_of_value(good.subrange(24, 28));
    crate::bytes::le_bytes_of_value(bytes.subrange(24, 28));
    crate::bytes::byte_range_bounds(4);
    crate::bytes::le_value_in_range(bytes.subrange(24, 28));
    let covered = good.take(24) + good.skip(28);
    let covered_found = bytes.take(24) + bytes.skip(28);
    if at < 28 {
        assert(bytes.skip(28) =~= good.skip(28));
        assert(good.subrange(24, 28)[at - 24] != bytes.subrange(24, 28)[at - 24]);
        assert(header_crc(bytes) != header_crc(good));
    } else {
        assert(bytes.subrange(24, 28) =~= good.subrange(24, 28));
        assert(crate::crc::differ_at(covered, covered_found, at - 4));
        crate::crc::crc32_tells_a_changed_byte(covered, covered_found, at - 4);
    }
}

/// What is too short for its header, or for the recipe that the header announces, is
/// truncated.
pub proof fn short_envelopes_are_truncated(
    magic: Seq<u8>,
    version: u32,
    segment_id: u64,
    recipe: Seq<u8>,
    payload: Seq<u8>,
    n: int,
    result: PersistenceResult<&[u8]>,
)
    requires
        magic.len() == 8,
        recipe.len() <= u32::MAX,
        28 + recipe.len() + payload.len() <= isize::MAX,
        0 <= n < 28 + recipe.len(),
        decodes(
            magic,
            version,
            segment_id,
            recipe,
            enveloped(magic, version, segment_id, recipe, payload).take(n),
            result,
        ),
    ensures
        n < 28 ==> (result matches Err(PersistenceError::Format(m)) && m@
            == "sidecar envelope header is truncated"@),
        n >= 28 ==> (result matches Err(PersistenceError::Format(m)) && m@
            == "sidecar envelope recipe is truncated"@),
{
    let bytes = enveloped(magic, version, segment_id, recipe, payload);
    let head = bytes.take(n);
    enveloped_fields(magic, version, segment_id, recipe, payload);
    if n >= 28 {
        assert(head.take(8) =~= bytes.take(8));
        assert(head.subrange(8, 12) =~= bytes.subrange(8, 12));
        assert(head.subrange(12, 20) =~= bytes.subrange(12, 20));
        assert(head.subrange(20, 24) =~= bytes.subrange(20, 24));
    }
}

} // verus!
