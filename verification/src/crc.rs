//! Checksums.

use vstd::prelude::*;

verus! {

/// One bit of CRC-32 (IEEE 802.3, bits in reflected order): the lowest bit goes, and
/// takes the polynomial with it if it is set.
pub open spec fn crc_bit(c: u32) -> u32 {
    if c & 1 == 1 {
        (c >> 1) ^ 0xedb8_8320
    } else {
        c >> 1
    }
}

/// `n` bits of CRC-32.
pub open spec fn crc_bits(c: u32, n: nat) -> u32
    decreases n,
{
    if n == 0 {
        c
    } else {
        crc_bit(crc_bits(c, (n - 1) as nat))
    }
}

/// One byte more.
pub open spec fn crc_byte(c: u32, byte: u8) -> u32 {
    crc_bits(c ^ (byte as u32), 8)
}

/// The register after bytes, from all ones on.
pub open spec fn crc_register(bytes: Seq<u8>) -> u32
    decreases bytes.len(),
{
    if bytes.len() == 0 {
        0xffff_ffff
    } else {
        crc_byte(crc_register(bytes.drop_last()), bytes.last())
    }
}

/// The CRC-32 (IEEE 802.3) of a sequence of bytes.
pub open spec fn crc32(bytes: Seq<u8>) -> u32 {
    !crc_register(bytes)
}

/// `crc32fast::hash`: the CRC-32 (IEEE) of `bytes`.
#[verifier::external_body]
pub(crate) fn crc32_of(bytes: &[u8]) -> (checksum: u32)
    ensures
        checksum == crc32(bytes@),
{
    crc32fast::hash(bytes)
}

/// `crc32fast::Hasher`, which `crc32fast::hash` feeds its bytes to in one piece: fed
/// in two pieces, it computes the CRC-32 of the first followed by the second. It
/// counts the bytes it is fed in a `u64`, which must not overflow.
#[verifier::external_body]
pub(crate) fn crc32_of_both(head: &[u8], tail: &[u8]) -> (checksum: u32)
    requires
        head@.len() + tail@.len() <= u64::MAX,
    ensures
        checksum == crc32(head@ + tail@),
{
    let mut hasher = crc32fast::Hasher::new();
    hasher.update(head);
    hasher.update(tail);
    hasher.finalize()
}

/// A bit step loses nothing: the top bit of its outcome tells whether the polynomial
/// went in.
proof fn crc_bit_is_injective(a: u32, b: u32)
    requires
        crc_bit(a) == crc_bit(b),
    ensures
        a == b,
{
    assert(a == b) by (bit_vector)
        requires
            (if a & 1 == 1 {
                (a >> 1) ^ 0xedb8_8320u32
            } else {
                a >> 1
            }) == (if b & 1 == 1 {
                (b >> 1) ^ 0xedb8_8320u32
            } else {
                b >> 1
            }),
    ;
}

/// Nor do any number of bit steps.
proof fn crc_bits_are_injective(a: u32, b: u32, n: nat)
    requires
        crc_bits(a, n) == crc_bits(b, n),
    ensures
        a == b,
    decreases n,
{
    if n > 0 {
        crc_bit_is_injective(crc_bits(a, (n - 1) as nat), crc_bits(b, (n - 1) as nat));
        crc_bits_are_injective(a, b, (n - 1) as nat);
    }
}

/// Different registers stay different over the same byte, and the same register over
/// different bytes becomes different.
proof fn crc_byte_is_injective(a: u32, b: u32, x: u8, y: u8)
    requires
        crc_byte(a, x) == crc_byte(b, y),
    ensures
        x == y ==> a == b,
        a == b ==> x == y,
{
    crc_bits_are_injective(a ^ (x as u32), b ^ (y as u32), 8);
    assert(a ^ (x as u32) == b ^ (y as u32) && x == y ==> a == b) by (bit_vector);
    assert(a ^ (x as u32) == b ^ (y as u32) && a == b ==> x == y) by (bit_vector);
}

/// Two sequences of bytes differ in exactly one place.
pub open spec fn differ_at(a: Seq<u8>, b: Seq<u8>, at: int) -> bool {
    &&& a.len() == b.len()
    &&& 0 <= at < a.len()
    &&& a[at] != b[at]
    &&& forall|i: int| 0 <= i < a.len() && i != at ==> a[i] == b[i]
}

/// Registers over bytes that differ in one place differ.
proof fn crc_register_tells(a: Seq<u8>, b: Seq<u8>, at: int)
    requires
        differ_at(a, b, at),
    ensures
        crc_register(a) != crc_register(b),
    decreases a.len(),
{
    let head_a = a.drop_last();
    let head_b = b.drop_last();
    if at == a.len() - 1 {
        assert(head_a =~= head_b);
    } else {
        crc_register_tells(head_a, head_b, at);
    }
    if crc_register(a) == crc_register(b) {
        crc_byte_is_injective(crc_register(head_a), crc_register(head_b), a.last(), b.last());
    }
}

/// A checksum tells every change of a single byte.
pub proof fn crc32_tells_a_changed_byte(a: Seq<u8>, b: Seq<u8>, at: int)
    requires
        differ_at(a, b, at),
    ensures
        crc32(a) != crc32(b),
{
    crc_register_tells(a, b, at);
    let x = crc_register(a);
    let y = crc_register(b);
    assert(x != y ==> !x != !y) by (bit_vector);
}

} // verus!
