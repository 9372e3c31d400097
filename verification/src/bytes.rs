//! Little-endian numbers and slices of bytes.

use vstd::prelude::*;

verus! {

/// The number that bytes stand for, least significant first.
pub open spec fn le_value(bytes: Seq<u8>) -> nat
    decreases bytes.len(),
{
    if bytes.len() == 0 {
        0
    } else {
        bytes[0] as nat + 256 * le_value(bytes.skip(1))
    }
}

/// The `n` bytes of a number, least significant first.
pub open spec fn le_bytes(value: nat, n: nat) -> Seq<u8>
    decreases n,
{
    if n == 0 {
        Seq::empty()
    } else {
        seq![(value % 256) as u8] + le_bytes(value / 256, (n - 1) as nat)
    }
}

/// How many values `n` bytes can take.
pub open spec fn byte_range(n: nat) -> nat
    decreases n,
{
    if n == 0 {
        1
    } else {
        256 * byte_range((n - 1) as nat)
    }
}

/// Four bytes hold 32 bits and eight bytes hold 64, and no fewer bytes hold more.
pub proof fn byte_range_bounds(n: nat)
    requires
        n <= 8,
    ensures
        byte_range(4) == 0x1_0000_0000,
        byte_range(8) == 0x1_0000_0000_0000_0000,
        byte_range(n) <= 0x1_0000_0000_0000_0000,
        n <= 4 ==> byte_range(n) <= 0x1_0000_0000,
{
    reveal_with_fuel(byte_range, 9);
}

/// Bytes stand for a number in their range.
pub proof fn le_value_in_range(bytes: Seq<u8>)
    ensures
        le_value(bytes) < byte_range(bytes.len()),
    decreases bytes.len(),
{
    if bytes.len() > 0 {
        le_value_in_range(bytes.skip(1));
    }
}

/// The bytes of a number that fits them stand for it.
pub proof fn le_value_of_bytes(value: nat, n: nat)
    requires
        value < byte_range(n),
    ensures
        le_bytes(value, n).len() == n,
        le_value(le_bytes(value, n)) == value,
    decreases n,
{
    if n > 0 {
        le_value_of_bytes(value / 256, (n - 1) as nat);
        assert(le_bytes(value, n).skip(1) =~= le_bytes(value / 256, (n - 1) as nat));
    }
}

/// Bytes are those of the number that they stand for.
pub proof fn le_bytes_of_value(bytes: Seq<u8>)
    ensures
        le_bytes(le_value(bytes), bytes.len()) == bytes,
    decreases bytes.len(),
{
    if bytes.len() > 0 {
        let rest = bytes.skip(1);
        le_bytes_of_value(rest);
        assert(le_value(bytes) / 256 == le_value(rest));
        assert(le_bytes(le_value(bytes), bytes.len()) =~= bytes);
    } else {
        assert(bytes =~= Seq::empty());
    }
}

/// What four and eight bytes stand for, written out.
pub proof fn numbers_are_little_endian(four: Seq<u8>, eight: Seq<u8>)
    requires
        four.len() == 4,
        eight.len() == 8,
    ensures
        le_value(four) == four[0] + four[1] * 0x100 + four[2] * 0x1_0000 + four[3] * 0x100_0000,
        le_value(eight) == eight[0] + eight[1] * 0x100 + eight[2] * 0x1_0000 + eight[3]
            * 0x100_0000 + eight[4] * 0x1_0000_0000 + eight[5] * 0x100_0000_0000 + eight[6]
            * 0x1_0000_0000_0000 + eight[7] * 0x100_0000_0000_0000,
{
    le_value_by_bytes(four);
    le_value_by_bytes(eight);
}

/// Up to eight bytes, one after the other.
proof fn le_value_by_bytes(bytes: Seq<u8>)
    requires
        bytes.len() == 4 || bytes.len() == 8,
    ensures
        bytes.len() == 4 ==> le_value(bytes) == bytes[0] + 256 * (bytes[1] + 256 * (bytes[2] + 256
            * bytes[3])),
        bytes.len() == 8 ==> le_value(bytes) == bytes[0] + 256 * (bytes[1] + 256 * (bytes[2] + 256
            * (bytes[3] + 256 * (bytes[4] + 256 * (bytes[5] + 256 * (bytes[6] + 256
            * bytes[7])))))),
{
    reveal_with_fuel(le_value, 9);
    let b1 = bytes.skip(1);
    let b2 = b1.skip(1);
    let b3 = b2.skip(1);
    let b4 = b3.skip(1);
    assert(b1[0] == bytes[1] && b2[0] == bytes[2] && b3[0] == bytes[3]);
    if bytes.len() == 8 {
        let b5 = b4.skip(1);
        let b6 = b5.skip(1);
        let b7 = b6.skip(1);
        assert(b4[0] == bytes[4] && b5[0] == bytes[5] && b6[0] == bytes[6] && b7[0] == bytes[7]);
        assert(b7.skip(1).len() == 0);
    } else {
        assert(b4.len() == 0);
    }
}

/// The number in the `n` bytes at `at`.
fn read_le(bytes: &[u8], at: usize, n: usize) -> (value: u64)
    requires
        n <= 8,
        at + n <= bytes@.len(),
    ensures
        value == le_value(bytes@.subrange(at as int, at + n)),
        value < byte_range(n as nat),
{
    let mut value: u64 = 0;
    let mut k: usize = n;
    while k > 0
        invariant
            k <= n <= 8,
            at + n <= bytes@.len(),
            value == le_value(bytes@.subrange(at + k, at + n)),
            value < byte_range((n - k) as nat),
        decreases k,
    {
        let ghost part = bytes@.subrange(at + k - 1, at + n);
        proof {
            assert(part.skip(1) =~= bytes@.subrange(at + k, at + n));
            assert(bytes.len() == bytes@.len());
            byte_range_bounds((n - k + 1) as nat);
            byte_range_bounds((n - k) as nat);
        }
        k -= 1;
        value = value * 256 + bytes[at + k] as u64;
    }
    value
}

/// The 32-bit number in the four bytes at `at`.
pub(crate) fn read_u32(bytes: &[u8], at: usize) -> (value: u32)
    requires
        at + 4 <= bytes@.len(),
    ensures
        value == le_value(bytes@.subrange(at as int, at + 4)),
{
    let value = read_le(bytes, at, 4);
    proof {
        byte_range_bounds(4);
    }
    value as u32
}

/// The 64-bit number in the eight bytes at `at`.
pub(crate) fn read_u64(bytes: &[u8], at: usize) -> (value: u64)
    requires
        at + 8 <= bytes@.len(),
    ensures
        value == le_value(bytes@.subrange(at as int, at + 8)),
{
    read_le(bytes, at, 8)
}

/// Appends the `n` lowest bytes of a number.
pub(crate) fn push_le(bytes: &mut Vec<u8>, value: u64, n: usize)
    ensures
        final(bytes)@ == old(bytes)@ + le_bytes(value as nat, n as nat),
{
    let mut rest: u64 = value;
    let mut k: usize = 0;
    assert(bytes@ + le_bytes(rest as nat, n as nat) =~= old(bytes)@ + le_bytes(
        value as nat,
        n as nat,
    ));
    while k < n
        invariant
            k <= n,
            bytes@ + le_bytes(rest as nat, (n - k) as nat) == old(bytes)@ + le_bytes(
                value as nat,
                n as nat,
            ),
        decreases n - k,
    {
        let ghost before = bytes@;
        let low: u8 = (rest % 256) as u8;
        bytes.push(low);
        proof {
            assert(before + le_bytes(rest as nat, (n - k) as nat) =~= bytes@ + le_bytes(
                (rest / 256) as nat,
                (n - k - 1) as nat,
            ));
        }
        rest = rest / 256;
        k += 1;
    }
    assert(bytes@ =~= old(bytes)@ + le_bytes(value as nat, n as nat));
}

/// Whether the bytes at `at` are the expected ones.
pub(crate) fn same_bytes(bytes: &[u8], at: usize, expected: &[u8]) -> (same: bool)
    requires
        at + expected@.len() <= bytes@.len(),
    ensures
        same == (bytes@.subrange(at as int, at + expected@.len()) == expected@),
{
    let ghost found = bytes@.subrange(at as int, at + expected@.len());
    let mut i: usize = 0;
    while i < expected.len()
        invariant
            i <= expected@.len(),
            at + expected@.len() <= bytes@.len(),
            found == bytes@.subrange(at as int, at + expected@.len()),
            forall|k: int| 0 <= k < i ==> #[trigger] found[k] == expected@[k],
        decreases expected@.len() - i,
    {
        assert(found[i as int] == bytes@[at + i]);
        assert(bytes.len() == bytes@.len());
        if bytes[at + i] != expected[i] {
            return false;
        }
        i += 1;
    }
    assert(found =~= expected@);
    true
}

} // verus!
