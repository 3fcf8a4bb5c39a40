//! Numbers and identifiers in network byte order.

use vstd::prelude::*;

verus! {

/// Two bytes, the high one first.
pub open spec fn be16(value: u16) -> Seq<u8> {
    seq![(value / 256) as u8, (value % 256) as u8]
}

/// Four bytes, the highest first.
pub open spec fn be32(value: u32) -> Seq<u8> {
    be16((value / 65536) as u16) + be16((value % 65536) as u16)
}

/// Eight bytes, the highest first.
pub open spec fn be64(value: u64) -> Seq<u8> {
    be32((value / 4294967296) as u32) + be32((value % 4294967296) as u32)
}

/// The number that the two bytes at `at` make.
pub open spec fn u16_at(bytes: Seq<u8>, at: int) -> u16 {
    (bytes[at] * 256 + bytes[at + 1]) as u16
}

/// The number that the four bytes at `at` make.
pub open spec fn u32_at(bytes: Seq<u8>, at: int) -> u32 {
    (u16_at(bytes, at) * 65536 + u16_at(bytes, at + 2)) as u32
}

/// The number that the eight bytes at `at` make.
pub open spec fn u64_at(bytes: Seq<u8>, at: int) -> u64 {
    (u32_at(bytes, at) * 4294967296 + u32_at(bytes, at + 4)) as u64
}

/// The number that the four bytes at `at` make in two's complement.
pub open spec fn i32_at(bytes: Seq<u8>, at: int) -> i32 {
    if u32_at(bytes, at) < 0x8000_0000 {
        u32_at(bytes, at) as i32
    } else {
        (u32_at(bytes, at) - 0x1_0000_0000) as i32
    }
}

/// The identifier that the 20 bytes at `at` make.
pub open spec fn identifier_at(bytes: Seq<u8>, at: int) -> [u8; 20] {
    [
        bytes[at],
        bytes[at + 1],
        bytes[at + 2],
        bytes[at + 3],
        bytes[at + 4],
        bytes[at + 5],
        bytes[at + 6],
        bytes[at + 7],
        bytes[at + 8],
        bytes[at + 9],
        bytes[at + 10],
        bytes[at + 11],
        bytes[at + 12],
        bytes[at + 13],
        bytes[at + 14],
        bytes[at + 15],
        bytes[at + 16],
        bytes[at + 17],
        bytes[at + 18],
        bytes[at + 19],
    ]
}

/// Whether `count` bytes stand at `offset`.
fn reaches(packet: &[u8], offset: usize, count: usize) -> (result: bool)
    ensures
        result == (offset + count <= packet@.len()),
        packet@.len() <= usize::MAX,
{
    offset <= packet.len() && packet.len() - offset >= count
}

/// Reads two bytes.
pub fn read_u16(packet: &[u8], offset: usize) -> (result: Option<u16>)
    ensures
        result == (if offset + 2 <= packet@.len() {
            Some(u16_at(packet@, offset as int))
        } else {
            None
        }),
{
    if !reaches(packet, offset, 2) {
        return None;
    }
    Some(packet[offset] as u16 * 256 + packet[offset + 1] as u16)
}

/// Reads four bytes.
pub fn read_u32(packet: &[u8], offset: usize) -> (result: Option<u32>)
    ensures
        result == (if offset + 4 <= packet@.len() {
            Some(u32_at(packet@, offset as int))
        } else {
            None
        }),
{
    if !reaches(packet, offset, 4) {
        return None;
    }
    let high: u32 = packet[offset] as u32 * 256 + packet[offset + 1] as u32;
    let low: u32 = packet[offset + 2] as u32 * 256 + packet[offset + 3] as u32;
    Some(high * 65536 + low)
}

/// Reads four bytes in two's complement.
pub fn read_i32(packet: &[u8], offset: usize) -> (result: Option<i32>)
    ensures
        result == (if offset + 4 <= packet@.len() {
            Some(i32_at(packet@, offset as int))
        } else {
            None
        }),
{
    match read_u32(packet, offset) {
        Some(value) => if value < 0x8000_0000 {
            Some(value as i32)
        } else {
            Some((value as i64 - 0x1_0000_0000) as i32)
        },
        None => None,
    }
}

/// Reads eight bytes.
pub fn read_u64(packet: &[u8], offset: usize) -> (result: Option<u64>)
    ensures
        result == (if offset + 8 <= packet@.len() {
            Some(u64_at(packet@, offset as int))
        } else {
            None
        }),
{
    if !reaches(packet, offset, 8) {
        return None;
    }
    match (read_u32(packet, offset), read_u32(packet, offset + 4)) {
        (Some(high), Some(low)) => Some(high as u64 * 4294967296 + low as u64),
        _ => None,
    }
}

/// Reads 20 bytes.
pub fn slice_array(packet: &[u8], offset: usize) -> (result: Option<[u8; 20]>)
    ensures
        result == (if offset + 20 <= packet@.len() {
            Some(identifier_at(packet@, offset as int))
        } else {
            None
        }),
        result matches Some(bytes) ==> bytes@ == packet@.subrange(offset as int, offset + 20),
{
    if !reaches(packet, offset, 20) {
        return None;
    }
    let mut bytes: [u8; 20] = [0; 20];
    let mut index: usize = 0;
    while index < 20
        invariant
            0 <= index <= 20,
            offset + 20 <= packet@.len() <= usize::MAX,
            forall|i: int| 0 <= i < index ==> bytes@[i] == packet@[offset + i],
        decreases 20 - index,
    {
        bytes[index] = packet[offset + index];
        index = index + 1;
    }
    assert(bytes =~= identifier_at(packet@, offset as int));
    assert(bytes@ =~= packet@.subrange(offset as int, offset + 20));
    Some(bytes)
}

/// Appends two bytes.
pub fn push_u16(output: &mut Vec<u8>, value: u16)
    ensures
        final(output)@ == old(output)@ + be16(value),
{
    output.push((value / 256) as u8);
    output.push((value % 256) as u8);
    assert(final(output)@ =~= old(output)@ + be16(value));
}

/// Appends four bytes.
pub fn push_u32(output: &mut Vec<u8>, value: u32)
    ensures
        final(output)@ == old(output)@ + be32(value),
{
    push_u16(output, (value / 65536) as u16);
    push_u16(output, (value % 65536) as u16);
    assert(final(output)@ =~= old(output)@ + be32(value));
}

/// Appends eight bytes.
pub fn push_u64(output: &mut Vec<u8>, value: u64)
    ensures
        final(output)@ == old(output)@ + be64(value),
{
    push_u32(output, (value / 4294967296) as u32);
    push_u32(output, (value % 4294967296) as u32);
    assert(final(output)@ =~= old(output)@ + be64(value));
}

/// Numbers stand with their highest byte first, signed ones in two's complement,
/// and identifiers byte by byte.
pub proof fn law_numbers_are_big_endian(bytes: Seq<u8>, at: int)
    ensures
        u16_at(bytes, at) == 256 * bytes[at] + bytes[at + 1],
        u32_at(bytes, at) == 16777216 * bytes[at] + 65536 * bytes[at + 1] + 256 * bytes[at + 2]
            + bytes[at + 3],
        u64_at(bytes, at) == 4294967296 * (16777216 * bytes[at] + 65536 * bytes[at + 1] + 256
            * bytes[at + 2] + bytes[at + 3]) + 16777216 * bytes[at + 4] + 65536 * bytes[at + 5]
            + 256 * bytes[at + 6] + bytes[at + 7],
        bytes[at] < 128 ==> i32_at(bytes, at) == u32_at(bytes, at),
        bytes[at] >= 128 ==> i32_at(bytes, at) == u32_at(bytes, at) - 4294967296,
        0 <= at && at + 20 <= bytes.len() ==> identifier_at(bytes, at)@ == bytes.subrange(
            at,
            at + 20,
        ),
{
    if 0 <= at && at + 20 <= bytes.len() {
        assert(identifier_at(bytes, at)@ =~= bytes.subrange(at, at + 20));
    }
}

/// The bytes of a number are its digits to the base of 256, the highest first.
pub proof fn law_number_bytes(small: u16, middle: u32, large: u64)
    ensures
        be16(small) == seq![(small / 256) as u8, (small % 256) as u8],
        be32(middle) == seq![
            (middle / 16777216) as u8,
            (middle / 65536 % 256) as u8,
            (middle / 256 % 256) as u8,
            (middle % 256) as u8,
        ],
        be64(large) == be32((large / 4294967296) as u32) + be32((large % 4294967296) as u32),
{
    let bytes = be32(middle);
    assert(middle % 65536 / 256 == middle / 256 % 256);
    assert(middle % 65536 % 256 == middle % 256);
    assert(middle / 65536 / 256 == middle / 16777216);
    assert(bytes =~= seq![
        (middle / 16777216) as u8,
        (middle / 65536 % 256) as u8,
        (middle / 256 % 256) as u8,
        (middle % 256) as u8,
    ]);
}

/// Numbers are read back as they were written, wherever they stand.
pub proof fn law_numbers_are_read_back(before: Seq<u8>, small: u16, middle: u32, large: u64)
    ensures
        u16_at(before + be16(small), before.len() as int) == small,
        u32_at(before + be32(middle), before.len() as int) == middle,
        u64_at(before + be64(large), before.len() as int) == large,
{
    let at = before.len() as int;
    let a = before + be16(small);
    assert(a[at] == (small / 256) as u8 && a[at + 1] == (small % 256) as u8);
    let b = before + be32(middle);
    lemma_u32_at(b, at, middle);
    let c = before + be64(large);
    let high = (large / 4294967296) as u32;
    let low = (large % 4294967296) as u32;
    assert forall|i: int| 0 <= i < 4 implies c[at + i] == be32(high)[i] by {}
    assert forall|i: int| 0 <= i < 4 implies c[at + 4 + i] == be32(low)[i] by {}
    lemma_u32_at(c, at, high);
    lemma_u32_at(c, at + 4, low);
}

proof fn lemma_u32_at(bytes: Seq<u8>, at: int, value: u32)
    requires
        forall|i: int| 0 <= i < 4 ==> bytes[at + i] == be32(value)[i],
    ensures
        u32_at(bytes, at) == value,
{
    let high = (value / 65536) as u16;
    let low = (value % 65536) as u16;
    assert(bytes[at + 0] == be32(value)[0] && bytes[at + 1] == be32(value)[1]);
    assert(bytes[at + 2] == be32(value)[2] && bytes[at + 3] == be32(value)[3]);
    assert(be32(value)[0] == (high / 256) as u8 && be32(value)[1] == (high % 256) as u8);
    assert(be32(value)[2] == (low / 256) as u8 && be32(value)[3] == (low % 256) as u8);
    assert(u16_at(bytes, at) == high);
    assert(u16_at(bytes, at + 2) == low);
}

} // verus!
