//! Little-endian integers inside byte strings.

use vstd::prelude::*;

verus! {

/// The two bytes of `v`, least significant first.
pub open spec fn u16_le(v: u16) -> Seq<u8> {
    seq![(v % 256) as u8, (v / 256) as u8]
}

/// The 16-bit integer stored least significant byte first at `offset`.
pub open spec fn u16_at(data: Seq<u8>, offset: int) -> int {
    data[offset] + 256 * data[offset + 1]
}

/// The 32-bit integer stored least significant byte first at `offset`.
pub open spec fn u32_at(data: Seq<u8>, offset: int) -> int {
    u16_at(data, offset) + 65536 * u16_at(data, offset + 2)
}

/// Reads the 16-bit little-endian integer at `offset`.
pub fn read_u16_le(data: &[u8], offset: usize) -> (v: u16)
    requires
        offset + 2 <= data@.len(),
    ensures
        v == u16_at(data@, offset as int),
        v == data@[offset as int] + 256 * data@[offset + 1],
{
    data[offset] as u16 + data[offset + 1] as u16 * 256
}

/// Reads the 32-bit little-endian integer at `offset`.
pub fn read_u32_le(data: &[u8], offset: usize) -> (v: u32)
    requires
        offset + 4 <= data@.len(),
    ensures
        v == u32_at(data@, offset as int),
        v == data@[offset as int] + 256 * data@[offset + 1] + 65536 * data@[offset + 2] + 16777216
            * data@[offset + 3],
{
    assert(data.len() == data@.len());
    let low: u16 = read_u16_le(data, offset);
    let high: u16 = read_u16_le(data, offset + 2);
    low as u32 + high as u32 * 65536
}

/// Appends the two bytes of `v`, least significant first.
pub fn push_u16_le(out: &mut Vec<u8>, v: u16)
    ensures
        final(out)@ == old(out)@ + u16_le(v),
        final(out)@ == old(out)@.push((v % 256) as u8).push((v / 256) as u8),
{
    out.push((v % 256) as u8);
    out.push((v / 256) as u8);
    assert(out@ =~= old(out)@ + u16_le(v));
}

/// Reading back a 16-bit integer gives what was written.
pub proof fn law_u16_le_read_back(prefix: Seq<u8>, v: u16, suffix: Seq<u8>)
    ensures
        u16_at(prefix + u16_le(v) + suffix, prefix.len() as int) == v,
{
    let data = prefix + u16_le(v) + suffix;
    assert(data[prefix.len() as int] == (v % 256) as u8);
    assert(data[prefix.len() as int + 1] == (v / 256) as u8);
}

/// The bytes of a number weigh 256 times as much from one to the next, the first the least.
pub proof fn law_little_endian(data: Seq<u8>, offset: int, v: u16)
    ensures
        u16_at(data, offset) == data[offset] + 256 * data[offset + 1],
        u32_at(data, offset) == data[offset] + 256 * data[offset + 1] + 65536 * data[offset + 2]
            + 16777216 * data[offset + 3],
        u16_le(v).len() == 2,
        u16_le(v)[0] + 256 * u16_le(v)[1] == v,
{
}

} // verus!
