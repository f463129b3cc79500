//! Little-endian integer readers over a byte buffer.

use vstd::prelude::*;

verus! {

/// The integer encoded by two little-endian bytes at `p`.
pub open spec fn le16(b: Seq<u8>, p: int) -> int {
    b[p] + 256 * b[p + 1]
}

/// The integer encoded by four little-endian bytes at `p`.
pub open spec fn le32(b: Seq<u8>, p: int) -> int {
    b[p] + 256 * b[p + 1] + 65536 * b[p + 2] + 16777216 * b[p + 3]
}

pub fn read_u16(b: &[u8], p: usize) -> (r: u16)
    requires
        p + 2 <= b@.len(),
    ensures
        r == le16(b@, p as int),
{
    (b[p] as u16) + (b[p + 1] as u16) * 256
}

pub fn read_u32(b: &[u8], p: usize) -> (r: u32)
    requires
        p + 4 <= b@.len(),
    ensures
        r == le32(b@, p as int),
{
    (b[p] as u32) + (b[p + 1] as u32) * 256 + (b[p + 2] as u32) * 65536 + (b[p + 3] as u32)
        * 16777216
}

/// Costs are stored biased by 32768, so that the stored form is unsigned
/// while the decoded cost ranges over `-32768 ..= 32767`.
pub fn read_cost(b: &[u8], p: usize) -> (r: i32)
    requires
        p + 2 <= b@.len(),
    ensures
        r == le16(b@, p as int) - 32768,
        -32768 <= r <= 32767,
{
    (read_u16(b, p) as i32) - 32768
}

} // verus!
