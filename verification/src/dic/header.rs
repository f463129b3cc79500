//! The fixed-size dictionary header.

use vstd::prelude::*;

verus! {

/// Number of bytes of the fixed header that every dictionary starts with:
/// an eight-byte magic number followed by eight reserved bytes.
pub const HEADER_SIZE: usize = 16;

/// A buffer carries a valid header when it is at least [`HEADER_SIZE`] bytes
/// long and starts with the magic number.
pub open spec fn header_ok(b: Seq<u8>) -> bool {
    &&& b.len() >= HEADER_SIZE
    &&& b[0] == 0x57u8
    &&& b[1] == 0x4bu8
    &&& b[2] == 0x44u8
    &&& b[3] == 0x49u8
    &&& b[4] == 0x43u8
    &&& b[5] == 0x54u8
    &&& b[6] == 0x00u8
    &&& b[7] == 0x01u8
}

/// Check the header of a dictionary buffer.
pub fn check_header(b: &[u8]) -> (r: bool)
    ensures
        r == header_ok(b@),
{
    b.len() >= HEADER_SIZE && b[0] == 0x57 && b[1] == 0x4b && b[2] == 0x44 && b[3] == 0x49
        && b[4] == 0x43 && b[5] == 0x54 && b[6] == 0x00 && b[7] == 0x01
}

} // verus!
