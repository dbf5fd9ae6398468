//! Little-endian integer decoding.

use vstd::prelude::*;

verus! {

/// The number whose little-endian bytes are `b[i..i + n]`: the first byte
/// is the lowest.
pub open spec fn bytes_le(b: Seq<u8>, i: int, n: int) -> int
    decreases n,
{
    if n <= 0 {
        0
    } else {
        b[i] as int + 256 * bytes_le(b, i + 1, n - 1)
    }
}

/// Fields of `sizes[k]` bytes placed at `offs[k]` follow one another with
/// no gap from `first` on and end at `end`.
pub open spec fn back_to_back(offs: Seq<int>, sizes: Seq<int>, first: int, end: int) -> bool {
    &&& offs.len() == sizes.len()
    &&& offs.len() > 0
    &&& offs[0] == first
    &&& forall|k: int| 0 <= k < offs.len() - 1 ==> #[trigger] offs[k + 1] == offs[k] + sizes[k]
    &&& offs.last() + sizes.last() == end
}

/// The little-endian 16-bit value of `b[i..i + 2]`.
pub open spec fn le16(b: Seq<u8>, i: int) -> int {
    b[i] as int + 256 * b[i + 1] as int
}

/// The little-endian 32-bit value of `b[i..i + 4]`.
pub open spec fn le32(b: Seq<u8>, i: int) -> int {
    le16(b, i) + 65536 * le16(b, i + 2)
}

/// The little-endian 64-bit value of `b[i..i + 8]`.
pub open spec fn le64(b: Seq<u8>, i: int) -> int {
    le32(b, i) + 4294967296 * le32(b, i + 4)
}

/// The little-endian 16-bit value of `b[off..off + 2]`.
pub fn read_u16(b: &[u8], off: usize) -> (r: u16)
    requires
        off + 2 <= b@.len(),
    ensures
        r == le16(b@, off as int),
{
    (b[off] as u16) + (b[off + 1] as u16) * 256
}

/// The little-endian 32-bit value of `b[off..off + 4]`.
pub fn read_u32(b: &[u8], off: usize) -> (r: u32)
    requires
        off + 4 <= b@.len(),
    ensures
        r == le32(b@, off as int),
{
    let n = b.len();
    assert(off + 4 <= n);
    let lo = read_u16(b, off);
    let hi = read_u16(b, off + 2);
    (lo as u32) + (hi as u32) * 65536
}

/// The little-endian 64-bit value of `b[off..off + 8]`.
pub fn read_u64(b: &[u8], off: usize) -> (r: u64)
    requires
        off + 8 <= b@.len(),
    ensures
        r == le64(b@, off as int),
{
    let n = b.len();
    assert(off + 8 <= n);
    let lo = read_u32(b, off);
    let hi = read_u32(b, off + 4);
    (lo as u64) + (hi as u64) * 4294967296
}

/// The little-endian value of the first two bytes.
pub fn bytes_to_u16(bytes: &[u8]) -> (r: u16)
    requires
        bytes@.len() >= 2,
    ensures
        r == le16(bytes@, 0),
{
    read_u16(bytes, 0)
}

/// The little-endian value of the first four bytes.
pub fn bytes_to_u32(bytes: &[u8]) -> (r: u32)
    requires
        bytes@.len() >= 4,
    ensures
        r == le32(bytes@, 0),
{
    read_u32(bytes, 0)
}

/// The little-endian value of the first eight bytes.
pub fn bytes_to_u64(bytes: &[u8]) -> (r: u64)
    requires
        bytes@.len() >= 8,
    ensures
        r == le64(bytes@, 0),
{
    read_u64(bytes, 0)
}

} // verus!
