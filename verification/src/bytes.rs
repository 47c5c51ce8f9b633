//! Big-endian reads from byte buffers, with total (non-panicking) semantics.

use vstd::prelude::*;

verus! {

/// The 16-bit big-endian value at `o`, if the two bytes lie inside `b`.
pub open spec fn be16_at(b: Seq<u8>, o: int) -> Option<u16> {
    if 0 <= o && o + 2 <= b.len() {
        Some((b[o] as int * 256 + b[o + 1] as int) as u16)
    } else {
        None
    }
}

/// The 32-bit big-endian value at `o`, if the four bytes lie inside `b`.
pub open spec fn be32_at(b: Seq<u8>, o: int) -> Option<u32> {
    if 0 <= o && o + 4 <= b.len() {
        Some(
            (b[o] as int * 0x1000000 + b[o + 1] as int * 0x10000 + b[o + 2] as int * 0x100
                + b[o + 3] as int) as u32,
        )
    } else {
        None
    }
}

/// Reads a big-endian `u16` at offset `o`; `None` when it does not fit.
pub fn be16(b: &[u8], o: usize) -> (r: Option<u16>)
    ensures
        r == be16_at(b@, o as int),
{
    if o <= b.len() && b.len() - o >= 2 {
        let hi = b[o] as u16;
        let lo = b[o + 1] as u16;
        Some(hi * 256 + lo)
    } else {
        None
    }
}

/// Reads a big-endian `u32` at offset `o`; `None` when it does not fit.
pub fn be32(b: &[u8], o: usize) -> (r: Option<u32>)
    ensures
        r == be32_at(b@, o as int),
{
    if o <= b.len() && b.len() - o >= 4 {
        let b0 = b[o] as u32;
        let b1 = b[o + 1] as u32;
        let b2 = b[o + 2] as u32;
        let b3 = b[o + 3] as u32;
        Some(b0 * 0x1000000 + b1 * 0x10000 + b2 * 0x100 + b3)
    } else {
        None
    }
}

} // verus!
