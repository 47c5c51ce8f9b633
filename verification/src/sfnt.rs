//! The sfnt table directory: reading table records, and the byte encodings
//! of big-endian integers used when a directory is written back.

use vstd::prelude::*;
use crate::bytes::{be16, be16_at, be32, be32_at};

verus! {

/// One entry of an sfnt table directory, as the catalog reads it: the tag
/// as a big-endian `u32`, the checksum, and the table's byte range (its
/// length clamped to the end of the buffer).
#[derive(Clone, Copy, Debug, PartialEq, Eq)]
pub struct TableRecord {
    pub tag: u32,
    pub checksum: u32,
    pub offset: usize,
    pub length: usize,
}

/// The at most 64 directory entries that are read for a face.
pub open spec fn record_limit(num_tables: u16) -> int {
    if num_tables < 64 {
        num_tables as int
    } else {
        64
    }
}

/// Byte position of directory entry `i` of the face at `off`.
pub open spec fn record_pos(off: int, i: int) -> int {
    off + 12 + 16 * i
}

/// Directory entry `i`, unless its 16 bytes run past the buffer.  An entry
/// whose table starts at or after the end of the buffer is skipped
/// (`Some(None)`).
pub open spec fn record_spec(b: Seq<u8>, off: int, i: int) -> Option<Option<TableRecord>> {
    let r = record_pos(off, i);
    match (be32_at(b, r), be32_at(b, r + 4), be32_at(b, r + 8), be32_at(b, r + 12)) {
        (Some(tag), Some(csum), Some(toff), Some(tlen)) => if toff >= b.len() {
            Some(None)
        } else {
            Some(
                Some(
                    TableRecord {
                        tag,
                        checksum: csum,
                        offset: toff as usize,
                        length: (if tlen <= b.len() - toff {
                            tlen as int
                        } else {
                            b.len() - toff
                        }) as usize,
                    },
                ),
            )
        },
        _ => None,
    }
}

/// The kept entries among the first `k` directory entries, or `None` when
/// one of them cannot be read.
pub open spec fn records_upto(b: Seq<u8>, off: int, k: nat) -> Option<Seq<TableRecord>>
    decreases k,
{
    if k == 0 {
        Some(seq![])
    } else {
        match records_upto(b, off, (k - 1) as nat) {
            None => None,
            Some(rs) => match record_spec(b, off, k - 1) {
                None => None,
                Some(None) => Some(rs),
                Some(Some(rec)) => Some(rs.push(rec)),
            },
        }
    }
}

/// The table directory of the face whose offset table starts at `off`.
pub open spec fn table_records_spec(b: Seq<u8>, off: int) -> Option<Seq<TableRecord>> {
    match be16_at(b, off + 4) {
        None => None,
        Some(n) => records_upto(b, off, record_limit(n) as nat),
    }
}

/// Every kept record names a byte range inside the buffer.
pub open spec fn records_in_bounds(b: Seq<u8>, rs: Seq<TableRecord>) -> bool {
    forall|k: int|
        0 <= k < rs.len() ==> (#[trigger] rs[k]).offset < b.len() && rs[k].offset
            + rs[k].length <= b.len() && rs[k].length <= u32::MAX
}

pub proof fn lemma_records_upto_bounds(b: Seq<u8>, off: int, k: nat)
    ensures
        records_upto(b, off, k) matches Some(rs) ==> records_in_bounds(b, rs) && rs.len() <= k,
    decreases k,
{
    if k > 0 {
        lemma_records_upto_bounds(b, off, (k - 1) as nat);
    }
}

/// `be32_at(b, base + delta)`, computed without overflowing `usize`.
pub fn be32_plus(b: &[u8], base: usize, delta: usize) -> (r: Option<u32>)
    ensures
        r == be32_at(b@, base + delta),
{
    let n = b.len();
    match base.checked_add(delta) {
        Some(o) => be32(b, o),
        None => None,
    }
}

/// `be16_at(b, base + delta)`, computed without overflowing `usize`.
pub fn be16_plus(b: &[u8], base: usize, delta: usize) -> (r: Option<u16>)
    ensures
        r == be16_at(b@, base + delta),
{
    let n = b.len();
    match base.checked_add(delta) {
        Some(o) => be16(b, o),
        None => None,
    }
}

/// Reads the table directory of the face at `off`: the first
/// `min(numTables, 64)` entries, dropping those whose table starts past the
/// end of the buffer and clamping lengths to it.  `None` when `numTables`
/// or one of those entries cannot be read.
pub fn table_records(b: &[u8], off: usize) -> (r: Option<Vec<TableRecord>>)
    ensures
        r is Some == table_records_spec(b@, off as int) is Some,
        r is Some ==> r->0@ == table_records_spec(b@, off as int)->0,
{
    let n = match be16_plus(b, off, 4) {
        Some(n) => n,
        None => return None,
    };
    let count: usize = if n < 64 {
        n as usize
    } else {
        64
    };
    let len = b.len();
    let mut out: Vec<TableRecord> = Vec::new();
    let mut i: usize = 0;
    while i < count
        invariant
            i <= count == record_limit(n),
            len == b@.len(),
            be16_at(b@, off + 4) == Some(n),
            records_upto(b@, off as int, i as nat) == Some(out@),
        decreases count - i,
    {
        let d = 12 + 16 * i;
        let tag = match be32_plus(b, off, d) {
            Some(v) => v,
            None => return None,
        };
        let csum = match be32_plus(b, off, d + 4) {
            Some(v) => v,
            None => return None,
        };
        let toff = match be32_plus(b, off, d + 8) {
            Some(v) => v,
            None => return None,
        };
        let tlen = match be32_plus(b, off, d + 12) {
            Some(v) => v,
            None => return None,
        };
        assert(record_pos(off as int, i as int) == off + d);
        if (toff as usize) < len {
            let toff = toff as usize;
            let room = len - toff;
            let length = if (tlen as u64) <= (room as u64) {
                tlen as usize
            } else {
                room
            };
            out.push(TableRecord { tag, checksum: csum, offset: toff, length });
        }
        i = i + 1;
    }
    Some(out)
}

/// Big-endian bytes of a `u16`.
pub open spec fn u16_bytes(v: u16) -> Seq<u8> {
    seq![(v / 256) as u8, (v % 256) as u8]
}

/// Big-endian bytes of a `u32`.
pub open spec fn u32_bytes(v: u32) -> Seq<u8> {
    seq![(v / 0x1000000) as u8, (v / 0x10000 % 256) as u8, (v / 256 % 256) as u8, (v % 256) as u8]
}

/// Appends the big-endian bytes of `v`.
pub fn push_u16(out: &mut Vec<u8>, v: u16)
    ensures
        final(out)@ == old(out)@ + u16_bytes(v),
{
    out.push((v / 256) as u8);
    out.push((v % 256) as u8);
    assert(out@ =~= old(out)@ + u16_bytes(v));
}

/// Appends the big-endian bytes of `v`.
pub fn push_u32(out: &mut Vec<u8>, v: u32)
    ensures
        final(out)@ == old(out)@ + u32_bytes(v),
{
    out.push((v / 0x1000000) as u8);
    out.push((v / 0x10000 % 256) as u8);
    out.push((v / 256 % 256) as u8);
    out.push((v % 256) as u8);
    assert(out@ =~= old(out)@ + u32_bytes(v));
}

} // verus!
