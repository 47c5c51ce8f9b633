//! Repacking one face of a TrueType collection as a standalone sfnt: the
//! face's tables are copied as they are, each padded to four bytes, behind a
//! fresh offset table and directory whose offsets point at the copies.

use vstd::prelude::*;
use crate::sfnt::{
    TableRecord, table_records, table_records_spec, records_in_bounds, lemma_records_upto_bounds,
    u16_bytes, u32_bytes, push_u16, push_u32, records_upto, record_spec, record_limit,
};
use crate::bytes::{be16_at, be32_at};

verus! {

/// Number of zero bytes that pad `len` bytes up to a multiple of four.
pub open spec fn pad4(len: nat) -> nat {
    ((4 - len % 4) % 4) as nat
}

/// `s` followed by the zero bytes that make its length a multiple of four.
pub open spec fn padded(s: Seq<u8>) -> Seq<u8> {
    s + Seq::new(pad4(s.len()), |i: int| 0u8)
}

/// The bytes of a table inside the source buffer.
pub open spec fn table_bytes(b: Seq<u8>, r: TableRecord) -> Seq<u8> {
    b.subrange(r.offset as int, r.offset + r.length)
}

/// The table data area for the first `k` records: each table, padded.
#[verifier::opaque]
pub open spec fn data_upto(b: Seq<u8>, rs: Seq<TableRecord>, k: nat) -> Seq<u8>
    decreases k,
{
    if k == 0 {
        seq![]
    } else {
        data_upto(b, rs, (k - 1) as nat) + padded(table_bytes(b, rs[k - 1]))
    }
}

/// `2^e`.
pub open spec fn pow2(e: nat) -> nat
    decreases e,
{
    if e == 0 {
        1
    } else {
        2 * pow2((e - 1) as nat)
    }
}

/// The largest `e` with `2^e <= n` (0 for `n <= 1`).
pub open spec fn floor_log2(n: nat) -> nat
    decreases n,
{
    if n < 2 {
        0
    } else {
        1 + floor_log2(n / 2)
    }
}

/// Size of the offset table and directory for `n` tables.
pub open spec fn header_len(n: nat) -> nat {
    12 + 16 * n
}

/// The offset written for table `k`: where its copy starts, modulo 2^32.
pub open spec fn new_offset(b: Seq<u8>, rs: Seq<TableRecord>, k: nat) -> u32 {
    ((header_len(rs.len()) + data_upto(b, rs, k).len()) % 0x1_0000_0000) as u32
}

/// The directory entry written for record `k`.
pub open spec fn dir_entry(b: Seq<u8>, rs: Seq<TableRecord>, k: nat) -> Seq<u8> {
    u32_bytes(rs[k as int].tag) + u32_bytes(rs[k as int].checksum) + u32_bytes(
        new_offset(b, rs, k),
    ) + u32_bytes(rs[k as int].length as u32)
}

/// The directory entries for the first `k` records.
#[verifier::opaque]
pub open spec fn dir_upto(b: Seq<u8>, rs: Seq<TableRecord>, k: nat) -> Seq<u8>
    decreases k,
{
    if k == 0 {
        seq![]
    } else {
        dir_upto(b, rs, (k - 1) as nat) + dir_entry(b, rs, (k - 1) as nat)
    }
}

/// The offset table of the repacked face: the face's sfnt version, then
/// numTables, searchRange, entrySelector and rangeShift for `n` tables.
pub open spec fn offset_table(b: Seq<u8>, off: int, n: nat) -> Seq<u8> {
    let es = floor_log2(n);
    let sr = 16 * pow2(es);
    b.subrange(off, off + 4) + u16_bytes(n as u16) + u16_bytes(sr as u16) + u16_bytes(es as u16)
        + u16_bytes((16 * n - sr) as u16)
}

/// The standalone sfnt made from the records `rs` of the face at `off`.
pub open spec fn repacked(b: Seq<u8>, off: int, rs: Seq<TableRecord>) -> Seq<u8> {
    offset_table(b, off, rs.len()) + dir_upto(b, rs, rs.len()) + data_upto(b, rs, rs.len())
}

/// What `extract_face` returns: `None` when the directory cannot be read or
/// keeps no table, else the repacked face.
pub open spec fn extract_face_spec(b: Seq<u8>, off: int) -> Option<Seq<u8>> {
    match table_records_spec(b, off) {
        None => None,
        Some(rs) => if rs.len() == 0 {
            None
        } else {
            Some(repacked(b, off, rs))
        },
    }
}

/// One step of `data_upto`.
pub proof fn lemma_data_step(b: Seq<u8>, rs: Seq<TableRecord>, k: nat)
    ensures
        data_upto(b, rs, 0) == Seq::<u8>::empty(),
        data_upto(b, rs, k + 1) == data_upto(b, rs, k) + padded(table_bytes(b, rs[k as int])),
{
    reveal(data_upto);
}

/// One step of `dir_upto`.
pub proof fn lemma_dir_step(b: Seq<u8>, rs: Seq<TableRecord>, k: nat)
    ensures
        dir_upto(b, rs, 0) == Seq::<u8>::empty(),
        dir_upto(b, rs, k + 1) == dir_upto(b, rs, k) + dir_entry(b, rs, k),
{
    reveal(dir_upto);
}

proof fn lemma_floor_log2(n: nat, e: nat)
    requires
        pow2(e) <= n < 2 * pow2(e),
    ensures
        floor_log2(n) == e,
    decreases e,
{
    if e > 0 {
        assert(pow2(e) == 2 * pow2((e - 1) as nat));
        lemma_floor_log2(n / 2, (e - 1) as nat);
    } else {
        assert(n == 1);
    }
}

proof fn lemma_data_len(b: Seq<u8>, rs: Seq<TableRecord>, k: nat)
    requires
        k <= rs.len(),
    ensures
        data_upto(b, rs, k).len() % 4 == 0,
    decreases k,
{
    reveal(data_upto);
    if k > 0 {
        lemma_data_len(b, rs, (k - 1) as nat);
    }
}

/// `(entrySelector, 2^entrySelector)` for `n` tables, `1 <= n <= 64`.
fn search_params(n: usize) -> (r: (u16, u16))
    requires
        1 <= n <= 64,
    ensures
        r.0 == floor_log2(n as nat),
        r.1 == pow2(r.0 as nat),
        r.1 <= n,
{
    let r: (u16, u16) = if n >= 64 {
        (6, 64)
    } else if n >= 32 {
        (5, 32)
    } else if n >= 16 {
        (4, 16)
    } else if n >= 8 {
        (3, 8)
    } else if n >= 4 {
        (2, 4)
    } else if n >= 2 {
        (1, 2)
    } else {
        (0, 1)
    };
    proof {
        reveal_with_fuel(pow2, 7);
        lemma_floor_log2(n as nat, r.0 as nat);
    }
    r
}

/// Appends a table's bytes, padded to a multiple of four.
fn append_table(data: &mut Vec<u8>, bytes: &[u8], rec: TableRecord)
    requires
        rec.offset + rec.length <= bytes@.len(),
    ensures
        final(data)@ == old(data)@ + padded(table_bytes(bytes@, rec)),
{
    let ghost d0 = data@;
    let blen = bytes.len();
    let src = vstd::slice::slice_subrange(bytes, rec.offset, rec.offset + rec.length);
    crate::text::push_all(data, src);
    let pad = (4 - rec.length % 4) % 4;
    let mut z: usize = 0;
    while z < pad
        invariant
            z <= pad < 4,
            pad == pad4(rec.length as nat),
            data@ == d0 + table_bytes(bytes@, rec) + Seq::new(z as nat, |i: int| 0u8),
        decreases pad - z,
    {
        data.push(0);
        z = z + 1;
        assert(data@ =~= d0 + table_bytes(bytes@, rec) + Seq::new(z as nat, |i: int| 0u8));
    }
    assert(data@ =~= d0 + padded(table_bytes(bytes@, rec)));
}

/// Appends the directory entry for `rec` with its new offset.
fn push_entry(dir: &mut Vec<u8>, rec: TableRecord, new_off: u32)
    requires
        rec.length <= u32::MAX,
    ensures
        final(dir)@ == old(dir)@ + (u32_bytes(rec.tag) + u32_bytes(rec.checksum) + u32_bytes(
            new_off,
        ) + u32_bytes(rec.length as u32)),
{
    push_u32(dir, rec.tag);
    push_u32(dir, rec.checksum);
    push_u32(dir, new_off);
    push_u32(dir, rec.length as u32);
    assert(dir@ =~= old(dir)@ + (u32_bytes(rec.tag) + u32_bytes(rec.checksum) + u32_bytes(new_off)
        + u32_bytes(rec.length as u32)));
}

proof fn lemma_pos_step(base: int, d: int, g: int, pos: int)
    requires
        base >= 0,
        d >= 0,
        g >= 0,
        pos == (base + d) % 0x1_0000_0000,
    ensures
        (pos + g % 0x1_0000_0000) % 0x1_0000_0000 == (base + (d + g)) % 0x1_0000_0000,
{
    vstd::arithmetic::div_mod::lemma_add_mod_noop(base + d, g, 0x1_0000_0000);
}

/// Repacks the face whose offset table starts at `off` as a standalone sfnt.
pub fn extract_face(bytes: &[u8], off: usize) -> (r: Option<Vec<u8>>)
    ensures
        r is Some == extract_face_spec(bytes@, off as int) is Some,
        r is Some ==> r->0@ == extract_face_spec(bytes@, off as int)->0,
{
    let recs = match table_records(bytes, off) {
        Some(v) => v,
        None => return None,
    };
    let ghost b = bytes@;
    let ghost rs = recs@;
    proof {
        let nt = be16_at(b, off + 4)->0;
        lemma_records_upto_bounds(b, off as int, crate::sfnt::record_limit(nt) as nat);
    }
    let n = recs.len();
    if n == 0 {
        return None;
    }
    let (es, p) = search_params(n);
    let sr: u16 = p * 16;
    let nt: u16 = n as u16;
    let mut out: Vec<u8> = Vec::new();
    out.push(bytes[off]);
    out.push(bytes[off + 1]);
    out.push(bytes[off + 2]);
    out.push(bytes[off + 3]);
    assert(out@ =~= b.subrange(off as int, off + 4));
    push_u16(&mut out, nt);
    push_u16(&mut out, sr);
    push_u16(&mut out, es);
    push_u16(&mut out, nt * 16 - sr);
    assert(out@ =~= offset_table(b, off as int, n as nat));
    let base: usize = 12 + 16 * n;
    let mut dir: Vec<u8> = Vec::new();
    let mut data: Vec<u8> = Vec::new();
    proof {
        lemma_data_step(b, rs, 0);
        lemma_dir_step(b, rs, 0);
    }
    let mut pos: u64 = base as u64;
    let mut k: usize = 0;
    while k < n
        invariant
            n == rs.len() == recs@.len(),
            1 <= n <= 64,
            recs@ == rs,
            bytes@ == b,
            base == header_len(n as nat),
            k <= n,
            records_in_bounds(b, rs),
            dir@ == dir_upto(b, rs, k as nat),
            data@ == data_upto(b, rs, k as nat),
            pos == (base + data@.len()) % 0x1_0000_0000,
        decreases n - k,
    {
        let rec = recs[k];
        assert(rec == rs[k as int]);
        assert(new_offset(b, rs, k as nat) == pos as u32);
        push_entry(&mut dir, rec, pos as u32);
        proof {
            lemma_dir_step(b, rs, k as nat);
        }
        let ghost d0 = data@;
        append_table(&mut data, bytes, rec);
        proof {
            lemma_data_step(b, rs, k as nat);
        }
        let grown = rec.length as u64 + ((4 - rec.length % 4) % 4) as u64;
        proof {
            lemma_pos_step(base as int, d0.len() as int, grown as int, pos as int);
        }
        pos = (pos + grown % 0x1_0000_0000) % 0x1_0000_0000;
        k = k + 1;
    }
    out.append(&mut dir);
    out.append(&mut data);
    Some(out)
}

pub proof fn lemma_dir_prefix(b: Seq<u8>, rs: Seq<TableRecord>, j: nat, m: nat)
    requires
        j <= m,
    ensures
        dir_upto(b, rs, m).len() == 16 * m,
        dir_upto(b, rs, m).subrange(0, 16 * j as int) == dir_upto(b, rs, j),
    decreases m,
{
    lemma_dir_step(b, rs, 0);
    if m > 0 {
        let m1 = (m - 1) as nat;
        lemma_dir_step(b, rs, m1);
        if j < m {
            lemma_dir_prefix(b, rs, j, m1);
            assert(dir_upto(b, rs, m).subrange(0, 16 * j as int) =~= dir_upto(b, rs, m1).subrange(
                0,
                16 * j as int,
            ));
        } else {
            lemma_dir_prefix(b, rs, m1, m1);
            assert(dir_upto(b, rs, m).subrange(0, 16 * j as int) =~= dir_upto(b, rs, m));
        }
    }
}

pub proof fn lemma_data_prefix(b: Seq<u8>, rs: Seq<TableRecord>, j: nat, m: nat)
    requires
        j <= m,
    ensures
        data_upto(b, rs, j).len() <= data_upto(b, rs, m).len(),
        data_upto(b, rs, m).subrange(0, data_upto(b, rs, j).len() as int) == data_upto(b, rs, j),
    decreases m,
{
    lemma_data_step(b, rs, 0);
    if j < m {
        let m1 = (m - 1) as nat;
        lemma_data_step(b, rs, m1);
        lemma_data_prefix(b, rs, j, m1);
        assert(data_upto(b, rs, m).subrange(0, data_upto(b, rs, j).len() as int)
            =~= data_upto(b, rs, m1).subrange(0, data_upto(b, rs, j).len() as int));
    } else {
        assert(data_upto(b, rs, m).subrange(0, data_upto(b, rs, j).len() as int) =~= data_upto(
            b,
            rs,
            m,
        ));
    }
}

proof fn lemma_be32_window(s: Seq<u8>, p: int, v: u32)
    requires
        0 <= p,
        p + 4 <= s.len(),
        s.subrange(p, p + 4) == u32_bytes(v),
    ensures
        be32_at(s, p) == Some(v),
{
    let w = s.subrange(p, p + 4);
    assert(s[p] == w[0]);
    assert(s[p + 1] == w[1]);
    assert(s[p + 2] == w[2]);
    assert(s[p + 3] == w[3]);
}

proof fn lemma_be16_window(s: Seq<u8>, p: int, v: u16)
    requires
        0 <= p,
        p + 2 <= s.len(),
        s.subrange(p, p + 2) == u16_bytes(v),
    ensures
        be16_at(s, p) == Some(v),
{
    let w = s.subrange(p, p + 2);
    assert(s[p] == w[0]);
    assert(s[p + 1] == w[1]);
}

proof fn lemma_entry_window(b: Seq<u8>, off: int, rs: Seq<TableRecord>, k: int)
    requires
        0 <= off,
        off + 4 <= b.len(),
        0 <= k < rs.len(),
    ensures
        12 + 16 * k + 16 <= repacked(b, off, rs).len(),
        repacked(b, off, rs).subrange(12 + 16 * k, 12 + 16 * k + 16) == dir_entry(
            b,
            rs,
            k as nat,
        ),
{
    let n = rs.len();
    let out = repacked(b, off, rs);
    let ot = offset_table(b, off, n);
    let dir = dir_upto(b, rs, n);
    let data = data_upto(b, rs, n);
    assert(ot.len() == 12);
    lemma_dir_prefix(b, rs, (k + 1) as nat, n);
    lemma_dir_step(b, rs, k as nat);
    lemma_dir_prefix(b, rs, k as nat, k as nat);
    let e = 12 + 16 * k;
    let ent = dir_entry(b, rs, k as nat);
    assert(dir.subrange(0, 16 * (k + 1)) == dir_upto(b, rs, k as nat) + ent);
    assert forall|i: int| 0 <= i < 16 implies out.subrange(e, e + 16)[i] == ent[i] by {
        assert(out[e + i] == dir[16 * k + i]);
        assert(dir[16 * k + i] == dir.subrange(0, 16 * (k + 1))[16 * k + i]);
    }
    assert(out.subrange(e, e + 16) =~= ent);
}

proof fn lemma_copy_window(b: Seq<u8>, off: int, rs: Seq<TableRecord>, k: int)
    requires
        0 <= off,
        off + 4 <= b.len(),
        0 <= k < rs.len(),
        records_in_bounds(b, rs),
    ensures
        ({
            let p = (header_len(rs.len()) + data_upto(b, rs, k as nat).len()) as int;
            &&& p % 4 == 0
            &&& p + rs[k].length <= repacked(b, off, rs).len()
            &&& repacked(b, off, rs).subrange(p, p + rs[k].length) == table_bytes(b, rs[k])
        }),
{
    let n = rs.len();
    let out = repacked(b, off, rs);
    let ot = offset_table(b, off, n);
    let dir = dir_upto(b, rs, n);
    let data = data_upto(b, rs, n);
    assert(ot.len() == 12);
    lemma_dir_prefix(b, rs, 0, n);
    lemma_data_prefix(b, rs, (k + 1) as nat, n);
    lemma_data_step(b, rs, k as nat);
    lemma_data_len(b, rs, k as nat);
    let before = data_upto(b, rs, k as nat);
    let t = table_bytes(b, rs[k]);
    let len = rs[k].length as int;
    assert(t.len() == len);
    let p = (12 + 16 * n + before.len()) as int;
    assert forall|i: int| 0 <= i < len implies out.subrange(p, p + len)[i] == t[i] by {
        assert(out[p + i] == data[before.len() + i]);
        assert(data[before.len() + i] == data.subrange(
            0,
            data_upto(b, rs, (k + 1) as nat).len() as int,
        )[before.len() + i]);
        assert(data_upto(b, rs, (k + 1) as nat)[before.len() + i] == padded(t)[i]);
    }
    assert(out.subrange(p, p + len) =~= t);
}

proof fn lemma_entry_fields(out: Seq<u8>, e: int, b: Seq<u8>, rs: Seq<TableRecord>, k: int)
    requires
        0 <= e,
        e + 16 <= out.len(),
        0 <= k < rs.len(),
        out.subrange(e, e + 16) == dir_entry(b, rs, k as nat),
    ensures
        be32_at(out, e) == Some(rs[k].tag),
        be32_at(out, e + 4) == Some(rs[k].checksum),
        be32_at(out, e + 8) == Some(new_offset(b, rs, k as nat)),
        be32_at(out, e + 12) == Some(rs[k].length as u32),
{
    let ent = dir_entry(b, rs, k as nat);
    assert(ent.subrange(0, 4) =~= u32_bytes(rs[k].tag));
    assert(ent.subrange(4, 8) =~= u32_bytes(rs[k].checksum));
    assert(ent.subrange(8, 12) =~= u32_bytes(new_offset(b, rs, k as nat)));
    assert(ent.subrange(12, 16) =~= u32_bytes(rs[k].length as u32));
    assert(out.subrange(e, e + 4) =~= ent.subrange(0, 4));
    assert(out.subrange(e + 4, e + 8) =~= ent.subrange(4, 8));
    assert(out.subrange(e + 8, e + 12) =~= ent.subrange(8, 12));
    assert(out.subrange(e + 12, e + 16) =~= ent.subrange(12, 16));
    lemma_be32_window(out, e, rs[k].tag);
    lemma_be32_window(out, e + 4, rs[k].checksum);
    lemma_be32_window(out, e + 8, new_offset(b, rs, k as nat));
    lemma_be32_window(out, e + 12, rs[k].length as u32);
}

proof fn lemma_count_field(b: Seq<u8>, off: int, rs: Seq<TableRecord>)
    requires
        0 <= off,
        off + 4 <= b.len(),
    ensures
        be16_at(repacked(b, off, rs), 4) == Some(rs.len() as u16),
{
    let out = repacked(b, off, rs);
    let ot = offset_table(b, off, rs.len());
    assert(out.subrange(4, 6) =~= ot.subrange(4, 6));
    assert(ot.subrange(4, 6) =~= u16_bytes(rs.len() as u16));
    lemma_be16_window(out, 4, rs.len() as u16);
}

/// Tables are copied as they are: in the repacked face, directory entry `k`
/// carries the tag, checksum and length of the face's `k`-th kept table,
/// and an offset, a multiple of four, at which the output holds exactly
/// that table's bytes.  Stated for outputs below 4 GiB, where offsets do
/// not wrap.
pub proof fn lemma_extract_face_copies_tables(b: Seq<u8>, off: int, k: int)
    requires
        0 <= off,
        extract_face_spec(b, off) is Some,
        0 <= k < table_records_spec(b, off)->0.len(),
        extract_face_spec(b, off)->0.len() <= u32::MAX,
    ensures
        ({
            let rs = table_records_spec(b, off)->0;
            let out = extract_face_spec(b, off)->0;
            let e = 12 + 16 * k;
            &&& be16_at(out, 4) == Some(rs.len() as u16)
            &&& be32_at(out, e) == Some(rs[k].tag)
            &&& be32_at(out, e + 4) == Some(rs[k].checksum)
            &&& be32_at(out, e + 12) == Some(rs[k].length as u32)
            &&& be32_at(out, e + 8) matches Some(o) && o % 4 == 0 && o + rs[k].length
                <= out.len() && out.subrange(o as int, o + rs[k].length) == table_bytes(
                b,
                rs[k],
            )
        }),
{
    let rs = table_records_spec(b, off)->0;
    let out = extract_face_spec(b, off)->0;
    let n = rs.len();
    assert(be16_at(b, off + 4) is Some);
    let nt = be16_at(b, off + 4)->0;
    lemma_records_upto_bounds(b, off, crate::sfnt::record_limit(nt) as nat);
    let e = 12 + 16 * k;
    lemma_entry_window(b, off, rs, k);
    lemma_entry_fields(out, e, b, rs, k);
    lemma_count_field(b, off, rs);
    lemma_copy_window(b, off, rs, k);
    let p = (header_len(n) + data_upto(b, rs, k as nat).len()) as int;
    assert(0 <= p < 0x1_0000_0000);
    vstd::arithmetic::div_mod::lemma_small_mod(p as nat, 0x1_0000_0000);
    assert(new_offset(b, rs, k as nat) as int == p);
}

/// The directory of the repacked face: each table with its new offset.
pub open spec fn moved_records(b: Seq<u8>, rs: Seq<TableRecord>) -> Seq<TableRecord> {
    Seq::new(
        rs.len(),
        |k: int|
            TableRecord {
                tag: rs[k].tag,
                checksum: rs[k].checksum,
                offset: new_offset(b, rs, k as nat) as usize,
                length: rs[k].length,
            },
    )
}

proof fn lemma_reads_back_upto(b: Seq<u8>, off: int, m: nat)
    requires
        0 <= off,
        extract_face_spec(b, off) is Some,
        extract_face_spec(b, off)->0.len() <= u32::MAX,
        m <= table_records_spec(b, off)->0.len(),
        forall|k: int|
            0 <= k < table_records_spec(b, off)->0.len() ==> (#[trigger] table_records_spec(
                b,
                off,
            )->0[k]).length > 0,
    ensures
        records_upto(extract_face_spec(b, off)->0, 0, m) == Some(
            moved_records(b, table_records_spec(b, off)->0).take(m as int),
        ),
    decreases m,
{
    let rs = table_records_spec(b, off)->0;
    let out = extract_face_spec(b, off)->0;
    let mv = moved_records(b, rs);
    if m == 0 {
        assert(mv.take(0) =~= Seq::<TableRecord>::empty());
    } else {
        let k = m - 1;
        lemma_reads_back_upto(b, off, (m - 1) as nat);
        lemma_extract_face_copies_tables(b, off, k);
        let o = be32_at(out, 12 + 16 * k + 8)->0;
        assert(crate::sfnt::record_pos(0, k) == 12 + 16 * k);
        assert(rs[k].length > 0);
        assert(o < out.len());
        assert(rs[k].length <= out.len() - o);
        lemma_offset_value(b, off, k);
        assert(record_spec(out, 0, k) == Some(Some(mv[k])));
        assert(mv.take(m as int) =~= mv.take(k).push(mv[k]));
    }
}

proof fn lemma_offset_value(b: Seq<u8>, off: int, k: int)
    requires
        0 <= off,
        extract_face_spec(b, off) is Some,
        0 <= k < table_records_spec(b, off)->0.len(),
        extract_face_spec(b, off)->0.len() <= u32::MAX,
    ensures
        be32_at(extract_face_spec(b, off)->0, 12 + 16 * k + 8) == Some(
            new_offset(b, table_records_spec(b, off)->0, k as nat),
        ),
{
    let rs = table_records_spec(b, off)->0;
    assert(be16_at(b, off + 4) is Some);
    lemma_entry_window(b, off, rs, k);
    lemma_entry_fields(extract_face_spec(b, off)->0, 12 + 16 * k, b, rs, k);
}

/// The repacked face stands on its own: read back from offset 0, its
/// directory lists the same tables (tags, checksums, lengths) at their new
/// offsets, and each holds the original bytes.  Stated for outputs below
/// 4 GiB and tables of non-zero length (a zero-length last table would
/// point at the end of the output and be dropped on reading).
pub proof fn lemma_extract_face_reads_back(b: Seq<u8>, off: int)
    requires
        0 <= off,
        extract_face_spec(b, off) is Some,
        extract_face_spec(b, off)->0.len() <= u32::MAX,
        forall|k: int|
            0 <= k < table_records_spec(b, off)->0.len() ==> (#[trigger] table_records_spec(
                b,
                off,
            )->0[k]).length > 0,
    ensures
        table_records_spec(extract_face_spec(b, off)->0, 0) == Some(
            moved_records(b, table_records_spec(b, off)->0),
        ),
        forall|k: int|
            0 <= k < table_records_spec(b, off)->0.len() ==> table_bytes(
                extract_face_spec(b, off)->0,
                #[trigger] moved_records(b, table_records_spec(b, off)->0)[k],
            ) == table_bytes(b, table_records_spec(b, off)->0[k]),
{
    let rs = table_records_spec(b, off)->0;
    let out = extract_face_spec(b, off)->0;
    let n = rs.len();
    assert(be16_at(b, off + 4) is Some);
    let nt = be16_at(b, off + 4)->0;
    lemma_records_upto_bounds(b, off, record_limit(nt) as nat);
    lemma_count_field(b, off, rs);
    assert(record_limit(n as u16) == n);
    lemma_reads_back_upto(b, off, n);
    assert(moved_records(b, rs).take(n as int) =~= moved_records(b, rs));
    assert forall|k: int| 0 <= k < n implies table_bytes(out, #[trigger] moved_records(b, rs)[k])
        == table_bytes(b, rs[k]) by {
        lemma_extract_face_copies_tables(b, off, k);
        lemma_offset_value(b, off, k);
    }
}

proof fn lemma_same_data(b1: Seq<u8>, rs1: Seq<TableRecord>, b2: Seq<u8>, rs2: Seq<TableRecord>, k: nat)
    requires
        k <= rs1.len(),
        k <= rs2.len(),
        forall|i: int| 0 <= i < k ==> table_bytes(b1, #[trigger] rs1[i]) == table_bytes(b2, rs2[i]),
    ensures
        data_upto(b1, rs1, k) == data_upto(b2, rs2, k),
    decreases k,
{
    lemma_data_step(b1, rs1, 0);
    lemma_data_step(b2, rs2, 0);
    if k > 0 {
        let k1 = (k - 1) as nat;
        lemma_same_data(b1, rs1, b2, rs2, k1);
        lemma_data_step(b1, rs1, k1);
        lemma_data_step(b2, rs2, k1);
        assert(table_bytes(b1, rs1[k1 as int]) == table_bytes(b2, rs2[k1 as int]));
    }
}

proof fn lemma_same_dir(b1: Seq<u8>, rs1: Seq<TableRecord>, b2: Seq<u8>, rs2: Seq<TableRecord>, k: nat)
    requires
        k <= rs1.len(),
        rs1.len() == rs2.len(),
        forall|i: int| 0 <= i < rs1.len() ==> table_bytes(b1, #[trigger] rs1[i]) == table_bytes(b2, rs2[i]),
        forall|i: int|
            0 <= i < rs1.len() ==> (#[trigger] rs1[i]).tag == rs2[i].tag && rs1[i].checksum
                == rs2[i].checksum && rs1[i].length == rs2[i].length,
    ensures
        dir_upto(b1, rs1, k) == dir_upto(b2, rs2, k),
    decreases k,
{
    lemma_dir_step(b1, rs1, 0);
    lemma_dir_step(b2, rs2, 0);
    if k > 0 {
        let k1 = (k - 1) as nat;
        lemma_same_dir(b1, rs1, b2, rs2, k1);
        lemma_dir_step(b1, rs1, k1);
        lemma_dir_step(b2, rs2, k1);
        lemma_same_data(b1, rs1, b2, rs2, k1);
        assert(new_offset(b1, rs1, k1) == new_offset(b2, rs2, k1));
        assert(rs1[k1 as int].tag == rs2[k1 as int].tag);
    }
}

/// Repacking is idempotent: repacking the repacked face (at offset 0)
/// gives the same bytes.  Stated for outputs below 4 GiB and tables of
/// non-zero length.
pub proof fn lemma_extract_face_idempotent(b: Seq<u8>, off: int)
    requires
        0 <= off,
        extract_face_spec(b, off) is Some,
        extract_face_spec(b, off)->0.len() <= u32::MAX,
        forall|k: int|
            0 <= k < table_records_spec(b, off)->0.len() ==> (#[trigger] table_records_spec(
                b,
                off,
            )->0[k]).length > 0,
    ensures
        extract_face_spec(extract_face_spec(b, off)->0, 0) == extract_face_spec(b, off),
{
    let rs = table_records_spec(b, off)->0;
    let out = extract_face_spec(b, off)->0;
    let mv = moved_records(b, rs);
    let n = rs.len();
    lemma_extract_face_reads_back(b, off);
    assert(table_records_spec(out, 0) == Some(mv));
    assert forall|i: int| 0 <= i < n implies table_bytes(out, #[trigger] mv[i]) == table_bytes(b, rs[i]) by {
        assert(table_bytes(out, mv[i]) == table_bytes(b, rs[i]));
    }
    lemma_same_data(out, mv, b, rs, n);
    lemma_same_dir(out, mv, b, rs, n);
    assert(be16_at(b, off + 4) is Some);
    let ot = offset_table(b, off, n);
    assert(ot.len() == 12);
    assert(out.subrange(0, 4) =~= b.subrange(off, off + 4));
    assert(offset_table(out, 0, n) =~= offset_table(b, off, n));
}

} // verus!
