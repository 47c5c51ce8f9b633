//! Face identifiers (16 hex digits of the 64-bit FNV-1a hash of
//! `"<path>#<face index>"`) and the change signature of the font folders
//! (the sum of their modification times).

use vstd::prelude::*;
use crate::render::{hex_chars, hex_fixed};
use crate::text::string_of;

verus! {

/// FNV-1a 64-bit offset basis.
pub const FNV_OFFSET: u64 = 0xcbf29ce484222325;

/// FNV-1a 64-bit prime.
pub const FNV_PRIME: u64 = 0x100000001b3;

/// One FNV-1a step: xor the input in, then multiply by the prime mod 2^64.
pub open spec fn fnv_step(h: u64, x: u64) -> u64 {
    (((h ^ x) as nat * FNV_PRIME as nat) % 0x1_0000_0000_0000_0000) as u64
}

/// FNV-1a over `xs` from the state `h`.
pub open spec fn fnv_fold(h: u64, xs: Seq<u64>) -> u64
    decreases xs.len(),
{
    if xs.len() == 0 {
        h
    } else {
        fnv_step(fnv_fold(h, xs.drop_last()), xs.last())
    }
}

/// Bytes widened to `u64`.
pub open spec fn widen(bs: Seq<u8>) -> Seq<u64> {
    Seq::new(bs.len(), |i: int| bs[i] as u64)
}

/// FNV-1a 64 of a byte string.
pub open spec fn fnv64(bs: Seq<u8>) -> u64 {
    fnv_fold(FNV_OFFSET, widen(bs))
}

/// The identifier text for a string: 16 lowercase hex digits of the FNV-1a
/// hash of its UTF-8 bytes.
pub open spec fn fnv_hex_spec(s: Seq<char>) -> Seq<char> {
    hex_chars(fnv64(vstd::utf8::encode_utf8(s)) as nat, 16)
}

/// FNV-1a over `xs` starting from `h`.
pub fn fnv_over(h: u64, xs: &[u64]) -> (r: u64)
    ensures
        r == fnv_fold(h, xs@),
{
    let mut acc = h;
    let mut i: usize = 0;
    while i < xs.len()
        invariant
            i <= xs@.len(),
            acc == fnv_fold(h, xs@.subrange(0, i as int)),
        decreases xs@.len() - i,
    {
        let ghost pre = xs@.subrange(0, i as int);
        acc = (acc ^ xs[i]).wrapping_mul(FNV_PRIME);
        i = i + 1;
        assert(xs@.subrange(0, i as int).drop_last() =~= pre);
    }
    assert(xs@.subrange(0, xs@.len() as int) =~= xs@);
    acc
}

/// 16 lowercase hex digits of the FNV-1a 64 hash of `s`'s UTF-8 bytes.
pub fn fnv_hex(s: &str) -> (r: String)
    ensures
        r@ == fnv_hex_spec(s@),
        r@.len() == 16,
{
    let bytes = s.as_bytes();
    let mut wide: Vec<u64> = Vec::new();
    let mut i: usize = 0;
    while i < bytes.len()
        invariant
            i <= bytes@.len(),
            wide@ == widen(bytes@.subrange(0, i as int)),
        decreases bytes@.len() - i,
    {
        wide.push(bytes[i] as u64);
        i = i + 1;
        assert(wide@ =~= widen(bytes@.subrange(0, i as int)));
    }
    assert(bytes@.subrange(0, bytes@.len() as int) =~= bytes@);
    let h = fnv_over(FNV_OFFSET, wide.as_slice());
    let digits = hex_fixed(h, 16);
    proof {
        lemma_hex_len(h as nat, 16);
    }
    string_of(digits.as_slice())
}

/// `hex_chars(v, k)` has `k` characters.
pub proof fn lemma_hex_len(v: nat, k: nat)
    ensures
        hex_chars(v, k).len() == k,
    decreases k,
{
    if k > 0 {
        lemma_hex_len(v / 16, (k - 1) as nat);
    }
}

/// The sum of a list of modification times.
pub open spec fn mtime_sum(xs: Seq<u64>) -> int
    decreases xs.len(),
{
    if xs.len() == 0 {
        0
    } else {
        mtime_sum(xs.drop_last()) + xs.last()
    }
}

/// The change signature of the font folders: the sum of their modification
/// times (seconds since the epoch), wrapping at 2^64.
pub open spec fn signature_spec(xs: Seq<u64>) -> u64 {
    (mtime_sum(xs) % 0x1_0000_0000_0000_0000) as u64
}

/// Change signature of the font folders: the sum of their modification
/// times in seconds since the epoch, wrapping at 2^64.
pub fn folder_signature(mtimes: &[u64]) -> (r: u64)
    ensures
        r == signature_spec(mtimes@),
{
    let mut acc: u64 = 0;
    let mut i: usize = 0;
    while i < mtimes.len()
        invariant
            i <= mtimes@.len(),
            acc == signature_spec(mtimes@.subrange(0, i as int)),
        decreases mtimes@.len() - i,
    {
        let ghost pre = mtimes@.subrange(0, i as int);
        assert(mtimes@.subrange(0, i + 1).drop_last() =~= pre);
        proof {
            lemma_sum_nonneg(pre);
            vstd::arithmetic::div_mod::lemma_add_mod_noop(
                mtime_sum(pre),
                mtimes@[i as int] as int,
                0x1_0000_0000_0000_0000,
            );
            vstd::arithmetic::div_mod::lemma_small_mod(
                mtimes@[i as int] as nat,
                0x1_0000_0000_0000_0000,
            );
        }
        acc = acc.wrapping_add(mtimes[i]);
        i = i + 1;
    }
    assert(mtimes@.subrange(0, mtimes@.len() as int) =~= mtimes@);
    acc
}

proof fn lemma_sum_nonneg(xs: Seq<u64>)
    ensures
        mtime_sum(xs) >= 0,
    decreases xs.len(),
{
    if xs.len() > 0 {
        lemma_sum_nonneg(xs.drop_last());
    }
}

proof fn lemma_sum_update(xs: Seq<u64>, i: int, v: u64)
    requires
        0 <= i < xs.len(),
    ensures
        mtime_sum(xs.update(i, v)) == mtime_sum(xs) - xs[i] + v,
    decreases xs.len(),
{
    let ys = xs.update(i, v);
    if i == xs.len() - 1 {
        assert(ys.drop_last() =~= xs.drop_last());
    } else {
        assert(ys.drop_last() =~= xs.drop_last().update(i, v));
        lemma_sum_update(xs.drop_last(), i, v);
    }
}

/// A changed font folder is noticed: changing the modification time of one
/// folder, the others unchanged, changes the signature.
pub proof fn lemma_signature_notices_change(xs: Seq<u64>, i: int, v: u64)
    requires
        0 <= i < xs.len(),
        v != xs[i],
    ensures
        signature_spec(xs.update(i, v)) != signature_spec(xs),
{
    let m: int = 0x1_0000_0000_0000_0000;
    lemma_sum_update(xs, i, v);
    lemma_sum_nonneg(xs);
    lemma_sum_nonneg(xs.update(i, v));
    let a = mtime_sum(xs);
    let c = mtime_sum(xs.update(i, v));
    let (lo, hi) = if a < c {
        (a, c)
    } else {
        (c, a)
    };
    assert(0 < hi - lo < m);
    if signature_spec(xs.update(i, v)) == signature_spec(xs) {
        assert(hi % m == lo % m);
        vstd::arithmetic::div_mod::lemma_mod_equivalence(hi, lo, m);
        vstd::arithmetic::div_mod::lemma_small_mod((hi - lo) as nat, m as nat);
        assert(false);
    }
}

/// Whether the catalog must be read again: the folders' signature is not
/// the one recorded at the last scan.
pub fn needs_rescan(recorded: u64, current: u64) -> (r: bool)
    ensures
        r == (recorded != current),
{
    recorded != current
}

} // verus!
