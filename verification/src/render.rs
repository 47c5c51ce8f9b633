//! Decimal and fixed-width hexadecimal rendering of unsigned integers, as
//! `format!("{}")` and `format!("{:0Nx}")` write them.

use vstd::prelude::*;
use crate::text::char_from_u32;

verus! {

/// The lowercase digit character for a value below 16.
pub open spec fn digit_char(d: nat) -> char {
    if d < 10 {
        (48 + d) as char
    } else {
        (87 + d) as char
    }
}

/// Decimal digits of `n`, most significant first, without leading zeros.
pub open spec fn dec_chars(n: nat) -> Seq<char>
    decreases n,
{
    if n < 10 {
        seq![digit_char(n)]
    } else {
        dec_chars(n / 10).push(digit_char(n % 10))
    }
}

/// The last `k` hexadecimal digits of `v` (lowercase, zero-padded).
pub open spec fn hex_chars(v: nat, k: nat) -> Seq<char>
    decreases k,
{
    if k == 0 {
        seq![]
    } else {
        hex_chars(v / 16, (k - 1) as nat).push(digit_char(v % 16))
    }
}

/// Lowercase hexadecimal digit for `d < 16`.
pub fn digit(d: u32) -> (c: char)
    requires
        d < 16,
    ensures
        c == digit_char(d as nat),
{
    if d < 10 {
        char_from_u32(48 + d)
    } else {
        char_from_u32(87 + d)
    }
}

/// Decimal rendering of `n` (`n.to_string()`).
pub fn decimal(n: u128) -> (r: Vec<char>)
    ensures
        r@ == dec_chars(n as nat),
    decreases n,
{
    if n < 10 {
        let mut r: Vec<char> = Vec::new();
        r.push(digit(n as u32));
        r
    } else {
        let mut r = decimal(n / 10);
        r.push(digit((n % 10) as u32));
        r
    }
}

/// The last `k` hexadecimal digits of `v`, zero-padded (`{:0kx}` when `v`
/// fits in `k` digits).
pub fn hex_fixed(v: u64, k: u32) -> (r: Vec<char>)
    ensures
        r@ == hex_chars(v as nat, k as nat),
    decreases k,
{
    if k == 0 {
        Vec::new()
    } else {
        let mut r = hex_fixed(v / 16, k - 1);
        r.push(digit((v % 16) as u32));
        r
    }
}

} // verus!
