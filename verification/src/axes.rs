//! Variation axes of a variable font (the `fvar` table), kept as raw 16.16
//! fixed-point values, and the weight a `wght` axis default gives a face.

use vstd::prelude::*;
use crate::bytes::{be16, be16_at, be32, be32_at};
use crate::repack::pow2;
use crate::text::string_of;

verus! {

/// One variation axis: a four-character tag and its minimum, default and
/// maximum as 16.16 fixed-point numbers (the value is `raw / 65536`).
pub struct Axis {
    pub tag: String,
    pub min: i32,
    pub def: i32,
    pub max: i32,
}

/// The spec view of an axis.
pub struct AxisView {
    pub tag: Seq<char>,
    pub min: i32,
    pub def: i32,
    pub max: i32,
}

impl Axis {
    pub open spec fn view(&self) -> AxisView {
        AxisView { tag: self.tag@, min: self.min, def: self.def, max: self.max }
    }
}

/// Views of a list of axes.
pub open spec fn axes_view(v: Seq<Axis>) -> Seq<AxisView> {
    Seq::new(v.len(), |i: int| v[i].view())
}

/// A tag byte as shown: printable ASCII as itself, anything else as `?`.
pub open spec fn tag_char(b: u8) -> char {
    if 0x21 <= b <= 0x7e {
        b as char
    } else {
        '?'
    }
}

/// Bytes between axis records: the record size, but at least 20.
pub open spec fn axis_stride(t: Seq<u8>) -> int {
    let size = be16_at(t, 10)->0;
    if size < 20 {
        20
    } else {
        size as int
    }
}

/// At most 16 axes are read.
pub open spec fn axis_limit(t: Seq<u8>) -> int {
    let count = be16_at(t, 8)->0;
    if count < 16 {
        count as int
    } else {
        16
    }
}

/// Start of axis record `i`.
pub open spec fn axis_pos(t: Seq<u8>, i: int) -> int {
    be16_at(t, 4)->0 + i * axis_stride(t)
}

/// Whether axis record `i` (tag and three values) lies inside the table;
/// reading stops at the first that does not.
pub open spec fn axis_fits(t: Seq<u8>, i: int) -> bool {
    axis_pos(t, i) + 16 <= t.len()
}

/// Axis record `i`.
pub open spec fn axis_spec(t: Seq<u8>, i: int) -> AxisView {
    let r = axis_pos(t, i);
    AxisView {
        tag: Seq::new(4, |j: int| tag_char(t[r + j])),
        min: be32_at(t, r + 4)->0 as i32,
        def: be32_at(t, r + 8)->0 as i32,
        max: be32_at(t, r + 12)->0 as i32,
    }
}

/// The axes among the first `k` records.
pub open spec fn axes_upto(t: Seq<u8>, k: nat) -> Seq<AxisView>
    decreases k,
{
    if k == 0 {
        seq![]
    } else {
        let prev = axes_upto(t, (k - 1) as nat);
        if k - 1 < axis_limit(t) && axis_fits(t, k - 1) {
            prev.push(axis_spec(t, k - 1))
        } else {
            prev
        }
    }
}

/// The axes of the `fvar` table `t` (none when its header is short).
pub open spec fn fvar_spec(t: Seq<u8>) -> Seq<AxisView> {
    if be16_at(t, 4) is None || be16_at(t, 8) is None || be16_at(t, 10) is None {
        seq![]
    } else {
        axes_upto(t, axis_limit(t) as nat)
    }
}

proof fn lemma_axes_stop(t: Seq<u8>, i: nat, k: nat)
    requires
        i <= k,
        !axis_fits(t, i as int),
        axis_stride(t) > 0,
    ensures
        axes_upto(t, k) == axes_upto(t, i),
    decreases k,
{
    if k > i {
        lemma_axes_stop(t, i, (k - 1) as nat);
        assert(axis_pos(t, k - 1) >= axis_pos(t, i as int)) by (nonlinear_arith)
            requires
                k - 1 >= i,
                axis_stride(t) > 0,
                axis_pos(t, k - 1) == be16_at(t, 4)->0 + (k - 1) * axis_stride(t),
                axis_pos(t, i as int) == be16_at(t, 4)->0 + i * axis_stride(t),
        ;
    }
}

/// Reads the variation axes of the `fvar` table `t`.
pub fn parse_fvar(t: &[u8]) -> (r: Vec<Axis>)
    ensures
        axes_view(r@) == fvar_spec(t@),
{
    let mut out: Vec<Axis> = Vec::new();
    let (axes_off, count, size) = match (be16(t, 4), be16(t, 8), be16(t, 10)) {
        (Some(a), Some(c), Some(s)) => (a, c, s),
        _ => {
            assert(axes_view(out@) =~= Seq::<AxisView>::empty());
            return out;
        },
    };
    let limit: usize = if count < 16 {
        count as usize
    } else {
        16
    };
    let stride: usize = if size < 20 {
        20
    } else {
        size as usize
    };
    let mut i: usize = 0;
    while i < limit
        invariant
            limit == axis_limit(t@),
            limit <= 16,
            stride == axis_stride(t@),
            20 <= stride <= 0xffff,
            be16_at(t@, 4) == Some(axes_off),
            i <= limit,
            axes_view(out@) == axes_upto(t@, i as nat),
        ensures
            axes_view(out@) == axes_upto(t@, limit as nat),
        decreases limit - i,
    {
        assert(i * stride <= 16 * 0xffff) by (nonlinear_arith)
            requires
                i <= 16,
                stride <= 0xffff,
        ;
        let r: usize = axes_off as usize + i * stride;
        assert(r == axis_pos(t@, i as int));
        if r > t.len() || t.len() - r < 16 {
            proof {
                lemma_axes_stop(t@, i as nat, limit as nat);
            }
            break;
        }
        let mut tag: Vec<char> = Vec::new();
        let mut j: usize = 0;
        while j < 4
            invariant
                j <= 4,
                r + 16 <= t@.len(),
                r + 16 <= t.len(),
                tag@ == Seq::new(j as nat, |m: int| tag_char(t@[r + m])),
            decreases 4 - j,
        {
            let b = t[r + j];
            let c = if 0x21 <= b && b <= 0x7e {
                b as char
            } else {
                '?'
            };
            tag.push(c);
            j = j + 1;
            assert(tag@ =~= Seq::new(j as nat, |m: int| tag_char(t@[r + m])));
        }
        let min = match be32(t, r + 4) {
            Some(v) => v as i32,
            None => 0,
        };
        let def = match be32(t, r + 8) {
            Some(v) => v as i32,
            None => 0,
        };
        let max = match be32(t, r + 12) {
            Some(v) => v as i32,
            None => 0,
        };
        let ghost before = out@;
        out.push(Axis { tag: string_of(tag.as_slice()), min, def, max });
        assert(axes_view(out@) =~= axes_view(before).push(axis_spec(t@, i as int)));
        i = i + 1;
    }
    out
}

/// Number of low bits lost when an integer of magnitude `a` becomes an
/// `f32` (which keeps 24 significant bits).
pub open spec fn f32_lost_bits(a: nat) -> nat
    decreases a,
{
    if a < 0x100_0000 {
        0
    } else {
        1 + f32_lost_bits(a / 2)
    }
}

/// `a` rounded to a multiple of `2^k`, ties to the even multiple.
pub open spec fn round_even(a: nat, k: nat) -> nat {
    let p = pow2(k);
    let q = a / p;
    let r = a % p;
    if 2 * r > p || (2 * r == p && q % 2 == 1) {
        (q + 1) * p
    } else {
        q * p
    }
}

/// The value of `v as f32` for an `i32` (round to nearest, ties to even).
pub open spec fn f32_of_i32(v: i32) -> int {
    if v >= 0 {
        round_even(v as nat, f32_lost_bits(v as nat)) as int
    } else {
        -(round_even((-v) as nat, f32_lost_bits((-v) as nat)) as int)
    }
}

/// `x / 65536` rounded half away from zero (`f32::round`).
pub open spec fn round_fixed(x: int) -> int {
    if x >= 0 {
        (x + 32768) / 65536
    } else {
        -((-x + 32768) / 65536)
    }
}

/// The weight a `wght` axis default gives: the default, rounded to the
/// nearest integer and clamped to 1..=1000, computed exactly as
/// `((def as f32) / 65536.0).round().clamp(1.0, 1000.0) as u16`.
pub open spec fn axis_weight(def: i32) -> u16 {
    let w = round_fixed(f32_of_i32(def));
    (if w < 1 {
        1
    } else if w > 1000 {
        1000
    } else {
        w
    }) as u16
}

fn lost_bits(a: u64) -> (r: (u32, u64))
    requires
        a <= 0x8000_0000,
    ensures
        r.0 == f32_lost_bits(a as nat),
        r.1 == pow2(r.0 as nat),
        r.0 <= 8,
        1 <= r.1 <= 256,
{
    let r: (u32, u64) = if a < 0x100_0000 {
        (0, 1)
    } else if a < 0x200_0000 {
        (1, 2)
    } else if a < 0x400_0000 {
        (2, 4)
    } else if a < 0x800_0000 {
        (3, 8)
    } else if a < 0x1000_0000 {
        (4, 16)
    } else if a < 0x2000_0000 {
        (5, 32)
    } else if a < 0x4000_0000 {
        (6, 64)
    } else if a < 0x8000_0000 {
        (7, 128)
    } else {
        (8, 256)
    };
    proof {
        reveal_with_fuel(f32_lost_bits, 10);
        reveal_with_fuel(pow2, 10);
    }
    r
}

proof fn lemma_div_parts(a: int, p: int)
    requires
        a >= 0,
        p >= 1,
    ensures
        (a / p) * p <= a,
        a % p < p,
        (a / p) * p + a % p == a,
        (a / p + 1) * p <= a + p,
{
    vstd::arithmetic::div_mod::lemma_fundamental_div_mod(a, p);
    vstd::arithmetic::mul::lemma_mul_is_commutative(p, a / p);
    vstd::arithmetic::div_mod::lemma_mod_pos_bound(a, p);
    vstd::arithmetic::mul::lemma_mul_is_distributive_add_other_way(p, a / p, 1);
}

/// The weight a `wght` axis default gives, as `axis_weight` says.
pub fn weight_of_axis(def: i32) -> (w: u16)
    ensures
        w == axis_weight(def),
        1 <= w <= 1000,
{
    let neg = def < 0;
    let a: u64 = if neg {
        (-(def as i64)) as u64
    } else {
        def as u64
    };
    let (k, p) = lost_bits(a);
    let q = a / p;
    let r = a % p;
    proof {
        lemma_div_parts(a as int, p as int);
    }
    let rounded: u64 = if 2 * r > p || (2 * r == p && q % 2 == 1) {
        (q + 1) * p
    } else {
        q * p
    };
    assert(rounded == round_even(a as nat, k as nat));
    let x: i64 = if neg {
        -(rounded as i64)
    } else {
        rounded as i64
    };
    assert(x == f32_of_i32(def));
    let w: i64 = if x >= 0 {
        (x + 32768) / 65536
    } else {
        -((-x + 32768) / 65536)
    };
    assert(w == round_fixed(x as int));
    if w < 1 {
        1
    } else if w > 1000 {
        1000
    } else {
        w as u16
    }
}

/// A `wght` default of a whole number `n` in 1..=1000 (the 16.16 value
/// `n * 65536`) gives the weight `n`.
pub proof fn lemma_axis_weight_whole(n: int)
    requires
        1 <= n <= 1000,
    ensures
        axis_weight((n * 65536) as i32) == n,
{
    let a: nat = (n * 65536) as nat;
    assert(((n * 65536) as i32) as nat == a);
    if n < 256 {
        assert(f32_lost_bits(a) == 0);
        assert(pow2(0) == 1);
        assert(round_even(a, 0) == a);
    } else if n < 512 {
        assert(f32_lost_bits(a / 2) == 0);
        assert(f32_lost_bits(a) == 1);
        assert(pow2(1) == 2) by {
            reveal_with_fuel(pow2, 2);
        }
        assert(a % 2 == 0 && a / 2 * 2 == a);
        assert(round_even(a, 1) == a);
    } else {
        assert(a / 2 / 2 == a / 4);
        assert(f32_lost_bits(a / 4) == 0);
        assert(f32_lost_bits(a / 2) == 1);
        assert(f32_lost_bits(a) == 2);
        assert(pow2(2) == 4) by {
            reveal_with_fuel(pow2, 3);
        }
        assert(a % 4 == 0 && a / 4 * 4 == a);
        assert(round_even(a, 2) == a);
    }
    assert(f32_of_i32((n * 65536) as i32) == a);
    assert((a + 32768) / 65536 == n);
}

} // verus!
