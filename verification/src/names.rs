//! The sfnt `name` table: which record supplies each name, and how its
//! bytes become text (UTF-16 with replacement of unpaired surrogates, or
//! one character per byte for Macintosh Roman records).

use vstd::prelude::*;
use crate::bytes::{be16, be16_at};
use crate::text::{char_of, strip_nul, strip_nul_spec, string_of};

verus! {

/// Big-endian UTF-16 code units of `raw`; an odd trailing byte is dropped.
pub open spec fn utf16_units(raw: Seq<u8>) -> Seq<u16> {
    Seq::new(raw.len() / 2, |i: int| (raw[2 * i] as int * 256 + raw[2 * i + 1] as int) as u16)
}

/// Whether `u` is a high (leading) surrogate.
pub open spec fn is_high(u: u16) -> bool {
    0xd800 <= u <= 0xdbff
}

/// Whether `u` is a low (trailing) surrogate.
pub open spec fn is_low(u: u16) -> bool {
    0xdc00 <= u <= 0xdfff
}

/// The supplementary code point of a surrogate pair.
pub open spec fn pair_code(hi: u16, lo: u16) -> u32 {
    (0x10000 + (hi - 0xd800) * 0x400 + (lo - 0xdc00)) as u32
}

/// UTF-16 decoding in which every code unit that is not part of a valid
/// surrogate pair becomes U+FFFD (`String::from_utf16_lossy`).
pub open spec fn utf16_decode(u: Seq<u16>) -> Seq<char>
    decreases u.len(),
{
    if u.len() == 0 {
        seq![]
    } else if !(0xd800 <= u[0] <= 0xdfff) {
        seq![u[0] as char] + utf16_decode(u.drop_first())
    } else if is_high(u[0]) && u.len() >= 2 && is_low(u[1]) {
        seq![pair_code(u[0], u[1]) as char] + utf16_decode(u.skip(2))
    } else {
        seq!['\u{fffd}'] + utf16_decode(u.drop_first())
    }
}

/// One character per byte, by code (`b as char`).
pub open spec fn latin1(raw: Seq<u8>) -> Seq<char> {
    Seq::new(raw.len(), |i: int| raw[i] as char)
}

/// Name identifiers the catalog reads: family, subfamily, full name,
/// PostScript name, typographic family and typographic subfamily.
pub open spec fn wanted_name_id(nid: u16) -> bool {
    nid == 1 || nid == 2 || nid == 4 || nid == 6 || nid == 16 || nid == 17
}

/// Name records examined: at most 512.
pub open spec fn name_limit(t: Seq<u8>) -> int {
    let count = match be16_at(t, 2) {
        Some(c) => c as int,
        None => 0,
    };
    if count < 512 {
        count
    } else {
        512
    }
}

/// Whether the 12-byte name record `i` lies inside the table.  Reading
/// stops at the first record that does not.
pub open spec fn name_record_fits(t: Seq<u8>, i: int) -> bool {
    6 + 12 * i + 12 <= t.len()
}

/// Start of string storage.
pub open spec fn string_base(t: Seq<u8>) -> int {
    match be16_at(t, 4) {
        Some(o) => o as int,
        None => 0,
    }
}

/// Field `f` (0..6: platform, encoding, language, name id, length, offset)
/// of name record `i`.
pub open spec fn field(t: Seq<u8>, i: int, f: int) -> u16 {
    be16_at(t, 6 + 12 * i + 2 * f)->0
}

/// Preference of a record: Windows English (platform 3, any encoding,
/// language 0x409) 3, other Windows 2, Unicode 1, Macintosh Roman 0; `None`
/// for records that are not read.  Windows and Unicode records are UTF-16.
pub open spec fn record_rank(plat: u16, enc: u16, lang: u16) -> Option<u8> {
    if plat == 3 || plat == 0 {
        Some(
            if plat == 3 && lang == 0x0409 {
                3u8
            } else if plat == 3 {
                2u8
            } else {
                1u8
            },
        )
    } else if plat == 1 && enc == 0 {
        Some(0u8)
    } else {
        None
    }
}

/// Text of name record `i` for identifier `id`, with its rank, or `None`
/// when the record has another identifier, its string lies outside the
/// table, its encoding is not read, or its text is empty once NULs are
/// stripped.
pub open spec fn name_candidate(t: Seq<u8>, i: int, id: u16) -> Option<(u8, Seq<char>)> {
    let plat = field(t, i, 0);
    let enc = field(t, i, 1);
    let lang = field(t, i, 2);
    let nid = field(t, i, 3);
    let len = field(t, i, 4);
    let off = field(t, i, 5);
    let start = string_base(t) + off;
    if nid != id || start + len > t.len() {
        None
    } else {
        let raw = t.subrange(start, start + len);
        match record_rank(plat, enc, lang) {
            None => None,
            Some(rank) => {
                let text = if rank == 0 {
                    latin1(raw)
                } else {
                    utf16_decode(utf16_units(raw))
                };
                let text = strip_nul_spec(text);
                if text.len() == 0 {
                    None
                } else {
                    Some((rank, text))
                }
            },
        }
    }
}

/// The best candidate for `id` among the first `k` examined records: a
/// later record replaces an earlier one only with a strictly higher rank.
pub open spec fn best_upto(t: Seq<u8>, id: u16, k: nat) -> Option<(u8, Seq<char>)>
    decreases k,
{
    if k == 0 {
        None
    } else {
        let prev = best_upto(t, id, (k - 1) as nat);
        let i = k - 1;
        if i < name_limit(t) && name_record_fits(t, i) {
            match name_candidate(t, i, id) {
                None => prev,
                Some((rank, text)) => match prev {
                    Some((r0, _)) if r0 >= rank => prev,
                    _ => Some((rank, text)),
                },
            }
        } else {
            prev
        }
    }
}

/// The text the `name` table `t` gives for `id` (`None` if none).
pub open spec fn name_spec(t: Seq<u8>, id: u16) -> Option<Seq<char>> {
    if !wanted_name_id(id) {
        None
    } else {
        match best_upto(t, id, name_limit(t) as nat) {
            Some((_, text)) => Some(text),
            None => None,
        }
    }
}

/// Decodes big-endian UTF-16, replacing unpaired surrogates with U+FFFD.
pub fn decode_utf16(raw: &[u8]) -> (r: Vec<char>)
    ensures
        r@ == utf16_decode(utf16_units(raw@)),
{
    let n = raw.len() / 2;
    let mut units: Vec<u16> = Vec::new();
    let mut i: usize = 0;
    while i < n
        invariant
            n == raw@.len() / 2,
            2 * n <= raw.len(),
            i <= n,
            units@ == utf16_units(raw@).subrange(0, i as int),
        decreases n - i,
    {
        let hi = raw[2 * i] as u16;
        let lo = raw[2 * i + 1] as u16;
        units.push(hi * 256 + lo);
        i = i + 1;
        assert(units@ =~= utf16_units(raw@).subrange(0, i as int));
    }
    assert(units@ =~= utf16_units(raw@));
    let ghost u = units@;
    let mut out: Vec<char> = Vec::new();
    let mut j: usize = 0;
    let m = units.len();
    while j < m
        invariant
            m == u.len(),
            units@ == u,
            j <= m,
            utf16_decode(u) == out@ + utf16_decode(u.skip(j as int)),
        decreases m - j,
    {
        let c = units[j];
        let ghost rest = u.skip(j as int);
        assert(rest[0] == c);
        if c < 0xd800 || c > 0xdfff {
            match char_of(c as u32) {
                Some(ch) => out.push(ch),
                None => out.push('\u{fffd}'),
            }
            assert(rest.drop_first() =~= u.skip(j + 1));
            j = j + 1;
        } else if c <= 0xdbff && j + 1 < m && 0xdc00 <= units[j + 1] && units[j + 1] <= 0xdfff {
            let lo = units[j + 1];
            assert(rest[1] == lo);
            let code: u32 = 0x10000 + ((c - 0xd800) as u32) * 0x400 + ((lo - 0xdc00) as u32);
            match char_of(code) {
                Some(ch) => out.push(ch),
                None => out.push('\u{fffd}'),
            }
            assert(rest.skip(2) =~= u.skip(j + 2));
            j = j + 2;
        } else {
            out.push('\u{fffd}');
            assert(rest.drop_first() =~= u.skip(j + 1));
            j = j + 1;
        }
        assert(utf16_decode(u) =~= out@ + utf16_decode(u.skip(j as int)));
    }
    assert(u.skip(m as int) =~= Seq::<u16>::empty());
    assert(out@ =~= out@ + utf16_decode(u.skip(m as int)));
    out
}

/// One character per byte.
pub fn decode_latin1(raw: &[u8]) -> (r: Vec<char>)
    ensures
        r@ == latin1(raw@),
{
    let mut out: Vec<char> = Vec::new();
    let mut i: usize = 0;
    while i < raw.len()
        invariant
            i <= raw@.len(),
            out@ == latin1(raw@).subrange(0, i as int),
        decreases raw@.len() - i,
    {
        out.push(raw[i] as char);
        i = i + 1;
        assert(out@ =~= latin1(raw@).subrange(0, i as int));
    }
    assert(out@ =~= latin1(raw@));
    out
}

/// The spec view of an optional ranked text.
pub open spec fn ranked_view(o: Option<(u8, Vec<char>)>) -> Option<(u8, Seq<char>)> {
    match o {
        Some((r, v)) => Some((r, v@)),
        None => None,
    }
}

fn field_at(t: &[u8], i: usize, f: usize) -> (v: u16)
    requires
        i < 512,
        f < 6,
        name_record_fits(t@, i as int),
    ensures
        v == field(t@, i as int, f as int),
{
    match be16(t, 6 + 12 * i + 2 * f) {
        Some(v) => v,
        None => 0,
    }
}

/// The text record `i` offers for `id`, as `name_candidate` says.
fn name_candidate_of(t: &[u8], i: usize, id: u16) -> (r: Option<(u8, Vec<char>)>)
    requires
        i < 512,
        name_record_fits(t@, i as int),
    ensures
        ranked_view(r) == name_candidate(t@, i as int, id),
{
    let plat = field_at(t, i, 0);
    let enc = field_at(t, i, 1);
    let lang = field_at(t, i, 2);
    let nid = field_at(t, i, 3);
    let len = field_at(t, i, 4) as usize;
    let off = field_at(t, i, 5) as usize;
    let base: usize = match be16(t, 4) {
        Some(o) => o as usize,
        None => 0,
    };
    let start = base + off;
    if nid != id || start + len > t.len() {
        return None;
    }
    let raw = vstd::slice::slice_subrange(t, start, start + len);
    let rank: u8 = if plat == 3 || plat == 0 {
        if plat == 3 && lang == 0x0409 {
            3
        } else if plat == 3 {
            2
        } else {
            1
        }
    } else if plat == 1 && enc == 0 {
        0
    } else {
        return None;
    };
    let text = if rank == 0 {
        decode_latin1(raw)
    } else {
        decode_utf16(raw)
    };
    let text = strip_nul(text.as_slice());
    if text.len() == 0 {
        None
    } else {
        Some((rank, text))
    }
}

proof fn lemma_best_stops(t: Seq<u8>, id: u16, i: nat, k: nat)
    requires
        i <= k,
        !name_record_fits(t, i as int),
    ensures
        best_upto(t, id, k) == best_upto(t, id, i),
    decreases k,
{
    if k > i {
        lemma_best_stops(t, id, i, (k - 1) as nat);
    }
}

/// The text of name `id` in the `name` table `t`, as `name_spec` says.
pub fn best_name(t: &[u8], id: u16) -> (r: Option<Vec<char>>)
    requires
        wanted_name_id(id),
    ensures
        r is Some == name_spec(t@, id) is Some,
        r is Some ==> r->0@ == name_spec(t@, id)->0,
{
    let count: usize = match be16(t, 2) {
        Some(c) => c as usize,
        None => 0,
    };
    let limit = if count < 512 {
        count
    } else {
        512
    };
    let mut best: Option<(u8, Vec<char>)> = None;
    let mut i: usize = 0;
    while i < limit
        invariant
            limit == name_limit(t@),
            limit <= 512,
            i <= limit,
            ranked_view(best) == best_upto(t@, id, i as nat),
        ensures
            ranked_view(best) == best_upto(t@, id, limit as nat),
        decreases limit - i,
    {
        if t.len() < 18 || (t.len() - 18) / 12 < i {
            proof {
                assert(!name_record_fits(t@, i as int));
                lemma_best_stops(t@, id, i as nat, limit as nat);
            }
            break;
        }
        let cand = name_candidate_of(t, i, id);
        match cand {
            None => {},
            Some((rank, text)) => {
                let replace = match &best {
                    Some((r0, _)) => *r0 < rank,
                    None => true,
                };
                if replace {
                    best = Some((rank, text));
                }
            },
        }
        i = i + 1;
    }
    match best {
        Some((_, text)) => Some(text),
        None => None,
    }
}

/// The names a font's `name` table gives, by identifier.
pub struct NameTable {
    /// Name 1: font family.
    pub family: Option<String>,
    /// Name 2: font subfamily (style).
    pub subfamily: Option<String>,
    /// Name 4: full font name.
    pub full_name: Option<String>,
    /// Name 6: PostScript name.
    pub postscript: Option<String>,
    /// Name 16: typographic family.
    pub typographic_family: Option<String>,
    /// Name 17: typographic subfamily.
    pub typographic_subfamily: Option<String>,
}

/// The spec view of an optional string.
pub open spec fn opt_str(o: Option<String>) -> Option<Seq<char>> {
    match o {
        Some(s) => Some(s@),
        None => None,
    }
}

impl NameTable {
    /// The text held for `id` (`None` for identifiers that are not kept).
    pub open spec fn text(&self, id: u16) -> Option<Seq<char>> {
        if id == 1 {
            opt_str(self.family)
        } else if id == 2 {
            opt_str(self.subfamily)
        } else if id == 4 {
            opt_str(self.full_name)
        } else if id == 6 {
            opt_str(self.postscript)
        } else if id == 16 {
            opt_str(self.typographic_family)
        } else if id == 17 {
            opt_str(self.typographic_subfamily)
        } else {
            None
        }
    }

    /// The text held for `id`.
    pub fn get(&self, id: u16) -> (r: Option<&String>)
        ensures
            r is Some == self.text(id) is Some,
            r is Some ==> r->0@ == self.text(id)->0,
    {
        if id == 1 {
            self.family.as_ref()
        } else if id == 2 {
            self.subfamily.as_ref()
        } else if id == 4 {
            self.full_name.as_ref()
        } else if id == 6 {
            self.postscript.as_ref()
        } else if id == 16 {
            self.typographic_family.as_ref()
        } else if id == 17 {
            self.typographic_subfamily.as_ref()
        } else {
            None
        }
    }
}

fn name_string(t: &[u8], id: u16) -> (r: Option<String>)
    requires
        wanted_name_id(id),
    ensures
        opt_str(r) == name_spec(t@, id),
{
    match best_name(t, id) {
        Some(v) => Some(string_of(v.as_slice())),
        None => None,
    }
}

/// Reads the `name` table `t`: for each name identifier the catalog uses,
/// the text of the best record (Windows English over other Windows over
/// Unicode over Macintosh Roman; the first of equally good records wins).
pub fn parse_names(t: &[u8]) -> (r: NameTable)
    ensures
        forall|id: u16| #[trigger] r.text(id) == name_spec(t@, id),
{
    let r = NameTable {
        family: name_string(t, 1),
        subfamily: name_string(t, 2),
        full_name: name_string(t, 4),
        postscript: name_string(t, 6),
        typographic_family: name_string(t, 16),
        typographic_subfamily: name_string(t, 17),
    };
    r
}

/// The rank of a candidate (-1 for none).
pub open spec fn rank_of(c: Option<(u8, Seq<char>)>) -> int {
    match c {
        Some((r, _)) => r as int,
        None => -1,
    }
}

/// The text of a candidate (empty for none).
pub open spec fn text_of(c: Option<(u8, Seq<char>)>) -> Seq<char> {
    match c {
        Some((_, x)) => x,
        None => seq![],
    }
}

/// Whether name record `i` is examined.
pub open spec fn examined(t: Seq<u8>, i: int) -> bool {
    0 <= i < name_limit(t) && name_record_fits(t, i)
}

proof fn lemma_best_upto(t: Seq<u8>, id: u16, k: nat)
    ensures
        best_upto(t, id, k) matches Some((r, text)) ==> exists|i: int|
            0 <= i < k && examined(t, i) && name_candidate(t, i, id) == Some((r, text)) && (forall|
                j: int,
            |
                0 <= j < i && examined(t, j) && #[trigger] name_candidate(t, j, id) is Some
                    ==> rank_of(name_candidate(t, j, id)) < r),
        best_upto(t, id, k) matches Some((r, _)) ==> forall|j: int|
            0 <= j < k && examined(t, j) && #[trigger] name_candidate(t, j, id) is Some
                ==> rank_of(name_candidate(t, j, id)) <= r,
        best_upto(t, id, k) is None ==> forall|j: int|
            0 <= j < k && examined(t, j) ==> #[trigger] name_candidate(t, j, id) is None,
    decreases k,
{
    if k > 0 {
        let k1 = (k - 1) as nat;
        lemma_best_upto(t, id, k1);
        let prev = best_upto(t, id, k1);
        let i0 = k - 1;
        if examined(t, i0) && name_candidate(t, i0, id) is Some {
            let (rank, text) = name_candidate(t, i0, id)->0;
            match prev {
                Some((r0, x0)) => {
                    if r0 >= rank {
                        assert(best_upto(t, id, k) == prev);
                        let w = choose|i: int|
                            0 <= i < k1 && examined(t, i) && name_candidate(t, i, id) == Some(
                                (r0, x0),
                            ) && (forall|j: int|
                                0 <= j < i && examined(t, j) && #[trigger] name_candidate(t, j, id)
                                    is Some ==> rank_of(name_candidate(t, j, id)) < r0);
                        assert(0 <= w < k);
                    } else {
                        assert(best_upto(t, id, k) == Some((rank, text)));
                        assert(name_candidate(t, i0, id) == Some((rank, text)));
                    }
                },
                None => {
                    assert(best_upto(t, id, k) == Some((rank, text)));
                    assert(name_candidate(t, i0, id) == Some((rank, text)));
                },
            }
        } else {
            assert(best_upto(t, id, k) == prev);
            if let Some((r0, x0)) = prev {
                let w = choose|i: int|
                    0 <= i < k1 && examined(t, i) && name_candidate(t, i, id) == Some((r0, x0)) && (
                    forall|j: int|
                        0 <= j < i && examined(t, j) && #[trigger] name_candidate(t, j, id) is Some
                            ==> rank_of(name_candidate(t, j, id)) < r0);
                assert(0 <= w < k);
            }
        }
    }
}

/// Which record names a face: among the records examined (at most 512, up
/// to the first that runs past the table), the text comes from a record of
/// the highest rank present, and from the first record of that rank; when
/// no record qualifies there is no name.
pub proof fn lemma_name_is_first_best(t: Seq<u8>, id: u16)
    requires
        wanted_name_id(id),
    ensures
        name_spec(t, id) matches Some(text) ==> exists|i: int|
            #![trigger name_candidate(t, i, id)]
            examined(t, i) && name_candidate(t, i, id) is Some && text_of(name_candidate(t, i, id)) == text && (forall|j: int|
                examined(t, j) && #[trigger] name_candidate(t, j, id) is Some ==> rank_of(
                    name_candidate(t, j, id),
                ) <= rank_of(name_candidate(t, i, id))) && (forall|j: int|
                0 <= j < i && examined(t, j) && #[trigger] name_candidate(t, j, id) is Some
                    ==> rank_of(name_candidate(t, j, id)) < rank_of(name_candidate(t, i, id))),
        name_spec(t, id) is None ==> forall|j: int|
            examined(t, j) ==> #[trigger] name_candidate(t, j, id) is None,
{
    lemma_best_upto(t, id, name_limit(t) as nat);
}

} // verus!
