//! Reading one font face out of a font file: its names, weight, slant,
//! variation axes, served size and identifier; and the faces of a file
//! (one for `.ttf`/`.otf`, up to 64 for a `ttcf` collection).

use vstd::prelude::*;
use crate::axes::{Axis, AxisView, axes_view, axis_weight, fvar_spec, parse_fvar, weight_of_axis};
use crate::bytes::{be16_at, be32, be32_at};
use crate::fnv::{fnv_hex, fnv_hex_spec};
use crate::names::{name_spec, opt_str, parse_names, NameTable};
use crate::render::{dec_chars, decimal};
use crate::repack::table_bytes;
use crate::sfnt::{
    TableRecord, table_records, table_records_spec, records_in_bounds, lemma_records_upto_bounds,
    be16_plus, record_limit,
};
use crate::text::{
    chars_of, contains, has_infix, lowercase, lowercase_chars, push_all, string_of, trim, trim_spec,
};

verus! {

/// Where a font was found.
#[derive(Clone, Copy, Debug, PartialEq, Eq, Structural)]
pub enum Source {
    System,
    User,
    Adobe,
}

/// The container format of a font file.
#[derive(Clone, Copy, Debug, PartialEq, Eq, Structural)]
pub enum FontFormat {
    Ttf,
    Otf,
    Ttc,
}

/// The label of a source in the font list.
pub open spec fn source_text(s: Source) -> Seq<char> {
    match s {
        Source::System => "system"@,
        Source::User => "user"@,
        Source::Adobe => "adobe"@,
    }
}

/// The label of a format in the font list.
pub open spec fn format_text(f: FontFormat) -> Seq<char> {
    match f {
        FontFormat::Ttf => "ttf"@,
        FontFormat::Otf => "otf"@,
        FontFormat::Ttc => "ttc"@,
    }
}

impl Source {
    /// "system", "user" or "adobe".
    pub fn as_str(&self) -> (r: &'static str)
        ensures
            r@ == source_text(*self),
    {
        match self {
            Source::System => "system",
            Source::User => "user",
            Source::Adobe => "adobe",
        }
    }
}

impl FontFormat {
    /// "ttf", "otf" or "ttc".
    pub fn as_str(&self) -> (r: &'static str)
        ensures
            r@ == format_text(*self),
    {
        match self {
            FontFormat::Ttf => "ttf",
            FontFormat::Otf => "otf",
            FontFormat::Ttc => "ttc",
        }
    }
}

/// One face of an installed font, as listed to the editor.  `file` indexes
/// the list of scanned files that the caller keeps; paths never enter an
/// entry.
pub struct FontEntry {
    pub id: String,
    pub family: String,
    pub style: String,
    pub weight: u16,
    pub italic: bool,
    pub postscript: String,
    pub source: Source,
    pub format: FontFormat,
    pub file: usize,
    pub face_index: u32,
    /// Bytes the browser receives: the file, or the single face repacked
    /// out of a collection.
    pub size: u64,
    /// Variation axes of a variable font; empty for static faces.
    pub axes: Vec<Axis>,
}

/// The spec view of a font entry.
pub struct FontView {
    pub id: Seq<char>,
    pub family: Seq<char>,
    pub style: Seq<char>,
    pub weight: u16,
    pub italic: bool,
    pub postscript: Seq<char>,
    pub source: Source,
    pub format: FontFormat,
    pub file: usize,
    pub face_index: u32,
    pub size: u64,
    pub axes: Seq<AxisView>,
}

impl FontEntry {
    pub open spec fn view(&self) -> FontView {
        FontView {
            id: self.id@,
            family: self.family@,
            style: self.style@,
            weight: self.weight,
            italic: self.italic,
            postscript: self.postscript@,
            source: self.source,
            format: self.format,
            file: self.file,
            face_index: self.face_index,
            size: self.size,
            axes: axes_view(self.axes@),
        }
    }
}

/// Views of a list of entries.
pub open spec fn entries_view(v: Seq<FontEntry>) -> Seq<FontView> {
    Seq::new(v.len(), |i: int| v[i].view())
}

/// Table tags, as big-endian `u32`s.
pub const TAG_NAME: u32 = 0x6e616d65;

pub const TAG_OS2: u32 = 0x4f532f32;

pub const TAG_HEAD: u32 = 0x68656164;

pub const TAG_FVAR: u32 = 0x66766172;

/// The table with this tag; when the directory repeats a tag, the last
/// entry counts.
pub open spec fn find_table(rs: Seq<TableRecord>, tag: u32) -> Option<TableRecord>
    decreases rs.len(),
{
    if rs.len() == 0 {
        None
    } else if rs.last().tag == tag {
        Some(rs.last())
    } else {
        find_table(rs.drop_last(), tag)
    }
}

/// `len` rounded up to a multiple of four.
pub open spec fn round4(len: nat) -> nat {
    if len % 4 == 0 {
        len
    } else {
        (len / 4 + 1) * 4
    }
}

/// The rounded lengths of the first `k` records, added up.
pub open spec fn rounded_total(rs: Seq<TableRecord>, k: nat) -> nat
    decreases k,
{
    if k == 0 {
        0
    } else {
        rounded_total(rs, (k - 1) as nat) + round4(rs[k - 1].length as nat)
    }
}

/// Served size of a collection face, the length of the face repacked on
/// its own: a 12-byte header, 16 bytes per directory entry and each table
/// rounded up to four bytes (mod 2^64).
pub open spec fn ttc_face_size(rs: Seq<TableRecord>) -> u64 {
    ((12 + 16 * rs.len() + rounded_total(rs, rs.len())) % 0x1_0000_0000_0000_0000) as u64
}

/// Weight and italic after the OS/2 table (usWeightClass when in
/// 1..=1000; fsSelection ITALIC; BOLD moves the default 400 to 700).
pub open spec fn os2_style(b: Seq<u8>, os2: Option<TableRecord>) -> (u16, bool) {
    match os2 {
        Some(t) if t.length >= 64 => {
            let o = t.offset as int;
            let w = match be16_at(b, o + 4) {
                Some(w) if 1 <= w <= 1000 => w,
                _ => 400u16,
            };
            match be16_at(b, o + 62) {
                Some(sel) => (
                    if sel & 0x20 != 0 && w == 400 {
                        700u16
                    } else {
                        w
                    },
                    sel & 1 != 0,
                ),
                None => (w, false),
            }
        },
        _ => (400u16, false),
    }
}

/// Weight and italic after the head table's macStyle (italic bit sets
/// italic; bold bit moves 400 to 700).
pub open spec fn head_style(b: Seq<u8>, head: Option<TableRecord>, w: u16, it: bool) -> (
    u16,
    bool,
) {
    match head {
        Some(t) => match be16_at(b, t.offset + 44) {
            Some(m) => (
                if m & 1 != 0 && w == 400 {
                    700u16
                } else {
                    w
                },
                it || m & 2 != 0,
            ),
            None => (w, it),
        },
        None => (w, it),
    }
}

/// "Regular".
pub open spec fn regular_chars() -> Seq<char> {
    seq!['R', 'e', 'g', 'u', 'l', 'a', 'r']
}

/// "italic".
pub open spec fn italic_chars() -> Seq<char> {
    seq!['i', 't', 'a', 'l', 'i', 'c']
}

/// "oblique".
pub open spec fn oblique_chars() -> Seq<char> {
    seq!['o', 'b', 'l', 'i', 'q', 'u', 'e']
}

/// "wght".
pub open spec fn wght_chars() -> Seq<char> {
    seq!['w', 'g', 'h', 't']
}

/// The first `wght` axis.
pub open spec fn first_wght(axes: Seq<AxisView>) -> Option<AxisView>
    decreases axes.len(),
{
    if axes.len() == 0 {
        None
    } else if axes[0].tag == wght_chars() {
        Some(axes[0])
    } else {
        first_wght(axes.drop_first())
    }
}

/// The text hashed into a face's identifier: `"<path>#<face index>"`.
pub open spec fn id_source(path: Seq<char>, face_index: u32) -> Seq<char> {
    path + seq!['#'] + dec_chars(face_index as nat)
}

/// The family name: typographic family, else family.
pub open spec fn family_name(t: Seq<u8>) -> Option<Seq<char>> {
    match name_spec(t, 16) {
        Some(x) => Some(x),
        None => name_spec(t, 1),
    }
}

/// The style name: typographic subfamily, else subfamily, else "Regular".
pub open spec fn style_name(t: Seq<u8>) -> Seq<char> {
    match name_spec(t, 17) {
        Some(x) => x,
        None => match name_spec(t, 2) {
            Some(x) => x,
            None => regular_chars(),
        },
    }
}

/// Whether a family name is listed: not blank, and not one of the
/// interface-only faces whose names begin with a dot.
pub open spec fn family_listed(family: Seq<char>) -> bool {
    trim_spec(family).len() > 0 && trim_spec(family)[0] != '.'
}

/// Weight, italic flag and variation axes of a face whose directory is
/// `rs` and whose style name is `style`.
pub open spec fn face_shape(b: Seq<u8>, rs: Seq<TableRecord>, style: Seq<char>) -> (
    u16,
    bool,
    Seq<AxisView>,
) {
    let (w1, i1) = os2_style(b, find_table(rs, TAG_OS2));
    let (w2, i2) = head_style(b, find_table(rs, TAG_HEAD), w1, i1);
    let lower = lowercase_chars(style);
    let italic = i2 || has_infix(lower, italic_chars()) || has_infix(lower, oblique_chars());
    let axes = match find_table(rs, TAG_FVAR) {
        Some(f) => fvar_spec(table_bytes(b, f)),
        None => seq![],
    };
    let weight = match first_wght(axes) {
        Some(a) => axis_weight(a.def),
        None => w2,
    };
    (weight, italic, axes)
}

/// The entry for a face with directory `rs` and name table `t`.
pub open spec fn face_from(
    b: Seq<u8>,
    rs: Seq<TableRecord>,
    t: Seq<u8>,
    path: Seq<char>,
    source: Source,
    file: usize,
    face_index: u32,
    format: FontFormat,
) -> Option<FontView> {
    match family_name(t) {
        None => None,
        Some(family) => if !family_listed(family) {
            None
        } else {
            let style = style_name(t);
            let postscript = match name_spec(t, 6) {
                Some(x) => x,
                None => seq![],
            };
            let (weight, italic, axes) = face_shape(b, rs, style);
            Some(
                FontView {
                    id: fnv_hex_spec(id_source(path, face_index)),
                    family: trim_spec(family),
                    style: trim_spec(style),
                    weight,
                    italic,
                    postscript: trim_spec(postscript),
                    source,
                    format,
                    file,
                    face_index,
                    size: if format == FontFormat::Ttc {
                        ttc_face_size(rs)
                    } else {
                        b.len() as u64
                    },
                    axes,
                },
            )
        },
    }
}

/// The entry for the face whose offset table is at `off`, or `None` when
/// the directory cannot be read, there is no name table, the family is
/// missing or blank, or the family starts with a dot.
pub open spec fn face_spec(
    b: Seq<u8>,
    off: int,
    path: Seq<char>,
    source: Source,
    file: usize,
    face_index: u32,
    format: FontFormat,
) -> Option<FontView> {
    match table_records_spec(b, off) {
        None => None,
        Some(rs) => match find_table(rs, TAG_NAME) {
            None => None,
            Some(nt) => face_from(b, rs, table_bytes(b, nt), path, source, file, face_index, format),
        },
    }
}

/// The last record with this tag.
pub fn find_record(rs: &Vec<TableRecord>, tag: u32) -> (r: Option<TableRecord>)
    ensures
        r == find_table(rs@, tag),
{
    let mut i = rs.len();
    assert(rs@.subrange(0, i as int) =~= rs@);
    while i > 0
        invariant
            i <= rs@.len(),
            find_table(rs@, tag) == find_table(rs@.subrange(0, i as int), tag),
        decreases i,
    {
        let ghost pre = rs@.subrange(0, i as int);
        assert(pre.drop_last() =~= rs@.subrange(0, i - 1));
        if rs[i - 1].tag == tag {
            return Some(rs[i - 1]);
        }
        i = i - 1;
    }
    None
}

proof fn lemma_mod_step(a: int, x: int)
    requires
        a >= 0,
        x >= 0,
    ensures
        ((a % 0x1_0000_0000_0000_0000) + (x % 0x1_0000_0000_0000_0000)) % 0x1_0000_0000_0000_0000
            == (a + x) % 0x1_0000_0000_0000_0000,
{
    vstd::arithmetic::div_mod::lemma_add_mod_noop(a, x, 0x1_0000_0000_0000_0000);
}

/// Served size of a collection face, as `ttc_face_size` says.
pub fn ttc_size(rs: &Vec<TableRecord>) -> (r: u64)
    requires
        rs@.len() <= 64,
    ensures
        r == ttc_face_size(rs@),
{
    let mut sum: u64 = 0;
    let mut i: usize = 0;
    while i < rs.len()
        invariant
            i <= rs@.len() <= 64,
            sum == rounded_total(rs@, i as nat) % 0x1_0000_0000_0000_0000,
        decreases rs@.len() - i,
    {
        let l = rs[i].length;
        let q = (l / 4) as u64;
        let r4: u64 = if l % 4 == 0 {
            q * 4
        } else {
            (q + 1).wrapping_mul(4)
        };
        assert(r4 == round4(l as nat) % 0x1_0000_0000_0000_0000);
        proof {
            lemma_mod_step(rounded_total(rs@, i as nat) as int, round4(l as nat) as int);
        }
        sum = sum.wrapping_add(r4);
        i = i + 1;
    }
    let n = rs.len() as u64;
    proof {
        lemma_mod_step((12 + 16 * n) as int, rounded_total(rs@, rs@.len()) as int);
    }
    (12 + 16 * n).wrapping_add(sum)
}

/// Weight and italic from the OS/2 table, as `os2_style` says.
fn os2_weight(b: &[u8], os2: Option<TableRecord>) -> (r: (u16, bool))
    requires
        os2 matches Some(t) ==> t.offset + t.length <= b@.len(),
    ensures
        r == os2_style(b@, os2),
{
    match os2 {
        Some(t) => {
            if t.length >= 64 {
                let o = t.offset;
                let w: u16 = match be16_plus(b, o, 4) {
                    Some(w) => if 1 <= w && w <= 1000 {
                        w
                    } else {
                        400
                    },
                    None => 400,
                };
                match be16_plus(b, o, 62) {
                    Some(sel) => {
                        let w2 = if sel & 0x20 != 0 && w == 400 {
                            700
                        } else {
                            w
                        };
                        (w2, sel & 1 != 0)
                    },
                    None => (w, false),
                }
            } else {
                (400, false)
            }
        },
        None => (400, false),
    }
}

/// Weight and italic after the head table, as `head_style` says.
fn head_weight(b: &[u8], head: Option<TableRecord>, w: u16, it: bool) -> (r: (u16, bool))
    ensures
        r == head_style(b@, head, w, it),
{
    match head {
        Some(t) => match be16_plus(b, t.offset, 44) {
            Some(m) => {
                let w2 = if m & 1 != 0 && w == 400 {
                    700
                } else {
                    w
                };
                (w2, it || m & 2 != 0)
            },
            None => (w, it),
        },
        None => (w, it),
    }
}

/// The default of the first `wght` axis.
fn wght_default(axes: &Vec<Axis>) -> (r: Option<i32>)
    ensures
        r is Some == first_wght(axes_view(axes@)) is Some,
        r is Some ==> r->0 == first_wght(axes_view(axes@))->0.def,
{
    let wght: Vec<char> = vec!['w', 'g', 'h', 't'];
    assert(wght@ =~= wght_chars());
    assert(axes_view(axes@).skip(0) =~= axes_view(axes@));
    let mut i: usize = 0;
    while i < axes.len()
        invariant
            i <= axes@.len(),
            wght@ == wght_chars(),
            first_wght(axes_view(axes@)) == first_wght(axes_view(axes@).skip(i as int)),
        decreases axes@.len() - i,
    {
        let ghost rest = axes_view(axes@).skip(i as int);
        assert(rest[0] == axes@[i as int].view());
        assert(rest.drop_first() =~= axes_view(axes@).skip(i + 1));
        let tag = chars_of(axes[i].tag.as_str());
        if tag.len() == 4 && tag[0] == 'w' && tag[1] == 'g' && tag[2] == 'h' && tag[3] == 't' {
            assert(tag@ =~= wght_chars());
            return Some(axes[i].def);
        }
        assert(tag@ != wght_chars()) by {
            if tag@ == wght_chars() {
                assert(tag@[0] == 'w');
            }
        }
        i = i + 1;
    }
    assert(axes_view(axes@).skip(i as int) =~= Seq::<AxisView>::empty());
    None
}

fn opt_or(a: Option<String>, b: Option<String>) -> (r: Option<String>)
    ensures
        opt_str(r) == match opt_str(a) {
            Some(x) => Some(x),
            None => opt_str(b),
        },
{
    match a {
        Some(x) => Some(x),
        None => b,
    }
}

fn trimmed(s: &String) -> (r: String)
    ensures
        r@ == trim_spec(s@),
{
    let cs = chars_of(s.as_str());
    let t = trim(cs.as_slice());
    string_of(t.as_slice())
}

/// The identifier of a face: 16 hex digits hashing `"<path>#<index>"`.
pub fn face_id(path: &str, face_index: u32) -> (r: String)
    ensures
        r@ == fnv_hex_spec(id_source(path@, face_index)),
{
    let mut cs = chars_of(path);
    cs.push('#');
    let digits = decimal(face_index as u128);
    push_all(&mut cs, digits.as_slice());
    assert(cs@ =~= id_source(path@, face_index));
    let key = string_of(cs.as_slice());
    fnv_hex(key.as_str())
}

/// Whether the family is listed, as `family_listed` says.
fn listed(family: &String) -> (b: bool)
    ensures
        b == family_listed(family@),
{
    let t = trimmed(family);
    let cs = chars_of(t.as_str());
    cs.len() > 0 && cs[0] != '.'
}

/// Whether a style name marks an italic or oblique face.
fn style_is_italic(style: &String) -> (b: bool)
    ensures
        b == (has_infix(lowercase_chars(style@), italic_chars()) || has_infix(
            lowercase_chars(style@),
            oblique_chars(),
        )),
{
    let lower = lowercase(style.as_str());
    let cs = chars_of(lower.as_str());
    let it: Vec<char> = vec!['i', 't', 'a', 'l', 'i', 'c'];
    let ob: Vec<char> = vec!['o', 'b', 'l', 'i', 'q', 'u', 'e'];
    assert(it@ =~= italic_chars());
    assert(ob@ =~= oblique_chars());
    contains(cs.as_slice(), it.as_slice()) || contains(cs.as_slice(), ob.as_slice())
}

/// Weight, italic flag and axes, as `face_shape` says.
fn shape_of(bytes: &[u8], recs: &Vec<TableRecord>, style: &String) -> (r: (u16, bool, Vec<Axis>))
    requires
        records_in_bounds(bytes@, recs@),
    ensures
        (r.0, r.1, axes_view(r.2@)) == face_shape(bytes@, recs@, style@),
{
    proof {
        lemma_find_in(recs@, TAG_OS2);
        lemma_find_in(recs@, TAG_HEAD);
        lemma_find_in(recs@, TAG_FVAR);
    }
    let blen = bytes.len();
    let (w1, i1) = os2_weight(bytes, find_record(recs, TAG_OS2));
    let (w2, i2) = head_weight(bytes, find_record(recs, TAG_HEAD), w1, i1);
    let italic = i2 || style_is_italic(style);
    let axes = match find_record(recs, TAG_FVAR) {
        Some(f) => parse_fvar(vstd::slice::slice_subrange(bytes, f.offset, f.offset + f.length)),
        None => {
            let v: Vec<Axis> = Vec::new();
            assert(axes_view(v@) =~= Seq::<AxisView>::empty());
            v
        },
    };
    let weight = match wght_default(&axes) {
        Some(def) => weight_of_axis(def),
        None => w2,
    };
    (weight, italic, axes)
}

/// The entry for a face, as `face_from` says.
fn entry_from(
    bytes: &[u8],
    recs: &Vec<TableRecord>,
    names: NameTable,
    path: &str,
    source: Source,
    file: usize,
    face_index: u32,
    format: FontFormat,
    t: Ghost<Seq<u8>>,
) -> (r: Option<FontEntry>)
    requires
        records_in_bounds(bytes@, recs@),
        recs@.len() <= 64,
        forall|id: u16| #[trigger] names.text(id) == name_spec(t@, id),
    ensures
        r is Some == face_from(bytes@, recs@, t@, path@, source, file, face_index, format) is Some,
        r is Some ==> r->0.view() == face_from(
            bytes@,
            recs@,
            t@,
            path@,
            source,
            file,
            face_index,
            format,
        )->0,
{
    assert(names.text(16) == name_spec(t@, 16));
    assert(names.text(17) == name_spec(t@, 17));
    assert(names.text(1) == name_spec(t@, 1));
    assert(names.text(2) == name_spec(t@, 2));
    assert(names.text(6) == name_spec(t@, 6));
    let family = match opt_or(names.typographic_family, names.family) {
        Some(f) => f,
        None => return None,
    };
    if !listed(&family) {
        return None;
    }
    let style = match opt_or(names.typographic_subfamily, names.subfamily) {
        Some(s) => s,
        None => {
            let reg: Vec<char> = vec!['R', 'e', 'g', 'u', 'l', 'a', 'r'];
            assert(reg@ =~= regular_chars());
            string_of(reg.as_slice())
        },
    };
    let postscript = match names.postscript {
        Some(p) => p,
        None => {
            let empty: Vec<char> = Vec::new();
            string_of(empty.as_slice())
        },
    };
    let size: u64 = if format == FontFormat::Ttc {
        ttc_size(recs)
    } else {
        bytes.len() as u64
    };
    let (weight, italic, axes) = shape_of(bytes, recs, &style);
    Some(
        FontEntry {
            id: face_id(path, face_index),
            family: trimmed(&family),
            style: trimmed(&style),
            weight,
            italic,
            postscript: trimmed(&postscript),
            source,
            format,
            file,
            face_index,
            size,
            axes,
        },
    )
}

/// Reads the face whose offset table starts at `off`, as `face_spec` says.
/// `path` is the file's display text, hashed into the identifier.
pub fn parse_face(
    bytes: &[u8],
    off: usize,
    path: &str,
    source: Source,
    file: usize,
    face_index: u32,
    format: FontFormat,
) -> (r: Option<FontEntry>)
    ensures
        r is Some == face_spec(bytes@, off as int, path@, source, file, face_index, format) is Some,
        r is Some ==> r->0.view() == face_spec(
            bytes@,
            off as int,
            path@,
            source,
            file,
            face_index,
            format,
        )->0,
{
    let recs = match table_records(bytes, off) {
        Some(v) => v,
        None => return None,
    };
    proof {
        let nt = be16_at(bytes@, off + 4)->0;
        lemma_records_upto_bounds(bytes@, off as int, record_limit(nt) as nat);
        lemma_find_in(recs@, TAG_NAME);
    }
    let nrec = match find_record(&recs, TAG_NAME) {
        Some(t) => t,
        None => return None,
    };
    let blen = bytes.len();
    let ntab = vstd::slice::slice_subrange(bytes, nrec.offset, nrec.offset + nrec.length);
    let names = parse_names(ntab);
    entry_from(bytes, &recs, names, path, source, file, face_index, format, Ghost(ntab@))
}

/// A table found by tag is one of the records.
proof fn lemma_find_in(rs: Seq<TableRecord>, tag: u32)
    ensures
        find_table(rs, tag) matches Some(t) ==> exists|k: int| 0 <= k < rs.len() && rs[k] == t,
    decreases rs.len(),
{
    if rs.len() > 0 && rs.last().tag != tag {
        lemma_find_in(rs.drop_last(), tag);
        if let Some(t) = find_table(rs.drop_last(), tag) {
            let k = choose|k: int| 0 <= k < rs.drop_last().len() && rs.drop_last()[k] == t;
            assert(rs[k] == t);
        }
    } else if rs.len() > 0 {
        assert(rs[rs.len() - 1] == rs.last());
    }
}

/// Collection magic `ttcf`.
pub const MAGIC_TTC: u32 = 0x74746366;

/// TrueType magic 0x00010000.
pub const MAGIC_TRUETYPE: u32 = 0x00010000;

/// Apple TrueType magic `true`.
pub const MAGIC_TRUE: u32 = 0x74727565;

/// CFF OpenType magic `OTTO`.
pub const MAGIC_OTTO: u32 = 0x4f54544f;

/// Number of collection faces read: the header's count, at most 64.
pub open spec fn ttc_face_limit(b: Seq<u8>) -> nat {
    let n = match be32_at(b, 8) {
        Some(n) => n as nat,
        None => 0,
    };
    if n < 64 {
        n
    } else {
        64
    }
}

/// The faces among the first `k` collection entries.
pub open spec fn ttc_faces_upto(
    b: Seq<u8>,
    path: Seq<char>,
    source: Source,
    file: usize,
    k: nat,
) -> Seq<FontView>
    decreases k,
{
    if k == 0 {
        seq![]
    } else {
        let prev = ttc_faces_upto(b, path, source, file, (k - 1) as nat);
        match be32_at(b, 12 + 4 * (k - 1)) {
            Some(off) => match face_spec(
                b,
                off as int,
                path,
                source,
                file,
                (k - 1) as u32,
                FontFormat::Ttc,
            ) {
                Some(e) => prev.push(e),
                None => prev,
            },
            None => prev,
        }
    }
}

/// The single face of a non-collection file in `format`, if it reads.
pub open spec fn single_face(
    b: Seq<u8>,
    path: Seq<char>,
    source: Source,
    file: usize,
    format: FontFormat,
) -> Seq<FontView> {
    match face_spec(b, 0, path, source, file, 0, format) {
        Some(e) => seq![e],
        None => seq![],
    }
}

/// The faces of a font file: every readable face of a `ttcf` collection
/// (face index = position in the collection), the one face of a TrueType
/// (`00 01 00 00` or `true`) or CFF (`OTTO`) file, nothing otherwise.
pub open spec fn file_faces(b: Seq<u8>, path: Seq<char>, source: Source, file: usize) -> Seq<
    FontView,
> {
    let magic = be32_at(b, 0)->0;
    if magic == MAGIC_TTC {
        ttc_faces_upto(b, path, source, file, ttc_face_limit(b))
    } else if magic == MAGIC_TRUETYPE || magic == MAGIC_TRUE {
        single_face(b, path, source, file, FontFormat::Ttf)
    } else if magic == MAGIC_OTTO {
        single_face(b, path, source, file, FontFormat::Otf)
    } else {
        seq![]
    }
}

/// Reads every face of a font file, as `file_faces` says.  `file` is the
/// caller's index for the file and `path` its display text.
pub fn parse_file(bytes: &[u8], path: &str, source: Source, file: usize) -> (r: Vec<FontEntry>)
    requires
        bytes@.len() >= 4,
    ensures
        entries_view(r@) == file_faces(bytes@, path@, source, file),
{
    let mut out: Vec<FontEntry> = Vec::new();
    let magic = match be32(bytes, 0) {
        Some(m) => m,
        None => 0,
    };
    if magic == MAGIC_TTC {
        let count = match be32(bytes, 8) {
            Some(n) => n,
            None => 0,
        };
        let n: u32 = if count < 64 {
            count
        } else {
            64
        };
        let mut i: u32 = 0;
        while i < n
            invariant
                n == ttc_face_limit(bytes@),
                n <= 64,
                i <= n,
                entries_view(out@) == ttc_faces_upto(bytes@, path@, source, file, i as nat),
            decreases n - i,
        {
            let ghost before = out@;
            match be32(bytes, 12 + 4 * (i as usize)) {
                Some(off) => match parse_face(
                    bytes,
                    off as usize,
                    path,
                    source,
                    file,
                    i,
                    FontFormat::Ttc,
                ) {
                    Some(e) => {
                        out.push(e);
                        assert(entries_view(out@) =~= entries_view(before).push(e.view()));
                    },
                    None => {},
                },
                None => {},
            }
            i = i + 1;
        }
        return out;
    }
    let format = if magic == MAGIC_TRUETYPE || magic == MAGIC_TRUE {
        FontFormat::Ttf
    } else if magic == MAGIC_OTTO {
        FontFormat::Otf
    } else {
        assert(entries_view(out@) =~= Seq::<FontView>::empty());
        return out;
    };
    match parse_face(bytes, 0, path, source, file, 0, format) {
        Some(e) => {
            out.push(e);
            assert(entries_view(out@) =~= seq![e.view()]);
        },
        None => {
            assert(entries_view(out@) =~= Seq::<FontView>::empty());
        },
    }
    out
}

/// Whether `c` is a lowercase hexadecimal digit.
pub open spec fn is_hex_digit(c: char) -> bool {
    ('0' <= c <= '9') || ('a' <= c <= 'f')
}

proof fn lemma_hex_digits(v: nat, k: nat)
    ensures
        crate::render::hex_chars(v, k).len() == k,
        forall|i: int|
            0 <= i < k ==> is_hex_digit(#[trigger] crate::render::hex_chars(v, k)[i]),
    decreases k,
{
    if k > 0 {
        lemma_hex_digits(v / 16, (k - 1) as nat);
        let prev = crate::render::hex_chars(v / 16, (k - 1) as nat);
        assert forall|i: int| 0 <= i < k implies is_hex_digit(
            #[trigger] crate::render::hex_chars(v, k)[i],
        ) by {
            if i < k - 1 {
                assert(crate::render::hex_chars(v, k)[i] == prev[i]);
            }
        }
    }
}

proof fn lemma_axes_count(t: Seq<u8>, k: nat)
    ensures
        crate::axes::axes_upto(t, k).len() <= k,
    decreases k,
{
    if k > 0 {
        lemma_axes_count(t, (k - 1) as nat);
    }
}

/// What every listed face satisfies: its family is not blank and does not
/// start with a dot (interface-only faces), family, style and PostScript
/// name carry no surrounding whitespace, its weight lies in 1..=1000, its
/// identifier is 16 lowercase hex digits, and it has at most 16 axes.
pub proof fn lemma_face_entry_shape(
    b: Seq<u8>,
    off: int,
    path: Seq<char>,
    source: Source,
    file: usize,
    face_index: u32,
    format: FontFormat,
)
    requires
        face_spec(b, off, path, source, file, face_index, format) is Some,
    ensures
        ({
            let v = face_spec(b, off, path, source, file, face_index, format)->0;
            &&& v.family.len() > 0 && v.family[0] != '.'
            &&& v.family == trim_spec(v.family)
            &&& v.style == trim_spec(v.style)
            &&& v.postscript == trim_spec(v.postscript)
            &&& 1 <= v.weight <= 1000
            &&& v.id.len() == 16
            &&& forall|i: int| 0 <= i < 16 ==> is_hex_digit(#[trigger] v.id[i])
            &&& v.axes.len() <= 16
            &&& v.source == source && v.format == format && v.file == file && v.face_index
                == face_index
        }),
{
    let rs = table_records_spec(b, off)->0;
    let nt = find_table(rs, TAG_NAME)->0;
    let t = table_bytes(b, nt);
    let family = family_name(t)->0;
    let style = style_name(t);
    let v = face_spec(b, off, path, source, file, face_index, format)->0;
    lemma_hex_digits(crate::fnv::fnv64(vstd::utf8::encode_utf8(id_source(path, face_index))) as nat, 16);
    crate::text::lemma_trim_idempotent(family);
    crate::text::lemma_trim_idempotent(style);
    let postscript = match name_spec(t, 6) {
        Some(x) => x,
        None => seq![],
    };
    crate::text::lemma_trim_idempotent(postscript);
    match find_table(rs, TAG_FVAR) {
        Some(f) => {
            let ft = table_bytes(b, f);
            if !(be16_at(ft, 4) is None || be16_at(ft, 8) is None || be16_at(ft, 10) is None) {
                lemma_axes_count(ft, crate::axes::axis_limit(ft) as nat);
            }
        },
        None => {},
    }
}

/// The size listed for a face: the file's length, or for a collection
/// face `ttc_face_size` of its directory, which has a name table.
pub proof fn lemma_face_size(
    b: Seq<u8>,
    off: int,
    path: Seq<char>,
    source: Source,
    file: usize,
    face_index: u32,
    format: FontFormat,
)
    requires
        face_spec(b, off, path, source, file, face_index, format) is Some,
    ensures
        table_records_spec(b, off) is Some,
        find_table(table_records_spec(b, off)->0, TAG_NAME) is Some,
        face_spec(b, off, path, source, file, face_index, format)->0.size == if format
            == FontFormat::Ttc {
            ttc_face_size(table_records_spec(b, off)->0)
        } else {
            b.len() as u64
        },
{
}

/// Each source has a label of its own, "system", "user" and "adobe"; each
/// format likewise, "ttf", "otf" and "ttc".  No two sources, and no two
/// formats, share a label.
pub proof fn lemma_labels(s1: Source, s2: Source, f1: FontFormat, f2: FontFormat)
    ensures
        s1 == Source::System ==> source_text(s1) == seq!['s', 'y', 's', 't', 'e', 'm'],
        s1 == Source::User ==> source_text(s1) == seq!['u', 's', 'e', 'r'],
        s1 == Source::Adobe ==> source_text(s1) == seq!['a', 'd', 'o', 'b', 'e'],
        (source_text(s1) == source_text(s2)) == (s1 == s2),
        f1 == FontFormat::Ttf ==> format_text(f1) == seq!['t', 't', 'f'],
        f1 == FontFormat::Otf ==> format_text(f1) == seq!['o', 't', 'f'],
        f1 == FontFormat::Ttc ==> format_text(f1) == seq!['t', 't', 'c'],
        (format_text(f1) == format_text(f2)) == (f1 == f2),
{
    reveal_strlit("system");
    reveal_strlit("user");
    reveal_strlit("adobe");
    reveal_strlit("ttf");
    reveal_strlit("otf");
    reveal_strlit("ttc");
    assert("system"@ =~= seq!['s', 'y', 's', 't', 'e', 'm']);
    assert("user"@ =~= seq!['u', 's', 'e', 'r']);
    assert("adobe"@ =~= seq!['a', 'd', 'o', 'b', 'e']);
    assert("ttf"@ =~= seq!['t', 't', 'f']);
    assert("otf"@ =~= seq!['o', 't', 'f']);
    assert("ttc"@ =~= seq!['t', 't', 'c']);
    if s1 != s2 {
        assert(source_text(s1)[0] != source_text(s2)[0] || source_text(s1).len() != source_text(
            s2,
        ).len());
    }
    if f1 != f2 {
        assert(format_text(f1)[0] != format_text(f2)[0] || format_text(f1)[2] != format_text(
            f2,
        )[2]);
    }
}

/// The names of a listed face come from its name table, typographic names
/// first: the style is name 17, else name 2, else "Regular"; the family is
/// name 16, else name 1; the PostScript name is name 6, else empty; each
/// trimmed.  Its identifier hashes `"<path>#<face index>"`.
pub proof fn lemma_face_names(
    b: Seq<u8>,
    off: int,
    path: Seq<char>,
    source: Source,
    file: usize,
    face_index: u32,
    format: FontFormat,
)
    requires
        face_spec(b, off, path, source, file, face_index, format) is Some,
    ensures
        table_records_spec(b, off) is Some,
        find_table(table_records_spec(b, off)->0, 0x6e616d65u32) is Some,
        ({
            let t = table_bytes(b, find_table(table_records_spec(b, off)->0, 0x6e616d65u32)->0);
            let v = face_spec(b, off, path, source, file, face_index, format)->0;
            &&& name_spec(t, 17) matches Some(x) ==> v.style == trim_spec(x)
            &&& name_spec(t, 17) is None ==> (name_spec(t, 2) matches Some(y) ==> v.style
                == trim_spec(y))
            &&& (name_spec(t, 17) is None && name_spec(t, 2) is None) ==> v.style == seq![
                'R',
                'e',
                'g',
                'u',
                'l',
                'a',
                'r',
            ]
            &&& name_spec(t, 16) matches Some(x) ==> v.family == trim_spec(x)
            &&& name_spec(t, 16) is None ==> (name_spec(t, 1) matches Some(y) ==> v.family
                == trim_spec(y))
            &&& name_spec(t, 6) matches Some(x) ==> v.postscript == trim_spec(x)
            &&& name_spec(t, 6) is None ==> v.postscript.len() == 0
            &&& v.id == fnv_hex_spec(path + seq!['#'] + dec_chars(face_index as nat))
        }),
{
    let rs = table_records_spec(b, off)->0;
    let t = table_bytes(b, find_table(rs, TAG_NAME)->0);
    let v = face_spec(b, off, path, source, file, face_index, format)->0;
    assert(face_spec(b, off, path, source, file, face_index, format) == face_from(
        b,
        rs,
        t,
        path,
        source,
        file,
        face_index,
        format,
    ));
    assert(v.style == trim_spec(style_name(t)));
    assert(v.family == trim_spec(family_name(t)->0));
    let r = regular_chars();
    let p = crate::text::ws_pred();
    crate::text::lemma_lead_by(r, p, 0);
    crate::text::lemma_trail_by(r.subrange(0, 7), p, 0);
    assert(r.subrange(0, 7) =~= r);
    let e: Seq<char> = seq![];
    crate::text::lemma_lead_by(e, p, 0);
    crate::text::lemma_trail_by(e.subrange(0, 0), p, 0);
}

/// A face is listed exactly when its table directory reads, it has a name
/// table, and that table names a family (name 16, else name 1) that is not
/// blank and does not start with a dot once trimmed.
pub proof fn lemma_face_listed(
    b: Seq<u8>,
    off: int,
    path: Seq<char>,
    source: Source,
    file: usize,
    face_index: u32,
    format: FontFormat,
)
    ensures
        face_spec(b, off, path, source, file, face_index, format) is Some <==> ({
            &&& table_records_spec(b, off) is Some
            &&& find_table(table_records_spec(b, off)->0, 0x6e616d65u32) is Some
            &&& ({
                let t = table_bytes(
                    b,
                    find_table(table_records_spec(b, off)->0, 0x6e616d65u32)->0,
                );
                let fam = if name_spec(t, 16) is Some {
                    name_spec(t, 16)->0
                } else {
                    name_spec(t, 1)->0
                };
                &&& (name_spec(t, 16) is Some || name_spec(t, 1) is Some)
                &&& trim_spec(fam).len() > 0
                &&& trim_spec(fam)[0] != '.'
            })
        }),
{
}

/// The first four bytes decide how a file is read: `00 01 00 00` and
/// `true` give its face at offset 0 as TrueType, `OTTO` as CFF OpenType
/// (each only when that face is listed), `ttcf` gives the faces of the
/// collection, and any other start gives no face.
pub proof fn lemma_file_magic(b: Seq<u8>, path: Seq<char>, source: Source, file: usize)
    requires
        b.len() >= 4,
    ensures
        ((b[0] == 0 && b[1] == 1 && b[2] == 0 && b[3] == 0) || (b[0] == 0x74 && b[1] == 0x72
            && b[2] == 0x75 && b[3] == 0x65)) ==> file_faces(b, path, source, file) == (match face_spec(
            b,
            0,
            path,
            source,
            file,
            0,
            FontFormat::Ttf,
        ) {
            Some(v) => seq![v],
            None => Seq::<FontView>::empty(),
        }),
        (b[0] == 0x4f && b[1] == 0x54 && b[2] == 0x54 && b[3] == 0x4f) ==> file_faces(
            b,
            path,
            source,
            file,
        ) == (match face_spec(b, 0, path, source, file, 0, FontFormat::Otf) {
            Some(v) => seq![v],
            None => Seq::<FontView>::empty(),
        }),
        (b[0] == 0x74 && b[1] == 0x74 && b[2] == 0x63 && b[3] == 0x66) ==> file_faces(
            b,
            path,
            source,
            file,
        ) == ttc_faces_upto(b, path, source, file, ttc_face_limit(b)),
        !((b[0] == 0 && b[1] == 1 && b[2] == 0 && b[3] == 0) || (b[0] == 0x74 && b[1] == 0x72
            && b[2] == 0x75 && b[3] == 0x65) || (b[0] == 0x4f && b[1] == 0x54 && b[2] == 0x54
            && b[3] == 0x4f) || (b[0] == 0x74 && b[1] == 0x74 && b[2] == 0x63 && b[3] == 0x66))
            ==> file_faces(b, path, source, file) == Seq::<FontView>::empty(),
{
    let (b0, b1, b2, b3) = (b[0], b[1], b[2], b[3]);
    let m = be32_at(b, 0)->0;
    assert(m == b0 as int * 0x1000000 + b1 as int * 0x10000 + b2 as int * 0x100 + b3 as int);
    assert(m == 0x00010000 <==> (b0 == 0 && b1 == 1 && b2 == 0 && b3 == 0));
    assert(m == 0x74727565 <==> (b0 == 0x74 && b1 == 0x72 && b2 == 0x75 && b3 == 0x65));
    assert(m == 0x4f54544f <==> (b0 == 0x4f && b1 == 0x54 && b2 == 0x54 && b3 == 0x4f));
    assert(m == 0x74746366 <==> (b0 == 0x74 && b1 == 0x74 && b2 == 0x63 && b3 == 0x66));
}

/// A listed face is italic exactly when the OS/2 table (64 bytes or more)
/// sets fsSelection's ITALIC bit, the head table sets macStyle's italic
/// bit, or its style name, lowercased, contains "italic" or "oblique".
pub proof fn lemma_face_italic(
    b: Seq<u8>,
    off: int,
    path: Seq<char>,
    source: Source,
    file: usize,
    face_index: u32,
    format: FontFormat,
)
    requires
        face_spec(b, off, path, source, file, face_index, format) is Some,
    ensures
        ({
            let rs = table_records_spec(b, off)->0;
            let t = table_bytes(b, find_table(rs, 0x6e616d65u32)->0);
            let v = face_spec(b, off, path, source, file, face_index, format)->0;
            let lower = lowercase_chars(style_name(t));
            let os2 = find_table(rs, 0x4f532f32u32);
            let head = find_table(rs, 0x68656164u32);
            let sel = be16_at(b, os2->0.offset + 62);
            let mac = be16_at(b, head->0.offset + 44);
            v.italic <==> ({
                ||| os2 is Some && os2->0.length >= 64 && sel is Some && sel->0 & 1 != 0
                ||| head is Some && mac is Some && mac->0 & 2 != 0
                ||| has_infix(lower, seq!['i', 't', 'a', 'l', 'i', 'c'])
                ||| has_infix(lower, seq!['o', 'b', 'l', 'i', 'q', 'u', 'e'])
            })
        }),
{
}

/// The weight of a listed face without a `wght` axis: usWeightClass of an
/// OS/2 table of 64 bytes or more when it lies in 1..=1000 and is not 400;
/// 700 when the weight would be 400 and fsSelection's BOLD bit is set;
/// 400 when the face has neither an OS/2 nor a head table.
pub proof fn lemma_face_weight(
    b: Seq<u8>,
    off: int,
    path: Seq<char>,
    source: Source,
    file: usize,
    face_index: u32,
    format: FontFormat,
)
    requires
        face_spec(b, off, path, source, file, face_index, format) is Some,
    ensures
        ({
            let rs = table_records_spec(b, off)->0;
            let v = face_spec(b, off, path, source, file, face_index, format)->0;
            let os2 = find_table(rs, 0x4f532f32u32);
            let no_wght = forall|i: int|
                0 <= i < v.axes.len() ==> (#[trigger] v.axes[i]).tag != seq!['w', 'g', 'h', 't'];
            let o = os2->0;
            let uw = be16_at(b, o.offset + 4);
            let sel = be16_at(b, o.offset + 62);
            &&& (no_wght && os2 is Some && o.length >= 64 && uw is Some && 1 <= uw->0 <= 1000 && uw->0
                != 400) ==> v.weight == uw->0
            &&& (no_wght && os2 is Some && o.length >= 64 && uw == Some(400u16) && sel is Some && sel->0
                & 0x20 != 0) ==> v.weight == 700
            &&& (no_wght && os2 is None && find_table(rs, 0x68656164u32) is None) ==> v.weight == 400
            &&& forall|i: int|
                0 <= i < v.axes.len() && (#[trigger] v.axes[i]).tag == seq!['w', 'g', 'h', 't'] && (
                forall|k: int| 0 <= k < i ==> v.axes[k].tag != seq!['w', 'g', 'h', 't']) ==> v.weight
                    == axis_weight(v.axes[i].def)
        }),
{
    let rs = table_records_spec(b, off)->0;
    let v = face_spec(b, off, path, source, file, face_index, format)->0;
    assert forall|i: int|
        0 <= i < v.axes.len() && (#[trigger] v.axes[i]).tag == seq!['w', 'g', 'h', 't'] && (
        forall|k: int| 0 <= k < i ==> v.axes[k].tag != seq!['w', 'g', 'h', 't']) implies v.weight
        == axis_weight(v.axes[i].def) by {
        lemma_first_wght_at(v.axes, i);
    }
    if forall|i: int|
        0 <= i < v.axes.len() ==> (#[trigger] v.axes[i]).tag != seq!['w', 'g', 'h', 't'] {
        lemma_no_wght(v.axes);
    }
}

/// With no axis tagged `wght` there is no first one.
proof fn lemma_no_wght(axes: Seq<AxisView>)
    requires
        forall|i: int| 0 <= i < axes.len() ==> (#[trigger] axes[i]).tag != seq!['w', 'g', 'h', 't'],
    ensures
        first_wght(axes) is None,
    decreases axes.len(),
{
    if axes.len() > 0 {
        assert(axes[0].tag != wght_chars());
        assert forall|i: int| 0 <= i < axes.drop_first().len() implies (
        #[trigger] axes.drop_first()[i]).tag != seq!['w', 'g', 'h', 't'] by {
            assert(axes.drop_first()[i] == axes[i + 1]);
        }
        lemma_no_wght(axes.drop_first());
    }
}

/// The first axis tagged `wght` is the one `first_wght` finds.
proof fn lemma_first_wght_at(axes: Seq<AxisView>, i: int)
    requires
        0 <= i < axes.len(),
        axes[i].tag == seq!['w', 'g', 'h', 't'],
        forall|k: int| 0 <= k < i ==> axes[k].tag != seq!['w', 'g', 'h', 't'],
    ensures
        first_wght(axes) == Some(axes[i]),
    decreases i,
{
    if i > 0 {
        assert(axes[0].tag != wght_chars());
        assert forall|k: int| 0 <= k < i - 1 implies axes.drop_first()[k].tag != seq![
            'w',
            'g',
            'h',
            't',
        ] by {
            assert(axes.drop_first()[k] == axes[k + 1]);
        }
        lemma_first_wght_at(axes.drop_first(), i - 1);
    } else {
        assert(axes[0].tag == wght_chars());
    }
}

/// The face at position `k` of a collection: the face whose offset table
/// starts at the `k`-th offset after the 12-byte collection header, read
/// with face index `k`.
pub open spec fn collection_face(b: Seq<u8>, path: Seq<char>, source: Source, file: usize, k: int) -> Option<
    FontView,
> {
    match be32_at(b, 12 + 4 * k) {
        Some(off) => face_spec(b, off as int, path, source, file, k as u32, FontFormat::Ttc),
        None => None,
    }
}

proof fn lemma_ttc_upto(b: Seq<u8>, path: Seq<char>, source: Source, file: usize, k: nat)
    requires
        k <= 64,
    ensures
        ({
            let r = ttc_faces_upto(b, path, source, file, k);
            &&& forall|j: int|
                0 <= j < r.len() ==> (#[trigger] r[j]).face_index < k && collection_face(
                    b,
                    path,
                    source,
                    file,
                    r[j].face_index as int,
                ) == Some(r[j])
            &&& forall|i: int, j: int|
                #![trigger r[i], r[j]]
                0 <= i < j < r.len() ==> r[i].face_index < r[j].face_index
            &&& forall|m: int|
                0 <= m < k && (#[trigger] collection_face(b, path, source, file, m)) is Some
                    ==> exists|j: int| 0 <= j < r.len() && (#[trigger] r[j]).face_index == m
        }),
    decreases k,
{
    if k > 0 {
        let km = (k - 1) as nat;
        lemma_ttc_upto(b, path, source, file, km);
        let prev = ttc_faces_upto(b, path, source, file, km);
        let r = ttc_faces_upto(b, path, source, file, k);
        let c = collection_face(b, path, source, file, km as int);
        if let Some(e) = c {
            let off = be32_at(b, 12 + 4 * (km as int))->0;
            lemma_face_entry_shape(b, off as int, path, source, file, km as u32, FontFormat::Ttc);
            assert(r == prev.push(e));
            assert(e.face_index == km);
            assert forall|j: int| 0 <= j < r.len() implies (#[trigger] r[j]).face_index < k
                && collection_face(b, path, source, file, r[j].face_index as int) == Some(r[j]) by {
                if j < prev.len() {
                    assert(r[j] == prev[j]);
                }
            }
            assert forall|i: int, j: int| #![trigger r[i], r[j]] 0 <= i < j < r.len() implies r[i].face_index
                < r[j].face_index by {
                assert(r[i] == prev[i]);
                if j < prev.len() {
                    assert(r[j] == prev[j]);
                }
            }
            assert forall|m: int|
                0 <= m < k && (#[trigger] collection_face(b, path, source, file, m)) is Some implies exists|
                j: int,
            | 0 <= j < r.len() && (#[trigger] r[j]).face_index == m by {
                if m == km {
                    assert(r[prev.len() as int] == e);
                } else {
                    let j = choose|j: int| 0 <= j < prev.len() && (#[trigger] prev[j]).face_index == m;
                    assert(r[j] == prev[j]);
                }
            }
        } else {
            assert(r == prev);
        }
    }
}

/// The faces of a `ttcf` collection (first four bytes `74 74 63 66`) are
/// those at positions below the header's face count, at most 64, whose
/// faces are listed, each read with its position as face index and in
/// order of position; no other face is read.
pub proof fn lemma_collection_faces(b: Seq<u8>, path: Seq<char>, source: Source, file: usize)
    requires
        b.len() >= 4,
        b[0] == 0x74 && b[1] == 0x74 && b[2] == 0x63 && b[3] == 0x66,
    ensures
        ({
            let r = file_faces(b, path, source, file);
            let count: int = if be32_at(b, 8) is Some {
                be32_at(b, 8)->0 as int
            } else {
                0
            };
            let n: int = if count < 64 {
                count
            } else {
                64
            };
            &&& forall|j: int|
                0 <= j < r.len() ==> (#[trigger] r[j]).face_index < n && collection_face(
                    b,
                    path,
                    source,
                    file,
                    r[j].face_index as int,
                ) == Some(r[j])
            &&& forall|i: int, j: int|
                #![trigger r[i], r[j]]
                0 <= i < j < r.len() ==> r[i].face_index < r[j].face_index
            &&& forall|m: int|
                0 <= m < n && (#[trigger] collection_face(b, path, source, file, m)) is Some
                    ==> exists|j: int| 0 <= j < r.len() && (#[trigger] r[j]).face_index == m
        }),
{
    lemma_file_magic(b, path, source, file);
    lemma_ttc_upto(b, path, source, file, ttc_face_limit(b));
}

} // verus!
