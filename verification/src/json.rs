//! JSON text for the HTTP answers: string literals, the font list and the
//! health record.

use vstd::prelude::*;
use crate::render::{dec_chars, decimal, hex_chars, hex_fixed};
use crate::text::{chars_of, push_all, string_of};
use crate::axes::{Axis, AxisView, axes_view};
use crate::catalog::bool_chars;
use crate::face::{FontEntry, FontView, entries_view, format_text, source_text};

verus! {

/// The JSON text for one character inside a string literal: `"`, `\`,
/// newline, carriage return and tab escaped by name, other control
/// characters as `\u00XX`, everything else as itself.
pub open spec fn json_escape_char(c: char) -> Seq<char> {
    if c == '"' {
        seq!['\\', '"']
    } else if c == '\\' {
        seq!['\\', '\\']
    } else if c == '\n' {
        seq!['\\', 'n']
    } else if c == '\r' {
        seq!['\\', 'r']
    } else if c == '\t' {
        seq!['\\', 't']
    } else if (c as u32) < 0x20 {
        seq!['\\', 'u'] + hex_chars(c as nat, 4)
    } else {
        seq![c]
    }
}

/// The escaped text of `s`, character by character.
pub open spec fn json_escape(s: Seq<char>) -> Seq<char>
    decreases s.len(),
{
    if s.len() == 0 {
        seq![]
    } else {
        json_escape_char(s[0]) + json_escape(s.drop_first())
    }
}

/// `s` as a JSON string literal.
pub open spec fn json_str_spec(s: Seq<char>) -> Seq<char> {
    seq!['"'] + json_escape(s) + seq!['"']
}

proof fn lemma_escape_snoc(s: Seq<char>, c: char)
    ensures
        json_escape(s.push(c)) == json_escape(s) + json_escape_char(c),
    decreases s.len(),
{
    if s.len() == 0 {
        assert(s.push(c).drop_first() =~= Seq::<char>::empty());
        assert(s.push(c)[0] == c);
        assert(json_escape(Seq::<char>::empty()) == Seq::<char>::empty());
        assert(json_escape(s.push(c)) =~= json_escape_char(c));
    } else {
        assert(s.push(c).drop_first() =~= s.drop_first().push(c));
        lemma_escape_snoc(s.drop_first(), c);
        assert(json_escape(s.push(c)) =~= json_escape(s) + json_escape_char(c));
    }
}

/// Appends the escaped text of one character.
fn push_escaped(out: &mut Vec<char>, c: char)
    ensures
        final(out)@ == old(out)@ + json_escape_char(c),
{
    let ghost o = out@;
    if c == '"' {
        out.push('\\');
        out.push('"');
    } else if c == '\\' {
        out.push('\\');
        out.push('\\');
    } else if c == '\n' {
        out.push('\\');
        out.push('n');
    } else if c == '\r' {
        out.push('\\');
        out.push('r');
    } else if c == '\t' {
        out.push('\\');
        out.push('t');
    } else if (c as u32) < 0x20 {
        out.push('\\');
        out.push('u');
        let h = hex_fixed(c as u64, 4);
        push_all(out, h.as_slice());
    } else {
        out.push(c);
    }
    assert(out@ =~= o + json_escape_char(c));
}

/// Appends `s` as a JSON string literal.
pub fn push_json_str(out: &mut Vec<char>, s: &str)
    ensures
        final(out)@ == old(out)@ + json_str_spec(s@),
{
    let cs = chars_of(s);
    let ghost o = out@;
    out.push('"');
    let mut i: usize = 0;
    while i < cs.len()
        invariant
            i <= cs@.len(),
            cs@ == s@,
            out@ == o + seq!['"'] + json_escape(cs@.subrange(0, i as int)),
        decreases cs@.len() - i,
    {
        proof {
            lemma_escape_snoc(cs@.subrange(0, i as int), cs@[i as int]);
            assert(cs@.subrange(0, i + 1) =~= cs@.subrange(0, i as int).push(cs@[i as int]));
        }
        push_escaped(out, cs[i]);
        i = i + 1;
    }
    out.push('"');
    assert(cs@.subrange(0, cs@.len() as int) =~= cs@);
    assert(out@ =~= o + json_str_spec(s@));
}

/// `s` as a JSON string literal, quotes included.
pub fn json_str(s: &str) -> (r: String)
    ensures
        r@ == json_str_spec(s@),
{
    let mut out: Vec<char> = Vec::new();
    push_json_str(&mut out, s);
    assert(out@ =~= json_str_spec(s@));
    string_of(out.as_slice())
}

/// Appends the characters of a string.
pub fn push_str(out: &mut Vec<char>, s: &str)
    ensures
        final(out)@ == old(out)@ + s@,
{
    let cs = chars_of(s);
    push_all(out, cs.as_slice());
}

/// Appends the decimal digits of `n`.
pub fn push_dec(out: &mut Vec<char>, n: u128)
    ensures
        final(out)@ == old(out)@ + dec_chars(n as nat),
{
    let d = decimal(n);
    push_all(out, d.as_slice());
}

/// Value of a hexadecimal digit.
pub open spec fn hex_value(c: char) -> Option<int> {
    if '0' <= c <= '9' {
        Some(c as int - 48)
    } else if 'a' <= c <= 'f' {
        Some(c as int - 87)
    } else if 'A' <= c <= 'F' {
        Some(c as int - 55)
    } else {
        None
    }
}

/// The character a `\uXXXX` escape at the start of `t` stands for.
pub open spec fn unicode_escape(t: Seq<char>) -> Option<char> {
    if t.len() < 6 {
        None
    } else {
        match (hex_value(t[2]), hex_value(t[3]), hex_value(t[4]), hex_value(t[5])) {
            (Some(a), Some(b), Some(c), Some(d)) => {
                let v = a * 4096 + b * 256 + c * 16 + d;
                if 0xd800 <= v <= 0xdfff {
                    None
                } else {
                    Some(v as char)
                }
            },
            _ => None,
        }
    }
}

/// The text a JSON string body stands for (the part between the quotes),
/// or `None` when it is not a valid body: an unescaped quote or control
/// character, or an unknown escape.  (Escaped surrogate pairs are not
/// read; nothing here writes them.)
pub open spec fn json_unescape(t: Seq<char>) -> Option<Seq<char>>
    decreases t.len(),
{
    if t.len() == 0 {
        Some(seq![])
    } else if t[0] == '\\' {
        if t.len() < 2 {
            None
        } else if t[1] == 'u' {
            if t.len() < 6 {
                None
            } else {
                match (unicode_escape(t), json_unescape(t.skip(6))) {
                    (Some(c), Some(r)) => Some(seq![c] + r),
                    _ => None,
                }
            }
        } else {
            let e = t[1];
            let c = if e == '"' {
                Some('"')
            } else if e == '\\' {
                Some('\\')
            } else if e == '/' {
                Some('/')
            } else if e == 'n' {
                Some('\n')
            } else if e == 'r' {
                Some('\r')
            } else if e == 't' {
                Some('\t')
            } else if e == 'b' {
                Some('\u{8}')
            } else if e == 'f' {
                Some('\u{c}')
            } else {
                None
            };
            match (c, json_unescape(t.skip(2))) {
                (Some(c), Some(r)) => Some(seq![c] + r),
                _ => None,
            }
        }
    } else if t[0] == '"' || (t[0] as u32) < 0x20 {
        None
    } else {
        match json_unescape(t.drop_first()) {
            Some(r) => Some(seq![t[0]] + r),
            None => None,
        }
    }
}

proof fn lemma_control_hex(c: char)
    requires
        (c as u32) < 0x20,
    ensures
        hex_chars(c as nat, 4) == seq!['0', '0', crate::render::digit_char(c as nat / 16),
            crate::render::digit_char(c as nat % 16)],
{
    reveal_with_fuel(hex_chars, 5);
    let v = c as nat;
    assert(v / 16 / 16 == 0);
    assert(hex_chars(v, 4) =~= seq!['0', '0', crate::render::digit_char(v / 16),
        crate::render::digit_char(v % 16)]);
}

proof fn lemma_unescape_char(c: char, t: Seq<char>)
    ensures
        json_unescape(json_escape_char(c) + t) == match json_unescape(t) {
            Some(r) => Some(seq![c] + r),
            None => None,
        },
{
    let e = json_escape_char(c);
    let x = e + t;
    if c == '"' || c == '\\' || c == '\n' || c == '\r' || c == '\t' {
        assert(x.skip(2) =~= t);
    } else if (c as u32) < 0x20 {
        lemma_control_hex(c);
        assert(x.skip(6) =~= t);
        let v = c as nat;
        assert(x[4] == crate::render::digit_char(v / 16));
        assert(x[5] == crate::render::digit_char(v % 16));
        assert(hex_value(x[2]) == Some(0int));
        assert(hex_value(x[3]) == Some(0int));
        assert(hex_value(x[4]) == Some((v / 16) as int));
        assert(hex_value(x[5]) == Some((v % 16) as int));
        assert(unicode_escape(x) == Some(c));
    } else {
        assert(x.drop_first() =~= t);
    }
}

/// A JSON string literal written by `json_str` reads back as the original
/// text: its body unescapes to exactly the characters given.
pub proof fn lemma_json_str_roundtrip(s: Seq<char>)
    ensures
        json_unescape(json_escape(s)) == Some(s),
        json_str_spec(s) == seq!['"'] + json_escape(s) + seq!['"'],
    decreases s.len(),
{
    if s.len() > 0 {
        lemma_json_str_roundtrip(s.drop_first());
        lemma_unescape_char(s[0], json_escape(s.drop_first()));
        assert(seq![s[0]] + s.drop_first() =~= s);
    }
}

/// Items joined by commas.
pub open spec fn join_commas(items: Seq<Seq<char>>) -> Seq<char>
    decreases items.len(),
{
    if items.len() == 0 {
        seq![]
    } else if items.len() == 1 {
        items[0]
    } else {
        join_commas(items.drop_last()) + seq![','] + items.last()
    }
}

/// A JSON array of already rendered items.
pub open spec fn json_array(items: Seq<Seq<char>>) -> Seq<char> {
    seq!['['] + join_commas(items) + seq![']']
}

/// The JSON object of one axis; `min`, `def` and `max` are the rendered
/// numbers.
pub open spec fn axis_json_spec(a: AxisView, min: Seq<char>, def: Seq<char>, max: Seq<char>) -> Seq<
    char,
> {
    "{\"tag\":"@ + json_str_spec(a.tag) + ",\"min\":"@ + min + ",\"def\":"@ + def + ",\"max\":"@
        + max + "}"@
}

/// The JSON array of a face's axes, with `nums[3i..3i+3]` the rendered
/// minimum, default and maximum of axis `i`.
pub open spec fn axes_json_spec(axes: Seq<AxisView>, nums: Seq<Seq<char>>) -> Seq<char> {
    json_array(
        Seq::new(
            axes.len(),
            |i: int| axis_json_spec(axes[i], nums[3 * i], nums[3 * i + 1], nums[3 * i + 2]),
        ),
    )
}

/// The JSON object of one face; `axes` is its rendered axes array.
pub open spec fn font_json_spec(v: FontView, axes: Seq<char>) -> Seq<char> {
    "{\"id\":"@ + json_str_spec(v.id) + ",\"family\":"@ + json_str_spec(v.family)
        + ",\"style\":"@ + json_str_spec(v.style) + ",\"weight\":"@ + dec_chars(v.weight as nat)
        + ",\"italic\":"@ + bool_chars(v.italic) + ",\"postscript\":"@ + json_str_spec(
        v.postscript,
    ) + ",\"source\":"@ + json_str_spec(source_text(v.source)) + ",\"format\":"@
        + json_str_spec(format_text(v.format)) + ",\"size\":"@ + dec_chars(v.size as nat)
        + ",\"axes\":"@ + axes + "}"@
}

/// The font list: one object per face, face `i` with axes text `axes[i]`.
pub open spec fn fonts_json_spec(fonts: Seq<FontView>, axes: Seq<Seq<char>>) -> Seq<char> {
    json_array(Seq::new(fonts.len(), |i: int| font_json_spec(fonts[i], axes[i])))
}

/// Views of strings.
pub open spec fn strings_view(v: Seq<String>) -> Seq<Seq<char>> {
    Seq::new(v.len(), |i: int| v[i]@)
}

proof fn lemma_join_step(items: Seq<Seq<char>>, k: int)
    requires
        0 <= k < items.len(),
    ensures
        join_commas(items.subrange(0, k + 1)) == if k == 0 {
            items[0]
        } else {
            join_commas(items.subrange(0, k)) + seq![','] + items[k]
        },
{
    let s = items.subrange(0, k + 1);
    if k > 0 {
        assert(s.drop_last() =~= items.subrange(0, k));
    }
}

/// Appends the JSON object of one axis.
fn push_axis_json(out: &mut Vec<char>, a: &Axis, min: &String, def: &String, max: &String)
    ensures
        final(out)@ == old(out)@ + axis_json_spec(a.view(), min@, def@, max@),
{
    let ghost o = out@;
    push_str(out, "{\"tag\":");
    push_json_str(out, a.tag.as_str());
    push_str(out, ",\"min\":");
    push_str(out, min.as_str());
    push_str(out, ",\"def\":");
    push_str(out, def.as_str());
    push_str(out, ",\"max\":");
    push_str(out, max.as_str());
    push_str(out, "}");
    assert(out@ =~= o + axis_json_spec(a.view(), min@, def@, max@));
}

/// The JSON array of a face's axes.  `nums` holds, for each axis, its
/// minimum, default and maximum already rendered as JSON numbers.
pub fn axes_json(axes: &Vec<Axis>, nums: &Vec<String>) -> (r: String)
    requires
        nums@.len() == 3 * axes@.len(),
    ensures
        r@ == axes_json_spec(axes_view(axes@), strings_view(nums@)),
{
    let ghost items = Seq::new(
        axes@.len(),
        |i: int|
            axis_json_spec(
                axes_view(axes@)[i],
                strings_view(nums@)[3 * i],
                strings_view(nums@)[3 * i + 1],
                strings_view(nums@)[3 * i + 2],
            ),
    );
    let mut out: Vec<char> = Vec::new();
    out.push('[');
    let nl = nums.len();
    let mut i: usize = 0;
    while i < axes.len()
        invariant
            i <= axes@.len(),
            nl == nums@.len(),
            nums@.len() == 3 * axes@.len(),
            items.len() == axes@.len(),
            items == Seq::new(
                axes@.len(),
                |i: int|
                    axis_json_spec(
                        axes_view(axes@)[i],
                        strings_view(nums@)[3 * i],
                        strings_view(nums@)[3 * i + 1],
                        strings_view(nums@)[3 * i + 2],
                    ),
            ),
            out@ == seq!['['] + join_commas(items.subrange(0, i as int)),
        decreases axes@.len() - i,
    {
        proof {
            lemma_join_step(items, i as int);
        }
        if i > 0 {
            out.push(',');
        }
        push_axis_json(&mut out, &axes[i], &nums[3 * i], &nums[3 * i + 1], &nums[3 * i + 2]);
        i = i + 1;
        assert(out@ =~= seq!['['] + join_commas(items.subrange(0, i as int)));
    }
    out.push(']');
    assert(items.subrange(0, items.len() as int) =~= items);
    assert(out@ =~= axes_json_spec(axes_view(axes@), strings_view(nums@)));
    string_of(out.as_slice())
}

/// Appends the JSON object of one face.
fn push_font_json(out: &mut Vec<char>, f: &FontEntry, axes: &String)
    ensures
        final(out)@ == old(out)@ + font_json_spec(f.view(), axes@),
{
    let ghost o = out@;
    push_str(out, "{\"id\":");
    push_json_str(out, f.id.as_str());
    push_str(out, ",\"family\":");
    push_json_str(out, f.family.as_str());
    push_str(out, ",\"style\":");
    push_json_str(out, f.style.as_str());
    push_str(out, ",\"weight\":");
    push_dec(out, f.weight as u128);
    push_str(out, ",\"italic\":");
    push_str(out, if f.italic { "true" } else { "false" });
    proof {
        reveal_strlit("true");
        reveal_strlit("false");
    }
    push_str(out, ",\"postscript\":");
    push_json_str(out, f.postscript.as_str());
    push_str(out, ",\"source\":");
    push_json_str(out, f.source.as_str());
    push_str(out, ",\"format\":");
    push_json_str(out, f.format.as_str());
    push_str(out, ",\"size\":");
    push_dec(out, f.size as u128);
    push_str(out, ",\"axes\":");
    push_str(out, axes.as_str());
    push_str(out, "}");
    assert(out@ =~= o + font_json_spec(f.view(), axes@));
}

/// The font list as JSON: one object per face (identifier, family, style,
/// weight, italic, PostScript name, source, format, size and axes), face
/// `i` carrying the rendered axes array `axes[i]`.  No path appears.
pub fn fonts_json(fonts: &Vec<FontEntry>, axes: &Vec<String>) -> (r: String)
    requires
        axes@.len() == fonts@.len(),
    ensures
        r@ == fonts_json_spec(entries_view(fonts@), strings_view(axes@)),
{
    let ghost items = Seq::new(
        fonts@.len(),
        |i: int| font_json_spec(entries_view(fonts@)[i], strings_view(axes@)[i]),
    );
    let mut out: Vec<char> = Vec::new();
    out.push('[');
    let mut i: usize = 0;
    while i < fonts.len()
        invariant
            i <= fonts@.len(),
            axes@.len() == fonts@.len(),
            items == Seq::new(
                fonts@.len(),
                |i: int| font_json_spec(entries_view(fonts@)[i], strings_view(axes@)[i]),
            ),
            out@ == seq!['['] + join_commas(items.subrange(0, i as int)),
        decreases fonts@.len() - i,
    {
        proof {
            lemma_join_step(items, i as int);
        }
        if i > 0 {
            out.push(',');
        }
        push_font_json(&mut out, &fonts[i], &axes[i]);
        i = i + 1;
        assert(out@ =~= seq!['['] + join_commas(items.subrange(0, i as int)));
    }
    out.push(']');
    assert(items.subrange(0, items.len() as int) =~= items);
    assert(out@ =~= fonts_json_spec(entries_view(fonts@), strings_view(axes@)));
    string_of(out.as_slice())
}

/// The health record: name, version, number of faces, platform, port and
/// scan time in milliseconds.  `version` and `platform` are written as
/// given, unescaped.
pub open spec fn health_json_spec(
    version: Seq<char>,
    fonts: nat,
    platform: Seq<char>,
    port: nat,
    scan_ms: nat,
) -> Seq<char> {
    "{\"name\":\"resaiz-font-helper\",\"version\":\""@ + version + "\",\"fonts\":"@ + dec_chars(
        fonts,
    ) + ",\"platform\":\""@ + platform + "\",\"port\":"@ + dec_chars(port) + ",\"scanMs\":"@
        + dec_chars(scan_ms) + "}"@
}

/// The health record, as `health_json_spec` says.
pub fn health_json(version: &str, fonts: usize, platform: &str, port: u16, scan_ms: u128) -> (r:
    String)
    ensures
        r@ == health_json_spec(version@, fonts as nat, platform@, port as nat, scan_ms as nat),
{
    let mut out: Vec<char> = Vec::new();
    push_str(&mut out, "{\"name\":\"resaiz-font-helper\",\"version\":\"");
    push_str(&mut out, version);
    push_str(&mut out, "\",\"fonts\":");
    push_dec(&mut out, fonts as u128);
    push_str(&mut out, ",\"platform\":\"");
    push_str(&mut out, platform);
    push_str(&mut out, "\",\"port\":");
    push_dec(&mut out, port as u128);
    push_str(&mut out, ",\"scanMs\":");
    push_dec(&mut out, scan_ms);
    push_str(&mut out, "}");
    assert(out@ =~= health_json_spec(version@, fonts as nat, platform@, port as nat, scan_ms as nat));
    string_of(out.as_slice())
}

} // verus!
