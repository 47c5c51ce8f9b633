use lib::axes::{parse_fvar, weight_of_axis};
use lib::bytes::{be16, be32};
use lib::face::{face_id, parse_face, parse_file, FontFormat, Source};
use lib::fnv::{fnv_hex, folder_signature};
use lib::names::parse_names;
use lib::repack::extract_face;

fn utf16(s: &str) -> Vec<u8> {
    let mut v = Vec::new();
    for u in s.encode_utf16() {
        v.push((u >> 8) as u8);
        v.push((u & 0xff) as u8);
    }
    v
}

/// A `name` table with records (platform, encoding, language, name id, bytes).
fn name_table(records: &[(u16, u16, u16, u16, Vec<u8>)]) -> Vec<u8> {
    let count = records.len() as u16;
    let storage = 6 + 12 * count;
    let mut head = Vec::new();
    head.extend_from_slice(&0u16.to_be_bytes());
    head.extend_from_slice(&count.to_be_bytes());
    head.extend_from_slice(&storage.to_be_bytes());
    let mut strings = Vec::new();
    for (p, e, l, n, bytes) in records {
        head.extend_from_slice(&p.to_be_bytes());
        head.extend_from_slice(&e.to_be_bytes());
        head.extend_from_slice(&l.to_be_bytes());
        head.extend_from_slice(&n.to_be_bytes());
        head.extend_from_slice(&(bytes.len() as u16).to_be_bytes());
        head.extend_from_slice(&(strings.len() as u16).to_be_bytes());
        strings.extend_from_slice(bytes);
    }
    head.extend_from_slice(&strings);
    head
}

fn os2_table(weight: u16, fs_selection: u16) -> Vec<u8> {
    let mut t = vec![0u8; 78];
    t[4..6].copy_from_slice(&weight.to_be_bytes());
    t[62..64].copy_from_slice(&fs_selection.to_be_bytes());
    t
}

fn head_table(mac_style: u16) -> Vec<u8> {
    let mut t = vec![0u8; 54];
    t[44..46].copy_from_slice(&mac_style.to_be_bytes());
    t
}

fn fvar_table(axes: &[(&[u8; 4], i32, i32, i32)]) -> Vec<u8> {
    let mut t = Vec::new();
    t.extend_from_slice(&[0, 1, 0, 0]);
    t.extend_from_slice(&16u16.to_be_bytes());
    t.extend_from_slice(&2u16.to_be_bytes());
    t.extend_from_slice(&(axes.len() as u16).to_be_bytes());
    t.extend_from_slice(&20u16.to_be_bytes());
    t.extend_from_slice(&0u16.to_be_bytes());
    t.extend_from_slice(&0u16.to_be_bytes());
    for (tag, min, def, max) in axes {
        t.extend_from_slice(&tag[..]);
        t.extend_from_slice(&min.to_be_bytes());
        t.extend_from_slice(&def.to_be_bytes());
        t.extend_from_slice(&max.to_be_bytes());
        t.extend_from_slice(&0u16.to_be_bytes());
        t.extend_from_slice(&0u16.to_be_bytes());
    }
    t
}

/// An sfnt with the given tables; the offset table starts at `base` in the
/// returned buffer (the caller prepends whatever lies before it).
fn sfnt_at(magic: [u8; 4], tables: &[(&[u8; 4], Vec<u8>)], base: usize) -> Vec<u8> {
    let n = tables.len();
    let mut out = Vec::new();
    out.extend_from_slice(&magic);
    out.extend_from_slice(&(n as u16).to_be_bytes());
    out.extend_from_slice(&[0, 0, 0, 0, 0, 0]);
    let mut data = Vec::new();
    let dir_end = base + 12 + 16 * n;
    for (tag, body) in tables {
        out.extend_from_slice(&tag[..]);
        out.extend_from_slice(&0x01020304u32.to_be_bytes());
        out.extend_from_slice(&((dir_end + data.len()) as u32).to_be_bytes());
        out.extend_from_slice(&(body.len() as u32).to_be_bytes());
        data.extend_from_slice(body);
        while data.len() % 4 != 0 {
            data.push(0);
        }
    }
    out.extend_from_slice(&data);
    out
}

fn basic_names(family: &str, style: &str) -> Vec<u8> {
    name_table(&[
        (3, 1, 0x409, 1, utf16(family)),
        (3, 1, 0x409, 2, utf16(style)),
        (3, 1, 0x409, 6, utf16("Demo-Regular")),
    ])
}

#[test]
fn be16_and_be32_read_big_endian_and_refuse_short_reads() {
    let b = [0x12, 0x34, 0x56, 0x78, 0x9a];
    assert_eq!(be16(&b, 0), Some(0x1234));
    assert_eq!(be16(&b, 3), Some(0x789a));
    assert_eq!(be16(&b, 4), None);
    assert_eq!(be32(&b, 1), Some(0x3456789a));
    assert_eq!(be32(&b, 2), None);
    assert_eq!(be32(&b, usize::MAX), None);
    assert_eq!(be16(&b, usize::MAX - 1), None);
}

#[test]
fn fnv_hex_matches_known_fnv1a_values() {
    assert_eq!(fnv_hex(""), "cbf29ce484222325");
    assert_eq!(fnv_hex("a"), "af63dc4c8601ec8c");
    assert_eq!(fnv_hex("foobar"), "85944171f73967e8");
}

#[test]
fn face_id_hashes_path_hash_index() {
    assert_eq!(face_id("/fonts/a.ttc", 3), fnv_hex("/fonts/a.ttc#3"));
    assert_eq!(face_id("x", 0).len(), 16);
    assert_ne!(face_id("x", 0), face_id("x", 1));
}

#[test]
fn folder_signature_sums_mtimes() {
    assert_eq!(folder_signature(&[5, 1_700_000_000, 42]), 1_700_000_047);
    assert_eq!(folder_signature(&[]), 0);
    assert_eq!(folder_signature(&[1]), 1);
    assert_eq!(folder_signature(&[u64::MAX, 3]), 2);
}

#[test]
fn changed_folder_changes_signature() {
    let before = folder_signature(&[10, 20, 30]);
    let after = folder_signature(&[10, 21, 30]);
    assert_ne!(before, after);
    assert!(lib::fnv::needs_rescan(before, after));
    assert!(!lib::fnv::needs_rescan(before, before));
}

#[test]
fn names_prefer_windows_english_then_windows_then_mac() {
    let t = name_table(&[
        (1, 0, 0, 1, b"Mac Family".to_vec()),
        (3, 1, 0x411, 1, utf16("Windows Other")),
        (3, 1, 0x409, 1, utf16("Windows English")),
        (3, 1, 0x409, 1, utf16("Second English")),
        (1, 0, 0, 2, b"Bold".to_vec()),
        (0, 3, 0, 6, utf16("Uni-PS")),
        (3, 1, 0x409, 5, utf16("ignored id")),
    ]);
    let n = parse_names(&t);
    assert_eq!(n.family.as_deref(), Some("Windows English"));
    assert_eq!(n.subfamily.as_deref(), Some("Bold"));
    assert_eq!(n.postscript.as_deref(), Some("Uni-PS"));
    assert_eq!(n.full_name, None);
    assert_eq!(n.get(1).map(|s| s.as_str()), Some("Windows English"));
    assert_eq!(n.get(5), None);
}

#[test]
fn names_decode_surrogates_and_strip_nuls() {
    let mut raw = utf16("A\u{1F600}");
    raw.extend_from_slice(&[0xd8, 0x00, 0x00, 0x42]);
    raw.extend_from_slice(&[0x00, 0x00]);
    let t = name_table(&[(3, 10, 0x409, 4, raw), (3, 1, 0x409, 16, vec![0, 0, 0, 0])]);
    let n = parse_names(&t);
    assert_eq!(n.full_name.as_deref(), Some("A\u{1F600}\u{FFFD}B"));
    assert_eq!(n.typographic_family, None);
}

#[test]
fn names_stop_at_a_record_past_the_table() {
    let mut t = name_table(&[(3, 1, 0x409, 1, utf16("Kept"))]);
    t[2..4].copy_from_slice(&5u16.to_be_bytes());
    let n = parse_names(&t);
    assert_eq!(n.family.as_deref(), Some("Kept"));
    let t2 = name_table(&[(3, 1, 0x409, 2, utf16("S")), (3, 1, 0x409, 1, utf16("F"))]);
    let mut short = t2.clone();
    short[2..4].copy_from_slice(&3u16.to_be_bytes());
    assert_eq!(parse_names(&short).subfamily.as_deref(), Some("S"));
}

#[test]
fn parse_face_reads_names_weight_and_italic() {
    let font = sfnt_at(
        [0, 1, 0, 0],
        &[
            (b"name", basic_names("  Demo Sans ", "Oblique")),
            (b"OS/2", os2_table(300, 0)),
            (b"head", head_table(0)),
        ],
        0,
    );
    let e = parse_face(&font, 0, "/f/demo.ttf", Source::User, 7, 0, FontFormat::Ttf).unwrap();
    assert_eq!(e.family, "Demo Sans");
    assert_eq!(e.style, "Oblique");
    assert_eq!(e.postscript, "Demo-Regular");
    assert_eq!(e.weight, 300);
    assert!(e.italic);
    assert_eq!(e.size, font.len() as u64);
    assert_eq!(e.file, 7);
    assert_eq!(e.id, fnv_hex("/f/demo.ttf#0"));
    assert!(e.axes.is_empty());
}

#[test]
fn bold_bits_move_default_weight_to_700() {
    let font = sfnt_at(
        [0, 1, 0, 0],
        &[(b"name", basic_names("Demo", "Regular")), (b"OS/2", os2_table(0, 0x20))],
        0,
    );
    let e = parse_face(&font, 0, "p", Source::System, 0, 0, FontFormat::Ttf).unwrap();
    assert_eq!(e.weight, 700);
    assert!(!e.italic);
    let font2 = sfnt_at(
        [0, 1, 0, 0],
        &[(b"name", basic_names("Demo", "Regular")), (b"head", head_table(3))],
        0,
    );
    let e2 = parse_face(&font2, 0, "p", Source::System, 0, 0, FontFormat::Ttf).unwrap();
    assert_eq!(e2.weight, 700);
    assert!(e2.italic);
}

#[test]
fn dotted_and_blank_families_are_skipped() {
    let dotted = sfnt_at([0, 1, 0, 0], &[(b"name", basic_names(" .SF NS", "Regular"))], 0);
    assert!(parse_face(&dotted, 0, "p", Source::System, 0, 0, FontFormat::Ttf).is_none());
    let blank = sfnt_at([0, 1, 0, 0], &[(b"name", basic_names("   ", "Regular"))], 0);
    assert!(parse_face(&blank, 0, "p", Source::System, 0, 0, FontFormat::Ttf).is_none());
    let no_name = sfnt_at([0, 1, 0, 0], &[(b"head", head_table(0))], 0);
    assert!(parse_face(&no_name, 0, "p", Source::System, 0, 0, FontFormat::Ttf).is_none());
}

#[test]
fn missing_style_defaults_to_regular() {
    let t = name_table(&[(3, 1, 0x409, 1, utf16("Solo"))]);
    let font = sfnt_at([0x4f, 0x54, 0x54, 0x4f], &[(b"name", t)], 0);
    let e = parse_face(&font, 0, "p", Source::Adobe, 0, 0, FontFormat::Otf).unwrap();
    assert_eq!(e.style, "Regular");
    assert_eq!(e.postscript, "");
    assert_eq!(e.weight, 400);
}

#[test]
fn wght_axis_default_sets_weight() {
    let font = sfnt_at(
        [0, 1, 0, 0],
        &[
            (b"name", basic_names("Var", "Regular")),
            (b"OS/2", os2_table(700, 0)),
            (b"fvar", fvar_table(&[(b"wdth", 50 << 16, 100 << 16, 200 << 16), (b"wght", 100 << 16, 350 << 16, 900 << 16)])),
        ],
        0,
    );
    let e = parse_face(&font, 0, "p", Source::User, 0, 0, FontFormat::Ttf).unwrap();
    assert_eq!(e.weight, 350);
    assert_eq!(e.axes.len(), 2);
    assert_eq!(e.axes[1].tag, "wght");
    assert_eq!(e.axes[1].min, 100 << 16);
    assert_eq!(e.axes[1].def, 350 << 16);
    assert_eq!(e.axes[0].max, 200 << 16);
}

#[test]
fn fvar_tags_show_nonprintable_bytes_as_question_marks() {
    let t = fvar_table(&[(&[b'a', 0x01, b' ', 0x7e], -65536, 0, 65536)]);
    let axes = parse_fvar(&t);
    assert_eq!(axes.len(), 1);
    assert_eq!(axes[0].tag, "a??~");
    assert_eq!(axes[0].min, -65536);
    assert!(parse_fvar(&[0, 1, 0]).is_empty());
}

#[test]
fn axis_weight_matches_float_rounding() {
    let samples: Vec<i32> = vec![
        0, 1, -1, 65536, 400 << 16, (400 << 16) + 32767, (400 << 16) + 32768, (400 << 16) - 32768,
        26247167, 26247169, 16777217, 16777215, i32::MAX, i32::MIN, -(400 << 16), 1000 << 16,
        (1000 << 16) + 40000, 999 * 65536 + 32768, 123456789, 33554431, 67108863,
    ];
    for def in samples {
        let expected = ((def as f32) / 65536.0).round().clamp(1.0, 1000.0) as u16;
        assert_eq!(weight_of_axis(def), expected, "def = {}", def);
    }
    let mut x: u64 = 0x9e3779b97f4a7c15;
    for _ in 0..20000 {
        x ^= x << 13;
        x ^= x >> 7;
        x ^= x << 17;
        let def = x as i32;
        let expected = ((def as f32) / 65536.0).round().clamp(1.0, 1000.0) as u16;
        assert_eq!(weight_of_axis(def), expected, "def = {}", def);
        let small = ((x >> 32) as i32) >> 5;
        let expected = ((small as f32) / 65536.0).round().clamp(1.0, 1000.0) as u16;
        assert_eq!(weight_of_axis(small), expected, "def = {}", small);
    }
}

#[test]
fn collection_faces_are_read_and_repacked() {
    let face_a = sfnt_at([0, 1, 0, 0], &[(b"name", basic_names("Alpha", "Regular")), (b"head", head_table(0))], 0);
    let header_len = 12 + 4 * 2;
    let a_at = header_len;
    // Face B's tables point into the whole buffer, after face A.
    let b_at = a_at + face_a.len();
    let face_b = sfnt_at([0x4f, 0x54, 0x54, 0x4f], &[(b"name", basic_names("Beta", "Italic"))], b_at);
    let mut file = Vec::new();
    file.extend_from_slice(b"ttcf");
    file.extend_from_slice(&0x00010000u32.to_be_bytes());
    file.extend_from_slice(&2u32.to_be_bytes());
    file.extend_from_slice(&(a_at as u32).to_be_bytes());
    file.extend_from_slice(&(b_at as u32).to_be_bytes());
    // Face A was built for offset 0; rebuild it for its real position.
    let face_a = sfnt_at([0, 1, 0, 0], &[(b"name", basic_names("Alpha", "Regular")), (b"head", head_table(0))], a_at);
    file.extend_from_slice(&face_a);
    file.extend_from_slice(&face_b);
    let faces = parse_file(&file, "/c.ttc", Source::System, 2);
    assert_eq!(faces.len(), 2);
    assert_eq!(faces[0].family, "Alpha");
    assert_eq!(faces[0].face_index, 0);
    assert!(matches!(faces[0].format, FontFormat::Ttc));
    assert_eq!(faces[1].family, "Beta");
    assert!(faces[1].italic);
    assert_eq!(faces[1].face_index, 1);
    let repacked = extract_face(&file, b_at).unwrap();
    assert_eq!(faces[1].size, repacked.len() as u64);
    assert_eq!(&repacked[0..4], b"OTTO");
    assert_eq!(be16(&repacked, 4), Some(1));
    let off = be32(&repacked, 12 + 8).unwrap() as usize;
    let len = be32(&repacked, 12 + 12).unwrap() as usize;
    assert_eq!(&repacked[off..off + len], &basic_names("Beta", "Italic")[..]);
    assert_eq!(off % 4, 0);
    let again = parse_face(&repacked, 0, "/c.ttc", Source::System, 2, 1, FontFormat::Ttc).unwrap();
    assert_eq!(again.family, "Beta");
}

#[test]
fn extract_face_header_fields_and_padding() {
    let tables: Vec<(&[u8; 4], Vec<u8>)> = vec![
        (b"aaaa", vec![1]),
        (b"bbbb", vec![2, 2]),
        (b"cccc", vec![3, 3, 3]),
        (b"dddd", vec![4, 4, 4, 4]),
        (b"eeee", vec![5, 5, 5, 5, 5]),
    ];
    let font = sfnt_at([0, 1, 0, 0], &tables, 0);
    let out = extract_face(&font, 0).unwrap();
    assert_eq!(be16(&out, 4), Some(5));
    assert_eq!(be16(&out, 6), Some(64));
    assert_eq!(be16(&out, 8), Some(2));
    assert_eq!(be16(&out, 10), Some(16));
    assert_eq!(out.len(), 12 + 16 * 5 + 4 + 4 + 4 + 4 + 8);
    for (k, (_, body)) in tables.iter().enumerate() {
        let e = 12 + 16 * k;
        assert_eq!(be32(&out, e + 4), Some(0x01020304));
        let o = be32(&out, e + 8).unwrap() as usize;
        let l = be32(&out, e + 12).unwrap() as usize;
        assert_eq!(&out[o..o + l], &body[..]);
    }
    assert!(extract_face(&font, 1000).is_none());
    let empty = sfnt_at([0, 1, 0, 0], &[], 0);
    assert!(extract_face(&empty, 0).is_none());
}

#[test]
fn tables_past_the_end_are_dropped_and_lengths_clamped() {
    let mut font = sfnt_at([0, 1, 0, 0], &[(b"aaaa", vec![9; 8]), (b"bbbb", vec![7; 4])], 0);
    // Point the second table past the end, and make the first claim too much.
    let n = font.len() as u32;
    font[12 + 16 + 8..12 + 16 + 12].copy_from_slice(&(n + 10).to_be_bytes());
    font[12 + 12..12 + 16].copy_from_slice(&1000u32.to_be_bytes());
    let out = extract_face(&font, 0).unwrap();
    assert_eq!(be16(&out, 4), Some(1));
    let l = be32(&out, 12 + 12).unwrap() as usize;
    let first_off = be32(&font, 12 + 8).unwrap() as usize;
    assert_eq!(l, font.len() - first_off);
}

#[test]
fn unknown_magic_gives_no_faces() {
    let junk = vec![0xffu8; 64];
    assert!(parse_file(&junk, "p", Source::User, 0).is_empty());
    let font = sfnt_at(*b"true", &[(b"name", basic_names("Apple", "Regular"))], 0);
    let faces = parse_file(&font, "p", Source::User, 0);
    assert_eq!(faces.len(), 1);
    assert!(matches!(faces[0].format, FontFormat::Ttf));
}

#[test]
fn repacking_a_repacked_face_changes_nothing() {
    let tables: Vec<(&[u8; 4], Vec<u8>)> = vec![
        (b"name", basic_names("Idem", "Regular")),
        (b"head", head_table(1)),
        (b"zzzz", vec![7, 7, 7]),
    ];
    let mut file = vec![0xaa; 24];
    file.extend_from_slice(&sfnt_at([0, 1, 0, 0], &tables, 24));
    let once = extract_face(&file, 24).unwrap();
    let twice = extract_face(&once, 0).unwrap();
    assert_eq!(once, twice);
    let e = parse_face(&once, 0, "p", Source::User, 0, 0, FontFormat::Ttf).unwrap();
    assert_eq!(e.family, "Idem");
    assert_eq!(e.weight, 700);
}

#[test]
fn out_of_range_os2_weights_fall_back_to_400() {
    for w in [0u16, 1001, 65535] {
        let font = sfnt_at(
            [0, 1, 0, 0],
            &[(b"name", basic_names("Demo", "Regular")), (b"OS/2", os2_table(w, 1))],
            0,
        );
        let e = parse_face(&font, 0, "p", Source::System, 0, 0, FontFormat::Ttf).unwrap();
        assert_eq!(e.weight, 400);
        assert!(e.italic);
    }
    let font = sfnt_at(
        [0, 1, 0, 0],
        &[(b"name", basic_names("Demo", "Regular")), (b"OS/2", os2_table(1000, 0))],
        0,
    );
    let e = parse_face(&font, 0, "p", Source::System, 0, 0, FontFormat::Ttf).unwrap();
    assert_eq!(e.weight, 1000);
    assert!(e.id.chars().all(|c| c.is_ascii_hexdigit() && !c.is_ascii_uppercase()));
}

#[test]
fn typographic_family_wins_even_when_blank() {
    let t = name_table(&[(3, 1, 0x409, 1, utf16("Family")), (3, 1, 0x409, 16, utf16(" \t"))]);
    let font = sfnt_at([0, 1, 0, 0], &[(b"name", t)], 0);
    assert!(parse_face(&font, 0, "p", Source::System, 0, 0, FontFormat::Ttf).is_none());
    let t = name_table(&[(3, 1, 0x409, 1, utf16("Family")), (3, 1, 0x409, 16, utf16("Typo"))]);
    let font = sfnt_at([0, 1, 0, 0], &[(b"name", t)], 0);
    let e = parse_face(&font, 0, "p", Source::System, 0, 0, FontFormat::Ttf).unwrap();
    assert_eq!(e.family, "Typo");
}

#[test]
fn windows_english_with_any_encoding_is_read() {
    let t = vec![0, 0, 0, 1, 0, 18, 0, 3, 0, 0, 4, 9, 0, 1, 0, 2, 0, 0, 0, 66];
    assert_eq!(parse_names(&t).family.as_deref(), Some("B"));
    let t2 = name_table(&[(3, 0, 0x411, 1, utf16("Sym")), (3, 0, 0x409, 1, utf16("Eng"))]);
    assert_eq!(parse_names(&t2).family.as_deref(), Some("Eng"));
}

#[test]
fn collection_face_size_counts_repeated_tags() {
    let names = basic_names("Dup", "Regular");
    let at = 12 + 4;
    let face = sfnt_at([0, 1, 0, 0], &[(b"name", names.clone()), (b"name", names.clone())], at);
    let mut file = Vec::new();
    file.extend_from_slice(b"ttcf");
    file.extend_from_slice(&0x00010000u32.to_be_bytes());
    file.extend_from_slice(&1u32.to_be_bytes());
    file.extend_from_slice(&(at as u32).to_be_bytes());
    file.extend_from_slice(&face);
    let faces = parse_file(&file, "/d.ttc", Source::System, 0);
    assert_eq!(faces.len(), 1);
    let served = extract_face(&file, at).unwrap();
    assert_eq!(faces[0].size, served.len() as u64);
}
