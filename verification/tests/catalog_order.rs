use lib::catalog::{arrange_catalog, dedup_entries, faces_in_file, find_font, is_candidate};
use lib::face::{FontEntry, FontFormat, Source};

fn e(id: &str, family: &str, style: &str, weight: u16, italic: bool, file: usize) -> FontEntry {
    FontEntry {
        id: id.to_string(),
        family: family.to_string(),
        style: style.to_string(),
        weight,
        italic,
        postscript: String::new(),
        source: Source::System,
        format: FontFormat::Ttf,
        file,
        face_index: 0,
        size: 10,
        axes: Vec::new(),
    }
}

#[test]
fn candidates_by_extension_and_source() {
    assert!(is_candidate("ttf", Source::System));
    assert!(is_candidate("OTF", Source::User));
    assert!(is_candidate("TtC", Source::System));
    assert!(is_candidate("", Source::System));
    assert!(is_candidate("bin", Source::Adobe));
    assert!(!is_candidate("woff2", Source::System));
    assert!(!is_candidate("ttfx", Source::User));
}

#[test]
fn duplicates_keep_the_first_found() {
    let fonts = vec![
        e("1", "Demo", "Regular", 400, false, 0),
        e("2", "DEMO", "regular", 400, false, 1),
        e("3", "Demo", "Regular", 400, true, 2),
        e("4", "Demo", "Regular", 700, false, 3),
        e("5", "demo", "REGULAR", 700, false, 4),
    ];
    let d = dedup_entries(&fonts);
    let ids: Vec<&str> = d.iter().map(|f| f.id.as_str()).collect();
    assert_eq!(ids, vec!["1", "3", "4"]);
}

#[test]
fn catalog_sorted_by_family_weight_italic_stably() {
    let fonts = vec![
        e("a", "beta", "Regular", 400, false, 0),
        e("b", "Alpha", "Bold", 700, false, 1),
        e("c", "alpha", "Italic", 400, true, 2),
        e("d", "Alpha", "Regular", 400, false, 3),
        e("e", "ALPHA", "Book", 400, false, 4),
        e("f", "Alpha Two", "Regular", 100, false, 5),
        e("g", "Äpfel", "Regular", 400, false, 6),
        e("h", "beta", "Regular", 400, false, 7),
    ];
    let out = arrange_catalog(&fonts);
    let ids: Vec<&str> = out.iter().map(|f| f.id.as_str()).collect();
    assert_eq!(ids, vec!["d", "e", "c", "b", "f", "a", "g"]);
    assert!(arrange_catalog(&Vec::new()).is_empty());
}

#[test]
fn catalog_matches_std_stable_sort() {
    let fams = ["a", "B", "b", "aa", "A", "", "z", "Zz", "ß", "ǅ"];
    let mut fonts = Vec::new();
    let mut x: u32 = 12345;
    for i in 0..200 {
        x = x.wrapping_mul(1103515245).wrapping_add(12345);
        let fam = fams[(x >> 8) as usize % fams.len()];
        let style = ["R", "r", "I"][(x >> 4) as usize % 3];
        let w = [100u16, 400, 700][(x >> 12) as usize % 3];
        let it = (x >> 20) % 2 == 0;
        fonts.push(e(&i.to_string(), fam, style, w, it, i));
    }
    let mut seen = std::collections::HashSet::new();
    let mut expect: Vec<&FontEntry> = fonts
        .iter()
        .filter(|f| seen.insert(format!("{}|{}|{}|{}", f.family.to_lowercase(), f.style.to_lowercase(), f.weight, f.italic)))
        .collect();
    expect.sort_by(|a, b| {
        a.family
            .to_lowercase()
            .cmp(&b.family.to_lowercase())
            .then(a.weight.cmp(&b.weight))
            .then(a.italic.cmp(&b.italic))
    });
    let got = arrange_catalog(&fonts);
    let got_ids: Vec<&str> = got.iter().map(|f| f.id.as_str()).collect();
    let want_ids: Vec<&str> = expect.iter().map(|f| f.id.as_str()).collect();
    assert_eq!(got_ids, want_ids);
}

#[test]
fn find_font_gives_last_with_id() {
    let fonts = vec![e("x", "A", "R", 400, false, 0), e("y", "B", "R", 400, false, 1), e("x", "C", "R", 400, false, 2)];
    assert_eq!(find_font(&fonts, "x"), Some(2));
    assert_eq!(find_font(&fonts, "y"), Some(1));
    assert_eq!(find_font(&fonts, "z"), None);
}

#[test]
fn short_files_give_no_faces() {
    assert!(faces_in_file(&[0, 1, 0, 0, 0, 0], "p", Source::User, 0).is_empty());
    assert!(faces_in_file(&[0xff; 40], "p", Source::User, 0).is_empty());
}
