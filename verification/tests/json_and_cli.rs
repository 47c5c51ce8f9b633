use lib::axes::Axis;
use lib::cli::{parse_args, parse_u16, port_candidates, root_plan, windows_dir, Platform, RootBase};
use lib::face::{FontEntry, FontFormat, Source};
use lib::json::{axes_json, fonts_json, health_json, json_str};

fn args(v: &[&str]) -> Vec<String> {
    v.iter().map(|s| s.to_string()).collect()
}

#[test]
fn json_str_escapes_quotes_backslashes_and_controls() {
    assert_eq!(json_str("plain"), "\"plain\"");
    assert_eq!(json_str("a\"b\\c"), "\"a\\\"b\\\\c\"");
    assert_eq!(json_str("l1\nl2\r\t"), "\"l1\\nl2\\r\\t\"");
    assert_eq!(json_str("\u{1}\u{1f}"), "\"\\u0001\\u001f\"");
    assert_eq!(json_str("é漢\u{7f}"), "\"é漢\u{7f}\"");
    assert_eq!(json_str(""), "\"\"");
}

fn entry(family: &str, axes: Vec<Axis>) -> FontEntry {
    FontEntry {
        id: "00ff".to_string(),
        family: family.to_string(),
        style: "Bold \"X\"".to_string(),
        weight: 700,
        italic: false,
        postscript: "P".to_string(),
        source: Source::Adobe,
        format: FontFormat::Ttc,
        file: 0,
        face_index: 1,
        size: 1234,
        axes,
    }
}

#[test]
fn fonts_json_lists_each_face() {
    let fonts = vec![entry("A", Vec::new()), entry("B", Vec::new())];
    let axes = vec!["[]".to_string(), "[]".to_string()];
    assert_eq!(
        fonts_json(&fonts, &axes),
        "[{\"id\":\"00ff\",\"family\":\"A\",\"style\":\"Bold \\\"X\\\"\",\"weight\":700,\"italic\":false,\"postscript\":\"P\",\"source\":\"adobe\",\"format\":\"ttc\",\"size\":1234,\"axes\":[]},{\"id\":\"00ff\",\"family\":\"B\",\"style\":\"Bold \\\"X\\\"\",\"weight\":700,\"italic\":false,\"postscript\":\"P\",\"source\":\"adobe\",\"format\":\"ttc\",\"size\":1234,\"axes\":[]}]"
    );
    assert_eq!(fonts_json(&Vec::new(), &Vec::new()), "[]");
}

#[test]
fn axes_json_uses_given_numbers() {
    let axes = vec![
        Axis { tag: "wght".to_string(), min: 100 << 16, def: 400 << 16, max: 900 << 16 },
        Axis { tag: "wdth".to_string(), min: 0, def: 0, max: 0 },
    ];
    let nums: Vec<String> = ["100", "400", "900", "0", "0", "0"].iter().map(|s| s.to_string()).collect();
    assert_eq!(
        axes_json(&axes, &nums),
        "[{\"tag\":\"wght\",\"min\":100,\"def\":400,\"max\":900},{\"tag\":\"wdth\",\"min\":0,\"def\":0,\"max\":0}]"
    );
}

#[test]
fn health_json_record() {
    assert_eq!(
        health_json("1.2.3", 42, "macos", 57731, 17),
        "{\"name\":\"resaiz-font-helper\",\"version\":\"1.2.3\",\"fonts\":42,\"platform\":\"macos\",\"port\":57731,\"scanMs\":17}"
    );
}

#[test]
fn u16_parsing_follows_str_parse() {
    for s in ["0", "57731", "+80", "65535", "007", "65536", "", "+", "-1", "12a", " 1", "１"] {
        assert_eq!(parse_u16(s), s.parse::<u16>().ok(), "input {:?}", s);
    }
    assert_eq!(parse_u16("99999999999999999999"), None);
}

#[test]
fn args_give_once_and_port() {
    let o = parse_args(&args(&["helper", "--once"]));
    assert!(o.once);
    assert_eq!(o.port, None);
    let o = parse_args(&args(&["helper", "--port", "9000", "--port", "1"]));
    assert!(!o.once);
    assert_eq!(o.port, Some(9000));
    let o = parse_args(&args(&["helper", "--port", "x"]));
    assert_eq!(o.port, None);
    let o = parse_args(&args(&["helper", "--port"]));
    assert_eq!(o.port, None);
    let o = parse_args(&args(&[]));
    assert!(!o.once);
}

#[test]
fn ports_fall_back_through_the_range() {
    assert_eq!(port_candidates(Some(8080)), vec![8080]);
    let all = port_candidates(None);
    assert_eq!(all, (57731..=57740).collect::<Vec<u16>>());
}

#[test]
fn font_folders_per_platform() {
    let mac = root_plan(Platform::MacOs, true, false, false);
    let rels: Vec<&str> = mac.iter().map(|p| p.rel).collect();
    assert_eq!(
        rels,
        vec![
            "/System/Library/Fonts",
            "/Library/Fonts",
            "Library/Fonts",
            "Library/Application Support/Adobe/CoreSync/plugins/livetype/.r",
        ]
    );
    assert!(matches!(mac[3].source, Source::Adobe));
    assert!(matches!(mac[2].base, RootBase::Home));
    assert_eq!(root_plan(Platform::MacOs, false, true, true).len(), 2);
    let win = root_plan(Platform::Windows, true, false, true);
    assert_eq!(win.len(), 2);
    assert!(matches!(win[0].base, RootBase::WinDir));
    assert_eq!(win[1].rel, "Adobe\\CoreSync\\plugins\\livetype\\r");
    let other = root_plan(Platform::Other, true, false, false);
    assert_eq!(other.len(), 5);
    assert_eq!(other[4].rel, ".config/Adobe/CoreSync/plugins/livetype/.r");
    assert_eq!(windows_dir(None), "C:\\Windows");
    assert_eq!(windows_dir(Some("D:\\W".to_string())), "D:\\W");
}

/// Reads back the body of a JSON string literal (the escapes `json_str` writes).
fn unescape(lit: &str) -> String {
    let body: Vec<char> = lit[1..lit.len() - 1].chars().collect();
    let mut out = String::new();
    let mut i = 0;
    while i < body.len() {
        if body[i] == '\\' {
            match body[i + 1] {
                'n' => out.push('\n'),
                'r' => out.push('\r'),
                't' => out.push('\t'),
                '"' => out.push('"'),
                '\\' => out.push('\\'),
                'u' => {
                    let hex: String = body[i + 2..i + 6].iter().collect();
                    out.push(char::from_u32(u32::from_str_radix(&hex, 16).unwrap()).unwrap());
                    i += 4;
                }
                other => panic!("unexpected escape {other}"),
            }
            i += 2;
        } else {
            assert!(body[i] != '"' && (body[i] as u32) >= 0x20);
            out.push(body[i]);
            i += 1;
        }
    }
    out
}

#[test]
fn json_str_reads_back_as_the_original_text() {
    for s in ["", "x", "a\"b", "\\", "\u{0}\u{1b}\n\r\t", "mixed \"é\" \\ \u{10ffff}", "/v1/font/"] {
        let lit = json_str(s);
        assert!(lit.starts_with('"') && lit.ends_with('"'));
        assert_eq!(unescape(&lit), s);
    }
}
