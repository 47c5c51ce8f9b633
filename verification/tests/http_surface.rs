use lib::http::{
    cors_headers, decide, fixed_answer, font_answer, font_headers, font_payload, health_answer,
    list_answer, missing_file_text, origin_allowed, parse_request_line, plain_answer,
    request_origin, response_head, route, unknown_font_text, Route,
};
use lib::face::FontFormat;
use lib::repack::extract_face;

fn lines(v: &[&str]) -> Vec<String> {
    v.iter().map(|s| s.to_string()).collect()
}

#[test]
fn allowed_origins_are_the_resaiz_sites() {
    assert!(origin_allowed("https://resaiz.vercel.app"));
    assert!(origin_allowed("https://www.resaiz.com"));
    assert!(origin_allowed("https://resaiz.com"));
    assert!(origin_allowed("http://localhost:5173"));
    assert!(origin_allowed("http://127.0.0.1:5173"));
    assert!(origin_allowed("https://resaiz-git-main-team.vercel.app"));
    assert!(!origin_allowed("https://resaiz-.evil.com"));
    assert!(!origin_allowed("https://evil.com"));
    assert!(!origin_allowed("http://resaiz.com"));
    assert!(!origin_allowed("https://resaiz.com/"));
    assert!(!origin_allowed(""));
}

#[test]
fn request_line_gives_method_and_path() {
    let (m, p) = parse_request_line("GET /v1/fonts?x=1 HTTP/1.1\r\n");
    assert_eq!(m, "GET");
    assert_eq!(p, "/v1/fonts");
    let (m, p) = parse_request_line("   OPTIONS\t/v1/health  ");
    assert_eq!(m, "OPTIONS");
    assert_eq!(p, "/v1/health");
    let (m, p) = parse_request_line("HEAD");
    assert_eq!(m, "HEAD");
    assert_eq!(p, "/");
    let (m, p) = parse_request_line("  \r\n");
    assert_eq!(m, "");
    assert_eq!(p, "/");
    let (_, p) = parse_request_line("GET ?q");
    assert_eq!(p, "");
}

#[test]
fn origin_header_is_read_until_the_blank_line() {
    let h = lines(&["Host: x\r\n", "Origin:  https://resaiz.com \r\n", "\r\n", "Origin: https://late.example\r\n"]);
    assert_eq!(request_origin(&h).as_deref(), Some("https://resaiz.com"));
    let h = lines(&["origin: a\r\n", "Origin: b\r\n"]);
    assert_eq!(request_origin(&h).as_deref(), Some("b"));
    let h = lines(&["ORIGIN: a\r\n"]);
    assert_eq!(request_origin(&h), None);
    assert_eq!(request_origin(&Vec::new()), None);
}

#[test]
fn routes_follow_method_and_path() {
    assert!(matches!(route("GET", "/v1/health", None), Route::Health));
    assert!(matches!(route("HEAD", "/v1/health/", None), Route::Health));
    assert!(matches!(route("GET", "/v1/fonts", Some("https://resaiz.com")), Route::FontList));
    assert!(matches!(route("GET", "/v1/fonts/", None), Route::FontList));
    assert!(matches!(route("OPTIONS", "/anything", None), Route::Preflight));
    assert!(matches!(route("POST", "/v1/fonts", None), Route::MethodNotAllowed));
    assert!(matches!(route("get", "/v1/fonts", None), Route::MethodNotAllowed));
    assert!(matches!(route("GET", "/v2", None), Route::NotFound));
    match route("GET", "/v1/font/abc//", None) {
        Route::Font { id } => assert_eq!(id, "abc"),
        _ => panic!("expected a font route"),
    }
    match route("GET", "/v1/font//v1/font/xyz", None) {
        Route::Font { id } => assert_eq!(id, "xyz"),
        _ => panic!("expected a font route"),
    }
    match route("GET", "/v1/font/v1/font/xyz", None) {
        Route::Font { id } => assert_eq!(id, "v1/font/xyz"),
        _ => panic!("expected a font route"),
    }
}

#[test]
fn foreign_origins_get_403_whatever_they_ask() {
    for m in ["GET", "OPTIONS", "POST"] {
        for p in ["/v1/fonts", "/v1/font/a", "/x"] {
            assert!(matches!(route(m, p, Some("https://evil.com")), Route::Forbidden));
        }
    }
    let d = decide("GET /v1/fonts HTTP/1.1", &lines(&["Origin: https://evil.com\r\n", "\r\n"]));
    assert!(matches!(d.route, Route::Forbidden));
    assert!(d.cors.is_empty());
    assert_eq!(plain_answer(&d.route), Some((403, "origin not allowed")));
}

#[test]
fn allowed_origin_gets_cors_headers() {
    let d = decide("OPTIONS /v1/fonts HTTP/1.1", &lines(&["Origin: http://localhost:5173\r\n", "\r\n"]));
    assert!(matches!(d.route, Route::Preflight));
    assert_eq!(
        d.cors,
        vec![
            "Access-Control-Allow-Origin: http://localhost:5173",
            "Vary: Origin",
            "Access-Control-Allow-Methods: GET, OPTIONS",
            "Access-Control-Allow-Headers: *",
            "Access-Control-Allow-Private-Network: true",
            "Access-Control-Max-Age: 86400",
        ]
    );
    assert_eq!(plain_answer(&d.route), Some((204, "")));
    let none = decide("GET /v1/health HTTP/1.1", &lines(&["\r\n"]));
    assert!(none.cors.is_empty());
    assert!(cors_headers(None).is_empty());
    assert_eq!(cors_headers(Some("o")).len(), 6);
}

#[test]
fn plain_answers_and_texts() {
    assert_eq!(plain_answer(&Route::MethodNotAllowed), Some((405, "method not allowed")));
    assert_eq!(plain_answer(&Route::NotFound), Some((404, "not found")));
    assert_eq!(plain_answer(&Route::Health), None);
    assert_eq!(unknown_font_text(), "unknown font id");
    assert_eq!(missing_file_text(), "font file missing");
}

#[test]
fn response_head_layout() {
    let h = response_head(404, "text/plain", 9, &vec!["Vary: Origin".to_string()]);
    assert_eq!(
        h,
        "HTTP/1.1 404 Not Found\r\nContent-Type: text/plain\r\nContent-Length: 9\r\nConnection: close\r\nX-Content-Type-Options: nosniff\r\nVary: Origin\r\n\r\n"
    );
    let h = response_head(418, "a/b", 0, &Vec::new());
    assert!(h.starts_with("HTTP/1.1 418 OK\r\n"));
    assert!(h.ends_with("nosniff\r\n\r\n"));
}

#[test]
fn font_headers_add_cache_and_face_index() {
    let h = font_headers(&vec!["Vary: Origin".to_string()], 3);
    assert_eq!(h, vec!["Vary: Origin", "Cache-Control: private, max-age=3600", "X-Face-Index: 3"]);
}

fn tiny_face(magic: [u8; 4], base: usize) -> Vec<u8> {
    let mut out = Vec::new();
    out.extend_from_slice(&magic);
    out.extend_from_slice(&1u16.to_be_bytes());
    out.extend_from_slice(&[0, 0, 0, 0, 0, 0]);
    out.extend_from_slice(b"abcd");
    out.extend_from_slice(&0u32.to_be_bytes());
    out.extend_from_slice(&((base + 28) as u32).to_be_bytes());
    out.extend_from_slice(&3u32.to_be_bytes());
    out.extend_from_slice(&[1, 2, 3, 0]);
    out
}

#[test]
fn payloads_repack_collection_faces() {
    let mut file = Vec::new();
    file.extend_from_slice(b"ttcf");
    file.extend_from_slice(&[0, 1, 0, 0]);
    file.extend_from_slice(&2u32.to_be_bytes());
    file.extend_from_slice(&20u32.to_be_bytes());
    file.extend_from_slice(&52u32.to_be_bytes());
    file.extend_from_slice(&tiny_face([0, 1, 0, 0], 20));
    file.extend_from_slice(&tiny_face(*b"OTTO", 52));
    let (b0, ct0) = font_payload(file.clone(), FontFormat::Ttc, 0);
    assert_eq!(ct0, "font/ttf");
    assert_eq!(b0, extract_face(&file, 20).unwrap());
    let (b1, ct1) = font_payload(file.clone(), FontFormat::Ttc, 1);
    assert_eq!(ct1, "font/otf");
    assert_eq!(&b1[0..4], b"OTTO");
    assert_eq!(b1.len(), 12 + 16 + 4);
    let (b9, ct9) = font_payload(file.clone(), FontFormat::Ttc, 9);
    assert_eq!(ct9, "font/collection");
    assert_eq!(b9, file);
    let (p, ct) = font_payload(vec![1, 2, 3], FontFormat::Otf, 0);
    assert_eq!((p, ct), (vec![1, 2, 3], "font/otf"));
    let (p, ct) = font_payload(vec![4], FontFormat::Ttf, 5);
    assert_eq!((p, ct), (vec![4], "font/ttf"));
}

#[test]
fn answers_carry_status_type_and_body() {
    let cors = vec!["Vary: Origin".to_string()];
    let a = fixed_answer(&Route::NotFound, &cors).unwrap();
    assert_eq!((a.status, a.content_type, a.body.as_slice()), (404, "text/plain", &b"not found"[..]));
    assert_eq!(a.headers, cors);
    assert!(fixed_answer(&Route::FontList, &cors).is_none());
    let h = health_answer("1.0", 3, "linux", 57731, 9, &cors);
    assert_eq!((h.status, h.content_type), (200, "application/json"));
    assert_eq!(h.body, lib::json::health_json("1.0", 3, "linux", 57731, 9).into_bytes());
    let l = list_answer(&Vec::new(), &Vec::new(), &Vec::new());
    assert_eq!((l.status, l.content_type, l.body.as_slice()), (200, "application/json", &b"[]"[..]));
    let u = font_answer(None, None, &cors);
    assert_eq!((u.status, u.body.as_slice()), (404, &b"unknown font id"[..]));
    let m = font_answer(Some((FontFormat::Ttf, 0)), None, &cors);
    assert_eq!((m.status, m.body.as_slice()), (404, &b"font file missing"[..]));
    let f = font_answer(Some((FontFormat::Otf, 2)), Some(vec![9, 9]), &cors);
    assert_eq!((f.status, f.content_type, f.body), (200, "font/otf", vec![9, 9]));
    assert_eq!(f.headers, vec!["Vary: Origin", "Cache-Control: private, max-age=3600", "X-Face-Index: 2"]);
}

#[test]
fn query_string_does_not_change_the_route() {
    let h = lines(&["Origin: https://resaiz.com\r\n", "\r\n"]);
    let a = decide("GET /v1/fonts HTTP/1.1", &h);
    let b = decide("GET /v1/fonts?v=2 HTTP/1.1", &h);
    assert!(matches!(a.route, Route::FontList) && matches!(b.route, Route::FontList));
    assert_eq!(a.cors, b.cors);
}
