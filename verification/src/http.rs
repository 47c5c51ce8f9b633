//! The local HTTP surface: which browser origins may read the catalog,
//! reading the request line and the `Origin` header, routing a request to
//! an answer, the CORS headers, the response head, and what is served for
//! a font.

use vstd::prelude::*;
use crate::bytes::{be32, be32_at};
use crate::face::{FontFormat, MAGIC_OTTO, Source, TAG_NAME, face_spec, find_table, round4, rounded_total};
use crate::sfnt::{TableRecord, table_records_spec, records_in_bounds, lemma_records_upto_bounds, record_limit};
use crate::repack::{data_upto, table_bytes};
use crate::bytes::be16_at;
use crate::json::{
    push_dec, push_str, fonts_json, fonts_json_spec, health_json, health_json_spec, strings_view,
};
use crate::face::{FontEntry, entries_view};
use crate::render::dec_chars;
use crate::repack::{extract_face, extract_face_spec};
use crate::catalog::same_chars;
use crate::text::{
    chars_of, copy_range, ends_with, has_prefix, lead_by, trail_by, has_suffix, is_whitespace, is_ws, starts_with,
    string_of, trim, trim_end_len, trim_end_spec, trim_spec,
};

verus! {

/// Browser origins allowed to read the catalog: the resaiz sites, the
/// local development servers, and resaiz preview deployments on Vercel.
pub open spec fn origin_allowed_spec(o: Seq<char>) -> bool {
    ||| o == "https://resaiz.vercel.app"@
    ||| o == "https://www.resaiz.com"@
    ||| o == "https://resaiz.com"@
    ||| o == "http://localhost:5173"@
    ||| o == "http://127.0.0.1:5173"@
    ||| has_prefix(o, "https://resaiz-"@) && has_suffix(o, ".vercel.app"@)
}

fn eq_lit(s: &[char], lit: &str) -> (r: bool)
    ensures
        r == (s@ == lit@),
{
    let l = chars_of(lit);
    same_chars(s, l.as_slice())
}

/// Whether a browser origin may read the catalog.
pub fn origin_allowed(origin: &str) -> (r: bool)
    ensures
        r == origin_allowed_spec(origin@),
{
    let o = chars_of(origin);
    let os = o.as_slice();
    eq_lit(os, "https://resaiz.vercel.app") || eq_lit(os, "https://www.resaiz.com") || eq_lit(
        os,
        "https://resaiz.com",
    ) || eq_lit(os, "http://localhost:5173") || eq_lit(os, "http://127.0.0.1:5173") || (
    starts_with(os, chars_of("https://resaiz-").as_slice()) && ends_with(
        os,
        chars_of(".vercel.app").as_slice(),
    ))
}

/// Characters that are not whitespace.
pub open spec fn word_pred() -> spec_fn(char) -> bool {
    |c: char| !is_ws(c)
}

/// Characters other than `?`.
pub open spec fn not_query_pred() -> spec_fn(char) -> bool {
    |c: char| c != '?'
}

/// The slash character.
pub open spec fn slash_pred() -> spec_fn(char) -> bool {
    |c: char| c == '/'
}

/// The first whitespace-separated word of `s` and the text after it
/// (`split_whitespace`), or `None` when `s` is blank.
pub open spec fn first_word(s: Seq<char>) -> Option<(Seq<char>, Seq<char>)> {
    let t = s.skip(lead_by(s, crate::text::ws_pred()) as int);
    if t.len() == 0 {
        None
    } else {
        let n = lead_by(t, word_pred()) as int;
        Some((t.take(n), t.skip(n)))
    }
}

/// The method of a request line: its first word, or empty.
pub open spec fn request_method(line: Seq<char>) -> Seq<char> {
    match first_word(line) {
        Some((w, _)) => w,
        None => seq![],
    }
}

/// The target of a request line: its second word, or `/`.
pub open spec fn request_target(line: Seq<char>) -> Seq<char> {
    match first_word(line) {
        Some((_, rest)) => match first_word(rest) {
            Some((w, _)) => w,
            None => seq!['/'],
        },
        None => seq!['/'],
    }
}

/// The path of a target: the text before the first `?`.
pub open spec fn target_path(target: Seq<char>) -> Seq<char> {
    target.take(lead_by(target, not_query_pred()) as int)
}

/// Leading-count of `s` for the predicate `p`, with its characterization.
fn count_lead(s: &[char], from: usize, which: u8) -> (r: usize)
    requires
        from <= s@.len(),
        which < 3,
    ensures
        from <= r <= s@.len(),
        r - from == lead_by(s@.skip(from as int), pick(which)),
{
    let ghost p = pick(which);
    let mut i = from;
    while i < s.len() && test(s[i], which)
        invariant
            from <= i <= s@.len(),
            p == pick(which),
            forall|k: int| from <= k < i ==> p(#[trigger] s@[k]),
        decreases s@.len() - i,
    {
        i = i + 1;
    }
    proof {
        let t = s@.skip(from as int);
        assert forall|k: int| 0 <= k < i - from implies p(#[trigger] t[k]) by {
            assert(t[k] == s@[from + k]);
        }
        if i < s@.len() {
            assert(t[i - from] == s@[i as int]);
        }
        crate::text::lemma_lead_by(t, p, i - from);
    }
    i
}

/// Predicate 0: whitespace; 1: not whitespace; 2: not `?`.
pub open spec fn pick(which: u8) -> spec_fn(char) -> bool {
    if which == 0 {
        crate::text::ws_pred()
    } else if which == 1 {
        word_pred()
    } else {
        not_query_pred()
    }
}

fn test(c: char, which: u8) -> (b: bool)
    ensures
        b == (pick(which))(c),
{
    if which == 0 {
        is_whitespace(c)
    } else if which == 1 {
        !is_whitespace(c)
    } else {
        c != '?'
    }
}

/// Start and end of the first word at or after `from`, if any.
fn word_bounds(s: &[char], from: usize) -> (r: Option<(usize, usize)>)
    requires
        from <= s@.len(),
    ensures
        r is Some == first_word(s@.skip(from as int)) is Some,
        r matches Some((a, b)) ==> from <= a <= b <= s@.len() && first_word(s@.skip(from as int))
            == Some((s@.subrange(a as int, b as int), s@.skip(b as int))),
{
    let a = count_lead(s, from, 0);
    let ghost t0 = s@.skip(from as int);
    let ghost t = t0.skip(lead_by(t0, crate::text::ws_pred()) as int);
    assert(t =~= s@.skip(a as int));
    if a == s.len() {
        return None;
    }
    let b = count_lead(s, a, 1);
    assert(t.take((b - a) as int) =~= s@.subrange(a as int, b as int));
    assert(t.skip((b - a) as int) =~= s@.skip(b as int));
    Some((a, b))
}

/// Method and path of a request line (`GET /v1/fonts?x HTTP/1.1` gives
/// `GET` and `/v1/fonts`).
pub fn parse_request_line(line: &str) -> (r: (String, String))
    ensures
        r.0@ == request_method(line@),
        r.1@ == target_path(request_target(line@)),
{
    let cs = chars_of(line);
    let s = cs.as_slice();
    assert(s@.skip(0) =~= s@);
    let (method, target): (Vec<char>, Vec<char>) = match word_bounds(s, 0) {
        None => (Vec::new(), vec!['/']),
        Some((a, b)) => {
            let m = copy_range(s, a, b);
            match word_bounds(s, b) {
                None => (m, vec!['/']),
                Some((c, d)) => (m, copy_range(s, c, d)),
            }
        },
    };
    assert(method@ =~= request_method(line@));
    assert(target@ =~= request_target(line@));
    let t = target.as_slice();
    assert(t@.skip(0) =~= t@);
    let q = count_lead(t, 0, 2);
    let path = copy_range(t, 0, q);
    assert(path@ =~= target_path(target@));
    (string_of(method.as_slice()), string_of(path.as_slice()))
}

/// The `Origin` value of a header line (already stripped of its line
/// end): the trimmed text after `Origin:` or `origin:`.
pub open spec fn origin_value(l: Seq<char>) -> Option<Seq<char>> {
    if has_prefix(l, "Origin:"@) {
        Some(trim_spec(l.skip(7)))
    } else if has_prefix(l, "origin:"@) {
        Some(trim_spec(l.skip(7)))
    } else {
        None
    }
}

/// The origin seen in the first `k` header lines, and whether the blank
/// line that ends the header has been met.  The last `Origin` line wins.
pub open spec fn origin_upto(lines: Seq<Seq<char>>, k: nat) -> (Option<Seq<char>>, bool)
    decreases k,
{
    if k == 0 {
        (None, false)
    } else {
        let (o, done) = origin_upto(lines, (k - 1) as nat);
        if done {
            (o, true)
        } else {
            let l = trim_end_spec(lines[k - 1]);
            if l.len() == 0 {
                (o, true)
            } else {
                match origin_value(l) {
                    Some(v) => (Some(v), false),
                    None => (o, false),
                }
            }
        }
    }
}

/// The request's origin, from its header lines (those after the request
/// line, read up to the blank line or the end of input).
pub open spec fn request_origin_spec(lines: Seq<Seq<char>>) -> Option<Seq<char>> {
    origin_upto(lines, lines.len()).0
}

/// Views of header lines.
pub open spec fn lines_view(v: Seq<String>) -> Seq<Seq<char>> {
    Seq::new(v.len(), |i: int| v[i]@)
}

fn origin_of_line(l: &[char]) -> (r: Option<Vec<char>>)
    ensures
        r is Some == origin_value(l@) is Some,
        r is Some ==> r->0@ == origin_value(l@)->0,
{
    let up = chars_of("Origin:");
    let lo = chars_of("origin:");
    proof {
        reveal_strlit("Origin:");
        reveal_strlit("origin:");
    }
    if starts_with(l, up.as_slice()) || starts_with(l, lo.as_slice()) {
        let rest = copy_range(l, 7, l.len());
        assert(rest@ =~= l@.skip(7));
        Some(trim(rest.as_slice()))
    } else {
        None
    }
}

/// The request's origin, as `request_origin_spec` says.
pub fn request_origin(lines: &Vec<String>) -> (r: Option<String>)
    ensures
        r is Some == request_origin_spec(lines_view(lines@)) is Some,
        r is Some ==> r->0@ == request_origin_spec(lines_view(lines@))->0,
{
    let ghost lv = lines_view(lines@);
    let mut origin: Option<Vec<char>> = None;
    let mut i: usize = 0;
    while i < lines.len()
        invariant
            i <= lines@.len(),
            lv == lines_view(lines@),
            !origin_upto(lv, i as nat).1,
            origin is Some == origin_upto(lv, i as nat).0 is Some,
            origin is Some ==> origin->0@ == origin_upto(lv, i as nat).0->0,
        ensures
            origin is Some == request_origin_spec(lv) is Some,
            origin is Some ==> origin->0@ == request_origin_spec(lv)->0,
        decreases lines@.len() - i,
    {
        let cs = chars_of(lines[i].as_str());
        assert(cs@ == lv[i as int]);
        let e = trim_end_len(cs.as_slice());
        if e == 0 {
            proof {
                lemma_origin_done(lv, (i + 1) as nat, lv.len());
            }
            break;
        }
        let l = copy_range(cs.as_slice(), 0, e);
        match origin_of_line(l.as_slice()) {
            Some(v) => {
                origin = Some(v);
            },
            None => {},
        }
        i = i + 1;
    }
    match origin {
        Some(v) => Some(string_of(v.as_slice())),
        None => None,
    }
}

proof fn lemma_origin_done(lines: Seq<Seq<char>>, i: nat, k: nat)
    requires
        0 < i <= k,
        origin_upto(lines, i).1,
    ensures
        origin_upto(lines, k) == origin_upto(lines, i),
    decreases k,
{
    if k > i {
        lemma_origin_done(lines, i, (k - 1) as nat);
    }
}

/// What a request is answered with.
pub enum Route {
    /// 403: the browser origin may not read the catalog.
    Forbidden,
    /// 204: a CORS preflight.
    Preflight,
    /// 405: a method other than GET, HEAD or OPTIONS.
    MethodNotAllowed,
    /// 200: the health record.
    Health,
    /// 200: the font list.
    FontList,
    /// The font with this identifier.
    Font { id: String },
    /// 404: any other path.
    NotFound,
}

/// The spec view of a route.
pub enum RouteView {
    Forbidden,
    Preflight,
    MethodNotAllowed,
    Health,
    FontList,
    Font { id: Seq<char> },
    NotFound,
}

impl Route {
    pub open spec fn view(&self) -> RouteView {
        match self {
            Route::Forbidden => RouteView::Forbidden,
            Route::Preflight => RouteView::Preflight,
            Route::MethodNotAllowed => RouteView::MethodNotAllowed,
            Route::Health => RouteView::Health,
            Route::FontList => RouteView::FontList,
            Route::Font { id } => RouteView::Font { id: id@ },
            Route::NotFound => RouteView::NotFound,
        }
    }
}

/// `s` with every leading copy of `p` removed (`trim_start_matches`).
pub open spec fn strip_prefixes(s: Seq<char>, p: Seq<char>) -> Seq<char>
    decreases s.len(),
{
    if p.len() > 0 && has_prefix(s, p) {
        strip_prefixes(s.skip(p.len() as int), p)
    } else {
        s
    }
}

/// The font identifier in a `/v1/font/...` path: the path without its
/// leading `/v1/font/` copies and trailing slashes.
pub open spec fn font_id_of(path: Seq<char>) -> Seq<char> {
    let t = strip_prefixes(path, "/v1/font/"@);
    t.take(t.len() - trail_by(t, slash_pred()))
}

/// How a request is answered: a disallowed origin gets 403 whatever it
/// asks; then OPTIONS is a preflight, a method other than GET or HEAD gets
/// 405, and the path picks the health record, the font list, a font, or
/// 404.
pub open spec fn route_spec(method: Seq<char>, path: Seq<char>, origin: Option<Seq<char>>) -> RouteView {
    if origin matches Some(o) && !origin_allowed_spec(o) {
        RouteView::Forbidden
    } else if method == "OPTIONS"@ {
        RouteView::Preflight
    } else if method != "GET"@ && method != "HEAD"@ {
        RouteView::MethodNotAllowed
    } else if path == "/v1/health"@ || path == "/v1/health/"@ {
        RouteView::Health
    } else if path == "/v1/fonts"@ || path == "/v1/fonts/"@ {
        RouteView::FontList
    } else if has_prefix(path, "/v1/font/"@) {
        RouteView::Font { id: font_id_of(path) }
    } else {
        RouteView::NotFound
    }
}

fn strip_font_prefixes(path: &[char]) -> (r: Vec<char>)
    ensures
        r@ == strip_prefixes(path@, "/v1/font/"@),
{
    let p = chars_of("/v1/font/");
    proof {
        reveal_strlit("/v1/font/");
    }
    let mut cur = copy_range(path, 0, path.len());
    assert(cur@ =~= path@);
    while starts_with(cur.as_slice(), p.as_slice())
        invariant
            p@ == "/v1/font/"@,
            p@.len() == 9,
            strip_prefixes(cur@, p@) == strip_prefixes(path@, p@),
        decreases cur@.len(),
    {
        let next = copy_range(cur.as_slice(), 9, cur.len());
        assert(next@ =~= cur@.skip(9));
        cur = next;
    }
    cur
}

fn font_id(path: &[char]) -> (r: Vec<char>)
    ensures
        r@ == font_id_of(path@),
{
    let t = strip_font_prefixes(path);
    let mut b = t.len();
    while b > 0 && t[b - 1] == '/'
        invariant
            b <= t@.len(),
            forall|i: int| b <= i < t@.len() ==> (slash_pred())(#[trigger] t@[i]),
        decreases b,
    {
        b = b - 1;
    }
    proof {
        crate::text::lemma_trail_by(t@, slash_pred(), (t@.len() - b) as int);
    }
    copy_range(t.as_slice(), 0, b)
}

/// How a request is answered, as `route_spec` says.
pub fn route(method: &str, path: &str, origin: Option<&str>) -> (r: Route)
    ensures
        r.view() == route_spec(
            method@,
            path@,
            match origin {
                Some(o) => Some(o@),
                None => None,
            },
        ),
{
    match origin {
        Some(o) => {
            if !origin_allowed(o) {
                return Route::Forbidden;
            }
        },
        None => {},
    }
    let m = chars_of(method);
    let p = chars_of(path);
    if eq_lit(m.as_slice(), "OPTIONS") {
        return Route::Preflight;
    }
    if !eq_lit(m.as_slice(), "GET") && !eq_lit(m.as_slice(), "HEAD") {
        return Route::MethodNotAllowed;
    }
    if eq_lit(p.as_slice(), "/v1/health") || eq_lit(p.as_slice(), "/v1/health/") {
        return Route::Health;
    }
    if eq_lit(p.as_slice(), "/v1/fonts") || eq_lit(p.as_slice(), "/v1/fonts/") {
        return Route::FontList;
    }
    if starts_with(p.as_slice(), chars_of("/v1/font/").as_slice()) {
        let id = font_id(p.as_slice());
        return Route::Font { id: string_of(id.as_slice()) };
    }
    Route::NotFound
}

/// The CORS headers sent to an allowed origin (none without an origin).
pub open spec fn cors_spec(origin: Option<Seq<char>>) -> Seq<Seq<char>> {
    match origin {
        Some(o) => seq![
            "Access-Control-Allow-Origin: "@ + o,
            "Vary: Origin"@,
            "Access-Control-Allow-Methods: GET, OPTIONS"@,
            "Access-Control-Allow-Headers: *"@,
            "Access-Control-Allow-Private-Network: true"@,
            "Access-Control-Max-Age: 86400"@,
        ],
        None => seq![],
    }
}

fn lit(s: &str) -> (r: String)
    ensures
        r@ == s@,
{
    string_of(chars_of(s).as_slice())
}

/// The CORS headers for a request, as `cors_spec` says.
pub fn cors_headers(origin: Option<&str>) -> (r: Vec<String>)
    ensures
        lines_view(r@) == cors_spec(
            match origin {
                Some(o) => Some(o@),
                None => None,
            },
        ),
{
    let mut v: Vec<String> = Vec::new();
    match origin {
        Some(o) => {
            let mut first = chars_of("Access-Control-Allow-Origin: ");
            push_str(&mut first, o);
            v.push(string_of(first.as_slice()));
            v.push(lit("Vary: Origin"));
            v.push(lit("Access-Control-Allow-Methods: GET, OPTIONS"));
            v.push(lit("Access-Control-Allow-Headers: *"));
            v.push(lit("Access-Control-Allow-Private-Network: true"));
            v.push(lit("Access-Control-Max-Age: 86400"));
        },
        None => {},
    }
    assert(lines_view(v@) =~= cors_spec(
        match origin {
            Some(o) => Some(o@),
            None => None,
        },
    ));
    v
}

/// Reason phrase of a status code (`OK` for codes not listed).
pub open spec fn reason_spec(status: u16) -> Seq<char> {
    if status == 200 {
        "OK"@
    } else if status == 204 {
        "No Content"@
    } else if status == 403 {
        "Forbidden"@
    } else if status == 404 {
        "Not Found"@
    } else if status == 405 {
        "Method Not Allowed"@
    } else {
        "OK"@
    }
}

/// Reason phrase of a status code.
pub fn reason(status: u16) -> (r: &'static str)
    ensures
        r@ == reason_spec(status),
{
    if status == 200 {
        "OK"
    } else if status == 204 {
        "No Content"
    } else if status == 403 {
        "Forbidden"
    } else if status == 404 {
        "Not Found"
    } else if status == 405 {
        "Method Not Allowed"
    } else {
        "OK"
    }
}

/// Each header line followed by CRLF.
pub open spec fn header_lines(extra: Seq<Seq<char>>) -> Seq<char>
    decreases extra.len(),
{
    if extra.len() == 0 {
        seq![]
    } else {
        header_lines(extra.drop_last()) + extra.last() + "\r\n"@
    }
}

/// The response head: status line, content type and length, `Connection:
/// close`, `X-Content-Type-Options: nosniff`, the extra headers, and the
/// blank line.
pub open spec fn response_head_spec(
    status: u16,
    content_type: Seq<char>,
    body_len: nat,
    extra: Seq<Seq<char>>,
) -> Seq<char> {
    "HTTP/1.1 "@ + dec_chars(status as nat) + " "@ + reason_spec(status) + "\r\nContent-Type: "@
        + content_type + "\r\nContent-Length: "@ + dec_chars(body_len)
        + "\r\nConnection: close\r\nX-Content-Type-Options: nosniff\r\n"@ + header_lines(extra)
        + "\r\n"@
}

/// The response head, as `response_head_spec` says.
pub fn response_head(status: u16, content_type: &str, body_len: usize, extra: &Vec<String>) -> (r:
    String)
    ensures
        r@ == response_head_spec(status, content_type@, body_len as nat, lines_view(extra@)),
{
    let mut out: Vec<char> = Vec::new();
    push_str(&mut out, "HTTP/1.1 ");
    push_dec(&mut out, status as u128);
    push_str(&mut out, " ");
    push_str(&mut out, reason(status));
    push_str(&mut out, "\r\nContent-Type: ");
    push_str(&mut out, content_type);
    push_str(&mut out, "\r\nContent-Length: ");
    push_dec(&mut out, body_len as u128);
    push_str(&mut out, "\r\nConnection: close\r\nX-Content-Type-Options: nosniff\r\n");
    let ghost pre = out@;
    let ghost ev = lines_view(extra@);
    let mut i: usize = 0;
    while i < extra.len()
        invariant
            i <= extra@.len(),
            ev == lines_view(extra@),
            out@ == pre + header_lines(ev.subrange(0, i as int)),
        decreases extra@.len() - i,
    {
        let ghost before = out@;
        push_str(&mut out, extra[i].as_str());
        push_str(&mut out, "\r\n");
        assert(ev.subrange(0, i + 1).drop_last() =~= ev.subrange(0, i as int));
        i = i + 1;
        assert(out@ =~= pre + header_lines(ev.subrange(0, i as int)));
    }
    push_str(&mut out, "\r\n");
    assert(ev.subrange(0, ev.len() as int) =~= ev);
    assert(out@ =~= response_head_spec(status, content_type@, body_len as nat, ev));
    string_of(out.as_slice())
}

/// Status, content type and body of the answers that carry a fixed text:
/// 403, 204, 405 and 404 (for the health record, the list and fonts the
/// answer is built elsewhere).
pub open spec fn plain_answer_spec(r: RouteView) -> Option<(u16, Seq<char>)> {
    match r {
        RouteView::Forbidden => Some((403u16, "origin not allowed"@)),
        RouteView::Preflight => Some((204u16, ""@)),
        RouteView::MethodNotAllowed => Some((405u16, "method not allowed"@)),
        RouteView::NotFound => Some((404u16, "not found"@)),
        _ => None,
    }
}

/// The status and `text/plain` body of a fixed answer.
pub fn plain_answer(r: &Route) -> (a: Option<(u16, &'static str)>)
    ensures
        a is Some == plain_answer_spec(r.view()) is Some,
        a matches Some((st, body)) ==> plain_answer_spec(r.view()) == Some((st, body@)),
{
    match r {
        Route::Forbidden => Some((403, "origin not allowed")),
        Route::Preflight => Some((204, "")),
        Route::MethodNotAllowed => Some((405, "method not allowed")),
        Route::NotFound => Some((404, "not found")),
        _ => None,
    }
}

/// The 404 text for an identifier that names no face.
pub fn unknown_font_text() -> (r: &'static str)
    ensures
        r@ == "unknown font id"@,
{
    "unknown font id"
}

/// The 404 text for a face whose file can no longer be read.
pub fn missing_file_text() -> (r: &'static str)
    ensures
        r@ == "font file missing"@,
{
    "font file missing"
}

/// Where the face `face_index` of a collection starts (0 when its offset
/// cannot be read).
pub open spec fn collection_face_offset(b: Seq<u8>, face_index: u32) -> int {
    match be32_at(b, 12 + 4 * face_index) {
        Some(o) => o as int,
        None => 0,
    }
}

/// The bytes and content type served for a face of format `format` read
/// from a file with bytes `b`: a collection face repacked on its own
/// (`font/otf` when it is CFF, else `font/ttf`), or the whole collection
/// as `font/collection` when it cannot be repacked; other files as they
/// are.
pub open spec fn payload_spec(b: Seq<u8>, format: FontFormat, face_index: u32) -> (Seq<u8>, Seq<char>) {
    if format == FontFormat::Ttc {
        let off = collection_face_offset(b, face_index);
        match extract_face_spec(b, off) {
            Some(face) => (
                face,
                if be32_at(b, off) == Some(MAGIC_OTTO) {
                    "font/otf"@
                } else {
                    "font/ttf"@
                },
            ),
            None => (b, "font/collection"@),
        }
    } else if format == FontFormat::Otf {
        (b, "font/otf"@)
    } else {
        (b, "font/ttf"@)
    }
}

/// The bytes and content type served for a face, as `payload_spec` says.
pub fn font_payload(bytes: Vec<u8>, format: FontFormat, face_index: u32) -> (r: (Vec<u8>, &'static str))
    ensures
        (r.0@, r.1@) == payload_spec(bytes@, format, face_index),
{
    if format == FontFormat::Ttc {
        let n = bytes.len();
        let pos: u64 = 12 + 4 * (face_index as u64);
        let off: usize = if pos <= n as u64 {
            match be32(bytes.as_slice(), pos as usize) {
                Some(o) => o as usize,
                None => 0,
            }
        } else {
            0
        };
        assert(off == collection_face_offset(bytes@, face_index));
        let is_cff = match be32(bytes.as_slice(), off) {
            Some(m) => m == MAGIC_OTTO,
            None => false,
        };
        match extract_face(bytes.as_slice(), off) {
            Some(face) => (face, if is_cff {
                "font/otf"
            } else {
                "font/ttf"
            }),
            None => (bytes, "font/collection"),
        }
    } else if format == FontFormat::Otf {
        (bytes, "font/otf")
    } else {
        (bytes, "font/ttf")
    }
}

/// The extra headers of a font answer: the CORS headers, a one-hour
/// private cache, and the face index.
pub open spec fn font_headers_spec(cors: Seq<Seq<char>>, face_index: u32) -> Seq<Seq<char>> {
    cors.push("Cache-Control: private, max-age=3600"@).push(
        "X-Face-Index: "@ + dec_chars(face_index as nat),
    )
}

/// The extra headers of a font answer, as `font_headers_spec` says.
pub fn font_headers(cors: &Vec<String>, face_index: u32) -> (r: Vec<String>)
    ensures
        lines_view(r@) == font_headers_spec(lines_view(cors@), face_index),
{
    let mut v: Vec<String> = Vec::new();
    let mut i: usize = 0;
    while i < cors.len()
        invariant
            i <= cors@.len(),
            v@.len() == i,
            lines_view(v@) == lines_view(cors@).subrange(0, i as int),
        decreases cors@.len() - i,
    {
        let ghost before = v@;
        let c = cors[i].clone();
        v.push(c);
        assert(v@ == before.push(c));
        i = i + 1;
        assert forall|k: int| 0 <= k < i implies #[trigger] lines_view(v@)[k] == lines_view(
            cors@,
        ).subrange(0, i as int)[k] by {
            if k < i - 1 {
                assert(v@[k] == before[k]);
            }
        }
        assert(lines_view(v@) =~= lines_view(cors@).subrange(0, i as int));
    }
    assert(lines_view(cors@).subrange(0, cors@.len() as int) =~= lines_view(cors@));
    let ghost v0 = v@;
    v.push(lit("Cache-Control: private, max-age=3600"));
    let ghost v1 = v@;
    let mut idx = chars_of("X-Face-Index: ");
    push_dec(&mut idx, face_index as u128);
    v.push(string_of(idx.as_slice()));
    assert forall|k: int| 0 <= k < v0.len() implies #[trigger] lines_view(v@)[k] == lines_view(
        v0,
    )[k] by {
        assert(v@[k] == v1[k]);
        assert(v1[k] == v0[k]);
    }
    assert(lines_view(v@) =~= font_headers_spec(lines_view(cors@), face_index));
    v
}

/// How a request is answered, with the CORS headers that go with the
/// answer.
pub struct Decision {
    pub route: Route,
    pub cors: Vec<String>,
}

/// The route for a request with this request line and these header lines.
pub open spec fn decide_route(line: Seq<char>, lines: Seq<Seq<char>>) -> RouteView {
    route_spec(request_method(line), target_path(request_target(line)), request_origin_spec(lines))
}

/// The CORS headers for a request: none for a refused origin or when no
/// origin was sent, else those of `cors_spec`.
pub open spec fn decide_cors(line: Seq<char>, lines: Seq<Seq<char>>) -> Seq<Seq<char>> {
    if decide_route(line, lines) is Forbidden {
        seq![]
    } else {
        cors_spec(request_origin_spec(lines))
    }
}

/// Reads a request (its first line and the header lines after it) and
/// decides how it is answered.
pub fn decide(request_line: &str, header_lines: &Vec<String>) -> (d: Decision)
    ensures
        d.route.view() == decide_route(request_line@, lines_view(header_lines@)),
        lines_view(d.cors@) == decide_cors(request_line@, lines_view(header_lines@)),
{
    let origin = request_origin(header_lines);
    let (method, path) = parse_request_line(request_line);
    let r = match &origin {
        Some(o) => route(method.as_str(), path.as_str(), Some(o.as_str())),
        None => route(method.as_str(), path.as_str(), None),
    };
    let cors = match r {
        Route::Forbidden => {
            let v: Vec<String> = Vec::new();
            assert(lines_view(v@) =~= Seq::<Seq<char>>::empty());
            v
        },
        _ => match &origin {
            Some(o) => cors_headers(Some(o.as_str())),
            None => cors_headers(None),
        },
    };
    Decision { route: r, cors }
}

/// Only resaiz origins are answered: a request whose `Origin` is not
/// allowed is refused with 403 whatever its method and path, and it is
/// sent no CORS header.
pub proof fn lemma_foreign_origin_refused(line: Seq<char>, lines: Seq<Seq<char>>)
    requires
        request_origin_spec(lines) matches Some(o) && !origin_allowed_spec(o),
    ensures
        decide_route(line, lines) == RouteView::Forbidden,
        decide_cors(line, lines).len() == 0,
        plain_answer_spec(decide_route(line, lines)) == Some((403u16, "origin not allowed"@)),
{
}

/// CORS access is granted only to the origin that asked, and only when it
/// is allowed: every answer with CORS headers names an allowed origin.
pub proof fn lemma_cors_only_allowed(line: Seq<char>, lines: Seq<Seq<char>>)
    requires
        decide_cors(line, lines).len() > 0,
    ensures
        request_origin_spec(lines) matches Some(o) && origin_allowed_spec(o)
            && decide_cors(line, lines)[0] == "Access-Control-Allow-Origin: "@ + o,
{
}

proof fn lemma_data_len_sum(b: Seq<u8>, rs: Seq<TableRecord>, k: nat)
    requires
        k <= rs.len(),
        records_in_bounds(b, rs),
    ensures
        data_upto(b, rs, k).len() == rounded_total(rs, k),
    decreases k,
{
    crate::repack::lemma_data_step(b, rs, 0);
    if k > 0 {
        let k1 = (k - 1) as nat;
        lemma_data_len_sum(b, rs, k1);
        crate::repack::lemma_data_step(b, rs, k1);
        let r = rs[k1 as int];
        assert(records_in_bounds(b, rs) ==> r.offset + r.length <= b.len());
        assert(table_bytes(b, r).len() == r.length);
        let l = r.length as nat;
        assert(crate::repack::padded(table_bytes(b, r)).len() == l + crate::repack::pad4(l));
        assert(l + crate::repack::pad4(l) == round4(l));
    }
}

/// The size listed for a collection face is the length of that face
/// repacked on its own (mod 2^64), for every face that reads.
pub proof fn lemma_listed_size_is_repacked(
    b: Seq<u8>,
    off: int,
    path: Seq<char>,
    source: Source,
    file: usize,
    face_index: u32,
)
    requires
        0 <= off,
        face_spec(b, off, path, source, file, face_index, FontFormat::Ttc) is Some,
    ensures
        extract_face_spec(b, off) is Some,
        extract_face_spec(b, off)->0.len() % 0x1_0000_0000_0000_0000 == face_spec(
            b,
            off,
            path,
            source,
            file,
            face_index,
            FontFormat::Ttc,
        )->0.size,
{
    crate::face::lemma_face_size(b, off, path, source, file, face_index, FontFormat::Ttc);
    let rs = table_records_spec(b, off)->0;
    let nt = be16_at(b, off + 4)->0;
    lemma_records_upto_bounds(b, off, record_limit(nt) as nat);
    lemma_find_nonempty(rs, TAG_NAME);
    assert(rs.len() > 0);
    lemma_data_len_sum(b, rs, rs.len());
    let out = extract_face_spec(b, off)->0;
    assert(be16_at(b, off + 4) is Some);
    crate::repack::lemma_dir_prefix(b, rs, 0, rs.len());
    assert(crate::repack::offset_table(b, off, rs.len()).len() == 12);
    assert(out.len() == 12 + 16 * rs.len() + data_upto(b, rs, rs.len()).len());
}

/// The size listed for a collection face is what the browser receives for
/// it: the repacked face served for its index has exactly the listed size
/// (mod 2^64).
pub proof fn lemma_collection_size_served(
    b: Seq<u8>,
    path: Seq<char>,
    source: Source,
    file: usize,
    face_index: u32,
)
    requires
        face_spec(
            b,
            collection_face_offset(b, face_index),
            path,
            source,
            file,
            face_index,
            FontFormat::Ttc,
        ) is Some,
    ensures
        payload_spec(b, FontFormat::Ttc, face_index).0.len() % 0x1_0000_0000_0000_0000 == face_spec(
            b,
            collection_face_offset(b, face_index),
            path,
            source,
            file,
            face_index,
            FontFormat::Ttc,
        )->0.size,
{
    let off = collection_face_offset(b, face_index);
    lemma_listed_size_is_repacked(b, off, path, source, file, face_index);
}

proof fn lemma_find_nonempty(rs: Seq<TableRecord>, tag: u32)
    ensures
        find_table(rs, tag) is Some ==> rs.len() > 0,
{
}

/// Every face read out of a collection is the face that is later served
/// for its index: it was read at the offset that the collection header
/// gives for that index.
pub proof fn lemma_collection_faces_served(
    b: Seq<u8>,
    path: Seq<char>,
    source: Source,
    file: usize,
    k: nat,
)
    requires
        k <= 64,
    ensures
        forall|i: int|
            0 <= i < crate::face::ttc_faces_upto(b, path, source, file, k).len() ==> {
                let e = #[trigger] crate::face::ttc_faces_upto(b, path, source, file, k)[i];
                &&& e.face_index < k
                &&& e.format == FontFormat::Ttc
                &&& face_spec(
                    b,
                    collection_face_offset(b, e.face_index),
                    path,
                    source,
                    file,
                    e.face_index,
                    FontFormat::Ttc,
                ) == Some(e)
            },
    decreases k,
{
    if k > 0 {
        let k1 = (k - 1) as nat;
        lemma_collection_faces_served(b, path, source, file, k1);
        let prev = crate::face::ttc_faces_upto(b, path, source, file, k1);
        let cur = crate::face::ttc_faces_upto(b, path, source, file, k);
        if let Some(off) = be32_at(b, (12 + 4 * k1) as int) {
            let fi = k1 as u32;
            assert(collection_face_offset(b, fi) == off as int);
            if let Some(e) = face_spec(b, off as int, path, source, file, fi, FontFormat::Ttc) {
                crate::face::lemma_face_entry_shape(b, off as int, path, source, file, fi, FontFormat::Ttc);
                assert(cur == prev.push(e));
                assert forall|i: int| 0 <= i < cur.len() implies ({
                    let e = #[trigger] cur[i];
                    &&& e.face_index < k
                    &&& e.format == FontFormat::Ttc
                    &&& face_spec(
                        b,
                        collection_face_offset(b, e.face_index),
                        path,
                        source,
                        file,
                        e.face_index,
                        FontFormat::Ttc,
                    ) == Some(e)
                }) by {
                    if i < prev.len() {
                        assert(cur[i] == prev[i]);
                    }
                }
            }
        }
    }
}

/// A complete answer: status, content type, body and extra headers.
pub struct Answer {
    pub status: u16,
    pub content_type: &'static str,
    pub body: Vec<u8>,
    pub headers: Vec<String>,
}

/// The spec view of an answer.
pub struct AnswerView {
    pub status: u16,
    pub content_type: Seq<char>,
    pub body: Seq<u8>,
    pub headers: Seq<Seq<char>>,
}

impl Answer {
    pub open spec fn view(&self) -> AnswerView {
        AnswerView {
            status: self.status,
            content_type: self.content_type@,
            body: self.body@,
            headers: lines_view(self.headers@),
        }
    }
}

/// The UTF-8 bytes of a text.
pub open spec fn utf8(s: Seq<char>) -> Seq<u8> {
    vstd::utf8::encode_utf8(s)
}

fn text_bytes(s: &str) -> (r: Vec<u8>)
    ensures
        r@ == utf8(s@),
{
    let b = s.as_bytes();
    copy_range(b, 0, b.len())
}

fn copy_lines(v: &Vec<String>) -> (r: Vec<String>)
    ensures
        lines_view(r@) == lines_view(v@),
{
    let mut out: Vec<String> = Vec::new();
    let mut i: usize = 0;
    while i < v.len()
        invariant
            i <= v@.len(),
            out@.len() == i,
            lines_view(out@) == lines_view(v@).subrange(0, i as int),
        decreases v@.len() - i,
    {
        let ghost before = out@;
        let c = v[i].clone();
        out.push(c);
        assert(out@ == before.push(c));
        i = i + 1;
        assert forall|k: int| 0 <= k < i implies #[trigger] lines_view(out@)[k] == lines_view(
            v@,
        ).subrange(0, i as int)[k] by {
            if k < i - 1 {
                assert(out@[k] == before[k]);
            }
        }
        assert(lines_view(out@) =~= lines_view(v@).subrange(0, i as int));
    }
    assert(lines_view(v@).subrange(0, v@.len() as int) =~= lines_view(v@));
    out
}

/// The answer for the routes that carry a fixed text (403, 204, 405,
/// 404): that status, `text/plain`, the text, and the CORS headers.
pub open spec fn fixed_answer_spec(r: RouteView, cors: Seq<Seq<char>>) -> Option<AnswerView> {
    match plain_answer_spec(r) {
        Some((st, text)) => Some(
            AnswerView { status: st, content_type: "text/plain"@, body: utf8(text), headers: cors },
        ),
        None => None,
    }
}

/// The answer for a route with a fixed text, as `fixed_answer_spec` says.
pub fn fixed_answer(r: &Route, cors: &Vec<String>) -> (a: Option<Answer>)
    ensures
        a is Some == fixed_answer_spec(r.view(), lines_view(cors@)) is Some,
        a is Some ==> a->0.view() == fixed_answer_spec(r.view(), lines_view(cors@))->0,
{
    match plain_answer(r) {
        Some((st, text)) => Some(
            Answer {
                status: st,
                content_type: "text/plain",
                body: text_bytes(text),
                headers: copy_lines(cors),
            },
        ),
        None => None,
    }
}

/// The health answer: 200, `application/json`, the health record.
pub fn health_answer(
    version: &str,
    fonts: usize,
    platform: &str,
    port: u16,
    scan_ms: u128,
    cors: &Vec<String>,
) -> (a: Answer)
    ensures
        a.view() == (AnswerView {
            status: 200,
            content_type: "application/json"@,
            body: utf8(
                health_json_spec(version@, fonts as nat, platform@, port as nat, scan_ms as nat),
            ),
            headers: lines_view(cors@),
        }),
{
    let body = health_json(version, fonts, platform, port, scan_ms);
    Answer {
        status: 200,
        content_type: "application/json",
        body: text_bytes(body.as_str()),
        headers: copy_lines(cors),
    }
}

/// The font-list answer: 200, `application/json`, the font list (face `i`
/// with the rendered axes `axes[i]`).
pub fn list_answer(fonts: &Vec<FontEntry>, axes: &Vec<String>, cors: &Vec<String>) -> (a: Answer)
    requires
        axes@.len() == fonts@.len(),
    ensures
        a.view() == (AnswerView {
            status: 200,
            content_type: "application/json"@,
            body: utf8(fonts_json_spec(entries_view(fonts@), strings_view(axes@))),
            headers: lines_view(cors@),
        }),
{
    let body = fonts_json(fonts, axes);
    Answer {
        status: 200,
        content_type: "application/json",
        body: text_bytes(body.as_str()),
        headers: copy_lines(cors),
    }
}

/// The answer for a font request: 404 `unknown font id` when no face has
/// the identifier (`found` is `None`); 404 `font file missing` when its
/// file could not be read (`file` is `None`); else 200 with the payload of
/// `payload_spec`, its content type, and the font headers.
pub open spec fn font_answer_spec(
    found: Option<(FontFormat, u32)>,
    file: Option<Seq<u8>>,
    cors: Seq<Seq<char>>,
) -> AnswerView {
    match found {
        None => AnswerView {
            status: 404,
            content_type: "text/plain"@,
            body: utf8("unknown font id"@),
            headers: cors,
        },
        Some((format, face_index)) => match file {
            None => AnswerView {
                status: 404,
                content_type: "text/plain"@,
                body: utf8("font file missing"@),
                headers: cors,
            },
            Some(b) => AnswerView {
                status: 200,
                content_type: payload_spec(b, format, face_index).1,
                body: payload_spec(b, format, face_index).0,
                headers: font_headers_spec(cors, face_index),
            },
        },
    }
}

/// The answer for a font request, as `font_answer_spec` says.  `found` is
/// the format and face index of the face with the requested identifier,
/// `file` the bytes of its file.
pub fn font_answer(found: Option<(FontFormat, u32)>, file: Option<Vec<u8>>, cors: &Vec<String>) -> (a:
    Answer)
    ensures
        a.view() == font_answer_spec(
            found,
            match file {
                Some(b) => Some(b@),
                None => None,
            },
            lines_view(cors@),
        ),
{
    match found {
        None => Answer {
            status: 404,
            content_type: "text/plain",
            body: text_bytes(unknown_font_text()),
            headers: copy_lines(cors),
        },
        Some((format, face_index)) => match file {
            None => Answer {
                status: 404,
                content_type: "text/plain",
                body: text_bytes(missing_file_text()),
                headers: copy_lines(cors),
            },
            Some(bytes) => {
                let (body, ct) = font_payload(bytes, format, face_index);
                Answer { status: 200, content_type: ct, body, headers: font_headers(cors, face_index) }
            },
        },
    }
}

/// Whether a target with a query string is answered as the same target
/// without it: the path is the text before the first `?`.
proof fn lemma_path_ignores_query(t: Seq<char>, q: Seq<char>)
    requires
        forall|i: int| 0 <= i < t.len() ==> t[i] != '?',
    ensures
        target_path(t + seq!['?'] + q) == t,
        target_path(t) == t,
{
    let u = t + seq!['?'] + q;
    assert forall|i: int| 0 <= i < t.len() implies (not_query_pred())(#[trigger] u[i]) by {
        assert(u[i] == t[i]);
    }
    assert(u[t.len() as int] == '?');
    crate::text::lemma_lead_by(u, not_query_pred(), t.len() as int);
    assert(u.take(t.len() as int) =~= t);
    assert forall|i: int| 0 <= i < t.len() implies (not_query_pred())(#[trigger] t[i]) by {}
    crate::text::lemma_lead_by(t, not_query_pred(), t.len() as int);
    assert(t.take(t.len() as int) =~= t);
}

/// A query string never changes the answer: two requests with the same
/// method and headers whose targets are `t` and `t?q` (with no `?` in `t`)
/// are routed alike and get the same CORS headers.
pub proof fn lemma_query_ignored(
    line1: Seq<char>,
    line2: Seq<char>,
    lines: Seq<Seq<char>>,
    t: Seq<char>,
    q: Seq<char>,
)
    requires
        request_method(line1) == request_method(line2),
        request_target(line1) == t,
        request_target(line2) == t + seq!['?'] + q,
        forall|i: int| 0 <= i < t.len() ==> t[i] != '?',
    ensures
        decide_route(line1, lines) == decide_route(line2, lines),
        decide_cors(line1, lines) == decide_cors(line2, lines),
{
    lemma_path_ignores_query(t, q);
}

} // verus!
