//! Character-sequence helpers: conversions between `String` and `Vec<char>`,
//! Unicode whitespace trimming, prefix/suffix/substring tests, decimal and
//! hexadecimal rendering, and the code-point order used to sort names.

use vstd::prelude::*;

verus! {

/// What `str::to_lowercase` returns for a string with these characters.
pub uninterp spec fn lowercase_chars(s: Seq<char>) -> Seq<char>;

/// The characters of a string slice, in order.
pub fn chars_of(s: &str) -> (v: Vec<char>)
    ensures
        v@ == s@,
{
    broadcast use vstd::string::group_string_axioms;

    let mut v: Vec<char> = Vec::new();
    for c in it: s.chars()
        invariant
            v@ == it.seq().take(it.index()),
            it.seq() == s@,
    {
        v.push(c);
        assert(v@ =~= it.seq().take(it.index() + 1));
    }
    assert(v@ =~= s@);
    v
}

/// A `String` made of exactly these characters, by
/// `<String as FromIterator<&char>>::from_iter`.
///
/// Trusted: building a `String` from characters appends each, in order.
#[verifier::external_body]
pub fn string_of(cs: &[char]) -> (s: String)
    ensures
        s@ == cs@,
{
    String::from_iter(cs)
}

/// Whether `u` is a Unicode scalar value (a valid `char`).
pub open spec fn is_scalar(u: u32) -> bool {
    u <= 0x10ffff && !(0xd800 <= u <= 0xdfff)
}

/// The `char` with scalar value `u`, by `char::from_u32`.
///
/// Trusted: `char::from_u32` returns the character with code `u` when `u`
/// is a Unicode scalar value, and `None` otherwise.
#[verifier::external_body]
pub fn char_of(u: u32) -> (c: Option<char>)
    ensures
        c == (if is_scalar(u) {
            Some(u as char)
        } else {
            None
        }),
{
    char::from_u32(u)
}

/// Unicode lowercase of a string, by `str::to_lowercase`.
///
/// Trusted: the result is named `lowercase_chars` of the argument's
/// characters; nothing more about the Unicode case tables is stated.
#[verifier::external_body]
pub fn lowercase(s: &str) -> (r: String)
    ensures
        r@ == lowercase_chars(s@),
{
    s.to_lowercase()
}

/// Unicode `White_Space`, the property behind `char::is_whitespace`.
pub open spec fn is_ws(c: char) -> bool {
    let u = c as u32;
    ||| 0x09 <= u <= 0x0d
    ||| u == 0x20
    ||| u == 0x85
    ||| u == 0xa0
    ||| u == 0x1680
    ||| 0x2000 <= u <= 0x200a
    ||| u == 0x2028
    ||| u == 0x2029
    ||| u == 0x202f
    ||| u == 0x205f
    ||| u == 0x3000
}

/// Executable whitespace test, equal to `is_ws`.
pub fn is_whitespace(c: char) -> (b: bool)
    ensures
        b == is_ws(c),
{
    let u = c as u32;
    (0x09 <= u && u <= 0x0d) || u == 0x20 || u == 0x85 || u == 0xa0 || u == 0x1680 || (0x2000
        <= u && u <= 0x200a) || u == 0x2028 || u == 0x2029 || u == 0x202f || u == 0x205f || u
        == 0x3000
}

/// Number of leading characters of `s` that satisfy `p`.
pub open spec fn lead_by(s: Seq<char>, p: spec_fn(char) -> bool) -> nat
    decreases s.len(),
{
    if s.len() > 0 && p(s[0]) {
        1 + lead_by(s.drop_first(), p)
    } else {
        0
    }
}

/// Number of trailing characters of `s` that satisfy `p`.
pub open spec fn trail_by(s: Seq<char>, p: spec_fn(char) -> bool) -> nat
    decreases s.len(),
{
    if s.len() > 0 && p(s.last()) {
        1 + trail_by(s.drop_last(), p)
    } else {
        0
    }
}

/// `s` without leading and then trailing characters satisfying `p`
/// (`str::trim_matches` with a predicate).
pub open spec fn trim_by(s: Seq<char>, p: spec_fn(char) -> bool) -> Seq<char> {
    let t = s.subrange(lead_by(s, p) as int, s.len() as int);
    t.subrange(0, t.len() - trail_by(t, p))
}

/// The whitespace predicate.
pub open spec fn ws_pred() -> spec_fn(char) -> bool {
    |c: char| is_ws(c)
}

/// The NUL-character predicate.
pub open spec fn nul_pred() -> spec_fn(char) -> bool {
    |c: char| c == '\0'
}

/// `s` without trailing whitespace (`str::trim_end`).
pub open spec fn trim_end_spec(s: Seq<char>) -> Seq<char> {
    s.subrange(0, s.len() - trail_by(s, ws_pred()))
}

/// `s` without leading or trailing whitespace (`str::trim`).
pub open spec fn trim_spec(s: Seq<char>) -> Seq<char> {
    trim_by(s, ws_pred())
}

/// `s` without leading or trailing NUL characters (`trim_matches('\0')`).
pub open spec fn strip_nul_spec(s: Seq<char>) -> Seq<char> {
    trim_by(s, nul_pred())
}

/// If the first `k` characters satisfy `p` and the next does not (or `k`
/// is the length), `k` is the leading count.
pub proof fn lemma_lead_by(s: Seq<char>, p: spec_fn(char) -> bool, k: int)
    requires
        0 <= k <= s.len(),
        forall|i: int| 0 <= i < k ==> p(#[trigger] s[i]),
        k < s.len() ==> !p(s[k]),
    ensures
        lead_by(s, p) == k,
    decreases s.len(),
{
    if k > 0 {
        assert(p(s[0]));
        assert forall|i: int| 0 <= i < k - 1 implies p(#[trigger] s.drop_first()[i]) by {
            assert(s.drop_first()[i] == s[i + 1]);
        }
        if k < s.len() {
            assert(s.drop_first()[k - 1] == s[k]);
        }
        lemma_lead_by(s.drop_first(), p, k - 1);
    } else if s.len() > 0 {
        assert(!p(s[0]));
    }
}

pub proof fn lemma_trail_by(s: Seq<char>, p: spec_fn(char) -> bool, k: int)
    requires
        0 <= k <= s.len(),
        forall|i: int| s.len() - k <= i < s.len() ==> p(#[trigger] s[i]),
        k < s.len() ==> !p(s[s.len() - k - 1]),
    ensures
        trail_by(s, p) == k,
    decreases s.len(),
{
    if k > 0 {
        assert(p(s[s.len() - 1]));
        assert forall|i: int| s.drop_last().len() - (k - 1) <= i < s.drop_last().len() implies p(
            #[trigger] s.drop_last()[i],
        ) by {
            assert(s.drop_last()[i] == s[i]);
        }
        if k < s.len() {
            assert(s.drop_last()[s.drop_last().len() - (k - 1) - 1] == s[s.len() - k - 1]);
        }
        lemma_trail_by(s.drop_last(), p, k - 1);
    } else if s.len() > 0 {
        assert(!p(s.last()));
    }
}

/// The predicate selected by `nul`: NUL characters, or whitespace.
pub open spec fn pred_of(nul: bool) -> spec_fn(char) -> bool {
    if nul {
        nul_pred()
    } else {
        ws_pred()
    }
}

fn test_pred(c: char, nul: bool) -> (b: bool)
    ensures
        b == (pred_of(nul))(c),
{
    if nul {
        c == '\0'
    } else {
        is_whitespace(c)
    }
}

/// Start and end indices of `s` once surrounding whitespace (or, with
/// `nul`, NUL characters) is removed.
pub fn trim_bounds(s: &[char], nul: bool) -> (r: (usize, usize))
    ensures
        r.0 <= r.1 <= s@.len(),
        s@.subrange(r.0 as int, r.1 as int) == trim_by(s@, pred_of(nul)),
{
    let ghost p = pred_of(nul);
    let n = s.len();
    let mut a: usize = 0;
    while a < n && test_pred(s[a], nul)
        invariant
            a <= n == s@.len(),
            p == pred_of(nul),
            forall|i: int| 0 <= i < a ==> p(#[trigger] s@[i]),
        decreases n - a,
    {
        a = a + 1;
    }
    proof {
        lemma_lead_by(s@, p, a as int);
    }
    let ghost t = s@.subrange(a as int, n as int);
    let mut b: usize = n;
    while b > a && test_pred(s[b - 1], nul)
        invariant
            a <= b <= n == s@.len(),
            p == pred_of(nul),
            t == s@.subrange(a as int, n as int),
            forall|i: int| b <= i < n ==> p(#[trigger] s@[i]),
        decreases b - a,
    {
        b = b - 1;
    }
    proof {
        let k = (n - b) as int;
        assert forall|i: int| t.len() - k <= i < t.len() implies p(#[trigger] t[i]) by {
            assert(t[i] == s@[a + i]);
        }
        if k < t.len() {
            assert(t[t.len() - k - 1] == s@[b - 1]);
        }
        lemma_trail_by(t, p, k);
        assert(s@.subrange(a as int, b as int) =~= t.subrange(0, t.len() - k));
    }
    (a, b)
}

/// Index just past the last non-whitespace character: `s[..r]` is
/// `trim_end_spec(s)`.
pub fn trim_end_len(s: &[char]) -> (r: usize)
    ensures
        r <= s@.len(),
        s@.subrange(0, r as int) == trim_end_spec(s@),
{
    let n = s.len();
    let mut b: usize = n;
    while b > 0 && is_whitespace(s[b - 1])
        invariant
            b <= n == s@.len(),
            forall|i: int| b <= i < n ==> (ws_pred())(#[trigger] s@[i]),
        decreases b,
    {
        b = b - 1;
    }
    proof {
        lemma_trail_by(s@, ws_pred(), (n - b) as int);
    }
    b
}

/// `s` with surrounding Unicode whitespace removed (`str::trim`).
pub fn trim(s: &[char]) -> (r: Vec<char>)
    ensures
        r@ == trim_spec(s@),
{
    let (a, b) = trim_bounds(s, false);
    copy_range(s, a, b)
}

/// `s` with surrounding NUL characters removed (`trim_matches('\0')`).
pub fn strip_nul(s: &[char]) -> (r: Vec<char>)
    ensures
        r@ == strip_nul_spec(s@),
{
    let (a, b) = trim_bounds(s, true);
    copy_range(s, a, b)
}

/// `s[a..b]` as a new vector.
pub fn copy_range<T: Copy>(s: &[T], a: usize, b: usize) -> (r: Vec<T>)
    requires
        a <= b <= s@.len(),
    ensures
        r@ == s@.subrange(a as int, b as int),
{
    let mut r: Vec<T> = Vec::new();
    let mut i = a;
    while i < b
        invariant
            a <= i <= b <= s@.len(),
            r@ == s@.subrange(a as int, i as int),
        decreases b - i,
    {
        r.push(s[i]);
        i = i + 1;
        assert(r@ =~= s@.subrange(a as int, i as int));
    }
    r
}

/// Appends every element of `s` to `v`.
pub fn push_all<T: Copy>(v: &mut Vec<T>, s: &[T])
    ensures
        final(v)@ == old(v)@ + s@,
{
    let mut i: usize = 0;
    let ghost v0 = v@;
    while i < s.len()
        invariant
            i <= s@.len(),
            v@ == v0 + s@.subrange(0, i as int),
        decreases s@.len() - i,
    {
        v.push(s[i]);
        i = i + 1;
        assert(v@ =~= v0 + s@.subrange(0, i as int));
    }
    assert(s@.subrange(0, s@.len() as int) =~= s@);
}

/// Whether `p` is a prefix of `s`.
pub open spec fn has_prefix(s: Seq<char>, p: Seq<char>) -> bool {
    p.len() <= s.len() && s.subrange(0, p.len() as int) == p
}

/// Whether `p` is a suffix of `s`.
pub open spec fn has_suffix(s: Seq<char>, p: Seq<char>) -> bool {
    p.len() <= s.len() && s.subrange(s.len() - p.len(), s.len() as int) == p
}

/// Whether `p` occurs in `s` at position `i`.
pub open spec fn occurs_at(s: Seq<char>, p: Seq<char>, i: int) -> bool {
    0 <= i && i + p.len() <= s.len() && s.subrange(i, i + p.len()) == p
}

/// Whether `p` occurs anywhere in `s` (`str::contains`).
pub open spec fn has_infix(s: Seq<char>, p: Seq<char>) -> bool {
    exists|i: int| occurs_at(s, p, i)
}

/// Whether `s[i..i + p.len()] == p`.
pub fn matches_at(s: &[char], p: &[char], i: usize) -> (b: bool)
    ensures
        b == occurs_at(s@, p@, i as int),
{
    if i > s.len() || s.len() - i < p.len() {
        return false;
    }
    let mut k: usize = 0;
    while k < p.len()
        invariant
            i + p@.len() <= s@.len(),
            k <= p@.len(),
            i + k <= s.len(),
            i + p.len() <= s.len(),
            forall|j: int| 0 <= j < k ==> s@[i + j] == p@[j],
        decreases p@.len() - k,
    {
        if s[i + k] != p[k] {
            assert(s@.subrange(i as int, i + p@.len())[k as int] != p@[k as int]);
            return false;
        }
        k = k + 1;
    }
    assert(s@.subrange(i as int, i + p@.len()) =~= p@);
    true
}

/// Whether `s` starts with `p`.
pub fn starts_with(s: &[char], p: &[char]) -> (b: bool)
    ensures
        b == has_prefix(s@, p@),
{
    matches_at(s, p, 0)
}

/// Whether `s` ends with `p`.
pub fn ends_with(s: &[char], p: &[char]) -> (b: bool)
    ensures
        b == has_suffix(s@, p@),
{
    if p.len() > s.len() {
        false
    } else {
        matches_at(s, p, s.len() - p.len())
    }
}

/// Whether `p` occurs in `s`.
pub fn contains(s: &[char], p: &[char]) -> (b: bool)
    ensures
        b == has_infix(s@, p@),
{
    if p.len() > s.len() {
        return false;
    }
    if p.len() == 0 {
        assert(s@.subrange(0, 0) =~= p@);
        assert(occurs_at(s@, p@, 0));
        return true;
    }
    let last = s.len() - p.len();
    let mut i: usize = 0;
    while i <= last
        invariant
            last + p@.len() == s@.len(),
            last + p.len() == s.len(),
            p.len() > 0,
            i <= last + 1,
            forall|j: int| 0 <= j < i ==> !occurs_at(s@, p@, j),
        decreases last + 1 - i,
    {
        if matches_at(s, p, i) {
            return true;
        }
        i = i + 1;
    }
    false
}

/// ASCII-only lowercase mapping of one character (`char::to_ascii_lowercase`).
pub open spec fn ascii_lower(c: char) -> char {
    if 'A' <= c <= 'Z' {
        ((c as u32) + 32) as char
    } else {
        c
    }
}

/// `s` with ASCII letters lowered (`str::to_ascii_lowercase`).
pub open spec fn ascii_lower_seq(s: Seq<char>) -> Seq<char> {
    Seq::new(s.len(), |i: int| ascii_lower(s[i]))
}

/// Lowers the ASCII letters of `s`.
pub fn to_ascii_lower(s: &[char]) -> (r: Vec<char>)
    ensures
        r@ == ascii_lower_seq(s@),
{
    let mut r: Vec<char> = Vec::new();
    let mut i: usize = 0;
    while i < s.len()
        invariant
            i <= s@.len(),
            r@ == ascii_lower_seq(s@.subrange(0, i as int)),
        decreases s@.len() - i,
    {
        let c = s[i];
        let l = if 'A' <= c && c <= 'Z' {
            char_from_u32((c as u32) + 32)
        } else {
            c
        };
        r.push(l);
        i = i + 1;
        assert(r@ =~= ascii_lower_seq(s@.subrange(0, i as int)));
    }
    assert(s@.subrange(0, s@.len() as int) =~= s@);
    r
}

/// The character with code `u`, for an ASCII code.
pub fn char_from_u32(u: u32) -> (c: char)
    requires
        u < 0x80,
    ensures
        c as u32 == u,
{
    let b = u as u8;
    b as char
}

/// Trimming twice is trimming once.
pub proof fn lemma_trim_idempotent(s: Seq<char>)
    ensures
        trim_spec(trim_spec(s)) == trim_spec(s),
{
    let p = ws_pred();
    let a = lead_by(s, p);
    lemma_lead_by_facts(s, p);
    let t = s.subrange(a as int, s.len() as int);
    lemma_trail_by_facts(t, p);
    let b = trail_by(t, p);
    let r = t.subrange(0, t.len() - b);
    assert(trim_spec(s) == r);
    if r.len() > 0 {
        assert(r[0] == s[a as int]);
        assert(r[r.len() - 1] == t[t.len() - b - 1]);
        lemma_lead_by(r, p, 0);
        assert(r.subrange(0, r.len() as int) =~= r);
        lemma_trail_by(r, p, 0);
        assert(r.subrange(0, r.len() - 0) =~= r);
    } else {
        lemma_lead_by(r, p, 0);
        lemma_trail_by(r, p, 0);
        assert(r.subrange(0, 0) =~= r);
    }
}

proof fn lemma_lead_by_facts(s: Seq<char>, p: spec_fn(char) -> bool)
    ensures
        lead_by(s, p) <= s.len(),
        lead_by(s, p) < s.len() ==> !p(s[lead_by(s, p) as int]),
    decreases s.len(),
{
    if s.len() > 0 && p(s[0]) {
        lemma_lead_by_facts(s.drop_first(), p);
        if lead_by(s, p) < s.len() {
            assert(s[lead_by(s, p) as int] == s.drop_first()[lead_by(s.drop_first(), p) as int]);
        }
    }
}

proof fn lemma_trail_by_facts(s: Seq<char>, p: spec_fn(char) -> bool)
    ensures
        trail_by(s, p) <= s.len(),
        trail_by(s, p) < s.len() ==> !p(s[s.len() - trail_by(s, p) - 1]),
    decreases s.len(),
{
    if s.len() > 0 && p(s.last()) {
        lemma_trail_by_facts(s.drop_last(), p);
        if trail_by(s, p) < s.len() {
            assert(s[s.len() - trail_by(s, p) - 1] == s.drop_last()[s.drop_last().len()
                - trail_by(s.drop_last(), p) - 1]);
        }
    }
}

} // verus!
