//! The catalog: which scanned files are worth reading, one entry per
//! family/style/weight/italic (the first found wins), the listing order,
//! and finding a face by its identifier.

use vstd::prelude::*;
use crate::axes::{Axis, axes_view};
use crate::face::{FontEntry, FontView, Source, entries_view};
use crate::render::{dec_chars, decimal};
use crate::text::{
    ascii_lower_seq, chars_of, lowercase, lowercase_chars, push_all, to_ascii_lower,
};

verus! {

/// Whether a file with this extension (without the dot; empty when there
/// is none) found under `source` is read: `.ttf`, `.otf` and `.ttc` in any
/// letter case, files without an extension, and anything under Adobe's
/// activation folder (whose files carry odd names).
pub open spec fn candidate_spec(ext: Seq<char>, source: Source) -> bool {
    let e = ascii_lower_seq(ext);
    e == seq!['t', 't', 'f'] || e == seq!['o', 't', 'f'] || e == seq!['t', 't', 'c'] || source
        == Source::Adobe || e.len() == 0
}

/// Whether two character sequences are equal.
pub fn same_chars(a: &[char], b: &[char]) -> (r: bool)
    ensures
        r == (a@ == b@),
{
    if a.len() != b.len() {
        return false;
    }
    let mut i: usize = 0;
    while i < a.len()
        invariant
            a@.len() == b@.len(),
            i <= a@.len(),
            forall|k: int| 0 <= k < i ==> a@[k] == b@[k],
        decreases a@.len() - i,
    {
        if a[i] != b[i] {
            return false;
        }
        i = i + 1;
    }
    assert(a@ =~= b@);
    true
}

/// Whether a scanned file is read, as `candidate_spec` says.
pub fn is_candidate(ext: &str, source: Source) -> (r: bool)
    ensures
        r == candidate_spec(ext@, source),
{
    let e = to_ascii_lower(chars_of(ext).as_slice());
    let ttf: Vec<char> = vec!['t', 't', 'f'];
    let otf: Vec<char> = vec!['o', 't', 'f'];
    let ttc: Vec<char> = vec!['t', 't', 'c'];
    assert(ttf@ =~= seq!['t', 't', 'f']);
    assert(otf@ =~= seq!['o', 't', 'f']);
    assert(ttc@ =~= seq!['t', 't', 'c']);
    same_chars(e.as_slice(), ttf.as_slice()) || same_chars(e.as_slice(), otf.as_slice())
        || same_chars(e.as_slice(), ttc.as_slice()) || source == Source::Adobe || e.len() == 0
}

/// "true" / "false".
pub open spec fn bool_chars(b: bool) -> Seq<char> {
    if b {
        seq!['t', 'r', 'u', 'e']
    } else {
        seq!['f', 'a', 'l', 's', 'e']
    }
}

/// The duplicate key of an entry: lowercased family and style, weight and
/// italic, joined by `|`.
pub open spec fn dup_key(v: FontView) -> Seq<char> {
    lowercase_chars(v.family) + seq!['|'] + lowercase_chars(v.style) + seq!['|'] + dec_chars(
        v.weight as nat,
    ) + seq!['|'] + bool_chars(v.italic)
}

/// Whether no earlier entry has the same duplicate key as entry `i`.
pub open spec fn first_of_key(vs: Seq<FontView>, i: int) -> bool {
    forall|j: int| 0 <= j < i ==> dup_key(#[trigger] vs[j]) != dup_key(vs[i])
}

/// The entries among the first `k` whose key has not been seen before.
pub open spec fn dedup_upto(vs: Seq<FontView>, k: nat) -> Seq<FontView>
    decreases k,
{
    if k == 0 {
        seq![]
    } else if first_of_key(vs, k - 1) {
        dedup_upto(vs, (k - 1) as nat).push(vs[k - 1])
    } else {
        dedup_upto(vs, (k - 1) as nat)
    }
}

/// One entry per duplicate key: the first found.
pub open spec fn dedup_spec(vs: Seq<FontView>) -> Seq<FontView> {
    dedup_upto(vs, vs.len())
}

/// Strict code-point order on character sequences (a proper prefix comes
/// first), the order of `String::cmp`.
pub open spec fn chars_lt(a: Seq<char>, b: Seq<char>) -> bool
    decreases a.len(),
{
    if a.len() == 0 {
        b.len() > 0
    } else if b.len() == 0 {
        false
    } else if a[0] < b[0] {
        true
    } else if a[0] > b[0] {
        false
    } else {
        chars_lt(a.drop_first(), b.drop_first())
    }
}

/// Listing order: lowercased family, then weight, then upright before
/// italic.
pub open spec fn listed_before(a: FontView, b: FontView) -> bool {
    let fa = lowercase_chars(a.family);
    let fb = lowercase_chars(b.family);
    chars_lt(fa, fb) || (fa == fb && (a.weight < b.weight || (a.weight == b.weight && !a.italic
        && b.italic)))
}

/// Whether two entries tie in the listing order.
pub open spec fn listed_tie(a: FontView, b: FontView) -> bool {
    lowercase_chars(a.family) == lowercase_chars(b.family) && a.weight == b.weight && a.italic
        == b.italic
}

/// `p` lists every index of `d` once, in listing order, ties kept in their
/// original order (a stable sort).
pub open spec fn stable_order(d: Seq<FontView>, p: Seq<int>) -> bool {
    &&& p.len() == d.len()
    &&& forall|i: int| 0 <= i < p.len() ==> 0 <= #[trigger] p[i] < d.len()
    &&& forall|i: int, j: int| 0 <= i < j < p.len() ==> #[trigger] p[i] != #[trigger] p[j]
    &&& forall|i: int, j: int|
        0 <= i < j < p.len() ==> listed_before(d[#[trigger] p[i]], d[#[trigger] p[j]]) || (
        listed_tie(d[p[i]], d[p[j]]) && p[i] < p[j])
}

/// `s` is `d` listed in a stable listing order.
pub open spec fn is_listing_of(s: Seq<FontView>, d: Seq<FontView>) -> bool {
    exists|p: Seq<int>| stable_order(d, p) && s == p.map_values(|i: int| d[i])
}

pub proof fn lemma_chars_lt_irrefl(a: Seq<char>)
    ensures
        !chars_lt(a, a),
    decreases a.len(),
{
    if a.len() > 0 {
        lemma_chars_lt_irrefl(a.drop_first());
    }
}

pub proof fn lemma_chars_lt_trans(a: Seq<char>, b: Seq<char>, c: Seq<char>)
    requires
        chars_lt(a, b),
        chars_lt(b, c),
    ensures
        chars_lt(a, c),
    decreases a.len(),
{
    if a.len() > 0 && b.len() > 0 && c.len() > 0 {
        if a[0] == b[0] && b[0] == c[0] {
            lemma_chars_lt_trans(a.drop_first(), b.drop_first(), c.drop_first());
        }
    }
}

pub proof fn lemma_chars_lt_total(a: Seq<char>, b: Seq<char>)
    ensures
        a == b || chars_lt(a, b) || chars_lt(b, a),
        !(chars_lt(a, b) && chars_lt(b, a)),
    decreases a.len(),
{
    if a.len() > 0 && b.len() > 0 {
        lemma_chars_lt_total(a.drop_first(), b.drop_first());
        if a[0] == b[0] {
            if a.drop_first() == b.drop_first() {
                assert forall|k: int| 0 <= k < a.len() implies a[k] == b[k] by {
                    if k > 0 {
                        assert(a[k] == a.drop_first()[k - 1]);
                        assert(b[k] == b.drop_first()[k - 1]);
                    }
                }
                assert(a =~= b);
            }
        }
    } else if a.len() == 0 && b.len() == 0 {
        assert(a =~= b);
    }
}

/// Strict total order on entry positions: listing order, ties by position.
pub open spec fn pos_before(d: Seq<FontView>, i: int, j: int) -> bool {
    listed_before(d[i], d[j]) || (listed_tie(d[i], d[j]) && i < j)
}

pub proof fn lemma_pos_before_trans(d: Seq<FontView>, i: int, j: int, k: int)
    requires
        pos_before(d, i, j),
        pos_before(d, j, k),
    ensures
        pos_before(d, i, k),
{
    let fi = lowercase_chars(d[i].family);
    let fj = lowercase_chars(d[j].family);
    let fk = lowercase_chars(d[k].family);
    lemma_chars_lt_total(fi, fj);
    lemma_chars_lt_total(fj, fk);
    lemma_chars_lt_total(fi, fk);
    if chars_lt(fi, fj) && chars_lt(fj, fk) {
        lemma_chars_lt_trans(fi, fj, fk);
    }
}

pub proof fn lemma_pos_before_total(d: Seq<FontView>, i: int, j: int)
    requires
        i != j,
    ensures
        pos_before(d, i, j) || pos_before(d, j, i),
        !(pos_before(d, i, j) && pos_before(d, j, i)),
{
    let fi = lowercase_chars(d[i].family);
    let fj = lowercase_chars(d[j].family);
    lemma_chars_lt_total(fi, fj);
    lemma_chars_lt_irrefl(fi);
}

/// Whether `a` comes before `b` in code-point order.
pub fn chars_less(a: &[char], b: &[char]) -> (r: bool)
    ensures
        r == chars_lt(a@, b@),
{
    let mut i: usize = 0;
    assert(a@.skip(0) =~= a@);
    assert(b@.skip(0) =~= b@);
    while i < a.len() && i < b.len()
        invariant
            i <= a@.len(),
            i <= b@.len(),
            chars_lt(a@, b@) == chars_lt(a@.skip(i as int), b@.skip(i as int)),
        decreases a@.len() - i,
    {
        let ghost (ra, rb) = (a@.skip(i as int), b@.skip(i as int));
        assert(ra[0] == a@[i as int] && rb[0] == b@[i as int]);
        if a[i] < b[i] {
            return true;
        }
        if a[i] > b[i] {
            return false;
        }
        assert(ra.drop_first() =~= a@.skip(i + 1));
        assert(rb.drop_first() =~= b@.skip(i + 1));
        i = i + 1;
    }
    assert(a@.skip(i as int).len() == 0 || b@.skip(i as int).len() == 0);
    i < b.len()
}

/// `o` is sorted by position order.
pub open spec fn sorted_positions(d: Seq<FontView>, o: Seq<usize>) -> bool {
    forall|a: int, b: int|
        0 <= a < b < o.len() ==> pos_before(d, #[trigger] o[a] as int, #[trigger] o[b] as int)
}

/// `o` lists each of `0..n` exactly once.
pub open spec fn positions_of(o: Seq<usize>, n: int) -> bool {
    &&& o.len() == n
    &&& forall|a: int| 0 <= a < o.len() ==> (#[trigger] o[a]) < n
    &&& forall|a: int, b: int| 0 <= a < b < o.len() ==> #[trigger] o[a] != #[trigger] o[b]
}

/// Whether entry `i` is listed before entry `j`, as `listed_before` says.
fn entry_before(d: &Vec<FontEntry>, fams: &Vec<Vec<char>>, i: usize, j: usize) -> (r: bool)
    requires
        fams@.len() == d@.len(),
        i < d@.len(),
        j < d@.len(),
        forall|k: int| 0 <= k < d@.len() ==> (#[trigger] fams@[k])@ == lowercase_chars(d@[k].family@),
    ensures
        r == listed_before(entries_view(d@)[i as int], entries_view(d@)[j as int]),
{
    let fi = &fams[i];
    let fj = &fams[j];
    assert(fi@ == lowercase_chars(d@[i as int].family@));
    assert(fj@ == lowercase_chars(d@[j as int].family@));
    if chars_less(fi.as_slice(), fj.as_slice()) {
        return true;
    }
    if !same_chars(fi.as_slice(), fj.as_slice()) {
        return false;
    }
    d[i].weight < d[j].weight || (d[i].weight == d[j].weight && !d[i].italic && d[j].italic)
}

/// Positions of `d` in listing order, ties in their original order.
fn listing_order(d: &Vec<FontEntry>, fams: &Vec<Vec<char>>) -> (o: Vec<usize>)
    requires
        fams@.len() == d@.len(),
        forall|k: int| 0 <= k < d@.len() ==> (#[trigger] fams@[k])@ == lowercase_chars(d@[k].family@),
    ensures
        positions_of(o@, d@.len() as int),
        sorted_positions(entries_view(d@), o@),
{
    let ghost dv = entries_view(d@);
    let mut order: Vec<usize> = Vec::new();
    let mut n: usize = 0;
    while n < d.len()
        invariant
            n <= d@.len(),
            dv == entries_view(d@),
            fams@.len() == d@.len(),
            forall|k: int| 0 <= k < d@.len() ==> (#[trigger] fams@[k])@ == lowercase_chars(
                d@[k].family@,
            ),
            positions_of(order@, n as int),
            sorted_positions(dv, order@),
        decreases d@.len() - n,
    {
        let mut pos: usize = 0;
        while pos < n && !entry_before(d, fams, n, order[pos])
            invariant
                pos <= n < d@.len(),
                dv == entries_view(d@),
                fams@.len() == d@.len(),
                forall|k: int| 0 <= k < d@.len() ==> (#[trigger] fams@[k])@ == lowercase_chars(
                    d@[k].family@,
                ),
                positions_of(order@, n as int),
                forall|q: int| 0 <= q < pos ==> !listed_before(dv[n as int], dv[#[trigger] order@[q] as int]),
            decreases n - pos,
        {
            pos = pos + 1;
        }
        let ghost old_o = order@;
        proof {
            assert forall|q: int| 0 <= q < pos implies pos_before(dv, #[trigger] old_o[q] as int, n as int) by {
                lemma_pos_before_total(dv, old_o[q] as int, n as int);
            }
            if pos < n {
                assert(pos_before(dv, n as int, old_o[pos as int] as int));
                assert forall|q: int| pos <= q < n implies pos_before(dv, n as int, #[trigger] old_o[q] as int) by {
                    if q > pos {
                        assert(pos_before(dv, old_o[pos as int] as int, old_o[q] as int));
                        lemma_pos_before_trans(dv, n as int, old_o[pos as int] as int, old_o[q] as int);
                    }
                }
            }
        }
        order.insert(pos, n);
        proof {
            let o = order@;
            assert(o == old_o.insert(pos as int, n));
            assert forall|a: int| 0 <= a < o.len() implies (#[trigger] o[a]) < n + 1 by {
                if a < pos {
                    assert(o[a] == old_o[a]);
                } else if a > pos {
                    assert(o[a] == old_o[a - 1]);
                }
            }
            assert forall|a: int, b: int| 0 <= a < b < o.len() implies #[trigger] o[a] != #[trigger] o[b]
                && pos_before(dv, o[a] as int, o[b] as int) by {
                if a < pos && b < pos {
                    assert(o[a] == old_o[a] && o[b] == old_o[b]);
                } else if a < pos && b == pos {
                    assert(o[a] == old_o[a]);
                } else if a < pos && b > pos {
                    assert(o[a] == old_o[a] && o[b] == old_o[b - 1]);
                } else if a == pos {
                    assert(o[b] == old_o[b - 1]);
                } else {
                    assert(o[a] == old_o[a - 1] && o[b] == old_o[b - 1]);
                }
            }
        }
        n = n + 1;
    }
    order
}

/// A copy of an axis.
pub fn copy_axis(a: &Axis) -> (r: Axis)
    ensures
        r.view() == a.view(),
{
    Axis { tag: a.tag.clone(), min: a.min, def: a.def, max: a.max }
}

/// A copy of an entry.
pub fn copy_entry(e: &FontEntry) -> (r: FontEntry)
    ensures
        r.view() == e.view(),
{
    let mut axes: Vec<Axis> = Vec::new();
    let mut i: usize = 0;
    while i < e.axes.len()
        invariant
            i <= e.axes@.len(),
            axes@.len() == i,
            axes_view(axes@) == axes_view(e.axes@).subrange(0, i as int),
        decreases e.axes@.len() - i,
    {
        let ghost before = axes@;
        let c = copy_axis(&e.axes[i]);
        assert(c.view() == e.axes@[i as int].view());
        axes.push(c);
        assert(axes@ == before.push(c));
        i = i + 1;
        assert forall|k: int| 0 <= k < i implies #[trigger] axes_view(axes@)[k] == axes_view(
            e.axes@,
        ).subrange(0, i as int)[k] by {
            if k < i - 1 {
                assert(axes@[k] == before[k]);
                assert(axes_view(axes@)[k] == axes@[k].view());
                assert(axes_view(before)[k] == before[k].view());
            }
        }
        assert(axes_view(axes@) =~= axes_view(e.axes@).subrange(0, i as int));
    }
    assert(axes_view(axes@) =~= axes_view(e.axes@));
    FontEntry {
        id: e.id.clone(),
        family: e.family.clone(),
        style: e.style.clone(),
        weight: e.weight,
        italic: e.italic,
        postscript: e.postscript.clone(),
        source: e.source,
        format: e.format,
        file: e.file,
        face_index: e.face_index,
        size: e.size,
        axes,
    }
}

/// The duplicate key of an entry, as `dup_key` says.
fn key_of(e: &FontEntry) -> (k: Vec<char>)
    ensures
        k@ == dup_key(e.view()),
{
    let mut k = chars_of(lowercase(e.family.as_str()).as_str());
    k.push('|');
    push_all(&mut k, chars_of(lowercase(e.style.as_str()).as_str()).as_slice());
    k.push('|');
    push_all(&mut k, decimal(e.weight as u128).as_slice());
    k.push('|');
    let b: Vec<char> = if e.italic {
        vec!['t', 'r', 'u', 'e']
    } else {
        vec!['f', 'a', 'l', 's', 'e']
    };
    assert(b@ =~= bool_chars(e.italic));
    push_all(&mut k, b.as_slice());
    assert(k@ =~= dup_key(e.view()));
    k
}

/// One entry per duplicate key, the first found, as `dedup_spec` says.
pub fn dedup_entries(fonts: &Vec<FontEntry>) -> (r: Vec<FontEntry>)
    ensures
        entries_view(r@) == dedup_spec(entries_view(fonts@)),
{
    let ghost fv = entries_view(fonts@);
    let mut keys: Vec<Vec<char>> = Vec::new();
    let mut out: Vec<FontEntry> = Vec::new();
    let mut i: usize = 0;
    while i < fonts.len()
        invariant
            i <= fonts@.len(),
            fv == entries_view(fonts@),
            keys@.len() == i,
            forall|k: int| 0 <= k < i ==> (#[trigger] keys@[k])@ == dup_key(fv[k]),
            entries_view(out@) == dedup_upto(fv, i as nat),
        decreases fonts@.len() - i,
    {
        let key = key_of(&fonts[i]);
        assert(key@ == dup_key(fv[i as int]));
        let mut j: usize = 0;
        let mut seen = false;
        while j < i
            invariant
                j <= i < fonts@.len(),
                keys@.len() == i,
                forall|k: int| 0 <= k < i ==> (#[trigger] keys@[k])@ == dup_key(fv[k]),
                seen == exists|k: int| 0 <= k < j && dup_key(#[trigger] fv[k]) == key@,
            decreases i - j,
        {
            if same_chars(keys[j].as_slice(), key.as_slice()) {
                seen = true;
            }
            assert(keys@[j as int]@ == dup_key(fv[j as int]));
            j = j + 1;
        }
        assert(seen == !first_of_key(fv, i as int));
        let ghost before = out@;
        if !seen {
            out.push(copy_entry(&fonts[i]));
            assert(entries_view(out@) =~= entries_view(before).push(fv[i as int]));
        }
        keys.push(key);
        i = i + 1;
    }
    out
}

/// The catalog as listed: one entry per family, style, weight and italic
/// (the first found wins, so the order of the scanned roots decides),
/// sorted by lowercased family, weight and italic, ties in scan order.
pub fn arrange_catalog(fonts: &Vec<FontEntry>) -> (r: Vec<FontEntry>)
    ensures
        is_listing_of(entries_view(r@), dedup_spec(entries_view(fonts@))),
{
    let d = dedup_entries(fonts);
    let ghost dv = entries_view(d@);
    let mut fams: Vec<Vec<char>> = Vec::new();
    let mut i: usize = 0;
    while i < d.len()
        invariant
            i <= d@.len(),
            fams@.len() == i,
            forall|k: int| 0 <= k < i ==> (#[trigger] fams@[k])@ == lowercase_chars(d@[k].family@),
        decreases d@.len() - i,
    {
        fams.push(chars_of(lowercase(d[i].family.as_str()).as_str()));
        i = i + 1;
    }
    let o = listing_order(&d, &fams);
    let mut r: Vec<FontEntry> = Vec::new();
    let mut k: usize = 0;
    while k < o.len()
        invariant
            k <= o@.len(),
            positions_of(o@, d@.len() as int),
            dv == entries_view(d@),
            r@.len() == k,
            entries_view(r@) == o@.subrange(0, k as int).map_values(|x: usize| dv[x as int]),
        decreases o@.len() - k,
    {
        let ghost before = r@;
        let c = copy_entry(&d[o[k]]);
        assert(c.view() == dv[o@[k as int] as int]);
        r.push(c);
        assert(r@ == before.push(c));
        assert(o@.subrange(0, k + 1) == o@.subrange(0, k as int).push(o@[k as int]));
        k = k + 1;
        assert forall|m: int| 0 <= m < k implies #[trigger] entries_view(r@)[m] == o@.subrange(
            0,
            k as int,
        ).map_values(|x: usize| dv[x as int])[m] by {
            if m < k - 1 {
                assert(entries_view(r@)[m] == entries_view(before)[m]);
            }
        }
        assert(entries_view(r@) =~= o@.subrange(0, k as int).map_values(|x: usize| dv[x as int]));
    }
    proof {
        let p = o@.map_values(|x: usize| x as int);
        assert(stable_order(dv, p)) by {
            assert forall|a: int, b: int| 0 <= a < b < p.len() implies #[trigger] p[a] != #[trigger] p[b]
                && (listed_before(dv[p[a]], dv[p[b]]) || (listed_tie(dv[p[a]], dv[p[b]]) && p[a]
                < p[b])) by {
                assert(pos_before(dv, o@[a] as int, o@[b] as int));
            }
        }
        assert(entries_view(r@) =~= p.map_values(|i: int| dv[i]));
    }
    r
}

/// The position of the face with this identifier: the last entry that
/// has it.
pub open spec fn position_of_id(vs: Seq<FontView>, id: Seq<char>) -> Option<int>
    decreases vs.len(),
{
    if vs.len() == 0 {
        None
    } else if vs.last().id == id {
        Some(vs.len() - 1)
    } else {
        position_of_id(vs.drop_last(), id)
    }
}

/// Finds a face by identifier, as `position_of_id` says.
pub fn find_font(fonts: &Vec<FontEntry>, id: &str) -> (r: Option<usize>)
    ensures
        r is Some == position_of_id(entries_view(fonts@), id@) is Some,
        r is Some ==> r->0 as int == position_of_id(entries_view(fonts@), id@)->0,
{
    let want = chars_of(id);
    let ghost fv = entries_view(fonts@);
    let mut i = fonts.len();
    assert(fv.subrange(0, i as int) =~= fv);
    while i > 0
        invariant
            i <= fonts@.len(),
            fv == entries_view(fonts@),
            want@ == id@,
            position_of_id(fv, id@) == position_of_id(fv.subrange(0, i as int), id@),
        decreases i,
    {
        let ghost pre = fv.subrange(0, i as int);
        assert(pre.drop_last() =~= fv.subrange(0, i - 1));
        assert(pre.last() == fonts@[i - 1].view());
        let got = chars_of(fonts[i - 1].id.as_str());
        if same_chars(got.as_slice(), want.as_slice()) {
            return Some(i - 1);
        }
        i = i - 1;
    }
    None
}

/// The faces a scanned file contributes: none when it is shorter than 12
/// bytes, else its faces.
pub open spec fn faces_in_file_spec(b: Seq<u8>, path: Seq<char>, source: Source, file: usize) -> Seq<
    FontView,
> {
    if b.len() < 12 {
        seq![]
    } else {
        crate::face::file_faces(b, path, source, file)
    }
}

/// The faces a scanned file contributes, as `faces_in_file_spec` says.
pub fn faces_in_file(bytes: &[u8], path: &str, source: Source, file: usize) -> (r: Vec<FontEntry>)
    ensures
        entries_view(r@) == faces_in_file_spec(bytes@, path@, source, file),
{
    if bytes.len() < 12 {
        let v: Vec<FontEntry> = Vec::new();
        assert(entries_view(v@) =~= Seq::<FontView>::empty());
        v
    } else {
        crate::face::parse_file(bytes, path, source, file)
    }
}

proof fn lemma_dedup_upto(vs: Seq<FontView>, k: nat)
    requires
        k <= vs.len(),
    ensures
        forall|i: int, j: int|
            0 <= i < j < dedup_upto(vs, k).len() ==> dup_key(#[trigger] dedup_upto(vs, k)[i])
                != dup_key(#[trigger] dedup_upto(vs, k)[j]),
        forall|m: int|
            0 <= m < k && first_of_key(vs, m) ==> dedup_upto(vs, k).contains(#[trigger] vs[m]),
        forall|i: int|
            0 <= i < dedup_upto(vs, k).len() ==> exists|m: int|
                0 <= m < k && first_of_key(vs, m) && #[trigger] dedup_upto(vs, k)[i] == vs[m],
    decreases k,
{
    if k > 0 {
        let k1 = (k - 1) as nat;
        lemma_dedup_upto(vs, k1);
        let prev = dedup_upto(vs, k1);
        let cur = dedup_upto(vs, k);
        if first_of_key(vs, k - 1) {
            assert(cur == prev.push(vs[k - 1]));
            assert forall|i: int, j: int| 0 <= i < j < cur.len() implies dup_key(#[trigger] cur[i])
                != dup_key(#[trigger] cur[j]) by {
                if j == cur.len() - 1 {
                    let m = choose|m: int| 0 <= m < k1 && first_of_key(vs, m) && prev[i] == vs[m];
                    assert(dup_key(vs[m]) != dup_key(vs[k - 1]));
                } else {
                    assert(cur[i] == prev[i] && cur[j] == prev[j]);
                }
            }
            assert forall|m: int| 0 <= m < k && first_of_key(vs, m) implies cur.contains(
                #[trigger] vs[m],
            ) by {
                if m < k - 1 {
                    let i = choose|i: int| 0 <= i < prev.len() && prev[i] == vs[m];
                    assert(cur[i] == vs[m]);
                } else {
                    assert(cur[cur.len() - 1] == vs[m]);
                }
            }
            assert forall|i: int| 0 <= i < cur.len() implies exists|m: int|
                0 <= m < k && first_of_key(vs, m) && #[trigger] cur[i] == vs[m] by {
                if i < prev.len() {
                    assert(cur[i] == prev[i]);
                } else {
                    assert(cur[i] == vs[k - 1]);
                }
            }
        } else {
            assert(cur == prev);
            assert forall|m: int| 0 <= m < k && first_of_key(vs, m) implies cur.contains(
                #[trigger] vs[m],
            ) by {
                if m == k - 1 {
                    assert(false);
                }
            }
        }
    }
}

/// One entry per family, style, weight and italic, the first found: no two
/// entries of the deduplicated list share a key; every entry that is the
/// first with its key is kept; and every kept entry is the first with its
/// key.
pub proof fn lemma_dedup_first_wins(vs: Seq<FontView>)
    ensures
        forall|i: int, j: int|
            0 <= i < j < dedup_spec(vs).len() ==> dup_key(#[trigger] dedup_spec(vs)[i]) != dup_key(
                #[trigger] dedup_spec(vs)[j],
            ),
        forall|m: int|
            0 <= m < vs.len() && first_of_key(vs, m) ==> dedup_spec(vs).contains(#[trigger] vs[m]),
        forall|i: int|
            0 <= i < dedup_spec(vs).len() ==> exists|m: int|
                0 <= m < vs.len() && first_of_key(vs, m) && #[trigger] dedup_spec(vs)[i] == vs[m],
{
    lemma_dedup_upto(vs, vs.len());
}

/// The listed catalog is the deduplicated scan, reordered: it has the same
/// entries, no key twice, and is in listing order (lowercased family, then
/// weight, then upright before italic).
pub proof fn lemma_catalog_listing(s: Seq<FontView>, vs: Seq<FontView>)
    requires
        is_listing_of(s, dedup_spec(vs)),
    ensures
        s.len() == dedup_spec(vs).len(),
        forall|i: int| 0 <= i < s.len() ==> dedup_spec(vs).contains(#[trigger] s[i]),
        forall|i: int, j: int|
            0 <= i < j < s.len() ==> dup_key(#[trigger] s[i]) != dup_key(#[trigger] s[j]),
        forall|i: int, j: int|
            0 <= i < j < s.len() ==> !listed_before(#[trigger] s[j], #[trigger] s[i]),
{
    let d = dedup_spec(vs);
    lemma_dedup_first_wins(vs);
    let p = choose|p: Seq<int>| stable_order(d, p) && s == p.map_values(|i: int| d[i]);
    assert forall|i: int| 0 <= i < s.len() implies d.contains(#[trigger] s[i]) by {
        assert(s[i] == d[p[i]]);
    }
    assert forall|i: int, j: int| 0 <= i < j < s.len() implies dup_key(#[trigger] s[i]) != dup_key(
        #[trigger] s[j],
    ) by {
        assert(s[i] == d[p[i]] && s[j] == d[p[j]]);
        assert(p[i] != p[j]);
        if p[i] < p[j] {
            assert(dup_key(d[p[i]]) != dup_key(d[p[j]]));
        } else {
            assert(dup_key(d[p[j]]) != dup_key(d[p[i]]));
        }
    }
    assert forall|i: int, j: int| 0 <= i < j < s.len() implies !listed_before(
        #[trigger] s[j],
        #[trigger] s[i],
    ) by {
        assert(s[i] == d[p[i]] && s[j] == d[p[j]]);
        assert(pos_before(d, p[i], p[j]));
        lemma_pos_before_total(d, p[i], p[j]);
    }
}

/// Finding a face by identifier gives an entry with that identifier, and
/// no later entry has it; `None` means no entry has it.
pub proof fn lemma_find_font(vs: Seq<FontView>, id: Seq<char>)
    ensures
        position_of_id(vs, id) matches Some(i) ==> 0 <= i < vs.len() && vs[i].id == id && forall|
            j: int,
        |
            i < j < vs.len() ==> (#[trigger] vs[j]).id != id,
        position_of_id(vs, id) is None ==> forall|j: int|
            0 <= j < vs.len() ==> (#[trigger] vs[j]).id != id,
    decreases vs.len(),
{
    if vs.len() > 0 && vs.last().id != id {
        lemma_find_font(vs.drop_last(), id);
        assert forall|j: int| 0 <= j < vs.len() - 1 implies vs[j] == vs.drop_last()[j] by {}
    }
}

proof fn lemma_first_difference(p: Seq<int>, q: Seq<int>, n: int)
    requires
        0 <= n <= p.len(),
        n <= q.len(),
        exists|i: int| 0 <= i < n && p[i] != q[i],
    ensures
        exists|i: int| 0 <= i < n && p[i] != q[i] && forall|k: int| 0 <= k < i ==> p[k] == q[k],
    decreases n,
{
    if exists|i: int| 0 <= i < n - 1 && p[i] != q[i] {
        lemma_first_difference(p, q, n - 1);
        let i = choose|i: int|
            0 <= i < n - 1 && p[i] != q[i] && forall|k: int| 0 <= k < i ==> p[k] == q[k];
        assert(0 <= i < n);
    } else {
        assert(p[n - 1] != q[n - 1]);
        assert(forall|k: int| 0 <= k < n - 1 ==> p[k] == q[k]);
    }
}

/// An order of `d`'s positions lists every position.
proof fn lemma_order_covers(d: Seq<FontView>, p: Seq<int>, x: int)
    requires
        stable_order(d, p),
        0 <= x < d.len(),
    ensures
        exists|j: int| 0 <= j < p.len() && p[j] == x,
{
    broadcast use vstd::seq_lib::seq_to_set_is_finite;

    assert(p.no_duplicates()) by {
        assert forall|i: int, j: int| 0 <= i < p.len() && 0 <= j < p.len() && i != j implies p[i]
            != p[j] by {
            if i < j {
                assert(p[i] != p[j]);
            } else {
                assert(p[j] != p[i]);
            }
        }
    }
    p.unique_seq_to_set();
    let r = vstd::set_lib::set_int_range(0, d.len() as int);
    vstd::set_lib::lemma_int_range(0, d.len() as int);
    assert(p.to_set().subset_of(r)) by {
        assert forall|v: int| p.to_set().contains(v) implies r.contains(v) by {
            let j = choose|j: int| 0 <= j < p.len() && p[j] == v;
            assert(0 <= p[j] < d.len());
        }
    }
    vstd::set_lib::lemma_subset_equality(p.to_set(), r);
    assert(r.contains(x));
    assert(p.to_set().contains(x));
}

/// The listing order is fully determined: two stable listing orders of the
/// same entries are the same order.
pub proof fn lemma_stable_order_unique(d: Seq<FontView>, p: Seq<int>, q: Seq<int>)
    requires
        stable_order(d, p),
        stable_order(d, q),
    ensures
        p == q,
{
    if p != q {
        assert(exists|i: int| 0 <= i < p.len() && p[i] != q[i]) by {
            if !(exists|i: int| 0 <= i < p.len() && p[i] != q[i]) {
                assert(p =~= q);
            }
        }
        lemma_first_difference(p, q, p.len() as int);
        let i = choose|i: int|
            0 <= i < p.len() && p[i] != q[i] && forall|k: int| 0 <= k < i ==> p[k] == q[k];
        let x = p[i];
        let y = q[i];
        lemma_order_covers(d, p, y);
        lemma_order_covers(d, q, x);
        let j = choose|j: int| 0 <= j < p.len() && p[j] == y;
        let k = choose|k: int| 0 <= k < q.len() && q[k] == x;
        if j < i {
            assert(q[j] == y);
            assert(q[j] != q[i]);
        }
        if k < i {
            assert(p[k] == x);
            assert(p[k] != p[i]);
        }
        assert(j > i && k > i);
        assert(pos_before(d, x, y));
        assert(pos_before(d, y, x));
        lemma_pos_before_total(d, x, y);
    }
}

/// The listed catalog is determined by the scan: any two lists that are
/// listings of the same deduplicated scan are equal, so `arrange_catalog`'s
/// result is the one stable sort of the first-found entries.
pub proof fn lemma_listing_unique(d: Seq<FontView>, s1: Seq<FontView>, s2: Seq<FontView>)
    requires
        is_listing_of(s1, d),
        is_listing_of(s2, d),
    ensures
        s1 == s2,
{
    let p = choose|p: Seq<int>| stable_order(d, p) && s1 == p.map_values(|i: int| d[i]);
    let q = choose|p: Seq<int>| stable_order(d, p) && s2 == p.map_values(|i: int| d[i]);
    lemma_stable_order_unique(d, p, q);
}

/// `a` comes before `b` in code-point order, stated directly: they agree
/// on their first `k` characters, and at position `k` either `a` ends while
/// `b` goes on, or `a` has the smaller character.
pub open spec fn code_point_before(a: Seq<char>, b: Seq<char>) -> bool {
    exists|k: int|
        0 <= k <= a.len() && k <= b.len() && #[trigger] a.take(k) == b.take(k) && ((k == a.len()
            && k < b.len()) || (k < a.len() && k < b.len() && a[k] < b[k]))
}

/// `chars_lt` is code-point order.
pub proof fn lemma_chars_lt_code_points(a: Seq<char>, b: Seq<char>)
    ensures
        chars_lt(a, b) <==> code_point_before(a, b),
    decreases a.len(),
{
    if a.len() == 0 {
        if b.len() > 0 {
            assert(a.take(0) =~= b.take(0));
        }
    } else if b.len() == 0 {
        if code_point_before(a, b) {
            let k = choose|k: int|
                0 <= k <= a.len() && k <= b.len() && #[trigger] a.take(k) == b.take(k) && ((k
                    == a.len() && k < b.len()) || (k < a.len() && k < b.len() && a[k] < b[k]));
            assert(false);
        }
    } else {
        let (a1, b1) = (a.drop_first(), b.drop_first());
        lemma_chars_lt_code_points(a1, b1);
        if a[0] < b[0] {
            assert(a.take(0) =~= b.take(0));
        } else if a[0] > b[0] {
            if code_point_before(a, b) {
                let k = choose|k: int|
                    0 <= k <= a.len() && k <= b.len() && #[trigger] a.take(k) == b.take(k) && ((k
                        == a.len() && k < b.len()) || (k < a.len() && k < b.len() && a[k] < b[k]));
                if k > 0 {
                    assert(a.take(k)[0] == b.take(k)[0]);
                }
                assert(false);
            }
        } else {
            if chars_lt(a1, b1) {
                let k = choose|k: int|
                    0 <= k <= a1.len() && k <= b1.len() && #[trigger] a1.take(k) == b1.take(k) && ((k
                        == a1.len() && k < b1.len()) || (k < a1.len() && k < b1.len() && a1[k]
                        < b1[k]));
                assert(a.take(k + 1) =~= seq![a[0]] + a1.take(k));
                assert(b.take(k + 1) =~= seq![b[0]] + b1.take(k));
                assert(a.take(k + 1) == b.take(k + 1));
                assert(k + 1 < a.len() ==> a[k + 1] == a1[k]);
                assert(k + 1 < b.len() ==> b[k + 1] == b1[k]);
            }
            if code_point_before(a, b) {
                let k = choose|k: int|
                    0 <= k <= a.len() && k <= b.len() && #[trigger] a.take(k) == b.take(k) && ((k
                        == a.len() && k < b.len()) || (k < a.len() && k < b.len() && a[k] < b[k]));
                assert(k > 0);
                assert forall|m: int| 0 <= m < k - 1 implies a1[m] == b1[m] by {
                    assert(a.take(k)[m + 1] == b.take(k)[m + 1]);
                }
                assert(a1.take(k - 1) =~= b1.take(k - 1));
                assert(k < a.len() ==> a[k] == a1[k - 1]);
                assert(k < b.len() ==> b[k] == b1[k - 1]);
                assert(code_point_before(a1, b1));
            }
        }
    }
}

/// Within one lowercased family, a face of lower weight is listed before a
/// face of higher weight, and never after it; a face of another family is
/// listed before or after by the families' code-point order alone.
pub proof fn lemma_listed_before_fields(a: FontView, b: FontView)
    ensures
        (lowercase_chars(a.family) == lowercase_chars(b.family) && a.weight < b.weight) ==> (
        listed_before(a, b) && !listed_before(b, a)),
        (lowercase_chars(a.family) == lowercase_chars(b.family) && a.weight == b.weight && !a.italic
            && b.italic) ==> (listed_before(a, b) && !listed_before(b, a)),
        code_point_before(lowercase_chars(a.family), lowercase_chars(b.family)) ==> (listed_before(
            a,
            b,
        ) && !listed_before(b, a)),
{
    let fa = lowercase_chars(a.family);
    let fb = lowercase_chars(b.family);
    lemma_chars_lt_code_points(fa, fb);
    lemma_chars_lt_total(fa, fb);
    lemma_chars_lt_irrefl(fa);
}

/// The listed catalog is sorted: of any two entries, the earlier one's
/// lowercased family comes first in code-point order; or the families are
/// equal and its weight is lower; or the weights are equal too and it is
/// upright or both are italic.
pub proof fn lemma_listing_sorted(s: Seq<FontView>, vs: Seq<FontView>)
    requires
        is_listing_of(s, dedup_spec(vs)),
    ensures
        forall|i: int, j: int|
            #![trigger s[i], s[j]]
            0 <= i < j < s.len() ==> ({
                let fi = lowercase_chars(s[i].family);
                let fj = lowercase_chars(s[j].family);
                ||| code_point_before(fi, fj)
                ||| fi == fj && s[i].weight < s[j].weight
                ||| fi == fj && s[i].weight == s[j].weight && (s[i].italic ==> s[j].italic)
            }),
{
    lemma_catalog_listing(s, vs);
    assert forall|i: int, j: int| #![trigger s[i], s[j]] 0 <= i < j < s.len() implies ({
        let fi = lowercase_chars(s[i].family);
        let fj = lowercase_chars(s[j].family);
        ||| code_point_before(fi, fj)
        ||| fi == fj && s[i].weight < s[j].weight
        ||| fi == fj && s[i].weight == s[j].weight && (s[i].italic ==> s[j].italic)
    }) by {
        let fi = lowercase_chars(s[i].family);
        let fj = lowercase_chars(s[j].family);
        assert(!listed_before(s[j], s[i]));
        lemma_chars_lt_total(fi, fj);
        lemma_chars_lt_code_points(fi, fj);
    }
}

} // verus!
