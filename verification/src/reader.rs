//! Reading an EPUB archive into a book.
use vstd::prelude::*;
use crate::text;
use crate::text::{chars_of, index_of_from_exec, push_char, push_str, string_of};
use crate::metadata::MetadataMap;
use crate::model::{BookItemView, BookView, EpubBook, EpubItem, book_item_view, book_view, copy_opt_string, share};
use crate::archive::{MAX_ENTRY_SIZE, entry_content, entry_read, zip_check, zip_read, zip_size};
use crate::errors::{EpubError, xml_error_text};
use crate::item_type::{ItemType, item_type_of};
use crate::manifest::{ManifestItem, ManifestView, id_index, item_index, manifest_of, manifest_view, parse_manifest};
use crate::metadata::{metadata_of, parse_metadata};
use crate::refines::merge_refines;
pub use crate::refines::merge_refines_into_dc;
use crate::ncx::{TocEntry, TocView, ncx_toc_of, parse_ncx, toc_list_view};
use crate::nav::{nav_toc_of, parse_nav};
use crate::spine::{parse_spine, spine_of};
use crate::container::{parse_container, rootfile_from};
use crate::xml::{XmlDoc, NodeView, attr, child_element, children, opt_str, parse_xml, xml_parse};
use crate::writer::push_decimal;
use std::sync::Arc;
use crate::text::{text_of_bytes, utf8_lossy};

verus! {

/// The `/`-separated segments of `s` from index `i` on.
pub open spec fn segments_from(s: Seq<char>, i: int) -> Seq<Seq<char>>
    decreases s.len() + 1 - i,
{
    if i < 0 || i > s.len() {
        Seq::empty()
    } else {
        match text::index_of_from(s, '/', i) {
            Some(j) => {
                proof {
                    crate::markdown::lemma_index_of_bounds(s, '/', i);
                }
                seq![s.subrange(i, j)] + segments_from(s, j + 1)
            },
            None => seq![s.subrange(i, s.len() as int)],
        }
    }
}

/// The non-empty segments of a directory path, in order.
pub open spec fn base_parts(segs: Seq<Seq<char>>) -> Seq<Seq<char>>
    decreases segs.len(),
{
    if segs.len() == 0 {
        Seq::empty()
    } else {
        base_parts(segs.drop_last()) + if segs.last().len() == 0 {
            Seq::<Seq<char>>::empty()
        } else {
            seq![segs.last()]
        }
    }
}

/// `parts` after walking the segments of an href: empty and `.` segments
/// stay, `..` goes up one level (nothing at the top), others go down.
pub open spec fn walk(parts: Seq<Seq<char>>, segs: Seq<Seq<char>>) -> Seq<Seq<char>>
    decreases segs.len(),
{
    if segs.len() == 0 {
        parts
    } else {
        let p = walk(parts, segs.drop_last());
        let seg = segs.last();
        if seg.len() == 0 || seg == "."@ {
            p
        } else if seg == ".."@ {
            if p.len() > 0 {
                p.drop_last()
            } else {
                p
            }
        } else {
            p.push(seg)
        }
    }
}

/// The parts joined by `/`.
pub open spec fn join_parts(parts: Seq<Seq<char>>) -> Seq<char>
    decreases parts.len(),
{
    if parts.len() == 0 {
        Seq::empty()
    } else if parts.len() == 1 {
        parts[0]
    } else {
        join_parts(parts.drop_last()) + "/"@ + parts.last()
    }
}

/// `href` resolved against the directory `base`, with `.` and `..` segments
/// and empty segments taken out.
pub open spec fn resolve_relative_spec(base: Seq<char>, href: Seq<char>) -> Seq<char> {
    join_parts(walk(base_parts(segments_from(base, 0)), segments_from(href, 0)))
}

/// A path segment that a resolved path keeps: not empty, `.` or `..`.
pub open spec fn clean_part(p: Seq<char>) -> bool {
    p.len() > 0 && p != "."@ && p != ".."@
}

/// The parts of `href` resolved against the directory `base`.
pub open spec fn resolved_parts(base: Seq<char>, href: Seq<char>) -> Seq<Seq<char>> {
    walk(base_parts(segments_from(base, 0)), segments_from(href, 0))
}

proof fn lemma_base_parts_nonempty(segs: Seq<Seq<char>>)
    ensures
        forall|k: int| 0 <= k < base_parts(segs).len() ==> (#[trigger] base_parts(segs)[k]).len() > 0,
    decreases segs.len(),
{
    if segs.len() > 0 {
        lemma_base_parts_nonempty(segs.drop_last());
        let a = base_parts(segs.drop_last());
        let b = base_parts(segs);
        assert forall|k: int| 0 <= k < b.len() implies (#[trigger] b[k]).len() > 0 by {
            if k < a.len() {
                assert(b[k] == a[k]);
            }
        }
    }
}

proof fn lemma_walk_clean(parts: Seq<Seq<char>>, segs: Seq<Seq<char>>)
    requires
        forall|k: int| 0 <= k < parts.len() ==> clean_part(#[trigger] parts[k]),
    ensures
        forall|k: int| 0 <= k < walk(parts, segs).len() ==> clean_part(#[trigger] walk(parts, segs)[k]),
    decreases segs.len(),
{
    if segs.len() > 0 {
        lemma_walk_clean(parts, segs.drop_last());
        let p = walk(parts, segs.drop_last());
        let w = walk(parts, segs);
        assert forall|k: int| 0 <= k < w.len() implies clean_part(#[trigger] w[k]) by {
            if k < p.len() {
                assert(w[k] == p[k]);
            }
        }
    }
}

/// A resolved path is its parts joined by `/`, and none of the parts is
/// empty, `.` or `..`, when the base directory names no `.` or `..`
/// directory.
pub proof fn lemma_resolved_parts_clean(base: Seq<char>, href: Seq<char>)
    requires
        forall|k: int|
            0 <= k < base_parts(segments_from(base, 0)).len() ==> #[trigger] base_parts(
                segments_from(base, 0),
            )[k] != "."@ && base_parts(segments_from(base, 0))[k] != ".."@,
    ensures
        resolve_relative_spec(base, href) == join_parts(resolved_parts(base, href)),
        forall|k: int|
            0 <= k < resolved_parts(base, href).len() ==> clean_part(
                #[trigger] resolved_parts(base, href)[k],
            ),
{
    let bp = base_parts(segments_from(base, 0));
    lemma_base_parts_nonempty(segments_from(base, 0));
    assert forall|k: int| 0 <= k < bp.len() implies clean_part(#[trigger] bp[k]) by {}
    lemma_walk_clean(bp, segments_from(href, 0));
}

/// `p` holds no `/`.
pub open spec fn no_slash(p: Seq<char>) -> bool {
    forall|k: int| 0 <= k < p.len() ==> p[k] != '/'
}

proof fn lemma_index_of_none(s: Seq<char>, c: char, i: int)
    requires
        0 <= i,
        forall|k: int| i <= k < s.len() ==> s[k] != c,
    ensures
        text::index_of_from(s, c, i) is None,
    decreases s.len() - i,
{
    if i < s.len() {
        lemma_index_of_none(s, c, i + 1);
    }
}

proof fn lemma_index_of_first_slash(s: Seq<char>, i: int)
    requires
        0 <= i,
    ensures
        match text::index_of_from(s, '/', i) {
            Some(j) => i <= j < s.len() && s[j] == '/' && forall|k: int| i <= k < j ==> s[k] != '/',
            None => forall|k: int| i <= k < s.len() ==> s[k] != '/',
        },
    decreases s.len() - i,
{
    if i < s.len() && s[i] != '/' {
        lemma_index_of_first_slash(s, i + 1);
    }
}

/// The segments of a path hold no `/`.
proof fn lemma_segments_no_slash(s: Seq<char>, i: int)
    ensures
        forall|k: int| 0 <= k < segments_from(s, i).len() ==> no_slash(#[trigger] segments_from(s, i)[k]),
    decreases s.len() + 1 - i,
{
    if 0 <= i <= s.len() {
        lemma_index_of_first_slash(s, i);
        match text::index_of_from(s, '/', i) {
            Some(j) => {
                lemma_segments_no_slash(s, j + 1);
                let a = seq![s.subrange(i, j)];
                let b = segments_from(s, j + 1);
                assert forall|k: int| 0 <= k < (a + b).len() implies no_slash(#[trigger] (a + b)[k]) by {
                    if k >= 1 {
                        assert((a + b)[k] == b[k - 1]);
                    }
                }
            },
            None => {},
        }
    }
}

/// Splitting `x/t`, for a `t` without `/`, gives the segments of `x` and
/// then `t`.
proof fn lemma_segments_append(x: Seq<char>, t: Seq<char>, i: int)
    requires
        0 <= i <= x.len(),
        no_slash(t),
    ensures
        segments_from(x + "/"@ + t, i) == segments_from(x, i).push(t),
    decreases x.len() - i,
{
    let xt = x + "/"@ + t;
    assert("/"@.len() == 1 && "/"@[0] == '/') by {
        reveal_strlit("/");
    }
    assert(xt.len() == x.len() + 1 + t.len());
    assert forall|k: int| 0 <= k < x.len() implies xt[k] == x[k] by {}
    assert(xt[x.len() as int] == '/');
    lemma_index_of_first_slash(x, i);
    lemma_index_of_first_slash(xt, i);
    match text::index_of_from(x, '/', i) {
        Some(j) => {
            assert(text::index_of_from(xt, '/', i) == Some(j)) by {
                match text::index_of_from(xt, '/', i) {
                    Some(j2) => {
                        if j2 < j {
                            assert(xt[j2] == x[j2]);
                        } else if j2 > j {
                            assert(xt[j] == x[j]);
                        }
                    },
                    None => {
                        assert(xt[j] == x[j]);
                    },
                }
            }
            lemma_segments_append(x, t, j + 1);
            assert(xt.subrange(i, j) =~= x.subrange(i, j));
            assert(segments_from(xt, i) == seq![xt.subrange(i, j)] + segments_from(xt, j + 1));
            assert(segments_from(x, i) == seq![x.subrange(i, j)] + segments_from(x, j + 1));
            assert(segments_from(xt, i) =~= segments_from(x, i).push(t));
        },
        None => {
            let n = x.len() as int;
            assert(text::index_of_from(xt, '/', i) == Some(n)) by {
                match text::index_of_from(xt, '/', i) {
                    Some(j2) => {
                        if j2 < n {
                            assert(xt[j2] == x[j2]);
                        }
                    },
                    None => {},
                }
            }
            assert forall|k: int| n + 1 <= k < xt.len() implies xt[k] != '/' by {
                assert(xt[k] == t[k - n - 1]);
            }
            lemma_index_of_none(xt, '/', n + 1);
            assert(xt.subrange(n + 1, xt.len() as int) =~= t);
            assert(xt.subrange(i, n) =~= x.subrange(i, n));
            assert(segments_from(xt, n + 1) == seq![xt.subrange(n + 1, xt.len() as int)]);
            assert(segments_from(xt, i) =~= segments_from(x, i).push(t));
        },
    }
}

/// Splitting parts without `/` joined by `/` gives the parts back.
proof fn lemma_segments_of_join(ps: Seq<Seq<char>>)
    requires
        ps.len() > 0,
        forall|k: int| 0 <= k < ps.len() ==> no_slash(#[trigger] ps[k]),
    ensures
        segments_from(join_parts(ps), 0) == ps,
    decreases ps.len(),
{
    if ps.len() == 1 {
        let p = ps[0];
        assert(no_slash(ps[0]));
        lemma_index_of_none(p, '/', 0);
        assert(p.subrange(0, p.len() as int) =~= p);
        assert(segments_from(p, 0) =~= ps);
    } else {
        let d = ps.drop_last();
        assert forall|k: int| 0 <= k < d.len() implies no_slash(#[trigger] d[k]) by {
            assert(d[k] == ps[k]);
        }
        lemma_segments_of_join(d);
        assert(no_slash(ps[ps.len() - 1]));
        lemma_segments_append(join_parts(d), ps.last(), 0);
        assert(ps =~= d.push(ps.last()));
    }
}

/// Walking clean segments from the top gives them back.
proof fn lemma_walk_clean_parts(ps: Seq<Seq<char>>)
    requires
        forall|k: int| 0 <= k < ps.len() ==> clean_part(#[trigger] ps[k]),
    ensures
        walk(Seq::empty(), ps) == ps,
    decreases ps.len(),
{
    if ps.len() > 0 {
        let d = ps.drop_last();
        assert forall|k: int| 0 <= k < d.len() implies clean_part(#[trigger] d[k]) by {
            assert(d[k] == ps[k]);
        }
        lemma_walk_clean_parts(d);
        assert(clean_part(ps[ps.len() - 1]));
        assert(ps =~= d.push(ps.last()));
    }
}

proof fn lemma_base_parts_no_slash(segs: Seq<Seq<char>>)
    requires
        forall|k: int| 0 <= k < segs.len() ==> no_slash(#[trigger] segs[k]),
    ensures
        forall|k: int| 0 <= k < base_parts(segs).len() ==> no_slash(#[trigger] base_parts(segs)[k]),
    decreases segs.len(),
{
    if segs.len() > 0 {
        let d = segs.drop_last();
        assert forall|k: int| 0 <= k < d.len() implies no_slash(#[trigger] d[k]) by {
            assert(d[k] == segs[k]);
        }
        lemma_base_parts_no_slash(d);
        let a = base_parts(d);
        let b = base_parts(segs);
        assert(no_slash(segs[segs.len() - 1]));
        assert forall|k: int| 0 <= k < b.len() implies no_slash(#[trigger] b[k]) by {
            if k < a.len() {
                assert(b[k] == a[k]);
            }
        }
    }
}

proof fn lemma_walk_no_slash(parts: Seq<Seq<char>>, segs: Seq<Seq<char>>)
    requires
        forall|k: int| 0 <= k < parts.len() ==> no_slash(#[trigger] parts[k]),
        forall|k: int| 0 <= k < segs.len() ==> no_slash(#[trigger] segs[k]),
    ensures
        forall|k: int| 0 <= k < walk(parts, segs).len() ==> no_slash(#[trigger] walk(parts, segs)[k]),
    decreases segs.len(),
{
    if segs.len() > 0 {
        let d = segs.drop_last();
        assert forall|k: int| 0 <= k < d.len() implies no_slash(#[trigger] d[k]) by {
            assert(d[k] == segs[k]);
        }
        lemma_walk_no_slash(parts, d);
        let p = walk(parts, d);
        let w = walk(parts, segs);
        assert(no_slash(segs[segs.len() - 1]));
        assert forall|k: int| 0 <= k < w.len() implies no_slash(#[trigger] w[k]) by {
            if k < p.len() {
                assert(w[k] == p[k]);
            }
        }
    }
}

/// Resolving an already resolved path against the empty base gives it
/// back, when the base it was resolved against names no `.` or `..`
/// directory.
pub proof fn lemma_resolve_idempotent(base: Seq<char>, href: Seq<char>)
    requires
        forall|k: int|
            0 <= k < base_parts(segments_from(base, 0)).len() ==> #[trigger] base_parts(
                segments_from(base, 0),
            )[k] != "."@ && base_parts(segments_from(base, 0))[k] != ".."@,
    ensures
        resolve_relative_spec(""@, resolve_relative_spec(base, href)) == resolve_relative_spec(base, href),
{
    lemma_resolved_parts_clean(base, href);
    let ps = resolved_parts(base, href);
    let r = join_parts(ps);
    lemma_segments_no_slash(base, 0);
    lemma_segments_no_slash(href, 0);
    lemma_base_parts_no_slash(segments_from(base, 0));
    lemma_walk_no_slash(base_parts(segments_from(base, 0)), segments_from(href, 0));
    assert(""@.len() == 0) by {
        reveal_strlit("");
    }
    let e: Seq<char> = ""@;
    assert(text::index_of_from(e, '/', 0) is None);
    assert(e.subrange(0, 0) =~= e);
    assert(segments_from(e, 0) =~= seq![e]);
    assert(base_parts(seq![e]) =~= Seq::<Seq<char>>::empty()) by {
        assert(seq![e].drop_last() =~= Seq::<Seq<char>>::empty());
        assert(base_parts(Seq::<Seq<char>>::empty()) =~= Seq::<Seq<char>>::empty());
        assert(seq![e].last().len() == 0);
    }
    if ps.len() > 0 {
        lemma_segments_of_join(ps);
        lemma_walk_clean_parts(ps);
    } else {
        assert(r =~= e);
        assert(walk(Seq::<Seq<char>>::empty(), seq![e]) =~= Seq::<Seq<char>>::empty()) by {
            assert(seq![e].drop_last() =~= Seq::<Seq<char>>::empty());
            assert(seq![e].last() == e);
            assert(walk(Seq::<Seq<char>>::empty(), Seq::<Seq<char>>::empty()) =~= Seq::<Seq<char>>::empty());
            assert(e.len() == 0);
        }
    }
}

/// The segments of `s`, from index `i` on, as index ranges.
fn segment_bounds(s: &Vec<char>) -> (res: Vec<(usize, usize)>)
    ensures
        res@.len() == segments_from(s@, 0).len(),
        forall|k: int| 0 <= k < res@.len() ==> (#[trigger] res@[k]).0 <= res@[k].1 <= s@.len(),
        forall|k: int|
            0 <= k < res@.len() ==> #[trigger] segments_from(s@, 0)[k] == s@.subrange(
                res@[k].0 as int,
                res@[k].1 as int,
            ),
{
    let n = s.len();
    let mut out: Vec<(usize, usize)> = Vec::new();
    let mut i: usize = 0;
    loop
        invariant
            i <= n,
            n == s@.len(),
            segments_from(s@, 0) == out@.map_values(|b: (usize, usize)| s@.subrange(b.0 as int, b.1 as int)) + segments_from(s@, i as int),
            forall|k: int| 0 <= k < out@.len() ==> #[trigger] out@[k].0 <= out@[k].1 <= s@.len(),
        decreases n + 1 - i,
    {
        proof {
            crate::markdown::lemma_index_of_bounds(s@, '/', i as int);
        }
        let ghost before = out@;
        match index_of_from_exec(s.as_slice(), '/', i) {
            Some(j) => {
                out.push((i, j));
                proof {
                    assert(out@.map_values(|b: (usize, usize)| s@.subrange(b.0 as int, b.1 as int)) =~= before.map_values(|b: (usize, usize)| s@.subrange(b.0 as int, b.1 as int)).push(s@.subrange(i as int, j as int)));
                }
                i = j + 1;
            },
            None => {
                out.push((i, n));
                proof {
                    assert(out@.map_values(|b: (usize, usize)| s@.subrange(b.0 as int, b.1 as int)) =~= before.map_values(|b: (usize, usize)| s@.subrange(b.0 as int, b.1 as int)).push(s@.subrange(i as int, n as int)));
                    assert(segments_from(s@, 0) =~= out@.map_values(|b: (usize, usize)| s@.subrange(b.0 as int, b.1 as int)));
                }
                return out;
            },
        }
    }
}

/// The characters of `s[a..b]`.
fn slice_chars(s: &[char], a: usize, b: usize) -> (res: Vec<char>)
    requires
        a <= b <= s@.len(),
    ensures
        res@ == s@.subrange(a as int, b as int),
{
    let mut v: Vec<char> = Vec::new();
    let mut k = a;
    while k < b
        invariant
            a <= k <= b <= s@.len(),
            v@ == s@.subrange(a as int, k as int),
        decreases b - k,
    {
        v.push(s[k]);
        k += 1;
    }
    v
}

/// Whether the characters spell the ASCII text `t`.
fn chars_are(v: &[char], t: &str) -> (res: bool)
    ensures
        res == (v@ == t@),
{
    let tc = chars_of(t);
    if v.len() != tc.len() {
        return false;
    }
    let r = text::matches_at_exec(v, 0, tc.as_slice());
    proof {
        assert(v@.subrange(0, tc@.len() as int) =~= v@);
    }
    r
}

/// Resolve `href` against the directory `base` (e.g. "EPUB/"), normalizing
/// `..` and `.` segments. Returns a clean POSIX zip path.
///
/// Examples:
///   resolve_relative("EPUB/", "ch1.xhtml")            -> "EPUB/ch1.xhtml"
///   resolve_relative("EPUB/", "../media/img.jpg")     -> "media/img.jpg"
///   resolve_relative("EPUB/sub/", "../style.css")     -> "EPUB/style.css"
///   resolve_relative("", "OPS/content.opf")           -> "OPS/content.opf"
pub fn resolve_relative(base: &str, href: &str) -> (res: String)
    ensures
        res@ == resolve_relative_spec(base@, href@),
{
    let b = chars_of(base);
    let h = chars_of(href);
    let bb = segment_bounds(&b);
    let hb = segment_bounds(&h);
    let ghost bsegs = segments_from(b@, 0);
    let ghost hsegs = segments_from(h@, 0);
    let mut parts: Vec<Vec<char>> = Vec::new();
    let mut k: usize = 0;
    while k < bb.len()
        invariant
            k <= bb@.len(),
            bb@.len() == bsegs.len(),
            bsegs == segments_from(b@, 0),
            forall|q: int| 0 <= q < bb@.len() ==> (#[trigger] bb@[q]).0 <= bb@[q].1 <= b@.len(),
            forall|q: int| 0 <= q < bb@.len() ==> #[trigger] segments_from(b@, 0)[q] == b@.subrange(bb@[q].0 as int, bb@[q].1 as int),
            parts@.map_values(|p: Vec<char>| p@) == base_parts(bsegs.take(k as int)),
        decreases bb@.len() - k,
    {
        proof {
            assert(bsegs.take(k + 1).drop_last() == bsegs.take(k as int));
            assert(bsegs.take(k + 1).last() == bsegs[k as int]);
        }
        let (x, y) = bb[k];
        let ghost before = parts@;
        if x < y {
            parts.push(slice_chars(b.as_slice(), x, y));
            proof {
                assert(parts@.map_values(|p: Vec<char>| p@) =~= before.map_values(|p: Vec<char>| p@).push(bsegs[k as int]));
            }
        }
        k += 1;
    }
    proof {
        assert(bsegs.take(bb@.len() as int) == bsegs);
    }
    let ghost start = parts@.map_values(|p: Vec<char>| p@);
    let mut k: usize = 0;
    while k < hb.len()
        invariant
            k <= hb@.len(),
            hb@.len() == hsegs.len(),
            hsegs == segments_from(h@, 0),
            forall|q: int| 0 <= q < hb@.len() ==> (#[trigger] hb@[q]).0 <= hb@[q].1 <= h@.len(),
            forall|q: int| 0 <= q < hb@.len() ==> #[trigger] segments_from(h@, 0)[q] == h@.subrange(hb@[q].0 as int, hb@[q].1 as int),
            parts@.map_values(|p: Vec<char>| p@) == walk(start, hsegs.take(k as int)),
        decreases hb@.len() - k,
    {
        proof {
            assert(hsegs.take(k + 1).drop_last() == hsegs.take(k as int));
            assert(hsegs.take(k + 1).last() == hsegs[k as int]);
        }
        let (x, y) = hb[k];
        let seg = slice_chars(h.as_slice(), x, y);
        let ghost before = parts@;
        if seg.len() == 0 || chars_are(seg.as_slice(), ".") {
        } else if chars_are(seg.as_slice(), "..") {
            if parts.len() > 0 {
                parts.pop();
                proof {
                    assert(parts@.map_values(|p: Vec<char>| p@) =~= before.map_values(|p: Vec<char>| p@).drop_last());
                }
            }
        } else {
            parts.push(seg);
            proof {
                assert(parts@.map_values(|p: Vec<char>| p@) =~= before.map_values(|p: Vec<char>| p@).push(hsegs[k as int]));
            }
        }
        k += 1;
    }
    proof {
        assert(hsegs.take(hb@.len() as int) == hsegs);
    }
    let ghost pv = parts@.map_values(|p: Vec<char>| p@);
    let mut out: Vec<char> = Vec::new();
    let mut k: usize = 0;
    while k < parts.len()
        invariant
            k <= parts@.len(),
            pv == parts@.map_values(|p: Vec<char>| p@),
            out@ == join_parts(pv.take(k as int)),
        decreases parts@.len() - k,
    {
        proof {
            assert(pv.take(k + 1).drop_last() == pv.take(k as int));
        }
        let ghost before = out@;
        if k > 0 {
            out.push('/');
        }
        let p = &parts[k];
        let mut q: usize = 0;
        let ghost mid = out@;
        while q < p.len()
            invariant
                q <= p@.len(),
                out@ == mid + p@.take(q as int),
            decreases p@.len() - q,
        {
            out.push(p[q]);
            proof {
                assert(p@.take(q + 1) == p@.take(q as int).push(p@[q as int]));
            }
            q += 1;
        }
        proof {
            assert(p@.take(p@.len() as int) == p@);
            if k > 0 {
                assert(mid == before + "/"@) by {
                    reveal_strlit("/");
                }
            } else {
                assert(pv.take(1)[0] == p@);
            }
        }
        k += 1;
    }
    proof {
        assert(pv.take(parts@.len() as int) == pv);
    }
    string_of(out.as_slice())
}

// ---------------------------------------------------------------------------
// Reading
// ---------------------------------------------------------------------------

/// Options for reading an EPUB.
pub struct ReadOptions {
    pub ignore_ncx: bool,
    pub ignore_nav: bool,
    pub lazy: bool,
}

impl Default for ReadOptions {
    fn default() -> (res: Self)
        ensures
            !res.ignore_ncx && !res.ignore_nav && !res.lazy,
    {
        ReadOptions { ignore_ncx: false, ignore_nav: false, lazy: false }
    }
}

/// Read a file from the ZIP archive by name.
pub fn read_zip_entry(data: &[u8], name: &str) -> (res: Result<Vec<u8>, EpubError>)
    ensures
        match entry_read(data@, name@) {
            Some(b) => res matches Ok(v) && v@ == b,
            None => res is Err,
        },
        res matches Err(e) ==> (e is Zip || e is WriteError || e is Io),
        crate::archive::zip_entry_size(data@, name@) is None ==> (res matches Err(e) && e is Zip),
        crate::archive::zip_entry_size(data@, name@) matches Some(size) ==> (size > MAX_ENTRY_SIZE ==> (res
            matches Err(e) && e matches EpubError::WriteError(m) && m@ == "ZIP entry '"@ + name@
            + "' exceeds maximum size ("@ + crate::writer::decimal(size as nat) + " bytes > "@
            + crate::writer::decimal(MAX_ENTRY_SIZE as nat) + " bytes)"@)),
{
    match zip_size(data, name) {
        Err(e) => Err(EpubError::Zip(e)),
        Ok(size) => {
            if size > MAX_ENTRY_SIZE {
                let mut msg = "ZIP entry '".to_owned();
                push_str(&mut msg, name);
                push_str(&mut msg, "' exceeds maximum size (");
                push_decimal(&mut msg, size);
                push_str(&mut msg, " bytes > ");
                push_decimal(&mut msg, MAX_ENTRY_SIZE);
                push_str(&mut msg, " bytes)");
                return Err(EpubError::WriteError(msg));
            }
            match zip_read(data, name) {
                Ok(Ok(b)) => Ok(b),
                Ok(Err(e)) => Err(EpubError::Io(e)),
                Err(e) => Err(EpubError::Zip(e)),
            }
        },
    }
}

/// The directory of the package document, with its trailing `/`.
pub open spec fn opf_base(path: Seq<char>) -> Seq<char> {
    match text::last_index_of_before(path, '/', path.len() as int) {
        Some(i) => path.subrange(0, i + 1),
        None => Seq::empty(),
    }
}

/// The item read for a manifest entry: its content is the archive entry at
/// its href resolved against `base`.
pub open spec fn item_from(data: Seq<u8>, base: Seq<char>, m: ManifestView) -> BookItemView {
    BookItemView {
        id: m.id,
        href: m.href,
        media_type: m.media_type,
        item_type: item_type_of(m.media_type, m.properties),
        properties: m.properties,
        media_overlay: m.media_overlay,
        fallback: m.fallback,
        content: entry_content(data, resolve_relative_spec(base, m.href)),
    }
}

/// The first manifest entry from `i` on whose properties mention `nav`.
pub open spec fn nav_entry_from(ms: Seq<ManifestView>, i: int) -> Option<int>
    decreases ms.len() - i,
{
    if i < 0 || i >= ms.len() {
        None
    } else if ms[i].properties matches Some(p) && text::contains(p, "nav"@) {
        Some(i)
    } else {
        nav_entry_from(ms, i + 1)
    }
}

/// The table of contents of the Nav document, if it can be read and parsed.
pub open spec fn toc_from_nav(data: Seq<u8>, base: Seq<char>, ms: Seq<ManifestView>) -> Seq<TocView> {
    match nav_entry_from(ms, 0) {
        Some(i) => match entry_read(data, resolve_relative_spec(base, ms[i].href)) {
            Some(b) => match xml_parse(utf8_lossy(b)) {
                Some(ns) => nav_toc_of(ns),
                None => Seq::empty(),
            },
            None => Seq::empty(),
        },
        None => Seq::empty(),
    }
}

/// The table of contents of the NCX that the spine names, if it can be
/// found, read and parsed.
pub open spec fn toc_from_ncx(data: Seq<u8>, base: Seq<char>, ms: Seq<ManifestView>, ncx_id: Option<Seq<char>>) -> Seq<TocView> {
    match ncx_id {
        Some(id) => match id_index(ms, id) {
            Some(i) => match entry_read(data, resolve_relative_spec(base, ms[i].href)) {
                Some(b) => match xml_parse(utf8_lossy(b)) {
                    Some(ns) => ncx_toc_of(ns),
                    None => Seq::empty(),
                },
                None => Seq::empty(),
            },
            None => Seq::empty(),
        },
        None => Seq::empty(),
    }
}

/// The table of contents: the Nav document's when it gives entries (unless
/// ignored), else the NCX's (unless ignored).
pub open spec fn book_toc(
    data: Seq<u8>,
    base: Seq<char>,
    ms: Seq<ManifestView>,
    ncx_id: Option<Seq<char>>,
    opts: ReadOptions,
) -> Seq<TocView> {
    let t = if opts.ignore_nav {
        Seq::empty()
    } else {
        toc_from_nav(data, base, ms)
    };
    if t.len() == 0 && !opts.ignore_ncx {
        toc_from_ncx(data, base, ms, ncx_id)
    } else {
        t
    }
}

/// The first element child of node `p`.
pub open spec fn first_element_from(ns: Seq<NodeView>, ks: Seq<int>) -> Option<int>
    decreases ks.len(),
{
    if ks.len() == 0 {
        None
    } else if ns[ks[0]].is_element {
        Some(ks[0])
    } else {
        first_element_from(ns, ks.drop_first())
    }
}

/// A section (`metadata`, `manifest` or `spine`) of the package element.
pub open spec fn opf_section(ns: Seq<NodeView>, name: Seq<char>) -> Option<int> {
    match first_element_from(ns, children(ns, 0)) {
        Some(p) => child_element(ns, p, name),
        None => None,
    }
}

/// The manifest declared by a parsed package document.
pub open spec fn opf_manifest(ns: Seq<NodeView>) -> Seq<ManifestView> {
    match opf_section(ns, "manifest"@) {
        Some(k) => manifest_of(ns, children(ns, k)),
        None => Seq::empty(),
    }
}

/// The `toc` attribute of the spine of a parsed package document.
pub open spec fn opf_ncx_id(ns: Seq<NodeView>) -> Option<Seq<char>> {
    match opf_section(ns, "spine"@) {
        Some(k) => attr(ns, k, None, "toc"@),
        None => None,
    }
}

/// The book read from the archive `data` whose package document, at
/// `opf_path`, parses to `ns`.
pub open spec fn opf_book(data: Seq<u8>, opts: ReadOptions, opf_path: Seq<char>, ns: Seq<NodeView>) -> BookView {
    let base = opf_base(opf_path);
    let ms = opf_manifest(ns);
    BookView {
        metadata: merge_refines(
            match opf_section(ns, "metadata"@) {
                Some(k) => metadata_of(ns, children(ns, k)),
                None => Seq::empty(),
            },
        ),
        items: Seq::new(ms.len(), |i: int| item_from(data, base, ms[i])),
        spine: match opf_section(ns, "spine"@) {
            Some(k) => spine_of(ns, children(ns, k)),
            None => Seq::empty(),
        },
        toc: book_toc(data, base, ms, opf_ncx_id(ns), opts),
        version: match first_element_from(ns, children(ns, 0)) {
            Some(p) => match attr(ns, p, None, "version"@) {
                Some(v) => v,
                None => "3.0"@,
            },
            None => "3.0"@,
        },
    }
}

/// What reading an archive gives.
pub enum ReadOutcome {
    Book(BookView),
    NotAnArchive,
    NoContainer,
    ContainerNotXml,
    NoRootfile,
    NoPackage(Seq<char>),
    PackageNotXml,
}

/// What reading the archive `data` gives: each failure in the order the
/// reader meets it, else the book.
pub open spec fn read_outcome(data: Seq<u8>, opts: ReadOptions) -> ReadOutcome {
    if !crate::archive::zip_opens(data) {
        ReadOutcome::NotAnArchive
    } else {
        match entry_read(data, "META-INF/container.xml"@) {
            None => ReadOutcome::NoContainer,
            Some(cb) => match xml_parse(utf8_lossy(cb)) {
                None => ReadOutcome::ContainerNotXml,
                Some(cn) => match rootfile_from(cn, 0) {
                    None => ReadOutcome::NoRootfile,
                    Some(opf_path) => match entry_read(data, opf_path) {
                        None => ReadOutcome::NoPackage(opf_path),
                        Some(ob) => match xml_parse(utf8_lossy(ob)) {
                            None => ReadOutcome::PackageNotXml,
                            Some(ns) => ReadOutcome::Book(opf_book(data, opts, opf_path, ns)),
                        },
                    },
                },
            },
        }
    }
}

/// Reading lazily or not gives the same book: only when item content is
/// loaded differs.
pub proof fn lemma_lazy_reads_same(data: Seq<u8>, a: ReadOptions, b: ReadOptions)
    requires
        a.ignore_ncx == b.ignore_ncx,
        a.ignore_nav == b.ignore_nav,
    ensures
        read_outcome(data, a) == read_outcome(data, b),
{
}

/// The package document the writer writes, `EPUB/content.opf`, has the
/// directory `EPUB/`.
proof fn lemma_written_package_base()
    ensures
        opf_base("EPUB/content.opf"@) == "EPUB/"@,
{
    reveal_strlit("EPUB/content.opf");
    reveal_strlit("EPUB/");
    reveal_with_fuel(text::last_index_of_before, 13);
    assert(text::last_index_of_before("EPUB/content.opf"@, '/', 16) == Some(4int));
    assert("EPUB/content.opf"@.subrange(0, 5) =~= "EPUB/"@);
}

/// An item of a written book is read back with the bytes written for it:
/// reading the package document at `EPUB/content.opf`, the reader looks
/// for a manifest entry with the item's href where the writer put it.
pub proof fn lemma_written_item_read_back(
    data: Seq<u8>,
    book: EpubBook,
    timestamp: Seq<char>,
    m: ManifestView,
    i: int,
)
    requires
        crate::writer::archive_of_entries(data, crate::writer::epub_entries(book, timestamp)),
        0 <= i < book.items@.len(),
        m.href == book.items@[i].href@,
        crate::writer::item_bytes(book, *book.items@[i]).len() <= MAX_ENTRY_SIZE,
    ensures
        item_from(data, opf_base("EPUB/content.opf"@), m).content == crate::writer::item_bytes(
            book,
            *book.items@[i],
        ),
{
    lemma_written_package_base();
    crate::writer::lemma_written_entries_read_back(data, book, timestamp, i);
}

/// A package document without `metadata`, `manifest` and `spine` sections
/// reads as a book with no metadata, items, spine or table of contents.
pub proof fn lemma_bare_package_reads_empty(
    data: Seq<u8>,
    opts: ReadOptions,
    opf_path: Seq<char>,
    ns: Seq<NodeView>,
)
    requires
        opf_section(ns, "metadata"@) is None,
        opf_section(ns, "manifest"@) is None,
        opf_section(ns, "spine"@) is None,
    ensures
        opf_book(data, opts, opf_path, ns).metadata.len() == 0,
        opf_book(data, opts, opf_path, ns).items.len() == 0,
        opf_book(data, opts, opf_path, ns).spine.len() == 0,
        opf_book(data, opts, opf_path, ns).toc.len() == 0,
{
    let ms = opf_manifest(ns);
    assert(ms.len() == 0);
    assert(nav_entry_from(ms, 0) is None);
    match opf_ncx_id(ns) {
        Some(id) => {
            assert(id_index(ms, id) is None);
        },
        None => {},
    }
    let m0: crate::metadata::MetadataView = Seq::empty();
    assert(crate::metadata::key_index(m0, "DC"@) is None);
    assert(merge_refines(m0) == m0);
}

/// The ToC options change only the table of contents: reading with other
/// `ignore_ncx` / `ignore_nav` flags fails in the same way, or gives a book
/// with the same metadata, items, spine and version. Ignoring both gives
/// an empty table of contents.
pub proof fn lemma_toc_options_change_only_toc(data: Seq<u8>, a: ReadOptions, b: ReadOptions)
    ensures
        read_outcome(data, a) is Book <==> read_outcome(data, b) is Book,
        !(read_outcome(data, a) is Book) ==> read_outcome(data, a) == read_outcome(data, b),
        read_outcome(data, a) matches ReadOutcome::Book(x) ==> (read_outcome(data, b) matches ReadOutcome::Book(y)
            && x.metadata == y.metadata && x.items == y.items && x.spine == y.spine && x.version
            == y.version),
        a.ignore_ncx && a.ignore_nav ==> (read_outcome(data, a) matches ReadOutcome::Book(x)
            ==> x.toc.len() == 0),
{
}

/// A lazy read and an eager read of the same archive, with the same ToC
/// options, give items with the same content: what a lazy item's
/// `get_content` returns is what the eager item holds.
pub proof fn lemma_lazy_content_same(
    data: Seq<u8>,
    lazy_opts: ReadOptions,
    eager_opts: ReadOptions,
    bl: EpubBook,
    be: EpubBook,
    i: int,
)
    requires
        lazy_opts.ignore_ncx == eager_opts.ignore_ncx,
        lazy_opts.ignore_nav == eager_opts.ignore_nav,
        read_outcome(data, lazy_opts) matches ReadOutcome::Book(v) && book_view(bl) == v,
        read_outcome(data, eager_opts) matches ReadOutcome::Book(v) && book_view(be) == v,
        0 <= i < bl.items@.len(),
    ensures
        i < be.items@.len(),
        bl.items@[i].content_view() == be.items@[i].content_view(),
        bl.items@[i].id@ == be.items@[i].id@,
{
    lemma_lazy_reads_same(data, lazy_opts, eager_opts);
    assert(book_view(bl).items.len() == bl.items@.len());
    assert(book_view(be).items.len() == be.items@.len());
    assert(book_view(bl).items[i] == book_item_view(*bl.items@[i]));
    assert(book_view(be).items[i] == book_item_view(*be.items@[i]));
    assert(book_view(bl).items[i] == book_view(be).items[i]);
}

/// Every item is lazy, loading from `data`, when `lazy` is set, and holds
/// its content otherwise.
pub open spec fn items_loaded(b: EpubBook, data: Seq<u8>, lazy: bool) -> bool {
    forall|i: int|
        0 <= i < b.items@.len() ==> if lazy {
            (#[trigger] b.items@[i]).lazy_source matches Some(src) && src.zip_data@ == data
        } else {
            b.items@[i].lazy_source is None
        }
}

/// The item read for one manifest entry.
fn read_item(data: &[u8], base: &str, m: &ManifestItem, zip_data: &Option<Arc<Vec<u8>>>) -> (res: EpubItem)
    requires
        zip_data matches Some(z) ==> z@ == data@,
    ensures
        book_item_view(res) == item_from(data@, base@, m@),
        zip_data matches Some(z) ==> res.lazy_source matches Some(src) && src.zip_data == z,
        zip_data is None ==> res.lazy_source is None,
{
    let zip_path = resolve_relative(base, m.href.as_str());
    let props: Option<&str> = match &m.properties {
        Some(p) => Some(p.as_str()),
        None => None,
    };
    let item_type = ItemType::from_media_type(m.media_type.as_str(), props);
    let id = m.id.as_str().to_owned();
    let href = m.href.as_str().to_owned();
    let media_type = m.media_type.as_str().to_owned();
    let mut item = match zip_data {
        Some(zd) => EpubItem::lazy(id, href, media_type, item_type, share(zd), zip_path),
        None => {
            let content = match read_zip_entry(data, zip_path.as_str()) {
                Ok(b) => b,
                Err(_) => Vec::new(),
            };
            EpubItem::eager(id, href, media_type, item_type, content)
        },
    };
    item.properties = copy_opt_string(&m.properties);
    item.media_overlay = copy_opt_string(&m.media_overlay);
    item.fallback = copy_opt_string(&m.fallback);
    item
}

/// The items read for the manifest entries, in order.
fn read_items(data: &[u8], base: &str, ms: &Vec<ManifestItem>, zip_data: &Option<Arc<Vec<u8>>>) -> (res: Vec<Arc<EpubItem>>)
    requires
        zip_data matches Some(z) ==> z@ == data@,
    ensures
        res@.len() == ms@.len(),
        forall|i: int| 0 <= i < ms@.len() ==> book_item_view(*#[trigger] res@[i]) == item_from(data@, base@, ms@[i]@),
        forall|i: int| 0 <= i < ms@.len() ==> if zip_data is Some {
            (#[trigger] res@[i]).lazy_source matches Some(src) && src.zip_data@ == data@
        } else {
            res@[i].lazy_source is None
        },
{
    let n = ms.len();
    let mut items: Vec<Arc<EpubItem>> = Vec::new();
    let mut i: usize = 0;
    while i < n
        invariant
            i <= n,
            n == ms@.len(),
            items@.len() == i,
            zip_data matches Some(z) ==> z@ == data@,
            forall|j: int| 0 <= j < i ==> book_item_view(*#[trigger] items@[j]) == item_from(data@, base@, ms@[j]@),
            forall|j: int| 0 <= j < i ==> if zip_data is Some {
                (#[trigger] items@[j]).lazy_source matches Some(src) && src.zip_data@ == data@
            } else {
                items@[j].lazy_source is None
            },
        decreases n - i,
    {
        let item = read_item(data, base, &ms[i], zip_data);
        items.push(Arc::new(item));
        i += 1;
    }
    items
}

/// The first manifest entry whose properties mention `nav`.
fn nav_entry(ms: &Vec<ManifestItem>) -> (res: Option<usize>)
    ensures
        res matches Some(i) ==> nav_entry_from(manifest_view(ms@), 0) == Some(i as int) && i < ms@.len(),
        res is None ==> nav_entry_from(manifest_view(ms@), 0) is None,
{
    let ghost mv = manifest_view(ms@);
    let n = ms.len();
    let mut i: usize = 0;
    while i < n
        invariant
            i <= n,
            n == ms@.len(),
            mv == manifest_view(ms@),
            nav_entry_from(mv, 0) == nav_entry_from(mv, i as int),
        decreases n - i,
    {
        assert(mv[i as int] == ms@[i as int]@);
        if let Some(p) = &ms[i].properties {
            if text::str_contains(p.as_str(), "nav") {
                return Some(i);
            }
        }
        i += 1;
    }
    None
}

/// The table of contents of the Nav document, if it can be read and parsed.
fn read_nav_toc(data: &[u8], base: &str, ms: &Vec<ManifestItem>) -> (res: Vec<TocEntry>)
    ensures
        toc_list_view(res@) == toc_from_nav(data@, base@, manifest_view(ms@)),
{
    match nav_entry(ms) {
        Some(i) => {
            assert(manifest_view(ms@)[i as int] == ms@[i as int]@);
            let nav_path = resolve_relative(base, ms[i].href.as_str());
            match read_zip_entry(data, nav_path.as_str()) {
                Ok(content) => {
                    let text = text_of_bytes(content.as_slice());
                    match parse_nav(text.as_str()) {
                        Ok(toc) => toc,
                        Err(_) => Vec::new(),
                    }
                },
                Err(_) => Vec::new(),
            }
        },
        None => Vec::new(),
    }
}

/// The table of contents of the NCX named by the spine, if it can be found,
/// read and parsed.
fn read_ncx_toc(data: &[u8], base: &str, ms: &Vec<ManifestItem>, ncx_id: &Option<String>) -> (res: Vec<TocEntry>)
    ensures
        toc_list_view(res@) == toc_from_ncx(data@, base@, manifest_view(ms@), opt_str(*ncx_id)),
{
    match ncx_id {
        Some(id) => match item_index(ms, id.as_str()) {
            Some(i) => {
                assert(manifest_view(ms@)[i as int] == ms@[i as int]@);
                let ncx_path = resolve_relative(base, ms[i].href.as_str());
                match read_zip_entry(data, ncx_path.as_str()) {
                    Ok(content) => {
                        let text = text_of_bytes(content.as_slice());
                        match parse_ncx(text.as_str()) {
                            Ok(toc) => toc,
                            Err(_) => Vec::new(),
                        }
                    },
                    Err(_) => Vec::new(),
                }
            },
            None => Vec::new(),
        },
        None => Vec::new(),
    }
}

/// The table of contents: the Nav document's when it gives entries, else
/// the NCX's.
fn read_toc(data: &[u8], base: &str, ms: &Vec<ManifestItem>, ncx_id: &Option<String>, opts: &ReadOptions) -> (res: Vec<TocEntry>)
    ensures
        toc_list_view(res@) == book_toc(data@, base@, manifest_view(ms@), opt_str(*ncx_id), *opts),
{
    let mut toc: Vec<TocEntry> = Vec::new();
    if !opts.ignore_nav {
        toc = read_nav_toc(data, base, ms);
    }
    if toc.len() == 0 && !opts.ignore_ncx {
        toc = read_ncx_toc(data, base, ms, ncx_id);
    }
    toc
}

/// The first element child of the root.
fn package_element(doc: &XmlDoc) -> (res: Option<usize>)
    ensures
        res matches Some(p) ==> first_element_from(doc@, children(doc@, 0)) == Some(p as int) && p < doc@.len(),
        res is None ==> first_element_from(doc@, children(doc@, 0)) is None,
{
    if doc.nodes.len() == 0 {
        proof {
            assert(children(doc@, 0) =~= Seq::<int>::empty());
        }
        return None;
    }
    let kids = doc.children(0);
    let ghost cs = children(doc@, 0);
    let m = kids.len();
    let mut i: usize = 0;
    assert(cs.subrange(0, m as int) =~= cs);
    while i < m
        invariant
            i <= m,
            m == kids@.len(),
            m == cs.len(),
            cs == children(doc@, 0),
            forall|t: int| 0 <= t < m ==> kids@[t] as int == cs[t],
            forall|t: int| 0 <= t < m ==> kids@[t] < doc@.len(),
            first_element_from(doc@, cs) == first_element_from(doc@, cs.subrange(i as int, m as int)),
        decreases m - i,
    {
        let k = kids[i];
        proof {
            assert(cs.subrange(i as int, m as int)[0] == k as int);
            assert(cs.subrange(i as int, m as int).drop_first() =~= cs.subrange(i + 1, m as int));
        }
        assert(doc@[k as int] == doc.nodes@[k as int]@);
        if doc.nodes[k].is_element {
            return Some(k);
        }
        i += 1;
    }
    None
}

/// A section of the package element.
fn opf_section_exec(doc: &XmlDoc, package: Option<usize>, name: &str) -> (res: Option<usize>)
    requires
        package matches Some(p) ==> first_element_from(doc@, children(doc@, 0)) == Some(p as int) && p < doc@.len(),
        package is None ==> first_element_from(doc@, children(doc@, 0)) is None,
    ensures
        res matches Some(k) ==> opf_section(doc@, name@) == Some(k as int) && k < doc@.len(),
        res is None ==> opf_section(doc@, name@) is None,
{
    match package {
        Some(p) => doc.child_element(p, name),
        None => None,
    }
}

/// The directory part of the package document's path.
fn opf_base_exec(path: &str) -> (res: String)
    ensures
        res@ == opf_base(path@),
{
    let cs = chars_of(path);
    match text::last_index_of_before_exec(cs.as_slice(), '/', cs.len()) {
        Some(i) => {
            let mut out = String::new();
            let mut k: usize = 0;
            while k <= i
                invariant
                    k <= i + 1,
                    i < cs@.len(),
                    cs@.len() <= usize::MAX,
                    out@ == cs@.subrange(0, k as int),
                decreases i + 1 - k,
            {
                push_char(&mut out, cs[k]);
                assert(cs@.subrange(0, k + 1) =~= cs@.subrange(0, k as int).push(cs@[k as int]));
                k += 1;
            }
            out
        },
        None => String::new(),
    }
}

/// The book read from the archive `data`, whose package document at
/// `opf_path` parsed to `doc`.
#[verifier::rlimit(30)]
fn book_from_opf(
    data: &[u8],
    opts: &ReadOptions,
    zip_data: &Option<Arc<Vec<u8>>>,
    opf_path: &str,
    doc: &XmlDoc,
) -> (res: EpubBook)
    requires
        zip_data matches Some(z) ==> z@ == data@,
    ensures
        book_view(res) == opf_book(data@, *opts, opf_path@, doc@),
        forall|i: int| 0 <= i < res.items@.len() ==> if zip_data is Some {
            (#[trigger] res.items@[i]).lazy_source matches Some(src) && src.zip_data@ == data@
        } else {
            res.items@[i].lazy_source is None
        },
{
    proof {
        reveal_strlit("3.0");
    }
    let package = package_element(doc);
    let version = match package {
        Some(p) => match doc.attribute(p, None, "version") {
            Some(v) => v.to_owned(),
            None => "3.0".to_owned(),
        },
        None => "3.0".to_owned(),
    };
    let mut meta = match opf_section_exec(doc, package, "metadata") {
        Some(k) => parse_metadata(doc, k),
        None => MetadataMap::new(),
    };
    let manifest_items = match opf_section_exec(doc, package, "manifest") {
        Some(k) => parse_manifest(doc, k),
        None => Vec::new(),
    };
    let (spine_items, ncx_id) = match opf_section_exec(doc, package, "spine") {
        Some(k) => parse_spine(doc, k),
        None => (Vec::new(), None),
    };
    let base = opf_base_exec(opf_path);
    let items = read_items(data, base.as_str(), &manifest_items, zip_data);
    let toc = read_toc(data, base.as_str(), &manifest_items, &ncx_id, opts);
    merge_refines_into_dc(&mut meta);
    let book = EpubBook::new_with_version(meta, items, spine_items, toc, version);
    proof {
        let ms = manifest_view(manifest_items@);
        assert(ms == opf_manifest(doc@));
        assert(opt_str(ncx_id) == opf_ncx_id(doc@));
        assert(book_view(book).items =~= Seq::new(ms.len(), |i: int| item_from(data@, opf_base(opf_path@), ms[i])));
        let want = opf_book(data@, *opts, opf_path@, doc@);
        let got = book_view(book);
        assert(got.metadata == want.metadata);
        assert(got.items == want.items);
        assert(got.spine == want.spine);
        assert(got.toc == want.toc);
        assert(got.version == want.version);
    }
    book
}

/// Read and parse an EPUB from raw bytes with options.
pub fn read_epub_from_bytes_with_options(data: &[u8], opts: &ReadOptions) -> (res: Result<EpubBook, EpubError>)
    ensures
        match read_outcome(data@, *opts) {
            ReadOutcome::Book(bv) => res matches Ok(b) && book_view(b) == bv && items_loaded(b, data@, opts.lazy),
            ReadOutcome::NotAnArchive => res matches Err(e) && e is Zip,
            ReadOutcome::NoContainer => res matches Err(e) && e is MissingContainer,
            ReadOutcome::ContainerNotXml => res matches Err(e) && e is InvalidOpf,
            ReadOutcome::NoRootfile => res matches Err(e) && e is MissingRootfile,
            ReadOutcome::NoPackage(p) => res matches Err(e) && e matches EpubError::MissingOpf(s) && s@ == p,
            ReadOutcome::PackageNotXml => res matches Err(e) && e is InvalidOpf,
        },
{
    let zip_data: Option<Arc<Vec<u8>>> = if opts.lazy {
        Some(Arc::new(vstd::slice::slice_to_vec(data)))
    } else {
        None
    };
    match zip_check(data) {
        Ok(()) => {},
        Err(e) => {
            return Err(EpubError::Zip(e));
        },
    }
    let container_xml = match read_zip_entry(data, "META-INF/container.xml") {
        Ok(b) => b,
        Err(_) => {
            return Err(EpubError::MissingContainer);
        },
    };
    let container_str = text_of_bytes(container_xml.as_slice());
    let opf_path = match parse_container(container_str.as_str()) {
        Ok(p) => p,
        Err(e) => {
            return Err(e);
        },
    };
    let opf_xml = match read_zip_entry(data, opf_path.as_str()) {
        Ok(b) => b,
        Err(_) => {
            return Err(EpubError::MissingOpf(opf_path));
        },
    };
    let opf_str = text_of_bytes(opf_xml.as_slice());
    let doc = match parse_xml(opf_str.as_str()) {
        Ok(d) => d,
        Err(e) => {
            return Err(EpubError::InvalidOpf(xml_error_text(&e)));
        },
    };
    Ok(book_from_opf(data, opts, &zip_data, opf_path.as_str(), &doc))
}

/// Read and parse an EPUB from raw bytes.
pub fn read_epub_from_bytes(data: &[u8]) -> (res: Result<EpubBook, EpubError>)
    ensures
        match read_outcome(data@, ReadOptions { ignore_ncx: false, ignore_nav: false, lazy: false }) {
            ReadOutcome::Book(bv) => res matches Ok(b) && book_view(b) == bv && items_loaded(b, data@, false),
            ReadOutcome::NotAnArchive => res matches Err(e) && e is Zip,
            ReadOutcome::NoContainer => res matches Err(e) && e is MissingContainer,
            ReadOutcome::ContainerNotXml => res matches Err(e) && e is InvalidOpf,
            ReadOutcome::NoRootfile => res matches Err(e) && e is MissingRootfile,
            ReadOutcome::NoPackage(p) => res matches Err(e) && e matches EpubError::MissingOpf(s) && s@ == p,
            ReadOutcome::PackageNotXml => res matches Err(e) && e is InvalidOpf,
        },
{
    let opts = ReadOptions::default();
    read_epub_from_bytes_with_options(data, &opts)
}

} // verus!
