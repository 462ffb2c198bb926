//! EPUB3 refinements (`<meta refines="#id" property="...">`) of Dublin
//! Core items, turned into `opf:` attributes of those items.
use vstd::prelude::*;
use crate::text::{chars_of, push_char, push_str, str_eq};
use crate::metadata::{
    FieldsView, ItemView, MetadataItem, MetadataMap, MetadataView, attrs_view, fields_view, items_view,
    lookup, put, put_attr,
};
use crate::model::clone_attrs;

verus! {

// ---------------------------------------------------------------------------
// EPUB3 refinements into DC attributes
// ---------------------------------------------------------------------------

/// A refinement of a DC item by an OPF `<meta refines="#id" property="...">`:
/// the refined item (field index, item index among the DC fields), the
/// property and value, and where the meta stands (field index, item index
/// among the OPF fields).
pub struct RefineView {
    pub target: (int, int),
    pub prop: Seq<char>,
    pub value: Seq<char>,
    pub key: int,
    pub idx: int,
}

/// `s` without its leading `#` characters.
pub open spec fn strip_hashes(s: Seq<char>) -> Seq<char>
    decreases s.len(),
{
    if s.len() > 0 && s[0] == '#' {
        strip_hashes(s.drop_first())
    } else {
        s
    }
}

/// The properties that become `opf:` attributes of the refined DC item.
pub open spec fn refinable(p: Seq<char>) -> bool {
    p == "role"@ || p == "file-as"@ || p == "display-seq"@ || p == "group-position"@
}

/// The last of the first `n` items whose `id` attribute is `id`.
pub open spec fn last_with_id(items: Seq<ItemView>, id: Seq<char>, n: int) -> Option<int>
    decreases n,
{
    if n <= 0 || n > items.len() {
        None
    } else if lookup(items[n - 1].1, "id"@) == Some(id) {
        Some(n - 1)
    } else {
        last_with_id(items, id, n - 1)
    }
}

/// The last DC item, among the first `f` fields, whose `id` is `id`.
pub open spec fn dc_target(dc: FieldsView, id: Seq<char>, f: int) -> Option<(int, int)>
    decreases f,
{
    if f <= 0 || f > dc.len() {
        None
    } else {
        match last_with_id(dc[f - 1].1, id, dc[f - 1].1.len() as int) {
            Some(i) => Some((f - 1, i)),
            None => dc_target(dc, id, f - 1),
        }
    }
}

/// The refinement that the OPF item `item` (item `i` of field `k`) makes.
pub open spec fn refinement_of(dc: FieldsView, item: ItemView, k: int, i: int) -> Option<RefineView> {
    match (lookup(item.1, "refines"@), lookup(item.1, "property"@)) {
        (Some(r), Some(p)) => if refinable(p) {
            match dc_target(dc, strip_hashes(r), dc.len() as int) {
                Some(t) => Some(RefineView { target: t, prop: p, value: item.0, key: k, idx: i }),
                None => None,
            }
        } else {
            None
        },
        _ => None,
    }
}

/// The refinements made by the first `n` items of OPF field `k`.
pub open spec fn field_refinements(dc: FieldsView, items: Seq<ItemView>, k: int, n: int) -> Seq<RefineView>
    decreases n,
{
    if n <= 0 || n > items.len() {
        Seq::empty()
    } else {
        let r = field_refinements(dc, items, k, n - 1);
        match refinement_of(dc, items[n - 1], k, n - 1) {
            Some(x) => r.push(x),
            None => r,
        }
    }
}

/// The refinements made by the items of the first `n` OPF fields, in order.
pub open spec fn refinements(dc: FieldsView, opf: FieldsView, n: int) -> Seq<RefineView>
    decreases n,
{
    if n <= 0 || n > opf.len() {
        Seq::empty()
    } else {
        refinements(dc, opf, n - 1) + field_refinements(dc, opf[n - 1].1, n - 1, opf[n - 1].1.len() as int)
    }
}

/// The attributes of DC item `i` of field `f` after the first `n`
/// refinements: each refinement of it sets `opf:{property}`.
pub open spec fn apply_refines(attrs: Seq<(Seq<char>, Seq<char>)>, refs: Seq<RefineView>, f: int, i: int, n: int) -> Seq<
    (Seq<char>, Seq<char>),
>
    decreases n,
{
    if n <= 0 || n > refs.len() {
        attrs
    } else {
        let a = apply_refines(attrs, refs, f, i, n - 1);
        if refs[n - 1].target == (f, i) {
            put(a, "opf:"@ + refs[n - 1].prop, refs[n - 1].value)
        } else {
            a
        }
    }
}

/// The DC fields with the refinements applied.
pub open spec fn refined_dc(dc: FieldsView, refs: Seq<RefineView>) -> FieldsView {
    Seq::new(
        dc.len(),
        |f: int|
            (
                dc[f].0,
                Seq::new(
                    dc[f].1.len(),
                    |i: int| (dc[f].1[i].0, apply_refines(dc[f].1[i].1, refs, f, i, refs.len() as int)),
                ),
            ),
    )
}

/// Item `i` of OPF field `k` made a refinement.
pub open spec fn consumed(refs: Seq<RefineView>, k: int, i: int) -> bool {
    exists|r: int| 0 <= r < refs.len() && (#[trigger] refs[r]).key == k && refs[r].idx == i
}

/// Some item of OPF field `k` made a refinement.
pub open spec fn touched(refs: Seq<RefineView>, k: int) -> bool {
    exists|r: int| 0 <= r < refs.len() && (#[trigger] refs[r]).key == k
}

/// The first `n` items of OPF field `k` that made no refinement.
pub open spec fn kept_items(items: Seq<ItemView>, refs: Seq<RefineView>, k: int, n: int) -> Seq<ItemView>
    decreases n,
{
    if n <= 0 || n > items.len() {
        Seq::empty()
    } else {
        let r = kept_items(items, refs, k, n - 1);
        if consumed(refs, k, n - 1) {
            r
        } else {
            r.push(items[n - 1])
        }
    }
}

/// The first `n` OPF fields without the items that made refinements; a
/// field left empty that way is dropped.
pub open spec fn pruned_opf(opf: FieldsView, refs: Seq<RefineView>, n: int) -> FieldsView
    decreases n,
{
    if n <= 0 || n > opf.len() {
        Seq::empty()
    } else {
        let rest = pruned_opf(opf, refs, n - 1);
        let kept = kept_items(opf[n - 1].1, refs, n - 1, opf[n - 1].1.len() as int);
        if kept.len() == 0 && touched(refs, n - 1) {
            rest
        } else {
            rest.push((opf[n - 1].0, kept))
        }
    }
}

/// The metadata with EPUB3 refinements of DC items turned into `opf:`
/// attributes of those items, and the refining metas removed.
pub open spec fn merge_refines(m: MetadataView) -> MetadataView {
    match (lookup(m, "DC"@), lookup(m, "OPF"@)) {
        (Some(dc), Some(opf)) => {
            let refs = refinements(dc, opf, opf.len() as int);
            if refs.len() == 0 {
                m
            } else {
                put(put(m, "DC"@, refined_dc(dc, refs)), "OPF"@, pruned_opf(opf, refs, opf.len() as int))
            }
        },
        _ => m,
    }
}

/// A refinement, as found.
pub struct Refine {
    pub target_field: usize,
    pub target_item: usize,
    pub prop: String,
    pub value: String,
    pub key: usize,
    pub idx: usize,
}

/// The view of a refinement.
pub open spec fn refine_view(r: Refine) -> RefineView {
    RefineView {
        target: (r.target_field as int, r.target_item as int),
        prop: r.prop@,
        value: r.value@,
        key: r.key as int,
        idx: r.idx as int,
    }
}

/// The views of a list of refinements.
pub open spec fn refines_of(v: Seq<Refine>) -> Seq<RefineView> {
    v.map_values(|r: Refine| refine_view(r))
}

/// `s` without its leading `#` characters.
fn strip_hashes_exec(s: &str) -> (res: String)
    ensures
        res@ == strip_hashes(s@),
{
    let cs = chars_of(s);
    let n = cs.len();
    let mut i: usize = 0;
    assert(cs@.subrange(0, n as int) =~= s@);
    while i < n && cs[i] == '#'
        invariant
            i <= n,
            n == cs@.len(),
            strip_hashes(s@) == strip_hashes(cs@.subrange(i as int, n as int)),
        decreases n - i,
    {
        assert(cs@.subrange(i as int, n as int).drop_first() =~= cs@.subrange(i + 1, n as int));
        i += 1;
    }
    let mut out = String::new();
    let mut k = i;
    while k < n
        invariant
            i <= k <= n,
            n == cs@.len(),
            out@ == cs@.subrange(i as int, k as int),
        decreases n - k,
    {
        push_char(&mut out, cs[k]);
        assert(cs@.subrange(i as int, k + 1) =~= cs@.subrange(i as int, k as int).push(cs@[k as int]));
        k += 1;
    }
    proof {
        assert(cs@.subrange(0, n as int) =~= s@);
        let t = cs@.subrange(i as int, n as int);
        assert(t.len() == 0 || t[0] != '#');
    }
    out
}

/// Whether a property becomes an `opf:` attribute.
fn refinable_exec(p: &str) -> (res: bool)
    ensures
        res == refinable(p@),
{
    str_eq(p, "role") || str_eq(p, "file-as") || str_eq(p, "display-seq") || str_eq(p, "group-position")
}

/// The last DC item whose `id` is `id`.
fn dc_target_exec(dc: &Vec<(String, Vec<MetadataItem>)>, id: &str) -> (res: Option<(usize, usize)>)
    ensures
        res matches Some(t) ==> dc_target(fields_view(dc@), id@, dc@.len() as int) == Some(
            (t.0 as int, t.1 as int),
        ),
        res is None ==> dc_target(fields_view(dc@), id@, dc@.len() as int) is None,
{
    let ghost fv = fields_view(dc@);
    let mut f = dc.len();
    while f > 0
        invariant
            f <= dc@.len(),
            fv == fields_view(dc@),
            dc_target(fv, id@, dc@.len() as int) == dc_target(fv, id@, f as int),
        decreases f,
    {
        let items = &dc[f - 1].1;
        let ghost iv = items_view(items@);
        assert(fv[f - 1].1 == iv);
        let mut i = items.len();
        while i > 0
            invariant
                0 < f <= dc@.len(),
                fv == fields_view(dc@),
                dc_target(fv, id@, dc@.len() as int) == dc_target(fv, id@, f as int),
                iv == fv[f - 1].1,
                i <= items@.len(),
                iv == items_view(items@),
                last_with_id(iv, id@, items@.len() as int) == last_with_id(iv, id@, i as int),
            decreases i,
        {
            let a = items[i - 1].attribute("id");
            assert(iv[i - 1] == items@[i - 1]@);
            match a {
                Some(v) => if str_eq(v, id) {
                    return Some((f - 1, i - 1));
                },
                None => {},
            }
            i -= 1;
        }
        f -= 1;
    }
    None
}

/// The refinement that an OPF item makes.
fn refinement_exec(dc: &Vec<(String, Vec<MetadataItem>)>, it: &MetadataItem, k: usize, i: usize) -> (res: Option<Refine>)
    ensures
        res matches Some(x) ==> refinement_of(fields_view(dc@), it@, k as int, i as int) == Some(refine_view(x)),
        res is None ==> refinement_of(fields_view(dc@), it@, k as int, i as int) is None,
{
    let r = match it.attribute("refines") {
        Some(r) => r,
        None => {
            return None;
        },
    };
    let p = match it.attribute("property") {
        Some(p) => p,
        None => {
            return None;
        },
    };
    if !refinable_exec(p) {
        return None;
    }
    let id = strip_hashes_exec(r);
    match dc_target_exec(dc, id.as_str()) {
        Some(t) => Some(
            Refine {
                target_field: t.0,
                target_item: t.1,
                prop: p.to_owned(),
                value: it.value.as_str().to_owned(),
                key: k,
                idx: i,
            },
        ),
        None => None,
    }
}

/// The refinements made by the items of OPF field `k`, in order.
#[verifier::rlimit(50)]
fn field_refinements_exec(dc: &Vec<(String, Vec<MetadataItem>)>, items: &Vec<MetadataItem>, k: usize) -> (res: Vec<Refine>)
    ensures
        refines_of(res@) == field_refinements(fields_view(dc@), items_view(items@), k as int, items@.len() as int),
{
    let ghost dv = fields_view(dc@);
    let ghost iv = items_view(items@);
    let mut out: Vec<Refine> = Vec::new();
    let ni = items.len();
    let mut i: usize = 0;
    while i < ni
        invariant
            i <= ni,
            ni == items@.len(),
            dv == fields_view(dc@),
            iv == items_view(items@),
            refines_of(out@) == field_refinements(dv, iv, k as int, i as int),
        decreases ni - i,
    {
        let it = &items[i];
        assert(iv[i as int] == it@);
        if let Some(x) = refinement_exec(dc, it, k, i) {
            let ghost before = out@;
            out.push(x);
            assert(refines_of(out@) =~= refines_of(before).push(refine_view(x)));
        }
        i += 1;
    }
    out
}

/// The refinements made by the OPF items, in order.
fn collect_refinements(dc: &Vec<(String, Vec<MetadataItem>)>, opf: &Vec<(String, Vec<MetadataItem>)>) -> (res: Vec<Refine>)
    ensures
        refines_of(res@) == refinements(fields_view(dc@), fields_view(opf@), opf@.len() as int),
{
    let ghost dv = fields_view(dc@);
    let ghost ov = fields_view(opf@);
    let mut out: Vec<Refine> = Vec::new();
    let nk = opf.len();
    let mut k: usize = 0;
    while k < nk
        invariant
            k <= nk,
            nk == opf@.len(),
            dv == fields_view(dc@),
            ov == fields_view(opf@),
            refines_of(out@) == refinements(dv, ov, k as int),
        decreases nk - k,
    {
        let items = &opf[k].1;
        assert(ov[k as int].1 == items_view(items@));
        let mut part = field_refinements_exec(dc, items, k);
        let ghost before = out@;
        let ghost p = part@;
        out.append(&mut part);
        assert(refines_of(out@) =~= refines_of(before) + refines_of(p));
        k += 1;
    }
    out
}

/// The attributes of DC item `i` of field `f` with the refinements applied.
fn apply_refines_exec(attrs: &Vec<(String, String)>, refs: &Vec<Refine>, f: usize, i: usize) -> (res: Vec<(String, String)>)
    ensures
        attrs_view(res@) == apply_refines(attrs_view(attrs@), refines_of(refs@), f as int, i as int, refs@.len() as int),
{
    let ghost rv = refines_of(refs@);
    let mut out = clone_attrs(attrs);
    let n = refs.len();
    let mut r: usize = 0;
    while r < n
        invariant
            r <= n,
            n == refs@.len(),
            rv == refines_of(refs@),
            attrs_view(out@) == apply_refines(attrs_view(attrs@), rv, f as int, i as int, r as int),
        decreases n - r,
    {
        let x = &refs[r];
        assert(rv[r as int] == refine_view(*x));
        if x.target_field == f && x.target_item == i {
            let mut key = "opf:".to_owned();
            push_str(&mut key, x.prop.as_str());
            put_attr(&mut out, key, x.value.as_str().to_owned());
        }
        r += 1;
    }
    out
}

/// The DC fields with the refinements applied.
fn refine_dc(dc: &Vec<(String, Vec<MetadataItem>)>, refs: &Vec<Refine>) -> (res: Vec<(String, Vec<MetadataItem>)>)
    ensures
        fields_view(res@) == refined_dc(fields_view(dc@), refines_of(refs@)),
{
    let ghost dv = fields_view(dc@);
    let ghost rv = refines_of(refs@);
    let nf = dc.len();
    let mut out: Vec<(String, Vec<MetadataItem>)> = Vec::new();
    let mut f: usize = 0;
    while f < nf
        invariant
            f <= nf,
            nf == dc@.len(),
            dv == fields_view(dc@),
            rv == refines_of(refs@),
            fields_view(out@) == refined_dc(dv, rv).take(f as int),
        decreases nf - f,
    {
        let items = &dc[f].1;
        assert(dv[f as int].1 == items_view(items@));
        let ni = items.len();
        let mut new_items: Vec<MetadataItem> = Vec::new();
        let mut i: usize = 0;
        while i < ni
            invariant
                i <= ni,
                ni == items@.len(),
                f < nf,
                nf == dc@.len(),
                dv == fields_view(dc@),
                rv == refines_of(refs@),
                dv[f as int].1 == items_view(items@),
                items_view(new_items@) == refined_dc(dv, rv)[f as int].1.take(i as int),
            decreases ni - i,
        {
            let it = &items[i];
            assert(items_view(items@)[i as int] == it@);
            let ghost before = items_view(new_items@);
            let attributes = apply_refines_exec(&it.attributes, refs, f, i);
            new_items.push(MetadataItem { value: it.value.as_str().to_owned(), attributes });
            assert(items_view(new_items@) =~= before.push(items_view(new_items@).last()));
            assert(items_view(new_items@) =~= refined_dc(dv, rv)[f as int].1.take(i + 1));
            i += 1;
        }
        let ghost before = fields_view(out@);
        out.push((dc[f].0.as_str().to_owned(), new_items));
        proof {
            assert(refined_dc(dv, rv)[f as int].1.take(ni as int) =~= refined_dc(dv, rv)[f as int].1);
            assert(fields_view(out@) =~= before.push(fields_view(out@).last()));
            assert(fields_view(out@) =~= refined_dc(dv, rv).take(f + 1));
        }
        f += 1;
    }
    proof {
        assert(refined_dc(dv, rv).take(nf as int) =~= refined_dc(dv, rv));
    }
    out
}

/// Whether item `i` of OPF field `k` made a refinement.
fn consumed_exec(refs: &Vec<Refine>, k: usize, i: usize) -> (res: bool)
    ensures
        res == consumed(refines_of(refs@), k as int, i as int),
{
    let ghost rv = refines_of(refs@);
    let n = refs.len();
    let mut r: usize = 0;
    while r < n
        invariant
            r <= n,
            n == refs@.len(),
            rv == refines_of(refs@),
            forall|t: int| 0 <= t < r ==> !((#[trigger] rv[t]).key == k && rv[t].idx == i),
        decreases n - r,
    {
        assert(rv[r as int] == refine_view(refs@[r as int]));
        if refs[r].key == k && refs[r].idx == i {
            return true;
        }
        r += 1;
    }
    false
}

/// Whether some item of OPF field `k` made a refinement.
fn touched_exec(refs: &Vec<Refine>, k: usize) -> (res: bool)
    ensures
        res == touched(refines_of(refs@), k as int),
{
    let ghost rv = refines_of(refs@);
    let n = refs.len();
    let mut r: usize = 0;
    while r < n
        invariant
            r <= n,
            n == refs@.len(),
            rv == refines_of(refs@),
            forall|t: int| 0 <= t < r ==> (#[trigger] rv[t]).key != k,
        decreases n - r,
    {
        assert(rv[r as int] == refine_view(refs@[r as int]));
        if refs[r].key == k {
            return true;
        }
        r += 1;
    }
    false
}

/// The OPF fields without the items that made refinements.
fn prune_opf(opf: &Vec<(String, Vec<MetadataItem>)>, refs: &Vec<Refine>) -> (res: Vec<(String, Vec<MetadataItem>)>)
    ensures
        fields_view(res@) == pruned_opf(fields_view(opf@), refines_of(refs@), opf@.len() as int),
{
    let ghost ov = fields_view(opf@);
    let ghost rv = refines_of(refs@);
    let nk = opf.len();
    let mut out: Vec<(String, Vec<MetadataItem>)> = Vec::new();
    let mut k: usize = 0;
    while k < nk
        invariant
            k <= nk,
            nk == opf@.len(),
            ov == fields_view(opf@),
            rv == refines_of(refs@),
            fields_view(out@) == pruned_opf(ov, rv, k as int),
        decreases nk - k,
    {
        let items = &opf[k].1;
        let ghost iv = items_view(items@);
        assert(ov[k as int].1 == iv);
        let ni = items.len();
        let mut kept: Vec<MetadataItem> = Vec::new();
        let mut i: usize = 0;
        while i < ni
            invariant
                i <= ni,
                ni == items@.len(),
                rv == refines_of(refs@),
                iv == items_view(items@),
                items_view(kept@) == kept_items(iv, rv, k as int, i as int),
            decreases ni - i,
        {
            let it = &items[i];
            assert(iv[i as int] == it@);
            if !consumed_exec(refs, k, i) {
                let ghost before = items_view(kept@);
                kept.push(MetadataItem { value: it.value.as_str().to_owned(), attributes: clone_attrs(&it.attributes) });
                assert(items_view(kept@) =~= before.push(it@));
            }
            i += 1;
        }
        if !(kept.len() == 0 && touched_exec(refs, k)) {
            let ghost before = fields_view(out@);
            out.push((opf[k].0.as_str().to_owned(), kept));
            assert(fields_view(out@) =~= before.push((ov[k as int].0, kept_items(iv, rv, k as int, ni as int))));
        }
        k += 1;
    }
    out
}

/// Convert EPUB3 `<meta refines="#dc-id" property="role">val</meta>` style
/// refinements into `opf:{property}` attributes on the target DC element,
/// then strip the consumed meta entries. This makes EPUB3 sources surface
/// the same attribute keys (`opf:role`, `opf:file-as`, ...) as EPUB2
/// sources, so callers don't have to special-case either format.
#[verifier::rlimit(40)]
pub fn merge_refines_into_dc(meta: &mut MetadataMap)
    ensures
        final(meta)@ == merge_refines(old(meta)@),
{
    let ghost m0 = meta@;
    let dc = match meta.namespace("DC") {
        Some(d) => d,
        None => {
            return;
        },
    };
    let opf = match meta.namespace("OPF") {
        Some(o) => o,
        None => {
            return;
        },
    };
    let ghost dv = fields_view(dc@);
    let ghost ov = fields_view(opf@);
    let refs = collect_refinements(dc, opf);
    let ghost rv = refines_of(refs@);
    if refs.len() == 0 {
        assert(rv.len() == 0);
        assert(merge_refines(m0) == m0);
        return;
    }
    let new_dc = refine_dc(dc, &refs);
    let new_opf = prune_opf(opf, &refs);
    assert(fields_view(new_dc@) == refined_dc(dv, rv));
    assert(fields_view(new_opf@) == pruned_opf(ov, rv, ov.len() as int));
    assert(merge_refines(m0) == put(put(m0, "DC"@, refined_dc(dv, rv)), "OPF"@, pruned_opf(ov, rv, ov.len() as int)));
    meta.put_namespace("DC", new_dc);
    meta.put_namespace("OPF", new_opf);
}


/// The properties that a refining meta turns into an attribute of the
/// refined Dublin Core element.
pub open spec fn refining_property(p: Seq<char>) -> bool {
    ||| p == "role"@
    ||| p == "file-as"@
    ||| p == "display-seq"@
    ||| p == "group-position"@
}

proof fn lemma_in_field_refinements(dc: FieldsView, items: Seq<ItemView>, k: int, i: int, n: int, x: RefineView)
    requires
        0 <= i < n <= items.len(),
        refinement_of(dc, items[i], k, i) == Some(x),
    ensures
        exists|r: int| 0 <= r < field_refinements(dc, items, k, n).len() && #[trigger] field_refinements(dc, items, k, n)[r] == x,
    decreases n,
{
    let fr = field_refinements(dc, items, k, n);
    if i == n - 1 {
        assert(fr[fr.len() - 1] == x);
    } else {
        lemma_in_field_refinements(dc, items, k, i, n - 1, x);
        let prev = field_refinements(dc, items, k, n - 1);
        let r = choose|r: int| 0 <= r < prev.len() && #[trigger] prev[r] == x;
        assert(fr[r] == prev[r]);
    }
}

proof fn lemma_in_refinements(dc: FieldsView, opf: FieldsView, k: int, i: int, n: int, x: RefineView)
    requires
        0 <= k < n <= opf.len(),
        0 <= i < opf[k].1.len(),
        refinement_of(dc, opf[k].1[i], k, i) == Some(x),
    ensures
        exists|r: int| 0 <= r < refinements(dc, opf, n).len() && #[trigger] refinements(dc, opf, n)[r] == x,
    decreases n,
{
    let all = refinements(dc, opf, n);
    let prev = refinements(dc, opf, n - 1);
    if k == n - 1 {
        let fr = field_refinements(dc, opf[k].1, k, opf[k].1.len() as int);
        lemma_in_field_refinements(dc, opf[k].1, k, i, opf[k].1.len() as int, x);
        let r = choose|r: int| 0 <= r < fr.len() && #[trigger] fr[r] == x;
        assert(all[prev.len() + r] == fr[r]);
    } else {
        lemma_in_refinements(dc, opf, k, i, n - 1, x);
        let r = choose|r: int| 0 <= r < prev.len() && #[trigger] prev[r] == x;
        assert(all[r] == prev[r]);
    }
}

proof fn lemma_refine_sets_attr(
    attrs: Seq<(Seq<char>, Seq<char>)>,
    refs: Seq<RefineView>,
    f: int,
    j: int,
    n: int,
    x: int,
)
    requires
        0 <= x < n <= refs.len(),
        refs[x].target == (f, j),
    ensures
        lookup(apply_refines(attrs, refs, f, j, n), "opf:"@ + refs[x].prop) is Some,
    decreases n,
{
    let key = "opf:"@ + refs[x].prop;
    let a = apply_refines(attrs, refs, f, j, n - 1);
    if x < n - 1 {
        lemma_refine_sets_attr(attrs, refs, f, j, n - 1, x);
    }
    if refs[n - 1].target == (f, j) {
        crate::metadata::lemma_lookup_put(a, "opf:"@ + refs[n - 1].prop, refs[n - 1].value, key);
    }
}

/// A refining meta - `refines="#id"` naming a Dublin Core element and a
/// property among `role`, `file-as`, `display-seq` and `group-position` -
/// is a refinement of that element with its property and value: it is
/// taken out of the OPF fields, and the element gets the attribute
/// `opf:{property}`.
pub proof fn lemma_refining_meta_is_merged(dc: FieldsView, opf: FieldsView, k: int, i: int, r: Seq<char>, p: Seq<char>)
    requires
        0 <= k < opf.len(),
        0 <= i < opf[k].1.len(),
        lookup(opf[k].1[i].1, "refines"@) == Some(r),
        lookup(opf[k].1[i].1, "property"@) == Some(p),
        refining_property(p),
        dc_target(dc, strip_hashes(r), dc.len() as int) is Some,
    ensures
        ({
            let refs = refinements(dc, opf, opf.len() as int);
            let t = dc_target(dc, strip_hashes(r), dc.len() as int)->0;
            &&& exists|x: int|
                0 <= x < refs.len() && #[trigger] refs[x] == (RefineView {
                    target: t,
                    prop: p,
                    value: opf[k].1[i].0,
                    key: k,
                    idx: i,
                })
            &&& consumed(refs, k, i)
            &&& forall|attrs: Seq<(Seq<char>, Seq<char>)>|
                #[trigger] lookup(apply_refines(attrs, refs, t.0, t.1, refs.len() as int), "opf:"@ + p) is Some
        }),
{
    let refs = refinements(dc, opf, opf.len() as int);
    let t = dc_target(dc, strip_hashes(r), dc.len() as int)->0;
    let x = RefineView { target: t, prop: p, value: opf[k].1[i].0, key: k, idx: i };
    assert(refinable(p));
    assert(refinement_of(dc, opf[k].1[i], k, i) == Some(x));
    lemma_in_refinements(dc, opf, k, i, opf.len() as int, x);
    let w = choose|w: int| 0 <= w < refs.len() && #[trigger] refs[w] == x;
    assert(refs[w].key == k && refs[w].idx == i);
    assert forall|attrs: Seq<(Seq<char>, Seq<char>)>|
        #[trigger] lookup(apply_refines(attrs, refs, t.0, t.1, refs.len() as int), "opf:"@ + p) is Some by {
        lemma_refine_sets_attr(attrs, refs, t.0, t.1, refs.len() as int, w);
    }
}
} // verus!
