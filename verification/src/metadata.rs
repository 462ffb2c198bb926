//! Book metadata: namespace -> field -> values, each value with attributes.
use vstd::prelude::*;
use crate::text::str_eq;
use vstd::string::StrSliceExecFns;
use crate::xml::{XmlDoc, AttrView, NodeView, attr, children};

verus! {

/// A metadata value as the contracts see it: its text and its attributes.
pub type ItemView = (Seq<char>, Seq<(Seq<char>, Seq<char>)>);

/// The fields of one namespace as the contracts see them.
pub type FieldsView = Seq<(Seq<char>, Seq<ItemView>)>;

/// A whole metadata map as the contracts see it.
pub type MetadataView = Seq<(Seq<char>, FieldsView)>;

/// A single metadata value with its attributes.
#[derive(Debug)]
pub struct MetadataItem {
    pub value: String,
    /// Attribute name and value pairs, in the order they were captured.
    pub attributes: Vec<(String, String)>,
}

/// The view of a list of attribute pairs.
pub open spec fn attrs_view(a: Seq<(String, String)>) -> Seq<(Seq<char>, Seq<char>)> {
    a.map_values(|p: (String, String)| (p.0@, p.1@))
}

impl View for MetadataItem {
    type V = ItemView;

    open spec fn view(&self) -> ItemView {
        (self.value@, attrs_view(self.attributes@))
    }
}

/// The view of a list of metadata values.
pub open spec fn items_view(items: Seq<MetadataItem>) -> Seq<ItemView> {
    items.map_values(|it: MetadataItem| it@)
}

/// The view of the fields of a namespace.
pub open spec fn fields_view(f: Seq<(String, Vec<MetadataItem>)>) -> FieldsView {
    f.map_values(|e: (String, Vec<MetadataItem>)| (e.0@, items_view(e.1@)))
}

/// Metadata organized as namespace → field → list of values, each level in
/// the order in which its keys were first added.
#[derive(Debug)]
pub struct MetadataMap {
    pub namespaces: Vec<(String, Vec<(String, Vec<MetadataItem>)>)>,
}

impl View for MetadataMap {
    type V = MetadataView;

    open spec fn view(&self) -> MetadataView {
        self.namespaces@.map_values(
            |e: (String, Vec<(String, Vec<MetadataItem>)>)| (e.0@, fields_view(e.1@)),
        )
    }
}

/// The first index whose key is `k`.
pub open spec fn key_index<V>(s: Seq<(Seq<char>, V)>, k: Seq<char>) -> Option<int> {
    if exists|i: int| 0 <= i < s.len() && s[i].0 == k {
        Some(choose|i: int| 0 <= i < s.len() && s[i].0 == k && forall|j: int| 0 <= j < i ==> s[j].0 != k)
    } else {
        None
    }
}

/// The value of the first entry whose key is `k`.
pub open spec fn lookup<V>(s: Seq<(Seq<char>, V)>, k: Seq<char>) -> Option<V> {
    match key_index(s, k) {
        Some(i) => Some(s[i].1),
        None => None,
    }
}

/// `s` with the value under `k` replaced by `v`, or with `(k, v)` added at the end.
pub open spec fn put<V>(s: Seq<(Seq<char>, V)>, k: Seq<char>, v: V) -> Seq<(Seq<char>, V)> {
    match key_index(s, k) {
        Some(i) => s.update(i, (k, v)),
        None => s.push((k, v)),
    }
}

/// The values stored under namespace `ns` and field `field`.
pub open spec fn field_values(m: MetadataView, ns: Seq<char>, field: Seq<char>) -> Option<Seq<ItemView>> {
    match lookup(m, ns) {
        Some(fields) => lookup(fields, field),
        None => None,
    }
}

/// The text of the first value under `ns` and `field`.
pub open spec fn first_value(m: MetadataView, ns: Seq<char>, field: Seq<char>) -> Option<Seq<char>> {
    match field_values(m, ns, field) {
        Some(items) => if items.len() > 0 {
            Some(items[0].0)
        } else {
            None
        },
        None => None,
    }
}

/// `m` with the values under `ns` and `field` replaced by `items`.
pub open spec fn put_values(m: MetadataView, ns: Seq<char>, field: Seq<char>, items: Seq<ItemView>) -> MetadataView {
    let fields = match lookup(m, ns) {
        Some(f) => f,
        None => Seq::empty(),
    };
    put(m, ns, put(fields, field, items))
}

pub proof fn lemma_key_index_found<V>(s: Seq<(Seq<char>, V)>, k: Seq<char>, i: int)
    requires
        0 <= i < s.len(),
        s[i].0 == k,
        forall|j: int| 0 <= j < i ==> s[j].0 != k,
    ensures
        key_index(s, k) == Some(i),
{
    let c = choose|c: int| 0 <= c < s.len() && s[c].0 == k && forall|j: int| 0 <= j < c ==> s[j].0 != k;
    if c < i {
        assert(s[c].0 != k);
    } else if c > i {
        assert(s[i].0 != k);
    }
}

pub proof fn lemma_key_index_props<V>(s: Seq<(Seq<char>, V)>, k: Seq<char>)
    ensures
        key_index(s, k) matches Some(i) ==> 0 <= i < s.len() && s[i].0 == k && forall|j: int|
            0 <= j < i ==> s[j].0 != k,
        key_index(s, k) is None ==> forall|j: int| 0 <= j < s.len() ==> s[j].0 != k,
{
    if exists|i: int| 0 <= i < s.len() && s[i].0 == k {
        let w = choose|i: int| 0 <= i < s.len() && s[i].0 == k;
        lemma_first_exists(s, k, w);
    }
}

proof fn lemma_first_exists<V>(s: Seq<(Seq<char>, V)>, k: Seq<char>, w: int)
    requires
        0 <= w < s.len(),
        s[w].0 == k,
    ensures
        exists|i: int| 0 <= i < s.len() && s[i].0 == k && forall|j: int| 0 <= j < i ==> s[j].0 != k,
    decreases w,
{
    if exists|j: int| 0 <= j < w && s[j].0 == k {
        let j = choose|j: int| 0 <= j < w && s[j].0 == k;
        lemma_first_exists(s, k, j);
    } else {
        assert(forall|j: int| 0 <= j < w ==> s[j].0 != k);
    }
}

/// After `put`, the key holds the new value, and every other key its old one.
pub proof fn lemma_lookup_put<V>(s: Seq<(Seq<char>, V)>, k: Seq<char>, v: V, k2: Seq<char>)
    ensures
        lookup(put(s, k, v), k) == Some(v),
        k2 != k ==> lookup(put(s, k, v), k2) == lookup(s, k2),
{
    lemma_key_index_props(s, k);
    lemma_key_index_props(s, k2);
    let t = put(s, k, v);
    lemma_key_index_props(t, k);
    lemma_key_index_props(t, k2);
    match key_index(s, k) {
        Some(i) => {
            lemma_key_index_found(t, k, i);
            if k2 != k {
                match key_index(s, k2) {
                    Some(i2) => {
                        lemma_key_index_found(t, k2, i2);
                    },
                    None => {
                        assert forall|j: int| 0 <= j < t.len() implies t[j].0 != k2 by {
                            if j != i {
                                assert(t[j] == s[j]);
                            }
                        }
                    },
                }
            }
        },
        None => {
            lemma_key_index_found(t, k, s.len() as int);
            if k2 != k {
                match key_index(s, k2) {
                    Some(i2) => {
                        lemma_key_index_found(t, k2, i2);
                    },
                    None => {
                        assert forall|j: int| 0 <= j < t.len() implies t[j].0 != k2 by {
                            if j < s.len() {
                                assert(t[j] == s[j]);
                            }
                        }
                    },
                }
            }
        },
    }
}

/// Storing values under a namespace and field and reading them back gives
/// the stored values; every other namespace and field keeps its values.
pub proof fn lemma_values_after_put(
    m: MetadataView,
    ns: Seq<char>,
    field: Seq<char>,
    items: Seq<ItemView>,
    ns2: Seq<char>,
    field2: Seq<char>,
)
    ensures
        field_values(put_values(m, ns, field, items), ns, field) == Some(items),
        (ns2 != ns || field2 != field) ==> field_values(put_values(m, ns, field, items), ns2, field2)
            == field_values(m, ns2, field2),
{
    let fields = match lookup(m, ns) {
        Some(f) => f,
        None => Seq::empty(),
    };
    lemma_lookup_put(m, ns, put(fields, field, items), ns2);
    lemma_lookup_put(fields, field, items, field2);
}

impl MetadataItem {
    /// A value with the given text and attributes.
    pub fn new(value: &str, attributes: Vec<(String, String)>) -> (res: Self)
        ensures
            res@ == (value@, attrs_view(attributes@)),
    {
        MetadataItem { value: value.to_owned(), attributes }
    }

    /// The value of the first attribute named `name`.
    pub fn attribute(&self, name: &str) -> (res: Option<&str>)
        ensures
            crate::text::opt_view(res) == lookup(self@.1, name@),
    {
        let n = self.attributes.len();
        let mut i: usize = 0;
        while i < n
            invariant
                i <= n,
                n == self.attributes@.len(),
                forall|j: int| 0 <= j < i ==> self@.1[j].0 != name@,
            decreases n - i,
        {
            if str_eq(self.attributes[i].0.as_str(), name) {
                proof {
                    lemma_key_index_found(self@.1, name@, i as int);
                }
                return Some(self.attributes[i].1.as_str());
            }
            i += 1;
        }
        proof {
            lemma_key_index_props(self@.1, name@);
        }
        None
    }
}

/// `s` without its first entry under `k`.
pub open spec fn remove_key<V>(s: Seq<(Seq<char>, V)>, k: Seq<char>) -> Seq<(Seq<char>, V)> {
    match key_index(s, k) {
        Some(i) => s.remove(i),
        None => s,
    }
}

/// `m` without the field `field` of namespace `ns`.
pub open spec fn remove_field_spec(m: MetadataView, ns: Seq<char>, field: Seq<char>) -> MetadataView {
    match key_index(m, ns) {
        Some(i) => m.update(i, (ns, remove_key(m[i].1, field))),
        None => m,
    }
}

/// The index of the first field named `field` among `fields`.
fn field_index(fields: &Vec<(String, Vec<MetadataItem>)>, field: &str) -> (res: Option<usize>)
    ensures
        res matches Some(i) ==> key_index(fields_view(fields@), field@) == Some(i as int) && i
            < fields@.len(),
        res is None ==> key_index(fields_view(fields@), field@) is None,
{
    let n = fields.len();
    let ghost v = fields_view(fields@);
    let mut i: usize = 0;
    while i < n
        invariant
            i <= n,
            n == fields@.len(),
            v == fields_view(fields@),
            forall|j: int| 0 <= j < i ==> v[j].0 != field@,
        decreases n - i,
    {
        if str_eq(fields[i].0.as_str(), field) {
            proof {
                lemma_key_index_found(v, field@, i as int);
            }
            return Some(i);
        }
        i += 1;
    }
    proof {
        lemma_key_index_props(v, field@);
    }
    None
}

impl MetadataMap {
    /// An empty map.
    pub fn new() -> (res: Self)
        ensures
            res@ == Seq::<(Seq<char>, FieldsView)>::empty(),
    {
        MetadataMap { namespaces: Vec::new() }
    }

    /// The index of the namespace `ns`.
    fn ns_index(&self, ns: &str) -> (res: Option<usize>)
        ensures
            res matches Some(i) ==> key_index(self@, ns@) == Some(i as int) && i
                < self.namespaces@.len(),
            res is None ==> key_index(self@, ns@) is None,
    {
        let n = self.namespaces.len();
        let mut i: usize = 0;
        while i < n
            invariant
                i <= n,
                n == self.namespaces@.len(),
                forall|j: int| 0 <= j < i ==> self@[j].0 != ns@,
            decreases n - i,
        {
            if str_eq(self.namespaces[i].0.as_str(), ns) {
                proof {
                    lemma_key_index_found(self@, ns@, i as int);
                }
                return Some(i);
            }
            i += 1;
        }
        proof {
            lemma_key_index_props(self@, ns@);
        }
        None
    }

    /// The fields of the namespace `ns`.
    pub fn namespace(&self, ns: &str) -> (res: Option<&Vec<(String, Vec<MetadataItem>)>>)
        ensures
            res matches Some(f) ==> lookup(self@, ns@) == Some(fields_view(f@)),
            res is None ==> lookup(self@, ns@) is None,
    {
        match self.ns_index(ns) {
            Some(i) => Some(&self.namespaces[i].1),
            None => None,
        }
    }

    /// The values stored under `ns` and `field`.
    pub fn get(&self, ns: &str, field: &str) -> (res: Option<&Vec<MetadataItem>>)
        ensures
            res matches Some(v) ==> field_values(self@, ns@, field@) == Some(items_view(v@)),
            res is None ==> field_values(self@, ns@, field@) is None,
    {
        match self.ns_index(ns) {
            Some(i) => {
                let fields = &self.namespaces[i].1;
                match field_index(fields, field) {
                    Some(j) => Some(&fields[j].1),
                    None => None,
                }
            },
            None => None,
        }
    }

    /// The text of the first value under `ns` and `field`.
    pub fn first_value(&self, ns: &str, field: &str) -> (res: Option<&str>)
        ensures
            crate::text::opt_view(res) == first_value(self@, ns@, field@),
    {
        match self.get(ns, field) {
            Some(items) => if items.len() > 0 {
                Some(items[0].value.as_str())
            } else {
                None
            },
            None => None,
        }
    }

    /// Replaces the values stored under `ns` and `field` by `items`.
    pub fn put_values(&mut self, ns: &str, field: &str, items: Vec<MetadataItem>)
        ensures
            final(self)@ == put_values(old(self)@, ns@, field@, items_view(items@)),
    {
        let ghost m0 = self@;
        let ghost iv = items_view(items@);
        match self.ns_index(ns) {
            Some(i) => {
                let ghost ns_before = self.namespaces@;
                let (key, mut fields) = self.namespaces.remove(i);
                let ghost f0 = fields_view(fields@);
                let ghost fv0 = fields@;
                proof {
                    lemma_key_index_props(m0, ns@);
                    lemma_key_index_props(f0, field@);
                }
                assert(f0 == m0[i as int].1);
                assert(key@ == ns@);
                match field_index(&fields, field) {
                    Some(j) => {
                        let (fkey, _old) = fields.remove(j);
                        fields.insert(j, (fkey, items));
                        assert(fields@ =~= fv0.update(j as int, (fkey, items)));
                        assert(fkey@ == field@);
                        assert(fields_view(fields@).len() == f0.len());
                        assert forall|k: int| 0 <= k < f0.len() implies #[trigger] fields_view(fields@)[k]
                            == f0.update(j as int, (field@, iv))[k] by {
                            if k != j {
                                assert(fields@[k] == fv0[k]);
                            }
                        }
                        assert(fields_view(fields@) =~= f0.update(j as int, (field@, iv)));
                    },
                    None => {
                        fields.push((field.to_owned(), items));
                        assert(fields_view(fields@) =~= f0.push((field@, iv)));
                    },
                }
                self.namespaces.insert(i, (key, fields));
                assert(self.namespaces@ =~= ns_before.update(i as int, (key, fields)));
                assert(self@ =~= m0.update(i as int, (ns@, put(f0, field@, iv))));
            },
            None => {
                let mut fields: Vec<(String, Vec<MetadataItem>)> = Vec::new();
                fields.push((field.to_owned(), items));
                assert(fields_view(fields@) =~= put(Seq::<(Seq<char>, Seq<ItemView>)>::empty(), field@, iv)) by {
                    lemma_key_index_props(Seq::<(Seq<char>, Seq<ItemView>)>::empty(), field@);
                }
                self.namespaces.push((ns.to_owned(), fields));
                assert(self@ =~= m0.push((ns@, fields_view(fields@))));
            },
        }
    }

    /// Replaces the fields of namespace `ns` by `fields`, or adds the
    /// namespace at the end.
    pub fn put_namespace(&mut self, ns: &str, fields: Vec<(String, Vec<MetadataItem>)>)
        ensures
            final(self)@ == put(old(self)@, ns@, fields_view(fields@)),
    {
        let ghost m0 = self@;
        let ghost fv = fields_view(fields@);
        proof {
            lemma_key_index_props(m0, ns@);
        }
        match self.ns_index(ns) {
            Some(i) => {
                let ghost before = self.namespaces@;
                let (key, _old) = self.namespaces.remove(i);
                self.namespaces.insert(i, (key, fields));
                assert(self.namespaces@ =~= before.update(i as int, self.namespaces@[i as int]));
                assert(self@ =~= m0.update(i as int, (ns@, fv)));
            },
            None => {
                self.namespaces.push((ns.to_owned(), fields));
                assert(self@ =~= m0.push((ns@, fv)));
            },
        }
    }

    /// Appends a value to those stored under `ns` and `field`.
    pub fn push_value(&mut self, ns: &str, field: &str, item: MetadataItem)
        ensures
            final(self)@ == push_value(old(self)@, ns@, field@, item@),
    {
        let ghost m0 = self@;
        let ghost it = item@;
        match self.ns_index(ns) {
            Some(i) => {
                let ghost ns_before = self.namespaces@;
                let (key, mut fields) = self.namespaces.remove(i);
                let ghost f0 = fields_view(fields@);
                let ghost fv0 = fields@;
                proof {
                    lemma_key_index_props(m0, ns@);
                    lemma_key_index_props(f0, field@);
                }
                assert(f0 == m0[i as int].1);
                assert(key@ == ns@);
                match field_index(&fields, field) {
                    Some(j) => {
                        let (fkey, mut vals) = fields.remove(j);
                        let ghost v0 = items_view(vals@);
                        assert(v0 == f0[j as int].1);
                        vals.push(item);
                        assert(items_view(vals@) =~= v0.push(it));
                        let ghost nv = items_view(vals@);
                        fields.insert(j, (fkey, vals));
                        assert(fields@ =~= fv0.update(j as int, fields@[j as int]));
                        assert(fkey@ == field@);
                        assert forall|k: int| 0 <= k < f0.len() implies #[trigger] fields_view(fields@)[k]
                            == f0.update(j as int, (field@, nv))[k] by {
                            if k != j {
                                assert(fields@[k] == fv0[k]);
                            }
                        }
                        assert(fields_view(fields@) =~= f0.update(j as int, (field@, nv)));
                        assert(field_values(m0, ns@, field@) == Some(v0));
                    },
                    None => {
                        let mut vals: Vec<MetadataItem> = Vec::new();
                        vals.push(item);
                        assert(items_view(vals@) =~= seq![it]);
                        fields.push((field.to_owned(), vals));
                        assert(fields_view(fields@) =~= f0.push((field@, seq![it])));
                        assert(field_values(m0, ns@, field@) is None);
                        assert(Seq::<ItemView>::empty().push(it) =~= seq![it]);
                    },
                }
                self.namespaces.insert(i, (key, fields));
                assert(self.namespaces@ =~= ns_before.update(i as int, (key, fields)));
                assert(self@ =~= put(m0, ns@, fields_view(fields@)));
            },
            None => {
                proof {
                    lemma_key_index_props(m0, ns@);
                }
                let mut vals: Vec<MetadataItem> = Vec::new();
                vals.push(item);
                assert(items_view(vals@) =~= seq![it]);
                let mut fields: Vec<(String, Vec<MetadataItem>)> = Vec::new();
                fields.push((field.to_owned(), vals));
                assert(fields_view(fields@) =~= put(Seq::<(Seq<char>, Seq<ItemView>)>::empty(), field@, seq![it])) by {
                    lemma_key_index_props(Seq::<(Seq<char>, Seq<ItemView>)>::empty(), field@);
                }
                self.namespaces.push((ns.to_owned(), fields));
                assert(self@ =~= m0.push((ns@, fields_view(fields@))));
                assert(Seq::<ItemView>::empty().push(it) =~= seq![it]);
            },
        }
    }

    /// Removes the field `field` of namespace `ns`.
    pub fn remove_field(&mut self, ns: &str, field: &str)
        ensures
            final(self)@ == remove_field_spec(old(self)@, ns@, field@),
    {
        let ghost m0 = self@;
        if let Some(i) = self.ns_index(ns) {
            let ghost ns_before = self.namespaces@;
            let (key, mut fields) = self.namespaces.remove(i);
            let ghost f0 = fields_view(fields@);
            let ghost fv0 = fields@;
            proof {
                lemma_key_index_props(m0, ns@);
                lemma_key_index_props(f0, field@);
            }
            assert(f0 == m0[i as int].1);
            assert(key@ == ns@);
            if let Some(j) = field_index(&fields, field) {
                let _gone = fields.remove(j);
                assert(fields@ =~= fv0.remove(j as int));
                assert(fields_view(fields@) =~= f0.remove(j as int));
            }
            self.namespaces.insert(i, (key, fields));
            assert(self.namespaces@ =~= ns_before.update(i as int, (key, fields)));
            assert(self@ =~= m0.update(i as int, (ns@, remove_key(f0, field@))));
        }
    }
}

/// `m` with `it` appended to the values under `ns` and `field`.
pub open spec fn push_value(m: MetadataView, ns: Seq<char>, field: Seq<char>, it: ItemView) -> MetadataView {
    put_values(
        m,
        ns,
        field,
        match field_values(m, ns, field) {
            Some(v) => v,
            None => Seq::empty(),
        }.push(it),
    )
}

// ---------------------------------------------------------------------------
// Parsing the OPF <metadata>
// ---------------------------------------------------------------------------

/// The Dublin Core namespace.
pub const DC_NS: &'static str = "http://purl.org/dc/elements/1.1/";

/// The short prefix for a well-known attribute namespace.
pub open spec fn prefix_of(uri: Seq<char>) -> Seq<char> {
    if uri == "http://www.idpf.org/2007/opf"@ {
        "opf"@
    } else if uri == "http://www.w3.org/XML/1998/namespace"@ {
        "xml"@
    } else {
        "ns"@
    }
}

/// Map well-known attribute namespaces to short prefixes.
pub fn namespace_prefix(ns: &str) -> (res: &'static str)
    ensures
        res@ == prefix_of(ns@),
{
    if str_eq(ns, "http://www.idpf.org/2007/opf") {
        "opf"
    } else if str_eq(ns, "http://www.w3.org/XML/1998/namespace") {
        "xml"
    } else {
        "ns"
    }
}

/// The key under which an attribute is captured: its local name, after
/// `prefix:` when it has a namespace.
pub open spec fn attr_key(a: AttrView) -> Seq<char> {
    match a.namespace {
        Some(u) => prefix_of(u) + ":"@ + a.name,
        None => a.name,
    }
}

/// The captured attributes: one value per key, a later attribute replacing
/// an earlier one with the same key in its place.
pub open spec fn captured_attrs(attrs: Seq<AttrView>) -> Seq<(Seq<char>, Seq<char>)>
    decreases attrs.len(),
{
    if attrs.len() == 0 {
        Seq::empty()
    } else {
        put(captured_attrs(attrs.drop_last()), attr_key(attrs.last()), attrs.last().value)
    }
}

/// No two pairs share a key, as in a map.
pub open spec fn distinct_keys<V>(s: Seq<(Seq<char>, V)>) -> bool {
    forall|i: int, j: int| 0 <= i < j < s.len() ==> #[trigger] s[i].0 != #[trigger] s[j].0
}

/// Setting a key keeps the keys distinct.
pub proof fn lemma_put_keeps_keys_distinct<V>(s: Seq<(Seq<char>, V)>, k: Seq<char>, v: V)
    requires
        distinct_keys(s),
    ensures
        distinct_keys(put(s, k, v)),
{
    let t = put(s, k, v);
    match key_index(s, k) {
        Some(idx) => {
            assert forall|i: int, j: int| 0 <= i < j < t.len() implies #[trigger] t[i].0 != #[trigger] t[j].0 by {
                if i == idx {
                    assert(t[j] == s[j]);
                } else if j == idx {
                    assert(t[i] == s[i]);
                } else {
                    assert(t[i] == s[i] && t[j] == s[j]);
                }
            }
        },
        None => {
            assert forall|i: int, j: int| 0 <= i < j < t.len() implies #[trigger] t[i].0 != #[trigger] t[j].0 by {
                assert(t[i] == s[i]);
                if j < s.len() {
                    assert(t[j] == s[j]);
                }
            }
        },
    }
}

/// The attributes captured from an element have distinct names, as the
/// attribute map of a metadata value does.
pub proof fn lemma_captured_attrs_distinct(attrs: Seq<AttrView>)
    ensures
        distinct_keys(captured_attrs(attrs)),
    decreases attrs.len(),
{
    if attrs.len() > 0 {
        lemma_captured_attrs_distinct(attrs.drop_last());
        lemma_put_keeps_keys_distinct(captured_attrs(attrs.drop_last()), attr_key(attrs.last()), attrs.last().value);
    }
}

/// The first of the listed nodes that is a text node.
pub open spec fn first_text_in(ns: Seq<NodeView>, ks: Seq<int>) -> Option<int>
    decreases ks.len(),
{
    if ks.len() == 0 {
        None
    } else if ns[ks[0]].is_text {
        Some(ks[0])
    } else {
        first_text_in(ns, ks.drop_first())
    }
}

/// The text of element `k`: that of its first child when it is text, else
/// that of its first text child, else nothing.
pub open spec fn element_value(ns: Seq<NodeView>, k: int) -> Seq<char> {
    match ns[k].text {
        Some(t) => t,
        None => match first_text_in(ns, children(ns, k)) {
            Some(c) => match ns[c].text {
                Some(t) => t,
                None => Seq::empty(),
            },
            None => Seq::empty(),
        },
    }
}

/// The namespace, field and value that element `k` contributes: a Dublin
/// Core element under "DC", or an OPF `<meta>` under "OPF", by its
/// `property` (EPUB3: its text, else its `content`) or by its `name` with
/// its `content` (EPUB2).
pub open spec fn metadata_entry(ns: Seq<NodeView>, k: int) -> Option<(Seq<char>, Seq<char>, ItemView)> {
    if !ns[k].is_element {
        None
    } else {
        let value = element_value(ns, k);
        let attrs = captured_attrs(ns[k].attributes);
        if ns[k].namespace == Some(DC_NS@) {
            Some(("DC"@, ns[k].name, (value, attrs)))
        } else if ns[k].name == "meta"@ {
            match attr(ns, k, None, "property"@) {
                Some(p) => Some(
                    (
                        "OPF"@,
                        p,
                        (
                            if value.len() == 0 {
                                match attr(ns, k, None, "content"@) {
                                    Some(c) => c,
                                    None => Seq::empty(),
                                }
                            } else {
                                value
                            },
                            attrs,
                        ),
                    ),
                ),
                None => match (attr(ns, k, None, "name"@), attr(ns, k, None, "content"@)) {
                    (Some(n), Some(c)) => Some(("OPF"@, n, (c, attrs))),
                    _ => None,
                },
            }
        } else {
            None
        }
    }
}

/// The metadata contributed by the listed elements, in order.
pub open spec fn metadata_of(ns: Seq<NodeView>, kids: Seq<int>) -> MetadataView
    decreases kids.len(),
{
    if kids.len() == 0 {
        Seq::empty()
    } else {
        let m = metadata_of(ns, kids.drop_last());
        match metadata_entry(ns, kids.last()) {
            Some(e) => push_value(m, e.0, e.1, e.2),
            None => m,
        }
    }
}

/// Sets `key` to `value` among attribute pairs: in place when the key is
/// present, else at the end.
pub fn put_attr(out: &mut Vec<(String, String)>, key: String, value: String)
    ensures
        attrs_view(final(out)@) == put(attrs_view(old(out)@), key@, value@),
{
    let ghost before = attrs_view(out@);
    let m = out.len();
    let mut j: usize = 0;
    let mut found = false;
    while j < m && !found
        invariant
            j <= m,
            m == out@.len(),
            before == attrs_view(out@),
            !found ==> forall|t: int| 0 <= t < j ==> before[t].0 != key@,
            found ==> j < m && before[j as int].0 == key@ && forall|t: int| 0 <= t < j ==> before[t].0 != key@,
        decreases m - j, if found { 0int } else { 1int },
    {
        if str_eq(out[j].0.as_str(), key.as_str()) {
            found = true;
        } else {
            j += 1;
        }
    }
    let ghost k2 = key@;
    let ghost v2 = value@;
    if found {
        proof {
            lemma_key_index_found(before, key@, j as int);
        }
        out.set(j, (key, value));
        assert(attrs_view(out@) =~= before.update(j as int, (k2, v2)));
    } else {
        proof {
            lemma_key_index_props(before, key@);
        }
        out.push((key, value));
        assert(attrs_view(out@) =~= before.push((k2, v2)));
    }
}

/// The attributes of node `k`, captured.
fn capture_attrs(doc: &XmlDoc, k: usize) -> (res: Vec<(String, String)>)
    requires
        k < doc@.len(),
    ensures
        attrs_view(res@) == captured_attrs(doc@[k as int].attributes),
{
    let attrs = &doc.nodes[k].attributes;
    let ghost av = doc@[k as int].attributes;
    let n = attrs.len();
    let mut out: Vec<(String, String)> = Vec::new();
    let mut i: usize = 0;
    while i < n
        invariant
            i <= n,
            n == attrs@.len(),
            av == attrs@.map_values(|a: crate::xml::XmlAttr| a@),
            av == doc@[k as int].attributes,
            attrs_view(out@) == captured_attrs(av.take(i as int)),
        decreases n - i,
    {
        let a = &attrs[i];
        assert(av[i as int] == a@);
        assert(av.take(i + 1).drop_last() =~= av.take(i as int));
        let key = match &a.namespace {
            Some(u) => {
                let mut key = namespace_prefix(u.as_str()).to_owned();
                crate::text::push_str(&mut key, ":");
                crate::text::push_str(&mut key, a.name.as_str());
                key
            },
            None => a.name.as_str().to_owned(),
        };
        assert(key@ == attr_key(a@));
        put_attr(&mut out, key, a.value.as_str().to_owned());
        i += 1;
    }
    proof {
        assert(av.take(n as int) =~= av);
    }
    out
}

/// The text of element `k`.
fn element_value_exec(doc: &XmlDoc, k: usize) -> (res: String)
    requires
        k < doc@.len(),
    ensures
        res@ == element_value(doc@, k as int),
{
    assert(doc@[k as int] == doc.nodes@[k as int]@);
    if let Some(t) = &doc.nodes[k].text {
        return t.as_str().to_owned();
    }
    let kids = doc.children(k);
    let ghost cs = children(doc@, k as int);
    let m = kids.len();
    let mut i: usize = 0;
    assert(cs.subrange(0, m as int) =~= cs);
    while i < m
        invariant
            i <= m,
            k < doc@.len(),
            doc@[k as int].text is None,
            m == kids@.len(),
            m == cs.len(),
            cs == children(doc@, k as int),
            forall|t: int| 0 <= t < m ==> kids@[t] as int == cs[t],
            forall|t: int| 0 <= t < m ==> kids@[t] < doc@.len(),
            first_text_in(doc@, cs) == first_text_in(doc@, cs.subrange(i as int, m as int)),
        decreases m - i,
    {
        let c = kids[i];
        proof {
            assert(cs.subrange(i as int, m as int)[0] == c as int);
            assert(cs.subrange(i as int, m as int).drop_first() =~= cs.subrange(i + 1, m as int));
        }
        assert(doc@[c as int] == doc.nodes@[c as int]@);
        if doc.nodes[c].is_text {
            return match &doc.nodes[c].text {
                Some(t) => t.as_str().to_owned(),
                None => String::new(),
            };
        }
        i += 1;
    }
    String::new()
}

/// What element `k` contributes to the metadata.
fn metadata_entry_exec(doc: &XmlDoc, k: usize) -> (res: Option<(&'static str, String, MetadataItem)>)
    requires
        k < doc@.len(),
    ensures
        res matches Some(e) ==> metadata_entry(doc@, k as int) == Some((e.0@, e.1@, e.2@)),
        res is None ==> metadata_entry(doc@, k as int) is None,
{
    proof {
        reveal_strlit("meta");
    }
    let node = &doc.nodes[k];
    assert(doc@[k as int] == node@);
    if !node.is_element {
        return None;
    }
    let value = element_value_exec(doc, k);
    let attributes = capture_attrs(doc, k);
    let in_dc = match &node.namespace {
        Some(u) => str_eq(u.as_str(), DC_NS),
        None => false,
    };
    if in_dc {
        return Some(("DC", node.name.as_str().to_owned(), MetadataItem { value, attributes }));
    }
    if !str_eq(node.name.as_str(), "meta") {
        return None;
    }
    match doc.attribute(k, None, "property") {
        Some(p) => {
            let v = if value.unicode_len() == 0 {
                match doc.attribute(k, None, "content") {
                    Some(c) => c.to_owned(),
                    None => String::new(),
                }
            } else {
                value
            };
            Some(("OPF", p.to_owned(), MetadataItem { value: v, attributes }))
        },
        None => match (doc.attribute(k, None, "name"), doc.attribute(k, None, "content")) {
            (Some(n), Some(c)) => Some(("OPF", n.to_owned(), MetadataItem { value: c.to_owned(), attributes })),
            _ => None,
        },
    }
}

/// Parse the <metadata> element of the OPF document.
pub fn parse_metadata(doc: &XmlDoc, metadata_node: usize) -> (res: MetadataMap)
    requires
        metadata_node < doc@.len(),
    ensures
        res@ == metadata_of(doc@, children(doc@, metadata_node as int)),
{
    let kids = doc.children(metadata_node);
    let ghost cs = children(doc@, metadata_node as int);
    let m = kids.len();
    let mut map = MetadataMap::new();
    let mut i: usize = 0;
    while i < m
        invariant
            i <= m,
            m == kids@.len(),
            m == cs.len(),
            cs == children(doc@, metadata_node as int),
            forall|t: int| 0 <= t < m ==> kids@[t] as int == cs[t],
            forall|t: int| 0 <= t < m ==> kids@[t] < doc@.len(),
            map@ == metadata_of(doc@, cs.take(i as int)),
        decreases m - i,
    {
        let k = kids[i];
        assert(cs.take(i + 1).drop_last() =~= cs.take(i as int));
        assert(cs.take(i + 1).last() == k as int);
        if let Some((ns, field, item)) = metadata_entry_exec(doc, k) {
            map.push_value(ns, field.as_str(), item);
        }
        i += 1;
    }
    proof {
        assert(cs.take(m as int) =~= cs);
    }
    map
}

} // verus!
