//! Frontmatter values: the YAML a file opens with, and the flat map of dotted
//! keys that a filter reads.

use vstd::prelude::*;

use crate::text::decimal;

verus! {

/// `serde_json::Value`, the tree the YAML parser fills, held opaque: only the
/// conversion in `parse_yaml` reads it.
#[verifier::external_type_specification]
#[verifier::external_body]
pub struct ExJsonValue(serde_json::Value);

/// A YAML document, as the frontmatter parser hands it over. A mapping keeps
/// its entries in the order the parser gives them, which is key order.
pub enum Yaml {
    Null,
    Bool(bool),
    Number(String),
    Str(String),
    List(Vec<Yaml>),
    Mapping(Vec<(String, Yaml)>),
}

pub ghost enum YamlView {
    Null,
    Bool(bool),
    Number(Seq<char>),
    Str(Seq<char>),
    List(Seq<YamlView>),
    Mapping(Seq<(Seq<char>, YamlView)>),
}

pub open spec fn yaml_view(y: Yaml) -> YamlView
    decreases y,
{
    match y {
        Yaml::Null => YamlView::Null,
        Yaml::Bool(b) => YamlView::Bool(b),
        Yaml::Number(n) => YamlView::Number(n@),
        Yaml::Str(s) => YamlView::Str(s@),
        Yaml::List(v) => YamlView::List(yaml_list_view(v@)),
        Yaml::Mapping(m) => YamlView::Mapping(yaml_map_view(m@)),
    }
}

pub open spec fn yaml_list_view(v: Seq<Yaml>) -> Seq<YamlView>
    decreases v,
{
    if v.len() == 0 {
        Seq::empty()
    } else {
        seq![yaml_view(v[0])] + yaml_list_view(v.drop_first())
    }
}

pub open spec fn yaml_map_view(m: Seq<(String, Yaml)>) -> Seq<(Seq<char>, YamlView)>
    decreases m,
{
    if m.len() == 0 {
        Seq::empty()
    } else {
        seq![(m[0].0@, yaml_view(m[0].1))] + yaml_map_view(m.drop_first())
    }
}

impl View for Yaml {
    type V = YamlView;

    open spec fn view(&self) -> YamlView {
        yaml_view(*self)
    }
}

/// One frontmatter value that is not a collection.
#[derive(Debug, Clone)]
pub enum Scalar {
    Null,
    Bool(bool),
    Number(String),
    Str(String),
}

pub ghost enum ScalarView {
    Null,
    Bool(bool),
    Number(Seq<char>),
    Str(Seq<char>),
}

impl View for Scalar {
    type V = ScalarView;

    open spec fn view(&self) -> ScalarView {
        match self {
            Scalar::Null => ScalarView::Null,
            Scalar::Bool(b) => ScalarView::Bool(*b),
            Scalar::Number(n) => ScalarView::Number(n@),
            Scalar::Str(s) => ScalarView::Str(s@),
        }
    }
}

/// A value under one flattened key: a scalar, or a list of scalars kept whole
/// so that a filter can read it as membership.
#[derive(Debug, Clone)]
pub enum FmValue {
    Scalar(Scalar),
    List(Vec<Scalar>),
}

pub ghost enum FmView {
    Scalar(ScalarView),
    List(Seq<ScalarView>),
}

pub open spec fn scalars_view(v: Seq<Scalar>) -> Seq<ScalarView> {
    v.map_values(|s: Scalar| s@)
}

impl View for FmValue {
    type V = FmView;

    open spec fn view(&self) -> FmView {
        match self {
            FmValue::Scalar(s) => FmView::Scalar(s@),
            FmValue::List(v) => FmView::List(scalars_view(v@)),
        }
    }
}

/// Flattened frontmatter: dotted keys and their values.
pub type Fm = Vec<(String, FmValue)>;

pub type FmSpec = Seq<(Seq<char>, FmView)>;

pub open spec fn fm_view(fm: Seq<(String, FmValue)>) -> FmSpec {
    fm.map_values(|e: (String, FmValue)| (e.0@, e.1@))
}

/// Where `k` first stands among the keys of `fm`.
pub open spec fn key_index(fm: FmSpec, k: Seq<char>) -> Option<int> {
    if exists|i: int| 0 <= i < fm.len() && fm[i].0 == k {
        Some(
            choose|i: int|
                0 <= i < fm.len() && fm[i].0 == k && forall|j: int| 0 <= j < i ==> fm[j].0 != k,
        )
    } else {
        None
    }
}

/// The value `fm` holds under `k`.
pub open spec fn fm_get(fm: FmSpec, k: Seq<char>) -> Option<FmView> {
    match key_index(fm, k) {
        Some(i) => Some(fm[i].1),
        None => None,
    }
}

/// `fm` with `k` set to `v`: replaced where it was, added at the end where not.
pub open spec fn fm_insert(fm: FmSpec, k: Seq<char>, v: FmView) -> FmSpec {
    match key_index(fm, k) {
        Some(i) => fm.update(i, (k, v)),
        None => fm.push((k, v)),
    }
}

/// `entries` set one after another into `fm`.
pub open spec fn fm_insert_all(fm: FmSpec, entries: FmSpec) -> FmSpec
    decreases entries.len(),
{
    if entries.len() == 0 {
        fm
    } else {
        fm_insert_all(fm_insert(fm, entries[0].0, entries[0].1), entries.drop_first())
    }
}

pub open spec fn is_compound(y: YamlView) -> bool {
    y is List || y is Mapping
}

pub open spec fn scalar_of(y: YamlView) -> ScalarView {
    match y {
        YamlView::Bool(b) => ScalarView::Bool(b),
        YamlView::Number(n) => ScalarView::Number(n),
        YamlView::Str(s) => ScalarView::Str(s),
        _ => ScalarView::Null,
    }
}

/// The key a mapping entry `k` gets below `prefix`.
pub open spec fn child_key(prefix: Seq<char>, k: Seq<char>) -> Seq<char> {
    if prefix.len() == 0 {
        k
    } else {
        prefix + seq!['.'] + k
    }
}

/// The key list element `i` gets below `prefix`.
pub open spec fn index_key(prefix: Seq<char>, i: nat) -> Seq<char> {
    prefix + seq!['['] + decimal(i) + seq![']']
}

/// What one YAML value contributes below `prefix`, in order: nested maps
/// become dotted keys, a list holding a collection is indexed per element,
/// and a list of scalars is kept whole. Nothing stands at the empty key.
pub open spec fn flat(prefix: Seq<char>, y: YamlView) -> FmSpec
    decreases y,
{
    match y {
        YamlView::Mapping(es) => flat_entries(prefix, es),
        YamlView::List(items) => {
            if exists|i: int| 0 <= i < items.len() && is_compound(items[i]) {
                flat_items(prefix, items, 0)
            } else if prefix.len() == 0 {
                Seq::empty()
            } else {
                seq![(prefix, FmView::List(items.map_values(|e: YamlView| scalar_of(e))))]
            }
        },
        _ => {
            if prefix.len() == 0 {
                Seq::empty()
            } else {
                seq![(prefix, FmView::Scalar(scalar_of(y)))]
            }
        },
    }
}

pub open spec fn flat_entries(prefix: Seq<char>, es: Seq<(Seq<char>, YamlView)>) -> FmSpec
    decreases es,
{
    if es.len() == 0 {
        Seq::empty()
    } else {
        flat(child_key(prefix, es[0].0), es[0].1) + flat_entries(prefix, es.drop_first())
    }
}

pub open spec fn flat_items(prefix: Seq<char>, rest: Seq<YamlView>, base: nat) -> FmSpec
    decreases rest,
{
    if rest.len() == 0 {
        Seq::empty()
    } else {
        flat(index_key(prefix, base), rest[0]) + flat_items(prefix, rest.drop_first(), base + 1)
    }
}

/// A list of scalars under a non-empty key is kept whole: flattening it gives
/// exactly one entry, at that key, whose list has the YAML list's length and
/// holds its elements in order, each read as a scalar (a string as that
/// string, a boolean as that boolean).
pub proof fn lemma_scalar_list_kept_whole(prefix: Seq<char>, items: Seq<YamlView>)
    requires
        prefix.len() > 0,
        forall|i: int| 0 <= i < items.len() ==> !is_compound(#[trigger] items[i]),
    ensures
        flat(prefix, YamlView::List(items)).len() == 1,
        flat(prefix, YamlView::List(items))[0].0 == prefix,
        flat(prefix, YamlView::List(items))[0].1 matches FmView::List(l) && l.len() == items.len()
            && forall|i: int|
            0 <= i < items.len() ==> l[i] == scalar_of(#[trigger] items[i]) && (items[i] matches YamlView::Str(t)
                ==> l[i] == ScalarView::Str(t)) && (items[i] matches YamlView::Bool(b) ==> l[i]
                == ScalarView::Bool(b)),
{
    assert(!exists|i: int| 0 <= i < items.len() && is_compound(items[i]));
}

/// A mapping of scalars flattens to one entry per key, in the mapping's
/// order: the key joined to `prefix` with a dot (alone at the top level), and
/// the value read as a scalar.
pub proof fn lemma_scalar_map_dotted(prefix: Seq<char>, es: Seq<(Seq<char>, YamlView)>)
    requires
        forall|i: int| 0 <= i < es.len() ==> (#[trigger] es[i]).0.len() > 0 && !is_compound(es[i].1),
    ensures
        flat(prefix, YamlView::Mapping(es)).len() == es.len(),
        forall|i: int|
            0 <= i < es.len() ==> #[trigger] flat(prefix, YamlView::Mapping(es))[i] == (
                child_key(prefix, es[i].0),
                FmView::Scalar(scalar_of(es[i].1)),
            ),
    decreases es.len(),
{
    if es.len() > 0 {
        let rest = es.drop_first();
        assert forall|i: int| 0 <= i < rest.len() implies (#[trigger] rest[i]).0.len() > 0 && !is_compound(
            rest[i].1,
        ) by {
            assert(rest[i] == es[i + 1]);
        }
        lemma_scalar_map_dotted(prefix, rest);
        let key = child_key(prefix, es[0].0);
        assert(key.len() > 0);
        let head = flat(key, es[0].1);
        assert(head == seq![(key, FmView::Scalar(scalar_of(es[0].1)))]);
        assert(flat(prefix, YamlView::Mapping(es)) == head + flat_entries(prefix, rest));
        assert(flat(prefix, YamlView::Mapping(rest)) == flat_entries(prefix, rest));
        assert forall|i: int| 0 <= i < es.len() implies #[trigger] flat(prefix, YamlView::Mapping(es))[i] == (
            child_key(prefix, es[i].0),
            FmView::Scalar(scalar_of(es[i].1)),
        ) by {
            if i > 0 {
                assert(es[i] == rest[i - 1]);
                assert(flat(prefix, YamlView::Mapping(es))[i] == flat(prefix, YamlView::Mapping(rest))[i - 1]);
            }
        }
    }
}

/// The flattened frontmatter of a YAML document.
#[verifier::opaque]
pub open spec fn flatten_doc(y: YamlView) -> FmSpec {
    fm_insert_all(Seq::empty(), flat(Seq::empty(), y))
}

/// What `serde_yaml_ng` reads from `text`, as a YAML tree, or `None` where it
/// refuses the text.
pub uninterp spec fn spec_parse_yaml(text: Seq<char>) -> Option<YamlView>;

/// Parses `text` with `serde_yaml_ng::from_str` into a `serde_json::Value`
/// and hands the tree over as a `Yaml`, one node for one node: a number as the
/// text `serde_json` prints for it, a mapping in the order it iterates. The
/// contract claims only that the outcome depends on `text` alone.
#[verifier::external_body]
pub fn parse_yaml(text: &str) -> (r: Option<Yaml>)
    ensures
        match r {
            Some(y) => spec_parse_yaml(text@) == Some(y@),
            None => spec_parse_yaml(text@) is None,
        },
{
    serde_yaml_ng::from_str::<serde_json::Value>(text).ok().map(|v| yaml_of_json(&v))
}

/// The node-for-node copy of a `serde_json::Value` that `parse_yaml` hands over.
#[verifier::external_body]
fn yaml_of_json(v: &serde_json::Value) -> Yaml {
    match v {
        serde_json::Value::Null => Yaml::Null,
        serde_json::Value::Bool(b) => Yaml::Bool(*b),
        serde_json::Value::Number(n) => Yaml::Number(n.to_string()),
        serde_json::Value::String(s) => Yaml::Str(s.clone()),
        serde_json::Value::Array(a) => Yaml::List(a.iter().map(yaml_of_json).collect()),
        serde_json::Value::Object(m) => Yaml::Mapping(
            m.iter().map(|(k, x)| (k.clone(), yaml_of_json(x))).collect(),
        ),
    }
}

impl Scalar {
    pub fn duplicate(&self) -> (r: Scalar)
        ensures
            r@ == self@,
    {
        match self {
            Scalar::Null => Scalar::Null,
            Scalar::Bool(b) => Scalar::Bool(*b),
            Scalar::Number(n) => Scalar::Number(n.clone()),
            Scalar::Str(s) => Scalar::Str(s.clone()),
        }
    }
}

pub fn duplicate_scalars(v: &Vec<Scalar>) -> (r: Vec<Scalar>)
    ensures
        scalars_view(r@) == scalars_view(v@),
{
    let mut r: Vec<Scalar> = Vec::new();
    let mut i: usize = 0;
    while i < v.len()
        invariant
            i <= v@.len(),
            r@.len() == i,
            forall|j: int| 0 <= j < i ==> (#[trigger] r@[j])@ == v@[j]@,
        decreases v@.len() - i,
    {
        r.push(v[i].duplicate());
        i = i + 1;
    }
    assert(scalars_view(r@) =~= scalars_view(v@));
    r
}

impl FmValue {
    pub fn duplicate(&self) -> (r: FmValue)
        ensures
            r@ == self@,
    {
        match self {
            FmValue::Scalar(s) => FmValue::Scalar(s.duplicate()),
            FmValue::List(v) => FmValue::List(duplicate_scalars(v)),
        }
    }
}

/// A copy of `fm` with the same keys and values in the same order.
pub fn duplicate_fm(fm: &Fm) -> (r: Fm)
    ensures
        fm_view(r@) == fm_view(fm@),
{
    let mut r: Fm = Vec::new();
    let mut i: usize = 0;
    while i < fm.len()
        invariant
            i <= fm@.len(),
            r@.len() == i,
            forall|j: int|
                0 <= j < i ==> (#[trigger] r@[j]).0@ == fm@[j].0@ && r@[j].1@ == fm@[j].1@,
        decreases fm@.len() - i,
    {
        let e = &fm[i];
        r.push((e.0.clone(), e.1.duplicate()));
        i = i + 1;
    }
    assert(fm_view(r@) =~= fm_view(fm@));
    r
}

pub proof fn lemma_key_index_is(f: FmSpec, k: Seq<char>, i: int)
    requires
        0 <= i < f.len(),
        f[i].0 == k,
        forall|j: int| 0 <= j < i ==> f[j].0 != k,
    ensures
        key_index(f, k) == Some(i),
{
    let c = choose|c: int| 0 <= c < f.len() && f[c].0 == k && forall|j: int| 0 <= j < c ==> f[j].0 != k;
    assert(0 <= c < f.len() && f[c].0 == k);
    if c < i {
        assert(f[c].0 != k);
    }
    if c > i {
        assert(f[i].0 != k);
    }
}

/// `key_index` finds the first entry carrying the key, and finds none only
/// where no entry carries it.
pub proof fn lemma_key_index_found(f: FmSpec, k: Seq<char>)
    ensures
        key_index(f, k) matches Some(i) ==> 0 <= i < f.len() && f[i].0 == k && forall|j: int|
            0 <= j < i ==> f[j].0 != k,
        key_index(f, k) is None ==> forall|j: int| 0 <= j < f.len() ==> f[j].0 != k,
{
    if exists|i: int| 0 <= i < f.len() && f[i].0 == k {
        let w = choose|i: int| 0 <= i < f.len() && f[i].0 == k;
        lemma_first_key_from(f, k, w);
    }
}

proof fn lemma_first_key_from(f: FmSpec, k: Seq<char>, w: int)
    requires
        0 <= w < f.len(),
        f[w].0 == k,
    ensures
        key_index(f, k) matches Some(i) && 0 <= i < f.len() && f[i].0 == k && forall|j: int|
            0 <= j < i ==> f[j].0 != k,
    decreases w,
{
    if exists|j: int| 0 <= j < w && f[j].0 == k {
        let j = choose|j: int| 0 <= j < w && f[j].0 == k;
        lemma_first_key_from(f, k, j);
    } else {
        lemma_key_index_is(f, k, w);
    }
}

/// Two frontmatters with the same key at every position find every key at
/// the same position.
proof fn lemma_same_keys_same_index(f: FmSpec, g: FmSpec, q: Seq<char>)
    requires
        f.len() == g.len(),
        forall|j: int| 0 <= j < f.len() ==> #[trigger] f[j].0 == g[j].0,
    ensures
        key_index(g, q) == key_index(f, q),
{
    lemma_key_index_found(f, q);
    match key_index(f, q) {
        Some(m) => {
            assert forall|j: int| 0 <= j < m implies g[j].0 != q by {
                assert(f[j].0 == g[j].0);
            }
            assert(f[m].0 == g[m].0);
            lemma_key_index_is(g, q, m);
        },
        None => {
            assert forall|j: int| 0 <= j < g.len() implies g[j].0 != q by {
                assert(f[j].0 == g[j].0);
            }
            assert(!exists|j: int| 0 <= j < g.len() && g[j].0 == q);
        },
    }
}

/// A read gives back what a write wrote: after setting `k` to `v`, `k` reads
/// `v` and every other key reads what it read before; the key is added, at
/// the end, only where it was not there yet.
pub proof fn lemma_read_after_insert(fm: FmSpec, k: Seq<char>, v: FmView, other: Seq<char>)
    ensures
        fm_get(fm_insert(fm, k, v), k) == Some(v),
        other != k ==> fm_get(fm_insert(fm, k, v), other) == fm_get(fm, other),
        fm_insert(fm, k, v).len() == if fm_get(fm, k) is Some {
            fm.len()
        } else {
            fm.len() + 1
        },
{
    lemma_key_index_found(fm, k);
    lemma_key_index_found(fm, other);
    let g = fm_insert(fm, k, v);
    match key_index(fm, k) {
        Some(i) => {
            assert(g == fm.update(i, (k, v)));
            assert forall|j: int| 0 <= j < fm.len() implies #[trigger] fm[j].0 == g[j].0 by {}
            lemma_same_keys_same_index(fm, g, k);
            lemma_same_keys_same_index(fm, g, other);
            if other != k {
                match key_index(fm, other) {
                    Some(m) => {
                        assert(m != i);
                        assert(g[m] == fm[m]);
                    },
                    None => {},
                }
            }
        },
        None => {
            assert(g == fm.push((k, v)));
            assert forall|j: int| 0 <= j < fm.len() implies g[j].0 != k by {
                assert(g[j] == fm[j]);
            }
            lemma_key_index_is(g, k, fm.len() as int);
            if other != k {
                match key_index(fm, other) {
                    Some(m) => {
                        assert forall|j: int| 0 <= j < m implies g[j].0 != other by {
                            assert(g[j] == fm[j]);
                        }
                        assert(g[m] == fm[m]);
                        lemma_key_index_is(g, other, m);
                    },
                    None => {
                        assert forall|j: int| 0 <= j < g.len() implies g[j].0 != other by {
                            if j < fm.len() {
                                assert(g[j] == fm[j]);
                            }
                        }
                        assert(!exists|j: int| 0 <= j < g.len() && g[j].0 == other);
                    },
                }
            }
        },
    }
}

/// Where `k` first stands among the keys of `fm`.
pub fn find_key(fm: &Fm, k: &String) -> (r: Option<usize>)
    ensures
        match r {
            Some(i) => i < fm@.len() && fm@[i as int].0@ == k@ && key_index(fm_view(fm@), k@)
                == Some(i as int),
            None => key_index(fm_view(fm@), k@) is None,
        },
{
    let ghost f = fm_view(fm@);
    let mut i: usize = 0;
    while i < fm.len()
        invariant
            i <= fm@.len(),
            f == fm_view(fm@),
            forall|j: int| 0 <= j < i ==> f[j].0 != k@,
        decreases fm@.len() - i,
    {
        assert(f[i as int].0 == fm@[i as int].0@);
        if fm[i].0 == *k {
            proof {
                lemma_key_index_is(f, k@, i as int);
            }
            return Some(i);
        }
        i = i + 1;
    }
    None
}

/// The value `fm` holds under `k`.
pub fn fm_lookup<'a>(fm: &'a Fm, k: &String) -> (r: Option<&'a FmValue>)
    ensures
        match fm_get(fm_view(fm@), k@) {
            Some(v) => r matches Some(x) && x@ == v,
            None => r is None,
        },
{
    let ghost f = fm_view(fm@);
    match find_key(fm, k) {
        Some(i) => {
            assert(f[i as int].1 == fm@[i as int].1@);
            assert(fm_get(f, k@) == Some(f[i as int].1));
            Some(&fm[i].1)
        },
        None => None,
    }
}

/// Set `k` to `v` in `fm`.
pub fn fm_set(fm: &mut Fm, k: String, v: FmValue)
    ensures
        fm_view(final(fm)@) == fm_insert(fm_view(old(fm)@), k@, v@),
{
    match find_key(fm, &k) {
        Some(i) => {
            let ghost kv = k@;
            let ghost vv = v@;
            assert(key_index(fm_view(fm@), kv) == Some(i as int));
            fm.set(i, (k, v));
            assert(fm_view(fm@) =~= fm_view(old(fm)@).update(i as int, (kv, vv)));
        },
        None => {
            let ghost kv = k@;
            let ghost vv = v@;
            assert(key_index(fm_view(fm@), kv) is None);
            fm.push((k, v));
            assert(fm_view(fm@) =~= fm_view(old(fm)@).push((kv, vv)));
        },
    }
}

pub proof fn lemma_yaml_list_view(v: Seq<Yaml>)
    ensures
        yaml_list_view(v).len() == v.len(),
        forall|i: int| 0 <= i < v.len() ==> #[trigger] yaml_list_view(v)[i] == yaml_view(v[i]),
    decreases v.len(),
{
    if v.len() > 0 {
        lemma_yaml_list_view(v.drop_first());
        assert forall|i: int| 0 <= i < v.len() implies #[trigger] yaml_list_view(v)[i] == yaml_view(
            v[i],
        ) by {
            if i > 0 {
                assert(v.drop_first()[i - 1] == v[i]);
            }
        }
    }
}

pub proof fn lemma_yaml_map_view(m: Seq<(String, Yaml)>)
    ensures
        yaml_map_view(m).len() == m.len(),
        forall|i: int|
            0 <= i < m.len() ==> #[trigger] yaml_map_view(m)[i] == (m[i].0@, yaml_view(m[i].1)),
    decreases m.len(),
{
    if m.len() > 0 {
        lemma_yaml_map_view(m.drop_first());
        assert forall|i: int| 0 <= i < m.len() implies #[trigger] yaml_map_view(m)[i] == (
            m[i].0@,
            yaml_view(m[i].1),
        ) by {
            if i > 0 {
                assert(m.drop_first()[i - 1] == m[i]);
            }
        }
    }
}

pub proof fn lemma_insert_all_concat(fm: FmSpec, a: FmSpec, b: FmSpec)
    ensures
        fm_insert_all(fm, a + b) == fm_insert_all(fm_insert_all(fm, a), b),
    decreases a.len(),
{
    if a.len() == 0 {
        assert(a + b =~= b);
    } else {
        assert((a + b)[0] == a[0]);
        assert((a + b).drop_first() =~= a.drop_first() + b);
        lemma_insert_all_concat(fm_insert(fm, a[0].0, a[0].1), a.drop_first(), b);
    }
}

/// The scalar a YAML scalar node holds.
pub fn scalar_from(y: &Yaml) -> (r: Scalar)
    requires
        !is_compound(y@),
    ensures
        r@ == scalar_of(y@),
{
    match y {
        Yaml::Bool(b) => Scalar::Bool(*b),
        Yaml::Number(n) => Scalar::Number(n.clone()),
        Yaml::Str(t) => Scalar::Str(t.clone()),
        _ => Scalar::Null,
    }
}

/// `prefix[i]`.
pub fn index_key_exec(prefix: &Vec<char>, i: usize) -> (k: Vec<char>)
    ensures
        k@ == index_key(prefix@, i as nat),
{
    let mut k = prefix.clone();
    k.push('[');
    let d = crate::text::decimal_chars(i);
    crate::text::push_all(&mut k, &d);
    k.push(']');
    assert(k@ =~= index_key(prefix@, i as nat));
    k
}

/// `prefix.k`, or `k` alone below the empty prefix.
pub fn child_key_exec(prefix: &Vec<char>, k: &String) -> (r: Vec<char>)
    ensures
        r@ == child_key(prefix@, k@),
{
    let kc = crate::text::chars_of(k.as_str());
    if prefix.len() == 0 {
        kc
    } else {
        let mut r = prefix.clone();
        r.push('.');
        crate::text::push_all(&mut r, &kc);
        assert(r@ =~= child_key(prefix@, k@));
        r
    }
}

/// Set what `y` contributes below `prefix` into `out`, in order.
pub fn flatten_into(prefix: &Vec<char>, y: &Yaml, out: &mut Fm)
    ensures
        fm_view(final(out)@) == fm_insert_all(fm_view(old(out)@), flat(prefix@, y@)),
    decreases y,
{
    match y {
        Yaml::Mapping(m) => {
            let ghost es = yaml_map_view(m@);
            let ghost start = fm_view(out@);
            proof {
                lemma_yaml_map_view(m@);
                assert(es.subrange(0, es.len() as int) =~= es);
            }
            let mut i: usize = 0;
            while i < m.len()
                invariant
                    *y == Yaml::Mapping(*m),
                    start == fm_view(old(out)@),
                    i <= m@.len(),
                    es == yaml_map_view(m@),
                    es.len() == m@.len(),
                    forall|j: int|
                        0 <= j < m@.len() ==> #[trigger] es[j] == (m@[j].0@, yaml_view(m@[j].1)),
                    fm_insert_all(fm_view(out@), flat_entries(prefix@, es.subrange(i as int, es.len() as int)))
                        == fm_insert_all(start, flat_entries(prefix@, es)),
                decreases m@.len() - i,
            {
                let ghost before = fm_view(out@);
                let ghost rest = es.subrange(i as int, es.len() as int);
                assert(rest[0] == es[i as int]);
                assert(rest.drop_first() =~= es.subrange(i + 1, es.len() as int));
                proof {
                    lemma_insert_all_concat(before, flat(child_key(prefix@, es[i as int].0), es[i as int].1), flat_entries(prefix@, rest.drop_first()));
                }
                let key = child_key_exec(prefix, &m[i].0);
                proof {
                    assert(decreases_to!(*y => y->Mapping_0));
                    assert(decreases_to!(*m => m[i as int]));
                    assert(decreases_to!(m[i as int] => m[i as int].1));
                    assert(decreases_to!(*y => m[i as int].1));
                }
                flatten_into(&key, &m[i].1, out);
                i = i + 1;
            }
            assert(es.subrange(es.len() as int, es.len() as int) =~= Seq::<(Seq<char>, YamlView)>::empty());
            assert(y@ == YamlView::Mapping(es));
            assert(flat(prefix@, y@) == flat_entries(prefix@, es));
            assert(flat_entries(prefix@, es.subrange(i as int, es.len() as int)) =~= Seq::<(Seq<char>, FmView)>::empty());
            assert(fm_insert_all(fm_view(out@), Seq::<(Seq<char>, FmView)>::empty()) == fm_view(out@));
            assert(start == fm_view(old(out)@));
            assert(fm_view(out@) == fm_insert_all(start, flat_entries(prefix@, es)));
            assert(fm_view(out@) == fm_insert_all(fm_view(old(out)@), flat(prefix@, y@)));
        },
        Yaml::List(items) => {
            let ghost iv = yaml_list_view(items@);
            proof {
                lemma_yaml_list_view(items@);
            }
            let mut compound = false;
            let mut c: usize = 0;
            while c < items.len()
                invariant
                    c <= items@.len(),
                    iv == yaml_list_view(items@),
                    iv.len() == items@.len(),
                    forall|j: int| 0 <= j < items@.len() ==> #[trigger] iv[j] == yaml_view(items@[j]),
                    compound == exists|j: int| 0 <= j < c && is_compound(iv[j]),
                decreases items@.len() - c,
            {
                match &items[c] {
                    Yaml::List(_) | Yaml::Mapping(_) => {
                        assert(is_compound(iv[c as int]));
                        compound = true;
                    },
                    _ => {},
                }
                c = c + 1;
            }
            if compound {
                let ghost start = fm_view(out@);
                assert(iv.subrange(0, iv.len() as int) =~= iv);
                let mut i: usize = 0;
                while i < items.len()
                    invariant
                        *y == Yaml::List(*items),
                        i <= items@.len(),
                        iv == yaml_list_view(items@),
                        iv.len() == items@.len(),
                        forall|j: int| 0 <= j < items@.len() ==> #[trigger] iv[j] == yaml_view(items@[j]),
                        fm_insert_all(fm_view(out@), flat_items(prefix@, iv.subrange(i as int, iv.len() as int), i as nat))
                            == fm_insert_all(start, flat_items(prefix@, iv, 0)),
                    decreases items@.len() - i,
                {
                    let ghost before = fm_view(out@);
                    let ghost rest = iv.subrange(i as int, iv.len() as int);
                    assert(rest[0] == iv[i as int]);
                    assert(rest.drop_first() =~= iv.subrange(i + 1, iv.len() as int));
                    proof {
                        lemma_insert_all_concat(before, flat(index_key(prefix@, i as nat), iv[i as int]), flat_items(prefix@, rest.drop_first(), (i + 1) as nat));
                    }
                    let key = index_key_exec(prefix, i);
                    proof {
                        assert(decreases_to!(*y => y->List_0));
                        assert(decreases_to!(*items => items[i as int]));
                        assert(decreases_to!(*y => items[i as int]));
                    }
                    flatten_into(&key, &items[i], out);
                    i = i + 1;
                }
                assert(iv.subrange(iv.len() as int, iv.len() as int) =~= Seq::<YamlView>::empty());
                assert(fm_view(out@) == fm_insert_all(fm_view(old(out)@), flat(prefix@, y@)));
            } else if prefix.len() == 0 {
                assert(fm_view(out@) == fm_insert_all(fm_view(old(out)@), flat(prefix@, y@)));
            } else {
                let mut v: Vec<Scalar> = Vec::new();
                let mut i: usize = 0;
                while i < items.len()
                    invariant
                        i <= items@.len(),
                        iv == yaml_list_view(items@),
                        iv.len() == items@.len(),
                        forall|j: int| 0 <= j < items@.len() ==> #[trigger] iv[j] == yaml_view(items@[j]),
                        forall|j: int| 0 <= j < items@.len() ==> !is_compound(iv[j]),
                        v@.len() == i,
                        forall|j: int| 0 <= j < i ==> (#[trigger] v@[j])@ == scalar_of(iv[j]),
                    decreases items@.len() - i,
                {
                    assert(!is_compound(iv[i as int]));
                    v.push(scalar_from(&items[i]));
                    i = i + 1;
                }
                assert(scalars_view(v@) =~= iv.map_values(|e: YamlView| scalar_of(e)));
                let val = FmValue::List(v);
                let key = crate::text::string_of_all(prefix);
                let ghost before = fm_view(out@);
                let ghost kv = key@;
                let ghost vv = val@;
                fm_set(out, key, val);
                proof {
                    let e = flat(prefix@, y@);
                    assert(e.len() == 1 && e[0] == (kv, vv));
                    assert(e.drop_first() =~= Seq::<(Seq<char>, FmView)>::empty());
                    assert(fm_insert_all(fm_view(old(out)@), e) == fm_insert_all(fm_insert(fm_view(old(out)@), kv, vv), e.drop_first()));
                }
            }
        },
        _ => {
            assert(!is_compound(y@));
            if prefix.len() == 0 {
                assert(flat(prefix@, y@) =~= Seq::<(Seq<char>, FmView)>::empty());
            }
            if prefix.len() > 0 {
                let key = crate::text::string_of_all(prefix);
                let val = FmValue::Scalar(scalar_from(y));
                let ghost kv = key@;
                let ghost vv = val@;
                fm_set(out, key, val);
                proof {
                    let e = flat(prefix@, y@);
                    assert(e.len() == 1 && e[0] == (kv, vv));
                    assert(e.drop_first() =~= Seq::<(Seq<char>, FmView)>::empty());
                    assert(fm_insert_all(fm_view(old(out)@), e) == fm_insert_all(fm_insert(fm_view(old(out)@), kv, vv), e.drop_first()));
                }
            }
        },
    }
}

} // verus!
