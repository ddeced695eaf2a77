//! What `folio status` and `folio index` say about an index.

use vstd::prelude::*;

use crate::config::{Source, opt_str, source_label};
use crate::fm::{Fm, fm_view};
use crate::order::{insert_sorted, sorted_strict};
use crate::sections::{Section, opt_view, strings_view};
use crate::store::Counts;
use crate::text::{decimal, decimal_string, join, str_of};

verus! {

/// `k` is a frontmatter key of one of the records.
pub open spec fn carries_key(rows: Seq<(usize, Fm)>, k: Seq<char>) -> bool {
    exists|r: int, j: int|
        0 <= r < rows.len() && 0 <= j < rows[r].1@.len() && (#[trigger] rows[r].1@[j]).0@ == k
}

/// The frontmatter keys the records carry, each once, in order.
pub fn frontmatter_keys(rows: &Vec<(usize, Fm)>) -> (keys: Vec<String>)
    ensures
        sorted_strict(strings_view(keys@)),
        forall|k: Seq<char>| strings_view(keys@).contains(k) <==> carries_key(rows@, k),
{
    let mut keys: Vec<String> = Vec::new();
    let mut r: usize = 0;
    while r < rows.len()
        invariant
            r <= rows@.len(),
            sorted_strict(strings_view(keys@)),
            forall|k: Seq<char>| strings_view(keys@).contains(k) <==> exists|a: int, j: int|
                0 <= a < r && 0 <= j < rows@[a].1@.len() && (#[trigger] rows@[a].1@[j]).0@ == k,
        decreases rows@.len() - r,
    {
        let fm = &rows[r].1;
        let mut j: usize = 0;
        while j < fm.len()
            invariant
                r < rows@.len(),
                *fm == rows@[r as int].1,
                j <= fm@.len(),
                sorted_strict(strings_view(keys@)),
                forall|k: Seq<char>| strings_view(keys@).contains(k) <==> (exists|a: int, m: int|
                    0 <= a < r && 0 <= m < rows@[a].1@.len() && (#[trigger] rows@[a].1@[m]).0@ == k)
                    || (exists|m: int| 0 <= m < j && (#[trigger] fm@[m]).0@ == k),
            decreases fm@.len() - j,
        {
            let ghost before = strings_view(keys@);
            proof {
                assert(strings_view(keys@) == keys@.map_values(|s: String| s@));
            }
            insert_sorted(&mut keys, fm[j].0.clone());
            proof {
                assert(strings_view(keys@) == keys@.map_values(|s: String| s@));
                let after = strings_view(keys@);
                assert forall|k: Seq<char>| after.contains(k) <==> before.contains(k) || k == fm@[j as int].0@ by {
                    if after.contains(k) {
                        assert(after.to_set().contains(k));
                        assert(before.to_set().insert(fm@[j as int].0@).contains(k));
                    }
                    if before.contains(k) {
                        assert(before.to_set().contains(k));
                        assert(after.to_set().contains(k));
                    }
                    if k == fm@[j as int].0@ {
                        assert(before.to_set().insert(fm@[j as int].0@).contains(k));
                        assert(after.to_set().contains(k));
                    }
                }
            }
            j = j + 1;
        }
        proof {
            assert forall|k: Seq<char>| strings_view(keys@).contains(k) <==> exists|a: int, m: int|
                0 <= a < r + 1 && 0 <= m < rows@[a].1@.len() && (#[trigger] rows@[a].1@[m]).0@ == k by {
                if exists|m: int| 0 <= m < fm@.len() && (#[trigger] fm@[m]).0@ == k {
                    let m = choose|m: int| 0 <= m < fm@.len() && (#[trigger] fm@[m]).0@ == k;
                    assert(rows@[r as int].1@[m].0@ == k);
                }
                if exists|a: int, m: int|
                    0 <= a < r + 1 && 0 <= m < rows@[a].1@.len() && (#[trigger] rows@[a].1@[m]).0@ == k {
                    let (a, m) = choose|a: int, m: int|
                        0 <= a < r + 1 && 0 <= m < rows@[a].1@.len() && (#[trigger] rows@[a].1@[m]).0@ == k;
                    if a == r {
                        assert(fm@[m].0@ == k);
                    }
                }
            }
        }
        r = r + 1;
    }
    keys
}

/// The keys as `folio status` lists them.
pub open spec fn keys_line_spec(keys: Seq<Seq<char>>) -> Seq<char> {
    if keys.len() == 0 {
        "(none)"@
    } else {
        join(keys, ", "@)
    }
}

pub fn keys_line(keys: &Vec<String>) -> (r: String)
    ensures
        r@ == keys_line_spec(strings_view(keys@)),
{
    if keys.len() == 0 {
        return str_of("(none)");
    }
    let mut r = String::new();
    let mut k: usize = 0;
    assert(strings_view(keys@).subrange(0, 0) =~= Seq::<Seq<char>>::empty());
    while k < keys.len()
        invariant
            k <= keys@.len(),
            r@ == join(strings_view(keys@).subrange(0, k as int), ", "@),
        decreases keys@.len() - k,
    {
        let ghost before = r@;
        if k > 0 {
            r.append(", ");
        }
        r.append(keys[k].as_str());
        proof {
            let p = strings_view(keys@).subrange(0, k + 1);
            assert(p.drop_last() =~= strings_view(keys@).subrange(0, k as int));
            assert(p.last() == keys@[k as int]@);
            if k == 0 {
                assert(before == Seq::<char>::empty());
                assert(r@ =~= p[0]);
            }
        }
        k = k + 1;
    }
    assert(strings_view(keys@).subrange(0, keys@.len() as int) =~= strings_view(keys@));
    r
}

/// A corpus that declares another space than the one its index was built in:
/// a declared model or endpoint that is not the recorded one.
pub open spec fn differs_spec(
    decl_model: Option<Seq<char>>,
    decl_endpoint: Option<Seq<char>>,
    model: Seq<char>,
    endpoint: Seq<char>,
) -> bool {
    (decl_model is Some && decl_model->0 != model) || (decl_endpoint is Some && decl_endpoint->0
        != endpoint)
}

pub fn declaration_differs(
    decl_model: Option<&str>,
    decl_endpoint: Option<&str>,
    model: &str,
    endpoint: &str,
) -> (b: bool)
    ensures
        b == differs_spec(opt_str(decl_model), opt_str(decl_endpoint), model@, endpoint@),
{
    let m = model.to_owned();
    let e = endpoint.to_owned();
    let a = match decl_model {
        Some(d) => d.to_owned() != m,
        None => false,
    };
    let b = match decl_endpoint {
        Some(d) => d.to_owned() != e,
        None => false,
    };
    a || b
}

/// What a re-index did, for whoever asked for it to say so.
#[derive(Debug)]
pub struct Indexed {
    pub files: usize,
    pub sections: usize,
    pub truncated: usize,
    /// The budget these sections were cut at, which is `--max-chars` unless
    /// the endpoint refused it.
    pub budget: usize,
    pub dim: usize,
    pub reembedded: usize,
    pub moved: usize,
    pub retired: usize,
    pub dead: usize,
    pub compacted: usize,
}

/// The lines `folio index` prints: the totals, what this run did, and the
/// three things it says only when they happened.
pub open spec fn summary_spec(r: Indexed) -> Seq<Seq<char>> {
    seq![
        "indexed "@ + decimal(r.files as nat) + " files · "@ + decimal(r.sections as nat)
            + " sections · dim "@ + decimal(r.dim as nat),
        "  "@ + decimal(r.reembedded as nat) + " re-embedded, "@ + decimal(r.retired as nat)
            + " replaced or removed, "@ + decimal(r.dead as nat) + " dead row(s)"@,
    ] + (if r.moved > 0 {
        seq!["  "@ + decimal(r.moved as nat) + " moved, keeping the vectors they had"@]
    } else {
        Seq::empty()
    }) + (if r.truncated > 0 {
        seq![
            "  "@ + decimal(r.truncated as nat) + " sections truncated at "@ + decimal(
                r.budget as nat,
            ) + " characters"@,
        ]
    } else {
        Seq::empty()
    }) + (if r.compacted > 0 {
        seq!["  compacted: "@ + decimal(r.compacted as nat) + " dead row(s) reclaimed"@]
    } else {
        Seq::empty()
    })
}

impl Indexed {
    pub fn summary(&self) -> (lines: Vec<String>)
        ensures
            strings_view(lines@) == summary_spec(*self),
    {
        let mut lines: Vec<String> = Vec::new();
        let mut a = str_of("indexed ");
        a.append(decimal_string(self.files).as_str());
        a.append(" files · ");
        a.append(decimal_string(self.sections).as_str());
        a.append(" sections · dim ");
        a.append(decimal_string(self.dim).as_str());
        lines.push(a);
        let mut b = str_of("  ");
        b.append(decimal_string(self.reembedded).as_str());
        b.append(" re-embedded, ");
        b.append(decimal_string(self.retired).as_str());
        b.append(" replaced or removed, ");
        b.append(decimal_string(self.dead).as_str());
        b.append(" dead row(s)");
        lines.push(b);
        let ghost base = strings_view(lines@);
        if self.moved > 0 {
            let mut c = str_of("  ");
            c.append(decimal_string(self.moved).as_str());
            c.append(" moved, keeping the vectors they had");
            lines.push(c);
        }
        let ghost with_moved = strings_view(lines@);
        if self.truncated > 0 {
            let mut d = str_of("  ");
            d.append(decimal_string(self.truncated).as_str());
            d.append(" sections truncated at ");
            d.append(decimal_string(self.budget).as_str());
            d.append(" characters");
            lines.push(d);
        }
        let ghost with_cut = strings_view(lines@);
        if self.compacted > 0 {
            let mut e = str_of("  compacted: ");
            e.append(decimal_string(self.compacted).as_str());
            e.append(" dead row(s) reclaimed");
            lines.push(e);
        }
        assert(strings_view(lines@) =~= summary_spec(*self));
        lines
    }
}

/// The heading trail that names a section: the headings above it, then its
/// own, joined by ` > `.
pub open spec fn trail_spec(breadcrumb: Seq<Seq<char>>, heading: Option<Seq<char>>) -> Seq<char> {
    join(
        if heading is Some {
            breadcrumb.push(heading->0)
        } else {
            breadcrumb
        },
        " > "@,
    )
}

fn join_arrows(parts: &Vec<String>) -> (r: String)
    ensures
        r@ == join(strings_view(parts@), " > "@),
{
    let mut r = String::new();
    let mut k: usize = 0;
    assert(strings_view(parts@).subrange(0, 0) =~= Seq::<Seq<char>>::empty());
    while k < parts.len()
        invariant
            k <= parts@.len(),
            r@ == join(strings_view(parts@).subrange(0, k as int), " > "@),
        decreases parts@.len() - k,
    {
        let ghost before = r@;
        if k > 0 {
            r.append(" > ");
        }
        r.append(parts[k].as_str());
        proof {
            let p = strings_view(parts@).subrange(0, k + 1);
            assert(p.drop_last() =~= strings_view(parts@).subrange(0, k as int));
            assert(p.last() == parts@[k as int]@);
            if k == 0 {
                assert(before == Seq::<char>::empty());
                assert(r@ =~= p[0]);
            }
        }
        k = k + 1;
    }
    assert(strings_view(parts@).subrange(0, parts@.len() as int) =~= strings_view(parts@));
    r
}

pub fn trail(breadcrumb: &Vec<String>, heading: &Option<String>) -> (r: String)
    ensures
        r@ == trail_spec(strings_view(breadcrumb@), opt_view(*heading)),
{
    let mut parts = breadcrumb.clone();
    assert(parts@ == breadcrumb@);
    match heading {
        Some(h) => {
            parts.push(h.clone());
            assert(strings_view(parts@) =~= strings_view(breadcrumb@).push(h@));
        },
        None => {},
    }
    join_arrows(&parts)
}

/// A corpus's declaration, where it names a model or an endpoint.
pub struct Declared {
    pub model: Option<String>,
    pub endpoint: Option<String>,
    pub path: String,
}

/// The report `folio status` prints for an index: what it covers, the space
/// it was built in, the space the corpus declares where that is another one,
/// and the frontmatter keys its records carry.
pub open spec fn status_spec(
    root: Seq<char>,
    c: Counts,
    model: Seq<char>,
    endpoint: Seq<char>,
    dim: nat,
    declared: Option<(Option<Seq<char>>, Option<Seq<char>>, Seq<char>)>,
    keys: Seq<Seq<char>>,
) -> Seq<Seq<char>> {
    seq![
        root,
        "  files       "@ + decimal(c.files as nat),
        "  sections    "@ + decimal(c.sections as nat),
        "  truncated   "@ + decimal(c.truncated as nat),
        "  model       "@ + model + " @ "@ + endpoint,
    ] + (match declared {
        Some((dm, de, path)) => if differs_spec(dm, de, model, endpoint) {
            seq![
                "  declared    "@ + (if dm is Some { dm->0 } else { model }) + " @ "@ + (if de is Some {
                    de->0
                } else {
                    endpoint
                }) + "  ("@ + path + ")"@,
            ]
        } else {
            Seq::empty()
        },
        None => Seq::empty(),
    }) + seq!["  dim         "@ + decimal(dim), "  frontmatter "@ + keys_line_spec(keys)]
}

pub open spec fn declared_view(d: Option<Declared>) -> Option<(Option<Seq<char>>, Option<Seq<char>>, Seq<char>)> {
    match d {
        Some(x) => Some((opt_view(x.model), opt_view(x.endpoint), x.path@)),
        None => None,
    }
}

fn prefixed(p: &str, v: &str) -> (r: String)
    ensures
        r@ == p@ + v@,
{
    let mut r = p.to_owned();
    r.append(v);
    r
}

pub fn status_lines(
    root: &str,
    c: &Counts,
    model: &str,
    endpoint: &str,
    dim: usize,
    declared: &Option<Declared>,
    keys: &Vec<String>,
) -> (lines: Vec<String>)
    ensures
        strings_view(lines@) == status_spec(
            root@,
            *c,
            model@,
            endpoint@,
            dim as nat,
            declared_view(*declared),
            strings_view(keys@),
        ),
{
    let mut lines: Vec<String> = Vec::new();
    lines.push(root.to_owned());
    lines.push(prefixed("  files       ", decimal_string(c.files).as_str()));
    lines.push(prefixed("  sections    ", decimal_string(c.sections).as_str()));
    lines.push(prefixed("  truncated   ", decimal_string(c.truncated).as_str()));
    let mut m = prefixed("  model       ", model);
    m.append(" @ ");
    m.append(endpoint);
    lines.push(m);
    let ghost head = strings_view(lines@);
    match declared {
        Some(d) => {
            let dm = match &d.model {
                Some(x) => Some(x.as_str()),
                None => None,
            };
            let de = match &d.endpoint {
                Some(x) => Some(x.as_str()),
                None => None,
            };
            assert(opt_str(dm) == opt_view(d.model));
            assert(opt_str(de) == opt_view(d.endpoint));
            if declaration_differs(dm, de, model, endpoint) {
                let mut l = str_of("  declared    ");
                match dm {
                    Some(x) => l.append(x),
                    None => l.append(model),
                }
                l.append(" @ ");
                match de {
                    Some(x) => l.append(x),
                    None => l.append(endpoint),
                }
                l.append("  (");
                l.append(d.path.as_str());
                l.append(")");
                lines.push(l);
            }
        },
        None => {},
    }
    lines.push(prefixed("  dim         ", decimal_string(dim).as_str()));
    let k = keys_line(keys);
    lines.push(prefixed("  frontmatter ", k.as_str()));
    assert(strings_view(lines@) =~= status_spec(
        root@,
        *c,
        model@,
        endpoint@,
        dim as nat,
        declared_view(*declared),
        strings_view(keys@),
    ));
    lines
}

/// What `folio status --truncated` prints: that nothing was cut, or how many
/// sections were and where each is, with its heading trail beneath.
pub open spec fn cut_spec(total: nat, max_chars: nat, cut: Seq<Section>) -> Seq<Seq<char>> {
    if cut.len() == 0 {
        seq!["no section was cut at "@ + decimal(max_chars) + " characters"@]
    } else {
        seq![
            decimal(cut.len()) + " of "@ + decimal(total) + " sections were cut at --max-chars "@
                + decimal(max_chars) + ", and ranked on what was left:"@,
        ] + cut_rows(cut)
    }
}

pub open spec fn cut_rows(cut: Seq<Section>) -> Seq<Seq<char>>
    decreases cut.len(),
{
    if cut.len() == 0 {
        Seq::empty()
    } else {
        let s = cut.last();
        cut_rows(cut.drop_last()) + seq![
            "  "@ + s.path@ + ":"@ + decimal(s.start as nat) + "-"@ + decimal(s.end as nat),
            "        "@ + trail_spec(strings_view(s.breadcrumb@), opt_view(s.heading)),
        ]
    }
}

pub fn cut_lines(total: usize, max_chars: usize, cut: &Vec<Section>) -> (lines: Vec<String>)
    ensures
        strings_view(lines@) == cut_spec(total as nat, max_chars as nat, cut@),
{
    let mut lines: Vec<String> = Vec::new();
    if cut.len() == 0 {
        let mut l = prefixed("no section was cut at ", decimal_string(max_chars).as_str());
        l.append(" characters");
        lines.push(l);
        assert(strings_view(lines@) =~= cut_spec(total as nat, max_chars as nat, cut@));
        return lines;
    }
    let mut h = decimal_string(cut.len());
    h.append(" of ");
    h.append(decimal_string(total).as_str());
    h.append(" sections were cut at --max-chars ");
    h.append(decimal_string(max_chars).as_str());
    h.append(", and ranked on what was left:");
    lines.push(h);
    let ghost head = strings_view(lines@);
    let mut i: usize = 0;
    assert(cut_rows(cut@.subrange(0, 0)) =~= Seq::<Seq<char>>::empty()) by {
        assert(cut@.subrange(0, 0).len() == 0);
    }
    assert(strings_view(lines@) =~= head + cut_rows(cut@.subrange(0, 0)));
    while i < cut.len()
        invariant
            i <= cut@.len(),
            strings_view(lines@) == head + cut_rows(cut@.subrange(0, i as int)),
        decreases cut@.len() - i,
    {
        let s = &cut[i];
        let mut a = prefixed("  ", s.path.as_str());
        a.append(":");
        a.append(decimal_string(s.start).as_str());
        a.append("-");
        a.append(decimal_string(s.end).as_str());
        let t = trail(&s.breadcrumb, &s.heading);
        let b = prefixed("        ", t.as_str());
        let ghost before = strings_view(lines@);
        lines.push(a);
        lines.push(b);
        proof {
            let p = cut@.subrange(0, i + 1);
            assert(p.drop_last() =~= cut@.subrange(0, i as int));
            assert(p.last() == cut@[i as int]);
            assert(strings_view(lines@) =~= before.push(a@).push(b@));
        }
        i = i + 1;
    }
    assert(cut@.subrange(0, cut@.len() as int) =~= cut@);
    lines
}

/// `" (not written yet)"` after a config file that is not there.
pub open spec fn file_line(label: Seq<char>, path: Seq<char>, exists: bool) -> Seq<char> {
    "  "@ + label + "    "@ + path + (if exists { Seq::empty() } else { "  (not written yet)"@ })
}

/// What `folio config` prints: each setting with where it came from, whether
/// a key is configured (never the key), and where each config file is.
pub open spec fn config_spec(
    endpoint: Seq<char>,
    e_src: Source,
    model: Seq<char>,
    m_src: Source,
    k_src: Source,
    project: Seq<char>,
    project_exists: bool,
    user: Seq<char>,
    user_exists: bool,
) -> Seq<Seq<char>> {
    seq![
        "  endpoint  "@ + endpoint + "  ("@ + source_label(e_src) + ")"@,
        "  model     "@ + model + "  ("@ + source_label(m_src) + ")"@,
    ] + (if k_src != Source::Nothing {
        seq!["  api_key   [configured]  ("@ + source_label(k_src) + ")"@]
    } else {
        Seq::empty()
    }) + seq![
        file_line("corpus"@, project, project_exists),
        file_line("user  "@, user, user_exists),
        Seq::empty(),
        "`folio query` uses whatever the index recorded; run `folio status` for that."@,
    ]
}

fn setting_line(head: &str, value: &str, src: Source) -> (r: String)
    ensures
        r@ == head@ + value@ + "  ("@ + source_label(src) + ")"@,
{
    let mut r = head.to_owned();
    r.append(value);
    r.append("  (");
    r.append(src.label());
    r.append(")");
    r
}

fn file_line_exec(label: &str, path: &str, exists: bool) -> (r: String)
    ensures
        r@ == file_line(label@, path@, exists),
{
    let mut r = str_of("  ");
    r.append(label);
    r.append("    ");
    r.append(path);
    if !exists {
        r.append("  (not written yet)");
    }
    r
}

pub fn config_lines(
    endpoint: &str,
    e_src: Source,
    model: &str,
    m_src: Source,
    k_src: Source,
    project: &str,
    project_exists: bool,
    user: &str,
    user_exists: bool,
) -> (lines: Vec<String>)
    ensures
        strings_view(lines@) == config_spec(
            endpoint@,
            e_src,
            model@,
            m_src,
            k_src,
            project@,
            project_exists,
            user@,
            user_exists,
        ),
{
    let mut lines: Vec<String> = Vec::new();
    lines.push(setting_line("  endpoint  ", endpoint, e_src));
    lines.push(setting_line("  model     ", model, m_src));
    if k_src != Source::Nothing {
        let mut k = str_of("  api_key   [configured]  (");
        k.append(k_src.label());
        k.append(")");
        lines.push(k);
    }
    lines.push(file_line_exec("corpus", project, project_exists));
    lines.push(file_line_exec("user  ", user, user_exists));
    lines.push(String::new());
    lines.push(str_of("`folio query` uses whatever the index recorded; run `folio status` for that."));
    assert(strings_view(lines@) =~= config_spec(
        endpoint@,
        e_src,
        model@,
        m_src,
        k_src,
        project@,
        project_exists,
        user@,
        user_exists,
    ));
    lines
}

/// What `folio doctor` says before it asks the endpoint anything: which
/// endpoint and model it is testing, and whether a key goes with them.
pub open spec fn doctor_spec(endpoint: Seq<char>, e_src: Source, model: Seq<char>, k_src: Source) -> Seq<Seq<char>> {
    seq![
        "  endpoint   "@ + endpoint + "  ("@ + source_label(e_src) + ")"@,
        "  model      "@ + model,
    ] + (if k_src != Source::Nothing {
        seq!["  api_key    [configured]  ("@ + source_label(k_src) + ")"@]
    } else {
        Seq::empty()
    })
}

pub fn doctor_header(endpoint: &str, e_src: Source, model: &str, k_src: Source) -> (lines: Vec<String>)
    ensures
        strings_view(lines@) == doctor_spec(endpoint@, e_src, model@, k_src),
{
    let mut lines: Vec<String> = Vec::new();
    lines.push(setting_line("  endpoint   ", endpoint, e_src));
    let mut m = str_of("  model      ");
    m.append(model);
    lines.push(m);
    if k_src != Source::Nothing {
        let mut k = str_of("  api_key    [configured]  (");
        k.append(k_src.label());
        k.append(")");
        lines.push(k);
    }
    assert(strings_view(lines@) =~= doctor_spec(endpoint@, e_src, model@, k_src));
    lines
}

/// What `folio extract` says it did.
pub open spec fn extract_spec(files: nat, sections: nat, into: Seq<char>, model: Seq<char>, endpoint: Seq<char>) -> Seq<Seq<char>> {
    seq![
        "extracted "@ + decimal(files) + " files · "@ + decimal(sections) + " sections into "@ + into,
        "  model       "@ + model + " @ "@ + endpoint,
    ]
}

pub fn extract_summary(files: usize, sections: usize, into: &str, model: &str, endpoint: &str) -> (lines: Vec<String>)
    ensures
        strings_view(lines@) == extract_spec(files as nat, sections as nat, into@, model@, endpoint@),
{
    let mut a = str_of("extracted ");
    a.append(decimal_string(files).as_str());
    a.append(" files · ");
    a.append(decimal_string(sections).as_str());
    a.append(" sections into ");
    a.append(into);
    let mut b = str_of("  model       ");
    b.append(model);
    b.append(" @ ");
    b.append(endpoint);
    let mut lines: Vec<String> = Vec::new();
    lines.push(a);
    lines.push(b);
    assert(strings_view(lines@) =~= extract_spec(files as nat, sections as nat, into@, model@, endpoint@));
    lines
}

/// The line ranges already answered, so that a section two roots hold is
/// returned once.
pub struct Seen {
    ranges: Vec<(String, usize, usize)>,
}

pub open spec fn range_view(r: (String, usize, usize)) -> (Seq<char>, usize, usize) {
    (r.0@, r.1, r.2)
}

impl View for Seen {
    type V = Seq<(Seq<char>, usize, usize)>;

    closed spec fn view(&self) -> Seq<(Seq<char>, usize, usize)> {
        self.ranges@.map_values(|r: (String, usize, usize)| range_view(r))
    }
}

impl Seen {
    pub fn new() -> (s: Seen)
        ensures
            s@.len() == 0,
    {
        let s = Seen { ranges: Vec::new() };
        assert(s@ =~= Seq::<(Seq<char>, usize, usize)>::empty());
        s
    }

    /// Whether the range is answered for the first time; it is remembered
    /// either way.
    pub fn first_time(&mut self, path: String, start: usize, end: usize) -> (first: bool)
        ensures
            first == !old(self)@.contains((path@, start, end)),
            first ==> final(self)@ == old(self)@.push((path@, start, end)),
            !first ==> final(self)@ == old(self)@,
    {
        let ghost v = self@;
        let mut i: usize = 0;
        while i < self.ranges.len()
            invariant
                i <= self.ranges@.len(),
                v == self@,
                v == self.ranges@.map_values(|r: (String, usize, usize)| range_view(r)),
                forall|j: int| 0 <= j < i ==> v[j] != (path@, start, end),
            decreases self.ranges@.len() - i,
        {
            assert(v[i as int] == range_view(self.ranges@[i as int]));
            if self.ranges[i].0 == path && self.ranges[i].1 == start && self.ranges[i].2 == end {
                assert(v[i as int] == (path@, start, end));
                return false;
            }
            i = i + 1;
        }
        let ghost key = (path@, start, end);
        self.ranges.push((path, start, end));
        proof {
            assert(self@ =~= v.push(key));
        }
        true
    }
}

} // verus!
