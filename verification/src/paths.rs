//! Where an index lives, which corpus a command is standing in, and what a
//! prefix of paths names.
//!
//! Paths are held as text. What only the filesystem can answer (whether a
//! name is there, what a path resolves to) is asked of it through the
//! functions at the top of this file, and nothing is promised of their answers
//! beyond where they were asked.

use vstd::prelude::*;

use crate::config::{trim_char, trim_char_end, trim_char_start};
use crate::sections::{opt_view, strings_view};
use crate::text::{chars_of, starts_with, str_of, string_of};

verus! {

/// The ancestors of a path, itself first, as `Path::ancestors` yields them.
pub uninterp spec fn spec_ancestors(path: Seq<char>) -> Seq<Seq<char>>;

/// `Path::ancestors`: the path, then each parent in turn up to the root.
#[verifier::external_body]
fn ancestors(path: &str) -> (r: Vec<String>)
    ensures
        strings_view(r@) == spec_ancestors(path@),
{
    std::path::Path::new(path).ancestors().map(|a| a.to_string_lossy().into_owned()).collect()
}

/// `Path::exists`. What is on disk decides, so nothing is promised of it.
#[verifier::external_body]
fn exists_on_disk(path: &str) -> (r: bool) {
    std::path::Path::new(path).exists()
}

/// `Path::is_dir`. What is on disk decides, so nothing is promised of it.
#[verifier::external_body]
fn is_dir_on_disk(path: &str) -> (r: bool) {
    std::path::Path::new(path).is_dir()
}

/// A path that starts at the root.
pub open spec fn is_absolute(p: Seq<char>) -> bool {
    p.len() > 0 && p[0] == '/'
}

/// `Path::canonicalize`, or nothing where it fails. What is on disk decides
/// whether it resolves and to what; its documentation promises that what it
/// gives is the path's absolute form, which on Unix starts at the root.
#[verifier::external_body]
fn canonical(path: &str) -> (r: Option<String>)
    ensures
        r matches Some(c) ==> is_absolute(c@),
{
    std::path::Path::new(path).canonicalize().ok().map(|p| p.to_string_lossy().into_owned())
}

/// `b` appended to `a` as a path: an absolute `b` replaces `a`, and a
/// separator goes between the two unless `a` is empty or already ends in one.
pub open spec fn join_spec(a: Seq<char>, b: Seq<char>) -> Seq<char> {
    if b.len() > 0 && b[0] == '/' {
        b
    } else if a.len() > 0 && a.last() != '/' {
        a + seq!['/'] + b
    } else {
        a + b
    }
}

/// `b` appended to `a` as a path.
pub fn join_path(a: &str, b: &str) -> (r: String)
    ensures
        r@ == join_spec(a@, b@),
{
    let av = chars_of(a);
    let bv = chars_of(b);
    if bv.len() > 0 && bv[0] == '/' {
        return b.to_owned();
    }
    let mut r = a.to_owned();
    if av.len() > 0 && av[av.len() - 1] != '/' {
        r.append("/");
        proof {
            reveal_strlit("/");
        }
    }
    r.append(b);
    r
}

/// The database of the index under `root`.
pub open spec fn db_path_spec(root: Seq<char>) -> Seq<char> {
    join_spec(join_spec(root, ".folio"@), "index.db"@)
}

/// The vector matrix of the index under `root`.
pub open spec fn vectors_path_spec(root: Seq<char>) -> Seq<char> {
    join_spec(join_spec(root, ".folio"@), "vectors.f32"@)
}

pub fn db_path(root: &str) -> (r: String)
    ensures
        r@ == db_path_spec(root@),
{
    let dir = join_path(root, crate::store::DIR);
    proof {
        reveal_strlit(".folio");
    }
    assert(crate::store::DIR@ == ".folio"@);
    join_path(dir.as_str(), "index.db")
}

pub fn vectors_path(root: &str) -> (r: String)
    ensures
        r@ == vectors_path_spec(root@),
{
    let dir = join_path(root, crate::store::DIR);
    proof {
        reveal_strlit(".folio");
    }
    assert(crate::store::DIR@ == ".folio"@);
    join_path(dir.as_str(), "vectors.f32")
}

/// An index's files stand side by side under one directory of the corpus:
/// for a root that does not end in a separator, that directory is
/// `<root>/.folio`.
pub proof fn lemma_index_files_sit_together(root: Seq<char>)
    requires
        root.len() > 0,
        root.last() != '/',
    ensures
        db_path_spec(root) == root + "/.folio/index.db"@,
        vectors_path_spec(root) == root + "/.folio/vectors.f32"@,
{
    reveal_strlit(".folio");
    reveal_strlit("index.db");
    reveal_strlit("vectors.f32");
    reveal_strlit("/.folio/index.db");
    reveal_strlit("/.folio/vectors.f32");
    let dir = root + seq!['/'] + ".folio"@;
    assert(join_spec(root, ".folio"@) == dir);
    assert(dir.last() == 'o');
    assert(db_path_spec(root) =~= root + "/.folio/index.db"@);
    assert(vectors_path_spec(root) =~= root + "/.folio/vectors.f32"@);
}

/// The first of `dirs` whose answer in `marks` is yes: the nearest one, when
/// `dirs` runs upward from a path. A directory past the last answer counts as
/// answered no.
pub open spec fn first_marked_spec(dirs: Seq<Seq<char>>, marks: Seq<bool>) -> Option<Seq<char>>
    decreases dirs.len(),
{
    if dirs.len() == 0 || marks.len() == 0 {
        None
    } else if marks[0] {
        Some(dirs[0])
    } else {
        first_marked_spec(dirs.drop_first(), marks.drop_first())
    }
}

/// The first marked directory is the nearest: it is marked, and every
/// directory before it is not; and where none is found, none is marked.
pub proof fn lemma_first_marked_is_nearest(dirs: Seq<Seq<char>>, marks: Seq<bool>)
    ensures
        first_marked_spec(dirs, marks) matches Some(d) ==> exists|i: int|
            0 <= i < dirs.len() && i < marks.len() && marks[i] && dirs[i] == d && forall|j: int|
                0 <= j < i ==> !marks[j],
        first_marked_spec(dirs, marks) is None ==> forall|i: int|
            0 <= i < dirs.len() && i < marks.len() ==> !marks[i],
    decreases dirs.len(),
{
    if dirs.len() > 0 && marks.len() > 0 && !marks[0] {
        lemma_first_marked_is_nearest(dirs.drop_first(), marks.drop_first());
        if first_marked_spec(dirs, marks) is Some {
            let i = choose|i: int|
                0 <= i < dirs.drop_first().len() && i < marks.drop_first().len()
                    && marks.drop_first()[i] && dirs.drop_first()[i] == first_marked_spec(dirs, marks)->0
                    && forall|j: int| 0 <= j < i ==> !marks.drop_first()[j];
            assert(marks[i + 1] && dirs[i + 1] == first_marked_spec(dirs, marks)->0);
            assert forall|j: int| 0 <= j < i + 1 implies !marks[j] by {
                if j > 0 {
                    assert(marks[j] == marks.drop_first()[j - 1]);
                }
            }
        } else {
            assert forall|i: int| 0 <= i < dirs.len() && i < marks.len() implies !marks[i] by {
                if i > 0 {
                    assert(marks[i] == marks.drop_first()[i - 1]);
                }
            }
        }
    }
}

/// The first of `dirs` that `marks` answers yes for.
pub fn first_marked(dirs: &Vec<String>, marks: &Vec<bool>) -> (r: Option<String>)
    ensures
        opt_view(r) == first_marked_spec(strings_view(dirs@), marks@),
{
    let ghost d = strings_view(dirs@);
    let mut i: usize = 0;
    assert(d.subrange(0, d.len() as int) =~= d);
    assert(marks@.subrange(0, marks@.len() as int) =~= marks@);
    while i < dirs.len() && i < marks.len()
        invariant
            i <= dirs@.len(),
            i <= marks@.len(),
            d == strings_view(dirs@),
            first_marked_spec(d, marks@) == first_marked_spec(
                d.subrange(i as int, d.len() as int),
                marks@.subrange(i as int, marks@.len() as int),
            ),
        decreases dirs@.len() - i,
    {
        let ghost ds = d.subrange(i as int, d.len() as int);
        let ghost ms = marks@.subrange(i as int, marks@.len() as int);
        assert(ds[0] == dirs@[i as int]@);
        assert(ms[0] == marks@[i as int]);
        if marks[i] {
            return Some(dirs[i].clone());
        }
        assert(ds.drop_first() =~= d.subrange(i + 1, d.len() as int));
        assert(ms.drop_first() =~= marks@.subrange(i + 1, marks@.len() as int));
        i = i + 1;
    }
    None
}

/// The corpus a command answers from when none was named: upward from
/// `start` to the first directory holding either `.folio/` or `folio.yaml`.
///
/// Whether a directory holds either is the filesystem's answer; `marks`
/// stands for those answers, nearest first, as far as the walk asked.
pub fn corpus_root_from(start: &str) -> (r: Option<String>)
    ensures
        exists|marks: Seq<bool>| opt_view(r) == first_marked_spec(spec_ancestors(start@), marks),
{
    let anc = ancestors(start);
    let mut marks: Vec<bool> = Vec::new();
    let mut found = false;
    let mut i: usize = 0;
    while i < anc.len() && !found
        invariant
            i <= anc@.len(),
        decreases anc@.len() - i,
    {
        let dir = &anc[i];
        let index = join_path(dir.as_str(), crate::store::DIR);
        let declared = join_path(dir.as_str(), crate::config::PROJECT_CONFIG);
        found = exists_on_disk(index.as_str()) || exists_on_disk(declared.as_str());
        marks.push(found);
        i = i + 1;
    }
    let r = first_marked(&anc, &marks);
    assert(opt_view(r) == first_marked_spec(spec_ancestors(start@), marks@));
    r
}

/// The absolute form of `path` the filesystem resolves it to, or the path
/// itself when it does not resolve.
fn canonical_or_same(path: &str) -> (r: String)
    ensures
        r@ == path@ || is_absolute(r@),
{
    match canonical(path) {
        Some(c) => c,
        None => path.to_owned(),
    }
}

/// Where a `folio.yaml` would stand in each of `dirs`.
pub open spec fn declarations(dirs: Seq<Seq<char>>) -> Seq<Seq<char>> {
    dirs.map_values(|a: Seq<char>| join_spec(a, "folio.yaml"@))
}

/// The `folio.yaml` that governs `dir`: the nearest one at or above it, once
/// `dir` is made absolute.
///
/// The filesystem decides the absolute form (`c`, which is `dir` itself where
/// it does not resolve) and which files exist (`marks`, nearest first).
pub fn nearest_declaration(dir: &str) -> (r: Option<String>)
    ensures
        exists|c: Seq<char>, marks: Seq<bool>|
            (c == dir@ || is_absolute(c)) && opt_view(r) == first_marked_spec(
                declarations(spec_ancestors(c)),
                marks,
            ),
{
    let c = canonical_or_same(dir);
    let anc = ancestors(c.as_str());
    let mut cands: Vec<String> = Vec::new();
    let mut i: usize = 0;
    proof {
        reveal_strlit("folio.yaml");
    }
    assert(crate::config::PROJECT_CONFIG@ == "folio.yaml"@);
    while i < anc.len()
        invariant
            i <= anc@.len(),
            crate::config::PROJECT_CONFIG@ == "folio.yaml"@,
            strings_view(cands@) == declarations(strings_view(anc@).subrange(0, i as int)),
        decreases anc@.len() - i,
    {
        let p = join_path(anc[i].as_str(), crate::config::PROJECT_CONFIG);
        let ghost before = strings_view(cands@);
        cands.push(p);
        proof {
            assert(strings_view(cands@) =~= before.push(p@));
            assert(strings_view(anc@).subrange(0, i + 1) =~= strings_view(anc@).subrange(0, i as int).push(anc@[i as int]@));
            assert(declarations(strings_view(anc@).subrange(0, i + 1)) =~= declarations(strings_view(anc@).subrange(0, i as int)).push(join_spec(anc@[i as int]@, "folio.yaml"@)));
        }
        i = i + 1;
    }
    assert(strings_view(anc@).subrange(0, anc@.len() as int) =~= strings_view(anc@));
    let mut marks: Vec<bool> = Vec::new();
    let mut found = false;
    let mut k: usize = 0;
    while k < cands.len() && !found
        invariant
            k <= cands@.len(),
        decreases cands@.len() - k,
    {
        found = exists_on_disk(cands[k].as_str());
        marks.push(found);
        k = k + 1;
    }
    let r = first_marked(&cands, &marks);
    assert(opt_view(r) == first_marked_spec(declarations(spec_ancestors(c@)), marks@));
    r
}

/// The directories strictly above a path, nearest first, from its ancestors.
pub open spec fn above(anc: Seq<Seq<char>>) -> Seq<Seq<char>> {
    if anc.len() == 0 {
        anc
    } else {
        anc.drop_first()
    }
}

/// The index strictly above `root`, when `root` is indexed inside another
/// corpus: the nearest ancestor other than `root` itself holding `.folio/`.
/// An index at `root` itself is the one about to be updated.
///
/// The filesystem decides the absolute form (`c`, which is `root` itself where
/// it does not resolve) and which directories hold an index (`marks`).
pub fn enclosing_index(root: &str) -> (r: Option<String>)
    ensures
        exists|c: Seq<char>, marks: Seq<bool>|
            (c == root@ || is_absolute(c)) && opt_view(r) == first_marked_spec(
                above(spec_ancestors(c)),
                marks,
            ),
{
    let c = canonical_or_same(root);
    let anc = ancestors(c.as_str());
    let mut ups: Vec<String> = Vec::new();
    let mut i: usize = 1;
    assert(anc@.len() > 0 ==> strings_view(ups@) =~= strings_view(anc@).subrange(1, 1));
    while i < anc.len()
        invariant
            1 <= i,
            i <= anc@.len() || anc@.len() == 0,
            anc@.len() > 0 ==> strings_view(ups@) == strings_view(anc@).subrange(1, i as int),
            anc@.len() == 0 ==> ups@.len() == 0,
        decreases anc@.len() - i,
    {
        let ghost before = strings_view(ups@);
        ups.push(anc[i].clone());
        proof {
            assert(strings_view(ups@) =~= strings_view(anc@).subrange(1, i + 1));
        }
        i = i + 1;
    }
    assert(strings_view(ups@) =~= above(strings_view(anc@))) by {
        if anc@.len() > 0 {
            assert(strings_view(anc@).drop_first() =~= strings_view(anc@).subrange(1, anc@.len() as int));
        }
    }
    let mut marks: Vec<bool> = Vec::new();
    let mut found = false;
    let mut k: usize = 0;
    while k < ups.len() && !found
        invariant
            k <= ups@.len(),
        decreases ups@.len() - k,
    {
        let index = join_path(ups[k].as_str(), crate::store::DIR);
        found = is_dir_on_disk(index.as_str());
        marks.push(found);
        k = k + 1;
    }
    let r = first_marked(&ups, &marks);
    assert(opt_view(r) == first_marked_spec(above(spec_ancestors(c@)), marks@));
    r
}

/// A root found, or `.` where none was.
pub open spec fn or_dot(found: Option<Seq<char>>) -> Seq<char> {
    match found {
        Some(d) => d,
        None => "."@,
    }
}

/// The root a command answers from: the one found, or the working
/// directory's `.` where none was.
pub fn root_or_dot(found: Option<String>) -> (r: String)
    ensures
        r@ == or_dot(opt_view(found)),
{
    match found {
        Some(d) => d,
        None => str_of("."),
    }
}

/// The roots a command answers from: those named, or else the corpus around
/// `cwd` (the working directory, where it could be read), or else `.`.
pub fn roots_or_enclosing(named: Vec<String>, cwd: Option<&str>) -> (r: Vec<String>)
    ensures
        named@.len() > 0 ==> r@ == named@,
        named@.len() == 0 ==> r@.len() == 1,
        named@.len() == 0 && cwd is None ==> r@[0]@ == "."@,
        named@.len() == 0 && cwd is Some ==> exists|marks: Seq<bool>|
            r@[0]@ == or_dot(first_marked_spec(spec_ancestors(cwd->0@), marks)),
{
    if named.len() > 0 {
        return named;
    }
    let found = match cwd {
        Some(w) => corpus_root_from(w),
        None => None,
    };
    let root = root_or_dot(found);
    let mut r = Vec::new();
    r.push(root);
    r
}

/// What a prefix names: the subtree under it, written with one separator at
/// its end and none at its start.
pub open spec fn subtree_spec(prefix: Seq<char>) -> Seq<char> {
    trim_char(prefix, '/') + seq!['/']
}

fn trim_slashes(s: &Vec<char>) -> (r: (usize, usize))
    ensures
        r.0 <= r.1 <= s@.len(),
        s@.subrange(r.0 as int, r.1 as int) == trim_char(s@, '/'),
{
    let mut a: usize = 0;
    assert(s@.subrange(0, s@.len() as int) =~= s@);
    while a < s.len() && s[a] == '/'
        invariant
            a <= s@.len(),
            trim_char_start(s@, '/') == trim_char_start(s@.subrange(a as int, s@.len() as int), '/'),
        decreases s@.len() - a,
    {
        assert(s@.subrange(a as int, s@.len() as int).drop_first() =~= s@.subrange(
            a + 1,
            s@.len() as int,
        ));
        a = a + 1;
    }
    assert(trim_char_start(s@.subrange(a as int, s@.len() as int), '/') == s@.subrange(
        a as int,
        s@.len() as int,
    )) by {
        if a < s.len() {
            assert(s@.subrange(a as int, s@.len() as int)[0] == s@[a as int]);
        }
    }
    let mut b = s.len();
    while b > a && s[b - 1] == '/'
        invariant
            a <= b <= s@.len(),
            trim_char(s@, '/') == trim_char_end(s@.subrange(a as int, b as int), '/'),
        decreases b - a,
    {
        assert(s@.subrange(a as int, b as int).drop_last() =~= s@.subrange(a as int, b - 1));
        b = b - 1;
    }
    assert(trim_char_end(s@.subrange(a as int, b as int), '/') == s@.subrange(a as int, b as int))
        by {
        if a < b {
            assert(s@.subrange(a as int, b as int).last() == s@[b - 1]);
        }
    }
    (a, b)
}

/// What a prefix means: the subtree it names, and not the names it starts.
pub fn subtree(prefix: &str) -> (r: String)
    ensures
        r@ == subtree_spec(prefix@),
{
    let s = chars_of(prefix);
    let (a, b) = trim_slashes(&s);
    let mut r = string_of(s.as_slice(), a, b);
    r.append("/");
    proof {
        reveal_strlit("/");
    }
    r
}

/// A prefix names a subtree and not the names it starts: a path is under
/// `subtree(k)` exactly when it starts with `k`, slashes trimmed, and a
/// separator follows. `keep` takes `keep/a.md` and leaves `keeper.md`.
pub proof fn lemma_subtree_not_names(path: Seq<char>, k: Seq<char>)
    ensures
        starts_with(path, subtree_spec(k)) <==> ({
            let t = trim_char(k, '/');
            starts_with(path, t) && path.len() > t.len() && path[t.len() as int] == '/'
        }),
{
    let t = trim_char(k, '/');
    let u = subtree_spec(k);
    if starts_with(path, u) {
        assert(path.subrange(0, t.len() as int) =~= u.subrange(0, t.len() as int));
        assert(u.subrange(0, t.len() as int) =~= t);
        assert(path[t.len() as int] == path.subrange(0, u.len() as int)[t.len() as int]);
    }
    if starts_with(path, t) && path.len() > t.len() && path[t.len() as int] == '/' {
        assert(path.subrange(0, u.len() as int) =~= u);
    }
}

proof fn lemma_trim_start_slash_prefix(p: Seq<char>)
    ensures
        trim_char_start(seq!['/'] + p, '/') == trim_char_start(p, '/'),
{
    assert((seq!['/'] + p).drop_first() =~= p);
}

proof fn lemma_trim_start_push(p: Seq<char>)
    ensures
        trim_char_start(p.push('/'), '/') == (if trim_char_start(p, '/').len() == 0 {
            Seq::<char>::empty()
        } else {
            trim_char_start(p, '/').push('/')
        }),
    decreases p.len(),
{
    if p.len() == 0 {
        assert(p.push('/') =~= seq!['/']);
        assert(seq!['/'].drop_first() =~= Seq::<char>::empty());
        assert(trim_char_start(Seq::<char>::empty(), '/') == Seq::<char>::empty());
        assert(trim_char_start(seq!['/'], '/') == trim_char_start(Seq::<char>::empty(), '/'));
    } else if p[0] == '/' {
        assert(p.push('/')[0] == '/');
        assert(p.push('/').drop_first() =~= p.drop_first().push('/'));
        lemma_trim_start_push(p.drop_first());
    } else {
        assert(p.push('/')[0] == p[0]);
    }
}

/// A separator written at either end of a prefix names the same subtree.
pub proof fn lemma_subtree_ignores_slashes(p: Seq<char>)
    ensures
        subtree_spec(seq!['/'] + p) == subtree_spec(p),
        subtree_spec(p.push('/')) == subtree_spec(p),
{
    lemma_trim_start_slash_prefix(p);
    lemma_trim_start_push(p);
    let s = trim_char_start(p, '/');
    if s.len() > 0 {
        assert(s.push('/').drop_last() =~= s);
    }
}

/// `path` with the subtree `under` taken off its front.
pub fn strip_under(path: &String, under: &String) -> (r: Option<String>)
    ensures
        match r {
            Some(rel) => starts_with(path@, under@) && rel@ == path@.subrange(
                under@.len() as int,
                path@.len() as int,
            ),
            None => !starts_with(path@, under@),
        },
{
    let p = chars_of(path.as_str());
    let u = chars_of(under.as_str());
    assert(p@.subrange(0, p@.len() as int) =~= p@);
    if crate::text::starts_with_at(&p, 0, p.len(), &u) {
        Some(string_of(p.as_slice(), u.len(), p.len()))
    } else {
        None
    }
}

} // verus!
