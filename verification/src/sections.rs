//! Splitting a markdown file into heading sections, and flattening its
//! frontmatter into filterable keys.

use vstd::prelude::*;

use crate::fm::{
    Fm, FmSpec, duplicate_fm, flatten_doc, flatten_into, fm_insert_all, fm_view, parse_yaml,
    spec_parse_yaml,
};
use crate::lines::{join_lines_string, lines_of, lines_view, split_lines};
use crate::text::{
    is_blank, is_ws, join, lemma_blank_iff_all_ws, lemma_join_holds_piece, lemma_join_split, starts_with,
    trim, trim_end, trim_start,
};

verus! {

/// One indexed unit. Holds a reference to a range of a file, never its body.
#[derive(Debug, Clone)]
pub struct Section {
    pub path: String,
    /// 1-indexed inclusive line range in the source file.
    pub start: usize,
    pub end: usize,
    pub heading: Option<String>,
    pub breadcrumb: Vec<String>,
    /// Frontmatter, flattened to dotted keys. Any producer key is kept as-is.
    pub fm: Fm,
    pub truncated: bool,
    /// Section text, used only to build the vector.
    pub text: String,
}

pub ghost struct SectionView {
    pub path: Seq<char>,
    pub start: int,
    pub end: int,
    pub heading: Option<Seq<char>>,
    pub breadcrumb: Seq<Seq<char>>,
    pub fm: FmSpec,
    pub truncated: bool,
    pub text: Seq<char>,
}

pub open spec fn strings_view(v: Seq<String>) -> Seq<Seq<char>> {
    v.map_values(|s: String| s@)
}

pub open spec fn opt_view(o: Option<String>) -> Option<Seq<char>> {
    match o {
        Some(s) => Some(s@),
        None => None,
    }
}

impl View for Section {
    type V = SectionView;

    open spec fn view(&self) -> SectionView {
        SectionView {
            path: self.path@,
            start: self.start as int,
            end: self.end as int,
            heading: opt_view(self.heading),
            breadcrumb: strings_view(self.breadcrumb@),
            fm: fm_view(self.fm@),
            truncated: self.truncated,
            text: self.text@,
        }
    }
}

pub open spec fn sections_view(v: Seq<Section>) -> Seq<SectionView> {
    v.map_values(|s: Section| s@)
}

/// A flag that is not set, which a serialised record leaves out.
pub fn is_false(b: &bool) -> (r: bool)
    ensures
        r == !*b,
{
    !*b
}

/// How many `#` a line opens with.
pub open spec fn hashes(l: Seq<char>) -> nat
    decreases l.len(),
{
    if l.len() > 0 && l[0] == '#' {
        1 + hashes(l.drop_first())
    } else {
        0
    }
}

/// An ATX heading: one to six `#` followed by a space, and its trimmed title.
pub open spec fn atx_spec(l: Seq<char>) -> Option<(nat, Seq<char>)> {
    let level = hashes(l);
    if level == 0 || level > 6 {
        None
    } else {
        let rest = l.subrange(level as int, l.len() as int);
        if rest.len() > 0 && rest[0] == ' ' {
            Some((level, trim(rest)))
        } else {
            None
        }
    }
}

pub proof fn lemma_hashes(l: Seq<char>, i: int)
    requires
        0 <= i <= l.len(),
        forall|j: int| 0 <= j < i ==> l[j] == '#',
    ensures
        hashes(l) == i + hashes(l.subrange(i, l.len() as int)),
    decreases i,
{
    if i > 0 {
        lemma_hashes(l.drop_first(), i - 1);
        assert(l.drop_first().subrange(i - 1, l.len() - 1) =~= l.subrange(i, l.len() as int));
    } else {
        assert(l.subrange(0, l.len() as int) =~= l);
    }
}

/// An ATX heading: one to six `#` followed by a space. Deliberately strict, so
/// a `#!` shebang or a `#tag` does not open a section.
pub fn atx(line: &Vec<char>) -> (r: Option<(usize, String)>)
    ensures
        match atx_spec(line@) {
            Some((level, title)) => r matches Some((l, t)) && l == level && t@ == title,
            None => r is None,
        },
{
    let n = line.len();
    let mut level: usize = 0;
    while level < n && line[level] == '#'
        invariant
            level <= n == line@.len(),
            forall|j: int| 0 <= j < level ==> line@[j] == '#',
        decreases n - level,
    {
        level = level + 1;
    }
    proof {
        lemma_hashes(line@, level as int);
        if level < n {
            assert(line@.subrange(level as int, n as int)[0] == line@[level as int]);
        }
    }
    if level == 0 || level > 6 {
        return None;
    }
    if level >= n || line[level] != ' ' {
        assert(level < n ==> line@.subrange(level as int, n as int)[0] == line@[level as int]);
        return None;
    }
    let (a, b) = crate::text::trim_range(line, level, n);
    Some((level, crate::text::string_of(line.as_slice(), a, b)))
}

/// A line that opens or closes a fenced block.
pub open spec fn is_fence(l: Seq<char>) -> bool {
    starts_with(trim_start(l), seq!['`', '`', '`']) || starts_with(trim_start(l), seq!['~', '~', '~'])
}

pub fn is_fence_exec(l: &Vec<char>) -> (b: bool)
    ensures
        b == is_fence(l@),
{
    let n = l.len();
    let i = crate::text::skip_ws(l, 0, n);
    assert(l@.subrange(0, n as int) =~= l@);
    let ticks = vec!['`', '`', '`'];
    let tildes = vec!['~', '~', '~'];
    crate::text::starts_with_at(l, i, n, &ticks) || crate::text::starts_with_at(l, i, n, &tildes)
}

/// A line of three dashes, ignoring what trails them.
pub open spec fn is_dashes(l: Seq<char>) -> bool {
    trim_end(l) == seq!['-', '-', '-']
}

pub fn is_dashes_exec(l: &Vec<char>) -> (b: bool)
    ensures
        b == is_dashes(l@),
{
    let n = l.len();
    let e = crate::text::back_ws(l, 0, n);
    assert(l@.subrange(0, n as int) =~= l@);
    assert(trim_end(l@).len() == e);
    if e != 3 {
        assert(trim_end(l@).len() != seq!['-', '-', '-'].len());
        return false;
    }
    let r = l[0] == '-' && l[1] == '-' && l[2] == '-';
    assert(r == (l@.subrange(0, 3) =~= seq!['-', '-', '-']));
    r
}

/// The line that closes a frontmatter block opened on the first line.
pub open spec fn fm_close(lines: Seq<Seq<char>>) -> Option<int> {
    if exists|i: int| 1 <= i < lines.len() && is_dashes(lines[i]) {
        Some(
            choose|i: int|
                1 <= i < lines.len() && is_dashes(lines[i]) && forall|j: int|
                    1 <= j < i ==> !is_dashes(lines[j]),
        )
    } else {
        None
    }
}

/// The index of the first body line: after a frontmatter block that opens on
/// the first line and closes, and the first line otherwise.
pub open spec fn fm_body_start(lines: Seq<Seq<char>>) -> int {
    if lines.len() == 0 || !is_dashes(lines[0]) {
        0
    } else {
        match fm_close(lines) {
            None => 0,
            Some(c) => c + 1,
        }
    }
}

/// The flattened frontmatter. A block that does not open on the first line or
/// never closes is not frontmatter; one that does not parse contributes no keys.
pub open spec fn fm_keys(lines: Seq<Seq<char>>) -> FmSpec {
    if lines.len() == 0 || !is_dashes(lines[0]) {
        Seq::empty()
    } else {
        match fm_close(lines) {
            None => Seq::empty(),
            Some(c) => match spec_parse_yaml(join(lines.subrange(1, c), seq!['\n'])) {
                Some(y) => flatten_doc(y),
                None => Seq::empty(),
            },
        }
    }
}

pub open spec fn fm_spec(lines: Seq<Seq<char>>) -> (FmSpec, int) {
    (fm_keys(lines), fm_body_start(lines))
}

pub proof fn lemma_fm_close(lines: Seq<Seq<char>>)
    ensures
        fm_close(lines) matches Some(c) ==> 1 <= c < lines.len() && is_dashes(lines[c])
            && forall|j: int| 1 <= j < c ==> !is_dashes(lines[j]),
{
    if exists|i: int| 1 <= i < lines.len() && is_dashes(lines[i]) {
        let w = choose|i: int| 1 <= i < lines.len() && is_dashes(lines[i]);
        lemma_first_dashes_exists(lines, w);
    }
}

pub proof fn lemma_first_dashes_exists(lines: Seq<Seq<char>>, w: int)
    requires
        1 <= w < lines.len(),
        is_dashes(lines[w]),
    ensures
        exists|i: int|
            1 <= i < lines.len() && is_dashes(lines[i]) && forall|j: int|
                1 <= j < i ==> !is_dashes(lines[j]),
    decreases w,
{
    if exists|j: int| 1 <= j < w && is_dashes(lines[j]) {
        let j = choose|j: int| 1 <= j < w && is_dashes(lines[j]);
        lemma_first_dashes_exists(lines, j);
    } else {
        assert(forall|j: int| 1 <= j < w ==> !is_dashes(lines[j]));
    }
}

/// Returns the flattened frontmatter and the index of the first body line.
pub fn frontmatter(lines: &Vec<Vec<char>>) -> (r: (Fm, usize))
    ensures
        fm_view(r.0@) == fm_spec(lines_view(lines@)).0,
        r.1 == fm_spec(lines_view(lines@)).1,
        r.1 <= lines@.len(),
{
    let ghost lv = lines_view(lines@);
    if lines.len() == 0 || !is_dashes_exec(&lines[0]) {
        assert(lines@.len() > 0 ==> lv[0] == lines@[0]@);
        return (Vec::new(), 0);
    }
    assert(lv[0] == lines@[0]@);
    let mut c: usize = 1;
    while c < lines.len() && !is_dashes_exec(&lines[c])
        invariant
            1 <= c <= lines@.len(),
            lv == lines_view(lines@),
            forall|j: int| 1 <= j < c ==> !is_dashes(lv[j]),
        decreases lines@.len() - c,
    {
        assert(lv[c as int] == lines@[c as int]@);
        c = c + 1;
    }
    if c == lines.len() {
        assert(fm_close(lv) is None);
        return (Vec::new(), 0);
    }
    proof {
        assert(lv[c as int] == lines@[c as int]@);
        let k = choose|i: int|
            1 <= i < lv.len() && is_dashes(lv[i]) && forall|j: int| 1 <= j < i ==> !is_dashes(lv[j]);
        if k < c {
            assert(!is_dashes(lv[k]));
        }
        if k > c {
            assert(!is_dashes(lv[c as int]));
        }
        assert(fm_close(lv) == Some(c as int));
    }
    let text = join_lines_string(lines, 1, c);
    let mut flat: Fm = Vec::new();
    match parse_yaml(text.as_str()) {
        Some(y) => {
            let empty: Vec<char> = Vec::new();
            assert(fm_view(flat@) =~= Seq::<(Seq<char>, crate::fm::FmView)>::empty());
            assert(empty@ =~= Seq::<char>::empty());
            flatten_into(&empty, &y, &mut flat);
            assert(fm_view(flat@) == flatten_doc(y@)) by {
                reveal(flatten_doc);
            }
        },
        None => {},
    }
    (flat, c + 1)
}

/// A heading that opens a section: its line, its level and its title.
pub type HeadSpec = (int, nat, Seq<char>);

/// The headings from line `i` on, skipping what a fence encloses.
pub open spec fn heads_from(lines: Seq<Seq<char>>, i: int, fenced: bool) -> Seq<HeadSpec>
    decreases lines.len() - i,
{
    if i < 0 || i >= lines.len() {
        Seq::empty()
    } else if is_fence(lines[i]) {
        heads_from(lines, i + 1, !fenced)
    } else if fenced {
        heads_from(lines, i + 1, fenced)
    } else {
        match atx_spec(lines[i]) {
            Some((level, title)) => seq![(i, level, title)] + heads_from(lines, i + 1, fenced),
            None => heads_from(lines, i + 1, fenced),
        }
    }
}

/// The open headings with everything at `level` or deeper closed.
pub open spec fn pop_ge(stack: Seq<(nat, Seq<char>)>, level: nat) -> Seq<(nat, Seq<char>)>
    decreases stack.len(),
{
    if stack.len() > 0 && stack.last().0 >= level {
        pop_ge(stack.drop_last(), level)
    } else {
        stack
    }
}

/// The headings still open when heading `k` is reached.
pub open spec fn stack_before(heads: Seq<HeadSpec>, k: int) -> Seq<(nat, Seq<char>)>
    decreases k,
{
    if k <= 0 {
        Seq::empty()
    } else {
        pop_ge(stack_before(heads, k - 1), heads[k - 1].1).push((heads[k - 1].1, heads[k - 1].2))
    }
}

/// The heading trail above heading `k`.
pub open spec fn crumbs(heads: Seq<HeadSpec>, k: int) -> Seq<Seq<char>> {
    pop_ge(stack_before(heads, k), heads[k].1).map_values(|e: (nat, Seq<char>)| e.1)
}

pub open spec fn mk_spec(
    path: Seq<char>,
    from: int,
    to: int,
    heading: Option<Seq<char>>,
    breadcrumb: Seq<Seq<char>>,
    fm: FmSpec,
    lines: Seq<Seq<char>>,
) -> SectionView {
    SectionView {
        path,
        start: from + 1,
        end: to,
        heading,
        breadcrumb,
        fm,
        truncated: false,
        text: join(lines.subrange(from, to), seq!['\n']),
    }
}

/// The section that a file holds before its first heading, when that holds
/// anything but whitespace.
pub open spec fn preamble(path: Seq<char>, lines: Seq<Seq<char>>, fm: FmSpec, b: int, first: int) -> Seq<SectionView> {
    if exists|j: int| b <= j < first && !is_blank(lines[j]) {
        seq![mk_spec(path, b, first, None, Seq::empty(), fm, lines)]
    } else {
        Seq::empty()
    }
}

/// Where heading `k`'s section ends: at the next heading, or the end of the file.
pub open spec fn head_end(heads: Seq<HeadSpec>, k: int, n: int) -> int {
    if k + 1 < heads.len() {
        heads[k + 1].0
    } else {
        n
    }
}

/// The sections of a file: what precedes the first heading if it holds text,
/// then one per heading, each running to the next heading and carrying the
/// titles of the headings it sits under.
pub open spec fn split_spec(path: Seq<char>, source: Seq<char>) -> Seq<SectionView> {
    let lines = lines_of(source);
    let fm = fm_spec(lines).0;
    let b = fm_spec(lines).1;
    let heads = heads_from(lines, b, false);
    let first = if heads.len() > 0 {
        heads[0].0
    } else {
        lines.len() as int
    };
    preamble(path, lines, fm, b, first) + Seq::new(
        heads.len(),
        |k: int| head_section(path, heads, k, fm, lines),
    )
}

/// The section heading `k` opens.
pub open spec fn head_section(path: Seq<char>, heads: Seq<HeadSpec>, k: int, fm: FmSpec, lines: Seq<Seq<char>>) -> SectionView {
    mk_spec(
        path,
        heads[k].0,
        head_end(heads, k, lines.len() as int),
        Some(heads[k].2),
        crumbs(heads, k),
        fm,
        lines,
    )
}

pub open spec fn heads_view(h: Seq<(usize, usize, String)>) -> Seq<HeadSpec> {
    h.map_values(|e: (usize, usize, String)| (e.0 as int, e.1 as nat, e.2@))
}

pub proof fn lemma_heads_bounds(lines: Seq<Seq<char>>, i: int, fenced: bool)
    requires
        0 <= i,
    ensures
        forall|k: int|
            0 <= k < heads_from(lines, i, fenced).len() ==> i <= #[trigger] heads_from(
                lines,
                i,
                fenced,
            )[k].0 < lines.len(),
        forall|k: int, m: int|
            0 <= k < m < heads_from(lines, i, fenced).len() ==> heads_from(lines, i, fenced)[k].0
                < heads_from(lines, i, fenced)[m].0,
    decreases lines.len() - i,
{
    if i < lines.len() {
        if is_fence(lines[i]) {
            lemma_heads_bounds(lines, i + 1, !fenced);
            assert(heads_from(lines, i, fenced) == heads_from(lines, i + 1, !fenced));
        } else {
            lemma_heads_bounds(lines, i + 1, fenced);
            if fenced || atx_spec(lines[i]) is None {
                assert(heads_from(lines, i, fenced) == heads_from(lines, i + 1, fenced));
            }
            if !fenced {
                match atx_spec(lines[i]) {
                    Some((level, title)) => {
                        let r = heads_from(lines, i + 1, fenced);
                        let all = heads_from(lines, i, fenced);
                        assert(all == seq![(i, level, title)] + r);
                        assert forall|k: int| 0 < k < all.len() implies #[trigger] all[k] == r[k - 1] by {}
                        assert(all[0].0 == i);
                        assert forall|k: int, m: int| 0 <= k < m < all.len() implies all[k].0 < all[m].0 by {
                            if k > 0 {
                                assert(all[k] == r[k - 1]);
                            }
                            assert(all[m] == r[m - 1]);
                        }
                    },
                    None => {},
                }
            }
        }
    }
}

/// Each heading found is an ATX heading line, with the level and title that
/// line gives.
pub proof fn lemma_heads_are_headings(lines: Seq<Seq<char>>, i: int, fenced: bool)
    ensures
        forall|k: int|
            0 <= k < heads_from(lines, i, fenced).len() ==> atx_spec(
                lines[(#[trigger] heads_from(lines, i, fenced)[k]).0],
            ) == Some((heads_from(lines, i, fenced)[k].1, heads_from(lines, i, fenced)[k].2)),
    decreases lines.len() - i,
{
    if 0 <= i < lines.len() {
        if is_fence(lines[i]) {
            lemma_heads_are_headings(lines, i + 1, !fenced);
        } else {
            lemma_heads_are_headings(lines, i + 1, fenced);
            if !fenced {
                match atx_spec(lines[i]) {
                    Some((level, title)) => {
                        let r = heads_from(lines, i + 1, fenced);
                        let all = heads_from(lines, i, fenced);
                        assert(all == seq![(i, level, title)] + r);
                        assert forall|k: int| 0 < k < all.len() implies #[trigger] all[k] == r[k - 1] by {}
                    },
                    None => {},
                }
            }
        }
    }
}

/// Closing headings only shortens the stack of open ones, from its top.
pub proof fn lemma_pop_ge_prefix(stack: Seq<(nat, Seq<char>)>, level: nat)
    ensures
        pop_ge(stack, level).len() <= stack.len(),
        forall|i: int| 0 <= i < pop_ge(stack, level).len() ==> #[trigger] pop_ge(stack, level)[i] == stack[i],
        (forall|i: int| 0 <= i < stack.len() ==> stack[i].0 >= level) ==> pop_ge(stack, level).len() == 0,
    decreases stack.len(),
{
    if stack.len() > 0 && stack.last().0 >= level {
        lemma_pop_ge_prefix(stack.drop_last(), level);
        if forall|i: int| 0 <= i < stack.len() ==> stack[i].0 >= level {
            assert forall|i: int| 0 <= i < stack.drop_last().len() implies stack.drop_last()[i].0 >= level by {
                assert(stack.drop_last()[i] == stack[i]);
            }
        }
    } else if stack.len() > 0 {
        assert(stack[stack.len() - 1] == stack.last());
    }
}

/// Every heading open when heading `k` is reached has a level of one or more,
/// where every heading does.
pub proof fn lemma_stack_levels(heads: Seq<HeadSpec>, k: int)
    requires
        0 <= k <= heads.len(),
        forall|m: int| 0 <= m < heads.len() ==> (#[trigger] heads[m]).1 >= 1,
    ensures
        forall|i: int| 0 <= i < stack_before(heads, k).len() ==> (#[trigger] stack_before(heads, k)[i]).0 >= 1,
    decreases k,
{
    if k > 0 {
        lemma_stack_levels(heads, k - 1);
        let prev = stack_before(heads, k - 1);
        let popped = pop_ge(prev, heads[k - 1].1);
        lemma_pop_ge_prefix(prev, heads[k - 1].1);
        assert(stack_before(heads, k) == popped.push((heads[k - 1].1, heads[k - 1].2)));
        assert forall|i: int| 0 <= i < stack_before(heads, k).len() implies (#[trigger] stack_before(heads, k)[i]).0 >= 1 by {
            if i < popped.len() {
                assert(popped[i] == prev[i]);
            }
        }
    }
}

/// One section's record.
pub fn mk(
    path: &String,
    from: usize,
    to: usize,
    heading: Option<String>,
    breadcrumb: Vec<String>,
    fm: &Fm,
    lines: &Vec<Vec<char>>,
) -> (s: Section)
    requires
        from < to <= lines@.len(),
    ensures
        s@ == mk_spec(
            path@,
            from as int,
            to as int,
            opt_view(heading),
            strings_view(breadcrumb@),
            fm_view(fm@),
            lines_view(lines@),
        ),
{
    let text = join_lines_string(lines, from, to);
    Section {
        path: path.clone(),
        start: from + 1,
        end: to,
        heading,
        breadcrumb,
        fm: duplicate_fm(fm),
        truncated: false,
        text,
    }
}

pub proof fn lemma_pop_ge_step(stack: Seq<(nat, Seq<char>)>, level: nat)
    requires
        stack.len() > 0,
        stack.last().0 >= level,
    ensures
        pop_ge(stack, level) == pop_ge(stack.drop_last(), level),
{
}

/// Split `source` into sections. The frontmatter block is excluded from every
/// range and attached to each section as `fm`.
pub fn split(path: &str, source: &str) -> (out: Vec<Section>)
    ensures
        sections_view(out@) == split_spec(path@, source@),
{
    let path_s = crate::text::str_of(path);
    let src = crate::text::chars_of(source);
    let lines = split_lines(&src);
    let ghost lv = lines_view(lines@);
    assert(lv == lines_of(source@));
    let (fm, b) = frontmatter(&lines);
    let ghost fmv = fm_view(fm@);
    let n = lines.len();

    let mut heads: Vec<(usize, usize, String)> = Vec::new();
    let mut fenced = false;
    let mut i = b;
    assert(heads_view(heads@) + heads_from(lv, b as int, false) =~= heads_from(lv, b as int, false));
    while i < n
        invariant
            b <= i <= n == lines@.len(),
            lv == lines_view(lines@),
            heads_view(heads@) + heads_from(lv, i as int, fenced) == heads_from(lv, b as int, false),
        decreases n - i,
    {
        assert(lv[i as int] == lines@[i as int]@);
        if is_fence_exec(&lines[i]) {
            fenced = !fenced;
        } else if !fenced {
            match atx(&lines[i]) {
                Some((level, title)) => {
                    proof {
                        let h = (i as int, level as nat, title@);
                        assert(heads_view(heads@.push((i, level, title))) =~= heads_view(heads@).push(h));
                        assert(heads_view(heads@).push(h) + heads_from(lv, i + 1, fenced) =~= heads_view(heads@) + (seq![h] + heads_from(lv, i + 1, fenced)));
                    }
                    heads.push((i, level, title));
                },
                None => {},
            }
        }
        i = i + 1;
    }
    let ghost hv = heads_view(heads@);
    proof {
        assert(heads_from(lv, n as int, fenced) =~= Seq::<HeadSpec>::empty());
        assert(hv =~= heads_from(lv, b as int, false));
        lemma_heads_bounds(lv, b as int, false);
    }

    let first = if heads.len() > 0 {
        heads[0].0
    } else {
        n
    };
    assert(first as int == (if hv.len() > 0 { hv[0].0 } else { lv.len() as int }));
    let mut out: Vec<Section> = Vec::new();
    let mut j = b;
    let mut any = false;
    while j < first && !any
        invariant
            b <= j <= first <= n == lines@.len(),
            lv == lines_view(lines@),
            any ==> exists|m: int| b <= m < first && !is_blank(lv[m]),
            !any ==> forall|m: int| b <= m < j ==> is_blank(lv[m]),
        decreases first - j,
    {
        let l = &lines[j];
        assert(l@.subrange(0, l@.len() as int) =~= l@);
        assert(lv[j as int] == l@);
        if !crate::text::blank_range(l, 0, l.len()) {
            any = true;
        }
        j = j + 1;
    }
    let ghost pre = preamble(path@, lv, fmv, b as int, first as int);
    if any {
        let none: Vec<String> = Vec::new();
        assert(strings_view(none@) =~= Seq::<Seq<char>>::empty());
        let s = mk(&path_s, b, first, None, none, &fm, &lines);
        out.push(s);
        assert(sections_view(out@) =~= pre);
    } else {
        assert(sections_view(out@) =~= pre);
    }

    let mut stack: Vec<(usize, String)> = Vec::new();
    let mut k: usize = 0;
    assert(sections_view(out@) =~= pre + Seq::new(0, |m: int| head_section(path@, hv, m, fmv, lv)));
    while k < heads.len()
        invariant
            k <= heads@.len(),
            path_s@ == path@,
            hv == heads_view(heads@),
            n == lines@.len(),
            lv == lines_view(lines@),
            fmv == fm_view(fm@),
            forall|m: int| 0 <= m < hv.len() ==> b <= #[trigger] hv[m].0 < n,
            forall|m: int, o: int| 0 <= m < o < hv.len() ==> hv[m].0 < hv[o].0,
            stack_view(stack@) == stack_before(hv, k as int),
            sections_view(out@) == pre + Seq::new(k as nat, |m: int| head_section(path@, hv, m, fmv, lv)),
        decreases heads@.len() - k,
    {
        let level = heads[k].1;
        let ghost s0 = stack_view(stack@);
        assert(hv[k as int] == (heads@[k as int].0 as int, level as nat, heads@[k as int].2@));
        while stack.len() > 0 && stack[stack.len() - 1].0 >= level
            invariant
                pop_ge(stack_view(stack@), level as nat) == pop_ge(s0, level as nat),
            decreases stack@.len(),
        {
            proof {
                let sv = stack_view(stack@);
                assert(sv.last().0 == stack@[stack@.len() - 1].0);
                lemma_pop_ge_step(sv, level as nat);
                assert(stack_view(stack@.drop_last()) =~= sv.drop_last());
            }
            stack.pop();
        }
        let ghost popped = stack_view(stack@);
        assert(popped == pop_ge(s0, level as nat));
        let mut crumbs_v: Vec<String> = Vec::new();
        let mut c: usize = 0;
        while c < stack.len()
            invariant
                c <= stack@.len(),
                popped == stack_view(stack@),
                crumbs_v@.len() == c,
                forall|m: int| 0 <= m < c ==> (#[trigger] crumbs_v@[m])@ == popped[m].1,
            decreases stack@.len() - c,
        {
            crumbs_v.push(stack[c].1.clone());
            c = c + 1;
        }
        assert(strings_view(crumbs_v@) =~= crumbs(hv, k as int));
        let end = if k + 1 < heads.len() {
            heads[k + 1].0
        } else {
            n
        };
        let (i0, _, title) = &heads[k];
        assert(hv[k as int].0 == *i0 as int);
        assert(k + 1 < heads@.len() ==> hv[k + 1].0 == end as int);
        assert(*i0 < end);
        assert(end as int == head_end(hv, k as int, n as int));
        assert(title@ == hv[k as int].2);
        let ghost cv = strings_view(crumbs_v@);
        let t2 = title.clone();
        let sec = mk(&path_s, *i0, end, Some(t2), crumbs_v, &fm, &lines);
        assert(sec@.path == path@);
        assert(sec@.start == hv[k as int].0 + 1);
        assert(sec@.end == head_end(hv, k as int, n as int));
        assert(sec@.heading == Some(hv[k as int].2));
        assert(sec@.breadcrumb == crumbs(hv, k as int));
        assert(sec@.fm == fmv);
        assert(sec@.text == join(lv.subrange(hv[k as int].0, head_end(hv, k as int, n as int)), seq!['\n']));
        assert(sec@ == head_section(path@, hv, k as int, fmv, lv));
        let ghost before = sections_view(out@);
        let ghost sv = sec@;
        out.push(sec);
        assert(sections_view(out@) =~= before.push(sv));
        assert(before.push(sv) =~= pre + Seq::new((k + 1) as nat, |m: int| head_section(path@, hv, m, fmv, lv)));
        stack.push((level, title.clone()));
        assert(stack_view(stack@) =~= stack_before(hv, k + 1));
        k = k + 1;
    }
    out
}

pub open spec fn stack_view(s: Seq<(usize, String)>) -> Seq<(nat, Seq<char>)> {
    s.map_values(|e: (usize, String)| (e.0 as nat, e.1@))
}

/// What splitting a file promises: every section is a non-empty range of
/// lines after the frontmatter block, each starting on the line after the
/// previous one ended, the last ending on the file's last line, and every
/// section carrying the same frontmatter.
#[verifier::spinoff_prover]
#[verifier::rlimit(50)]
pub proof fn lemma_split_contiguous(path: Seq<char>, source: Seq<char>)
    ensures
        ({
            let out = split_spec(path, source);
            let lines = lines_of(source);
            let b = fm_spec(lines).1;
            &&& forall|k: int| 0 <= k < out.len() ==> b + 1 <= (#[trigger] out[k]).start <= out[k].end
                <= lines.len()
            &&& forall|k: int| 0 <= k < out.len() - 1 ==> #[trigger] out[k].end + 1 == out[k + 1].start
            &&& out.len() > 0 ==> out.last().end == lines.len()
            &&& forall|k: int| 0 <= k < out.len() ==> (#[trigger] out[k]).fm == fm_spec(lines).0
            &&& forall|k: int| 0 <= k < out.len() ==> (#[trigger] out[k]).path == path
        }),
{
    let out = split_spec(path, source);
    let lines = lines_of(source);
    let fm = fm_spec(lines).0;
    let b = fm_spec(lines).1;
    lemma_fm_spec_bound(lines);
    let heads = heads_from(lines, b, false);
    lemma_heads_bounds(lines, b, false);
    let first = if heads.len() > 0 { heads[0].0 } else { lines.len() as int };
    let pre = preamble(path, lines, fm, b, first);
    let hs = Seq::new(heads.len(), |k: int| head_section(path, heads, k, fm, lines));
    assert(out == pre + hs);
    assert forall|k: int| 0 <= k < hs.len() implies b + 1 <= (#[trigger] hs[k]).start <= hs[k].end <= lines.len()
        && (k + 1 < hs.len() ==> hs[k].end + 1 == hs[k + 1].start) by {
        if k + 1 < heads.len() {
            assert(heads[k].0 < heads[k + 1].0);
        }
    }
    if pre.len() > 0 {
        let j = choose|j: int| b <= j < first && !is_blank(lines[j]);
        assert(b < first);
    }
    assert forall|k: int| 0 <= k < out.len() implies b + 1 <= (#[trigger] out[k]).start <= out[k].end
        <= lines.len() by {
        if k >= pre.len() {
            assert(out[k] == hs[k - pre.len()]);
        }
    }
    assert forall|k: int| 0 <= k < out.len() - 1 implies #[trigger] out[k].end + 1 == out[k + 1].start by {
        if k >= pre.len() {
            assert(out[k] == hs[k - pre.len()]);
        }
        assert(out[k + 1] == hs[k + 1 - pre.len()]);
    }
    if out.len() > 0 {
        if hs.len() > 0 {
            assert(out.last() == hs.last());
        } else {
            assert(out.last() == pre[0]);
        }
    }
    assert forall|k: int| 0 <= k < out.len() implies (#[trigger] out[k]).fm == fm && out[k].path == path by {
        if k >= pre.len() {
            assert(out[k] == hs[k - pre.len()]);
        }
    }
}

/// A section without a heading holds text: it is the part of the file
/// before the first heading, and it is produced only when some line there is
/// not blank, so its text always has a character that is not whitespace.
/// Only the first section can lack a heading.
#[verifier::spinoff_prover]
pub proof fn lemma_headless_section_holds_text(path: Seq<char>, source: Seq<char>)
    ensures
        forall|k: int|
            0 <= k < split_spec(path, source).len() && (#[trigger] split_spec(path, source)[k]).heading
                is None ==> k == 0 && exists|i: int|
                0 <= i < split_spec(path, source)[k].text.len() && !is_ws(
                    split_spec(path, source)[k].text[i],
                ),
{
    let out = split_spec(path, source);
    let lines = lines_of(source);
    let fm = fm_spec(lines).0;
    let b = fm_spec(lines).1;
    lemma_fm_spec_bound(lines);
    let heads = heads_from(lines, b, false);
    lemma_heads_bounds(lines, b, false);
    let first = if heads.len() > 0 { heads[0].0 } else { lines.len() as int };
    let pre = preamble(path, lines, fm, b, first);
    let hs = Seq::new(heads.len(), |k: int| head_section(path, heads, k, fm, lines));
    assert(out == pre + hs);
    assert forall|k: int| 0 <= k < out.len() && (#[trigger] out[k]).heading is None implies k == 0
        && exists|i: int| 0 <= i < out[k].text.len() && !is_ws(out[k].text[i]) by {
        if k >= pre.len() {
            assert(out[k] == hs[k - pre.len()]);
            assert(false);
        }
        let j = choose|j: int| b <= j < first && !is_blank(lines[j]);
        let sub = lines.subrange(b, first);
        assert(sub[j - b] == lines[j]);
        lemma_blank_iff_all_ws(lines[j]);
        let i = choose|i: int| 0 <= i < lines[j].len() && !is_ws(lines[j][i]);
        let o = lemma_join_holds_piece(sub, seq!['\n'], j - b);
        assert(out[k] == pre[0]);
        assert(out[k].text == join(sub, seq!['\n']));
        assert(out[k].text[o + i] == lines[j][i]);
    }
}

/// What the section of heading `h` holds: it opens on that heading's line,
/// and its trail is empty for the first heading and for a top-level one, and
/// ends with the heading just above when that one is shallower.
pub proof fn lemma_head_section_opens(path: Seq<char>, lines: Seq<Seq<char>>, fm: FmSpec, b: int, h: int)
    requires
        0 <= b <= lines.len(),
        0 <= h < heads_from(lines, b, false).len(),
    ensures
        ({
            let heads = heads_from(lines, b, false);
            let sec = head_section(path, heads, h, fm, lines);
            &&& sec.start == heads[h].0 + 1
            &&& 1 <= sec.start <= lines.len()
            &&& atx_spec(lines[sec.start - 1]) == Some((heads[h].1, heads[h].2))
            &&& sec.heading == Some(heads[h].2)
            &&& starts_with(sec.text, lines[sec.start - 1])
            &&& heads[h].1 == 1 ==> sec.breadcrumb.len() == 0
            &&& h == 0 ==> sec.breadcrumb.len() == 0
            &&& h > 0 && heads[h - 1].1 < heads[h].1 ==> sec.breadcrumb.len() > 0
                && sec.breadcrumb.last() == heads[h - 1].2
        }),
{
    let heads = heads_from(lines, b, false);
    lemma_heads_bounds(lines, b, false);
    lemma_heads_are_headings(lines, b, false);
    assert forall|m: int| 0 <= m < heads.len() implies (#[trigger] heads[m]).1 >= 1 by {
        assert(atx_spec(lines[heads[m].0]) == Some((heads[m].1, heads[m].2)));
    }
    let sec = head_section(path, heads, h, fm, lines);
    let e = head_end(heads, h, lines.len() as int);
    if h + 1 < heads.len() {
        assert(heads[h].0 < heads[h + 1].0);
    }
    let sub = lines.subrange(heads[h].0, e);
    assert(sub[0] == lines[heads[h].0]);
    let o = lemma_join_holds_piece(sub, seq!['\n'], 0);
    assert(sec.text.subrange(0, lines[heads[h].0].len() as int) =~= lines[heads[h].0]);
    assert(atx_spec(lines[heads[h].0]) == Some((heads[h].1, heads[h].2)));
    lemma_stack_levels(heads, h);
    lemma_pop_ge_prefix(stack_before(heads, h), heads[h].1);
    if h == 0 {
        assert(stack_before(heads, 0).len() == 0);
    }
    if h > 0 && heads[h - 1].1 < heads[h].1 {
        let st = stack_before(heads, h);
        let prev = pop_ge(stack_before(heads, h - 1), heads[h - 1].1);
        assert(st == prev.push((heads[h - 1].1, heads[h - 1].2)));
        assert(pop_ge(st, heads[h].1) == st);
    }
}

/// The level of the heading a section opens on, or 0 where its first line is
/// no heading.
pub open spec fn opening_level(lines: Seq<Seq<char>>, s: SectionView) -> nat {
    match atx_spec(lines[s.start - 1]) {
        Some((level, _)) => level,
        None => 0,
    }
}

/// Every section with a heading opens on that heading: the line it starts
/// on is an ATX heading with that title, and its text begins with that line.
/// A heading's trail holds the titles of the headings it sits under: the
/// first heading of a file and every top-level heading have none, and a
/// heading right below a shallower one has that one's title last.
#[verifier::spinoff_prover]
#[verifier::rlimit(40)]
pub proof fn lemma_headed_sections_open_on_heading(path: Seq<char>, source: Seq<char>)
    ensures
        ({
            let out = split_spec(path, source);
            let lines = lines_of(source);
            &&& forall|k: int|
                0 <= k < out.len() && (#[trigger] out[k]).heading is Some ==> {
                    &&& 1 <= out[k].start <= lines.len()
                    &&& atx_spec(lines[out[k].start - 1]) == Some(
                        (opening_level(lines, out[k]), out[k].heading.unwrap()),
                    )
                    &&& starts_with(out[k].text, lines[out[k].start - 1])
                    &&& opening_level(lines, out[k]) == 1 ==> out[k].breadcrumb.len() == 0
                    &&& (k == 0 || out[k - 1].heading is None) ==> out[k].breadcrumb.len() == 0
                }
            &&& forall|k: int|
                1 <= k < out.len() && (#[trigger] out[k]).heading is Some && out[k - 1].heading is Some
                    && opening_level(lines, out[k - 1]) < opening_level(lines, out[k])
                    ==> out[k].breadcrumb.len() > 0 && out[k].breadcrumb.last() == out[k - 1].heading.unwrap()
        }),
{
    let out = split_spec(path, source);
    let lines = lines_of(source);
    let fm = fm_spec(lines).0;
    let b = fm_spec(lines).1;
    lemma_fm_spec_bound(lines);
    let heads = heads_from(lines, b, false);
    let first = if heads.len() > 0 { heads[0].0 } else { lines.len() as int };
    let pre = preamble(path, lines, fm, b, first);
    let hs = Seq::new(heads.len(), |k: int| head_section(path, heads, k, fm, lines));
    assert(out == pre + hs);
    assert forall|k: int| 0 <= k < out.len() && (#[trigger] out[k]).heading is Some implies {
        &&& 1 <= out[k].start <= lines.len()
        &&& atx_spec(lines[out[k].start - 1]) == Some(
            (opening_level(lines, out[k]), out[k].heading.unwrap()),
        )
        &&& starts_with(out[k].text, lines[out[k].start - 1])
        &&& opening_level(lines, out[k]) == 1 ==> out[k].breadcrumb.len() == 0
        &&& (k == 0 || out[k - 1].heading is None) ==> out[k].breadcrumb.len() == 0
    } by {
        if k < pre.len() {
            assert(out[k] == pre[0]);
            assert(false);
        }
        let h = k - pre.len();
        assert(out[k] == hs[h]);
        lemma_head_section_opens(path, lines, fm, b, h);
        if (k == 0 || out[k - 1].heading is None) && h > 0 {
            assert(out[k - 1] == hs[h - 1]);
            lemma_head_section_opens(path, lines, fm, b, h - 1);
        }
    }
    assert forall|k: int|
        1 <= k < out.len() && (#[trigger] out[k]).heading is Some && out[k - 1].heading is Some
            && opening_level(lines, out[k - 1]) < opening_level(lines, out[k])
        implies out[k].breadcrumb.len() > 0 && out[k].breadcrumb.last() == out[k - 1].heading.unwrap() by {
        if k - 1 < pre.len() {
            assert(out[k - 1] == pre[0]);
            assert(false);
        }
        let h = k - pre.len();
        assert(out[k] == hs[h]);
        assert(out[k - 1] == hs[h - 1]);
        lemma_head_section_opens(path, lines, fm, b, h);
        lemma_head_section_opens(path, lines, fm, b, h - 1);
    }
}

/// The texts of some sections, in order.
pub open spec fn section_texts(out: Seq<SectionView>) -> Seq<Seq<char>> {
    out.map_values(|s: SectionView| s.text)
}

/// Sections that follow one another line after line, each holding the text
/// of its own lines, join back into the text of all their lines. A section's
/// lines are numbered from `base`, first and last inclusive.
pub proof fn lemma_consecutive_texts_join(out: Seq<SectionView>, lines: Seq<Seq<char>>, base: int, k: int)
    requires
        1 <= k <= out.len(),
        forall|j: int|
            0 <= j < out.len() ==> base <= (#[trigger] out[j]).start <= out[j].end < lines.len() + base,
        forall|j: int| 0 <= j < out.len() - 1 ==> #[trigger] out[j].end + 1 == out[j + 1].start,
        forall|j: int|
            0 <= j < out.len() ==> (#[trigger] out[j]).text == join(
                lines.subrange(out[j].start - base, out[j].end - base + 1),
                seq!['\n'],
            ),
    ensures
        out[0].start <= out[k - 1].end,
        join(section_texts(out).subrange(0, k), seq!['\n']) == join(
            lines.subrange(out[0].start - base, out[k - 1].end - base + 1),
            seq!['\n'],
        ),
    decreases k,
{
    let t = section_texts(out);
    if k == 1 {
        assert(t.subrange(0, 1) =~= seq![out[0].text]);
    } else {
        lemma_consecutive_texts_join(out, lines, base, k - 1);
        let a = out[0].start - base;
        let m = out[k - 2].end - base + 1;
        let e = out[k - 1].end - base + 1;
        assert(out[k - 2].end + 1 == out[k - 1].start);
        let whole = lines.subrange(a, e);
        lemma_join_split(whole, seq!['\n'], m - a);
        assert(whole.subrange(0, m - a) =~= lines.subrange(a, m));
        assert(whole.subrange(m - a, whole.len() as int) =~= lines.subrange(out[k - 1].start - base, e));
        assert(t.subrange(0, k).drop_last() =~= t.subrange(0, k - 1));
        assert(t.subrange(0, k).last() == out[k - 1].text);
    }
}

/// Splitting loses and adds nothing: each section's text is the text of its
/// own lines, and the sections' texts joined with line feeds give back the
/// file from the line the first section starts on to its end.
#[verifier::spinoff_prover]
pub proof fn lemma_split_gives_back_the_file(path: Seq<char>, source: Seq<char>)
    ensures
        ({
            let out = split_spec(path, source);
            let lines = lines_of(source);
            &&& forall|k: int|
                0 <= k < out.len() ==> (#[trigger] out[k]).text == join(
                    lines.subrange(out[k].start - 1, out[k].end),
                    seq!['\n'],
                )
            &&& out.len() > 0 ==> join(section_texts(out), seq!['\n']) == join(
                lines.subrange(out[0].start - 1, lines.len() as int),
                seq!['\n'],
            )
        }),
{
    let out = split_spec(path, source);
    let lines = lines_of(source);
    let fm = fm_spec(lines).0;
    let b = fm_spec(lines).1;
    lemma_fm_spec_bound(lines);
    lemma_split_contiguous(path, source);
    let heads = heads_from(lines, b, false);
    let first = if heads.len() > 0 { heads[0].0 } else { lines.len() as int };
    let pre = preamble(path, lines, fm, b, first);
    let hs = Seq::new(heads.len(), |k: int| head_section(path, heads, k, fm, lines));
    assert(out == pre + hs);
    assert forall|k: int| 0 <= k < out.len() implies (#[trigger] out[k]).text == join(
        lines.subrange(out[k].start - 1, out[k].end),
        seq!['\n'],
    ) && out[k].text == join(lines.subrange(out[k].start - 1, out[k].end - 1 + 1), seq!['\n']) by {
        if k < pre.len() {
            assert(out[k] == pre[0]);
        } else {
            assert(out[k] == hs[k - pre.len()]);
        }
    }
    if out.len() > 0 {
        lemma_consecutive_texts_join(out, lines, 1, out.len() as int);
        assert(section_texts(out).subrange(0, out.len() as int) =~= section_texts(out));
        assert(out.last() == out[out.len() - 1]);
    }
}

pub proof fn lemma_fm_spec_bound(lines: Seq<Seq<char>>)
    ensures
        0 <= fm_spec(lines).1 <= lines.len(),
{
    lemma_fm_close(lines);
}

} // verus!
