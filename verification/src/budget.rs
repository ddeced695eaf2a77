//! Dividing a section that is longer than the character budget into
//! consecutive pieces that each fit.

use vstd::prelude::*;

use crate::fm::duplicate_fm;
use crate::lines::{join_lines, lemma_split_on_join, lines_view, split_nl, split_on, split_on_char};
use crate::sections::{
    Section, SectionView, lemma_consecutive_texts_join, opt_view, section_texts, sections_view, strings_view,
};
use crate::text::{is_blank, join, string_of};

verus! {

/// The characters lines `a..b` take with one line feed each.
pub open spec fn cost_sum(lines: Seq<Seq<char>>, a: int, b: int) -> int
    decreases b - a,
{
    if b <= a {
        0
    } else {
        cost_sum(lines, a, b - 1) + lines[b - 1].len() + 1
    }
}

/// `u` is the last line that the piece opening at `from` reaches by whole
/// lines within the budget; the opening line is taken whatever its length.
pub open spec fn is_reach(lines: Seq<Seq<char>>, from: int, budget: int, u: int) -> bool {
    &&& from <= u < lines.len()
    &&& (u == from || cost_sum(lines, from, u + 1) <= budget)
    &&& forall|w: int| u + 1 < w <= lines.len() ==> #[trigger] cost_sum(lines, from, w) > budget
}

pub open spec fn reach(lines: Seq<Seq<char>>, from: int, budget: int) -> int {
    choose|u: int| is_reach(lines, from, budget, u)
}

/// Where the piece ends once a paragraph break near the end is preferred:
/// the last blank line in the final fifth of the reach, when the reach stops
/// short of the last line and one is there.
pub open spec fn break_at(lines: Seq<Seq<char>>, from: int, upto: int) -> int {
    if upto + 1 < lines.len() {
        let floor = from + (upto - from) * 4 / 5;
        if exists|b: int| floor <= b <= upto && is_blank(lines[b]) {
            choose|b: int|
                floor <= b <= upto && is_blank(lines[b]) && forall|c: int|
                    b < c <= upto ==> !is_blank(lines[c])
        } else {
            upto
        }
    } else {
        upto
    }
}

#[verifier::opaque]
pub open spec fn piece_end(lines: Seq<Seq<char>>, from: int, budget: int) -> int {
    break_at(lines, from, reach(lines, from, budget))
}

pub proof fn lemma_cost_mono(lines: Seq<Seq<char>>, a: int, b: int, c: int)
    requires
        a <= b <= c <= lines.len(),
    ensures
        cost_sum(lines, a, b) <= cost_sum(lines, a, c),
        b < c ==> cost_sum(lines, a, b) < cost_sum(lines, a, c),
    decreases c - b,
{
    if b < c {
        lemma_cost_mono(lines, a, b, c - 1);
    }
}

pub proof fn lemma_reach_unique(lines: Seq<Seq<char>>, from: int, budget: int, u: int)
    requires
        is_reach(lines, from, budget, u),
    ensures
        reach(lines, from, budget) == u,
{
    let r = reach(lines, from, budget);
    assert(is_reach(lines, from, budget, r));
    if r < u {
        assert(cost_sum(lines, from, u + 1) > budget);
    }
    if r > u {
        assert(cost_sum(lines, from, r + 1) > budget);
    }
}

pub proof fn lemma_break_bounds(lines: Seq<Seq<char>>, from: int, upto: int)
    requires
        0 <= from <= upto < lines.len(),
    ensures
        from <= break_at(lines, from, upto) <= upto,
{
    if upto + 1 < lines.len() {
        let floor = from + (upto - from) * 4 / 5;
        assert(floor >= from) by (nonlinear_arith)
            requires
                floor == from + (upto - from) * 4 / 5,
                from <= upto,
        ;
        if exists|b: int| floor <= b <= upto && is_blank(lines[b]) {
            let b = choose|b: int|
                floor <= b <= upto && is_blank(lines[b]) && forall|c: int|
                    b < c <= upto ==> !is_blank(lines[c]);
            let w = choose|b: int| floor <= b <= upto && is_blank(lines[b]);
            lemma_last_blank_exists(lines, floor, upto, w);
        }
    }
}

pub proof fn lemma_last_blank_exists(lines: Seq<Seq<char>>, floor: int, upto: int, w: int)
    requires
        floor <= w <= upto < lines.len(),
        0 <= floor,
        is_blank(lines[w]),
    ensures
        exists|b: int|
            floor <= b <= upto && is_blank(lines[b]) && forall|c: int|
                b < c <= upto ==> !is_blank(lines[c]),
    decreases upto - w,
{
    if exists|c: int| w < c <= upto && is_blank(lines[c]) {
        let c = choose|c: int| w < c <= upto && is_blank(lines[c]);
        lemma_last_blank_exists(lines, floor, upto, c);
    } else {
        assert(forall|c: int| w < c <= upto ==> !is_blank(lines[c]));
    }
}

pub proof fn lemma_reach_exists(lines: Seq<Seq<char>>, from: int, budget: int)
    requires
        0 <= from < lines.len(),
    ensures
        is_reach(lines, from, budget, reach(lines, from, budget)),
{
    let u = greatest_fitting(lines, from, budget, from);
    assert(is_reach(lines, from, budget, u));
}

/// The last line at or after `u` that still fits, searching upward.
pub proof fn greatest_fitting(lines: Seq<Seq<char>>, from: int, budget: int, u: int) -> (r: int)
    requires
        0 <= from <= u < lines.len(),
        u == from || cost_sum(lines, from, u + 1) <= budget,
    ensures
        is_reach(lines, from, budget, r),
    decreases lines.len() - u,
{
    if u + 1 < lines.len() && cost_sum(lines, from, u + 2) <= budget {
        greatest_fitting(lines, from, budget, u + 1)
    } else {
        assert forall|w: int| u + 1 < w <= lines.len() implies #[trigger] cost_sum(lines, from, w) > budget by {
            lemma_cost_mono(lines, from, u + 2, w);
        }
        u
    }
}

pub proof fn lemma_piece_end_bounds(lines: Seq<Seq<char>>, from: int, budget: int)
    requires
        0 <= from < lines.len(),
    ensures
        from <= piece_end(lines, from, budget) < lines.len(),
{
    reveal(piece_end);
    lemma_reach_exists(lines, from, budget);
    lemma_break_bounds(lines, from, reach(lines, from, budget));
}

/// The line ranges, first and last line inclusive, that the pieces from
/// line `from` on cover.
pub open spec fn piece_ranges(lines: Seq<Seq<char>>, from: int, budget: int) -> Seq<(int, int)>
    decreases lines.len() - from,
{
    if from < 0 || from >= lines.len() {
        Seq::empty()
    } else {
        let e = piece_end(lines, from, budget);
        proof {
            lemma_piece_end_bounds(lines, from, budget);
        }
        seq![(from, e)] + piece_ranges(lines, e + 1, budget)
    }
}

/// The text of lines `a..=b`.
pub open spec fn range_text(lines: Seq<Seq<char>>, a: int, b: int) -> Seq<char> {
    join(lines.subrange(a, b + 1), seq!['\n'])
}

/// The piece of `s` covering lines `a..=b` of its text: cut to the budget
/// and marked when it is still too long.
pub open spec fn piece_view(s: SectionView, lines: Seq<Seq<char>>, a: int, b: int, budget: int) -> SectionView {
    let text = range_text(lines, a, b);
    let cut = text.len() > budget;
    SectionView {
        start: s.start + a,
        end: s.start + b,
        text: if cut {
            text.take(budget)
        } else {
            text
        },
        truncated: cut,
        ..s
    }
}

/// A section that fits, alone; otherwise the pieces its lines divide into.
pub open spec fn to_budget_spec(s: SectionView, budget: int) -> Seq<SectionView> {
    if s.text.len() <= budget {
        seq![s]
    } else {
        let lines = split_nl(s.text);
        let ranges = piece_ranges(lines, 0, budget);
        Seq::new(
            ranges.len(),
            |k: int| piece_view(s, lines, ranges[k].0, ranges[k].1, budget),
        )
    }
}

pub fn duplicate_strings(v: &Vec<String>) -> (r: Vec<String>)
    ensures
        strings_view(r@) == strings_view(v@),
{
    let mut r: Vec<String> = Vec::new();
    let mut i: usize = 0;
    while i < v.len()
        invariant
            i <= v@.len(),
            r@.len() == i,
            forall|j: int| 0 <= j < i ==> (#[trigger] r@[j])@ == v@[j]@,
        decreases v@.len() - i,
    {
        r.push(v[i].clone());
        i = i + 1;
    }
    assert(strings_view(r@) =~= strings_view(v@));
    r
}

pub fn duplicate_opt(o: &Option<String>) -> (r: Option<String>)
    ensures
        opt_view(r) == opt_view(*o),
{
    match o {
        Some(s) => Some(s.clone()),
        None => None,
    }
}

pub proof fn lemma_four_fifths(d: int)
    requires
        d >= 0,
    ensures
        d * 4 / 5 == (d / 5) * 4 + (d % 5) * 4 / 5,
        d * 4 / 5 <= d,
{
    assert(d == (d / 5) * 5 + d % 5) by (nonlinear_arith)
        requires
            d >= 0,
    ;
    assert(d * 4 == (d / 5) * 20 + (d % 5) * 4) by (nonlinear_arith)
        requires
            d == (d / 5) * 5 + d % 5,
    ;
    assert((d / 5) * 20 + (d % 5) * 4 == 5 * ((d / 5) * 4) + (d % 5) * 4) by (nonlinear_arith);
    assert((5 * ((d / 5) * 4) + (d % 5) * 4) / 5 == (d / 5) * 4 + (d % 5) * 4 / 5) by (nonlinear_arith)
        requires
            d % 5 >= 0,
    ;
    assert(d * 4 / 5 <= d) by (nonlinear_arith)
        requires
            d >= 0,
    ;
}

/// The last line the piece opening at `from` reaches within the budget.
pub fn reach_exec(lines: &Vec<Vec<char>>, from: usize, budget: usize) -> (u: usize)
    requires
        from < lines@.len(),
        forall|i: int| 0 <= i < lines@.len() ==> #[trigger] lines@[i]@.len() < usize::MAX,
    ensures
        u as int == reach(lines_view(lines@), from as int, budget as int),
        from <= u < lines@.len(),
{
    let ghost lv = lines_view(lines@);
    let n = lines.len();
    let mut upto = from;
    let mut size = lines[from].len() + 1;
    assert(lv[from as int] == lines@[from as int]@);
    assert(cost_sum(lv, from as int, from as int) == 0);
    loop
        invariant
            from <= upto < n == lines@.len(),
            lv == lines_view(lines@),
            forall|i: int| 0 <= i < lines@.len() ==> #[trigger] lines@[i]@.len() < usize::MAX,
            size as int == cost_sum(lv, from as int, upto + 1),
            upto == from || size <= budget,
        ensures
            from <= upto < n,
            upto == from || size <= budget,
            size as int == cost_sum(lv, from as int, upto + 1),
            upto + 1 >= n || cost_sum(lv, from as int, upto + 2) > budget,
        decreases n - upto,
    {
        if upto + 1 >= n {
            break;
        }
        let c = lines[upto + 1].len() + 1;
        assert(lv[upto + 1] == lines@[upto + 1]@);
        if size > budget || c > budget - size {
            assert(cost_sum(lv, from as int, upto + 2) == size + c);
            break;
        }
        upto = upto + 1;
        size = size + c;
    }
    proof {
        let u = upto as int;
        if u + 1 < n {
            assert(lv[u + 1] == lines@[u + 1]@);
            assert(cost_sum(lv, from as int, u + 2) > budget);
        }
        assert forall|w: int| u + 1 < w <= lv.len() implies #[trigger] cost_sum(lv, from as int, w) > budget by {
            lemma_cost_mono(lv, from as int, u + 2, w);
        }
        lemma_reach_unique(lv, from as int, budget as int, u);
    }
    upto
}

/// Where the piece ends once a paragraph break near its end is preferred.
pub fn break_exec(lines: &Vec<Vec<char>>, from: usize, upto: usize) -> (e: usize)
    requires
        from <= upto < lines@.len(),
    ensures
        e as int == break_at(lines_view(lines@), from as int, upto as int),
        from <= e <= upto,
{
    let ghost lv = lines_view(lines@);
    proof {
        lemma_break_bounds(lv, from as int, upto as int);
    }
    if upto >= lines.len() - 1 {
        return upto;
    }
    let d = upto - from;
    proof {
        lemma_four_fifths(d as int);
    }
    let floor = from + d / 5 * 4 + d % 5 * 4 / 5;
    assert(floor as int == from + (upto - from) * 4 / 5);
    let mut b = upto;
    loop
        invariant
            from <= floor <= b <= upto,
            upto + 1 < lines@.len(),
            floor as int == from + (upto - from) * 4 / 5,
            lv == lines_view(lines@),
            forall|c: int| b < c <= upto ==> !is_blank(lv[c]),
        decreases b - floor,
    {
        let l = &lines[b];
        assert(l@.subrange(0, l@.len() as int) =~= l@);
        assert(lv[b as int] == l@);
        if crate::text::blank_range(l, 0, l.len()) {
            proof {
                let w = choose|w: int|
                    floor <= w <= upto && is_blank(lv[w]) && forall|c: int|
                        w < c <= upto ==> !is_blank(lv[c]);
                if w < b {
                    assert(!is_blank(lv[b as int]));
                }
                if w > b {
                    assert(!is_blank(lv[w]));
                }
            }
            return b;
        }
        if b == floor {
            assert(!exists|w: int| floor <= w <= upto && is_blank(lv[w]));
            return upto;
        }
        b = b - 1;
    }
}

/// Break a section into consecutive pieces that each fit the budget.
///
/// A piece keeps the heading, the trail and the frontmatter of the section it
/// came from, and carries its own line range, so a result still names something
/// a reader can open. The boundary falls at a blank line when one fits, at a
/// line otherwise. One line longer than the budget cannot be split by either
/// rule: it is cut and marked.
pub fn to_budget(section: Section, budget: usize) -> (out: Vec<Section>)
    requires
        section.start + section.text@.len() < usize::MAX,
    ensures
        sections_view(out@) == to_budget_spec(section@, budget as int),
{
    let chars = crate::text::chars_of(section.text.as_str());
    if chars.len() <= budget {
        let ghost sv = section@;
        let mut one: Vec<Section> = Vec::new();
        one.push(section);
        assert(sections_view(one@) =~= seq![sv]);
        return one;
    }
    let lines = split_on_char(&chars, '\n');
    let ghost lv = lines_view(lines@);
    let ghost s = section@;
    proof {
        lemma_split_nl_bounds(chars@);
        assert forall|i: int| 0 <= i < lines@.len() implies #[trigger] lines@[i]@.len() < usize::MAX by {
            assert(lv[i] == lines@[i]@);
        }
    }
    let mut out: Vec<Section> = Vec::new();
    let mut from: usize = 0;
    let n = lines.len();
    assert(piece_ranges(lv, 0, budget as int) == Seq::<(int, int)>::empty() + piece_ranges(lv, 0, budget as int));
    while from < n
        invariant
            n == lines@.len(),
            from <= n,
            lv == lines_view(lines@),
            lv == split_nl(s.text),
            s == section@,
            s.text.len() > budget,
            n <= s.text.len() + 1,
            section.start + section.text@.len() < usize::MAX,
            forall|i: int| 0 <= i < lines@.len() ==> #[trigger] lines@[i]@.len() < usize::MAX,
            ({
                let done = Seq::new(out@.len(), |k: int| (sections_view(out@)[k].start - s.start, sections_view(out@)[k].end - s.start));
                done + piece_ranges(lv, from as int, budget as int) == piece_ranges(lv, 0, budget as int)
            }),
            forall|k: int| 0 <= k < out@.len() ==> #[trigger] sections_view(out@)[k] == piece_view(
                s,
                lv,
                sections_view(out@)[k].start - s.start,
                sections_view(out@)[k].end - s.start,
                budget as int,
            ),
        decreases n - from,
    {
        let u = reach_exec(&lines, from, budget);
        let e = break_exec(&lines, from, u);
        assert(e as int == piece_end(lv, from as int, budget as int)) by {
            reveal(piece_end);
        }
        let text_v = join_lines(&lines, from, e + 1);
        let cut = text_v.len() > budget;
        let text = if cut {
            string_of(text_v.as_slice(), 0, budget)
        } else {
            string_of(text_v.as_slice(), 0, text_v.len())
        };
        assert(text_v@.subrange(0, text_v@.len() as int) =~= text_v@);
        assert(text_v@.subrange(0, budget as int) =~= text_v@.take(budget as int));
        let piece = Section {
            path: section.path.clone(),
            start: section.start + from,
            end: section.start + e,
            heading: duplicate_opt(&section.heading),
            breadcrumb: duplicate_strings(&section.breadcrumb),
            fm: duplicate_fm(&section.fm),
            truncated: cut,
            text,
        };
        let ghost before = sections_view(out@);
        let ghost pv = piece@;
        assert(pv == piece_view(s, lv, from as int, e as int, budget as int));
        out.push(piece);
        proof {
            let after = sections_view(out@);
            assert(after =~= before.push(pv));
            let rest = piece_ranges(lv, from as int, budget as int);
            assert(rest == seq![(from as int, e as int)] + piece_ranges(lv, e + 1, budget as int));
            let d0 = Seq::new(before.len(), |k: int| (before[k].start - s.start, before[k].end - s.start));
            let d1 = Seq::new(after.len(), |k: int| (after[k].start - s.start, after[k].end - s.start));
            assert(d1 =~= d0.push((from as int, e as int)));
            assert(d1 + piece_ranges(lv, e + 1, budget as int) =~= d0 + rest);
            assert forall|k: int| 0 <= k < after.len() implies #[trigger] after[k] == piece_view(
                s,
                lv,
                after[k].start - s.start,
                after[k].end - s.start,
                budget as int,
            ) by {
                if k < before.len() {
                    assert(after[k] == before[k]);
                }
            }
        }
        from = e + 1;
    }
    proof {
        let sv = sections_view(out@);
        let ranges = piece_ranges(lv, 0, budget as int);
        let done = Seq::new(sv.len(), |k: int| (sv[k].start - s.start, sv[k].end - s.start));
        assert(piece_ranges(lv, from as int, budget as int) =~= Seq::<(int, int)>::empty());
        assert(done =~= ranges);
        assert(sv =~= Seq::new(ranges.len(), |k: int| piece_view(s, lv, ranges[k].0, ranges[k].1, budget as int)));
    }
    out
}

pub proof fn lemma_split_nl_bounds(t: Seq<char>)
    ensures
        split_nl(t).len() <= t.len() + 1,
        split_nl(t).len() >= 1,
        forall|i: int| 0 <= i < split_nl(t).len() ==> #[trigger] split_nl(t)[i].len() <= t.len(),
{
    lemma_split_on_bounds(t, '\n');
}

pub proof fn lemma_split_on_bounds(t: Seq<char>, c: char)
    ensures
        split_on(t, c).len() <= t.len() + 1,
        split_on(t, c).len() >= 1,
        forall|i: int| 0 <= i < split_on(t, c).len() ==> #[trigger] split_on(t, c)[i].len() <= t.len(),
    decreases t.len(),
{
    crate::lines::lemma_first_of_bound(t, c);
    match crate::lines::first_of(t, c) {
        Some(k) => {
            let rest = t.subrange(k as int + 1, t.len() as int);
            lemma_split_on_bounds(rest, c);
            let all = split_on(t, c);
            assert(all == seq![t.subrange(0, k as int)] + split_on(rest, c));
            assert forall|i: int| 0 <= i < all.len() implies #[trigger] all[i].len() <= t.len() by {
                if i > 0 {
                    assert(all[i] == split_on(rest, c)[i - 1]);
                }
            }
        },
        None => {},
    }
}

pub proof fn lemma_range_text_len(lines: Seq<Seq<char>>, a: int, b: int)
    requires
        0 <= a <= b < lines.len(),
    ensures
        range_text(lines, a, b).len() == cost_sum(lines, a, b + 1) - 1,
    decreases b - a,
{
    let sub = lines.subrange(a, b + 1);
    assert(cost_sum(lines, a, b + 1) == cost_sum(lines, a, b) + lines[b].len() + 1);
    if b > a {
        lemma_range_text_len(lines, a, b - 1);
        assert(sub.drop_last() =~= lines.subrange(a, b));
        assert(sub.last() == lines[b]);
        assert(range_text(lines, a, b) == join(sub.drop_last(), seq!['\n']) + seq!['\n'] + sub.last());
    } else {
        assert(sub =~= seq![lines[a]]);
        assert(cost_sum(lines, a, a) == 0);
    }
}

pub proof fn lemma_piece_ranges_shape(lines: Seq<Seq<char>>, from: int, budget: int)
    requires
        0 <= from,
    ensures
        ({
            let r = piece_ranges(lines, from, budget);
            &&& from < lines.len() ==> r.len() > 0 && r[0].0 == from && r.last().1 == lines.len() - 1
            &&& forall|k: int| 0 <= k < r.len() ==> from <= #[trigger] r[k].0 <= r[k].1 < lines.len()
            &&& forall|k: int| 0 <= k < r.len() - 1 ==> #[trigger] r[k].1 + 1 == r[k + 1].0
            &&& forall|k: int| 0 <= k < r.len() ==> #[trigger] r[k].1 == piece_end(lines, r[k].0, budget)
        }),
    decreases lines.len() - from,
{
    if from < lines.len() {
        lemma_piece_end_bounds(lines, from, budget);
        let e = piece_end(lines, from, budget);
        lemma_piece_ranges_shape(lines, e + 1, budget);
        let r = piece_ranges(lines, from, budget);
        let rest = piece_ranges(lines, e + 1, budget);
        assert(r == seq![(from, e)] + rest);
        assert forall|k: int| 0 < k < r.len() implies #[trigger] r[k] == rest[k - 1] by {}
        if rest.len() == 0 {
            assert(e + 1 >= lines.len());
        }
        assert forall|k: int| 0 <= k < r.len() - 1 implies #[trigger] r[k].1 + 1 == r[k + 1].0 by {
            if k > 0 {
                assert(r[k] == rest[k - 1]);
            }
            assert(r[k + 1] == rest[k]);
        }
    }
}

/// A piece that carries more than one line fits without being cut.
pub proof fn lemma_multi_line_piece_fits(lines: Seq<Seq<char>>, from: int, budget: int)
    requires
        0 <= from < lines.len(),
        piece_end(lines, from, budget) > from,
    ensures
        range_text(lines, from, piece_end(lines, from, budget)).len() <= budget,
{
    reveal(piece_end);
    lemma_reach_exists(lines, from, budget);
    let u = reach(lines, from, budget);
    lemma_break_bounds(lines, from, u);
    let e = piece_end(lines, from, budget);
    assert(u > from);
    lemma_cost_mono(lines, from, e + 1, u + 1);
    lemma_range_text_len(lines, from, e);
}

/// What dividing a section promises: a section that fits is kept whole and
/// every piece of one that does not fits the budget; the pieces are
/// consecutive and together cover the section's lines from its first; each
/// keeps the section's path, heading, trail and frontmatter; and a piece is
/// cut, and marked, only where one line alone is longer than the budget, and
/// then holds exactly the first `budget` characters of that line; a piece not
/// cut holds its lines whole, joined by line feeds.
pub proof fn lemma_pieces_fit_and_cover(s: SectionView, budget: int)
    requires
        budget >= 0,
    ensures
        s.text.len() <= budget ==> to_budget_spec(s, budget) == seq![s],
        s.text.len() > budget ==> pieces_laws(s, budget, to_budget_spec(s, budget)),
{
    if s.text.len() > budget {
        lemma_pieces_laws(s, budget);
    }
}

/// The shape of the pieces a section over the budget divides into.
pub open spec fn pieces_laws(s: SectionView, budget: int, out: Seq<SectionView>) -> bool {
    &&& out.len() >= 1
    &&& out[0].start == s.start
    &&& out.last().end == s.start + split_nl(s.text).len() - 1
    &&& forall|k: int| 0 <= k < out.len() ==> (#[trigger] out[k]).text.len() <= budget
    &&& forall|k: int| 0 <= k < out.len() ==> (#[trigger] out[k]).start <= out[k].end
    &&& forall|k: int| 0 <= k < out.len() - 1 ==> #[trigger] out[k].end + 1 == out[k + 1].start
    &&& forall|k: int|
        0 <= k < out.len() ==> (#[trigger] out[k]).path == s.path && out[k].heading == s.heading
            && out[k].breadcrumb == s.breadcrumb && out[k].fm == s.fm
    &&& forall|k: int|
        0 <= k < out.len() ==> (#[trigger] out[k]).truncated ==> out[k].start == out[k].end
            && split_nl(s.text)[out[k].start - s.start].len() > budget
    &&& forall|k: int|
        0 <= k < out.len() ==> (#[trigger] out[k]).truncated ==> out[k].text == split_nl(
            s.text,
        )[out[k].start - s.start].take(budget)
    &&& forall|k: int|
        0 <= k < out.len() ==> !(#[trigger] out[k]).truncated ==> out[k].text == join(
            split_nl(s.text).subrange(out[k].start - s.start, out[k].end - s.start + 1),
            seq!['\n'],
        )
}

#[verifier::rlimit(40)]
pub proof fn lemma_pieces_laws(s: SectionView, budget: int)
    requires
        budget >= 0,
        s.text.len() > budget,
    ensures
        pieces_laws(s, budget, to_budget_spec(s, budget)),
{
    let out = to_budget_spec(s, budget);
    let lines = split_nl(s.text);
    lemma_split_nl_bounds(s.text);
    lemma_piece_ranges_shape(lines, 0, budget);
    let r = piece_ranges(lines, 0, budget);
    assert(out.len() == r.len());
    assert forall|k: int| 0 <= k < out.len() implies #[trigger] out[k] == piece_view(
        s,
        lines,
        r[k].0,
        r[k].1,
        budget,
    ) by {}
    assert forall|k: int| 0 <= k < out.len() && (#[trigger] out[k]).truncated implies out[k].start
        == out[k].end && lines[out[k].start - s.start].len() > budget by {
        if r[k].1 > r[k].0 {
            lemma_multi_line_piece_fits(lines, r[k].0, budget);
        } else {
            assert(lines.subrange(r[k].0, r[k].0 + 1) =~= seq![lines[r[k].0]]);
        }
    }
    assert forall|k: int| 0 <= k < out.len() && (#[trigger] out[k]).truncated implies out[k].text
        == lines[out[k].start - s.start].take(budget) by {
        if r[k].1 > r[k].0 {
            lemma_multi_line_piece_fits(lines, r[k].0, budget);
        } else {
            assert(lines.subrange(r[k].0, r[k].0 + 1) =~= seq![lines[r[k].0]]);
            assert(range_text(lines, r[k].0, r[k].1) == lines[r[k].0]);
        }
    }
    assert forall|k: int| 0 <= k < out.len() - 1 implies #[trigger] out[k].end + 1 == out[k
        + 1].start by {
        assert(out[k + 1] == piece_view(s, lines, r[k + 1].0, r[k + 1].1, budget));
    }
    assert(out.last() == out[out.len() - 1]);
    assert(r.last() == r[r.len() - 1]);
}

/// A piece that is not the last stops at a paragraph break or at the budget:
/// it ends on a blank line, or its lines with the next one, each followed by
/// its line feed, would not fit.
pub proof fn lemma_piece_end_stops(lines: Seq<Seq<char>>, from: int, budget: int)
    requires
        0 <= from < lines.len(),
        piece_end(lines, from, budget) + 1 < lines.len(),
    ensures
        is_blank(lines[piece_end(lines, from, budget)]) || range_text(
            lines,
            from,
            piece_end(lines, from, budget) + 1,
        ).len() + 1 > budget,
{
    reveal(piece_end);
    lemma_reach_exists(lines, from, budget);
    let u = reach(lines, from, budget);
    lemma_break_bounds(lines, from, u);
    let e = piece_end(lines, from, budget);
    if u + 1 < lines.len() {
        let floor = from + (u - from) * 4 / 5;
        if exists|b: int| floor <= b <= u && is_blank(lines[b]) {
            let w = choose|b: int| floor <= b <= u && is_blank(lines[b]);
            assert(floor >= 0) by (nonlinear_arith)
                requires
                    floor == from + (u - from) * 4 / 5,
                    0 <= from <= u,
            ;
            lemma_last_blank_exists(lines, floor, u, w);
        } else {
            assert(e == u);
            assert(cost_sum(lines, from, u + 2) > budget);
            lemma_range_text_len(lines, from, u + 1);
        }
    }
}

/// Where a section is divided, every piece but the last ends on a blank line
/// or is as long as the budget allows: its lines with the next one, each
/// followed by its line feed, would not fit.
pub proof fn lemma_pieces_end_at_breaks(s: SectionView, budget: int)
    requires
        budget >= 0,
        s.text.len() > budget,
    ensures
        ({
            let out = to_budget_spec(s, budget);
            let lines = split_nl(s.text);
            forall|k: int|
                0 <= k < out.len() - 1 ==> is_blank(lines[(#[trigger] out[k]).end - s.start]) || range_text(
                    lines,
                    out[k].start - s.start,
                    out[k].end - s.start + 1,
                ).len() + 1 > budget
        }),
{
    let out = to_budget_spec(s, budget);
    let lines = split_nl(s.text);
    lemma_split_nl_bounds(s.text);
    lemma_piece_ranges_shape(lines, 0, budget);
    let r = piece_ranges(lines, 0, budget);
    assert forall|k: int| 0 <= k < out.len() - 1 implies is_blank(lines[(#[trigger] out[k]).end - s.start])
        || range_text(lines, out[k].start - s.start, out[k].end - s.start + 1).len() + 1 > budget by {
        assert(out[k] == piece_view(s, lines, r[k].0, r[k].1, budget));
        assert(r[k].1 + 1 == r[k + 1].0);
        lemma_piece_end_stops(lines, r[k].0, budget);
    }
}

/// Dividing loses nothing: where no piece had to be cut, the pieces' texts
/// joined with line feeds give back the section's text.
pub proof fn lemma_pieces_give_back_the_text(s: SectionView, budget: int)
    requires
        budget >= 0,
    ensures
        (forall|k: int|
            0 <= k < to_budget_spec(s, budget).len() ==> !(#[trigger] to_budget_spec(s, budget)[k]).truncated)
            ==> join(section_texts(to_budget_spec(s, budget)), seq!['\n']) == s.text,
{
    let out = to_budget_spec(s, budget);
    if s.text.len() <= budget {
        assert(section_texts(out) =~= seq![s.text]);
    } else if forall|k: int| 0 <= k < out.len() ==> !(#[trigger] out[k]).truncated {
        let lines = split_nl(s.text);
        lemma_split_nl_bounds(s.text);
        lemma_pieces_laws(s, budget);
        lemma_piece_ranges_shape(lines, 0, budget);
        let r = piece_ranges(lines, 0, budget);
        assert forall|j: int| 0 <= j < out.len() implies s.start <= (#[trigger] out[j]).start <= out[j].end
            < lines.len() + s.start by {
            assert(out[j] == piece_view(s, lines, r[j].0, r[j].1, budget));
        }
        assert forall|j: int| 0 <= j < out.len() implies (#[trigger] out[j]).text == join(
            lines.subrange(out[j].start - s.start, out[j].end - s.start + 1),
            seq!['\n'],
        ) by {
            assert(!out[j].truncated);
        }
        lemma_consecutive_texts_join(out, lines, s.start, out.len() as int);
        assert(section_texts(out).subrange(0, out.len() as int) =~= section_texts(out));
        assert(out.last() == out[out.len() - 1]);
        assert(lines.subrange(0, lines.len() as int) =~= lines);
        lemma_split_on_join(s.text, '\n');
    }
}

/// Dividing twice divides no further: every piece a section divides into
/// fits, so dividing it again gives it back alone and unchanged.
pub proof fn lemma_dividing_twice_divides_no_further(s: SectionView, budget: int)
    requires
        budget >= 0,
    ensures
        forall|k: int|
            0 <= k < to_budget_spec(s, budget).len() ==> to_budget_spec(
                #[trigger] to_budget_spec(s, budget)[k],
                budget,
            ) == seq![to_budget_spec(s, budget)[k]],
{
    let out = to_budget_spec(s, budget);
    if s.text.len() > budget {
        lemma_pieces_laws(s, budget);
        assert forall|k: int| 0 <= k < out.len() implies to_budget_spec(#[trigger] out[k], budget)
            == seq![out[k]] by {
            assert(out[k].text.len() <= budget);
        }
    }
}

} // verus!
