//! A text cut into lines the way `str::lines` cuts it.

use vstd::prelude::*;

use crate::text::{join, lemma_join_split, string_of};

verus! {

/// Where the first `c` in `s` stands.
pub open spec fn first_of(s: Seq<char>, c: char) -> Option<nat>
    decreases s.len(),
{
    if s.len() == 0 {
        None
    } else if s[0] == c {
        Some(0)
    } else {
        match first_of(s.drop_first(), c) {
            Some(k) => Some(k + 1),
            None => None,
        }
    }
}

/// A line with the carriage return of a `\r\n` ending removed.
pub open spec fn strip_cr(l: Seq<char>) -> Seq<char> {
    if l.len() > 0 && l.last() == '\r' {
        l.drop_last()
    } else {
        l
    }
}

pub proof fn lemma_first_of_bound(s: Seq<char>, c: char)
    ensures
        first_of(s, c) matches Some(k) ==> k < s.len() && s[k as int] == c && forall|j: int|
            0 <= j < k ==> s[j] != c,
        first_of(s, c) is None ==> forall|j: int| 0 <= j < s.len() ==> s[j] != c,
    decreases s.len(),
{
    if s.len() > 0 && s[0] != c {
        lemma_first_of_bound(s.drop_first(), c);
        assert forall|j: int| 1 <= j < s.len() implies s[j] == s.drop_first()[j - 1] by {}
    }
}

/// The lines of `s`: cut at each `\n`, a `\r` before it dropped, no line after
/// a final line feed, and none at all in the empty text.
pub open spec fn lines_of(s: Seq<char>) -> Seq<Seq<char>>
    decreases s.len(),
{
    if s.len() == 0 {
        Seq::empty()
    } else {
        match first_of(s, '\n') {
            Some(k) => {
                proof {
                    lemma_first_of_bound(s, '\n');
                }
                seq![strip_cr(s.subrange(0, k as int))] + lines_of(
                    s.subrange(k as int + 1, s.len() as int),
                )
            },
            None => seq![s],
        }
    }
}

pub open spec fn lines_view(v: Seq<Vec<char>>) -> Seq<Seq<char>> {
    v.map_values(|l: Vec<char>| l@)
}

pub proof fn lemma_first_of_at(t: Seq<char>, c: char, k: int)
    requires
        0 <= k < t.len(),
        t[k] == c,
        forall|j: int| 0 <= j < k ==> t[j] != c,
    ensures
        first_of(t, c) == Some(k as nat),
    decreases k,
{
    if k > 0 {
        lemma_first_of_at(t.drop_first(), c, k - 1);
    }
}

pub proof fn lemma_none_of(t: Seq<char>, c: char)
    requires
        forall|j: int| 0 <= j < t.len() ==> t[j] != c,
    ensures
        first_of(t, c) is None,
    decreases t.len(),
{
    if t.len() > 0 {
        lemma_none_of(t.drop_first(), c);
    }
}

/// The lines of `s`.
pub fn split_lines(s: &Vec<char>) -> (lines: Vec<Vec<char>>)
    ensures
        lines_view(lines@) == lines_of(s@),
{
    let n = s.len();
    let mut lines: Vec<Vec<char>> = Vec::new();
    let mut start: usize = 0;
    let mut i: usize = 0;
    assert(s@.subrange(0, n as int) =~= s@);
    assert(lines_view(lines@) =~= Seq::<Seq<char>>::empty());
    assert(Seq::<Seq<char>>::empty() + lines_of(s@) =~= lines_of(s@));
    while i < n
        invariant
            n == s@.len(),
            start <= i <= n,
            forall|j: int| start <= j < i ==> s@[j] != '\n',
            lines_view(lines@) + lines_of(s@.subrange(start as int, n as int)) == lines_of(s@),
        decreases n - i,
    {
        if s[i] == '\n' {
            let ghost t = s@.subrange(start as int, n as int);
            proof {
                assert forall|j: int| 0 <= j < i - start implies t[j] != '\n' by {
                    assert(t[j] == s@[start + j]);
                }
                lemma_first_of_at(t, '\n', i - start);
                assert(t.subrange(0, i - start) =~= s@.subrange(start as int, i as int));
                assert(t.subrange(i - start + 1, t.len() as int) =~= s@.subrange(
                    i + 1,
                    n as int,
                ));
            }
            let mut e = i;
            if e > start && s[e - 1] == '\r' {
                e = e - 1;
            }
            let mut line: Vec<char> = Vec::new();
            crate::text::push_range(&mut line, s, start, e);
            proof {
                assert(line@ =~= strip_cr(s@.subrange(start as int, i as int)));
                assert(lines_view(lines@.push(line)) =~= lines_view(lines@).push(line@));
            }
            lines.push(line);
            start = i + 1;
        }
        i = i + 1;
    }
    let ghost t = s@.subrange(start as int, n as int);
    if start < n {
        proof {
            assert forall|j: int| 0 <= j < t.len() implies t[j] != '\n' by {
                assert(t[j] == s@[start + j]);
            }
            lemma_none_of(t, '\n');
        }
        let mut line: Vec<char> = Vec::new();
        crate::text::push_range(&mut line, s, start, n);
        proof {
            assert(lines_view(lines@.push(line)) =~= lines_view(lines@).push(line@));
        }
        lines.push(line);
        assert(lines_view(lines@) =~= lines_view(lines@));
    } else {
        assert(lines_view(lines@) + lines_of(t) =~= lines_view(lines@));
    }
    lines
}

/// `lines[from..to]` joined with `\n`.
pub fn join_lines(lines: &Vec<Vec<char>>, from: usize, to: usize) -> (r: Vec<char>)
    requires
        from <= to <= lines@.len(),
    ensures
        r@ == join(lines_view(lines@).subrange(from as int, to as int), seq!['\n']),
{
    let ghost lv = lines_view(lines@);
    let mut r: Vec<char> = Vec::new();
    let mut k = from;
    while k < to
        invariant
            from <= k <= to <= lines@.len(),
            lv == lines_view(lines@),
            r@ == join(lv.subrange(from as int, k as int), seq!['\n']),
        decreases to - k,
    {
        let ghost prev = lv.subrange(from as int, k as int);
        let ghost next = lv.subrange(from as int, k + 1);
        assert(next.drop_last() =~= prev);
        assert(next.last() == lines@[k as int]@);
        if k > from {
            r.push('\n');
        }
        crate::text::push_all(&mut r, &lines[k]);
        k = k + 1;
        proof {
            if next.len() == 1 {
                assert(prev.len() == 0);
                assert(r@ =~= next[0]);
            } else {
                assert(r@ =~= join(prev, seq!['\n']) + seq!['\n'] + next.last());
            }
        }
    }
    r
}

/// `lines[from..to]` joined with `\n`, as a string.
pub fn join_lines_string(lines: &Vec<Vec<char>>, from: usize, to: usize) -> (r: String)
    requires
        from <= to <= lines@.len(),
    ensures
        r@ == join(lines_view(lines@).subrange(from as int, to as int), seq!['\n']),
{
    let v = join_lines(lines, from, to);
    let s = string_of(v.as_slice(), 0, v.len());
    assert(v@.subrange(0, v@.len() as int) =~= v@);
    s
}

/// The pieces of `s` between its `c`s, as `str::split(c)` gives them: one
/// more than there are `c`s.
pub open spec fn split_on(s: Seq<char>, c: char) -> Seq<Seq<char>>
    decreases s.len(),
{
    match first_of(s, c) {
        Some(k) => {
            proof {
                lemma_first_of_bound(s, c);
            }
            seq![s.subrange(0, k as int)] + split_on(s.subrange(k as int + 1, s.len() as int), c)
        },
        None => seq![s],
    }
}

/// Cutting at each `c` and joining back with `c` gives the text back.
pub proof fn lemma_split_on_join(s: Seq<char>, c: char)
    ensures
        join(split_on(s, c), seq![c]) == s,
    decreases s.len(),
{
    lemma_first_of_bound(s, c);
    match first_of(s, c) {
        Some(k) => {
            let rest = s.subrange(k as int + 1, s.len() as int);
            lemma_split_on_join(rest, c);
            let all = split_on(s, c);
            let tail = split_on(rest, c);
            assert(all == seq![s.subrange(0, k as int)] + tail);
            assert(tail.len() >= 1) by {
                match first_of(rest, c) {
                    Some(_) => {},
                    None => {},
                }
            }
            lemma_join_split(all, seq![c], 1);
            assert(all.subrange(0, 1) =~= seq![s.subrange(0, k as int)]);
            assert(all.subrange(1, all.len() as int) =~= tail);
            assert(s =~= s.subrange(0, k as int) + seq![c] + rest);
        },
        None => {},
    }
}

/// The pieces of `s` between its line feeds.
pub open spec fn split_nl(s: Seq<char>) -> Seq<Seq<char>> {
    split_on(s, '\n')
}

/// The pieces of `s` between its `c`s.
pub fn split_on_char(s: &Vec<char>, c: char) -> (pieces: Vec<Vec<char>>)
    ensures
        lines_view(pieces@) == split_on(s@, c),
        pieces@.len() >= 1,
{
    let n = s.len();
    let mut pieces: Vec<Vec<char>> = Vec::new();
    let mut start: usize = 0;
    let mut i: usize = 0;
    assert(s@.subrange(0, n as int) =~= s@);
    assert(lines_view(pieces@) =~= Seq::<Seq<char>>::empty());
    assert(Seq::<Seq<char>>::empty() + split_on(s@, c) =~= split_on(s@, c));
    while i < n
        invariant
            n == s@.len(),
            start <= i <= n,
            forall|j: int| start <= j < i ==> s@[j] != c,
            lines_view(pieces@) + split_on(s@.subrange(start as int, n as int), c) == split_on(s@, c),
        decreases n - i,
    {
        if s[i] == c {
            let ghost t = s@.subrange(start as int, n as int);
            proof {
                assert forall|j: int| 0 <= j < i - start implies t[j] != c by {
                    assert(t[j] == s@[start + j]);
                }
                lemma_first_of_at(t, c, i - start);
                assert(t.subrange(0, i - start) =~= s@.subrange(start as int, i as int));
                assert(t.subrange(i - start + 1, t.len() as int) =~= s@.subrange(
                    i + 1,
                    n as int,
                ));
            }
            let mut piece: Vec<char> = Vec::new();
            crate::text::push_range(&mut piece, s, start, i);
            proof {
                assert(piece@ =~= s@.subrange(start as int, i as int));
                assert(lines_view(pieces@.push(piece)) =~= lines_view(pieces@).push(piece@));
            }
            pieces.push(piece);
            start = i + 1;
        }
        i = i + 1;
    }
    let ghost t = s@.subrange(start as int, n as int);
    proof {
        assert forall|j: int| 0 <= j < t.len() implies t[j] != c by {
            assert(t[j] == s@[start + j]);
        }
        lemma_none_of(t, c);
    }
    let mut piece: Vec<char> = Vec::new();
    crate::text::push_range(&mut piece, s, start, n);
    proof {
        assert(lines_view(pieces@.push(piece)) =~= lines_view(pieces@).push(piece@));
    }
    pieces.push(piece);
    pieces
}

} // verus!
