//! Text as a sequence of characters: the handful of string operations the
//! rest of the library states its contracts over, each with its meaning
//! written as a spec function.

use vstd::prelude::*;

verus! {

/// Unicode `White_Space`, the set that `char::is_whitespace` and `str::trim` use.
pub open spec fn is_ws(c: char) -> bool {
    let u = c as u32;
    ||| 0x9 <= u <= 0xd
    ||| u == 0x20
    ||| u == 0x85
    ||| u == 0xa0
    ||| u == 0x1680
    ||| 0x2000 <= u <= 0x200a
    ||| u == 0x2028
    ||| u == 0x2029
    ||| u == 0x202f
    ||| u == 0x205f
    ||| u == 0x3000
}

pub fn is_ws_char(c: char) -> (b: bool)
    ensures
        b == is_ws(c),
{
    let u = c as u32;
    (0x9 <= u && u <= 0xd) || u == 0x20 || u == 0x85 || u == 0xa0 || u == 0x1680 || (0x2000 <= u
        && u <= 0x200a) || u == 0x2028 || u == 0x2029 || u == 0x202f || u == 0x205f || u == 0x3000
}

/// `s` without its leading whitespace.
pub open spec fn trim_start(s: Seq<char>) -> Seq<char>
    decreases s.len(),
{
    if s.len() > 0 && is_ws(s[0]) {
        trim_start(s.drop_first())
    } else {
        s
    }
}

/// `s` without its trailing whitespace.
pub open spec fn trim_end(s: Seq<char>) -> Seq<char>
    decreases s.len(),
{
    if s.len() > 0 && is_ws(s.last()) {
        trim_end(s.drop_last())
    } else {
        s
    }
}

/// `s` without whitespace at either end, as `str::trim` gives it.
pub open spec fn trim(s: Seq<char>) -> Seq<char> {
    trim_end(trim_start(s))
}

/// A line holding nothing but whitespace.
pub open spec fn is_blank(s: Seq<char>) -> bool {
    trim(s).len() == 0
}

pub open spec fn starts_with(s: Seq<char>, p: Seq<char>) -> bool {
    p.len() <= s.len() && s.subrange(0, p.len() as int) == p
}

/// `p` occurs in `s` at position `i`.
pub open spec fn occurs_at(s: Seq<char>, p: Seq<char>, i: int) -> bool {
    0 <= i && i + p.len() <= s.len() && s.subrange(i, i + p.len()) == p
}

/// The first position at which `p` occurs in `s`.
#[verifier::opaque]
pub open spec fn first_occurrence(s: Seq<char>, p: Seq<char>) -> Option<int> {
    if exists|i: int| occurs_at(s, p, i) {
        Some(choose|i: int| occurs_at(s, p, i) && forall|j: int| 0 <= j < i ==> !occurs_at(s, p, j))
    } else {
        None
    }
}

/// The last position at which `p` occurs in `s`.
#[verifier::opaque]
pub open spec fn last_occurrence(s: Seq<char>, p: Seq<char>) -> Option<int> {
    if exists|i: int| occurs_at(s, p, i) {
        Some(
            choose|i: int|
                occurs_at(s, p, i) && forall|j: int| i < j <= s.len() ==> !occurs_at(s, p, j),
        )
    } else {
        None
    }
}

/// `s` cut at the first `p`, as `str::split_once` cuts it.
pub open spec fn split_once(s: Seq<char>, p: Seq<char>) -> Option<(Seq<char>, Seq<char>)> {
    match first_occurrence(s, p) {
        Some(i) => Some((s.subrange(0, i), s.subrange(i + p.len(), s.len() as int))),
        None => None,
    }
}

/// `s` cut at the last `p`, as `str::rsplit_once` cuts it.
pub open spec fn rsplit_once(s: Seq<char>, p: Seq<char>) -> Option<(Seq<char>, Seq<char>)> {
    match last_occurrence(s, p) {
        Some(i) => Some((s.subrange(0, i), s.subrange(i + p.len(), s.len() as int))),
        None => None,
    }
}

/// `s` up to its first character in `stops`, as `s.split(stops).next()` gives it.
#[verifier::opaque]
pub open spec fn before_any(s: Seq<char>, stops: Seq<char>) -> Seq<char> {
    if exists|i: int| 0 <= i < s.len() && stops.contains(s[i]) {
        let i = choose|i: int|
            0 <= i < s.len() && stops.contains(s[i]) && forall|j: int|
                0 <= j < i ==> !stops.contains(s[j]);
        s.subrange(0, i)
    } else {
        s
    }
}

/// The pieces of `s` joined with `sep` between each two.
pub open spec fn join(pieces: Seq<Seq<char>>, sep: Seq<char>) -> Seq<char>
    decreases pieces.len(),
{
    if pieces.len() == 0 {
        Seq::empty()
    } else if pieces.len() == 1 {
        pieces[0]
    } else {
        join(pieces.drop_last(), sep) + sep + pieces.last()
    }
}

/// A character as ASCII case-folding leaves it.
pub open spec fn ascii_fold(c: char) -> u32 {
    if 'A' <= c <= 'Z' {
        (c as u32 + 32) as u32
    } else {
        c as u32
    }
}

/// Equality up to ASCII case, as `str::eq_ignore_ascii_case` tests it.
pub open spec fn eq_ignore_ascii_case(a: Seq<char>, b: Seq<char>) -> bool {
    a.len() == b.len() && forall|i: int| 0 <= i < a.len() ==> ascii_fold(a[i]) == ascii_fold(b[i])
}

/// The decimal digits of `n`.
pub open spec fn decimal(n: nat) -> Seq<char>
    decreases n,
{
    if n < 10 {
        seq![digit_char(n)]
    } else {
        decimal(n / 10).push(digit_char(n % 10))
    }
}

pub open spec fn digit_char(d: nat) -> char {
    if d == 0 {
        '0'
    } else if d == 1 {
        '1'
    } else if d == 2 {
        '2'
    } else if d == 3 {
        '3'
    } else if d == 4 {
        '4'
    } else if d == 5 {
        '5'
    } else if d == 6 {
        '6'
    } else if d == 7 {
        '7'
    } else if d == 8 {
        '8'
    } else {
        '9'
    }
}

pub open spec fn is_digit(c: char) -> bool {
    '0' <= c <= '9'
}

/// The value of a run of decimal digits.
pub open spec fn digits_value(s: Seq<char>) -> nat
    decreases s.len(),
{
    if s.len() == 0 {
        0
    } else {
        digits_value(s.drop_last()) * 10 + (s.last() as u32 - '0' as u32) as nat
    }
}

/// The characters of `s`, in order.
pub fn chars_of(s: &str) -> (v: Vec<char>)
    ensures
        v@ == s@,
{
    broadcast use vstd::string::axiom_spec_iter;

    let mut v: Vec<char> = Vec::new();
    for c in it: s.chars()
        invariant
            v@ == it.seq().take(it.index() as int),
    {
        v.push(c);
    }
    assert(v@ =~= s@);
    v
}

/// `String: FromIterator<&char>` over the slice `v[lo..hi]`: the string whose
/// characters are those, in order.
#[verifier::external_body]
pub fn string_of(v: &[char], lo: usize, hi: usize) -> (s: String)
    requires
        lo <= hi <= v@.len(),
    ensures
        s@ == v@.subrange(lo as int, hi as int),
{
    v[lo..hi].iter().collect()
}

pub fn string_of_all(v: &Vec<char>) -> (s: String)
    ensures
        s@ == v@,
{
    let s = string_of(v.as_slice(), 0, v.len());
    assert(v@.subrange(0, v@.len() as int) == v@);
    s
}

pub fn str_of(s: &str) -> (r: String)
    ensures
        r@ == s@,
{
    let v = chars_of(s);
    string_of_all(&v)
}

pub proof fn lemma_trim_start_step(s: Seq<char>, lo: int, hi: int)
    requires
        0 <= lo < hi <= s.len(),
        is_ws(s[lo]),
    ensures
        trim_start(s.subrange(lo, hi)) == trim_start(s.subrange(lo + 1, hi)),
{
    assert(s.subrange(lo, hi).drop_first() == s.subrange(lo + 1, hi));
}

pub proof fn lemma_trim_end_step(s: Seq<char>, lo: int, hi: int)
    requires
        0 <= lo < hi <= s.len(),
        is_ws(s[hi - 1]),
    ensures
        trim_end(s.subrange(lo, hi)) == trim_end(s.subrange(lo, hi - 1)),
{
    assert(s.subrange(lo, hi).drop_last() == s.subrange(lo, hi - 1));
}

/// Leading whitespace is all that `trim_start` drops: what is left is a suffix
/// of `s`, empty exactly when `s` is all whitespace, and otherwise opening on
/// a character that is not whitespace.
pub proof fn lemma_trim_start_shape(s: Seq<char>)
    ensures
        trim_start(s).len() <= s.len(),
        trim_start(s) == s.subrange(s.len() - trim_start(s).len(), s.len() as int),
        (trim_start(s).len() == 0) <==> (forall|i: int| 0 <= i < s.len() ==> is_ws(s[i])),
        trim_start(s).len() > 0 ==> !is_ws(trim_start(s)[0]),
    decreases s.len(),
{
    if s.len() > 0 && is_ws(s[0]) {
        let t = s.drop_first();
        lemma_trim_start_shape(t);
        assert(t.subrange(t.len() - trim_start(t).len(), t.len() as int) =~= s.subrange(
            s.len() - trim_start(t).len(),
            s.len() as int,
        ));
        if forall|i: int| 0 <= i < s.len() ==> is_ws(s[i]) {
            assert forall|i: int| 0 <= i < t.len() implies is_ws(t[i]) by {
                assert(t[i] == s[i + 1]);
            }
        }
        if forall|i: int| 0 <= i < t.len() ==> is_ws(t[i]) {
            assert forall|i: int| 0 <= i < s.len() implies is_ws(s[i]) by {
                if i > 0 {
                    assert(s[i] == t[i - 1]);
                }
            }
        }
    } else {
        assert(s.subrange(0, s.len() as int) =~= s);
    }
}

/// Trailing whitespace is all that `trim_end` drops: what is left is a prefix
/// of `s` that, when not empty, closes on a character that is not whitespace.
pub proof fn lemma_trim_end_shape(s: Seq<char>)
    ensures
        trim_end(s).len() <= s.len(),
        trim_end(s) == s.subrange(0, trim_end(s).len() as int),
        trim_end(s).len() > 0 ==> !is_ws(trim_end(s).last()),
    decreases s.len(),
{
    if s.len() > 0 && is_ws(s.last()) {
        let t = s.drop_last();
        lemma_trim_end_shape(t);
        assert(t.subrange(0, trim_end(t).len() as int) =~= s.subrange(0, trim_end(t).len() as int));
    } else {
        assert(s.subrange(0, s.len() as int) =~= s);
    }
}

/// Stripping trailing whitespace keeps a first character that is not whitespace.
pub proof fn lemma_trim_end_keeps_first(t: Seq<char>)
    requires
        t.len() > 0,
        !is_ws(t[0]),
    ensures
        trim_end(t).len() > 0,
    decreases t.len(),
{
    if is_ws(t.last()) {
        assert(t.drop_last()[0] == t[0]);
        lemma_trim_end_keeps_first(t.drop_last());
    }
}

/// A text is blank exactly when every character of it is whitespace.
pub proof fn lemma_blank_iff_all_ws(s: Seq<char>)
    ensures
        is_blank(s) <==> forall|i: int| 0 <= i < s.len() ==> is_ws(s[i]),
{
    lemma_trim_start_shape(s);
    if trim_start(s).len() > 0 {
        lemma_trim_end_keeps_first(trim_start(s));
    }
}

/// Trimming twice trims no further: a trimmed text has no whitespace at
/// either end.
pub proof fn lemma_trim_idempotent(s: Seq<char>)
    ensures
        trim(trim(s)) == trim(s),
{
    let y = trim_start(s);
    let z = trim_end(y);
    lemma_trim_start_shape(s);
    lemma_trim_end_shape(y);
    if z.len() > 0 {
        assert(z[0] == y[0]);
        assert(trim_start(z) == z);
        assert(trim_end(z) == z);
    } else {
        assert(trim_start(z) == z);
    }
}

/// Joining splits at any piece boundary: the pieces before it joined, the
/// separator, then the pieces from it joined.
pub proof fn lemma_join_split(pieces: Seq<Seq<char>>, sep: Seq<char>, m: int)
    requires
        0 < m < pieces.len(),
    ensures
        join(pieces, sep) == join(pieces.subrange(0, m), sep) + sep + join(
            pieces.subrange(m, pieces.len() as int),
            sep,
        ),
    decreases pieces.len(),
{
    let n = pieces.len() as int;
    let init = pieces.drop_last();
    assert(join(pieces, sep) == join(init, sep) + sep + pieces.last());
    assert(init.subrange(0, m) =~= pieces.subrange(0, m));
    if m == n - 1 {
        assert(init =~= pieces.subrange(0, m));
        let tail = pieces.subrange(m, n);
        assert(tail.len() == 1);
        assert(join(tail, sep) == tail[0]);
    } else {
        lemma_join_split(init, sep, m);
        let mid = init.subrange(m, n - 1);
        let tail = pieces.subrange(m, n);
        assert(tail.drop_last() =~= mid);
        assert(tail.last() == pieces.last());
        assert(join(tail, sep) == join(mid, sep) + sep + pieces.last());
        assert(join(pieces, sep) =~= join(pieces.subrange(0, m), sep) + sep + join(tail, sep));
    }
}

/// Each piece stands whole inside the joined text, at the offset returned.
pub proof fn lemma_join_holds_piece(pieces: Seq<Seq<char>>, sep: Seq<char>, j: int) -> (o: int)
    requires
        0 <= j < pieces.len(),
    ensures
        0 <= o,
        j == 0 ==> o == 0,
        o + pieces[j].len() <= join(pieces, sep).len(),
        forall|t: int| 0 <= t < pieces[j].len() ==> join(pieces, sep)[o + t] == pieces[j][t],
    decreases pieces.len(),
{
    if pieces.len() == 1 {
        0
    } else {
        let init = join(pieces.drop_last(), sep);
        assert(join(pieces, sep) == init + sep + pieces.last());
        if j == pieces.len() - 1 {
            let o: int = (init.len() + sep.len()) as int;
            assert forall|t: int| 0 <= t < pieces[j].len() implies join(pieces, sep)[o + t]
                == pieces[j][t] by {
                assert((init + sep + pieces.last())[o + t] == pieces.last()[t]);
            }
            o
        } else {
            let o: int = lemma_join_holds_piece(pieces.drop_last(), sep, j);
            assert(pieces.drop_last()[j] == pieces[j]);
            assert forall|t: int| 0 <= t < pieces[j].len() implies join(pieces, sep)[o + t]
                == pieces[j][t] by {
                assert((init + sep + pieces.last())[o + t] == init[o + t]);
            }
            o
        }
    }
}

/// Where the text of `s[lo..hi]` starts once leading whitespace is skipped.
pub fn skip_ws(s: &Vec<char>, lo: usize, hi: usize) -> (i: usize)
    requires
        lo <= hi <= s@.len(),
    ensures
        lo <= i <= hi,
        s@.subrange(i as int, hi as int) == trim_start(s@.subrange(lo as int, hi as int)),
{
    let mut i = lo;
    while i < hi && is_ws_char(s[i])
        invariant
            lo <= i <= hi <= s@.len(),
            trim_start(s@.subrange(i as int, hi as int)) == trim_start(
                s@.subrange(lo as int, hi as int),
            ),
        decreases hi - i,
    {
        proof {
            lemma_trim_start_step(s@, i as int, hi as int);
        }
        i = i + 1;
    }
    i
}

/// Where the text of `s[lo..hi]` ends once trailing whitespace is dropped.
pub fn back_ws(s: &Vec<char>, lo: usize, hi: usize) -> (j: usize)
    requires
        lo <= hi <= s@.len(),
    ensures
        lo <= j <= hi,
        s@.subrange(lo as int, j as int) == trim_end(s@.subrange(lo as int, hi as int)),
{
    let mut j = hi;
    while j > lo && is_ws_char(s[j - 1])
        invariant
            lo <= j <= hi <= s@.len(),
            trim_end(s@.subrange(lo as int, j as int)) == trim_end(
                s@.subrange(lo as int, hi as int),
            ),
        decreases j - lo,
    {
        proof {
            lemma_trim_end_step(s@, lo as int, j as int);
        }
        j = j - 1;
    }
    j
}

/// The bounds of `s[lo..hi]` trimmed at both ends.
pub fn trim_range(s: &Vec<char>, lo: usize, hi: usize) -> (r: (usize, usize))
    requires
        lo <= hi <= s@.len(),
    ensures
        lo <= r.0 <= r.1 <= hi,
        s@.subrange(r.0 as int, r.1 as int) == trim(s@.subrange(lo as int, hi as int)),
{
    let a = skip_ws(s, lo, hi);
    let b = back_ws(s, a, hi);
    (a, b)
}

/// `s[lo..hi]` holds nothing but whitespace.
pub fn blank_range(s: &Vec<char>, lo: usize, hi: usize) -> (b: bool)
    requires
        lo <= hi <= s@.len(),
    ensures
        b == is_blank(s@.subrange(lo as int, hi as int)),
{
    let (a, e) = trim_range(s, lo, hi);
    a == e
}

/// `p` occurs in `s` at `i`.
pub fn occurs_at_exec(s: &Vec<char>, p: &Vec<char>, i: usize) -> (b: bool)
    ensures
        b == occurs_at(s@, p@, i as int),
{
    if p.len() > s.len() || i > s.len() - p.len() {
        return false;
    }
    let sl = s.len();
    let mut k: usize = 0;
    while k < p.len()
        invariant
            sl == s@.len(),
            i + p@.len() <= s@.len(),
            k <= p@.len(),
            forall|m: int| 0 <= m < k ==> s@[i + m] == p@[m],
        decreases p@.len() - k,
    {
        assert(i + k < s@.len());
        if s[i + k] != p[k] {
            assert(s@.subrange(i as int, i + p@.len())[k as int] != p@[k as int]);
            return false;
        }
        k = k + 1;
    }
    assert(s@.subrange(i as int, i + p@.len()) =~= p@);
    true
}

/// The first position in `s[lo..hi]` at which `p` occurs inside that range.
pub fn find_from(s: &Vec<char>, lo: usize, hi: usize, p: &Vec<char>) -> (r: Option<usize>)
    requires
        lo <= hi <= s@.len(),
    ensures
        match r {
            Some(i) => lo <= i && i + p@.len() <= hi && occurs_at(s@, p@, i as int) && forall|
                j: int,
            |
                lo <= j < i ==> !occurs_at(s@, p@, j),
            None => forall|j: int| lo <= j && j + p@.len() <= hi ==> !occurs_at(s@, p@, j),
        },
{
    if p.len() > hi - lo {
        return None;
    }
    let last = hi - p.len();
    let mut i = lo;
    loop
        invariant
            lo <= i <= last,
            last + p@.len() == hi,
            hi <= s@.len(),
            forall|j: int| lo <= j < i ==> !occurs_at(s@, p@, j),
        decreases last - i,
    {
        if occurs_at_exec(s, p, i) {
            return Some(i);
        }
        if i == last {
            return None;
        }
        i = i + 1;
    }
}

pub proof fn lemma_occurs_in_range(s: Seq<char>, p: Seq<char>, lo: int, hi: int, i: int)
    requires
        0 <= lo <= hi <= s.len(),
        lo <= i,
        i + p.len() <= hi,
    ensures
        occurs_at(s.subrange(lo, hi), p, i - lo) == occurs_at(s, p, i),
{
    assert(s.subrange(lo, hi).subrange(i - lo, i - lo + p.len()) =~= s.subrange(i, i + p.len()));
}

pub proof fn lemma_first_is(s: Seq<char>, p: Seq<char>, i: int)
    requires
        occurs_at(s, p, i),
        forall|j: int| 0 <= j < i ==> !occurs_at(s, p, j),
    ensures
        first_occurrence(s, p) == Some(i),
{
    reveal(first_occurrence);
    let c = choose|c: int| occurs_at(s, p, c) && forall|j: int| 0 <= j < c ==> !occurs_at(s, p, j);
    assert(occurs_at(s, p, c));
    if c < i {
        assert(!occurs_at(s, p, c));
    }
    if c > i {
        assert(!occurs_at(s, p, i));
    }
}

pub proof fn lemma_last_is(s: Seq<char>, p: Seq<char>, i: int)
    requires
        occurs_at(s, p, i),
        forall|j: int| i < j <= s.len() ==> !occurs_at(s, p, j),
    ensures
        last_occurrence(s, p) == Some(i),
{
    reveal(last_occurrence);
    let c = choose|c: int|
        occurs_at(s, p, c) && forall|j: int| c < j <= s.len() ==> !occurs_at(s, p, j);
    assert(occurs_at(s, p, c));
    if c < i {
        assert(!occurs_at(s, p, i));
    }
    if c > i {
        assert(!occurs_at(s, p, c));
    }
}

/// The first occurrence of `p` in `s[lo..hi]`, as a position in that slice.
pub fn find_in(s: &Vec<char>, lo: usize, hi: usize, p: &Vec<char>) -> (r: Option<usize>)
    requires
        lo <= hi <= s@.len(),
    ensures
        match r {
            Some(q) => lo <= q && q + p@.len() <= hi && first_occurrence(
                s@.subrange(lo as int, hi as int),
                p@,
            ) == Some(q - lo),
            None => first_occurrence(s@.subrange(lo as int, hi as int), p@) is None,
        },
{
    let ghost t = s@.subrange(lo as int, hi as int);
    let r = find_from(s, lo, hi, p);
    match r {
        Some(i) => {
            proof {
                lemma_occurs_in_range(s@, p@, lo as int, hi as int, i as int);
                assert forall|j: int| 0 <= j < i - lo implies !occurs_at(t, p@, j) by {
                    lemma_occurs_in_range(s@, p@, lo as int, hi as int, j + lo);
                }
                lemma_first_is(t, p@, i - lo);
            }
            Some(i)
        },
        None => {
            proof {
                reveal(first_occurrence);
                assert forall|j: int| !occurs_at(t, p@, j) by {
                    if 0 <= j && j + p@.len() <= t.len() {
                        lemma_occurs_in_range(s@, p@, lo as int, hi as int, j + lo);
                    }
                }
            }
            None
        },
    }
}

/// The last occurrence of `p` in `s[lo..hi]`, as a position in that slice.
pub fn rfind_in(s: &Vec<char>, lo: usize, hi: usize, p: &Vec<char>) -> (r: Option<usize>)
    requires
        lo <= hi <= s@.len(),
    ensures
        match r {
            Some(q) => lo <= q && q + p@.len() <= hi && last_occurrence(
                s@.subrange(lo as int, hi as int),
                p@,
            ) == Some(q - lo),
            None => last_occurrence(s@.subrange(lo as int, hi as int), p@) is None,
        },
{
    let ghost t = s@.subrange(lo as int, hi as int);
    if p.len() > hi - lo {
        assert forall|j: int| !occurs_at(t, p@, j) by {}
        assert(last_occurrence(t, p@) is None) by { reveal(last_occurrence); }
        return None;
    }
    let mut i = hi - p.len();
    loop
        invariant
            lo <= i,
            i + p@.len() <= hi <= s@.len(),
            t == s@.subrange(lo as int, hi as int),
            forall|j: int| i - lo < j <= t.len() ==> !occurs_at(t, p@, j),
        decreases i,
    {
        let found = occurs_at_exec(s, p, i);
        proof {
            lemma_occurs_in_range(s@, p@, lo as int, hi as int, i as int);
        }
        if found {
            proof {
                lemma_last_is(t, p@, i - lo);
            }
            return Some(i);
        }
        if i == lo {
            assert forall|j: int| !occurs_at(t, p@, j) by {}
            assert(last_occurrence(t, p@) is None) by { reveal(last_occurrence); }
            return None;
        }
        i = i - 1;
    }
}

/// `s[lo..hi]` up to its first character in `stops`: the end of that prefix.
pub fn until_any(s: &Vec<char>, lo: usize, hi: usize, stops: &Vec<char>) -> (e: usize)
    requires
        lo <= hi <= s@.len(),
    ensures
        lo <= e <= hi,
        s@.subrange(lo as int, e as int) == before_any(s@.subrange(lo as int, hi as int), stops@),
{
    let ghost t = s@.subrange(lo as int, hi as int);
    reveal(before_any);
    let mut i = lo;
    while i < hi
        invariant
            lo <= i <= hi <= s@.len(),
            t == s@.subrange(lo as int, hi as int),
            forall|j: int| 0 <= j < i - lo ==> !stops@.contains(t[j]),
        decreases hi - i,
    {
        let mut k: usize = 0;
        let mut hit = false;
        while k < stops.len()
            invariant
                k <= stops@.len(),
                i < hi <= s@.len(),
                hit == exists|m: int| 0 <= m < k && stops@[m] == s@[i as int],
            decreases stops@.len() - k,
        {
            if stops[k] == s[i] {
                hit = true;
            }
            k = k + 1;
        }
        assert(t[i - lo] == s@[i as int]);
        if hit {
            proof {
                reveal(before_any);
                assert(stops@.contains(t[i - lo]));
                let c = choose|c: int|
                    0 <= c < t.len() && stops@.contains(t[c]) && forall|j: int|
                        0 <= j < c ==> !stops@.contains(t[j]);
                assert(c == i - lo);
                assert(s@.subrange(lo as int, i as int) =~= t.subrange(0, c));
            }
            return i;
        }
        assert(!stops@.contains(t[i - lo]));
        i = i + 1;
    }
    assert(s@.subrange(lo as int, hi as int) =~= t);
    i
}

/// Whether `s[lo..hi]` starts with `p`.
pub fn starts_with_at(s: &Vec<char>, lo: usize, hi: usize, p: &Vec<char>) -> (b: bool)
    requires
        lo <= hi <= s@.len(),
    ensures
        b == starts_with(s@.subrange(lo as int, hi as int), p@),
{
    if p.len() > hi - lo {
        return false;
    }
    let r = occurs_at_exec(s, p, lo);
    proof {
        lemma_occurs_in_range(s@, p@, lo as int, hi as int, lo as int);
    }
    r
}

pub fn ascii_fold_exec(c: char) -> (u: u32)
    ensures
        u == ascii_fold(c),
{
    if 'A' <= c && c <= 'Z' {
        c as u32 + 32
    } else {
        c as u32
    }
}

/// Equality of `a[alo..ahi]` and `b` up to ASCII case.
pub fn eq_ignore_case_range(a: &Vec<char>, alo: usize, ahi: usize, b: &Vec<char>) -> (r: bool)
    requires
        alo <= ahi <= a@.len(),
    ensures
        r == eq_ignore_ascii_case(a@.subrange(alo as int, ahi as int), b@),
{
    let ghost t = a@.subrange(alo as int, ahi as int);
    if ahi - alo != b.len() {
        return false;
    }
    let mut k: usize = 0;
    while k < b.len()
        invariant
            k <= b@.len(),
            ahi - alo == b@.len(),
            ahi <= a@.len(),
            t == a@.subrange(alo as int, ahi as int),
            forall|m: int| 0 <= m < k ==> ascii_fold(t[m]) == ascii_fold(b@[m]),
        decreases b@.len() - k,
    {
        if ascii_fold_exec(a[alo + k]) != ascii_fold_exec(b[k]) {
            assert(t[k as int] == a@[alo + k]);
            return false;
        }
        assert(t[k as int] == a@[alo + k]);
        k = k + 1;
    }
    true
}

pub fn digit_char_exec(d: usize) -> (c: char)
    requires
        d < 10,
    ensures
        c == digit_char(d as nat),
{
    if d == 0 {
        '0'
    } else if d == 1 {
        '1'
    } else if d == 2 {
        '2'
    } else if d == 3 {
        '3'
    } else if d == 4 {
        '4'
    } else if d == 5 {
        '5'
    } else if d == 6 {
        '6'
    } else if d == 7 {
        '7'
    } else if d == 8 {
        '8'
    } else {
        '9'
    }
}

/// The decimal digits of `n`, as `usize`'s `Display` writes them.
pub fn decimal_chars(n: usize) -> (v: Vec<char>)
    ensures
        v@ == decimal(n as nat),
    decreases n,
{
    if n < 10 {
        let mut v = Vec::new();
        v.push(digit_char_exec(n));
        v
    } else {
        let mut v = decimal_chars(n / 10);
        v.push(digit_char_exec(n % 10));
        v
    }
}

pub fn decimal_string(n: usize) -> (s: String)
    ensures
        s@ == decimal(n as nat),
{
    let v = decimal_chars(n);
    string_of_all(&v)
}

/// Append `s[lo..hi]` to `out`.
pub fn push_range(out: &mut Vec<char>, s: &Vec<char>, lo: usize, hi: usize)
    requires
        lo <= hi <= s@.len(),
    ensures
        final(out)@ == old(out)@ + s@.subrange(lo as int, hi as int),
{
    let ghost o = out@;
    let mut k = lo;
    while k < hi
        invariant
            lo <= k <= hi <= s@.len(),
            out@ == o + s@.subrange(lo as int, k as int),
        decreases hi - k,
    {
        out.push(s[k]);
        k = k + 1;
        assert(out@ =~= o + s@.subrange(lo as int, k as int));
    }
}

pub fn push_all(out: &mut Vec<char>, s: &Vec<char>)
    ensures
        final(out)@ == old(out)@ + s@,
{
    push_range(out, s, 0, s.len());
    assert(s@.subrange(0, s@.len() as int) =~= s@);
}

} // verus!
