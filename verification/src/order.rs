//! The order strings sort in: character by character, by code point, a prefix
//! before what extends it. It is the order `String`'s `Ord` gives, since UTF-8
//! keeps code point order in its bytes.

use vstd::prelude::*;

verus! {

pub open spec fn lex_lt(a: Seq<char>, b: Seq<char>) -> bool
    decreases a.len(),
{
    if a.len() == 0 {
        b.len() > 0
    } else if b.len() == 0 {
        false
    } else if a[0] < b[0] {
        true
    } else if a[0] > b[0] {
        false
    } else {
        lex_lt(a.drop_first(), b.drop_first())
    }
}

/// Each element sorts strictly before the next, so none repeats.
pub open spec fn sorted_strict(s: Seq<Seq<char>>) -> bool {
    forall|i: int, j: int| 0 <= i < j < s.len() ==> lex_lt(s[i], s[j])
}

pub proof fn lemma_lex_irreflexive(a: Seq<char>)
    ensures
        !lex_lt(a, a),
    decreases a.len(),
{
    if a.len() > 0 {
        lemma_lex_irreflexive(a.drop_first());
    }
}

pub proof fn lemma_lex_asym(a: Seq<char>, b: Seq<char>)
    ensures
        !(lex_lt(a, b) && lex_lt(b, a)),
    decreases a.len(),
{
    if a.len() > 0 && b.len() > 0 && a[0] == b[0] {
        lemma_lex_asym(a.drop_first(), b.drop_first());
    }
}

pub proof fn lemma_lex_trans(a: Seq<char>, b: Seq<char>, c: Seq<char>)
    requires
        lex_lt(a, b),
        lex_lt(b, c),
    ensures
        lex_lt(a, c),
    decreases a.len(),
{
    if a.len() > 0 && b.len() > 0 && c.len() > 0 && a[0] == b[0] && b[0] == c[0] {
        lemma_lex_trans(a.drop_first(), b.drop_first(), c.drop_first());
    }
}

pub proof fn lemma_lex_total(a: Seq<char>, b: Seq<char>)
    requires
        a != b,
    ensures
        lex_lt(a, b) || lex_lt(b, a),
    decreases a.len(),
{
    if a.len() > 0 && b.len() > 0 {
        if a[0] == b[0] {
            if a.drop_first() == b.drop_first() {
                assert(a =~= seq![a[0]] + a.drop_first());
                assert(b =~= seq![b[0]] + b.drop_first());
            }
            lemma_lex_total(a.drop_first(), b.drop_first());
        }
    } else if a.len() == 0 && b.len() == 0 {
        assert(a =~= b);
    }
}

/// Whether `a` sorts before `b`.
pub fn str_lt(a: &String, b: &String) -> (r: bool)
    ensures
        r == lex_lt(a@, b@),
{
    let x = crate::text::chars_of(a.as_str());
    let y = crate::text::chars_of(b.as_str());
    let mut i: usize = 0;
    assert(x@.subrange(0, x@.len() as int) =~= x@);
    assert(y@.subrange(0, y@.len() as int) =~= y@);
    while i < x.len() && i < y.len() && x[i] == y[i]
        invariant
            i <= x@.len(),
            i <= y@.len(),
            lex_lt(x@, y@) == lex_lt(x@.subrange(i as int, x@.len() as int), y@.subrange(i as int, y@.len() as int)),
        decreases x@.len() - i,
    {
        proof {
            let xs = x@.subrange(i as int, x@.len() as int);
            let ys = y@.subrange(i as int, y@.len() as int);
            assert(xs.drop_first() =~= x@.subrange(i + 1, x@.len() as int));
            assert(ys.drop_first() =~= y@.subrange(i + 1, y@.len() as int));
            assert(xs[0] == x@[i as int]);
            assert(ys[0] == y@[i as int]);
        }
        i = i + 1;
    }
    let ghost xs = x@.subrange(i as int, x@.len() as int);
    let ghost ys = y@.subrange(i as int, y@.len() as int);
    if i == x.len() {
        return i < y.len();
    }
    if i == y.len() {
        return false;
    }
    assert(xs[0] == x@[i as int]);
    assert(ys[0] == y@[i as int]);
    x[i] < y[i]
}

/// Add `x` to the strictly sorted `v`, where it is not there already.
pub fn insert_sorted(v: &mut Vec<String>, x: String)
    requires
        sorted_strict(old(v)@.map_values(|s: String| s@)),
    ensures
        sorted_strict(final(v)@.map_values(|s: String| s@)),
        final(v)@.map_values(|s: String| s@).to_set() == old(v)@.map_values(|s: String| s@).to_set().insert(x@),
{
    let ghost sv = v@.map_values(|s: String| s@);
    let mut i: usize = 0;
    while i < v.len() && str_lt(&v[i], &x)
        invariant
            i <= v@.len(),
            sv == v@.map_values(|s: String| s@),
            sorted_strict(sv),
            forall|j: int| 0 <= j < i ==> lex_lt(#[trigger] sv[j], x@),
        decreases v@.len() - i,
    {
        i = i + 1;
    }
    if i < v.len() && v[i] == x {
        assert(sv[i as int] == x@);
        assert(sv.to_set().insert(x@) =~= sv.to_set());
        return;
    }
    proof {
        if i < sv.len() {
            assert(!lex_lt(sv[i as int], x@));
            assert(sv[i as int] != x@);
            lemma_lex_total(sv[i as int], x@);
            assert(lex_lt(x@, sv[i as int]));
            assert forall|j: int| i < j < sv.len() implies lex_lt(x@, #[trigger] sv[j]) by {
                lemma_lex_trans(x@, sv[i as int], sv[j]);
            }
        }
    }
    let ghost xv = x@;
    v.insert(i, x);
    proof {
        let nv = v@.map_values(|s: String| s@);
        assert(nv =~= sv.insert(i as int, xv));
        assert forall|a: int, b: int| 0 <= a < b < nv.len() implies lex_lt(nv[a], nv[b]) by {
            if b < i {
            } else if b == i {
            } else if a < i {
                assert(nv[b] == sv[b - 1]);
                if a == i - 1 {
                } else {
                }
                if b - 1 > i {
                    assert(lex_lt(xv, sv[b - 1]));
                }
                lemma_lex_trans(sv[a], xv, sv[b - 1]);
            } else if a == i {
                assert(nv[b] == sv[b - 1]);
            } else {
                assert(nv[a] == sv[a - 1]);
                assert(nv[b] == sv[b - 1]);
            }
        }
        assert(nv.to_set() =~= sv.to_set().insert(xv)) by {
            assert forall|t: Seq<char>| nv.to_set().contains(t) implies sv.to_set().insert(xv).contains(t) by {
                let k = choose|k: int| 0 <= k < nv.len() && nv[k] == t;
                if k < i {
                    assert(sv[k] == t);
                } else if k > i {
                    assert(sv[k - 1] == t);
                }
            }
            assert forall|t: Seq<char>| sv.to_set().insert(xv).contains(t) implies nv.to_set().contains(t) by {
                if t == xv {
                    assert(nv[i as int] == t);
                } else {
                    let k = choose|k: int| 0 <= k < sv.len() && sv[k] == t;
                    if k < i {
                        assert(nv[k] == t);
                    } else {
                        assert(nv[k + 1] == t);
                    }
                }
            }
        }
    }
}

} // verus!
