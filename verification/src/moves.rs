//! Which files only moved: a path that is gone handing its records to a path
//! that arrived carrying the same content.

use vstd::prelude::*;

use crate::order::{lemma_lex_asym, lemma_lex_irreflexive, lemma_lex_total, lemma_lex_trans, lex_lt, str_lt};
use crate::sections::strings_view;
use crate::store::{Stamp, Stamps, find_path, has_path, paths_unique, stamp_lookup, stamp_of, stamps_view};

verus! {

/// A path with the content hash it carries.
pub type Keyed = (Seq<char>, u64);

/// Each path sorts strictly before the next, so none repeats.
pub open spec fn key_sorted(s: Seq<Keyed>) -> bool {
    forall|i: int, j: int| 0 <= i < j < s.len() ==> lex_lt(s[i].0, s[j].0)
}

/// The paths of `s` in order, each once, as `s` holds them.
pub open spec fn sorted_of(set: Set<Keyed>) -> Seq<Keyed> {
    choose|s: Seq<Keyed>| key_sorted(s) && s.to_set() == set
}

/// The paths that are gone: recorded before and absent now, with the hash
/// they were recorded with.
pub open spec fn gone_set(prev: Seq<(Seq<char>, Stamp)>, current: Seq<(Seq<char>, Stamp)>) -> Set<Keyed> {
    Set::new(
        |e: Keyed|
            exists|i: int|
                0 <= i < prev.len() && (#[trigger] prev[i]).0 == e.0 && prev[i].1.hash == e.1
                    && !has_path(current, e.0),
    )
}

/// The paths that arrived: changed, never recorded before, with the hash they
/// carry now.
pub open spec fn arrived_set(
    prev: Seq<(Seq<char>, Stamp)>,
    current: Seq<(Seq<char>, Stamp)>,
    changed: Seq<Seq<char>>,
) -> Set<Keyed> {
    Set::new(
        |e: Keyed|
            exists|i: int|
                0 <= i < changed.len() && #[trigger] changed[i] == e.0 && !has_path(prev, e.0)
                    && (stamp_of(current, e.0) matches Some(st) && st.hash == e.1),
    )
}

/// Where the first path carrying hash `h` stands in `pool`.
pub open spec fn first_with_hash(pool: Seq<Keyed>, h: u64) -> Option<int> {
    if exists|j: int| 0 <= j < pool.len() && pool[j].1 == h {
        Some(choose|j: int| 0 <= j < pool.len() && pool[j].1 == h && forall|m: int| 0 <= m < j ==> pool[m].1 != h)
    } else {
        None
    }
}

/// Each arrival, in order, takes the first departure left in `pool` that
/// carries its hash.
pub open spec fn moves_spec(arrived: Seq<Keyed>, pool: Seq<Keyed>) -> Seq<(Seq<char>, Seq<char>)>
    decreases arrived.len(),
{
    if arrived.len() == 0 {
        Seq::empty()
    } else {
        match first_with_hash(pool, arrived[0].1) {
            Some(j) => seq![(pool[j].0, arrived[0].0)] + moves_spec(arrived.drop_first(), pool.remove(j)),
            None => moves_spec(arrived.drop_first(), pool),
        }
    }
}

/// The moves `pair_moves` finds: arrivals in path order, each given the
/// departure with the same hash that sorts first among those not yet given.
pub open spec fn pair_moves_spec(
    prev: Seq<(Seq<char>, Stamp)>,
    current: Seq<(Seq<char>, Stamp)>,
    changed: Seq<Seq<char>>,
) -> Seq<(Seq<char>, Seq<char>)> {
    moves_spec(sorted_of(arrived_set(prev, current, changed)), sorted_of(gone_set(prev, current)))
}

pub open spec fn moves_view(v: Seq<(String, String)>) -> Seq<(Seq<char>, Seq<char>)> {
    v.map_values(|e: (String, String)| (e.0@, e.1@))
}

pub open spec fn keyed_view(v: Seq<(String, u64)>) -> Seq<Keyed> {
    v.map_values(|e: (String, u64)| (e.0@, e.1))
}

pub proof fn lemma_sorted_unique(a: Seq<Keyed>, b: Seq<Keyed>)
    requires
        key_sorted(a),
        key_sorted(b),
        a.to_set() == b.to_set(),
    ensures
        a == b,
    decreases a.len(),
{
    if a.len() == 0 {
        if b.len() > 0 {
            assert(b.to_set().contains(b[0]));
        }
        assert(a =~= b);
    } else if b.len() == 0 {
        assert(a.to_set().contains(a[0]));
    } else {
        assert(a.to_set().contains(a[0]));
        assert(b.to_set().contains(b[0]));
        let ia = choose|i: int| 0 <= i < b.len() && b[i] == a[0];
        let ib = choose|i: int| 0 <= i < a.len() && a[i] == b[0];
        if ia > 0 {
            assert(lex_lt(b[0].0, b[ia].0));
            if ib > 0 {
                assert(lex_lt(a[0].0, a[ib].0));
                lemma_lex_asym(a[0].0, b[0].0);
            } else {
                lemma_lex_irreflexive(a[0].0);
            }
        } else if ib > 0 {
            assert(lex_lt(a[0].0, a[ib].0));
            lemma_lex_irreflexive(b[0].0);
        }
        assert(a[0] == b[0]);
        let a1 = a.drop_first();
        let b1 = b.drop_first();
        assert forall|e: Keyed| a1.to_set().contains(e) implies b1.to_set().contains(e) by {
            let i = choose|i: int| 0 <= i < a1.len() && a1[i] == e;
            assert(a.to_set().contains(e));
            let j = choose|j: int| 0 <= j < b.len() && b[j] == e;
            assert(lex_lt(a[0].0, a[i + 1].0));
            if j == 0 {
                lemma_lex_irreflexive(a[0].0);
            }
            assert(b1[j - 1] == e);
        }
        assert forall|e: Keyed| b1.to_set().contains(e) implies a1.to_set().contains(e) by {
            let i = choose|i: int| 0 <= i < b1.len() && b1[i] == e;
            assert(b.to_set().contains(e));
            let j = choose|j: int| 0 <= j < a.len() && a[j] == e;
            assert(lex_lt(b[0].0, b[i + 1].0));
            if j == 0 {
                lemma_lex_irreflexive(b[0].0);
            }
            assert(a1[j - 1] == e);
        }
        assert(a1.to_set() =~= b1.to_set());
        lemma_sorted_unique(a1, b1);
        assert(a =~= seq![a[0]] + a1);
        assert(b =~= seq![b[0]] + b1);
    }
}

pub proof fn lemma_sorted_of(s: Seq<Keyed>)
    requires
        key_sorted(s),
    ensures
        sorted_of(s.to_set()) == s,
{
    let c = sorted_of(s.to_set());
    assert(key_sorted(c) && c.to_set() == s.to_set());
    lemma_sorted_unique(c, s);
}

/// Add `(k, h)` to `v`, whose paths are strictly sorted and do not hold `k`.
pub fn insert_keyed(v: &mut Vec<(String, u64)>, k: String, h: u64)
    requires
        key_sorted(keyed_view(old(v)@)),
        forall|i: int| 0 <= i < old(v)@.len() ==> old(v)@[i].0@ != k@,
    ensures
        key_sorted(keyed_view(final(v)@)),
        keyed_view(final(v)@).to_set() == keyed_view(old(v)@).to_set().insert((k@, h)),
{
    let ghost sv = keyed_view(v@);
    let ghost kv = k@;
    let mut i: usize = 0;
    while i < v.len() && str_lt(&v[i].0, &k)
        invariant
            i <= v@.len(),
            sv == keyed_view(v@),
            kv == k@,
            key_sorted(sv),
            forall|j: int| 0 <= j < i ==> lex_lt(#[trigger] sv[j].0, kv),
        decreases v@.len() - i,
    {
        assert(sv[i as int].0 == v@[i as int].0@);
        i = i + 1;
    }
    proof {
        if i < sv.len() {
            assert(sv[i as int].0 == v@[i as int].0@);
            assert(sv[i as int].0 != kv);
            lemma_lex_total(sv[i as int].0, kv);
            assert forall|j: int| i < j < sv.len() implies lex_lt(kv, #[trigger] sv[j].0) by {
                lemma_lex_trans(kv, sv[i as int].0, sv[j].0);
            }
        }
    }
    v.insert(i, (k, h));
    proof {
        let nv = keyed_view(v@);
        let e = (kv, h);
        assert(nv =~= sv.insert(i as int, e));
        assert forall|a: int, b: int| 0 <= a < b < nv.len() implies lex_lt(nv[a].0, nv[b].0) by {
            if b < i {
            } else if b == i {
            } else if a < i {
                if b - 1 > i {
                    assert(lex_lt(kv, sv[b - 1].0));
                }
                lemma_lex_trans(sv[a].0, kv, sv[b - 1].0);
            } else if a == i {
            } else {
                assert(nv[a] == sv[a - 1]);
                assert(nv[b] == sv[b - 1]);
            }
        }
        assert(nv.to_set() =~= sv.to_set().insert(e)) by {
            assert forall|t: Keyed| nv.to_set().contains(t) implies sv.to_set().insert(e).contains(t) by {
                let k2 = choose|k2: int| 0 <= k2 < nv.len() && nv[k2] == t;
                if k2 < i {
                    assert(sv[k2] == t);
                } else if k2 > i {
                    assert(sv[k2 - 1] == t);
                }
            }
            assert forall|t: Keyed| sv.to_set().insert(e).contains(t) implies nv.to_set().contains(t) by {
                if t == e {
                    assert(nv[i as int] == t);
                } else {
                    let k2 = choose|k2: int| 0 <= k2 < sv.len() && sv[k2] == t;
                    if k2 < i {
                        assert(nv[k2] == t);
                    } else {
                        assert(nv[k2 + 1] == t);
                    }
                }
            }
        }
    }
}

/// The move `mv` hands a departure in `pool` to an arrival in `arrived` that
/// carries the same hash.
pub open spec fn move_ok(arrived: Seq<Keyed>, pool: Seq<Keyed>, mv: (Seq<char>, Seq<char>)) -> bool {
    exists|i: int, j: int|
        0 <= i < pool.len() && 0 <= j < arrived.len() && pool[i].0 == mv.0 && arrived[j].0 == mv.1
            && pool[i].1 == arrived[j].1
}

/// Every move pairs a departure in `pool` with an arrival in `arrived`
/// carrying the same hash, no departure gives twice and no arrival takes twice.
pub open spec fn moves_sound(arrived: Seq<Keyed>, pool: Seq<Keyed>, out: Seq<(Seq<char>, Seq<char>)>) -> bool {
    &&& (forall|k: int| 0 <= k < out.len() ==> #[trigger] move_ok(arrived, pool, out[k]))
    &&& (forall|k: int, m: int| 0 <= k < m < out.len() ==> out[k].0 != out[m].0 && out[k].1 != out[m].1)
}

pub proof fn lemma_first_with_hash(pool: Seq<Keyed>, h: u64)
    ensures
        match first_with_hash(pool, h) {
            Some(j) => 0 <= j < pool.len() && pool[j].1 == h,
            None => forall|m: int| 0 <= m < pool.len() ==> pool[m].1 != h,
        },
{
    if exists|j: int| 0 <= j < pool.len() && pool[j].1 == h {
        let w = choose|j: int| 0 <= j < pool.len() && pool[j].1 == h;
        lemma_first_hash_exists(pool, h, w);
    }
}

pub proof fn lemma_first_hash_exists(pool: Seq<Keyed>, h: u64, w: int)
    requires
        0 <= w < pool.len(),
        pool[w].1 == h,
    ensures
        exists|j: int| 0 <= j < pool.len() && pool[j].1 == h && forall|m: int| 0 <= m < j ==> pool[m].1 != h,
    decreases w,
{
    if exists|m: int| 0 <= m < w && pool[m].1 == h {
        let m = choose|m: int| 0 <= m < w && pool[m].1 == h;
        lemma_first_hash_exists(pool, h, m);
    }
}

pub proof fn lemma_key_sorted_tail(s: Seq<Keyed>)
    requires
        key_sorted(s),
        s.len() > 0,
    ensures
        key_sorted(s.drop_first()),
        forall|x: int| 0 <= x < s.len() - 1 ==> #[trigger] s.drop_first()[x] == s[x + 1],
{
    let a1 = s.drop_first();
    assert forall|x: int, y: int| 0 <= x < y < a1.len() implies lex_lt(a1[x].0, a1[y].0) by {
        assert(a1[x] == s[x + 1] && a1[y] == s[y + 1]);
    }
}

pub proof fn lemma_key_sorted_remove(s: Seq<Keyed>, j: int)
    requires
        key_sorted(s),
        0 <= j < s.len(),
    ensures
        key_sorted(s.remove(j)),
        forall|x: int| 0 <= x < s.len() - 1 ==> #[trigger] s.remove(j)[x] == s[if x < j { x } else { x + 1 }],
        forall|x: int| 0 <= x < s.len() - 1 ==> #[trigger] s.remove(j)[x].0 != s[j].0,
{
    let p1 = s.remove(j);
    assert forall|x: int| 0 <= x < s.len() - 1 implies #[trigger] p1[x] == s[if x < j { x } else { x + 1 }] by {}
    assert forall|x: int, y: int| 0 <= x < y < p1.len() implies lex_lt(p1[x].0, p1[y].0) by {
        let xx = if x < j { x } else { x + 1 };
        let yy = if y < j { y } else { y + 1 };
        assert(p1[x] == s[xx] && p1[y] == s[yy]);
    }
    assert forall|x: int| 0 <= x < s.len() - 1 implies #[trigger] p1[x].0 != s[j].0 by {
        let xx = if x < j { x } else { x + 1 };
        assert(p1[x] == s[xx]);
        if xx < j {
            assert(lex_lt(s[xx].0, s[j].0));
        } else {
            assert(lex_lt(s[j].0, s[xx].0));
        }
        lemma_lex_irreflexive(s[j].0);
    }
}

#[verifier::rlimit(40)]
pub proof fn lemma_moves_sound(arrived: Seq<Keyed>, pool: Seq<Keyed>)
    requires
        key_sorted(arrived),
        key_sorted(pool),
    ensures
        moves_sound(arrived, pool, moves_spec(arrived, pool)),
    decreases arrived.len(),
{
    if arrived.len() > 0 {
        let a1 = arrived.drop_first();
        lemma_key_sorted_tail(arrived);
        lemma_first_with_hash(pool, arrived[0].1);
        let out = moves_spec(arrived, pool);
        match first_with_hash(pool, arrived[0].1) {
            Some(j) => {
                let p1 = pool.remove(j);
                lemma_key_sorted_remove(pool, j);
                lemma_moves_sound(a1, p1);
                let rest = moves_spec(a1, p1);
                let e = (pool[j].0, arrived[0].0);
                assert(out == seq![e] + rest);
                assert forall|k: int| 0 <= k < out.len() implies #[trigger] move_ok(arrived, pool, out[k]) by {
                    if k == 0 {
                        assert(pool[j].0 == out[0].0 && arrived[0].0 == out[0].1);
                    } else {
                        assert(out[k] == rest[k - 1]);
                        assert(move_ok(a1, p1, rest[k - 1]));
                        let (i1, j1) = choose|i1: int, j1: int|
                            0 <= i1 < p1.len() && 0 <= j1 < a1.len() && p1[i1].0 == rest[k - 1].0 && a1[j1].0 == rest[k - 1].1
                                && p1[i1].1 == a1[j1].1;
                        let ii = if i1 < j { i1 } else { i1 + 1 };
                        assert(p1[i1] == pool[ii]);
                        assert(a1[j1] == arrived[j1 + 1]);
                        assert(pool[ii].0 == out[k].0 && arrived[j1 + 1].0 == out[k].1);
                    }
                }
                assert forall|k: int, m: int| 0 <= k < m < out.len() implies out[k].0 != out[m].0 && out[k].1 != out[m].1 by {
                    assert(out[m] == rest[m - 1]);
                    if k == 0 {
                        assert(move_ok(a1, p1, rest[m - 1]));
                        let (i1, j1) = choose|i1: int, j1: int|
                            0 <= i1 < p1.len() && 0 <= j1 < a1.len() && p1[i1].0 == rest[m - 1].0 && a1[j1].0 == rest[m - 1].1
                                && p1[i1].1 == a1[j1].1;
                        assert(p1[i1].0 != pool[j].0);
                        assert(a1[j1] == arrived[j1 + 1]);
                        assert(lex_lt(arrived[0].0, arrived[j1 + 1].0));
                        lemma_lex_irreflexive(arrived[0].0);
                    } else {
                        assert(out[k] == rest[k - 1]);
                    }
                }
                assert(moves_sound(arrived, pool, out));
            },
            None => {
                lemma_moves_sound(a1, pool);
                lemma_sound_shift(arrived, pool, moves_spec(a1, pool));
                assert(out == moves_spec(a1, pool));
            },
        }
    }
}

pub proof fn lemma_sound_shift(arrived: Seq<Keyed>, pool: Seq<Keyed>, out: Seq<(Seq<char>, Seq<char>)>)
    requires
        arrived.len() > 0,
        moves_sound(arrived.drop_first(), pool, out),
    ensures
        moves_sound(arrived, pool, out),
{
    let a1 = arrived.drop_first();
    assert forall|k: int| 0 <= k < out.len() implies #[trigger] move_ok(arrived, pool, out[k]) by {
        assert(move_ok(a1, pool, out[k]));
        let (i1, j1) = choose|i1: int, j1: int|
            0 <= i1 < pool.len() && 0 <= j1 < a1.len() && pool[i1].0 == out[k].0 && a1[j1].0 == out[k].1
                && pool[i1].1 == a1[j1].1;
        assert(a1[j1] == arrived[j1 + 1]);
    }
    assert(forall|k: int, m: int| 0 <= k < m < out.len() ==> out[k].0 != out[m].0 && out[k].1 != out[m].1);
}

pub open spec fn strings_unique(v: Seq<Seq<char>>) -> bool {
    forall|i: int, j: int| 0 <= i < j < v.len() ==> v[i] != v[j]
}

/// Where the first entry carrying hash `h` stands in `pool`.
fn find_hash(pool: &Vec<(String, u64)>, h: u64) -> (r: Option<usize>)
    ensures
        match r {
            Some(j) => j < pool@.len() && first_with_hash(keyed_view(pool@), h) == Some(j as int),
            None => first_with_hash(keyed_view(pool@), h) is None,
        },
{
    let ghost pv = keyed_view(pool@);
    let mut j: usize = 0;
    while j < pool.len()
        invariant
            j <= pool@.len(),
            pv == keyed_view(pool@),
            forall|m: int| 0 <= m < j ==> pv[m].1 != h,
        decreases pool@.len() - j,
    {
        assert(pv[j as int].1 == pool@[j as int].1);
        if pool[j].1 == h {
            proof {
                let c = choose|c: int| 0 <= c < pv.len() && pv[c].1 == h && forall|m: int| 0 <= m < c ==> pv[m].1 != h;
                assert(0 <= c < pv.len() && pv[c].1 == h);
                if c < j {
                    assert(pv[c].1 != h);
                }
                if c > j {
                    assert(pv[j as int].1 != h);
                }
            }
            return Some(j);
        }
        j = j + 1;
    }
    None
}

/// Pair each path that is gone with a path that arrived carrying the same
/// content, as `(from, to)`.
///
/// A hash still held by a file that is present is a copy and not a move, so
/// only paths absent from `current` give their records away, and each gives
/// them to one arrival. Both sides are taken in sorted order, so a rename of
/// several files with identical content pairs the same way every run.
pub fn pair_moves(prev: &Stamps, current: &Stamps, changed: &Vec<String>) -> (moves: Vec<(String, String)>)
    requires
        paths_unique(stamps_view(prev@)),
        paths_unique(stamps_view(current@)),
        strings_unique(strings_view(changed@)),
        forall|i: int| 0 <= i < changed@.len() ==> has_path(stamps_view(current@), #[trigger] changed@[i]@),
    ensures
        moves_view(moves@) == pair_moves_spec(stamps_view(prev@), stamps_view(current@), strings_view(changed@)),
        // Each move hands the records of a path that is gone to a changed path
        // that was not there before, carrying the content the gone one had.
        forall|k: int| 0 <= k < moves@.len() ==> ({
            let (from, to) = (#[trigger] moves_view(moves@)[k]);
            &&& has_path(stamps_view(prev@), from)
            &&& !has_path(stamps_view(current@), from)
            &&& strings_view(changed@).contains(to)
            &&& !has_path(stamps_view(prev@), to)
            &&& stamp_of(stamps_view(prev@), from)->0.hash == stamp_of(stamps_view(current@), to)->0.hash
        }),
        // No departure supplies two arrivals, and no arrival takes from two.
        forall|k: int, m: int| 0 <= k < m < moves@.len() ==> moves_view(moves@)[k].0 != moves_view(moves@)[m].0
            && moves_view(moves@)[k].1 != moves_view(moves@)[m].1,
{
    let ghost pv = stamps_view(prev@);
    let ghost cv = stamps_view(current@);
    let ghost chv = strings_view(changed@);

    let mut pool: Vec<(String, u64)> = Vec::new();
    let mut i: usize = 0;
    assert(keyed_view(pool@).to_set() =~= Set::<Keyed>::empty());
    while i < prev.len()
        invariant
            i <= prev@.len(),
            pv == stamps_view(prev@),
            cv == stamps_view(current@),
            paths_unique(pv),
            key_sorted(keyed_view(pool@)),
            forall|m: int| 0 <= m < pool@.len() ==> exists|j: int| 0 <= j < i && pv[j].0 == (#[trigger] pool@[m]).0@,
            keyed_view(pool@).to_set() == Set::new(|e: Keyed| exists|j: int| 0 <= j < i && (#[trigger] pv[j]).0 == e.0 && pv[j].1.hash == e.1 && !has_path(cv, e.0)),
        decreases prev@.len() - i,
    {
        let ghost before = keyed_view(pool@).to_set();
        assert(pv[i as int] == (prev@[i as int].0@, prev@[i as int].1));
        let found = find_path(current, &prev[i].0);
        proof {
            if let Some(idx) = found {
                assert(cv[idx as int].0 == current@[idx as int].0@);
                assert(has_path(cv, pv[i as int].0));
            }
        }
        if found.is_none() {
            proof {
                assert forall|m: int| 0 <= m < pool@.len() implies pool@[m].0@ != prev@[i as int].0@ by {
                    let j = choose|j: int| 0 <= j < i && pv[j].0 == (#[trigger] pool@[m]).0@;
                    assert(pv[j].0 != pv[i as int].0);
                }
            }
            let ghost oldpool = pool@;
            insert_keyed(&mut pool, prev[i].0.clone(), prev[i].1.hash);
            proof {
                assert forall|m: int| 0 <= m < pool@.len() implies exists|j: int| 0 <= j < i + 1 && pv[j].0 == (#[trigger] pool@[m]).0@ by {
                    assert(keyed_view(pool@).to_set().contains(keyed_view(pool@)[m]));
                    let e = keyed_view(pool@)[m];
                    if e == (prev@[i as int].0@, prev@[i as int].1.hash) {
                        assert(pv[i as int].0 == pool@[m].0@);
                    } else {
                        assert(keyed_view(oldpool).to_set().contains(e));
                        let m2 = choose|m2: int| 0 <= m2 < oldpool.len() && keyed_view(oldpool)[m2] == e;
                        assert(keyed_view(oldpool)[m2].0 == oldpool[m2].0@);
                        let j = choose|j: int| 0 <= j < i && pv[j].0 == (#[trigger] oldpool[m2]).0@;
                        assert(pv[j].0 == pool@[m].0@);
                    }
                }
            }
        }
        i = i + 1;
        proof {
            assert(keyed_view(pool@).to_set() =~= Set::new(|e: Keyed| exists|j: int| 0 <= j < i && (#[trigger] pv[j]).0 == e.0 && pv[j].1.hash == e.1 && !has_path(cv, e.0))) by {
                assert forall|e: Keyed| Set::new(|e: Keyed| exists|j: int| 0 <= j < i && (#[trigger] pv[j]).0 == e.0 && pv[j].1.hash == e.1 && !has_path(cv, e.0)).contains(e) implies #[trigger] keyed_view(pool@).to_set().contains(e) by {
                    let j = choose|j: int| 0 <= j < i && (#[trigger] pv[j]).0 == e.0 && pv[j].1.hash == e.1 && !has_path(cv, e.0);
                    if j < i - 1 {
                        assert(before.contains(e));
                    }
                }
            }
        }
    }
    let ghost pool0 = keyed_view(pool@);
    assert(pool0.to_set() =~= gone_set(pv, cv));

    let mut arr: Vec<(String, u64)> = Vec::new();
    let mut c: usize = 0;
    assert(keyed_view(arr@).to_set() =~= Set::<Keyed>::empty());
    while c < changed.len()
        invariant
            c <= changed@.len(),
            pv == stamps_view(prev@),
            cv == stamps_view(current@),
            chv == strings_view(changed@),
            paths_unique(cv),
            strings_unique(chv),
            forall|m: int| 0 <= m < changed@.len() ==> has_path(cv, #[trigger] changed@[m]@),
            key_sorted(keyed_view(arr@)),
            forall|m: int| 0 <= m < arr@.len() ==> exists|j: int| 0 <= j < c && chv[j] == (#[trigger] arr@[m]).0@,
            keyed_view(arr@).to_set() == Set::new(|e: Keyed| exists|j: int| 0 <= j < c && #[trigger] chv[j] == e.0 && !has_path(pv, e.0) && (stamp_of(cv, e.0) matches Some(st) && st.hash == e.1)),
        decreases changed@.len() - c,
    {
        let ghost before = keyed_view(arr@).to_set();
        let ghost target = Set::new(|e: Keyed| exists|j: int| 0 <= j < c + 1 && #[trigger] chv[j] == e.0 && !has_path(pv, e.0) && (stamp_of(cv, e.0) matches Some(st) && st.hash == e.1));
        assert(chv[c as int] == changed@[c as int]@);
        let found = find_path(prev, &changed[c]);
        if found.is_none() {
            let st = stamp_lookup(current, &changed[c]);
            assert(has_path(cv, changed@[c as int]@));
            let h = match st {
                Some(s) => s.hash,
                None => 0,
            };
            proof {
                assert forall|m: int| 0 <= m < arr@.len() implies arr@[m].0@ != changed@[c as int]@ by {
                    let j = choose|j: int| 0 <= j < c && chv[j] == (#[trigger] arr@[m]).0@;
                    assert(chv[j] != chv[c as int]);
                }
            }
            let ghost oldarr = arr@;
            insert_keyed(&mut arr, changed[c].clone(), h);
            proof {
                assert forall|m: int| 0 <= m < arr@.len() implies exists|j: int| 0 <= j < c + 1 && chv[j] == (#[trigger] arr@[m]).0@ by {
                    assert(keyed_view(arr@).to_set().contains(keyed_view(arr@)[m]));
                    let e = keyed_view(arr@)[m];
                    if e == (changed@[c as int]@, h) {
                        assert(chv[c as int] == arr@[m].0@);
                    } else {
                        assert(keyed_view(oldarr).to_set().contains(e));
                        let m2 = choose|m2: int| 0 <= m2 < oldarr.len() && keyed_view(oldarr)[m2] == e;
                        assert(keyed_view(oldarr)[m2].0 == oldarr[m2].0@);
                        let j = choose|j: int| 0 <= j < c && chv[j] == (#[trigger] oldarr[m2]).0@;
                        assert(chv[j] == arr@[m].0@);
                    }
                }
                assert(keyed_view(arr@).to_set() =~= target) by {
                    assert forall|e: Keyed| target.contains(e) implies #[trigger] keyed_view(arr@).to_set().contains(e) by {
                        let j = choose|j: int| 0 <= j < c + 1 && #[trigger] chv[j] == e.0 && !has_path(pv, e.0) && (stamp_of(cv, e.0) matches Some(st) && st.hash == e.1);
                        if j < c {
                            assert(before.contains(e));
                        } else {
                            assert(e == (changed@[c as int]@, h));
                        }
                    }
                }
            }
        } else {
            proof {
                let idx = found->0;
                assert(pv[idx as int].0 == prev@[idx as int].0@);
                assert(has_path(pv, chv[c as int]));
                assert(keyed_view(arr@).to_set() =~= target) by {
                    assert forall|e: Keyed| target.contains(e) implies #[trigger] keyed_view(arr@).to_set().contains(e) by {
                        let j = choose|j: int| 0 <= j < c + 1 && #[trigger] chv[j] == e.0 && !has_path(pv, e.0) && (stamp_of(cv, e.0) matches Some(st) && st.hash == e.1);
                        assert(j < c);
                        assert(before.contains(e));
                    }
                }
            }
        }
        c = c + 1;
    }
    let ghost arr0 = keyed_view(arr@);
    assert(arr0.to_set() =~= arrived_set(pv, cv, chv));

    let mut moves: Vec<(String, String)> = Vec::new();
    let mut k: usize = 0;
    assert(arr0.subrange(0, arr0.len() as int) =~= arr0);
    assert(moves_view(moves@) + moves_spec(arr0.subrange(0, arr0.len() as int), pool0) =~= moves_spec(arr0, pool0));
    while k < arr.len()
        invariant
            k <= arr@.len(),
            arr0 == keyed_view(arr@),
            moves_view(moves@) + moves_spec(arr0.subrange(k as int, arr0.len() as int), keyed_view(pool@)) == moves_spec(arr0, pool0),
        decreases arr@.len() - k,
    {
        let ghost rest = arr0.subrange(k as int, arr0.len() as int);
        assert(rest[0] == arr0[k as int]);
        assert(rest.drop_first() =~= arr0.subrange(k + 1, arr0.len() as int));
        assert(arr0[k as int] == (arr@[k as int].0@, arr@[k as int].1));
        let ghost before_moves = moves_view(moves@);
        let ghost before_pool = keyed_view(pool@);
        match find_hash(&pool, arr[k].1) {
            Some(j) => {
                let from = pool[j].0.clone();
                let to = arr[k].0.clone();
                let ghost e = (from@, to@);
                assert(e == (before_pool[j as int].0, rest[0].0));
                moves.push((from, to));
                pool.remove(j);
                assert(keyed_view(pool@) =~= before_pool.remove(j as int));
                assert(moves_view(moves@) =~= before_moves.push(e));
                assert(moves_spec(rest, before_pool) == seq![e] + moves_spec(rest.drop_first(), before_pool.remove(j as int)));
                assert(before_moves.push(e) + moves_spec(rest.drop_first(), before_pool.remove(j as int)) =~= before_moves + (seq![e] + moves_spec(rest.drop_first(), before_pool.remove(j as int))));
            },
            None => {},
        }
        k = k + 1;
    }
    proof {
        assert(arr0.subrange(arr0.len() as int, arr0.len() as int) =~= Seq::<Keyed>::empty());
        assert(moves_view(moves@) + Seq::<(Seq<char>, Seq<char>)>::empty() =~= moves_view(moves@));
        lemma_sorted_of(pool0);
        lemma_sorted_of(arr0);
        lemma_moves_sound(arr0, pool0);
        let out = moves_view(moves@);
        assert forall|k: int| 0 <= k < moves@.len() implies ({
            let (from, to) = (#[trigger] moves_view(moves@)[k]);
            &&& has_path(stamps_view(prev@), from)
            &&& !has_path(stamps_view(current@), from)
            &&& strings_view(changed@).contains(to)
            &&& !has_path(stamps_view(prev@), to)
            &&& stamp_of(stamps_view(prev@), from)->0.hash == stamp_of(stamps_view(current@), to)->0.hash
        }) by {
            assert(move_ok(arr0, pool0, out[k]));
            let (i, j) = choose|i: int, j: int|
                0 <= i < pool0.len() && 0 <= j < arr0.len() && pool0[i].0 == out[k].0 && arr0[j].0 == out[k].1
                    && pool0[i].1 == arr0[j].1;
            assert(pool0.to_set().contains(pool0[i]));
            assert(gone_set(pv, cv).contains(pool0[i]));
            let ip = choose|ip: int| 0 <= ip < pv.len() && (#[trigger] pv[ip]).0 == pool0[i].0 && pv[ip].1.hash == pool0[i].1 && !has_path(cv, pool0[i].0);
            crate::store::lemma_stamp_of_at(pv, ip);
            assert(arr0.to_set().contains(arr0[j]));
            assert(arrived_set(pv, cv, chv).contains(arr0[j]));
            let ic = choose|ic: int| 0 <= ic < chv.len() && #[trigger] chv[ic] == arr0[j].0 && !has_path(pv, arr0[j].0) && (stamp_of(cv, arr0[j].0) matches Some(st) && st.hash == arr0[j].1);
            assert(chv.contains(out[k].1));
        }
    }
    moves
}

} // verus!
