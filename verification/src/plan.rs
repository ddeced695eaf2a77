//! What a re-index does with what it found: which files are embedded again,
//! which only moved, and which lose their records now.
//!
//! A file that changed and a file that is gone retire their records the same
//! way; only the first also contributes new ones. A file that only moved keeps
//! the vectors it had, so the index is written in proportion to what changed.

use vstd::prelude::*;

use crate::moves::{moves_view, pair_moves, pair_moves_spec, strings_unique};
use crate::sections::strings_view;
use crate::store::{Stamps, find_path, has_path, paths_unique, stamps_view};

verus! {

/// What a re-index does to the records it holds.
#[derive(Debug)]
pub struct Plan {
    /// Files whose sections are embedded again.
    pub fresh: Vec<String>,
    /// Records that take a new path, as `(from, to)`.
    pub moves: Vec<(String, String)>,
    /// Files that are gone and handed their records to nobody.
    pub vanished: Vec<String>,
}

/// `p` is the first or the second path of one of the moves.
pub open spec fn moved_from(mv: Seq<(Seq<char>, Seq<char>)>, p: Seq<char>) -> bool {
    exists|k: int| 0 <= k < mv.len() && (#[trigger] mv[k]).0 == p
}

pub open spec fn moved_to(mv: Seq<(Seq<char>, Seq<char>)>, p: Seq<char>) -> bool {
    exists|k: int| 0 <= k < mv.len() && (#[trigger] mv[k]).1 == p
}

/// The files embedded again: those that changed, less those that only arrived
/// where another departed with the same content.
pub open spec fn fresh_spec(changed: Seq<Seq<char>>, mv: Seq<(Seq<char>, Seq<char>)>) -> Seq<Seq<char>> {
    changed.filter(|p: Seq<char>| !moved_to(mv, p))
}

/// The files that lose their records now: recorded before, absent now, and
/// handed to no arrival.
pub open spec fn vanished_spec(
    prev: Seq<(Seq<char>, crate::store::Stamp)>,
    current: Seq<(Seq<char>, crate::store::Stamp)>,
    mv: Seq<(Seq<char>, Seq<char>)>,
) -> Seq<Seq<char>> {
    prev.map_values(|e: (Seq<char>, crate::store::Stamp)| e.0).filter(
        |p: Seq<char>| !has_path(current, p) && !moved_from(mv, p),
    )
}

fn moved_to_exec(moves: &Vec<(String, String)>, p: &String) -> (b: bool)
    ensures
        b == moved_to(moves_view(moves@), p@),
{
    let ghost mv = moves_view(moves@);
    let mut k: usize = 0;
    while k < moves.len()
        invariant
            k <= moves@.len(),
            mv == moves_view(moves@),
            forall|m: int| 0 <= m < k ==> mv[m].1 != p@,
        decreases moves@.len() - k,
    {
        assert(mv[k as int] == (moves@[k as int].0@, moves@[k as int].1@));
        if moves[k].1 == *p {
            return true;
        }
        k = k + 1;
    }
    false
}

fn moved_from_exec(moves: &Vec<(String, String)>, p: &String) -> (b: bool)
    ensures
        b == moved_from(moves_view(moves@), p@),
{
    let ghost mv = moves_view(moves@);
    let mut k: usize = 0;
    while k < moves.len()
        invariant
            k <= moves@.len(),
            mv == moves_view(moves@),
            forall|m: int| 0 <= m < k ==> mv[m].0 != p@,
        decreases moves@.len() - k,
    {
        assert(mv[k as int] == (moves@[k as int].0@, moves@[k as int].1@));
        if moves[k].0 == *p {
            return true;
        }
        k = k + 1;
    }
    false
}

/// Settle what a re-index does, given the stamps it recorded before (`prev`),
/// the stamps of the files found now (`current`), and the files whose content
/// is not what was recorded (`changed`).
pub fn plan(prev: &Stamps, current: &Stamps, changed: &Vec<String>) -> (r: Plan)
    requires
        paths_unique(stamps_view(prev@)),
        paths_unique(stamps_view(current@)),
        strings_unique(strings_view(changed@)),
        forall|i: int| 0 <= i < changed@.len() ==> has_path(stamps_view(current@), #[trigger] changed@[i]@),
    ensures
        moves_view(r.moves@) == pair_moves_spec(stamps_view(prev@), stamps_view(current@), strings_view(changed@)),
        strings_view(r.fresh@) == fresh_spec(strings_view(changed@), moves_view(r.moves@)),
        strings_view(r.vanished@) == vanished_spec(stamps_view(prev@), stamps_view(current@), moves_view(r.moves@)),
{
    let moves = pair_moves(prev, current, changed);
    let ghost mv = moves_view(moves@);

    let mut fresh: Vec<String> = Vec::new();
    let mut i: usize = 0;
    assert(strings_view(changed@).subrange(0, 0).filter(|p: Seq<char>| !moved_to(mv, p)) =~= Seq::<Seq<char>>::empty());
    while i < changed.len()
        invariant
            i <= changed@.len(),
            mv == moves_view(moves@),
            strings_view(fresh@) == strings_view(changed@).subrange(0, i as int).filter(|p: Seq<char>| !moved_to(mv, p)),
        decreases changed@.len() - i,
    {
        let ghost s = strings_view(changed@).subrange(0, i + 1);
        proof {
            assert(s.drop_last() =~= strings_view(changed@).subrange(0, i as int));
            assert(s.last() == changed@[i as int]@);
            assert(s.filter(|p: Seq<char>| !moved_to(mv, p)) == s.drop_last().filter(|p: Seq<char>| !moved_to(mv, p)) + (if !moved_to(mv, s.last()) { seq![s.last()] } else { Seq::empty() })) by {
                reveal(Seq::filter);
                assert(s =~= s.drop_last().push(s.last()));
            }
        }
        if !moved_to_exec(&moves, &changed[i]) {
            let ghost before = fresh@;
            fresh.push(changed[i].clone());
            proof {
                assert(strings_view(fresh@) =~= strings_view(before).push(changed@[i as int]@));
            }
        }
        proof {
            assert(strings_view(fresh@) =~= s.filter(|p: Seq<char>| !moved_to(mv, p)));
        }
        i = i + 1;
    }
    assert(strings_view(changed@).subrange(0, changed@.len() as int) =~= strings_view(changed@));

    let ghost keys = stamps_view(prev@).map_values(|e: (Seq<char>, crate::store::Stamp)| e.0);
    let ghost cv = stamps_view(current@);
    let mut vanished: Vec<String> = Vec::new();
    let mut j: usize = 0;
    assert(keys.subrange(0, 0).filter(|p: Seq<char>| !has_path(cv, p) && !moved_from(mv, p)) =~= Seq::<Seq<char>>::empty());
    while j < prev.len()
        invariant
            j <= prev@.len(),
            mv == moves_view(moves@),
            cv == stamps_view(current@),
            keys == stamps_view(prev@).map_values(|e: (Seq<char>, crate::store::Stamp)| e.0),
            strings_view(vanished@) == keys.subrange(0, j as int).filter(|p: Seq<char>| !has_path(cv, p) && !moved_from(mv, p)),
        decreases prev@.len() - j,
    {
        let ghost s = keys.subrange(0, j + 1);
        proof {
            assert(s.drop_last() =~= keys.subrange(0, j as int));
            assert(s.last() == prev@[j as int].0@);
            assert(s.filter(|p: Seq<char>| !has_path(cv, p) && !moved_from(mv, p)) == s.drop_last().filter(|p: Seq<char>| !has_path(cv, p) && !moved_from(mv, p)) + (if !has_path(cv, s.last()) && !moved_from(mv, s.last()) { seq![s.last()] } else { Seq::empty() })) by {
                reveal(Seq::filter);
                assert(s =~= s.drop_last().push(s.last()));
            }
        }
        let here = find_path(current, &prev[j].0);
        proof {
            if let Some(idx) = here {
                assert(cv[idx as int].0 == current@[idx as int].0@);
            }
        }
        if here.is_none() && !moved_from_exec(&moves, &prev[j].0) {
            let ghost before = vanished@;
            vanished.push(prev[j].0.clone());
            proof {
                assert(strings_view(vanished@) =~= strings_view(before).push(prev@[j as int].0@));
            }
        }
        proof {
            assert(strings_view(vanished@) =~= s.filter(|p: Seq<char>| !has_path(cv, p) && !moved_from(mv, p)));
        }
        j = j + 1;
    }
    assert(keys.subrange(0, prev@.len() as int) =~= keys);
    Plan { fresh, moves, vanished }
}

/// Every file a re-index finds is accounted for once: a changed file is
/// embedded again exactly when it took no records from a file that departed;
/// a file that is gone loses its records now exactly when it handed them to no
/// arrival; and no file is both embedded again and retired as vanished.
pub proof fn lemma_plan_accounts_once(
    prev: Seq<(Seq<char>, crate::store::Stamp)>,
    current: Seq<(Seq<char>, crate::store::Stamp)>,
    changed: Seq<Seq<char>>,
    mv: Seq<(Seq<char>, Seq<char>)>,
    p: Seq<char>,
)
    requires
        forall|i: int| 0 <= i < changed.len() ==> has_path(current, #[trigger] changed[i]),
    ensures
        fresh_spec(changed, mv).contains(p) <==> (changed.contains(p) && !moved_to(mv, p)),
        vanished_spec(prev, current, mv).contains(p) <==> (has_path(prev, p) && !has_path(current, p)
            && !moved_from(mv, p)),
        !(fresh_spec(changed, mv).contains(p) && vanished_spec(prev, current, mv).contains(p)),
{
    broadcast use vstd::seq_lib::group_seq_properties;

    let fpred = |q: Seq<char>| !moved_to(mv, q);
    let vpred = |q: Seq<char>| !has_path(current, q) && !moved_from(mv, q);
    let keys = prev.map_values(|e: (Seq<char>, crate::store::Stamp)| e.0);
    if fresh_spec(changed, mv).contains(p) {
        changed.lemma_filter_contains_rev(fpred, p);
        let i = choose|i: int| 0 <= i < changed.filter(fpred).len() && changed.filter(fpred)[i] == p;
        changed.lemma_filter_pred(fpred, i);
    }
    if changed.contains(p) && !moved_to(mv, p) {
        let i = choose|i: int| 0 <= i < changed.len() && changed[i] == p;
        changed.lemma_filter_contains(fpred, i);
    }
    if vanished_spec(prev, current, mv).contains(p) {
        keys.lemma_filter_contains_rev(vpred, p);
        let i = choose|i: int| 0 <= i < keys.filter(vpred).len() && keys.filter(vpred)[i] == p;
        keys.lemma_filter_pred(vpred, i);
        let j = choose|j: int| 0 <= j < keys.len() && keys[j] == p;
        assert(prev[j].0 == p);
    }
    if has_path(prev, p) && !has_path(current, p) && !moved_from(mv, p) {
        let j = choose|j: int| 0 <= j < prev.len() && prev[j].0 == p;
        assert(keys[j] == p);
        keys.lemma_filter_contains(vpred, j);
    }
    if fresh_spec(changed, mv).contains(p) {
        let i = choose|i: int| 0 <= i < changed.len() && changed[i] == p;
        assert(has_path(current, changed[i]));
    }
}

/// Whether a file can keep the hash recorded beside its stamp without being
/// read: listing a file is cheap and reading it is not, so a file whose length
/// and modification time are what the index recorded is never opened.
pub fn unmoved(was: Option<crate::store::Stamp>, len: u64, mtime: i64) -> (b: bool)
    ensures
        b == (was matches Some(w) && w.len == len && w.mtime == mtime),
{
    match was {
        Some(w) => w.len == len && w.mtime == mtime,
        None => false,
    }
}

/// Whether a file's content is not what the index recorded: a file never
/// recorded, or one whose hash differs.
pub fn content_changed(was: Option<crate::store::Stamp>, hash: u64) -> (b: bool)
    ensures
        b == (was matches Some(w) ==> w.hash != hash),
{
    match was {
        Some(w) => w.hash != hash,
        None => true,
    }
}

} // verus!
