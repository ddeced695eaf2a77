//! Copying the rows under a prefix into an index of their own.
//!
//! Nothing is embedded: the vectors already exist and the meta they belong to
//! travels with them, so the slice is in its source's space by construction.
//! Every file a slice names has to be at the destination as the index recorded
//! it, and that is settled before anything is written.

use vstd::prelude::*;

use crate::order::{insert_sorted, sorted_strict};
use crate::paths::strip_under;
use crate::sections::{Section, strings_view};
use crate::store::Stamp;
use crate::text::{decimal, decimal_string, starts_with, str_of};

verus! {

/// The records under `under`, in the order the index holds them.
pub open spec fn taken_spec(rows: Seq<(usize, Section)>, under: Seq<char>) -> Seq<(usize, Section)> {
    rows.filter(|r: (usize, Section)| starts_with(r.1.path@, under))
}

/// Keep the records whose path is under the subtree `under`.
pub fn take_subtree(rows: Vec<(usize, Section)>, under: &String) -> (r: Vec<(usize, Section)>)
    ensures
        r@ == taken_spec(rows@, under@),
{
    let ghost s = rows@;
    let mut rest = rows;
    // Taken from the back, so each record is moved once.
    let mut back: Vec<(usize, Section)> = Vec::new();
    while rest.len() > 0
        invariant
            rest@.len() <= s.len(),
            rest@ == s.subrange(0, rest@.len() as int),
            taken_spec(s, under@) == taken_spec(rest@, under@) + back@.reverse(),
        decreases rest@.len(),
    {
        let ghost before = rest@;
        let x = rest.pop().unwrap();
        proof {
            assert(before =~= rest@.push(x));
            reveal(Seq::filter);
            assert(before.drop_last() =~= rest@);
            assert(before.last() == x);
            assert(rest@ =~= s.subrange(0, rest@.len() as int));
        }
        let keep = has_prefix(&x.1.path, under);
        let ghost b0 = back@;
        if keep {
            back.push(x);
            proof {
                assert(back@.reverse() =~= seq![x] + b0.reverse());
            }
        }
    }
    let mut r: Vec<(usize, Section)> = Vec::new();
    assert(taken_spec(rest@, under@) =~= Seq::<(usize, Section)>::empty()) by {
        reveal(Seq::filter);
    }
    assert(taken_spec(s, under@) =~= r@ + back@.reverse());
    while back.len() > 0
        invariant
            taken_spec(s, under@) == r@ + back@.reverse(),
        decreases back@.len(),
    {
        let ghost b0 = back@;
        let x = back.pop().unwrap();
        proof {
            assert(b0 =~= back@.push(x));
            assert(b0.reverse() =~= seq![x] + back@.reverse());
        }
        r.push(x);
        proof {
            assert(taken_spec(s, under@) =~= r@ + back@.reverse());
        }
    }
    assert(back@.reverse() =~= Seq::<(usize, Section)>::empty());
    assert(r@ + back@.reverse() =~= r@);
    r
}

/// Whether `s` starts with `p`.
pub fn has_prefix(s: &String, p: &String) -> (b: bool)
    ensures
        b == starts_with(s@, p@),
{
    let sv = crate::text::chars_of(s.as_str());
    let pv = crate::text::chars_of(p.as_str());
    assert(sv@.subrange(0, sv@.len() as int) =~= sv@);
    crate::text::starts_with_at(&sv, 0, sv.len(), &pv)
}

pub open spec fn row_paths(rows: Seq<(usize, Section)>) -> Seq<Seq<char>> {
    rows.map_values(|r: (usize, Section)| r.1.path@)
}

/// The files a slice names, each once, in order.
pub fn slice_paths(taken: &Vec<(usize, Section)>) -> (r: Vec<String>)
    ensures
        sorted_strict(strings_view(r@)),
        strings_view(r@).to_set() == row_paths(taken@).to_set(),
{
    let mut r: Vec<String> = Vec::new();
    let mut i: usize = 0;
    assert(strings_view(r@).to_set() =~= row_paths(taken@).subrange(0, 0).to_set());
    while i < taken.len()
        invariant
            i <= taken@.len(),
            sorted_strict(strings_view(r@)),
            strings_view(r@).to_set() == row_paths(taken@).subrange(0, i as int).to_set(),
        decreases taken@.len() - i,
    {
        proof {
            assert(strings_view(r@) == r@.map_values(|s: String| s@));
        }
        insert_sorted(&mut r, taken[i].1.path.clone());
        proof {
            assert(strings_view(r@) == r@.map_values(|s: String| s@));
            let p = row_paths(taken@);
            assert(p.subrange(0, i + 1) =~= p.subrange(0, i as int).push(taken@[i as int].1.path@));
            assert(p.subrange(0, i + 1).to_set() =~= p.subrange(0, i as int).to_set().insert(taken@[i as int].1.path@)) by {
                p.subrange(0, i as int).lemma_push_to_set_commute(taken@[i as int].1.path@);
            }
        }
        i = i + 1;
    }
    assert(row_paths(taken@).subrange(0, taken@.len() as int) =~= row_paths(taken@));
    r
}

/// What is wrong with one file of a slice, in the words the refusal lists.
pub open spec fn unrecorded_spec(rel: Seq<char>) -> Seq<char> {
    rel + " (the index recorded no hash for it)"@
}

pub fn unrecorded(rel: &String) -> (r: String)
    ensures
        r@ == unrecorded_spec(rel@),
{
    let mut r = rel.clone();
    r.append(" (the index recorded no hash for it)");
    r
}

/// Whether a file of a slice is at the destination as the index recorded it:
/// `read` is the hash of the file found there, or why it could not be read.
pub open spec fn carried_spec(rel: Seq<char>, was: Stamp, read: Result<u64, Seq<char>>) -> Result<(Seq<char>, Stamp), Seq<char>> {
    match read {
        Ok(h) => if h == was.hash {
            Ok((rel, was))
        } else {
            Err(rel + " (holds different text)"@)
        },
        Err(e) => Err(rel + " ("@ + e + ")"@),
    }
}

pub fn check_carried(rel: &String, was: Stamp, read: Result<u64, String>) -> (r: Result<(String, Stamp), String>)
    ensures
        match r {
            Ok(c) => carried_spec(rel@, was, match read { Ok(h) => Ok(h), Err(e) => Err(e@) }) == Ok::<(Seq<char>, Stamp), Seq<char>>((c.0@, c.1)),
            Err(m) => carried_spec(rel@, was, match read { Ok(h) => Ok(h), Err(e) => Err(e@) }) == Err::<(Seq<char>, Stamp), Seq<char>>(m@),
        },
{
    match read {
        Ok(h) => {
            if h == was.hash {
                Ok((rel.clone(), was))
            } else {
                let mut m = rel.clone();
                m.append(" (holds different text)");
                Err(m)
            }
        },
        Err(e) => {
            let mut m = rel.clone();
            m.append(" (");
            m.append(e.as_str());
            m.append(")");
            Err(m)
        },
    }
}

/// The refusal of a slice whose files are not all at the destination.
pub open spec fn not_there_spec(missing: nat, into: Seq<char>, first: Seq<char>) -> Seq<char> {
    decimal(missing) + " of the files this slice names are not at "@ + into
        + " as the index recorded them, starting with "@ + first
}

pub fn not_there(missing: usize, into: &String, first: &String) -> (r: String)
    ensures
        r@ == not_there_spec(missing as nat, into@, first@),
{
    let mut r = decimal_string(missing);
    r.append(" of the files this slice names are not at ");
    r.append(into.as_str());
    r.append(" as the index recorded them, starting with ");
    r.append(first.as_str());
    r
}

/// The records of a slice as the new index holds them: at slots `0..` in the
/// order taken, with paths relative to the subtree.
pub fn renumber_slice(taken: Vec<(usize, Section)>, under: &String) -> (r: Vec<(usize, Section)>)
    requires
        forall|i: int| 0 <= i < taken@.len() ==> starts_with((#[trigger] taken@[i]).1.path@, under@),
    ensures
        r@.len() == taken@.len(),
        forall|i: int| 0 <= i < r@.len() ==> {
            let (slot, s) = #[trigger] r@[i];
            let (_, t) = taken@[i];
            &&& slot == i
            &&& s.path@ == t.path@.subrange(under@.len() as int, t.path@.len() as int)
            &&& s.start == t.start && s.end == t.end && s.heading == t.heading
            &&& s.breadcrumb == t.breadcrumb && s.fm == t.fm && s.truncated == t.truncated
            &&& s.text == t.text
        },
{
    let ghost s0 = taken@;
    let n = taken.len();
    let mut rest = taken;
    let mut back: Vec<(usize, Section)> = Vec::new();
    while rest.len() > 0
        invariant
            rest@.len() <= s0.len(),
            n == s0.len(),
            rest@ == s0.subrange(0, rest@.len() as int),
            back@.len() == n - rest@.len(),
            forall|i: int| 0 <= i < s0.len() ==> starts_with((#[trigger] s0[i]).1.path@, under@),
            forall|j: int| 0 <= j < back@.len() ==> {
                let (slot, s) = #[trigger] back@[j];
                let (_, t) = s0[n - 1 - j];
                &&& slot == n - 1 - j
                &&& s.path@ == t.path@.subrange(under@.len() as int, t.path@.len() as int)
                &&& s.start == t.start && s.end == t.end && s.heading == t.heading
                &&& s.breadcrumb == t.breadcrumb && s.fm == t.fm && s.truncated == t.truncated
                &&& s.text == t.text
            },
        decreases rest@.len(),
    {
        let i = rest.len() - 1;
        let ghost before = rest@;
        let (_, mut sec) = rest.pop().unwrap();
        proof {
            assert(before =~= rest@.push(before.last()));
            assert(rest@ =~= s0.subrange(0, rest@.len() as int));
            assert(before.last() == s0[i as int]);
        }
        let rel = match strip_under(&sec.path, under) {
            Some(r) => r,
            None => sec.path.clone(),
        };
        sec.path = rel;
        back.push((i, sec));
    }
    let mut r: Vec<(usize, Section)> = Vec::new();
    while back.len() > 0
        invariant
            back@.len() + r@.len() == n,
            n == s0.len(),
            forall|j: int| 0 <= j < back@.len() ==> {
                let (slot, s) = #[trigger] back@[j];
                let (_, t) = s0[n - 1 - j];
                &&& slot == n - 1 - j
                &&& s.path@ == t.path@.subrange(under@.len() as int, t.path@.len() as int)
                &&& s.start == t.start && s.end == t.end && s.heading == t.heading
                &&& s.breadcrumb == t.breadcrumb && s.fm == t.fm && s.truncated == t.truncated
                &&& s.text == t.text
            },
            forall|j: int| 0 <= j < r@.len() ==> {
                let (slot, s) = #[trigger] r@[j];
                let (_, t) = s0[j];
                &&& slot == j
                &&& s.path@ == t.path@.subrange(under@.len() as int, t.path@.len() as int)
                &&& s.start == t.start && s.end == t.end && s.heading == t.heading
                &&& s.breadcrumb == t.breadcrumb && s.fm == t.fm && s.truncated == t.truncated
                &&& s.text == t.text
            },
        decreases back@.len(),
    {
        let x = back.pop().unwrap();
        r.push(x);
    }
    r
}

} // verus!
