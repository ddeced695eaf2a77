//! What the index records beside its sections: file stamps, the metadata
//! naming the vector space, and the counts it reports.

use vstd::prelude::*;

verus! {

/// The directory an index lives in, beside the corpus it covers.
pub const DIR: &'static str = ".folio";

/// What a file looked like at index time: the content hash that decides whether
/// it is re-embedded, and the length and modification time that decide whether
/// it is read at all.
#[derive(Debug, Clone, Copy, PartialEq, Eq, Structural)]
pub struct Stamp {
    pub hash: u64,
    pub len: u64,
    pub mtime: i64,
}

/// The vector space the records belong to.
#[derive(Debug)]
pub struct Meta {
    pub model: String,
    pub endpoint: String,
    pub dim: usize,
}

/// What the index covers.
#[derive(Debug, PartialEq, Eq, Structural)]
pub struct Counts {
    pub files: usize,
    pub sections: usize,
    pub truncated: usize,
}

/// A map from path to stamp, as a list whose paths each stand once.
pub type Stamps = Vec<(String, Stamp)>;

pub open spec fn stamps_view(v: Seq<(String, Stamp)>) -> Seq<(Seq<char>, Stamp)> {
    v.map_values(|e: (String, Stamp)| (e.0@, e.1))
}

/// Each path stands once.
pub open spec fn paths_unique(v: Seq<(Seq<char>, Stamp)>) -> bool {
    forall|i: int, j: int| 0 <= i < j < v.len() ==> v[i].0 != v[j].0
}

pub open spec fn has_path(v: Seq<(Seq<char>, Stamp)>, p: Seq<char>) -> bool {
    exists|i: int| 0 <= i < v.len() && v[i].0 == p
}

/// The stamp recorded for `p`.
pub open spec fn stamp_of(v: Seq<(Seq<char>, Stamp)>, p: Seq<char>) -> Option<Stamp> {
    if has_path(v, p) {
        Some(v[choose|i: int| 0 <= i < v.len() && v[i].0 == p].1)
    } else {
        None
    }
}

/// Where `p` stands among the paths of `v`.
pub fn find_path(v: &Stamps, p: &String) -> (r: Option<usize>)
    ensures
        match r {
            Some(i) => i < v@.len() && v@[i as int].0@ == p@,
            None => !has_path(stamps_view(v@), p@),
        },
{
    let ghost sv = stamps_view(v@);
    let mut i: usize = 0;
    while i < v.len()
        invariant
            i <= v@.len(),
            sv == stamps_view(v@),
            forall|j: int| 0 <= j < i ==> sv[j].0 != p@,
        decreases v@.len() - i,
    {
        assert(sv[i as int].0 == v@[i as int].0@);
        if v[i].0 == *p {
            return Some(i);
        }
        i = i + 1;
    }
    None
}

pub proof fn lemma_stamp_of_at(v: Seq<(Seq<char>, Stamp)>, i: int)
    requires
        paths_unique(v),
        0 <= i < v.len(),
    ensures
        stamp_of(v, v[i].0) == Some(v[i].1),
{
    let j = choose|j: int| 0 <= j < v.len() && v[j].0 == v[i].0;
    if j != i {
        assert(v[j].0 != v[i].0);
    }
}

/// The stamp recorded for `p`.
pub fn stamp_lookup(v: &Stamps, p: &String) -> (r: Option<Stamp>)
    requires
        paths_unique(stamps_view(v@)),
    ensures
        r == stamp_of(stamps_view(v@), p@),
{
    match find_path(v, p) {
        Some(i) => {
            proof {
                lemma_stamp_of_at(stamps_view(v@), i as int);
            }
            Some(v[i].1)
        },
        None => None,
    }
}

pub ghost struct MetaView {
    pub model: Seq<char>,
    pub endpoint: Seq<char>,
    pub dim: nat,
}

impl View for Meta {
    type V = MetaView;

    open spec fn view(&self) -> MetaView {
        MetaView { model: self.model@, endpoint: self.endpoint@, dim: self.dim as nat }
    }
}

/// What one stored `(key, value)` makes of the meta read so far: the model,
/// the endpoint, or the dimension (zero where the value is not a number);
/// any other key is someone else's and changes nothing.
pub open spec fn meta_step(m: MetaView, kv: (Seq<char>, Seq<char>)) -> MetaView {
    if kv.0 == "model"@ {
        MetaView { model: kv.1, ..m }
    } else if kv.0 == "endpoint"@ {
        MetaView { endpoint: kv.1, ..m }
    } else if kv.0 == "dim"@ {
        MetaView {
            dim: match crate::num::parse_spec(kv.1, usize::MAX as nat) {
                Ok(n) => n,
                Err(_) => 0,
            },
            ..m
        }
    } else {
        m
    }
}

/// The meta the stored rows describe, read in order from an empty one.
pub open spec fn meta_spec(rows: Seq<(Seq<char>, Seq<char>)>) -> MetaView
    decreases rows.len(),
{
    if rows.len() == 0 {
        MetaView { model: Seq::empty(), endpoint: Seq::empty(), dim: 0 }
    } else {
        meta_step(meta_spec(rows.drop_last()), rows.last())
    }
}

pub open spec fn pairs_view(v: Seq<(String, String)>) -> Seq<(Seq<char>, Seq<char>)> {
    v.map_values(|e: (String, String)| (e.0@, e.1@))
}

fn same_key(a: &String, b: &str) -> (r: bool)
    ensures
        r == (a@ == b@),
{
    let t = b.to_owned();
    *a == t
}

/// The meta of an index, from the `(key, value)` rows it stored.
pub fn meta_from_rows(rows: &Vec<(String, String)>) -> (m: Meta)
    ensures
        m@ == meta_spec(pairs_view(rows@)),
{
    let mut m = Meta { model: String::new(), endpoint: String::new(), dim: 0 };
    let mut i: usize = 0;
    assert(pairs_view(rows@).subrange(0, 0) =~= Seq::<(Seq<char>, Seq<char>)>::empty());
    while i < rows.len()
        invariant
            i <= rows@.len(),
            m@ == meta_spec(pairs_view(rows@).subrange(0, i as int)),
        decreases rows@.len() - i,
    {
        let (k, v) = (&rows[i].0, &rows[i].1);
        proof {
            let p = pairs_view(rows@).subrange(0, i + 1);
            assert(p.drop_last() =~= pairs_view(rows@).subrange(0, i as int));
            assert(p.last() == (k@, v@));
        }
        if same_key(k, "model") {
            m.model = v.clone();
        } else if same_key(k, "endpoint") {
            m.endpoint = v.clone();
        } else if same_key(k, "dim") {
            m.dim = match crate::num::parse_usize(v.as_str()) {
                Ok(n) => n,
                Err(_) => 0,
            };
        }
        i = i + 1;
    }
    assert(pairs_view(rows@).subrange(0, rows@.len() as int) =~= pairs_view(rows@));
    m
}

/// The slot the next append takes: one past the highest slot a record names,
/// or the first row when none does.
pub fn high_water(max_slot: Option<u64>) -> (r: Option<u64>)
    ensures
        match max_slot {
            Some(m) => if m < u64::MAX { r == Some((m + 1) as u64) } else { r is None },
            None => r == Some(0u64),
        },
{
    match max_slot {
        Some(m) => if m < u64::MAX {
            Some(m + 1)
        } else {
            None
        },
        None => Some(0),
    }
}

} // verus!
