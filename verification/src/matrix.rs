//! The bookkeeping of the vector matrix beside an index: how sections are
//! committed in batches, how many rows the matrix holds and how many of them
//! are dead, and how survivors are renumbered when it is compacted.
//!
//! The unit of a commit is the file, because a stamp says the index is current
//! for one: a run that dies keeps the files it finished.

use vstd::prelude::*;

use crate::sections::Section;

verus! {

/// How many sections an index commits at a time. A run that dies keeps every
/// batch before the one it was in, so this is what a kill costs.
pub const FLUSH: usize = 512;

/// The text whose embedding says which weights answered. Its value does not
/// matter; that every run sends the same one does.
pub const FINGERPRINT: &'static str = "folio probes the endpoint to learn which weights answered.";

/// The hash of a file's bytes, as `DefaultHasher` computes it.
pub uninterp spec fn spec_hash(bytes: Seq<u8>) -> u64;

/// `DefaultHasher::new`, `write` and `finish`: the content hash that decides
/// whether a file is embedded again. `new` starts from fixed keys, so the same
/// bytes hash the same within a build of folio.
#[verifier::external_body]
pub fn hash(bytes: &[u8]) -> (h: u64)
    ensures
        h == spec_hash(bytes@),
{
    let mut h = std::collections::hash_map::DefaultHasher::new();
    std::hash::Hasher::write(&mut h, bytes);
    std::hash::Hasher::finish(&h)
}

/// Between `s[i - 1]` and `s[i]` one file ends and another begins.
pub open spec fn boundary(s: Seq<Section>, i: int) -> bool {
    0 < i < s.len() && s[i - 1].path@ != s[i].path@
}

/// The batches, one after the other.
pub open spec fn concat_all(bs: Seq<Seq<Section>>) -> Seq<Section>
    decreases bs.len(),
{
    if bs.len() == 0 {
        Seq::empty()
    } else {
        concat_all(bs.drop_last()) + bs.last()
    }
}

pub open spec fn batch_views(v: Seq<Vec<Section>>) -> Seq<Seq<Section>> {
    v.map_values(|b: Vec<Section>| b@)
}

/// Batches of at least `want` sections that never cut a file in two, each
/// ended at the first boundary between files once it holds `want`: no batch
/// is empty, every batch but the last holds at least `want` and ends where a
/// file does, and within a batch no file begins after its `want`th section.
pub open spec fn well_batched(bs: Seq<Seq<Section>>, want: int) -> bool {
    &&& forall|k: int| 0 <= k < bs.len() ==> (#[trigger] bs[k]).len() > 0
    &&& forall|k: int|
        0 <= k < bs.len() - 1 ==> (#[trigger] bs[k]).len() >= want && bs[k].last().path@
            != bs[k + 1][0].path@
    &&& forall|k: int, m: int|
        #![trigger bs[k][m]]
        0 <= k < bs.len() && want <= m < bs[k].len() && 0 < m ==> bs[k][m - 1].path@ == bs[k][m].path@
}

/// Where each batch starts: the first at 0, each next one at the first file
/// boundary once the batch before it holds `want`.
pub open spec fn good_starts(s: Seq<Section>, st: Seq<int>, want: int) -> bool {
    &&& st.len() > 0
    &&& st[0] == 0
    &&& forall|k: int|
        0 <= k < st.len() - 1 ==> st[k] < st[k + 1] && st[k + 1] - st[k] >= want && boundary(
            s,
            #[trigger] st[k + 1],
        )
    &&& forall|k: int, m: int|
        #![trigger st[k], boundary(s, m)]
        0 <= k < st.len() - 1 && st[k] < m < st[k + 1] ==> !(m - st[k] >= want && boundary(s, m))
}

proof fn lemma_concat_push(bs: Seq<Seq<Section>>, b: Seq<Section>)
    ensures
        concat_all(bs.push(b)) == concat_all(bs) + b,
{
    assert(bs.push(b).drop_last() =~= bs);
}

/// The starts of the batches after the first, over the paths of `fresh`.
fn batch_starts(fresh: &Vec<Section>, want: usize) -> (cuts: Vec<usize>)
    requires
        fresh@.len() > 0,
    ensures
        good_starts(fresh@, seq![0int] + cuts@.map_values(|c: usize| c as int), want as int),
        forall|j: int| 0 <= j < cuts@.len() ==> 0 < #[trigger] cuts@[j] < fresh@.len(),
        ({
            let st = seq![0int] + cuts@.map_values(|c: usize| c as int);
            forall|m: int|
                #![trigger boundary(fresh@, m)]
                st.last() < m < fresh@.len() ==> !(m - st.last() >= want && boundary(fresh@, m))
        }),
{
    let n = fresh.len();
    let ghost s = fresh@;
    let mut cuts: Vec<usize> = Vec::new();
    let ghost mut st: Seq<int> = seq![0int];
    let mut a: usize = 0;
    let mut i: usize = 1;
    assert(st =~= seq![0int] + cuts@.map_values(|c: usize| c as int));
    while i < n
        invariant
            n == s.len(),
            s == fresh@,
            0 <= a < i <= n,
            good_starts(s, st, want as int),
            st == seq![0int] + cuts@.map_values(|c: usize| c as int),
            forall|j: int| 0 <= j < cuts@.len() ==> 0 < #[trigger] cuts@[j] <= a,
            st.last() == a as int,
            forall|m: int| #![trigger boundary(s, m)] a < m < i ==> !(m - a >= want && boundary(s, m)),
        decreases n - i,
    {
        if i - a >= want && fresh[i - 1].path != fresh[i].path {
            proof {
                let st2 = st.push(i as int);
                assert forall|k: int, m: int|
                    #![trigger st2[k], boundary(s, m)]
                    0 <= k < st2.len() - 1 && st2[k] < m < st2[k + 1] implies !(m - st2[k] >= want
                    && boundary(s, m)) by {
                    if k == st.len() - 1 {
                        assert(st2[k] == a);
                    } else {
                        assert(st2[k] == st[k] && st2[k + 1] == st[k + 1]);
                        assert(st[k] == st[k]);
                    }
                }
                assert forall|k: int| 0 <= k < st2.len() - 1 implies st2[k] < st2[k + 1] && st2[k + 1]
                    - st2[k] >= want && boundary(s, #[trigger] st2[k + 1]) by {
                    if k == st.len() - 1 {
                        assert(st2[k] == a && st2[k + 1] == i);
                    } else {
                        assert(st2[k] == st[k] && st2[k + 1] == st[k + 1]);
                    }
                }
                st = st2;
            }
            cuts.push(i);
            a = i;
            proof {
                assert(st =~= seq![0int] + cuts@.map_values(|c: usize| c as int));
            }
        }
        i = i + 1;
    }
    cuts
}

proof fn lemma_batches_well(s: Seq<Section>, st: Seq<int>, bs: Seq<Seq<Section>>, want: int)
    requires
        good_starts(s, st, want),
        forall|j: int| 0 <= j < st.len() ==> 0 <= #[trigger] st[j] < s.len(),
        forall|m: int| #![trigger boundary(s, m)] st.last() < m < s.len() ==> !(m - st.last() >= want && boundary(s, m)),
        bs.len() == st.len(),
        forall|j: int| 0 <= j < bs.len() ==> (#[trigger] bs[j]) == s.subrange(
            st[j],
            if j < st.len() - 1 { st[j + 1] } else { s.len() as int },
        ),
    ensures
        well_batched(bs, want),
{
    let n = s.len() as int;
    let last = st.len() - 1;
    assert forall|j: int| 0 <= j < bs.len() implies (#[trigger] bs[j]).len() > 0 by {
        if j < last {
            assert(st[j] < st[j + 1]);
        }
    }
    assert forall|j: int| 0 <= j < bs.len() - 1 implies (#[trigger] bs[j]).len() >= want
        && bs[j].last().path@ != bs[j + 1][0].path@ by {
        assert(st[j] < st[j + 1] && st[j + 1] - st[j] >= want && boundary(s, st[j + 1]));
        assert(bs[j].last() == s[st[j + 1] - 1]);
        assert(bs[j + 1][0] == s[st[j + 1]]);
    }
    assert forall|j: int, m: int|
        #![trigger bs[j][m]]
        0 <= j < bs.len() && want <= m < bs[j].len() && 0 < m implies bs[j][m - 1].path@
        == bs[j][m].path@ by {
        let q = st[j] + m;
        assert(bs[j][m - 1] == s[q - 1]);
        assert(bs[j][m] == s[q]);
        if j < last {
            assert(st[j] < q < st[j + 1]);
            assert(st[j] == st[j]);
            assert(!(q - st[j] >= want && boundary(s, q)));
        } else {
            assert(st[last] < q < n);
            assert(!(q - st.last() >= want && boundary(s, q)));
        }
    }
}

/// Split sections into batches of at least `want`, never cutting a file in
/// two. A single file larger than `want` becomes a batch of its own rather
/// than being divided.
pub fn batches(fresh: Vec<Section>, want: usize) -> (out: Vec<Vec<Section>>)
    ensures
        concat_all(batch_views(out@)) == fresh@,
        well_batched(batch_views(out@), want as int),
{
    let n = fresh.len();
    let ghost s = fresh@;
    if n == 0 {
        let out: Vec<Vec<Section>> = Vec::new();
        assert(batch_views(out@) =~= Seq::<Seq<Section>>::empty());
        assert(s =~= Seq::<Section>::empty());
        return out;
    }
    let cuts = batch_starts(&fresh, want);
    let ghost st = seq![0int] + cuts@.map_values(|c: usize| c as int);
    assert forall|j: int| 0 <= j < st.len() implies 0 <= #[trigger] st[j] < n by {
        if j > 0 {
            assert(st[j] == cuts@[j - 1]);
        }
    }
    // Cut where the starts say, front to back.
    let mut rest = fresh;
    let mut offset: usize = 0;
    let mut out: Vec<Vec<Section>> = Vec::new();
    let mut k: usize = 0;
    assert(batch_views(out@) =~= Seq::<Seq<Section>>::empty());
    assert(s.subrange(0, 0) =~= Seq::<Section>::empty());
    assert(rest@ =~= s.subrange(0, n as int));
    while k < cuts.len()
        invariant
            n == s.len(),
            good_starts(s, st, want as int),
            st == seq![0int] + cuts@.map_values(|c: usize| c as int),
            k <= cuts@.len(),
            offset as int == st[k as int],
            rest@ == s.subrange(offset as int, n as int),
            out@.len() == k,
            concat_all(batch_views(out@)) == s.subrange(0, offset as int),
            forall|j: int| 0 <= j < k ==> (#[trigger] batch_views(out@)[j]) == s.subrange(st[j], st[j + 1]),
            forall|j: int| 0 <= j < st.len() ==> 0 <= #[trigger] st[j] < n,
        decreases cuts@.len() - k,
    {
        let c = cuts[k];
        assert(st[k + 1] == c);
        assert(st[k as int] < st[k + 1]);
        let tail = rest.split_off(c - offset);
        let ghost before = batch_views(out@);
        let ghost piece = rest@;
        assert(piece =~= s.subrange(offset as int, c as int));
        out.push(rest);
        proof {
            assert(batch_views(out@) =~= before.push(piece));
            lemma_concat_push(before, piece);
            assert(s.subrange(0, offset as int) + piece =~= s.subrange(0, c as int));
        }
        rest = tail;
        assert(rest@ =~= s.subrange(c as int, n as int));
        offset = c;
        k = k + 1;
    }
    let ghost before = batch_views(out@);
    let ghost piece = rest@;
    out.push(rest);
    proof {
        assert(batch_views(out@) =~= before.push(piece));
        lemma_concat_push(before, piece);
        assert(s.subrange(0, offset as int) + piece =~= s);
        let bs = batch_views(out@);
        assert forall|j: int| 0 <= j < bs.len() implies (#[trigger] bs[j]) == s.subrange(
            st[j],
            if j < st.len() - 1 { st[j + 1] } else { n as int },
        ) by {
            if j < st.len() - 1 {
                assert(bs[j] == before[j]);
            }
        }
        lemma_batches_well(s, st, bs, want as int);
    }
    out
}

/// Rows the matrix holds, live and dead, given the length of its file (if
/// there is one) and the dimension of its rows.
pub open spec fn rows_spec(file_len: Option<u64>, dim: nat) -> nat {
    if dim == 0 {
        0
    } else {
        match file_len {
            Some(len) => len as nat / (dim * 4),
            None => 0,
        }
    }
}

pub fn rows_in_matrix(file_len: Option<u64>, dim: usize) -> (r: u64)
    requires
        dim <= u64::MAX / 4,
    ensures
        r as nat == rows_spec(file_len, dim as nat),
{
    if dim == 0 {
        return 0;
    }
    match file_len {
        Some(len) => len / (dim as u64 * 4),
        None => 0,
    }
}

/// Whether the dead rows are worth a rewrite: the one full rewrite folio
/// makes waits until dead rows outnumber the live ones they sit beside.
/// Gives the number of dead rows, and whether to compact.
pub fn compaction_due(rows: u64, live: u64) -> (r: (u64, bool))
    ensures
        r.0 == (if rows > live { rows - live } else { 0 }),
        r.1 == (r.0 > live && r.0 > 0),
{
    let dead = if rows > live {
        rows - live
    } else {
        0
    };
    (dead, dead > live && dead > 0)
}

/// A matrix file that can back an index: whole rows of `dim` little-endian
/// `f32`s, at least as many as the records name.
pub open spec fn consistent_spec(bytes: nat, dim: nat, high_water: nat) -> bool {
    bytes % (dim * 4) == 0 && bytes / (dim * 4) >= high_water
}

pub fn matrix_consistent(bytes: u64, dim: usize, high_water: u64) -> (b: bool)
    requires
        0 < dim <= u64::MAX / 4,
    ensures
        b == consistent_spec(bytes as nat, dim as nat, high_water as nat),
{
    let row = dim as u64 * 4;
    bytes % row == 0 && bytes / row >= high_water
}

/// A run re-uses the vectors it has only when nothing asked for a rebuild, an
/// index with rows exists, and the endpoint still answers in its space.
pub fn reuse_vectors(rebuild: bool, prev_dim: usize, drifted: bool) -> (b: bool)
    ensures
        b == (!rebuild && prev_dim > 0 && !drifted),
{
    !rebuild && prev_dim > 0 && !drifted
}

/// The probe an index is checked with: the text it was built with, or the
/// current one for an index that recorded none.
pub fn probe_text(recorded: &String) -> (r: String)
    ensures
        r@ == (if recorded@.len() == 0 {
            FINGERPRINT@
        } else {
            recorded@
        }),
{
    if recorded.as_str().is_empty() {
        FINGERPRINT.to_owned()
    } else {
        recorded.clone()
    }
}

/// The first returned vector whose length is not the index's dimension.
pub fn first_wrong_dim(lens: &Vec<usize>, dim: usize) -> (r: Option<usize>)
    ensures
        match r {
            Some(i) => i < lens@.len() && lens@[i as int] != dim && forall|j: int|
                0 <= j < i ==> lens@[j] == dim,
            None => forall|j: int| 0 <= j < lens@.len() ==> lens@[j] == dim,
        },
{
    let mut i: usize = 0;
    while i < lens.len()
        invariant
            i <= lens@.len(),
            forall|j: int| 0 <= j < i ==> lens@[j] == dim,
        decreases lens@.len() - i,
    {
        if lens[i] != dim {
            return Some(i);
        }
        i = i + 1;
    }
    None
}

/// The slots a batch written at row `base` occupies, one per section, in
/// order.
pub fn place(base: usize, batch: Vec<Section>) -> (r: Vec<(usize, Section)>)
    requires
        base + batch@.len() <= usize::MAX,
    ensures
        r@.len() == batch@.len(),
        forall|i: int| 0 <= i < r@.len() ==> (#[trigger] r@[i]).0 == base + i && r@[i].1 == batch@[i],
{
    let mut rest = batch;
    let ghost s = rest@;
    let mut r: Vec<(usize, Section)> = Vec::new();
    // Taken from the back, then turned around.
    let mut back: Vec<(usize, Section)> = Vec::new();
    let n = rest.len();
    while rest.len() > 0
        invariant
            rest@ == s.subrange(0, rest@.len() as int),
            n == s.len(),
            base + n <= usize::MAX,
            back@.len() == n - rest@.len(),
            forall|j: int| 0 <= j < back@.len() ==> (#[trigger] back@[j]).0 == base + (n - 1 - j)
                && back@[j].1 == s[n - 1 - j],
        decreases rest@.len(),
    {
        let i = rest.len() - 1;
        let x = rest.pop().unwrap();
        back.push((base + i, x));
    }
    while back.len() > 0
        invariant
            back@.len() + r@.len() == n,
            n == s.len(),
            forall|j: int| 0 <= j < back@.len() ==> (#[trigger] back@[j]).0 == base + (n - 1 - j)
                && back@[j].1 == s[n - 1 - j],
            forall|j: int| 0 <= j < r@.len() ==> (#[trigger] r@[j]).0 == base + j && r@[j].1 == s[j],
        decreases back@.len(),
    {
        let x = back.pop().unwrap();
        r.push(x);
    }
    r
}

/// The updates that renumber `kept` to slots `0..` in the order given: each
/// kept slot first goes to a negative slot of its own, `-(k + 1)` for the
/// `k`th, and a final `slot = -slot - 1` brings every negative slot back. The
/// detour is there because the target of one move is the source of another
/// and a slot is the table's key.
pub fn renumber_moves(kept: &Vec<usize>) -> (r: Vec<(i64, i64)>)
    requires
        kept@.len() < i64::MAX,
        forall|i: int| 0 <= i < kept@.len() ==> kept@[i] <= i64::MAX,
    ensures
        r@.len() == kept@.len(),
        forall|k: int| 0 <= k < r@.len() ==> (#[trigger] r@[k]).0 == kept@[k] as int && r@[k].1 == -(k + 1),
{
    let mut r: Vec<(i64, i64)> = Vec::new();
    let mut k: usize = 0;
    while k < kept.len()
        invariant
            k <= kept@.len(),
            kept@.len() < i64::MAX,
            forall|i: int| 0 <= i < kept@.len() ==> kept@[i] <= i64::MAX,
            r@.len() == k,
            forall|j: int| 0 <= j < k ==> (#[trigger] r@[j]).0 == kept@[j] as int && r@[j].1 == -(j + 1),
        decreases kept@.len() - k,
    {
        let to: i64 = -(k as i64) - 1;
        r.push((kept[k] as i64, to));
        k = k + 1;
    }
    r
}

/// The slots of a table after `UPDATE slot = to WHERE slot = from` for each
/// move in turn.
pub open spec fn apply_moves(slots: Seq<int>, moves: Seq<(int, int)>) -> Seq<int>
    decreases moves.len(),
{
    if moves.len() == 0 {
        slots
    } else {
        let m = moves.last();
        let before = apply_moves(slots, moves.drop_last());
        before.map_values(|x: int| if x == m.0 { m.1 } else { x })
    }
}

/// The slots of a table after `UPDATE slot = -slot - 1 WHERE slot < 0`.
pub open spec fn flip_negatives(slots: Seq<int>) -> Seq<int> {
    slots.map_values(|x: int| if x < 0 { -x - 1 } else { x })
}

pub open spec fn distinct(s: Seq<int>) -> bool {
    forall|i: int, j: int| 0 <= i < j < s.len() ==> s[i] != s[j]
}

/// The first `q` moves through the negatives: the `k`th kept slot to `-(k + 1)`.
pub open spec fn neg_moves(kept: Seq<int>, q: int) -> Seq<(int, int)> {
    Seq::new(q as nat, |k: int| (kept[k], -(k + 1)))
}

proof fn lemma_apply_moves_prefix(slots: Seq<int>, kept: Seq<int>, q: int)
    requires
        distinct(slots),
        distinct(kept),
        forall|i: int| 0 <= i < slots.len() ==> slots[i] >= 0,
        forall|k: int| 0 <= k < kept.len() ==> kept[k] >= 0,
        0 <= q <= kept.len(),
    ensures
        apply_moves(slots, neg_moves(kept, q)).len() == slots.len(),
        forall|i: int| 0 <= i < slots.len() ==> #[trigger] apply_moves(slots, neg_moves(kept, q))[i]
            == (if exists|k: int| 0 <= k < q && kept[k] == slots[i] {
                -((choose|k: int| 0 <= k < q && kept[k] == slots[i]) + 1)
            } else {
                slots[i]
            }),
    decreases q,
{
    let mv = neg_moves(kept, q);
    if q > 0 {
        let prev = neg_moves(kept, q - 1);
        assert(mv.drop_last() =~= prev);
        lemma_apply_moves_prefix(slots, kept, q - 1);
        let before = apply_moves(slots, prev);
        assert(mv.last() == (kept[q - 1], -q));
        assert(apply_moves(slots, mv) == before.map_values(|x: int| if x == kept[q - 1] { -q } else { x }));
        assert forall|i: int| 0 <= i < slots.len() implies #[trigger] apply_moves(slots, mv)[i] == (if exists|k: int| 0 <= k < q && kept[k] == slots[i] {
                -((choose|k: int| 0 <= k < q && kept[k] == slots[i]) + 1)
            } else {
                slots[i]
            }) by {
            assert(apply_moves(slots, mv)[i] == (if before[i] == kept[q - 1] { -q } else { before[i] }));
            if exists|k: int| 0 <= k < q - 1 && kept[k] == slots[i] {
                let c = choose|k: int| 0 <= k < q - 1 && kept[k] == slots[i];
                assert(before[i] == -(c + 1));
                let c2 = choose|k: int| 0 <= k < q && kept[k] == slots[i];
                assert(kept[c2] == kept[c]);
                assert(c2 == c);
            } else {
                assert(before[i] == slots[i]);
                if slots[i] == kept[q - 1] {
                    let c2 = choose|k: int| 0 <= k < q && kept[k] == slots[i];
                    assert(kept[c2] == kept[q - 1]);
                    assert(c2 == q - 1);
                }
            }
        }
    }
}

/// Renumbering through the negatives puts the `k`th kept slot at `k` and
/// leaves every other record where it was, for any table whose slots are
/// distinct and not negative and any kept slots that are distinct and not
/// negative.
pub proof fn lemma_renumber_through_negatives(slots: Seq<int>, kept: Seq<int>)
    requires
        distinct(slots),
        distinct(kept),
        forall|i: int| 0 <= i < slots.len() ==> slots[i] >= 0,
        forall|k: int| 0 <= k < kept.len() ==> kept[k] >= 0,
    ensures
        ({
            let after = flip_negatives(
                apply_moves(slots, neg_moves(kept, kept.len() as int)),
            );
            &&& after.len() == slots.len()
            &&& forall|i: int, k: int|
                #![trigger after[i], kept[k]]
                0 <= i < slots.len() && 0 <= k < kept.len() && slots[i] == kept[k] ==> after[i] == k
            &&& forall|i: int|
                0 <= i < slots.len() && !kept.contains(slots[i]) ==> #[trigger] after[i] == slots[i]
        }),
{
    lemma_apply_moves_prefix(slots, kept, kept.len() as int);
    let mv = neg_moves(kept, kept.len() as int);
    let mid = apply_moves(slots, mv);
    let after = flip_negatives(mid);
    assert forall|i: int, k: int|
        #![trigger after[i], kept[k]]
        0 <= i < slots.len() && 0 <= k < kept.len() && slots[i] == kept[k] implies after[i] == k by {
        assert(mid[i] == -((choose|c: int| 0 <= c < kept.len() && kept[c] == slots[i]) + 1));
        let c = choose|c: int| 0 <= c < kept.len() && kept[c] == slots[i];
        assert(kept[c] == kept[k]);
        assert(c == k);
    }
    assert forall|i: int| 0 <= i < slots.len() && !kept.contains(slots[i]) implies #[trigger] after[i] == slots[i] by {
        if exists|k: int| 0 <= k < kept.len() && kept[k] == slots[i] {
            let c = choose|k: int| 0 <= k < kept.len() && kept[k] == slots[i];
            assert(kept.contains(slots[i]));
        }
    }
}

/// Why a re-index was refused before it touched anything.
#[derive(Debug)]
pub enum ReindexRefusal {
    ZeroBudget,
    Unfinished { vectors: String },
}

pub ghost enum ReindexRefusalView {
    ZeroBudget,
    Unfinished { vectors: Seq<char> },
}

impl View for ReindexRefusal {
    type V = ReindexRefusalView;

    open spec fn view(&self) -> ReindexRefusalView {
        match self {
            ReindexRefusal::ZeroBudget => ReindexRefusalView::ZeroBudget,
            ReindexRefusal::Unfinished { vectors } => ReindexRefusalView::Unfinished {
                vectors: vectors@,
            },
        }
    }
}

pub open spec fn refusal_message(e: ReindexRefusalView) -> Seq<char> {
    match e {
        ReindexRefusalView::ZeroBudget => "a section budget of 0 characters would embed nothing"@,
        ReindexRefusalView::Unfinished { vectors } => "a compaction of "@ + vectors
            + " did not finish, so the records may name the wrong rows — rerun with --rebuild"@,
    }
}

impl ReindexRefusal {
    /// The refusal, in words.
    pub fn message(&self) -> (r: String)
        ensures
            r@ == refusal_message(self@),
    {
        match self {
            ReindexRefusal::ZeroBudget => "a section budget of 0 characters would embed nothing".to_owned(),
            ReindexRefusal::Unfinished { vectors } => {
                let mut r = "a compaction of ".to_owned();
                r.append(vectors.as_str());
                r.append(" did not finish, so the records may name the wrong rows — rerun with --rebuild");
                r
            },
        }
    }
}

/// A budget of zero characters would embed nothing, so a re-index asked for
/// one is refused before anything is opened.
pub fn refuse_budget(max_chars: usize) -> (r: Result<(), ReindexRefusal>)
    ensures
        r is Err <==> max_chars == 0,
        r is Err ==> r->Err_0@ == ReindexRefusalView::ZeroBudget,
{
    if max_chars == 0 {
        Err(ReindexRefusal::ZeroBudget)
    } else {
        Ok(())
    }
}

/// An index whose compaction did not finish may have records naming the wrong
/// rows, so it is refused rather than updated; `vectors` is its matrix.
pub fn refuse_unfinished(compacting: bool, vectors: &str) -> (r: Result<(), ReindexRefusal>)
    ensures
        r is Err <==> compacting,
        r is Err ==> r->Err_0@ == (ReindexRefusalView::Unfinished { vectors: vectors@ }),
{
    if compacting {
        Err(ReindexRefusal::Unfinished { vectors: vectors.to_owned() })
    } else {
        Ok(())
    }
}

/// The dimension a run records: the index's own where its vectors are kept,
/// otherwise the length of the fingerprint this run took.
pub fn recorded_dim(reuse: bool, prev_dim: usize, fingerprint_len: usize) -> (d: usize)
    ensures
        d == (if reuse {
            prev_dim
        } else {
            fingerprint_len
        }),
{
    if reuse {
        prev_dim
    } else {
        fingerprint_len
    }
}

} // verus!
