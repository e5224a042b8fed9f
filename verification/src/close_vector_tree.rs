//! The tree-indexed duplicate-filter variant: per fingerprint
//! coordinate an ordered index from value to the identifiers of the
//! fingerprints holding that value there.  A candidate is a
//! near-duplicate iff the per-coordinate tolerance-range queries have
//! a common identifier.

use vstd::prelude::*;
use std::collections::HashMap;
use fixedbitset::FixedBitSet;
use crate::bits::{bits_of, count_true};
use crate::representation::BitArrayRepresentation;
use crate::fingerprint::{tri_num, lemma_pair_seq_len, lemma_sort_spec_len};
use crate::dup_filter::{abs_diff, fp_close, tree_unique, lemma_filter_variants_agree,
    masked_count, and_seq, key_total, lemma_class_key_total, class_key_exec, PointTypeCount,
    bucket_of};
use crate::bits::lemma_count_true_le_len;

verus! {

broadcast use vstd::std_specs::hash::group_hash_axioms;

/// One coordinate index is consistent with the record of stored
/// fingerprints: one entry per fingerprint, each entry carrying that
/// fingerprint's value at this coordinate, ordered by value.
pub open spec fn col_ok(col: Seq<(u64, usize)>, stored: Seq<Seq<u64>>, size: int, k: int) -> bool {
    &&& col.len() == size
    &&& forall|p: int|
        0 <= p < col.len() ==> {
            let e = #[trigger] col[p];
            e.1 < size && e.0 == stored[e.1 as int][k]
        }
    &&& forall|id: int|
        0 <= id < size ==> ((#[trigger] stored[id]).len() >= 0 && exists|p: int|
            0 <= p < col.len() && ((#[trigger] col[p]).1 as int) == id)
    &&& forall|p1: int, p2: int|
        0 <= p1 < p2 < col.len() ==> (#[trigger] col[p1]).0 <= (#[trigger] col[p2]).0
}

/// A per-bucket tolerance-range index over fingerprints of one fixed
/// dimensionality.
pub struct CloseVectorTree {
    pub size: usize,
    pub tolerance: u64,
    pub vector: Vec<Vec<(u64, usize)>>,
    /// The fingerprints inserted so far, by identifier.
    pub stored: Ghost<Seq<Seq<u64>>>,
}

impl CloseVectorTree {
    /// The dimensionality: fingerprints indexed here have this many
    /// coordinates.
    pub open spec fn dims(self) -> nat {
        self.vector@.len()
    }

    pub open spec fn wf(self) -> bool {
        &&& self.size == self.stored@.len()
        &&& forall|id: int|
            0 <= id < self.size ==> (#[trigger] self.stored@[id]).len() == self.dims()
        &&& forall|k: int|
            0 <= k < self.dims() ==> col_ok(
                (#[trigger] self.vector@[k])@,
                self.stored@,
                self.size as int,
                k,
            )
    }

    /// An empty index for fingerprints of `length` coordinates.
    pub fn length(length: usize, tolerance: u64) -> (r: Self)
        ensures
            r.wf(),
            r.dims() == length,
            r.size == 0,
            r.stored@ == Seq::<Seq<u64>>::empty(),
            r.tolerance == tolerance,
    {
        let mut vector: Vec<Vec<(u64, usize)>> = Vec::new();
        let mut i: usize = 0;
        while i < length
            invariant
                0 <= i <= length,
                vector@.len() == i,
                forall|k: int| 0 <= k < i ==> (#[trigger] vector@[k])@.len() == 0,
            decreases length - i,
        {
            vector.push(Vec::new());
            i = i + 1;
        }
        CloseVectorTree { size: 0, tolerance, vector, stored: Ghost(Seq::empty()) }
    }

    /// The identifiers whose fingerprint value at coordinate `k` lies
    /// within the tolerance of `x`.
    fn coord_matches(&self, k: usize, x: u64) -> (r: Vec<usize>)
        requires
            self.wf(),
            k < self.dims(),
        ensures
            forall|p: int| 0 <= p < r@.len() ==> (#[trigger] r@[p]) < self.size,
            forall|id: usize|
                id < self.size ==> (r@.contains(id) <==> abs_diff(
                    x,
                    self.stored@[id as int][k as int],
                ) <= self.tolerance),
    {
        let col = &self.vector[k];
        let ghost cs = col@;
        let mut r: Vec<usize> = Vec::new();
        let mut p: usize = 0;
        while p < col.len()
            invariant
                0 <= p <= cs.len(),
                cs == col@,
                self.wf(),
                k < self.dims(),
                col_ok(cs, self.stored@, self.size as int, k as int),
                forall|q: int| 0 <= q < r@.len() ==> (#[trigger] r@[q]) < self.size,
                forall|q: int|
                    0 <= q < r@.len() ==> abs_diff(x, self.stored@[r@[q] as int][k as int])
                        <= self.tolerance,
                forall|pp: int|
                    0 <= pp < p && abs_diff(x, (#[trigger] cs[pp]).0) <= self.tolerance
                        ==> r@.contains(cs[pp].1),
            decreases cs.len() - p,
        {
            let entry = col[p];
            let val = entry.0;
            let id = entry.1;
            let d = if x >= val {
                x - val
            } else {
                val - x
            };
            if d <= self.tolerance {
                let ghost r0 = r@;
                r.push(id);
                proof {
                    assert(cs[p as int].1 < self.size);
                    assert(cs[p as int].0 == self.stored@[id as int][k as int]);
                    assert forall|pp: int|
                        0 <= pp < p + 1 && abs_diff(x, (#[trigger] cs[pp]).0)
                            <= self.tolerance implies r@.contains(cs[pp].1) by {
                        if pp < p {
                            assert(r0.contains(cs[pp].1));
                            let q = choose|q: int| 0 <= q < r0.len() && r0[q] == cs[pp].1;
                            assert(r@[q] == cs[pp].1);
                        } else {
                            assert(r@[r@.len() - 1] == cs[p as int].1);
                        }
                    }
                }
            } else {
                proof {
                    assert(cs[p as int].0 == self.stored@[id as int][k as int]);
                }
            }
            p = p + 1;
        }
        proof {
            assert forall|id: usize| id < self.size implies (r@.contains(id) <==> abs_diff(
                x,
                self.stored@[id as int][k as int],
            ) <= self.tolerance) by {
                if r@.contains(id) {
                    let q = choose|q: int| 0 <= q < r@.len() && r@[q] == id;
                    assert(abs_diff(x, self.stored@[r@[q] as int][k as int]) <= self.tolerance);
                }
                if abs_diff(x, self.stored@[id as int][k as int]) <= self.tolerance {
                    let pp = choose|pp: int|
                        0 <= pp < cs.len() && ((#[trigger] cs[pp]).1 as int) == id as int;
                    assert(cs[pp].0 == self.stored@[id as int][k as int]);
                    assert(r@.contains(cs[pp].1));
                }
            }
        }
        r
    }

    /// Whether the candidate fingerprint is distinguishable from
    /// every fingerprint indexed here: the per-coordinate range
    /// queries are intersected, and the candidate is unique iff the
    /// intersection is empty.
    pub fn check(&self, vector: &Vec<u64>) -> (r: bool)
        requires
            self.wf(),
            vector@.len() == self.dims(),
        ensures
            r == tree_unique(vector@, self.stored@, self.tolerance),
    {
        let dims = self.vector.len();
        if dims == 0 {
            proof {
                if self.size > 0 {
                    assert(fp_close(vector@, self.stored@[0], self.tolerance));
                }
            }
            return self.size == 0;
        }
        let mut acc = self.coord_matches(0, vector[0]);
        let mut k: usize = 1;
        while k < dims
            invariant
                1 <= k <= dims,
                self.wf(),
                dims == self.dims(),
                vector@.len() == dims,
                forall|p: int| 0 <= p < acc@.len() ==> (#[trigger] acc@[p]) < self.size,
                forall|id: usize|
                    id < self.size ==> (acc@.contains(id) <==> forall|kk: int|
                        0 <= kk < k ==> abs_diff(vector@[kk], self.stored@[id as int][kk])
                            <= self.tolerance),
            decreases dims - k,
        {
            let matches_k = self.coord_matches(k, vector[k]);
            let mut new_acc: Vec<usize> = Vec::new();
            let mut q: usize = 0;
            while q < acc.len()
                invariant
                    0 <= q <= acc@.len(),
                    forall|p: int| 0 <= p < acc@.len() ==> (#[trigger] acc@[p]) < self.size,
                    forall|p: int|
                        0 <= p < new_acc@.len() ==> acc@.contains(#[trigger] new_acc@[p])
                            && matches_k@.contains(new_acc@[p]),
                    forall|qq: int|
                        0 <= qq < q && matches_k@.contains(#[trigger] acc@[qq])
                            ==> new_acc@.contains(acc@[qq]),
                decreases acc@.len() - q,
            {
                let e = acc[q];
                if vec_contains(&matches_k, e) {
                    let ghost na0 = new_acc@;
                    new_acc.push(e);
                    proof {
                        assert(acc@.contains(acc@[q as int]));
                        assert forall|qq: int|
                            0 <= qq < q + 1 && matches_k@.contains(
                                #[trigger] acc@[qq],
                            ) implies new_acc@.contains(acc@[qq]) by {
                            if qq < q {
                                let z = choose|z: int| 0 <= z < na0.len() && na0[z] == acc@[qq];
                                assert(new_acc@[z] == acc@[qq]);
                            } else {
                                assert(new_acc@[new_acc@.len() - 1] == acc@[qq]);
                            }
                        }
                    }
                }
                q = q + 1;
            }
            proof {
                assert forall|id: usize| id < self.size implies (new_acc@.contains(id)
                    <==> forall|kk: int|
                    0 <= kk < k + 1 ==> abs_diff(vector@[kk], self.stored@[id as int][kk])
                        <= self.tolerance) by {
                    if new_acc@.contains(id) {
                        let z = choose|z: int| 0 <= z < new_acc@.len() && new_acc@[z] == id;
                        assert(acc@.contains(id) && matches_k@.contains(id));
                        assert forall|kk: int|
                            0 <= kk < k + 1 implies abs_diff(
                            vector@[kk],
                            self.stored@[id as int][kk],
                        ) <= self.tolerance by {
                            if kk < k {
                            } else {
                                assert(matches_k@.contains(id));
                            }
                        }
                    }
                    if forall|kk: int|
                        0 <= kk < k + 1 ==> abs_diff(vector@[kk], self.stored@[id as int][kk])
                            <= self.tolerance {
                        assert forall|kk: int|
                            0 <= kk < k implies abs_diff(
                            vector@[kk],
                            self.stored@[id as int][kk],
                        ) <= self.tolerance by {}
                        assert(acc@.contains(id));
                        let qq = choose|qq: int| 0 <= qq < acc@.len() && acc@[qq] == id;
                        assert(abs_diff(vector@[k as int], self.stored@[id as int][k as int])
                            <= self.tolerance);
                        assert(matches_k@.contains(acc@[qq]));
                        assert(new_acc@.contains(id));
                    }
                }
            }
            acc = new_acc;
            k = k + 1;
        }
        let empty = acc.len() == 0;
        proof {
            if empty {
                if !tree_unique(vector@, self.stored@, self.tolerance) {
                    let j = choose|j: int|
                        0 <= j < self.stored@.len() && fp_close(
                            vector@,
                            #[trigger] self.stored@[j],
                            self.tolerance,
                        );
                    assert(self.stored@[j].len() == self.dims());
                    assert forall|kk: int|
                        0 <= kk < dims implies abs_diff(vector@[kk], self.stored@[j][kk])
                            <= self.tolerance by {
                        assert(abs_diff(vector@[kk], self.stored@[j][kk]) <= self.tolerance);
                    }
                    assert(acc@.contains(j as usize));
                    assert(false);
                }
            } else {
                let id = acc@[0];
                assert(acc@.contains(id));
                assert(id < self.size);
                assert(fp_close(vector@, self.stored@[id as int], self.tolerance));
                assert(!tree_unique(vector@, self.stored@, self.tolerance));
            }
        }
        empty
    }

    /// Record the fingerprint under a fresh identifier, placing its
    /// value at each coordinate into that coordinate's ordered index.
    fn insert_blind(&mut self, vector: Vec<u64>)
        requires
            old(self).wf(),
            vector@.len() == old(self).dims(),
            old(self).dims() == 0 ==> old(self).size < usize::MAX,
        ensures
            final(self).wf(),
            final(self).dims() == old(self).dims(),
            final(self).tolerance == old(self).tolerance,
            final(self).stored@ == old(self).stored@.push(vector@),
            final(self).size == old(self).size + 1,
    {
        let ghost stored2 = self.stored@.push(vector@);
        let ghost old_size = self.size as int;
        let id = self.size;
        let dims = self.vector.len();
        let mut k: usize = 0;
        while k < dims
            invariant
                0 <= k <= dims,
                dims == self.vector@.len(),
                dims == old(self).vector@.len(),
                id == old_size,
                old_size == old(self).size,
                self.size == old(self).size,
                self.stored == old(self).stored,
                self.tolerance == old(self).tolerance,
                stored2 == self.stored@.push(vector@),
                old(self).wf(),
                vector@.len() == dims,
                self.stored@.len() == old_size,
                forall|kk: int|
                    k <= kk < dims ==> (#[trigger] self.vector@[kk]) == old(self).vector@[kk],
                forall|kk: int|
                    0 <= kk < k ==> col_ok(
                        (#[trigger] self.vector@[kk])@,
                        stored2,
                        old_size + 1,
                        kk,
                    ),
            decreases dims - k,
        {
            proof {
                assert(col_ok(old(self).vector@[k as int]@, self.stored@, old_size, k as int));
            }
            let x = vector[k];
            let ghost before = self.vector@[k as int]@;
            let col = &self.vector[k];
            let mut pos: usize = 0;
            while pos < col.len() && col[pos].0 <= x
                invariant
                    0 <= pos <= col@.len(),
                    col@ == before,
                    forall|p: int| 0 <= p < pos ==> (#[trigger] before[p]).0 <= x,
                decreases col@.len() - pos,
            {
                pos = pos + 1;
            }
            proof {
                assert(col_ok(before, self.stored@, old_size, k as int));
                assert forall|p: int| pos <= p < before.len() implies x < (
                #[trigger] before[p]).0 by {
                    if p == pos {
                    } else {
                        assert(before[pos as int].0 <= before[p].0);
                    }
                }
            }
            self.vector[k].insert(pos, (x, id));
            proof {
                let after = self.vector@[k as int]@;
                assert(after == before.insert(pos as int, (x, id)));
                before.insert_ensures(pos as int, (x, id));
                lemma_col_insert_ok(
                    before,
                    after,
                    old(self).stored@,
                    vector@,
                    old_size,
                    k as int,
                    pos as int,
                    x,
                );
                assert(col_ok(after, stored2, old_size + 1, k as int));
            }
            k = k + 1;
        }
        if dims == 0 {
            self.size = self.size + 1;
        } else {
            let new_len = self.vector[0].len();
            proof {
                assert(col_ok(self.vector@[0]@, stored2, old_size + 1, 0));
            }
            self.size = new_len;
        }
        proof {
            self.stored@ = stored2;
        }
        proof {
            assert forall|idx: int| 0 <= idx < self.size implies (
            #[trigger] self.stored@[idx]).len() == self.dims() by {
                if idx < old_size {
                    assert(self.stored@[idx] == old(self).stored@[idx]);
                } else {
                    assert(self.stored@[idx] == vector@);
                }
            }
        }
    }

    /// Test the fingerprint for uniqueness and record it when unique.
    pub fn insert(&mut self, vector: Vec<u64>) -> (r: bool)
        requires
            old(self).wf(),
            vector@.len() == old(self).dims(),
        ensures
            r == tree_unique(vector@, old(self).stored@, old(self).tolerance),
            final(self).wf(),
            final(self).dims() == old(self).dims(),
            final(self).tolerance == old(self).tolerance,
            r ==> final(self).stored@ == old(self).stored@.push(vector@),
            !r ==> *final(self) == *old(self),
    {
        let unique = self.check(&vector);
        if unique {
            proof {
                if self.vector.len() == 0 {
                    assert(self.size == 0) by {
                        if self.size > 0 {
                            assert(fp_close(vector@, self.stored@[0], self.tolerance));
                        }
                    }
                }
            }
            self.insert_blind(vector);
            true
        } else {
            false
        }
    }
}

/// Membership scan over a vector of identifiers.
fn vec_contains(v: &Vec<usize>, x: usize) -> (r: bool)
    ensures
        r == v@.contains(x),
{
    let mut i: usize = 0;
    while i < v.len()
        invariant
            0 <= i <= v@.len(),
            forall|j: int| 0 <= j < i ==> v@[j] != x,
        decreases v@.len() - i,
    {
        if v[i] == x {
            assert(v@.contains(x));
            return true;
        }
        i = i + 1;
    }
    false
}

/// Inserting a fresh fingerprint's value into a consistent ordered
/// column at its sorted position keeps the column consistent with the
/// extended record.
proof fn lemma_col_insert_ok(
    before: Seq<(u64, usize)>,
    after: Seq<(u64, usize)>,
    stored: Seq<Seq<u64>>,
    fp: Seq<u64>,
    size: int,
    k: int,
    pos: int,
    x: u64,
)
    requires
        col_ok(before, stored, size, k),
        stored.len() == size,
        0 <= size <= usize::MAX,
        0 <= k < fp.len(),
        x == fp[k],
        0 <= pos <= before.len(),
        after == before.insert(pos, (x, size as usize)),
        forall|p: int| 0 <= p < pos ==> (#[trigger] before[p]).0 <= x,
        forall|p: int| pos <= p < before.len() ==> x < (#[trigger] before[p]).0,
    ensures
        col_ok(after, stored.push(fp), size + 1, k),
{
    let stored2 = stored.push(fp);
    before.insert_ensures(pos, (x, size as usize));
    assert(after.len() == size + 1);
    assert forall|p: int| 0 <= p < after.len() implies ((#[trigger] after[p]).1 < size + 1
        && after[p].0 == stored2[after[p].1 as int][k]) by {
        if p < pos {
            assert(after[p] == before[p]);
            assert(stored2[before[p].1 as int] == stored[before[p].1 as int]);
        } else if p == pos {
            assert(after[p] == (x, size as usize));
            assert(stored2[size] == fp);
        } else {
            assert(after[p] == before[p - 1]);
            assert(stored2[before[p - 1].1 as int] == stored[before[p - 1].1 as int]);
        }
    }
    assert forall|id: int| 0 <= id < size + 1 implies ((#[trigger] stored2[id]).len() >= 0
        && exists|p: int| 0 <= p < after.len() && ((#[trigger] after[p]).1 as int) == id) by {
        if id < size {
            assert(stored[id] == stored2[id]);
            assert(exists|p: int|
                0 <= p < before.len() && ((#[trigger] before[p]).1 as int) == id);
            let p = choose|p: int| 0 <= p < before.len() && ((#[trigger] before[p]).1 as int)
                == id;
            if p < pos {
                assert(after[p] == before[p]);
                assert(((after[p]).1 as int) == id);
            } else {
                assert(after[p + 1] == before[p]);
                assert(((after[p + 1]).1 as int) == id);
            }
        } else {
            assert(after[pos] == (x, size as usize));
            assert(((after[pos]).1 as int) == id);
        }
    }
    assert forall|p1: int, p2: int| 0 <= p1 < p2 < after.len() implies (#[trigger] after[p1]).0
        <= (#[trigger] after[p2]).0 by {
        if p1 < pos && p2 < pos {
            assert(after[p1] == before[p1] && after[p2] == before[p2]);
        } else if p1 < pos && p2 == pos {
            assert(after[p1] == before[p1]);
        } else if p1 < pos && p2 > pos {
            assert(after[p1] == before[p1] && after[p2] == before[p2 - 1]);
            assert(before[p1].0 <= x);
            assert(x < before[p2 - 1].0);
        } else if p1 == pos && p2 > pos {
            assert(after[p2] == before[p2 - 1]);
            assert(x < before[p2 - 1].0);
        } else {
            assert(after[p1] == before[p1 - 1] && after[p2] == before[p2 - 1]);
        }
    }
}

/// The fingerprint dimensionality that belongs to a bucket key.
pub open spec fn key_dims(k: u64) -> nat {
    tri_num(key_total(k) as nat)
}

/// One tolerance-range index per type-composition bucket.
pub struct CloseVectorTreeMap {
    pub map: HashMap<u64, CloseVectorTree>,
    pub tolerance: u64,
}

impl CloseVectorTreeMap {
    /// The abstract filter state: the fingerprints accepted so far,
    /// bucket by bucket.
    pub open spec fn st(self) -> Map<u64, Seq<Seq<u64>>> {
        Map::new(|k: u64| self.map@.contains_key(k), |k: u64| self.map@[k].stored@)
    }

    pub open spec fn wf(self) -> bool {
        forall|k: u64|
            self.map@.contains_key(k) ==> {
                let t = #[trigger] self.map@[k];
                t.wf() && t.tolerance == self.tolerance && t.dims() == key_dims(k)
            }
    }

    /// An empty bucket map for the given tolerance.
    pub fn new(tolerance: u64) -> (r: Self)
        ensures
            r.wf(),
            r.tolerance == tolerance,
            r.st() =~= Map::<u64, Seq<Seq<u64>>>::empty(),
    {
        CloseVectorTreeMap { map: HashMap::new(), tolerance }
    }

    /// Test a candidate state against its bucket and record its
    /// fingerprint when it is unique.
    pub fn insert(&mut self, bitvector: &FixedBitSet, repr: &BitArrayRepresentation) -> (r:
        bool)
        requires
            old(self).wf(),
            repr.wf(),
            bits_of(*bitvector).len() == repr.n(),
            old(self).tolerance == repr.options.difference_distance,
        ensures
            r == repr.filter_decision(old(self).st(), bits_of(*bitvector)),
            final(self).st() == repr.filter_update(old(self).st(), bits_of(*bitvector)),
            final(self).wf(),
            final(self).tolerance == old(self).tolerance,
    {
        let ghost v = bits_of(*bitvector);
        let ghost st0 = self.st();
        let point_type_count = PointTypeCount::create(bitvector, repr);
        proof {
            lemma_count_true_le_len(and_seq(v, repr.tri()));
            lemma_count_true_le_len(and_seq(v, repr.mid()));
            lemma_count_true_le_len(and_seq(v, repr.sin()));
        }
        let key = class_key_exec(point_type_count.tri, point_type_count.mid, point_type_count.sin);
        let vector = repr.create_diff_vector(bitvector);
        proof {
            lemma_class_key_total(
                masked_count(v, repr.tri()),
                masked_count(v, repr.mid()),
                masked_count(v, repr.sin()),
            );
            assert forall|i: int|
                0 <= i < v.len() implies (((#[trigger] repr.tri()[i]) || repr.mid()[i]
                || repr.sin()[i]) && !(repr.tri()[i] && repr.mid()[i]) && !(repr.tri()[i]
                && repr.sin()[i]) && !(repr.mid()[i] && repr.sin()[i])) by {
                assert(repr.site_class_ok(i));
            }
            lemma_count_partition(v, repr.tri(), repr.mid(), repr.sin());
            lemma_pair_seq_len(*repr, v);
            lemma_sort_spec_len(crate::fingerprint::pair_seq(*repr, v));
            assert(vector@.len() == key_dims(key));
        }
        let mut tree = match self.map.remove(&key) {
            Some(t) => t,
            None => CloseVectorTree::length(vector.len(), self.tolerance),
        };
        proof {
            assert(tree.wf());
            assert(tree.dims() == vector@.len());
            assert(tree.stored@ == bucket_of(st0, key));
        }
        let unique = tree.insert(vector);
        self.map.insert(key, tree);
        proof {
            lemma_filter_variants_agree(
                repr.fp_of(v),
                bucket_of(st0, key),
                repr.options.difference_distance,
            );
            assert(unique == repr.filter_decision(st0, v));
            assert(self.st() =~~= repr.filter_update(st0, v));
        }
        unique
    }
}

/// When the three masks partition the sites, the occupied count of a
/// state splits into its per-class occupied counts.
pub proof fn lemma_count_partition(v: Seq<bool>, t: Seq<bool>, m: Seq<bool>, s: Seq<bool>)
    requires
        t.len() == v.len(),
        m.len() == v.len(),
        s.len() == v.len(),
        forall|i: int|
            0 <= i < v.len() ==> (((#[trigger] t[i]) || m[i] || s[i]) && !(t[i] && m[i]) && !(
            t[i] && s[i]) && !(m[i] && s[i])),
    ensures
        count_true(v) == masked_count(v, t) + masked_count(v, m) + masked_count(v, s),
    decreases v.len(),
{
    if v.len() == 0 {
        assert(and_seq(v, t) =~= Seq::<bool>::empty());
        assert(and_seq(v, m) =~= Seq::<bool>::empty());
        assert(and_seq(v, s) =~= Seq::<bool>::empty());
    } else {
        let n = v.len() - 1;
        lemma_count_partition(v.drop_last(), t.drop_last(), m.drop_last(), s.drop_last());
        assert(and_seq(v, t).drop_last() =~= and_seq(v.drop_last(), t.drop_last()));
        assert(and_seq(v, m).drop_last() =~= and_seq(v.drop_last(), m.drop_last()));
        assert(and_seq(v, s).drop_last() =~= and_seq(v.drop_last(), s.drop_last()));
        assert(and_seq(v, t).last() == (v[n] && t[n]));
        assert(and_seq(v, m).last() == (v[n] && m[n]));
        assert(and_seq(v, s).last() == (v[n] && s[n]));
        assert(t[n] || m[n] || s[n]);
    }
}

impl BitArrayRepresentation {
    /// The tree-indexed duplicate filter: same decision as
    /// `similarity_filter`, backed by per-coordinate range indexes.
    pub fn new_similarity_filter(
        &self,
        new_candidate: &FixedBitSet,
        structure_map: &mut CloseVectorTreeMap,
    ) -> (r: bool)
        requires
            self.wf(),
            bits_of(*new_candidate).len() == self.n(),
            old(structure_map).wf(),
            old(structure_map).tolerance == self.options.difference_distance,
        ensures
            r == self.filter_decision(old(structure_map).st(), bits_of(*new_candidate)),
            final(structure_map).st() == self.filter_update(
                old(structure_map).st(),
                bits_of(*new_candidate),
            ),
            final(structure_map).wf(),
            final(structure_map).tolerance == old(structure_map).tolerance,
    {
        structure_map.insert(new_candidate, self)
    }
}

} // verus!
