//! Geometric fingerprints: the sorted sequence of pairwise distances
//! between the occupied sites of a state.  Two states in the same
//! type-composition bucket are compared for near-duplication through
//! these fingerprints alone.

use vstd::prelude::*;
use fixedbitset::FixedBitSet;
use crate::bits::{bits_of, bs_len, bs_get, count_true, lemma_count_true_step,
    lemma_count_true_full};
use crate::representation::BitArrayRepresentation;

verus! {

/// The pair distances of columns `0..j` of column `j`: entries
/// `(i, j)` for occupied `i < min(i_max, j)`, in increasing `i`.
pub open spec fn col_pairs(rep: BitArrayRepresentation, v: Seq<bool>, j: int, i_max: int) -> Seq<
    u64,
>
    decreases i_max,
{
    if i_max <= 0 {
        Seq::empty()
    } else {
        col_pairs(rep, v, j, i_max - 1) + if v[i_max - 1] && v[j] {
            seq![rep.dist(i_max - 1, j)]
        } else {
            Seq::empty()
        }
    }
}

/// All pair distances among occupied sites of `v` with both indices
/// below `j_max`, grouped by the larger index.
pub open spec fn pairs_upto(rep: BitArrayRepresentation, v: Seq<bool>, j_max: int) -> Seq<u64>
    decreases j_max,
{
    if j_max <= 0 {
        Seq::empty()
    } else {
        pairs_upto(rep, v, j_max - 1) + col_pairs(rep, v, j_max - 1, j_max - 1)
    }
}

/// Every pair distance among the occupied sites of `v`.
pub open spec fn pair_seq(rep: BitArrayRepresentation, v: Seq<bool>) -> Seq<u64> {
    pairs_upto(rep, v, rep.n() as int)
}

/// Insert `x` into the sorted sequence `s` before the first element
/// not smaller than it.
pub open spec fn sorted_insert(s: Seq<u64>, x: u64) -> Seq<u64>
    decreases s.len(),
{
    if s.len() == 0 {
        seq![x]
    } else if x <= s[0] {
        seq![x] + s
    } else {
        seq![s[0]] + sorted_insert(s.drop_first(), x)
    }
}

/// Insertion sort, element by element from the left.
pub open spec fn sort_spec(s: Seq<u64>) -> Seq<u64>
    decreases s.len(),
{
    if s.len() == 0 {
        Seq::empty()
    } else {
        sorted_insert(sort_spec(s.drop_last()), s.last())
    }
}

/// The number of unordered pairs over `n` items: `n * (n - 1) / 2`.
pub open spec fn tri_num(n: nat) -> nat
    decreases n,
{
    if n == 0 {
        0
    } else {
        tri_num((n - 1) as nat) + ((n - 1) as nat)
    }
}

/// Nondecreasing order.
pub open spec fn sorted_u64(s: Seq<u64>) -> bool {
    forall|i: int, j: int| 0 <= i < j < s.len() ==> s[i] <= s[j]
}

/// Inserting into a sorted sequence keeps it sorted and adds exactly
/// the new element.
pub proof fn lemma_sorted_insert_props(s: Seq<u64>, x: u64)
    requires
        sorted_u64(s),
    ensures
        sorted_u64(sorted_insert(s, x)),
        sorted_insert(s, x).to_multiset() == s.to_multiset().insert(x),
    decreases s.len(),
{
    broadcast use vstd::seq_lib::group_to_multiset_ensures;

    let si = sorted_insert(s, x);
    if s.len() == 0 {
        assert(si == seq![x]);
        assert(seq![x] =~= Seq::<u64>::empty().push(x));
        assert(si.to_multiset() =~= s.to_multiset().insert(x));
    } else if x <= s[0] {
        assert(si == seq![x] + s);
        assert forall|i: int, j: int| 0 <= i < j < si.len() implies si[i] <= si[j] by {
            if i == 0 {
                assert(si[j] == s[j - 1]);
                if j > 1 {
                    assert(s[0] <= s[j - 1]);
                }
            } else {
                assert(si[i] == s[i - 1] && si[j] == s[j - 1]);
            }
        }
        vstd::seq_lib::lemma_multiset_commutative(seq![x], s);
        assert(seq![x] =~= Seq::<u64>::empty().push(x));
        assert(si.to_multiset() =~= s.to_multiset().insert(x));
    } else {
        let t = s.drop_first();
        assert(sorted_u64(t)) by {
            assert forall|i: int, j: int| 0 <= i < j < t.len() implies t[i] <= t[j] by {
                assert(t[i] == s[i + 1] && t[j] == s[j + 1]);
            }
        }
        lemma_sorted_insert_props(t, x);
        let ti = sorted_insert(t, x);
        assert(si == seq![s[0]] + ti);
        // every element of the inserted tail is x or an element of
        // the tail, so the head stays the least
        assert forall|j: int| 0 <= j < ti.len() implies s[0] <= ti[j] by {
            assert(ti.contains(ti[j]));
            assert(ti.to_multiset().count(ti[j]) > 0);
            if ti[j] == x {
            } else {
                assert(t.to_multiset().count(ti[j]) > 0);
                assert(t.contains(ti[j]));
                let q = choose|q: int| 0 <= q < t.len() && t[q] == ti[j];
                assert(s[q + 1] == ti[j]);
                assert(s[0] <= s[q + 1]);
            }
        }
        assert forall|i: int, j: int| 0 <= i < j < si.len() implies si[i] <= si[j] by {
            if i == 0 {
                assert(si[j] == ti[j - 1]);
            } else {
                assert(si[i] == ti[i - 1] && si[j] == ti[j - 1]);
            }
        }
        vstd::seq_lib::lemma_multiset_commutative(seq![s[0]], ti);
        assert(seq![s[0]] =~= Seq::<u64>::empty().push(s[0]));
        assert(seq![s[0]] + t =~= s);
        vstd::seq_lib::lemma_multiset_commutative(seq![s[0]], t);
        assert(si.to_multiset() =~= s.to_multiset().insert(x));
    }
}

/// Sorting yields a nondecreasing permutation of the input.
pub proof fn lemma_sort_spec_props(s: Seq<u64>)
    ensures
        sorted_u64(sort_spec(s)),
        sort_spec(s).to_multiset() == s.to_multiset(),
    decreases s.len(),
{
    broadcast use vstd::seq_lib::group_to_multiset_ensures;

    if s.len() == 0 {
    } else {
        lemma_sort_spec_props(s.drop_last());
        lemma_sorted_insert_props(sort_spec(s.drop_last()), s.last());
        assert(s =~= s.drop_last().push(s.last()));
        assert(sort_spec(s).to_multiset() =~= s.to_multiset());
    }
}

pub proof fn lemma_sorted_insert_len(s: Seq<u64>, x: u64)
    ensures
        sorted_insert(s, x).len() == s.len() + 1,
    decreases s.len(),
{
    if s.len() > 0 && !(x <= s[0]) {
        lemma_sorted_insert_len(s.drop_first(), x);
    }
}

pub proof fn lemma_sort_spec_len(s: Seq<u64>)
    ensures
        sort_spec(s).len() == s.len(),
    decreases s.len(),
{
    if s.len() > 0 {
        lemma_sort_spec_len(s.drop_last());
        lemma_sorted_insert_len(sort_spec(s.drop_last()), s.last());
    }
}

/// Where the scan of a sorted sequence stops, that is where
/// `sorted_insert` places the new element.
pub proof fn lemma_sorted_insert_at(s: Seq<u64>, x: u64, pos: int)
    requires
        0 <= pos <= s.len(),
        forall|j: int| 0 <= j < pos ==> s[j] < x,
        pos < s.len() ==> x <= s[pos],
    ensures
        sorted_insert(s, x) == s.take(pos) + seq![x] + s.skip(pos),
    decreases s.len(),
{
    if s.len() == 0 {
        assert(sorted_insert(s, x) =~= s.take(pos) + seq![x] + s.skip(pos));
    } else if pos == 0 {
        assert(x <= s[0]);
        assert(sorted_insert(s, x) =~= s.take(0) + seq![x] + s.skip(0));
    } else {
        assert(s[0] < x);
        lemma_sorted_insert_at(s.drop_first(), x, pos - 1);
        assert(s.drop_first().take(pos - 1) =~= s.take(pos).drop_first());
        assert(s.drop_first().skip(pos - 1) =~= s.skip(pos));
        assert(seq![s[0]] + (s.drop_first().take(pos - 1) + seq![x] + s.drop_first().skip(
            pos - 1,
        )) =~= s.take(pos) + seq![x] + s.skip(pos));
    }
}

pub proof fn lemma_col_pairs_len(rep: BitArrayRepresentation, v: Seq<bool>, j: int, i_max: int)
    requires
        0 <= i_max <= v.len(),
        0 <= j < v.len(),
    ensures
        col_pairs(rep, v, j, i_max).len() == if v[j] {
            count_true(v.take(i_max))
        } else {
            0nat
        },
    decreases i_max,
{
    if i_max > 0 {
        lemma_col_pairs_len(rep, v, j, i_max - 1);
        lemma_count_true_step(v, i_max - 1);
    }
}

pub proof fn lemma_pairs_upto_len(rep: BitArrayRepresentation, v: Seq<bool>, j_max: int)
    requires
        0 <= j_max <= v.len(),
    ensures
        pairs_upto(rep, v, j_max).len() == tri_num(count_true(v.take(j_max))),
    decreases j_max,
{
    if j_max > 0 {
        lemma_pairs_upto_len(rep, v, j_max - 1);
        lemma_col_pairs_len(rep, v, j_max - 1, j_max - 1);
        lemma_count_true_step(v, j_max - 1);
        let c = count_true(v.take(j_max - 1));
        if v[j_max - 1] {
            assert(count_true(v.take(j_max)) == c + 1);
            assert(tri_num(c + 1) == tri_num(c) + c);
        }
    }
}

/// The fingerprint length depends only on how many sites are occupied.
pub proof fn lemma_pair_seq_len(rep: BitArrayRepresentation, v: Seq<bool>)
    requires
        v.len() == rep.n(),
    ensures
        pair_seq(rep, v).len() == tri_num(count_true(v)),
{
    lemma_pairs_upto_len(rep, v, rep.n() as int);
    lemma_count_true_full(v);
}

impl BitArrayRepresentation {
    /// The fingerprint of state `v`: its pair distances, sorted.
    pub open spec fn fp_of(self, v: Seq<bool>) -> Seq<u64> {
        sort_spec(pair_seq(self, v))
    }

    /// Collect and sort the pairwise distances between the occupied
    /// sites of `new_candidate`: a nondecreasing rearrangement of the
    /// state's pair distances.
    pub fn create_diff_vector(&self, new_candidate: &FixedBitSet) -> (r: Vec<u64>)
        requires
            self.wf(),
            bits_of(*new_candidate).len() == self.n(),
        ensures
            r@ == self.fp_of(bits_of(*new_candidate)),
            sorted_u64(r@),
            r@.to_multiset() == pair_seq(*self, bits_of(*new_candidate)).to_multiset(),
    {
        proof {
            lemma_sort_spec_props(pair_seq(*self, bits_of(*new_candidate)));
        }
        let ghost v = bits_of(*new_candidate);
        let n = bs_len(new_candidate);
        let mut pairs: Vec<u64> = Vec::new();
        let mut j: usize = 0;
        while j < n
            invariant
                0 <= j <= n,
                n == self.n(),
                self.wf(),
                v == bits_of(*new_candidate),
                v.len() == n,
                pairs@ == pairs_upto(*self, v, j as int),
            decreases n - j,
        {
            if bs_get(new_candidate, j) {
                let mut i: usize = 0;
                while i < j
                    invariant
                        0 <= i <= j < n,
                        n == self.n(),
                        self.wf(),
                        v == bits_of(*new_candidate),
                        v.len() == n,
                        v[j as int],
                        pairs@ == pairs_upto(*self, v, j as int) + col_pairs(
                            *self,
                            v,
                            j as int,
                            i as int,
                        ),
                    decreases j - i,
                {
                    if bs_get(new_candidate, i) {
                        pairs.push(self.distances_matrix[i][j]);
                        proof {
                            assert(pairs@ =~= pairs_upto(*self, v, j as int) + col_pairs(
                                *self,
                                v,
                                j as int,
                                i + 1,
                            ));
                        }
                    } else {
                        proof {
                            assert(pairs@ =~= pairs_upto(*self, v, j as int) + col_pairs(
                                *self,
                                v,
                                j as int,
                                i + 1,
                            ));
                        }
                    }
                    i = i + 1;
                }
            } else {
                proof {
                    assert(col_pairs(*self, v, j as int, j as int) =~= Seq::<u64>::empty()) by {
                        lemma_col_pairs_empty(*self, v, j as int, j as int);
                    }
                    assert(pairs@ =~= pairs_upto(*self, v, j as int) + col_pairs(
                        *self,
                        v,
                        j as int,
                        j as int,
                    ));
                }
            }
            j = j + 1;
        }
        sort_vec(pairs)
    }
}

/// A column of an unoccupied site contributes no pair.
pub proof fn lemma_col_pairs_empty(
    rep: BitArrayRepresentation,
    v: Seq<bool>,
    j: int,
    i_max: int,
)
    requires
        0 <= j < v.len(),
        !v[j],
        i_max <= v.len(),
    ensures
        col_pairs(rep, v, j, i_max).len() == 0,
    decreases i_max,
{
    if i_max > 0 {
        lemma_col_pairs_empty(rep, v, j, i_max - 1);
    }
}

/// Insert `x` into the sorted vector `r` at its place.
fn insert_sorted(r: &mut Vec<u64>, x: u64)
    ensures
        final(r)@ == sorted_insert(old(r)@, x),
{
    let mut pos: usize = 0;
    while pos < r.len() && r[pos] < x
        invariant
            0 <= pos <= r@.len(),
            *r == *old(r),
            forall|j: int| 0 <= j < pos ==> r@[j] < x,
        decreases r@.len() - pos,
    {
        pos = pos + 1;
    }
    proof {
        lemma_sorted_insert_at(r@, x, pos as int);
    }
    r.insert(pos, x);
    proof {
        assert(r@ =~= old(r)@.take(pos as int) + seq![x] + old(r)@.skip(pos as int));
    }
}

/// Sort a vector ascending; the result is pinned to the insertion
/// sort of its contents.
pub fn sort_vec(v: Vec<u64>) -> (r: Vec<u64>)
    ensures
        r@ == sort_spec(v@),
{
    let mut r: Vec<u64> = Vec::new();
    let mut idx: usize = 0;
    while idx < v.len()
        invariant
            0 <= idx <= v@.len(),
            r@ == sort_spec(v@.take(idx as int)),
        decreases v@.len() - idx,
    {
        insert_sorted(&mut r, v[idx]);
        proof {
            assert(v@.take(idx + 1).drop_last() =~= v@.take(idx as int));
            assert(v@.take(idx + 1).last() == v@[idx as int]);
        }
        idx = idx + 1;
    }
    proof {
        assert(v@.take(v@.len() as int) =~= v@);
    }
    r
}

} // verus!
