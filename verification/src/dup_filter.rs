//! The near-duplicate filter: candidate states are bucketed by the
//! triple of per-class occupied counts, and within a bucket a
//! candidate is dropped when some previously accepted fingerprint
//! matches it on every coordinate within the tolerance.
//!
//! Two strategies implement the same decision: a pairwise linear scan
//! over the stored fingerprints, and per-coordinate ordered indexes
//! queried by range and intersected.

use vstd::prelude::*;
use std::collections::HashMap;
use fixedbitset::FixedBitSet;
use crate::bits::{bits_of, bs_len, bs_get, count_true, lemma_count_true_step,
    lemma_count_true_full, lemma_count_true_le_len};
use crate::representation::{BitArrayRepresentation, MAX_SITES};
use vstd::arithmetic::div_mod::lemma_fundamental_div_mod_converse;

verus! {

broadcast use vstd::std_specs::hash::group_hash_axioms;

/// Base of the bucket-key encoding; above any site count.
pub const CLASS_KEY_BASE: u64 = 2097152;

/// Absolute difference of two fixed-point distances.
pub open spec fn abs_diff(a: u64, b: u64) -> int {
    if a >= b {
        a - b
    } else {
        b - a
    }
}

/// The stored fingerprint `b` matches the candidate `a` within `tol`
/// on every shared coordinate.
pub open spec fn fp_close(a: Seq<u64>, b: Seq<u64>, tol: u64) -> bool {
    forall|k: int| 0 <= k < a.len() && k < b.len() ==> abs_diff(a[k], b[k]) <= tol
}

/// The stored fingerprint `b` differs from the candidate `a` by more
/// than `tol` in at least one shared coordinate.
pub open spec fn fp_distinct(a: Seq<u64>, b: Seq<u64>, tol: u64) -> bool {
    exists|k: int| 0 <= k < a.len() && k < b.len() && abs_diff(a[k], b[k]) > tol
}

/// Acceptance rule of the pairwise-scan variant: every stored
/// fingerprint differs from the candidate by more than `tol` in at
/// least one shared coordinate.
pub open spec fn scan_unique(fp: Seq<u64>, stored: Seq<Seq<u64>>, tol: u64) -> bool {
    forall|j: int| 0 <= j < stored.len() ==> fp_distinct(fp, #[trigger] stored[j], tol)
}

/// Acceptance rule of the tree-indexed variant: no stored fingerprint
/// matches the candidate on all coordinates within `tol`.
pub open spec fn tree_unique(fp: Seq<u64>, stored: Seq<Seq<u64>>, tol: u64) -> bool {
    !(exists|j: int| 0 <= j < stored.len() && fp_close(fp, #[trigger] stored[j], tol))
}

/// The two duplicate-filter variants accept exactly the same
/// candidates: for any candidate fingerprint, any stored set and any
/// tolerance, the pairwise-scan decision and the tree-indexed
/// decision coincide.
pub proof fn lemma_filter_variants_agree(fp: Seq<u64>, stored: Seq<Seq<u64>>, tol: u64)
    ensures
        scan_unique(fp, stored, tol) == tree_unique(fp, stored, tol),
{
    if scan_unique(fp, stored, tol) {
        if !tree_unique(fp, stored, tol) {
            let j = choose|j: int| 0 <= j < stored.len() && fp_close(fp, #[trigger] stored[j], tol);
            assert(fp_distinct(fp, stored[j], tol));
            let k = choose|k: int|
                0 <= k < fp.len() && k < stored[j].len() && abs_diff(fp[k], stored[j][k]) > tol;
            assert(abs_diff(fp[k], stored[j][k]) <= tol);
            assert(false);
        }
    }
    if tree_unique(fp, stored, tol) {
        assert forall|j: int| 0 <= j < stored.len() implies fp_distinct(
            fp,
            #[trigger] stored[j],
            tol,
        ) by {
            assert(!fp_close(fp, stored[j], tol));
            let k = choose|k: int|
                0 <= k < fp.len() && k < stored[j].len() && !(abs_diff(fp[k], stored[j][k])
                    <= tol);
            assert(0 <= k < fp.len() && k < stored[j].len() && abs_diff(fp[k], stored[j][k])
                > tol);
        }
        assert(scan_unique(fp, stored, tol));
    }
}

/// Pointwise conjunction of two bit sequences.
pub open spec fn and_seq(a: Seq<bool>, b: Seq<bool>) -> Seq<bool> {
    Seq::new(a.len(), |i: int| a[i] && 0 <= i < b.len() && b[i])
}

/// How many occupied sites of `v` fall inside the mask `m`.
pub open spec fn masked_count(v: Seq<bool>, m: Seq<bool>) -> nat {
    count_true(and_seq(v, m))
}

/// Count the sites occupied in `v` that belong to the mask.
pub fn masked_count_exec(v: &FixedBitSet, mask: &FixedBitSet) -> (r: usize)
    requires
        bits_of(*v).len() == bits_of(*mask).len(),
    ensures
        r == masked_count(bits_of(*v), bits_of(*mask)),
{
    let ghost a = and_seq(bits_of(*v), bits_of(*mask));
    let n = bs_len(v);
    let mut acc: usize = 0;
    let mut i: usize = 0;
    while i < n
        invariant
            0 <= i <= n,
            n == bits_of(*v).len(),
            n == bits_of(*mask).len(),
            a == and_seq(bits_of(*v), bits_of(*mask)),
            a.len() == n,
            acc == count_true(a.take(i as int)),
            acc <= i,
        decreases n - i,
    {
        proof {
            lemma_count_true_step(a, i as int);
        }
        if bs_get(v, i) && bs_get(mask, i) {
            acc = acc + 1;
        }
        i = i + 1;
    }
    proof {
        lemma_count_true_full(a);
    }
    acc
}

/// The counts of occupied tripoint, midpoint and singlet sites in a
/// state: the bucket key of the duplicate filter.
#[derive(Clone, Copy, Hash, PartialEq, Eq, Structural, Debug, Default)]
pub struct PointTypeCount {
    pub tri: usize,
    pub mid: usize,
    pub sin: usize,
}

impl PointTypeCount {
    /// Count the occupied sites of each class.
    pub fn create(bitvector: &FixedBitSet, repr: &BitArrayRepresentation) -> (r: Self)
        requires
            repr.wf(),
            bits_of(*bitvector).len() == repr.n(),
        ensures
            r.tri == masked_count(bits_of(*bitvector), repr.tri()),
            r.mid == masked_count(bits_of(*bitvector), repr.mid()),
            r.sin == masked_count(bits_of(*bitvector), repr.sin()),
    {
        PointTypeCount {
            tri: masked_count_exec(bitvector, &repr.tripoint_mask),
            mid: masked_count_exec(bitvector, &repr.midpoint_mask),
            sin: masked_count_exec(bitvector, &repr.singlet_mask),
        }
    }
}

/// The bucket key encoding a count triple in one integer.
pub open spec fn class_key(t: nat, m: nat, s: nat) -> u64 {
    (t + m * CLASS_KEY_BASE + s * CLASS_KEY_BASE * CLASS_KEY_BASE) as u64
}

/// The total occupied count recovered from a bucket key.
pub open spec fn key_total(k: u64) -> int {
    (k as int) % (CLASS_KEY_BASE as int) + ((k as int) / (CLASS_KEY_BASE as int)) % (
    CLASS_KEY_BASE as int) + ((k as int) / (CLASS_KEY_BASE as int)) / (CLASS_KEY_BASE as int)
}

/// The key encoding is lossless over in-range counts: the total of
/// the encoded triple is recovered from the key.
pub proof fn lemma_class_key_total(t: nat, m: nat, s: nat)
    requires
        t < CLASS_KEY_BASE,
        m < CLASS_KEY_BASE,
        s < CLASS_KEY_BASE,
    ensures
        key_total(class_key(t, m, s)) == t + m + s,
{
    let b = CLASS_KEY_BASE as int;
    let x = t + m * b + s * b * b;
    assert(0 <= x < 0x10000000000000000) by (nonlinear_arith)
        requires
            t < 2097152 && m < 2097152 && s < 2097152 && b == 2097152 && x == t + m * b + s * b
                * b,
    ;
    assert(class_key(t, m, s) as int == x);
    assert(x == (m + s * b) * b + t) by (nonlinear_arith)
        requires
            x == t + m * b + s * b * b,
    ;
    lemma_fundamental_div_mod_converse(x, b, m + s * b, t as int);
    assert(x % b == t);
    assert(x / b == m + s * b);
    lemma_fundamental_div_mod_converse(m + s * b, b, s as int, m as int);
    assert((x / b) % b == m);
    assert((x / b) / b == s);
}

/// Compute a bucket key, verified against the spec encoding.
pub fn class_key_exec(t: usize, m: usize, s: usize) -> (r: u64)
    requires
        t <= MAX_SITES,
        m <= MAX_SITES,
        s <= MAX_SITES,
    ensures
        r == class_key(t as nat, m as nat, s as nat),
{
    proof {
        assert((t + m * (CLASS_KEY_BASE as int) + s * (CLASS_KEY_BASE as int) * (
        CLASS_KEY_BASE as int)) < 0x10000000000000000) by (nonlinear_arith)
            requires
                t <= 1048576 && m <= 1048576 && s <= 1048576,
        ;
    }
    (t as u64) + (m as u64) * CLASS_KEY_BASE + (s as u64) * CLASS_KEY_BASE * CLASS_KEY_BASE
}

/// The views of a sequence of fingerprint vectors.
pub open spec fn rows_of(b: Seq<Vec<u64>>) -> Seq<Seq<u64>> {
    Seq::new(b.len(), |i: int| b[i]@)
}

/// The fingerprints accepted so far, bucket by bucket: the abstract
/// state of either duplicate-filter variant.
pub open spec fn map_state(m: Map<u64, Vec<Vec<u64>>>) -> Map<u64, Seq<Seq<u64>>> {
    Map::new(|k: u64| m.contains_key(k), |k: u64| rows_of(m[k]@))
}

/// The bucket stored under `key`, empty when absent.
pub open spec fn bucket_of(st: Map<u64, Seq<Seq<u64>>>, key: u64) -> Seq<Seq<u64>> {
    if st.contains_key(key) {
        st[key]
    } else {
        Seq::empty()
    }
}

impl BitArrayRepresentation {
    /// The duplicate-filter bucket key of state `v`.
    pub open spec fn bucket_key_of(self, v: Seq<bool>) -> u64 {
        class_key(masked_count(v, self.tri()), masked_count(v, self.mid()), masked_count(
            v,
            self.sin(),
        ))
    }

    /// Whether state `v` is accepted by the duplicate filter given
    /// the abstract filter state `st`.
    pub open spec fn filter_decision(self, st: Map<u64, Seq<Seq<u64>>>, v: Seq<bool>) -> bool {
        scan_unique(
            self.fp_of(v),
            bucket_of(st, self.bucket_key_of(v)),
            self.options.difference_distance,
        )
    }

    /// The abstract filter state after offering state `v`: its
    /// fingerprint is recorded exactly when it is accepted.
    pub open spec fn filter_update(self, st: Map<u64, Seq<Seq<u64>>>, v: Seq<bool>) -> Map<
        u64,
        Seq<Seq<u64>>,
    > {
        if self.filter_decision(st, v) {
            st.insert(
                self.bucket_key_of(v),
                bucket_of(st, self.bucket_key_of(v)).push(self.fp_of(v)),
            )
        } else {
            st
        }
    }

    /// The pairwise-scan duplicate filter: decide whether
    /// `new_candidate` is geometrically distinguishable from every
    /// state of the same type composition accepted so far, and record
    /// its fingerprint when it is.
    pub fn similarity_filter(
        &self,
        new_candidate: &FixedBitSet,
        structure_map: &mut HashMap<u64, Vec<Vec<u64>>>,
    ) -> (r: bool)
        requires
            self.wf(),
            bits_of(*new_candidate).len() == self.n(),
        ensures
            r == self.filter_decision(map_state(old(structure_map)@), bits_of(*new_candidate)),
            map_state(final(structure_map)@) == self.filter_update(
                map_state(old(structure_map)@),
                bits_of(*new_candidate),
            ),
    {
        let ghost v = bits_of(*new_candidate);
        let ghost st0 = map_state(old(structure_map)@);
        let ptc = PointTypeCount::create(new_candidate, self);
        proof {
            lemma_count_true_le_len(and_seq(v, self.tri()));
            lemma_count_true_le_len(and_seq(v, self.mid()));
            lemma_count_true_le_len(and_seq(v, self.sin()));
        }
        let key = class_key_exec(ptc.tri, ptc.mid, ptc.sin);
        let new_structure = self.create_diff_vector(new_candidate);

        let unique = match structure_map.get(&key) {
            Some(bucket) => scan_bucket(
                bucket,
                &new_structure,
                self.options.difference_distance,
            ),
            None => true,
        };
        proof {
            if st0.contains_key(key) {
                assert(bucket_of(st0, key) == st0[key]);
            } else {
                assert(bucket_of(st0, key) =~= Seq::<Seq<u64>>::empty());
            }
            assert(unique == self.filter_decision(st0, v));
        }
        if unique {
            let mut bucket = match structure_map.remove(&key) {
                Some(b) => b,
                None => Vec::new(),
            };
            bucket.push(new_structure);
            structure_map.insert(key, bucket);
            proof {
                assert(map_state(structure_map@) =~~= self.filter_update(st0, v));
            }
            true
        } else {
            proof {
                assert(map_state(structure_map@) =~~= self.filter_update(st0, v));
            }
            false
        }
    }
}

/// Scan one bucket: the candidate is unique iff every stored
/// fingerprint differs by more than `tol` in some shared coordinate.
fn scan_bucket(bucket: &Vec<Vec<u64>>, fp: &Vec<u64>, tol: u64) -> (r: bool)
    ensures
        r == scan_unique(fp@, rows_of(bucket@), tol),
{
    let ghost stored = rows_of(bucket@);
    let mut j: usize = 0;
    while j < bucket.len()
        invariant
            0 <= j <= bucket@.len(),
            stored == rows_of(bucket@),
            stored.len() == bucket@.len(),
            forall|jj: int| 0 <= jj < j ==> fp_distinct(fp@, #[trigger] stored[jj], tol),
        decreases bucket@.len() - j,
    {
        let row = &bucket[j];
        let mut found = false;
        let mut k: usize = 0;
        let lim = if fp.len() < row.len() {
            fp.len()
        } else {
            row.len()
        };
        while k < lim && !found
            invariant
                0 <= k <= lim,
                lim <= fp@.len(),
                lim <= row@.len(),
                lim == if fp@.len() < row@.len() {
                    fp@.len()
                } else {
                    row@.len()
                },
                found ==> fp_distinct(fp@, row@, tol),
                !found ==> forall|kk: int|
                    0 <= kk < k ==> abs_diff(fp@[kk], row@[kk]) <= tol,
            decreases lim - k,
        {
            let a = fp[k];
            let b = row[k];
            let d = if a >= b {
                a - b
            } else {
                b - a
            };
            if d > tol {
                found = true;
            }
            k = k + 1;
        }
        proof {
            assert(stored[j as int] == row@);
        }
        if !found {
            proof {
                assert(!scan_unique(fp@, stored, tol)) by {
                    if scan_unique(fp@, stored, tol) {
                        assert(fp_distinct(fp@, stored[j as int], tol));
                        let k = choose|k: int|
                            0 <= k < fp@.len() && k < stored[j as int].len() && abs_diff(
                                fp@[k],
                                stored[j as int][k],
                            ) > tol;
                        assert(abs_diff(fp@[k], row@[k]) <= tol);
                    }
                }
            }
            return false;
        }
        proof {
            assert(fp_distinct(fp@, stored[j as int], tol));
        }
        j = j + 1;
    }
    true
}

} // verus!
