//! The static problem instance: an exclusion matrix, a pairwise
//! distance matrix, and three masks partitioning the sites into
//! priority classes — plus the possibility engine, the pure function
//! from a fill state to the set of sites legally fillable next.

use vstd::prelude::*;
use fixedbitset::FixedBitSet;
use crate::bits::{bits_of, bs_new, bs_len, bs_get, bs_set, bs_clone, bs_count_ones,
    bs_is_clear, bs_highest, bs_disjoint, bs_ones, count_true, has_true, highest_true,
    ones_list, seq_disjoint, lemma_count_true_zero, lemma_highest_true_props,
    lemma_ones_list_props, lemma_count_true_le_len};
use crate::settings::BitArraySettings;
use crate::sites::SiteFilter;

verus! {

/// Largest supported number of sites in one instance; keeps all index
/// and bucket-key arithmetic comfortably inside machine integers.
pub const MAX_SITES: usize = 1048576;

/// The bit-matrix form of a lattice problem: everything the solver
/// needs, with sites identified by dense integer index.
pub struct BitArrayRepresentation {
    /// The initial fill state (normally all clear).
    pub filled_sites: FixedBitSet,
    /// Row `i` holds the sites that cannot coexist with site `i`.
    pub exclusion_matrix: Vec<FixedBitSet>,
    /// Pairwise distances in fixed-point units; only the strict upper
    /// triangle is populated.
    pub distances_matrix: Vec<Vec<u64>>,
    pub tripoint_mask: FixedBitSet,
    pub midpoint_mask: FixedBitSet,
    pub singlet_mask: FixedBitSet,
    /// When this instance was compacted out of a larger one: the bit
    /// `i` is set iff original site `i` survives here.
    pub filter: Option<FixedBitSet>,
    pub options: BitArraySettings,
}

impl BitArrayRepresentation {
    /// Number of sites.
    pub open spec fn n(self) -> nat {
        bits_of(self.filled_sites).len()
    }

    /// Exclusion row of site `i`.
    pub open spec fn excl(self, i: int) -> Seq<bool> {
        bits_of(self.exclusion_matrix@[i])
    }

    pub open spec fn tri(self) -> Seq<bool> {
        bits_of(self.tripoint_mask)
    }

    pub open spec fn mid(self) -> Seq<bool> {
        bits_of(self.midpoint_mask)
    }

    pub open spec fn sin(self) -> Seq<bool> {
        bits_of(self.singlet_mask)
    }

    /// Distance between sites `i` and `j`.
    pub open spec fn dist(self, i: int, j: int) -> u64 {
        self.distances_matrix@[i]@[j]
    }

    /// Site `i` belongs to exactly one of the three classes.
    pub open spec fn site_class_ok(self, i: int) -> bool {
        let t = self.tri()[i];
        let m = self.mid()[i];
        let s = self.sin()[i];
        (t || m || s) && !(t && m) && !(t && s) && !(m && s)
    }

    /// Internal consistency: all matrices and masks are square over
    /// `n` sites, the three masks partition the sites, exclusion is
    /// symmetric, and a compaction filter selects exactly `n`
    /// surviving original sites.
    pub open spec fn wf(self) -> bool {
        &&& self.n() <= MAX_SITES
        &&& self.exclusion_matrix@.len() == self.n()
        &&& forall|i: int| 0 <= i < self.n() ==> (#[trigger] self.excl(i)).len() == self.n()
        &&& self.tri().len() == self.n()
        &&& self.mid().len() == self.n()
        &&& self.sin().len() == self.n()
        &&& self.distances_matrix@.len() == self.n()
        &&& forall|i: int|
            0 <= i < self.n() ==> (#[trigger] self.distances_matrix@[i]@).len() == self.n()
        &&& forall|i: int| 0 <= i < self.n() ==> #[trigger] self.site_class_ok(i)
        &&& forall|i: int, j: int|
            0 <= i < self.n() && 0 <= j < self.n() ==> #[trigger] self.excl(i)[j] == self.excl(
                j,
            )[i]
        &&& match self.filter {
            Some(f) => count_true(bits_of(f)) == self.n(),
            None => true,
        }
    }

    /// Every site excludes itself, so an occupied site is never
    /// reported fillable again.  Instances built from geometry have
    /// this, and the solvers' termination argument rests on it.
    pub open spec fn reflexive(self) -> bool {
        forall|i: int| 0 <= i < self.n() ==> #[trigger] self.excl(i)[i]
    }

    /// Site `i` is available in state `v`: no occupied site excludes it.
    pub open spec fn avail_at(self, v: Seq<bool>, i: int) -> bool {
        seq_disjoint(v, self.excl(i))
    }

    /// The available sites of state `v`, as a bit sequence.
    pub open spec fn avail(self, v: Seq<bool>) -> Seq<bool> {
        Seq::new(self.n(), |i: int| self.avail_at(v, i))
    }

    /// The available sites at or above the highest occupied site
    /// (no masking when `v` is empty).
    pub open spec fn canon(self, v: Seq<bool>) -> Seq<bool> {
        Seq::new(self.n(), |i: int| self.avail(v)[i] && i >= highest_true(v))
    }

    /// The canonically available tripoint and midpoint sites.
    pub open spec fn priority(self, v: Seq<bool>) -> Seq<bool> {
        Seq::new(self.n(), |i: int| self.canon(v)[i] && (self.tri()[i] || self.mid()[i]))
    }

    /// What `get_possibilities` computes: `Some` of the legal moves
    /// (an all-clear sequence meaning the state is maximal), or `None`
    /// for a pruned state.
    pub open spec fn spec_possibilities(self, v: Seq<bool>) -> Option<Seq<bool>> {
        let a = self.avail(v);
        if !has_true(a) {
            Some(a)
        } else {
            let c = self.canon(v);
            if !has_true(c) {
                None
            } else {
                let p = self.priority(v);
                if has_true(p) {
                    Some(p)
                } else if count_true(a) <= self.options.max_singlets {
                    Some(c)
                } else {
                    None
                }
            }
        }
    }

    /// Build a representation directly from its parts.
    #[allow(clippy::too_many_arguments)]
    pub fn create_debug(
        filled_sites: FixedBitSet,
        exclusion_matrix: Vec<FixedBitSet>,
        distances_matrix: Vec<Vec<u64>>,
        tripoint_mask: FixedBitSet,
        midpoint_mask: FixedBitSet,
        singlet_mask: FixedBitSet,
        filter: Option<FixedBitSet>,
        options: BitArraySettings,
    ) -> (r: Self)
        ensures
            r.filled_sites == filled_sites,
            r.exclusion_matrix == exclusion_matrix,
            r.distances_matrix == distances_matrix,
            r.tripoint_mask == tripoint_mask,
            r.midpoint_mask == midpoint_mask,
            r.singlet_mask == singlet_mask,
            r.filter == filter,
            r.options == options,
    {
        BitArrayRepresentation {
            filled_sites,
            exclusion_matrix,
            distances_matrix,
            tripoint_mask,
            midpoint_mask,
            singlet_mask,
            filter,
            options,
        }
    }

    /// Decide at run time whether this representation is internally
    /// consistent (useful before entering the verified entry points).
    pub fn check_wf(&self) -> (r: bool)
        ensures
            r == self.wf(),
    {
        let n = bs_len(&self.filled_sites);
        if n > MAX_SITES {
            return false;
        }
        if self.exclusion_matrix.len() != n || self.distances_matrix.len() != n {
            return false;
        }
        if bs_len(&self.tripoint_mask) != n || bs_len(&self.midpoint_mask) != n || bs_len(
            &self.singlet_mask,
        ) != n {
            return false;
        }
        let mut i: usize = 0;
        while i < n
            invariant
                0 <= i <= n,
                n == self.n(),
                self.exclusion_matrix@.len() == n,
                self.distances_matrix@.len() == n,
                self.tri().len() == n,
                self.mid().len() == n,
                self.sin().len() == n,
                forall|k: int| 0 <= k < i ==> (#[trigger] self.excl(k)).len() == n,
                forall|k: int|
                    0 <= k < i ==> (#[trigger] self.distances_matrix@[k]@).len() == n,
                forall|k: int| 0 <= k < i ==> #[trigger] self.site_class_ok(k),
            decreases n - i,
        {
            if bs_len(&self.exclusion_matrix[i]) != n {
                proof {
                    assert(self.excl(i as int).len() != self.n());
                }
                return false;
            }
            if self.distances_matrix[i].len() != n {
                proof {
                    assert(self.distances_matrix@[i as int]@.len() != self.n());
                }
                return false;
            }
            let t = bs_get(&self.tripoint_mask, i);
            let m = bs_get(&self.midpoint_mask, i);
            let s = bs_get(&self.singlet_mask, i);
            proof {
                assert(t == self.tri()[i as int]);
                assert(m == self.mid()[i as int]);
                assert(s == self.sin()[i as int]);
            }
            if !((t || m || s) && !(t && m) && !(t && s) && !(m && s)) {
                proof {
                    assert(!self.site_class_ok(i as int));
                }
                return false;
            }
            proof {
                assert(self.site_class_ok(i as int));
                assert(self.excl(i as int).len() == n);
            }
            i = i + 1;
        }
        let mut i: usize = 0;
        while i < n
            invariant
                0 <= i <= n,
                n == self.n(),
                self.exclusion_matrix@.len() == n,
                forall|k: int| 0 <= k < n ==> (#[trigger] self.excl(k)).len() == n,
                forall|k: int, l: int|
                    0 <= k < i && 0 <= l < n ==> #[trigger] self.excl(k)[l] == self.excl(l)[k],
            decreases n - i,
        {
            let mut j: usize = 0;
            while j < n
                invariant
                    0 <= i < n,
                    0 <= j <= n,
                    n == self.n(),
                    self.exclusion_matrix@.len() == n,
                    forall|k: int| 0 <= k < n ==> (#[trigger] self.excl(k)).len() == n,
                    forall|l: int|
                        0 <= l < j ==> #[trigger] self.excl(i as int)[l] == self.excl(l)[i as int],
                decreases n - j,
            {
                let a = bs_get(&self.exclusion_matrix[i], j);
                let b = bs_get(&self.exclusion_matrix[j], i);
                proof {
                    assert(a == self.excl(i as int)[j as int]);
                    assert(b == self.excl(j as int)[i as int]);
                }
                if a != b {
                    return false;
                }
                j = j + 1;
            }
            i = i + 1;
        }
        match &self.filter {
            Some(f) => {
                if bs_count_ones(f) != n {
                    return false;
                }
            },
            None => {},
        }
        true
    }

    /// Decide at run time whether every site excludes itself.
    pub fn check_reflexive(&self) -> (r: bool)
        requires
            self.wf(),
        ensures
            r == self.reflexive(),
    {
        let n = bs_len(&self.filled_sites);
        let mut i: usize = 0;
        while i < n
            invariant
                0 <= i <= n,
                n == self.n(),
                self.wf(),
                forall|k: int| 0 <= k < i ==> #[trigger] self.excl(k)[k],
            decreases n - i,
        {
            let e = bs_get(&self.exclusion_matrix[i], i);
            proof {
                assert(self.excl(i as int).len() == self.n());
                assert(e == self.excl(i as int)[i as int]);
            }
            if !e {
                return false;
            }
            i = i + 1;
        }
        true
    }

    /// For every site, test whether the occupied sites of `vector`
    /// are disjoint from its exclusion row; bit `i` of the result is
    /// set iff site `i` is available.
    pub fn matrix_vector_multiply(&self, vector: &FixedBitSet) -> (r: FixedBitSet)
        requires
            self.wf(),
            bits_of(*vector).len() == self.n(),
        ensures
            bits_of(r) == self.avail(bits_of(*vector)),
    {
        let n = bs_len(vector);
        let mut output_vector = bs_new(n);
        let mut bit_nr: usize = 0;
        while bit_nr < n
            invariant
                0 <= bit_nr <= n,
                n == self.n(),
                self.wf(),
                bits_of(*vector).len() == n,
                bits_of(output_vector).len() == n,
                forall|i: int|
                    0 <= i < bit_nr ==> bits_of(output_vector)[i] == self.avail_at(
                        bits_of(*vector),
                        i,
                    ),
                forall|i: int| bit_nr <= i < n ==> !bits_of(output_vector)[i],
            decreases n - bit_nr,
        {
            proof {
                assert(self.excl(bit_nr as int).len() == self.n());
            }
            let d = bs_disjoint(vector, &self.exclusion_matrix[bit_nr]);
            proof {
                assert(d == self.avail_at(bits_of(*vector), bit_nr as int));
            }
            bs_set(&mut output_vector, bit_nr, d);
            bit_nr = bit_nr + 1;
        }
        proof {
            assert(bits_of(output_vector) =~= self.avail(bits_of(*vector)));
        }
        output_vector
    }

    /// The sites legally fillable next from the state `vector`,
    /// applying exclusion, canonical order, priority, and the singlet
    /// budget; an all-clear `Ok` means the state is maximal, and
    /// `Err` marks a pruned (infeasible) state.
    pub fn get_possibilities(&self, vector: &FixedBitSet) -> (r: Result<
        FixedBitSet,
        &'static str,
    >)
        requires
            self.wf(),
            bits_of(*vector).len() == self.n(),
        ensures
            match r {
                Ok(p) => self.spec_possibilities(bits_of(*vector)) == Some(bits_of(p)),
                Err(_) => self.spec_possibilities(bits_of(*vector)) is None,
            },
    {
        let ghost v = bits_of(*vector);
        let n = bs_len(vector);
        let mut possibilities = self.matrix_vector_multiply(vector);

        let possible_sites = bs_count_ones(&possibilities);
        if possible_sites == 0 {
            proof {
                lemma_count_true_zero(self.avail(v));
            }
            return Ok(possibilities);
        }
        proof {
            lemma_count_true_zero(self.avail(v));
        }

        let rightmost_bit = bs_highest(vector);
        if let Some(mask) = rightmost_bit {
            proof {
                lemma_highest_true_props(v);
            }
            let mut j: usize = 0;
            while j < mask
                invariant
                    0 <= j <= mask < n,
                    n == self.n(),
                    bits_of(possibilities).len() == n,
                    forall|i: int| 0 <= i < j ==> !bits_of(possibilities)[i],
                    forall|i: int|
                        j <= i < n ==> bits_of(possibilities)[i] == self.avail(v)[i],
                decreases mask - j,
            {
                bs_set(&mut possibilities, j, false);
                j = j + 1;
            }
            proof {
                assert(bits_of(possibilities) =~= self.canon(v));
            }
        } else {
            proof {
                lemma_highest_true_props(v);
                assert(bits_of(possibilities) =~= self.canon(v));
            }
        }

        if bs_is_clear(&possibilities) {
            return Err("Vector is invalid.");
        }

        let mut masked_possibilities = bs_new(n);
        let mut i: usize = 0;
        while i < n
            invariant
                0 <= i <= n,
                n == self.n(),
                self.wf(),
                bits_of(possibilities).len() == n,
                bits_of(possibilities) == self.canon(v),
                bits_of(masked_possibilities).len() == n,
                forall|k: int|
                    0 <= k < i ==> bits_of(masked_possibilities)[k] == (self.canon(v)[k] && (
                    self.tri()[k] || self.mid()[k])),
                forall|k: int| i <= k < n ==> !bits_of(masked_possibilities)[k],
            decreases n - i,
        {
            let b = bs_get(&possibilities, i) && (bs_get(&self.tripoint_mask, i) || bs_get(
                &self.midpoint_mask,
                i,
            ));
            bs_set(&mut masked_possibilities, i, b);
            i = i + 1;
        }
        proof {
            assert(bits_of(masked_possibilities) =~= self.priority(v));
        }

        if !bs_is_clear(&masked_possibilities) {
            Ok(masked_possibilities)
        } else {
            if possible_sites <= self.options.max_singlets {
                Ok(possibilities)
            } else {
                Err("Vector is invalid.")
            }
        }
    }

    /// Which original sites a `SiteFilter` keeps: every site not
    /// listed in it.
    pub open spec fn keep_mask(self, filter: SiteFilter) -> Seq<bool> {
        Seq::new(
            self.n(),
            |i: int|
                !(exists|j: int|
                    0 <= j < filter.wrapped@.len() && (#[trigger] filter.wrapped@[j]).0 == i),
        )
    }

    /// Compact this representation to the sites the filter keeps: the
    /// `k`-th surviving site takes index `k`, matrices and masks are
    /// restricted accordingly, the initial state is cleared, and the
    /// keep mask is recorded so that solutions can be inflated back.
    pub fn filtered(&self, filter: SiteFilter) -> (r: Self)
        requires
            self.wf(),
            forall|j: int|
                0 <= j < filter.wrapped@.len() ==> (#[trigger] filter.wrapped@[j]).0 < self.n(),
        ensures
            r.wf(),
            ({
                let fs = self.keep_mask(filter);
                let sel = ones_list(fs);
                &&& r.n() == count_true(fs)
                &&& r.options == self.options
                &&& match r.filter {
                    Some(f2) => bits_of(f2) == fs,
                    None => false,
                }
                &&& forall|k: int| 0 <= k < r.n() ==> !bits_of(r.filled_sites)[k]
                &&& forall|k: int, l: int|
                    0 <= k < r.n() && 0 <= l < r.n() ==> #[trigger] r.excl(k)[l] == self.excl(
                        sel[k],
                    )[sel[l]]
                &&& forall|k: int|
                    0 <= k < r.n() ==> ((#[trigger] r.tri()[k]) == self.tri()[sel[k]] && r.mid()[k]
                        == self.mid()[sel[k]] && r.sin()[k] == self.sin()[sel[k]])
                &&& forall|k: int, l: int|
                    0 <= k < r.n() && 0 <= l < r.n() ==> #[trigger] r.dist(k, l) == self.dist(
                        sel[k],
                        sel[l],
                    )
            }),
    {
        let n = bs_len(&self.filled_sites);
        let mut filter_set = bs_new(n);
        let mut i: usize = 0;
        while i < n
            invariant
                0 <= i <= n,
                bits_of(filter_set).len() == n,
                forall|k: int| 0 <= k < i ==> bits_of(filter_set)[k],
                forall|k: int| i <= k < n ==> !bits_of(filter_set)[k],
            decreases n - i,
        {
            bs_set(&mut filter_set, i, true);
            i = i + 1;
        }
        let mut j: usize = 0;
        while j < filter.wrapped.len()
            invariant
                0 <= j <= filter.wrapped@.len(),
                n == self.n(),
                bits_of(filter_set).len() == n,
                forall|jj: int|
                    0 <= jj < filter.wrapped@.len() ==> (#[trigger] filter.wrapped@[jj]).0 < n,
                forall|k: int|
                    0 <= k < n ==> (#[trigger] bits_of(filter_set)[k]) == !(exists|jj: int|
                        0 <= jj < j && (#[trigger] filter.wrapped@[jj]).0 == k),
            decreases filter.wrapped@.len() - j,
        {
            let number = filter.wrapped[j];
            let ghost before = bits_of(filter_set);
            bs_set(&mut filter_set, number.0, false);
            proof {
                assert forall|k: int|
                    0 <= k < n implies (#[trigger] bits_of(filter_set)[k]) == !(exists|jj: int|
                    0 <= jj < j + 1 && (#[trigger] filter.wrapped@[jj]).0 == k) by {
                    if k == number.0 {
                        assert(filter.wrapped@[j as int].0 == k);
                    } else {
                        assert(bits_of(filter_set)[k] == before[k]);
                        if exists|jj: int|
                            0 <= jj < j + 1 && (#[trigger] filter.wrapped@[jj]).0 == k {
                            let jj = choose|jj: int|
                                0 <= jj < j + 1 && (#[trigger] filter.wrapped@[jj]).0 == k;
                            assert(jj < j);
                        }
                    }
                }
            }
            j = j + 1;
        }
        let ghost fs = self.keep_mask(filter);
        proof {
            assert(bits_of(filter_set) =~= fs);
            lemma_ones_list_props(fs);
        }
        let ghost sel = ones_list(fs);
        let new_length = bs_count_ones(&filter_set);
        let positions = bs_ones(&filter_set);
        proof {
            assert(positions@.len() == sel.len());
            assert(sel.len() == count_true(fs));
        }

        let filled_sites = bs_new(new_length);

        let mut tripoint_mask = bs_new(new_length);
        let mut midpoint_mask = bs_new(new_length);
        let mut singlet_mask = bs_new(new_length);
        let mut k: usize = 0;
        while k < new_length
            invariant
                0 <= k <= new_length,
                n == self.n(),
                self.wf(),
                fs == self.keep_mask(filter),
                sel == ones_list(fs),
                new_length == count_true(fs),
                positions@.map_values(|x: usize| x as int) == sel,
                positions@.len() == new_length,
                bits_of(tripoint_mask).len() == new_length,
                bits_of(midpoint_mask).len() == new_length,
                bits_of(singlet_mask).len() == new_length,
                forall|kk: int|
                    0 <= kk < k ==> (#[trigger] bits_of(tripoint_mask)[kk]) == self.tri()[sel[kk]],
                forall|kk: int|
                    0 <= kk < k ==> (#[trigger] bits_of(midpoint_mask)[kk]) == self.mid()[sel[kk]],
                forall|kk: int|
                    0 <= kk < k ==> (#[trigger] bits_of(singlet_mask)[kk]) == self.sin()[sel[kk]],
            decreases new_length - k,
        {
            proof {
                lemma_ones_list_props(fs);
                assert(positions@.map_values(|x: usize| x as int)[k as int] == sel[k as int]);
                assert(0 <= sel[k as int] < n);
            }
            let p = positions[k];
            let ghost tri0 = bits_of(tripoint_mask);
            let ghost mid0 = bits_of(midpoint_mask);
            let ghost sin0 = bits_of(singlet_mask);
            bs_set(&mut tripoint_mask, k, bs_get(&self.tripoint_mask, p));
            bs_set(&mut midpoint_mask, k, bs_get(&self.midpoint_mask, p));
            bs_set(&mut singlet_mask, k, bs_get(&self.singlet_mask, p));
            proof {
                assert forall|kk: int| 0 <= kk < k + 1 implies (#[trigger] bits_of(
                    tripoint_mask,
                )[kk]) == self.tri()[sel[kk]] by {
                    if kk < k {
                        assert(bits_of(tripoint_mask)[kk] == tri0[kk]);
                    } else {
                        assert(p as int == sel[k as int]);
                    }
                }
                assert forall|kk: int| 0 <= kk < k + 1 implies (#[trigger] bits_of(
                    midpoint_mask,
                )[kk]) == self.mid()[sel[kk]] by {
                    if kk < k {
                        assert(bits_of(midpoint_mask)[kk] == mid0[kk]);
                    } else {
                        assert(p as int == sel[k as int]);
                    }
                }
                assert forall|kk: int| 0 <= kk < k + 1 implies (#[trigger] bits_of(
                    singlet_mask,
                )[kk]) == self.sin()[sel[kk]] by {
                    if kk < k {
                        assert(bits_of(singlet_mask)[kk] == sin0[kk]);
                    } else {
                        assert(p as int == sel[k as int]);
                    }
                }
            }
            k = k + 1;
        }

        let mut exclusion_matrix: Vec<FixedBitSet> = Vec::new();
        let mut distances_matrix: Vec<Vec<u64>> = Vec::new();
        let mut k: usize = 0;
        while k < new_length
            invariant
                0 <= k <= new_length,
                n == self.n(),
                self.wf(),
                fs == self.keep_mask(filter),
                sel == ones_list(fs),
                new_length == count_true(fs),
                positions@.map_values(|x: usize| x as int) == sel,
                positions@.len() == new_length,
                exclusion_matrix@.len() == k,
                distances_matrix@.len() == k,
                forall|kk: int, l: int|
                    0 <= kk < k && 0 <= l < new_length ==> (#[trigger] bits_of(
                        exclusion_matrix@[kk],
                    )[l]) == self.excl(sel[kk])[sel[l]],
                forall|kk: int|
                    0 <= kk < k ==> (#[trigger] bits_of(exclusion_matrix@[kk])).len()
                        == new_length,
                forall|kk: int, l: int|
                    0 <= kk < k && 0 <= l < new_length ==> (#[trigger] distances_matrix@[kk]@[l])
                        == self.dist(sel[kk], sel[l]),
                forall|kk: int|
                    0 <= kk < k ==> (#[trigger] distances_matrix@[kk]@).len() == new_length,
            decreases new_length - k,
        {
            proof {
                lemma_ones_list_props(fs);
                assert(positions@.map_values(|x: usize| x as int)[k as int] == sel[k as int]);
                assert(0 <= sel[k as int] < n);
            }
            let p = positions[k];
            let mut new_matrix_row = bs_new(new_length);
            let mut new_distances_row: Vec<u64> = Vec::new();
            let mut l: usize = 0;
            while l < new_length
                invariant
                    0 <= l <= new_length,
                    0 <= k < new_length,
                    n == self.n(),
                    self.wf(),
                    fs == self.keep_mask(filter),
                    sel == ones_list(fs),
                    new_length == count_true(fs),
                    positions@.map_values(|x: usize| x as int) == sel,
                    positions@.len() == new_length,
                    p == positions@[k as int],
                    p as int == sel[k as int],
                    0 <= sel[k as int] < n,
                    bits_of(new_matrix_row).len() == new_length,
                    new_distances_row@.len() == l,
                    forall|ll: int|
                        0 <= ll < l ==> (#[trigger] bits_of(new_matrix_row)[ll]) == self.excl(
                            sel[k as int],
                        )[sel[ll]],
                    forall|ll: int|
                        0 <= ll < l ==> (#[trigger] new_distances_row@[ll]) == self.dist(
                            sel[k as int],
                            sel[ll],
                        ),
                decreases new_length - l,
            {
                proof {
                    lemma_ones_list_props(fs);
                    assert(positions@.map_values(|x: usize| x as int)[l as int] == sel[l as int]);
                    assert(0 <= sel[l as int] < n);
                    assert(self.excl(p as int).len() == n);
                    assert(self.distances_matrix@[p as int]@.len() == n);
                }
                let q = positions[l];
                bs_set(&mut new_matrix_row, l, bs_get(&self.exclusion_matrix[p], q));
                new_distances_row.push(self.distances_matrix[p][q]);
                l = l + 1;
            }
            exclusion_matrix.push(new_matrix_row);
            distances_matrix.push(new_distances_row);
            k = k + 1;
        }

        let r = BitArrayRepresentation {
            filled_sites,
            exclusion_matrix,
            distances_matrix,
            tripoint_mask,
            midpoint_mask,
            singlet_mask,
            filter: Some(filter_set),
            options: self.options,
        };
        proof {
            lemma_ones_list_props(fs);
            lemma_count_true_le_len(fs);
            assert(r.n() == count_true(fs));
            assert forall|a: int| 0 <= a < r.n() implies #[trigger] r.site_class_ok(a) by {
                assert(self.site_class_ok(sel[a]));
                assert(r.tri()[a] == self.tri()[sel[a]]);
                assert(r.mid()[a] == self.mid()[sel[a]]);
                assert(r.sin()[a] == self.sin()[sel[a]]);
            }
            assert forall|a: int, b: int|
                0 <= a < r.n() && 0 <= b < r.n() implies #[trigger] r.excl(a)[b] == r.excl(
                b,
            )[a] by {
                assert(r.excl(a)[b] == self.excl(sel[a])[sel[b]]);
                assert(r.excl(b)[a] == self.excl(sel[b])[sel[a]]);
                assert(self.excl(sel[a])[sel[b]] == self.excl(sel[b])[sel[a]]);
            }
            assert(r.wf());
        }
        r
    }

    /// A clone of the initial fill state.
    pub fn get_bitarray(&self) -> (r: FixedBitSet)
        ensures
            bits_of(r) == bits_of(self.filled_sites),
    {
        bs_clone(&self.filled_sites)
    }
}

/// True maximality behind an all-clear possibility set: when
/// `get_possibilities` returns the empty move set, no site at all —
/// canonical order, priority and budget ignored — could be filled
/// without violating an exclusion constraint.
pub proof fn lemma_empty_possibilities_maximal(rep: BitArrayRepresentation, v: Seq<bool>, p: Seq<bool>)
    requires
        rep.wf(),
        v.len() == rep.n(),
        rep.spec_possibilities(v) == Some(p),
        !has_true(p),
    ensures
        forall|i: int| 0 <= i < rep.n() ==> !rep.avail_at(v, i),
{
    let a = rep.avail(v);
    if has_true(a) {
        let c = rep.canon(v);
        if has_true(c) {
            let pr = rep.priority(v);
            if has_true(pr) {
                assert(p == pr);
                assert(false);
            } else {
                if count_true(a) <= rep.options.max_singlets {
                    assert(p == c);
                    assert(false);
                }
            }
        }
        assert(false);
    }
    assert forall|i: int| 0 <= i < rep.n() implies !rep.avail_at(v, i) by {
        assert(a[i] == rep.avail_at(v, i));
        assert(!has_true(a));
    }
}

} // verus!
