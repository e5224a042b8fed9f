//! A complete fill state accepted by the solver, and the inflation
//! that maps a solution of a compacted instance back to the original
//! index space.

use vstd::prelude::*;
use fixedbitset::FixedBitSet;
use crate::bits::{bits_of, bs_new, bs_len, bs_get, bs_set, bs_ones, count_true, ones_list,
    rank_at, lemma_ones_list_props, lemma_ones_list_rank};

verus! {

/// A solution: a fill state with no remaining legal moves.
pub struct BitArraySolution(pub FixedBitSet);

/// A bit sequence as `0` and `1` characters, bit `i` at position `i`.
pub open spec fn bit_chars(s: Seq<bool>) -> Seq<char> {
    Seq::new(s.len(), |i: int| if s[i] {
        '1'
    } else {
        '0'
    })
}

/// The inflation of a compact state `c` through the filter `f`: the
/// `k`-th bit of `c` moves to the `k`-th set position of `f`, and
/// every position outside `f` stays clear.
pub open spec fn inflate_spec(c: Seq<bool>, f: Seq<bool>) -> Seq<bool> {
    Seq::new(f.len(), |i: int| f[i] && rank_at(f, i) < c.len() && c[rank_at(f, i) as int])
}

/// The compaction of a full state `s` through the filter `f`: the
/// bits of `s` at the set positions of `f`, in order.
pub open spec fn compact_spec(s: Seq<bool>, f: Seq<bool>) -> Seq<bool> {
    Seq::new(count_true(f), |k: int| s[ones_list(f)[k]])
}

impl BitArraySolution {
    /// Convert a solution found against a compacted representation
    /// back into its full form: bit `k` moves to the `k`-th set
    /// position of `filter_bitset`.
    pub fn inflate(&mut self, filter_bitset: &FixedBitSet)
        ensures
            bits_of(final(self).0) == inflate_spec(bits_of(old(self).0), bits_of(*filter_bitset)),
    {
        let ghost f = bits_of(*filter_bitset);
        let ghost c = bits_of(old(self).0);
        let m = bs_len(filter_bitset);
        let mut new_vector = bs_new(m);
        let sel = bs_ones(filter_bitset);
        proof {
            lemma_ones_list_props(f);
        }
        let mut k: usize = 0;
        while k < sel.len()
            invariant
                0 <= k <= sel@.len(),
                f == bits_of(*filter_bitset),
                c == bits_of(self.0),
                m == f.len(),
                sel@.map_values(|x: usize| x as int) == ones_list(f),
                bits_of(new_vector).len() == m,
                forall|i: int|
                    0 <= i < m ==> (#[trigger] bits_of(new_vector)[i]) == (f[i] && rank_at(f, i)
                        < k && rank_at(f, i) < c.len() && c[rank_at(f, i) as int]),
            decreases sel@.len() - k,
        {
            proof {
                lemma_ones_list_props(f);
                assert(sel@.map_values(|x: usize| x as int)[k as int] == ones_list(f)[k as int]);
            }
            let p = sel[k];
            let b = bs_get(&self.0, k);
            proof {
                assert(p as int == ones_list(f)[k as int]);
                assert(0 <= p < m);
                assert(f[p as int]);
                lemma_ones_list_rank(f, p as int);
                assert(ones_list(f)[rank_at(f, p as int) as int] == p);
                // the k-th set position has rank k
                assert(rank_at(f, p as int) == k) by {
                    if rank_at(f, p as int) < k {
                        assert(ones_list(f)[rank_at(f, p as int) as int] < ones_list(f)[k as int]);
                    } else if rank_at(f, p as int) > k {
                        assert(ones_list(f)[k as int] < ones_list(f)[rank_at(f, p as int) as int]);
                    }
                }
            }
            let ghost prev = bits_of(new_vector);
            bs_set(&mut new_vector, p, b);
            proof {
                assert(bits_of(new_vector) == prev.update(p as int, b));
                assert forall|i: int| 0 <= i < m implies bits_of(new_vector)[i] == (f[i]
                    && rank_at(f, i) < k + 1 && rank_at(f, i) < c.len() && c[rank_at(
                    f,
                    i,
                ) as int]) by {
                    if i == p {
                        assert(bits_of(new_vector)[i] == b);
                        assert(rank_at(f, i) == k);
                        assert(b == (k < c.len() && c[k as int]));
                    } else {
                        assert(prev[i] == (f[i] && rank_at(f, i) < k && rank_at(f, i) < c.len()
                            && c[rank_at(f, i) as int]));
                        assert(bits_of(new_vector)[i] == prev[i]);
                        if f[i] && rank_at(f, i) == k {
                            lemma_ones_list_rank(f, i);
                            assert(ones_list(f)[k as int] == i);
                            assert(i == p);
                        }
                    }
                }
            }
            k = k + 1;
        }
        proof {
            lemma_ones_list_props(f);
            assert(sel@.len() == ones_list(f).len());
            assert forall|i: int| 0 <= i < m && f[i] implies rank_at(f, i) < sel@.len() by {
                lemma_ones_list_rank(f, i);
            }
            assert(bits_of(new_vector) =~= inflate_spec(c, f));
        }
        self.0 = new_vector;
    }

    /// The state as a string of `0` and `1` characters, bit `i` at
    /// position `i`.
    pub fn __str__(&self) -> (r: String)
        ensures
            r@ == bit_chars(bits_of(self.0)),
    {
        bit_string(&self.0)
    }
}

/// Render a bit vector as a string of `0` and `1` characters.
pub fn bit_string(s: &FixedBitSet) -> (r: String)
    ensures
        r@ == bit_chars(bits_of(*s)),
{
    let n = bs_len(s);
    let mut r = String::new();
    proof {
        reveal_strlit("0");
        reveal_strlit("1");
    }
    let mut i: usize = 0;
    while i < n
        invariant
            0 <= i <= n,
            n == bits_of(*s).len(),
            r@.len() == i,
            forall|j: int| 0 <= j < i ==> r@[j] == (if bits_of(*s)[j] {
                '1'
            } else {
                '0'
            }),
            "0"@ == seq!['0'],
            "1"@ == seq!['1'],
        decreases n - i,
    {
        if bs_get(s, i) {
            r.append("1");
        } else {
            r.append("0");
        }
        i = i + 1;
    }
    proof {
        assert(r@ =~= bit_chars(bits_of(*s)));
    }
    r
}

/// Inflation is a left inverse of compaction: pushing a full state
/// `s` through a filter `f` and inflating the result restores exactly
/// the bits of `s` at the set positions of `f`, and every position
/// outside `f` ends clear.
pub proof fn lemma_inflate_compact(s: Seq<bool>, f: Seq<bool>)
    requires
        s.len() == f.len(),
    ensures
        inflate_spec(compact_spec(s, f), f).len() == f.len(),
        forall|i: int|
            0 <= i < f.len() ==> inflate_spec(compact_spec(s, f), f)[i] == (f[i] && s[i]),
        forall|i: int| 0 <= i < f.len() && !f[i] ==> !inflate_spec(compact_spec(s, f), f)[i],
{
    let c = compact_spec(s, f);
    lemma_ones_list_props(f);
    assert forall|i: int| 0 <= i < f.len() implies inflate_spec(c, f)[i] == (f[i] && s[i]) by {
        if f[i] {
            lemma_ones_list_rank(f, i);
            assert(rank_at(f, i) < ones_list(f).len());
            assert(ones_list(f).len() == count_true(f));
            assert(c[rank_at(f, i) as int] == s[ones_list(f)[rank_at(f, i) as int]]);
            assert(ones_list(f)[rank_at(f, i) as int] == i);
        }
    }
}

} // verus!
