//! Fill states are bit vectors over the sites of one problem instance.
//! The executable representation is `fixedbitset::FixedBitSet`; its
//! mathematical model is a `Seq<bool>` given by the uninterpreted
//! function `bits_of`.  A handful of trusted primitives tie the two
//! together; everything above them (counting, highest set bit, listing
//! the set positions, disjointness) is verified code.

use vstd::prelude::*;
use fixedbitset::FixedBitSet;

verus! {

#[verifier::external_type_specification]
#[verifier::external_body]
pub struct ExFixedBitSet(FixedBitSet);

/// The bits held by a `FixedBitSet`, position by position.
pub uninterp spec fn bits_of(s: FixedBitSet) -> Seq<bool>;

/// Relies on `fixedbitset::FixedBitSet::with_capacity`: a set with the
/// given number of bits, all initially clear.
#[verifier::external_body]
pub(crate) fn bs_new(bits: usize) -> (r: FixedBitSet)
    ensures
        bits_of(r).len() == bits,
        forall|i: int| 0 <= i < bits ==> !bits_of(r)[i],
{
    FixedBitSet::with_capacity(bits)
}

/// Relies on `fixedbitset::FixedBitSet::len`: the number of bits.
#[verifier::external_body]
pub(crate) fn bs_len(s: &FixedBitSet) -> (r: usize)
    ensures
        r == bits_of(*s).len(),
{
    s.len()
}

/// Relies on `fixedbitset::FixedBitSet::contains`: the value of the
/// given bit, and `false` for positions at or beyond the length.
#[verifier::external_body]
pub(crate) fn bs_get(s: &FixedBitSet, i: usize) -> (r: bool)
    ensures
        r == (i < bits_of(*s).len() && bits_of(*s)[i as int]),
{
    s.contains(i)
}

/// Relies on `fixedbitset::FixedBitSet::set`, which panics at or
/// beyond the length; hence the precondition.
#[verifier::external_body]
pub(crate) fn bs_set(s: &mut FixedBitSet, i: usize, b: bool)
    requires
        i < bits_of(*old(s)).len(),
    ensures
        bits_of(*final(s)) == bits_of(*old(s)).update(i as int, b),
{
    s.set(i, b)
}

/// Relies on `fixedbitset`'s `Clone` implementation: the copy holds
/// the same bits as the original.
#[verifier::external_body]
pub(crate) fn bs_clone(s: &FixedBitSet) -> (r: FixedBitSet)
    ensures
        bits_of(r) == bits_of(*s),
{
    s.clone()
}

/// How many positions of `s` are set.
pub open spec fn count_true(s: Seq<bool>) -> nat
    decreases s.len(),
{
    if s.len() == 0 {
        0
    } else {
        count_true(s.drop_last()) + if s.last() {
            1nat
        } else {
            0nat
        }
    }
}

/// Whether any position of `s` is set.
pub open spec fn has_true(s: Seq<bool>) -> bool {
    exists|i: int| 0 <= i < s.len() && s[i]
}

/// The highest set position of `s`, or `-1` if none is set.
pub open spec fn highest_true(s: Seq<bool>) -> int
    decreases s.len(),
{
    if s.len() == 0 {
        -1
    } else if s.last() {
        s.len() - 1
    } else {
        highest_true(s.drop_last())
    }
}

/// The set positions of `s`, in increasing order.
pub open spec fn ones_list(s: Seq<bool>) -> Seq<int>
    decreases s.len(),
{
    if s.len() == 0 {
        Seq::empty()
    } else if s.last() {
        ones_list(s.drop_last()).push(s.len() - 1)
    } else {
        ones_list(s.drop_last())
    }
}

/// How many set positions of `s` lie strictly below `i`.
pub open spec fn rank_at(s: Seq<bool>, i: int) -> nat {
    count_true(s.take(i))
}

/// No position is set in both `a` and `b`.
pub open spec fn seq_disjoint(a: Seq<bool>, b: Seq<bool>) -> bool {
    forall|i: int| 0 <= i < a.len() && i < b.len() ==> !(a[i] && b[i])
}

pub proof fn lemma_count_true_step(s: Seq<bool>, i: int)
    requires
        0 <= i < s.len(),
    ensures
        count_true(s.take(i + 1)) == count_true(s.take(i)) + if s[i] {
            1nat
        } else {
            0nat
        },
{
    assert(s.take(i + 1).drop_last() =~= s.take(i));
    assert(s.take(i + 1).last() == s[i]);
}

pub proof fn lemma_count_true_full(s: Seq<bool>)
    ensures
        count_true(s.take(s.len() as int)) == count_true(s),
{
    assert(s.take(s.len() as int) =~= s);
}

pub proof fn lemma_count_true_zero(s: Seq<bool>)
    ensures
        (count_true(s) == 0) <==> !has_true(s),
    decreases s.len(),
{
    if s.len() == 0 {
    } else {
        lemma_count_true_zero(s.drop_last());
        if has_true(s) {
            let i = choose|i: int| 0 <= i < s.len() && s[i];
            if i < s.len() - 1 {
                assert(s.drop_last()[i]);
                assert(has_true(s.drop_last()));
            }
            assert(count_true(s) > 0);
        } else {
            assert(!has_true(s.drop_last())) by {
                if has_true(s.drop_last()) {
                    let i = choose|i: int| 0 <= i < s.len() - 1 && s.drop_last()[i];
                    assert(s[i]);
                }
            }
            assert(!s.last());
        }
    }
}

pub proof fn lemma_count_true_le_len(s: Seq<bool>)
    ensures
        count_true(s) <= s.len(),
    decreases s.len(),
{
    if s.len() > 0 {
        lemma_count_true_le_len(s.drop_last());
    }
}

pub proof fn lemma_highest_true_props(s: Seq<bool>)
    ensures
        highest_true(s) == -1 <==> !has_true(s),
        has_true(s) ==> {
            &&& 0 <= highest_true(s) < s.len()
            &&& s[highest_true(s)]
            &&& forall|j: int| highest_true(s) < j < s.len() ==> !s[j]
        },
    decreases s.len(),
{
    if s.len() == 0 {
    } else if s.last() {
        assert(s[s.len() - 1]);
    } else {
        lemma_highest_true_props(s.drop_last());
        assert forall|i: int| 0 <= i < s.len() && s[i] implies has_true(s.drop_last()) by {
            if i < s.len() - 1 {
                assert(s.drop_last()[i]);
            }
        }
        if has_true(s.drop_last()) {
            let h = highest_true(s.drop_last());
            assert(s.drop_last()[h]);
            assert(s[h]);
            assert forall|j: int| h < j < s.len() implies !s[j] by {
                if j < s.len() - 1 {
                    assert(!s.drop_last()[j]);
                }
            }
        } else {
            assert forall|i: int| 0 <= i < s.len() implies !s[i] by {
                if i < s.len() - 1 {
                    assert(!s.drop_last()[i]);
                }
            }
        }
    }
}

pub proof fn lemma_ones_list_props(s: Seq<bool>)
    ensures
        ones_list(s).len() == count_true(s),
        forall|k: int|
            0 <= k < ones_list(s).len() ==> {
                &&& 0 <= #[trigger] ones_list(s)[k] < s.len()
                &&& s[ones_list(s)[k]]
            },
        forall|k1: int, k2: int|
            0 <= k1 < k2 < ones_list(s).len() ==> ones_list(s)[k1] < ones_list(s)[k2],
        forall|i: int| 0 <= i < s.len() && s[i] ==> ones_list(s).contains(i),
    decreases s.len(),
{
    if s.len() == 0 {
    } else {
        let d = s.drop_last();
        lemma_ones_list_props(d);
        assert forall|i: int| 0 <= i < s.len() && s[i] implies ones_list(s).contains(i) by {
            if i < s.len() - 1 {
                assert(d[i]);
                assert(ones_list(d).contains(i));
                let k = choose|k: int| 0 <= k < ones_list(d).len() && ones_list(d)[k] == i;
                assert(ones_list(s)[k] == i);
            } else {
                assert(s.last());
                assert(ones_list(s).last() == i);
            }
        }
    }
}

pub proof fn lemma_ones_list_take_step(s: Seq<bool>, i: int)
    requires
        0 <= i < s.len(),
    ensures
        ones_list(s.take(i + 1)) == if s[i] {
            ones_list(s.take(i)).push(i)
        } else {
            ones_list(s.take(i))
        },
{
    assert(s.take(i + 1).drop_last() =~= s.take(i));
    assert(s.take(i + 1).last() == s[i]);
}

pub proof fn lemma_ones_list_full(s: Seq<bool>)
    ensures
        ones_list(s.take(s.len() as int)) == ones_list(s),
{
    assert(s.take(s.len() as int) =~= s);
}

/// The `k`-th set position has exactly `k` set positions below it, and
/// a set position is recovered from its rank.
pub proof fn lemma_ones_list_rank(s: Seq<bool>, i: int)
    requires
        0 <= i < s.len(),
        s[i],
    ensures
        rank_at(s, i) < ones_list(s).len(),
        ones_list(s)[rank_at(s, i) as int] == i,
    decreases s.len(),
{
    lemma_ones_list_props(s);
    lemma_count_true_le_len(s.take(i));
    if i == s.len() - 1 {
        assert(s.last());
        assert(s.take(i) =~= s.drop_last());
        lemma_count_true_full(s.drop_last());
        assert(count_true(s.take(i)) == count_true(s.drop_last()));
        lemma_ones_list_props(s.drop_last());
        assert(ones_list(s).len() == count_true(s.drop_last()) + 1);
        assert(ones_list(s)[rank_at(s, i) as int] == i);
    } else {
        let d = s.drop_last();
        assert(d[i]);
        lemma_ones_list_rank(d, i);
        assert(d.take(i) =~= s.take(i));
        assert(rank_at(d, i) == rank_at(s, i));
        if s.last() {
            assert(ones_list(s) == ones_list(d).push(s.len() - 1));
            assert(ones_list(s)[rank_at(s, i) as int] == ones_list(d)[rank_at(d, i) as int]);
        } else {
            assert(ones_list(s) == ones_list(d));
        }
    }
}

/// Count the set bits of `s`: verified counterpart of a population count.
pub(crate) fn bs_count_ones(s: &FixedBitSet) -> (r: usize)
    ensures
        r == count_true(bits_of(*s)),
{
    let n = bs_len(s);
    let mut acc: usize = 0;
    let mut i: usize = 0;
    while i < n
        invariant
            0 <= i <= n,
            n == bits_of(*s).len(),
            acc == count_true(bits_of(*s).take(i as int)),
            acc <= i,
        decreases n - i,
    {
        proof {
            lemma_count_true_step(bits_of(*s), i as int);
        }
        if bs_get(s, i) {
            acc = acc + 1;
        }
        i = i + 1;
    }
    proof {
        lemma_count_true_full(bits_of(*s));
    }
    acc
}

/// Whether no bit of `s` is set.
pub(crate) fn bs_is_clear(s: &FixedBitSet) -> (r: bool)
    ensures
        r == !has_true(bits_of(*s)),
{
    let n = bs_len(s);
    let mut i: usize = 0;
    while i < n
        invariant
            0 <= i <= n,
            n == bits_of(*s).len(),
            forall|j: int| 0 <= j < i ==> !bits_of(*s)[j],
        decreases n - i,
    {
        if bs_get(s, i) {
            assert(has_true(bits_of(*s)));
            return false;
        }
        i = i + 1;
    }
    true
}

/// The highest set bit of `s`, if any.
pub(crate) fn bs_highest(s: &FixedBitSet) -> (r: Option<usize>)
    ensures
        match r {
            Some(m) => m == highest_true(bits_of(*s)),
            None => !has_true(bits_of(*s)),
        },
{
    let n = bs_len(s);
    let mut i: usize = n;
    while i > 0
        invariant
            0 <= i <= n,
            n == bits_of(*s).len(),
            forall|j: int| i <= j < n ==> !bits_of(*s)[j],
        decreases i,
    {
        i = i - 1;
        if bs_get(s, i) {
            proof {
                lemma_highest_true_props(bits_of(*s));
                assert(has_true(bits_of(*s)));
                let h = highest_true(bits_of(*s));
                assert(!(h > i));
                assert(!(h < i));
            }
            return Some(i);
        }
    }
    proof {
        lemma_highest_true_props(bits_of(*s));
    }
    None
}

/// Whether `a` and `b` share no set bit.
pub(crate) fn bs_disjoint(a: &FixedBitSet, b: &FixedBitSet) -> (r: bool)
    requires
        bits_of(*a).len() == bits_of(*b).len(),
    ensures
        r == seq_disjoint(bits_of(*a), bits_of(*b)),
{
    let n = bs_len(a);
    let mut i: usize = 0;
    while i < n
        invariant
            0 <= i <= n,
            n == bits_of(*a).len(),
            n == bits_of(*b).len(),
            forall|j: int| 0 <= j < i ==> !(bits_of(*a)[j] && bits_of(*b)[j]),
        decreases n - i,
    {
        if bs_get(a, i) && bs_get(b, i) {
            return false;
        }
        i = i + 1;
    }
    true
}

/// The set positions of `s` in increasing order, as plain indices.
pub(crate) fn bs_ones(s: &FixedBitSet) -> (r: Vec<usize>)
    ensures
        r@.map_values(|x: usize| x as int) == ones_list(bits_of(*s)),
{
    let n = bs_len(s);
    let mut r: Vec<usize> = Vec::new();
    let mut i: usize = 0;
    while i < n
        invariant
            0 <= i <= n,
            n == bits_of(*s).len(),
            r@.map_values(|x: usize| x as int) == ones_list(bits_of(*s).take(i as int)),
        decreases n - i,
    {
        proof {
            lemma_ones_list_take_step(bits_of(*s), i as int);
        }
        if bs_get(s, i) {
            r.push(i);
            proof {
                assert(r@.map_values(|x: usize| x as int) =~= ones_list(
                    bits_of(*s).take(i + 1),
                ));
            }
        }
        i = i + 1;
    }
    proof {
        lemma_ones_list_full(bits_of(*s));
    }
    r
}

} // verus!
