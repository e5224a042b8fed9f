//! The breadth-wise solver: expand the frontier generation by
//! generation (each child state has one more occupied site than its
//! parent) until solutions are found, optionally suppressing
//! near-duplicate candidates.  The sequential and parallel variants
//! are pinned to the same specification-level run.

use vstd::prelude::*;
use std::collections::HashMap;
use fixedbitset::FixedBitSet;
use rayon::iter::{IntoParallelRefIterator, ParallelIterator};
use crate::bits::{bits_of, bs_set, bs_clone, bs_is_clear, bs_ones, count_true, has_true,
    highest_true, ones_list, seq_disjoint, lemma_count_true_le_len, lemma_count_true_zero,
    lemma_highest_true_props, lemma_ones_list_props};
use crate::representation::BitArrayRepresentation;
use crate::settings::BitArrayFilter;
use crate::solution::{BitArraySolution, inflate_spec};
use crate::dup_filter::{map_state, masked_count, and_seq};
use crate::close_vector_tree::CloseVectorTreeMap;

verus! {

/// The bit sequences of a vector of fill states.
pub open spec fn views_of(g: Seq<FixedBitSet>) -> Seq<Seq<bool>> {
    Seq::new(g.len(), |i: int| bits_of(g[i]))
}

impl BitArrayRepresentation {
    /// The children of state `s` for the legal-move set `p`: one
    /// state per set bit of `p`, in increasing bit order.
    pub open spec fn children(self, s: Seq<bool>, p: Seq<bool>) -> Seq<Seq<bool>> {
        Seq::new(ones_list(p).len(), |i: int| s.update(ones_list(p)[i], true))
    }
}

/// Pass the candidate children through the duplicate filter in order,
/// threading the filter state; with `filtering` off every child is
/// kept and the state is untouched.
pub open spec fn filter_children(
    rep: BitArrayRepresentation,
    kids: Seq<Seq<bool>>,
    st: Map<u64, Seq<Seq<u64>>>,
    filtering: bool,
) -> (Seq<Seq<bool>>, Map<u64, Seq<Seq<u64>>>)
    decreases kids.len(),
{
    if kids.len() == 0 {
        (Seq::empty(), st)
    } else {
        let first = kids[0];
        let keep = !filtering || rep.filter_decision(st, first);
        let st1 = if filtering {
            rep.filter_update(st, first)
        } else {
            st
        };
        let rest = filter_children(rep, kids.drop_first(), st1, filtering);
        (
            if keep {
                seq![first] + rest.0
            } else {
                rest.0
            },
            rest.1,
        )
    }
}

/// Expand one state: a pruned state contributes nothing, a maximal
/// state becomes a solution, and any other state contributes its
/// filtered children.
pub open spec fn expand_one(
    rep: BitArrayRepresentation,
    s: Seq<bool>,
    st: Map<u64, Seq<Seq<u64>>>,
    filtering: bool,
) -> (Seq<Seq<bool>>, Seq<Seq<bool>>, Map<u64, Seq<Seq<u64>>>) {
    match rep.spec_possibilities(s) {
        None => (Seq::empty(), Seq::empty(), st),
        Some(p) => if !has_true(p) {
            (seq![s], Seq::empty(), st)
        } else {
            let fc = filter_children(rep, rep.children(s, p), st, filtering);
            (Seq::empty(), fc.0, fc.1)
        },
    }
}

/// Expand a whole generation in order: the solutions found in it, the
/// next generation, and the filter state after it.
pub open spec fn process_gen(
    rep: BitArrayRepresentation,
    gen: Seq<Seq<bool>>,
    st: Map<u64, Seq<Seq<u64>>>,
    filtering: bool,
) -> (Seq<Seq<bool>>, Seq<Seq<bool>>, Map<u64, Seq<Seq<u64>>>)
    decreases gen.len(),
{
    if gen.len() == 0 {
        (Seq::empty(), Seq::empty(), st)
    } else {
        let e = expand_one(rep, gen[0], st, filtering);
        let rest = process_gen(rep, gen.drop_first(), e.2, filtering);
        (e.0 + rest.0, e.1 + rest.1, rest.2)
    }
}

/// The whole solve: expand generation after generation while no
/// solution has been found, or, in find-all mode, while the frontier
/// is not exhausted.
pub open spec fn run(
    rep: BitArrayRepresentation,
    gen: Seq<Seq<bool>>,
    sols: Seq<Seq<bool>>,
    st: Map<u64, Seq<Seq<u64>>>,
    find_all: bool,
    filtering: bool,
    fuel: nat,
) -> Seq<Seq<bool>>
    decreases fuel,
{
    if gen.len() == 0 || (!find_all && sols.len() > 0) || fuel == 0 {
        sols
    } else {
        let step = process_gen(rep, gen, st, filtering);
        run(rep, step.1, sols + step.0, step.2, find_all, filtering, (fuel - 1) as nat)
    }
}

impl BitArrayRepresentation {
    /// Whether this configuration runs the duplicate filter.
    pub open spec fn filtering(self) -> bool {
        self.options.solve_filter != BitArrayFilter::Off
    }

    /// The solution states (before inflation) that a solve of this
    /// representation produces.
    pub open spec fn spec_solve(self, find_all: bool) -> Seq<Seq<bool>> {
        run(
            *&self,
            seq![bits_of(self.filled_sites)],
            Seq::empty(),
            Map::empty(),
            find_all,
            self.filtering(),
            (self.n() + 2) as nat,
        )
    }

    /// The bits a reported solution holds: the raw solution state, or
    /// its inflation through the compaction filter when one is set.
    pub open spec fn reported(self, s: Seq<bool>) -> Seq<bool> {
        match self.filter {
            Some(f) => inflate_spec(s, bits_of(f)),
            None => s,
        }
    }

    /// The active duplicate-filter structures agree with the abstract
    /// filter state `st`.
    pub open spec fn maps_consistent(
        self,
        smap: HashMap<u64, Vec<Vec<u64>>>,
        tmap: CloseVectorTreeMap,
        st: Map<u64, Seq<Seq<u64>>>,
    ) -> bool {
        match self.options.solve_filter {
            BitArrayFilter::Off => true,
            BitArrayFilter::Similarity => st == map_state(smap@),
            BitArrayFilter::SimTrees => st == tmap.st() && tmap.wf() && tmap.tolerance
                == self.options.difference_distance,
        }
    }
}

impl BitArrayRepresentation {
    /// Expand one frontier state: record it as a solution when
    /// maximal, otherwise derive its children, pass each through the
    /// active duplicate filter, and append the survivors to the next
    /// generation.
    fn process_candidate(
        &self,
        candidate: &FixedBitSet,
        solutions: &mut Vec<FixedBitSet>,
        next_generation: &mut Vec<FixedBitSet>,
        structure_map: &mut HashMap<u64, Vec<Vec<u64>>>,
        tree_map: &mut CloseVectorTreeMap,
        Ghost(st0): Ghost<Map<u64, Seq<Seq<u64>>>>,
    ) -> (st1: Ghost<Map<u64, Seq<Seq<u64>>>>)
        requires
            self.wf(),
            self.reflexive(),
            bits_of(*candidate).len() == self.n(),
            self.maps_consistent(*old(structure_map), *old(tree_map), st0),
        ensures
            ({
                let e = expand_one(*self, bits_of(*candidate), st0, self.filtering());
                &&& views_of(final(solutions)@) == views_of(old(solutions)@) + e.0
                &&& views_of(final(next_generation)@) == views_of(old(next_generation)@) + e.1
                &&& st1@ == e.2
                &&& self.maps_consistent(*final(structure_map), *final(tree_map), st1@)
                &&& forall|i: int|
                    old(next_generation)@.len() <= i < final(next_generation)@.len() ==> (bits_of(
                        #[trigger] final(next_generation)@[i],
                    ).len() == self.n() && count_true(bits_of(final(next_generation)@[i]))
                        == count_true(bits_of(*candidate)) + 1)
            }),
    {
        let ghost vb = bits_of(*candidate);
        let ghost filtering = self.filtering();
        match self.get_possibilities(candidate) {
            Err(_) => {
                proof {
                    assert(views_of(solutions@) =~= views_of(solutions@) + Seq::<
                        Seq<bool>,
                    >::empty());
                    assert(views_of(next_generation@) =~= views_of(next_generation@) + Seq::<
                        Seq<bool>,
                    >::empty());
                }
                Ghost(st0)
            },
            Ok(possibilities) => {
                let ghost pb = bits_of(possibilities);
                if bs_is_clear(&possibilities) {
                    let ghost sols0 = solutions@;
                    solutions.push(bs_clone(candidate));
                    proof {
                        assert(views_of(solutions@) =~= views_of(sols0) + seq![vb]);
                        assert(views_of(next_generation@) =~= views_of(next_generation@) + Seq::<
                            Seq<bool>,
                        >::empty());
                    }
                    Ghost(st0)
                } else {
                    let sites = bs_ones(&possibilities);
                    let ghost kids = self.children(vb, pb);
                    let ghost total = filter_children(*self, kids, st0, filtering);
                    let ghost base = views_of(next_generation@);
                    let ghost mut st = st0;
                    let ghost mut added: Seq<Seq<bool>> = Seq::empty();
                    proof {
                        lemma_ones_list_props(pb);
                        assert(kids.skip(0) =~= kids);
                        assert(views_of(next_generation@) =~= base + added);
                    }
                    let mut w: usize = 0;
                    while w < sites.len()
                        invariant
                            0 <= w <= sites@.len(),
                            self.wf(),
                            self.reflexive(),
                            vb == bits_of(*candidate),
                            vb.len() == self.n(),
                            filtering == self.filtering(),
                            self.spec_possibilities(vb) == Some(pb),
                            pb.len() == self.n(),
                            sites@.map_values(|x: usize| x as int) == ones_list(pb),
                            kids == self.children(vb, pb),
                            kids.len() == sites@.len(),
                            total == filter_children(*self, kids, st0, filtering),
                            self.maps_consistent(*structure_map, *tree_map, st),
                            views_of(next_generation@) == base + added,
                            forall|q: int|
                                0 <= q < added.len() ==> ((#[trigger] added[q]).len() == self.n()
                                    && count_true(added[q]) == count_true(vb) + 1),
                            ({
                                let rest = filter_children(
                                    *self,
                                    kids.skip(w as int),
                                    st,
                                    filtering,
                                );
                                total.0 == added + rest.0 && total.1 == rest.1
                            }),
                        decreases sites@.len() - w,
                    {
                        let site = sites[w];
                        proof {
                            lemma_ones_list_props(pb);
                            assert(sites@.map_values(|x: usize| x as int)[w as int] == ones_list(
                                pb,
                            )[w as int]);
                            assert(pb[site as int]);
                            assert(0 <= site < pb.len());
                            lemma_child_shape(*self, vb, pb, site as int);
                            assert(kids[w as int] == vb.update(site as int, true));
                        }
                        let mut new_candidate = bs_clone(candidate);
                        bs_set(&mut new_candidate, site, true);
                        proof {
                            assert(bits_of(new_candidate) == kids[w as int]);
                        }
                        let ghost st_before = st;
                        let keep = match self.options.solve_filter {
                            BitArrayFilter::Off => true,
                            BitArrayFilter::Similarity => self.similarity_filter(
                                &new_candidate,
                                structure_map,
                            ),
                            BitArrayFilter::SimTrees => self.new_similarity_filter(
                                &new_candidate,
                                tree_map,
                            ),
                        };
                        proof {
                            if filtering {
                                st = self.filter_update(st_before, kids[w as int]);
                                assert(keep == self.filter_decision(st_before, kids[w as int]));
                            }
                            assert(kids.skip(w as int).drop_first() =~= kids.skip(w + 1));
                            assert(kids.skip(w as int)[0] == kids[w as int]);
                        }
                        if keep {
                            let ghost next0 = next_generation@;
                            next_generation.push(new_candidate);
                            proof {
                                assert(views_of(next_generation@) =~= views_of(next0) + seq![
                                    kids[w as int],
                                ]);
                                added = added.push(kids[w as int]);
                                assert(views_of(next_generation@) =~= base + added);
                                let rest_old = filter_children(
                                    *self,
                                    kids.skip(w as int),
                                    st_before,
                                    filtering,
                                );
                                let rest_new = filter_children(
                                    *self,
                                    kids.skip(w + 1),
                                    st,
                                    filtering,
                                );
                                assert(rest_old.0 =~= seq![kids[w as int]] + rest_new.0);
                                assert(added + rest_new.0 =~= added.drop_last() + rest_old.0);
                            }
                        } else {
                            proof {
                                let rest_old = filter_children(
                                    *self,
                                    kids.skip(w as int),
                                    st_before,
                                    filtering,
                                );
                                let rest_new = filter_children(
                                    *self,
                                    kids.skip(w + 1),
                                    st,
                                    filtering,
                                );
                                assert(rest_old.0 =~= rest_new.0);
                            }
                        }
                        w = w + 1;
                    }
                    proof {
                        assert(kids.skip(kids.len() as int) =~= Seq::<Seq<bool>>::empty());
                        assert(total.0 =~= added);
                        assert(views_of(solutions@) =~= views_of(solutions@) + Seq::<
                            Seq<bool>,
                        >::empty());
                        assert(has_true(pb));
                        let e = expand_one(*self, vb, st0, filtering);
                        assert(e.1 == total.0 && e.2 == total.1);
                        assert(base.len() == old(next_generation)@.len());
                        assert forall|i: int|
                            old(next_generation)@.len() <= i < next_generation@.len() implies (
                        bits_of(#[trigger] next_generation@[i]).len() == self.n() && count_true(
                            bits_of(next_generation@[i]),
                        ) == count_true(vb) + 1) by {
                            assert(views_of(next_generation@)[i] == bits_of(next_generation@[i]));
                            assert((base + added)[i] == added[i - base.len()]);
                        }
                    }
                    Ghost(st)
                }
            },
        }
    }
}

impl BitArrayRepresentation {
    /// The sequential solver: breadth-wise expansion from the initial
    /// fill state until a solution is found (or, with `find_all`, the
    /// frontier is exhausted), applying the configured duplicate
    /// filter to every new candidate; solutions of a compacted
    /// instance are inflated back to the original index space.  The
    /// result is exactly the specification-level run.  The second
    /// flag would mute a progress display; the engine itself owns no
    /// such state, so it is accepted and ignored.
    pub fn solve(&self, find_all: bool, _silent: bool) -> (r: Vec<BitArraySolution>)
        requires
            self.wf(),
            self.reflexive(),
        ensures
            r@.len() == self.spec_solve(find_all).len(),
            forall|i: int|
                0 <= i < r@.len() ==> bits_of((#[trigger] r@[i]).0) == self.reported(
                    self.spec_solve(find_all)[i],
                ),
    {
        let ghost fuel0 = (self.n() + 2) as nat;
        let ghost c0 = count_true(bits_of(self.filled_sites));
        let test_lattice = self.get_bitarray();
        let mut current_generation: Vec<FixedBitSet> = Vec::new();
        current_generation.push(test_lattice);
        let mut solutions: Vec<FixedBitSet> = Vec::new();
        let mut structure_map: HashMap<u64, Vec<Vec<u64>>> = HashMap::new();
        let mut tree_map = CloseVectorTreeMap::new(self.options.difference_distance);
        let ghost mut st: Map<u64, Seq<Seq<u64>>> = Map::empty();
        let ghost mut depth: nat = 0;
        proof {
            assert(views_of(current_generation@) =~= seq![bits_of(self.filled_sites)]);
            assert(views_of(solutions@) =~= Seq::<Seq<bool>>::empty());
            assert(map_state(structure_map@) =~= Map::<u64, Seq<Seq<u64>>>::empty());
            assert(tree_map.st() == Map::<u64, Seq<Seq<u64>>>::empty());
        }
        while current_generation.len() > 0 && (solutions.len() == 0 || find_all)
            invariant
                self.wf(),
                self.reflexive(),
                fuel0 == self.n() + 2,
                c0 == count_true(bits_of(self.filled_sites)),
                depth <= fuel0,
                self.maps_consistent(structure_map, tree_map, st),
                forall|i: int|
                    0 <= i < current_generation@.len() ==> (bits_of(
                        #[trigger] current_generation@[i],
                    ).len() == self.n() && count_true(bits_of(current_generation@[i])) == c0
                        + depth),
                self.spec_solve(find_all) == run(
                    *self,
                    views_of(current_generation@),
                    views_of(solutions@),
                    st,
                    find_all,
                    self.filtering(),
                    (fuel0 - depth) as nat,
                ),
            decreases fuel0 - depth,
        {
            proof {
                let g0 = bits_of(current_generation@[0]);
                lemma_count_true_le_len(g0);
                assert(c0 + depth <= self.n());
            }
            let mut next_generation: Vec<FixedBitSet> = Vec::new();
            let ghost gen_views = views_of(current_generation@);
            let ghost st_start = st;
            let ghost sols_start = views_of(solutions@);
            let ghost total = process_gen(*self, gen_views, st_start, self.filtering());
            proof {
                assert(gen_views.skip(0) =~= gen_views);
                assert(views_of(next_generation@) =~= Seq::<Seq<bool>>::empty());
                assert(views_of(solutions@).skip(sols_start.len() as int) =~= Seq::<
                    Seq<bool>,
                >::empty());
                assert(views_of(solutions@).take(sols_start.len() as int) =~= sols_start);
            }
            let mut idx: usize = 0;
            while idx < current_generation.len()
                invariant
                    0 <= idx <= current_generation@.len(),
                    self.wf(),
                    self.reflexive(),
                    c0 == count_true(bits_of(self.filled_sites)),
                    gen_views == views_of(current_generation@),
                    total == process_gen(*self, gen_views, st_start, self.filtering()),
                    self.maps_consistent(structure_map, tree_map, st),
                    forall|i: int|
                        0 <= i < current_generation@.len() ==> (bits_of(
                            #[trigger] current_generation@[i],
                        ).len() == self.n() && count_true(bits_of(current_generation@[i])) == c0
                            + depth),
                    views_of(solutions@).take(sols_start.len() as int) == sols_start,
                    sols_start.len() <= views_of(solutions@).len(),
                    forall|i: int|
                        0 <= i < next_generation@.len() ==> (bits_of(
                            #[trigger] next_generation@[i],
                        ).len() == self.n() && count_true(bits_of(next_generation@[i])) == c0
                            + depth + 1),
                    ({
                        let rest = process_gen(
                            *self,
                            gen_views.skip(idx as int),
                            st,
                            self.filtering(),
                        );
                        &&& total.0 == views_of(solutions@).skip(sols_start.len() as int)
                            + rest.0
                        &&& total.1 == views_of(next_generation@) + rest.1
                        &&& total.2 == rest.2
                    }),
                decreases current_generation@.len() - idx,
            {
                proof {
                    assert(gen_views.skip(idx as int)[0] == gen_views[idx as int]);
                    assert(gen_views.skip(idx as int).drop_first() =~= gen_views.skip(idx + 1));
                    assert(gen_views[idx as int] == bits_of(current_generation@[idx as int]));
                }
                let ghost sols_before = solutions@;
                let ghost next_before = next_generation@;
                let candidate = &current_generation[idx];
                let Ghost(st_after) = self.process_candidate(
                    candidate,
                    &mut solutions,
                    &mut next_generation,
                    &mut structure_map,
                    &mut tree_map,
                    Ghost(st),
                );
                proof {
                    let e = expand_one(
                        *self,
                        gen_views[idx as int],
                        st,
                        self.filtering(),
                    );
                    let rest_old = process_gen(
                        *self,
                        gen_views.skip(idx as int),
                        st,
                        self.filtering(),
                    );
                    let rest_new = process_gen(
                        *self,
                        gen_views.skip(idx + 1),
                        st_after,
                        self.filtering(),
                    );
                    assert(rest_old.0 =~= e.0 + rest_new.0);
                    assert(rest_old.1 =~= e.1 + rest_new.1);
                    assert(rest_old.2 == rest_new.2);
                    st = st_after;
                    assert(views_of(solutions@) =~= views_of(sols_before) + e.0);
                    assert(views_of(next_generation@) =~= views_of(next_before) + e.1);
                    assert(views_of(solutions@).take(sols_start.len() as int) =~= sols_start);
                    assert(views_of(solutions@).skip(sols_start.len() as int) =~= views_of(
                        sols_before,
                    ).skip(sols_start.len() as int) + e.0);
                    assert(total.0 =~= views_of(solutions@).skip(sols_start.len() as int)
                        + rest_new.0);
                    assert(total.1 =~= views_of(next_generation@) + rest_new.1);
                    assert forall|i: int| 0 <= i < next_generation@.len() implies (bits_of(
                        #[trigger] next_generation@[i],
                    ).len() == self.n() && count_true(bits_of(next_generation@[i])) == c0 + depth
                        + 1) by {
                        assert(views_of(next_generation@)[i] == bits_of(next_generation@[i]));
                        if i < next_before.len() {
                            assert(views_of(next_generation@)[i] == views_of(next_before)[i]);
                            assert(views_of(next_before)[i] == bits_of(next_before[i]));
                        } else {
                            assert(count_true(bits_of(current_generation@[idx as int])) == c0
                                + depth);
                        }
                    }
                }
                idx = idx + 1;
            }
            proof {
                assert(gen_views.skip(gen_views.len() as int) =~= Seq::<Seq<bool>>::empty());
                let rest = process_gen(
                    *self,
                    gen_views.skip(gen_views.len() as int),
                    st,
                    self.filtering(),
                );
                assert(rest.0 =~= Seq::<Seq<bool>>::empty());
                assert(rest.1 =~= Seq::<Seq<bool>>::empty());
                assert(total.0 =~= views_of(solutions@).skip(sols_start.len() as int));
                assert(total.1 =~= views_of(next_generation@));
                assert(total.2 == st);
                assert(sols_start + total.0 =~= views_of(solutions@));
                assert((fuel0 - depth) as nat > 0);
                assert(run(
                    *self,
                    gen_views,
                    sols_start,
                    st_start,
                    find_all,
                    self.filtering(),
                    (fuel0 - depth) as nat,
                ) == run(
                    *self,
                    total.1,
                    sols_start + total.0,
                    total.2,
                    find_all,
                    self.filtering(),
                    (fuel0 - depth - 1) as nat,
                ));
                depth = depth + 1;
            }
            current_generation = next_generation;
        }
        proof {
            assert(self.spec_solve(find_all) == views_of(solutions@));
        }
        let ghost sols_views = views_of(solutions@);
        let mut result: Vec<BitArraySolution> = Vec::new();
        let mut i: usize = 0;
        while i < solutions.len()
            invariant
                0 <= i <= solutions@.len(),
                self.wf(),
                sols_views == views_of(solutions@),
                sols_views == self.spec_solve(find_all),
                result@.len() == i,
                forall|j: int|
                    0 <= j < i ==> bits_of((#[trigger] result@[j]).0) == self.reported(
                        sols_views[j],
                    ),
            decreases solutions@.len() - i,
        {
            let s = bs_clone(&solutions[i]);
            let mut sol = BitArraySolution(s);
            match &self.filter {
                Some(f) => {
                    sol.inflate(f);
                },
                None => {},
            }
            result.push(sol);
            i = i + 1;
        }
        result
    }
}

/// With filtering off every child is kept and the filter state is
/// left alone.
pub proof fn lemma_filter_children_off(
    rep: BitArrayRepresentation,
    kids: Seq<Seq<bool>>,
    st: Map<u64, Seq<Seq<u64>>>,
)
    ensures
        filter_children(rep, kids, st, false).0 == kids,
        filter_children(rep, kids, st, false).1 == st,
    decreases kids.len(),
{
    if kids.len() > 0 {
        lemma_filter_children_off(rep, kids.drop_first(), st);
        assert(seq![kids[0]] + kids.drop_first() =~= kids);
    }
}

impl BitArrayRepresentation {
    /// The solution states (before inflation) the parallel solver
    /// produces: the same run as the sequential solver with the
    /// duplicate filter disabled.
    pub open spec fn spec_solve_parallel(self, find_all: bool) -> Seq<Seq<bool>> {
        run(
            self,
            seq![bits_of(self.filled_sites)],
            Seq::empty(),
            Map::empty(),
            find_all,
            false,
            (self.n() + 2) as nat,
        )
    }

    /// Relies on rayon's `par_iter().map(..).collect()`: the closure
    /// runs on every element across worker threads and the results
    /// are collected in the input's order.  The closure only calls
    /// the verified `get_possibilities`.
    #[verifier::external_body]
    fn expand_generation_par(&self, generation: &Vec<FixedBitSet>) -> (r: Vec<
        Result<FixedBitSet, &'static str>,
    >)
        requires
            self.wf(),
            forall|i: int|
                0 <= i < generation@.len() ==> bits_of(#[trigger] generation@[i]).len()
                    == self.n(),
        ensures
            r@.len() == generation@.len(),
            forall|i: int|
                0 <= i < r@.len() ==> {
                    let res = #[trigger] r@[i];
                    match res {
                        Ok(p) => self.spec_possibilities(bits_of(generation@[i])) == Some(
                            bits_of(p),
                        ),
                        Err(_) => self.spec_possibilities(bits_of(generation@[i])) is None,
                    }
                },
    {
        generation.par_iter().map(|vector| self.get_possibilities(vector)).collect()
    }

    /// Expand one frontier state from its precomputed possibility
    /// set, without duplicate filtering.
    fn expand_result(
        &self,
        candidate: &FixedBitSet,
        res: &Result<FixedBitSet, &'static str>,
        solutions: &mut Vec<FixedBitSet>,
        next_generation: &mut Vec<FixedBitSet>,
    )
        requires
            self.wf(),
            self.reflexive(),
            bits_of(*candidate).len() == self.n(),
            match *res {
                Ok(p) => self.spec_possibilities(bits_of(*candidate)) == Some(bits_of(p)),
                Err(_) => self.spec_possibilities(bits_of(*candidate)) is None,
            },
        ensures
            ({
                let e = expand_one(
                    *self,
                    bits_of(*candidate),
                    Map::<u64, Seq<Seq<u64>>>::empty(),
                    false,
                );
                &&& views_of(final(solutions)@) == views_of(old(solutions)@) + e.0
                &&& views_of(final(next_generation)@) == views_of(old(next_generation)@) + e.1
                &&& forall|i: int|
                    old(next_generation)@.len() <= i < final(next_generation)@.len() ==> (bits_of(
                        #[trigger] final(next_generation)@[i],
                    ).len() == self.n() && count_true(bits_of(final(next_generation)@[i]))
                        == count_true(bits_of(*candidate)) + 1)
            }),
    {
        let ghost vb = bits_of(*candidate);
        let ghost st0 = Map::<u64, Seq<Seq<u64>>>::empty();
        match res {
            Err(_) => {
                proof {
                    assert(views_of(solutions@) =~= views_of(solutions@) + Seq::<
                        Seq<bool>,
                    >::empty());
                    assert(views_of(next_generation@) =~= views_of(next_generation@) + Seq::<
                        Seq<bool>,
                    >::empty());
                }
            },
            Ok(possibilities) => {
                let ghost pb = bits_of(*possibilities);
                if bs_is_clear(possibilities) {
                    let ghost sols0 = solutions@;
                    solutions.push(bs_clone(candidate));
                    proof {
                        assert(views_of(solutions@) =~= views_of(sols0) + seq![vb]);
                        assert(views_of(next_generation@) =~= views_of(next_generation@) + Seq::<
                            Seq<bool>,
                        >::empty());
                    }
                } else {
                    let sites = bs_ones(possibilities);
                    let ghost kids = self.children(vb, pb);
                    let ghost base = views_of(next_generation@);
                    proof {
                        lemma_ones_list_props(pb);
                        lemma_filter_children_off(*self, kids, st0);
                        assert(views_of(next_generation@) =~= base + kids.take(0));
                        assert forall|q: int|
                            0 <= q < kids.len() implies ((#[trigger] kids[q]).len() == self.n()
                            && count_true(kids[q]) == count_true(vb) + 1) by {
                            let site = ones_list(pb)[q];
                            assert(pb[site]);
                            lemma_child_shape(*self, vb, pb, site);
                            assert(kids[q] == vb.update(site, true));
                        }
                    }
                    let mut w: usize = 0;
                    while w < sites.len()
                        invariant
                            0 <= w <= sites@.len(),
                            self.wf(),
                            self.reflexive(),
                            vb == bits_of(*candidate),
                            vb.len() == self.n(),
                            self.spec_possibilities(vb) == Some(pb),
                            pb.len() == self.n(),
                            sites@.map_values(|x: usize| x as int) == ones_list(pb),
                            kids == self.children(vb, pb),
                            kids.len() == sites@.len(),
                            views_of(next_generation@) == base + kids.take(w as int),
                            forall|q: int|
                                0 <= q < kids.len() ==> ((#[trigger] kids[q]).len() == self.n()
                                    && count_true(kids[q]) == count_true(vb) + 1),
                        decreases sites@.len() - w,
                    {
                        let site = sites[w];
                        proof {
                            lemma_ones_list_props(pb);
                            assert(sites@.map_values(|x: usize| x as int)[w as int] == ones_list(
                                pb,
                            )[w as int]);
                            assert(pb[site as int]);
                            lemma_child_shape(*self, vb, pb, site as int);
                            assert(kids[w as int] == vb.update(site as int, true));
                        }
                        let mut new_candidate = bs_clone(candidate);
                        bs_set(&mut new_candidate, site, true);
                        let ghost next0 = next_generation@;
                        next_generation.push(new_candidate);
                        proof {
                            assert(views_of(next_generation@) =~= views_of(next0) + seq![
                                kids[w as int],
                            ]);
                            assert(kids.take(w + 1) =~= kids.take(w as int) + seq![
                                kids[w as int],
                            ]);
                            assert(views_of(next_generation@) =~= base + kids.take(w + 1));
                        }
                        w = w + 1;
                    }
                    proof {
                        assert(kids.take(kids.len() as int) =~= kids);
                        assert(views_of(solutions@) =~= views_of(solutions@) + Seq::<
                            Seq<bool>,
                        >::empty());
                        assert(has_true(pb));
                        lemma_filter_children_off(*self, kids, st0);
                        let e = expand_one(*self, vb, st0, false);
                        assert(e.1 == kids);
                        assert(base.len() == old(next_generation)@.len());
                        assert forall|i: int|
                            old(next_generation)@.len() <= i < next_generation@.len() implies (
                        bits_of(#[trigger] next_generation@[i]).len() == self.n() && count_true(
                            bits_of(next_generation@[i]),
                        ) == count_true(vb) + 1) by {
                            assert(views_of(next_generation@)[i] == bits_of(next_generation@[i]));
                            assert((base + kids)[i] == kids[i - base.len()]);
                        }
                    }
                }
            },
        }
    }

    /// The parallel solver: the same generation-by-generation
    /// expansion and the same termination rule as `solve`, with the
    /// possibility computation of each generation spread over worker
    /// threads and no duplicate filtering.  The result is pinned to
    /// the same specification-level run as the sequential solver with
    /// the filter disabled.  The second flag would mute a progress
    /// display; the engine itself owns no such state, so it is
    /// accepted and ignored.
    pub fn solve_parallel(&self, find_all: bool, _silent: bool) -> (r: Vec<BitArraySolution>)
        requires
            self.wf(),
            self.reflexive(),
        ensures
            r@.len() == self.spec_solve_parallel(find_all).len(),
            forall|i: int|
                0 <= i < r@.len() ==> bits_of((#[trigger] r@[i]).0) == self.reported(
                    self.spec_solve_parallel(find_all)[i],
                ),
    {
        let ghost fuel0 = (self.n() + 2) as nat;
        let ghost c0 = count_true(bits_of(self.filled_sites));
        let ghost st0 = Map::<u64, Seq<Seq<u64>>>::empty();
        let test_lattice = self.get_bitarray();
        let mut current_generation: Vec<FixedBitSet> = Vec::new();
        current_generation.push(test_lattice);
        let mut solutions: Vec<FixedBitSet> = Vec::new();
        let ghost mut depth: nat = 0;
        proof {
            assert(views_of(current_generation@) =~= seq![bits_of(self.filled_sites)]);
            assert(views_of(solutions@) =~= Seq::<Seq<bool>>::empty());
        }
        while current_generation.len() > 0 && (solutions.len() == 0 || find_all)
            invariant
                self.wf(),
                self.reflexive(),
                fuel0 == self.n() + 2,
                c0 == count_true(bits_of(self.filled_sites)),
                depth <= fuel0,
                st0 == Map::<u64, Seq<Seq<u64>>>::empty(),
                forall|i: int|
                    0 <= i < current_generation@.len() ==> (bits_of(
                        #[trigger] current_generation@[i],
                    ).len() == self.n() && count_true(bits_of(current_generation@[i])) == c0
                        + depth),
                self.spec_solve_parallel(find_all) == run(
                    *self,
                    views_of(current_generation@),
                    views_of(solutions@),
                    st0,
                    find_all,
                    false,
                    (fuel0 - depth) as nat,
                ),
            decreases fuel0 - depth,
        {
            proof {
                let g0 = bits_of(current_generation@[0]);
                lemma_count_true_le_len(g0);
                assert(c0 + depth <= self.n());
            }
            let results = self.expand_generation_par(&current_generation);
            let mut next_generation: Vec<FixedBitSet> = Vec::new();
            let ghost gen_views = views_of(current_generation@);
            let ghost sols_start = views_of(solutions@);
            let ghost total = process_gen(*self, gen_views, st0, false);
            proof {
                assert(gen_views.skip(0) =~= gen_views);
                assert(views_of(next_generation@) =~= Seq::<Seq<bool>>::empty());
                assert(views_of(solutions@).skip(sols_start.len() as int) =~= Seq::<
                    Seq<bool>,
                >::empty());
                assert(views_of(solutions@).take(sols_start.len() as int) =~= sols_start);
            }
            let mut idx: usize = 0;
            while idx < current_generation.len()
                invariant
                    0 <= idx <= current_generation@.len(),
                    self.wf(),
                    self.reflexive(),
                    st0 == Map::<u64, Seq<Seq<u64>>>::empty(),
                    c0 == count_true(bits_of(self.filled_sites)),
                    gen_views == views_of(current_generation@),
                    total == process_gen(*self, gen_views, st0, false),
                    results@.len() == current_generation@.len(),
                    forall|i: int|
                        0 <= i < results@.len() ==> {
                            let res = #[trigger] results@[i];
                            match res {
                                Ok(p) => self.spec_possibilities(
                                    bits_of(current_generation@[i]),
                                ) == Some(bits_of(p)),
                                Err(_) => self.spec_possibilities(
                                    bits_of(current_generation@[i]),
                                ) is None,
                            }
                        },
                    forall|i: int|
                        0 <= i < current_generation@.len() ==> (bits_of(
                            #[trigger] current_generation@[i],
                        ).len() == self.n() && count_true(bits_of(current_generation@[i])) == c0
                            + depth),
                    views_of(solutions@).take(sols_start.len() as int) == sols_start,
                    sols_start.len() <= views_of(solutions@).len(),
                    forall|i: int|
                        0 <= i < next_generation@.len() ==> (bits_of(
                            #[trigger] next_generation@[i],
                        ).len() == self.n() && count_true(bits_of(next_generation@[i])) == c0
                            + depth + 1),
                    ({
                        let rest = process_gen(*self, gen_views.skip(idx as int), st0, false);
                        &&& total.0 == views_of(solutions@).skip(sols_start.len() as int)
                            + rest.0
                        &&& total.1 == views_of(next_generation@) + rest.1
                        &&& total.2 == rest.2
                    }),
                decreases current_generation@.len() - idx,
            {
                proof {
                    assert(gen_views.skip(idx as int)[0] == gen_views[idx as int]);
                    assert(gen_views.skip(idx as int).drop_first() =~= gen_views.skip(idx + 1));
                    assert(gen_views[idx as int] == bits_of(current_generation@[idx as int]));
                }
                let ghost sols_before = solutions@;
                let ghost next_before = next_generation@;
                let candidate = &current_generation[idx];
                self.expand_result(candidate, &results[idx], &mut solutions, &mut next_generation);
                proof {
                    let e = expand_one(*self, gen_views[idx as int], st0, false);
                    let rest_old = process_gen(*self, gen_views.skip(idx as int), st0, false);
                    let rest_new = process_gen(*self, gen_views.skip(idx + 1), st0, false);
                    let sp = self.spec_possibilities(gen_views[idx as int]);
                    if sp is Some && has_true(sp->Some_0) {
                        lemma_filter_children_off(
                            *self,
                            self.children(gen_views[idx as int], sp->Some_0),
                            st0,
                        );
                    }
                    assert(expand_one(*self, gen_views[idx as int], st0, false).2 == st0);
                    assert(rest_old.0 =~= e.0 + rest_new.0);
                    assert(rest_old.1 =~= e.1 + rest_new.1);
                    assert(views_of(solutions@) =~= views_of(sols_before) + e.0);
                    assert(views_of(next_generation@) =~= views_of(next_before) + e.1);
                    assert(views_of(solutions@).take(sols_start.len() as int) =~= sols_start);
                    assert(views_of(solutions@).skip(sols_start.len() as int) =~= views_of(
                        sols_before,
                    ).skip(sols_start.len() as int) + e.0);
                    assert(total.0 =~= views_of(solutions@).skip(sols_start.len() as int)
                        + rest_new.0);
                    assert(total.1 =~= views_of(next_generation@) + rest_new.1);
                    assert forall|i: int| 0 <= i < next_generation@.len() implies (bits_of(
                        #[trigger] next_generation@[i],
                    ).len() == self.n() && count_true(bits_of(next_generation@[i])) == c0 + depth
                        + 1) by {
                        assert(views_of(next_generation@)[i] == bits_of(next_generation@[i]));
                        if i < next_before.len() {
                            assert(views_of(next_generation@)[i] == views_of(next_before)[i]);
                            assert(views_of(next_before)[i] == bits_of(next_before[i]));
                        } else {
                            assert(count_true(bits_of(current_generation@[idx as int])) == c0
                                + depth);
                        }
                    }
                }
                idx = idx + 1;
            }
            proof {
                assert(gen_views.skip(gen_views.len() as int) =~= Seq::<Seq<bool>>::empty());
                let rest = process_gen(*self, gen_views.skip(gen_views.len() as int), st0, false);
                assert(rest.0 =~= Seq::<Seq<bool>>::empty());
                assert(rest.1 =~= Seq::<Seq<bool>>::empty());
                assert(total.0 =~= views_of(solutions@).skip(sols_start.len() as int));
                assert(total.1 =~= views_of(next_generation@));
                assert(sols_start + total.0 =~= views_of(solutions@));
                assert((fuel0 - depth) as nat > 0);
                assert(run(
                    *self,
                    gen_views,
                    sols_start,
                    st0,
                    find_all,
                    false,
                    (fuel0 - depth) as nat,
                ) == run(
                    *self,
                    total.1,
                    sols_start + total.0,
                    total.2,
                    find_all,
                    false,
                    (fuel0 - depth - 1) as nat,
                ));
                depth = depth + 1;
            }
            current_generation = next_generation;
        }
        proof {
            assert(self.spec_solve_parallel(find_all) == views_of(solutions@));
        }
        let ghost sols_views = views_of(solutions@);
        let mut result: Vec<BitArraySolution> = Vec::new();
        let mut i: usize = 0;
        while i < solutions.len()
            invariant
                0 <= i <= solutions@.len(),
                self.wf(),
                sols_views == views_of(solutions@),
                sols_views == self.spec_solve_parallel(find_all),
                result@.len() == i,
                forall|j: int|
                    0 <= j < i ==> bits_of((#[trigger] result@[j]).0) == self.reported(
                        sols_views[j],
                    ),
            decreases solutions@.len() - i,
        {
            let s = bs_clone(&solutions[i]);
            let mut sol = BitArraySolution(s);
            match &self.filter {
                Some(f) => {
                    sol.inflate(f);
                },
                None => {},
            }
            result.push(sol);
            i = i + 1;
        }
        result
    }
}

/// A pointwise-smaller bit sequence has at most as many set bits.
pub proof fn lemma_count_pointwise_le(a: Seq<bool>, b: Seq<bool>)
    requires
        a.len() == b.len(),
        forall|i: int| 0 <= i < a.len() ==> ((#[trigger] a[i]) ==> b[i]),
    ensures
        count_true(a) <= count_true(b),
    decreases a.len(),
{
    if a.len() > 0 {
        lemma_count_pointwise_le(a.drop_last(), b.drop_last());
        assert(a[a.len() - 1] ==> b[b.len() - 1]);
    }
}

/// Clearing a set bit lowers the count by one.
pub proof fn lemma_count_update_false(b: Seq<bool>, i: int)
    requires
        0 <= i < b.len(),
        b[i],
    ensures
        count_true(b.update(i, false)) + 1 == count_true(b),
{
    let c = b.update(i, false);
    assert(!c[i]);
    lemma_count_update_true(c, i);
    assert(c.update(i, true) =~= b);
}

/// A pointwise-smaller sequence that misses a set bit of the larger
/// one counts strictly fewer.
pub proof fn lemma_count_pointwise_lt(a: Seq<bool>, b: Seq<bool>, i: int)
    requires
        a.len() == b.len(),
        forall|j: int| 0 <= j < a.len() ==> ((#[trigger] a[j]) ==> b[j]),
        0 <= i < a.len(),
        !a[i],
        b[i],
    ensures
        count_true(a) + 1 <= count_true(b),
{
    let b2 = b.update(i, false);
    assert(forall|j: int| 0 <= j < a.len() ==> ((#[trigger] a[j]) ==> b2[j]));
    lemma_count_pointwise_le(a, b2);
    lemma_count_update_false(b, i);
}

/// Occupying one more site changes a masked count by one when the
/// site belongs to the mask, and not at all otherwise.
pub proof fn lemma_masked_count_update(v: Seq<bool>, m: Seq<bool>, i: int)
    requires
        0 <= i < v.len(),
        m.len() == v.len(),
        !v[i],
    ensures
        masked_count(v.update(i, true), m) == masked_count(v, m) + if m[i] {
            1nat
        } else {
            0nat
        },
{
    let u = v.update(i, true);
    if m[i] {
        assert(and_seq(u, m) =~= and_seq(v, m).update(i, true));
        assert(!and_seq(v, m)[i]);
        lemma_count_update_true(and_seq(v, m), i);
    } else {
        assert(and_seq(u, m) =~= and_seq(v, m));
    }
}

impl BitArrayRepresentation {
    /// How many occupied sites of `v` are singlets.
    pub open spec fn sing_count(self, v: Seq<bool>) -> nat {
        masked_count(v, self.sin())
    }

    /// How many singlet sites are still available in state `v`.
    pub open spec fn compat_sing(self, v: Seq<bool>) -> nat {
        masked_count(self.avail(v), self.sin())
    }

    /// The budget invariant carried along every search path: either
    /// no singlet has been added since the initial state, or the
    /// occupied singlets plus all still-available ones fit in the
    /// budget measured from the initial singlet count `s0`.
    pub open spec fn budget_inv(self, v: Seq<bool>, s0: nat) -> bool {
        self.sing_count(v) == s0 || self.sing_count(v) + self.compat_sing(v) <= s0
            + self.options.max_singlets
    }
}

/// Occupying a site never makes another site available.
pub proof fn lemma_avail_antimonotone(rep: BitArrayRepresentation, v: Seq<bool>, i: int, j: int)
    requires
        rep.wf(),
        v.len() == rep.n(),
        0 <= i < v.len(),
        0 <= j < rep.n(),
        rep.avail_at(v.update(i, true), j),
    ensures
        rep.avail_at(v, j),
{
    let u = v.update(i, true);
    assert forall|q: int| 0 <= q < v.len() && q < rep.excl(j).len() implies !(v[q] && rep.excl(
        j,
    )[q]) by {
        assert(v[q] ==> u[q]);
        assert(!(u[q] && rep.excl(j)[q]));
    }
}

/// One expansion step preserves the budget invariant.
pub proof fn lemma_budget_child(
    rep: BitArrayRepresentation,
    v: Seq<bool>,
    p: Seq<bool>,
    i: int,
    s0: nat,
)
    requires
        rep.wf(),
        rep.reflexive(),
        v.len() == rep.n(),
        rep.spec_possibilities(v) == Some(p),
        0 <= i < p.len(),
        p[i],
        rep.budget_inv(v, s0),
    ensures
        rep.budget_inv(v.update(i, true), s0),
{
    lemma_possibility_site(rep, v, p, i);
    let u = v.update(i, true);
    let k = rep.options.max_singlets;
    // available sites only shrink, and site i itself drops out
    assert(rep.avail(u).len() == rep.avail(v).len());
    assert forall|j: int| 0 <= j < rep.n() implies {
        let uj = #[trigger] and_seq(rep.avail(u), rep.sin())[j];
        uj ==> and_seq(rep.avail(v), rep.sin())[j]
    } by {
        if and_seq(rep.avail(u), rep.sin())[j] {
            lemma_avail_antimonotone(rep, v, i, j);
        }
    }
    lemma_count_pointwise_le(and_seq(rep.avail(u), rep.sin()), and_seq(rep.avail(v), rep.sin()));
    assert(!rep.avail_at(u, i)) by {
        assert(u[i] && rep.excl(i)[i]);
    }
    lemma_masked_count_update(v, rep.sin(), i);
    let a = rep.avail(v);
    let c = rep.canon(v);
    let pr = rep.priority(v);
    assert(rep.site_class_ok(i));
    if has_true(pr) && p == pr {
        // a tripoint or midpoint was added: the singlet count is unchanged
        assert(rep.tri()[i] || rep.mid()[i]);
        assert(!rep.sin()[i]);
        assert(rep.sing_count(u) == rep.sing_count(v));
        if rep.sing_count(v) + rep.compat_sing(v) <= s0 + k {
            assert(rep.budget_inv(u, s0));
        } else {
            assert(rep.sing_count(v) == s0);
            assert(rep.budget_inv(u, s0));
        }
    } else {
        // a singlet was added under the budget check
        assert(has_true(a));
        assert(has_true(c));
        assert(!has_true(pr));
        assert(p == c);
        assert(count_true(a) <= k);
        assert(c[i]);
        assert(!(rep.tri()[i] || rep.mid()[i])) by {
            if rep.tri()[i] || rep.mid()[i] {
                assert(pr[i]);
                assert(has_true(pr));
            }
        }
        assert(rep.sin()[i]);
        assert(rep.sing_count(u) == rep.sing_count(v) + 1);
        // the added singlet leaves the available set
        assert(!and_seq(rep.avail(u), rep.sin())[i]);
        assert(and_seq(rep.avail(v), rep.sin())[i]) by {
            assert(a[i]);
        }
        lemma_count_pointwise_lt(
            and_seq(rep.avail(u), rep.sin()),
            and_seq(rep.avail(v), rep.sin()),
            i,
        );
        assert(rep.compat_sing(u) + 1 <= rep.compat_sing(v));
        // the available singlets fit in the budget
        assert forall|j: int| 0 <= j < rep.n() implies ((#[trigger] and_seq(a, rep.sin())[j])
            ==> a[j]) by {}
        lemma_count_pointwise_le(and_seq(a, rep.sin()), a);
        assert(rep.compat_sing(v) <= k);
        if rep.sing_count(v) == s0 {
            assert(rep.sing_count(u) + rep.compat_sing(u) <= s0 + k);
        } else {
            assert(rep.sing_count(v) + rep.compat_sing(v) <= s0 + k);
            assert(rep.sing_count(u) + rep.compat_sing(u) <= s0 + k);
        }
        assert(rep.budget_inv(u, s0));
    }
}

/// A maximal state satisfying the budget invariant holds at most
/// `s0 + max_singlets` occupied singlets.
pub proof fn lemma_budget_solution(rep: BitArrayRepresentation, v: Seq<bool>, s0: nat)
    requires
        rep.wf(),
        v.len() == rep.n(),
        rep.budget_inv(v, s0),
        !has_true(rep.avail(v)),
    ensures
        rep.sing_count(v) <= s0 + rep.options.max_singlets,
{
    assert(!has_true(and_seq(rep.avail(v), rep.sin()))) by {
        if has_true(and_seq(rep.avail(v), rep.sin())) {
            let j = choose|j: int|
                0 <= j < and_seq(rep.avail(v), rep.sin()).len() && and_seq(
                    rep.avail(v),
                    rep.sin(),
                )[j];
            assert(rep.avail(v)[j]);
        }
    }
    lemma_count_true_zero(and_seq(rep.avail(v), rep.sin()));
    assert(rep.compat_sing(v) == 0);
}

/// Every element that the duplicate filter lets through is one of the
/// candidate children.
pub proof fn lemma_filter_children_subset(
    rep: BitArrayRepresentation,
    kids: Seq<Seq<bool>>,
    st: Map<u64, Seq<Seq<u64>>>,
    filtering: bool,
)
    ensures
        forall|i: int|
            0 <= i < filter_children(rep, kids, st, filtering).0.len() ==> kids.contains(
                #[trigger] filter_children(rep, kids, st, filtering).0[i],
            ),
    decreases kids.len(),
{
    if kids.len() > 0 {
        let first = kids[0];
        let st1 = if filtering {
            rep.filter_update(st, first)
        } else {
            st
        };
        lemma_filter_children_subset(rep, kids.drop_first(), st1, filtering);
        let rest = filter_children(rep, kids.drop_first(), st1, filtering);
        assert forall|i: int|
            0 <= i < filter_children(rep, kids, st, filtering).0.len() implies kids.contains(
            #[trigger] filter_children(rep, kids, st, filtering).0[i],
        ) by {
            let out = filter_children(rep, kids, st, filtering).0;
            let keep = !filtering || rep.filter_decision(st, first);
            if keep && i == 0 {
                assert(out[0] == first);
                assert(kids[0] == first);
            } else {
                let x = if keep {
                    rest.0[i - 1]
                } else {
                    rest.0[i]
                };
                assert(out[i] == x);
                assert(kids.drop_first().contains(x));
                let q = choose|q: int|
                    0 <= q < kids.drop_first().len() && kids.drop_first()[q] == x;
                assert(kids[q + 1] == x);
            }
        }
    }
}

/// Budget enforcement along a whole run: every solution the run
/// returns holds at most `s0 + max_singlets` occupied singlets, where
/// `s0` is the singlet count of the initial state.
pub proof fn lemma_run_budget(
    rep: BitArrayRepresentation,
    gen: Seq<Seq<bool>>,
    sols: Seq<Seq<bool>>,
    st: Map<u64, Seq<Seq<u64>>>,
    find_all: bool,
    filtering: bool,
    fuel: nat,
    s0: nat,
)
    requires
        rep.wf(),
        rep.reflexive(),
        forall|i: int|
            0 <= i < gen.len() ==> ((#[trigger] gen[i]).len() == rep.n() && rep.budget_inv(
                gen[i],
                s0,
            )),
        forall|i: int|
            0 <= i < sols.len() ==> rep.sing_count(#[trigger] sols[i]) <= s0
                + rep.options.max_singlets,
    ensures
        forall|i: int|
            0 <= i < run(rep, gen, sols, st, find_all, filtering, fuel).len() ==> rep.sing_count(
                #[trigger] run(rep, gen, sols, st, find_all, filtering, fuel)[i],
            ) <= s0 + rep.options.max_singlets,
    decreases fuel,
{
    if gen.len() == 0 || (!find_all && sols.len() > 0) || fuel == 0 {
    } else {
        let step = process_gen(rep, gen, st, filtering);
        lemma_process_gen_budget(rep, gen, st, filtering, s0);
        assert forall|i: int| 0 <= i < (sols + step.0).len() implies rep.sing_count(
            #[trigger] (sols + step.0)[i],
        ) <= s0 + rep.options.max_singlets by {
            if i < sols.len() {
                assert((sols + step.0)[i] == sols[i]);
            } else {
                assert((sols + step.0)[i] == step.0[i - sols.len()]);
            }
        }
        lemma_run_budget(rep, step.1, sols + step.0, step.2, find_all, filtering, (fuel
            - 1) as nat, s0);
        assert(run(rep, gen, sols, st, find_all, filtering, fuel) == run(
            rep,
            step.1,
            sols + step.0,
            step.2,
            find_all,
            filtering,
            (fuel - 1) as nat,
        ));
    }
}

/// One generation step keeps the budget invariant on the next
/// frontier and yields only in-budget solutions.
pub proof fn lemma_process_gen_budget(
    rep: BitArrayRepresentation,
    gen: Seq<Seq<bool>>,
    st: Map<u64, Seq<Seq<u64>>>,
    filtering: bool,
    s0: nat,
)
    requires
        rep.wf(),
        rep.reflexive(),
        forall|i: int|
            0 <= i < gen.len() ==> ((#[trigger] gen[i]).len() == rep.n() && rep.budget_inv(
                gen[i],
                s0,
            )),
    ensures
        ({
            let step = process_gen(rep, gen, st, filtering);
            &&& forall|i: int|
                0 <= i < step.0.len() ==> rep.sing_count(#[trigger] step.0[i]) <= s0
                    + rep.options.max_singlets
            &&& forall|i: int|
                0 <= i < step.1.len() ==> ((#[trigger] step.1[i]).len() == rep.n()
                    && rep.budget_inv(step.1[i], s0))
        }),
    decreases gen.len(),
{
    if gen.len() > 0 {
        let s = gen[0];
        let e = expand_one(rep, s, st, filtering);
        lemma_process_gen_budget(rep, gen.drop_first(), e.2, filtering, s0);
        let rest = process_gen(rep, gen.drop_first(), e.2, filtering);
        let step = process_gen(rep, gen, st, filtering);
        assert(step.0 == e.0 + rest.0);
        assert(step.1 == e.1 + rest.1);
        // the head state's own contribution
        match rep.spec_possibilities(s) {
            None => {},
            Some(p) => {
                if !has_true(p) {
                    assert(!has_true(rep.avail(s))) by {
                        lemma_empty_poss_means_avail_empty(rep, s, p);
                    }
                    lemma_budget_solution(rep, s, s0);
                    assert(e.0 == seq![s]);
                } else {
                    let kids = rep.children(s, p);
                    lemma_ones_list_props(p);
                    assert forall|q: int| 0 <= q < kids.len() implies ((#[trigger] kids[q]).len()
                        == rep.n() && rep.budget_inv(kids[q], s0)) by {
                        let site = ones_list(p)[q];
                        assert(p[site]);
                        lemma_budget_child(rep, s, p, site, s0);
                        assert(kids[q] == s.update(site, true));
                    }
                    lemma_filter_children_subset(rep, kids, st, filtering);
                    assert forall|i: int| 0 <= i < e.1.len() implies ((#[trigger] e.1[i]).len()
                        == rep.n() && rep.budget_inv(e.1[i], s0)) by {
                        assert(kids.contains(e.1[i]));
                        let q = choose|q: int| 0 <= q < kids.len() && kids[q] == e.1[i];
                        assert(kids[q].len() == rep.n() && rep.budget_inv(kids[q], s0));
                    }
                }
            },
        }
        assert forall|i: int| 0 <= i < step.0.len() implies rep.sing_count(#[trigger] step.0[i])
            <= s0 + rep.options.max_singlets by {
            if i < e.0.len() {
                assert(step.0[i] == e.0[i]);
            } else {
                assert(step.0[i] == rest.0[i - e.0.len()]);
            }
        }
        assert forall|i: int| 0 <= i < step.1.len() implies ((#[trigger] step.1[i]).len()
            == rep.n() && rep.budget_inv(step.1[i], s0)) by {
            if i < e.1.len() {
                assert(step.1[i] == e.1[i]);
            } else {
                assert(step.1[i] == rest.1[i - e.1.len()]);
            }
        }
    }
}

/// A `Some` possibility set with no set bit arises only when no site
/// at all is available.
pub proof fn lemma_empty_poss_means_avail_empty(
    rep: BitArrayRepresentation,
    s: Seq<bool>,
    p: Seq<bool>,
)
    requires
        rep.spec_possibilities(s) == Some(p),
        !has_true(p),
    ensures
        !has_true(rep.avail(s)),
{
    let a = rep.avail(s);
    if has_true(a) {
        let c = rep.canon(s);
        if has_true(c) {
            let pr = rep.priority(s);
            if has_true(pr) {
                assert(p == pr);
            } else if count_true(a) <= rep.options.max_singlets {
                assert(p == c);
            }
        }
        assert(false);
    }
}

/// Budget enforcement for the whole solver: with a singlet budget of
/// `max_singlets`, no solution of a solve started from the initial
/// fill state occupies more than `max_singlets` singlet sites beyond
/// those of the initial state.
pub proof fn lemma_singlet_budget(rep: BitArrayRepresentation, find_all: bool, filtering: bool)
    requires
        rep.wf(),
        rep.reflexive(),
    ensures
        forall|i: int|
            0 <= i < rep.spec_solve(find_all).len() ==> rep.sing_count(
                #[trigger] rep.spec_solve(find_all)[i],
            ) <= rep.sing_count(bits_of(rep.filled_sites)) + rep.options.max_singlets,
        forall|i: int|
            0 <= i < rep.spec_solve_parallel(find_all).len() ==> rep.sing_count(
                #[trigger] rep.spec_solve_parallel(find_all)[i],
            ) <= rep.sing_count(bits_of(rep.filled_sites)) + rep.options.max_singlets,
{
    let v0 = bits_of(rep.filled_sites);
    let s0 = rep.sing_count(v0);
    assert(rep.budget_inv(v0, s0));
    lemma_run_budget(
        rep,
        seq![v0],
        Seq::empty(),
        Map::empty(),
        find_all,
        rep.filtering(),
        (rep.n() + 2) as nat,
        s0,
    );
    lemma_run_budget(
        rep,
        seq![v0],
        Seq::empty(),
        Map::empty(),
        find_all,
        false,
        (rep.n() + 2) as nat,
        s0,
    );
}

/// No two entries are the same state.
pub open spec fn distinct_states(xs: Seq<Seq<bool>>) -> bool {
    forall|i: int, j: int| 0 <= i < j < xs.len() ==> xs[i] != xs[j]
}

/// The state a child was expanded from: the child with its highest
/// occupied site cleared again.
pub open spec fn parent_of(x: Seq<bool>) -> Seq<bool> {
    x.update(highest_true(x), false)
}

/// The duplicate filter only removes candidates: distinctness
/// survives it.
pub proof fn lemma_filter_children_distinct(
    rep: BitArrayRepresentation,
    kids: Seq<Seq<bool>>,
    st: Map<u64, Seq<Seq<u64>>>,
    filtering: bool,
)
    requires
        distinct_states(kids),
    ensures
        distinct_states(filter_children(rep, kids, st, filtering).0),
    decreases kids.len(),
{
    if kids.len() > 0 {
        let first = kids[0];
        let st1 = if filtering {
            rep.filter_update(st, first)
        } else {
            st
        };
        let tail = kids.drop_first();
        assert(distinct_states(tail)) by {
            assert forall|i: int, j: int| 0 <= i < j < tail.len() implies tail[i] != tail[j] by {
                assert(tail[i] == kids[i + 1]);
                assert(tail[j] == kids[j + 1]);
            }
        }
        lemma_filter_children_distinct(rep, tail, st1, filtering);
        lemma_filter_children_subset(rep, tail, st1, filtering);
        let rest = filter_children(rep, tail, st1, filtering);
        let out = filter_children(rep, kids, st, filtering).0;
        let keep = !filtering || rep.filter_decision(st, first);
        assert forall|i: int, j: int| 0 <= i < j < out.len() implies out[i] != out[j] by {
            if keep {
                if i == 0 {
                    assert(out[0] == first);
                    assert(out[j] == rest.0[j - 1]);
                    assert(tail.contains(rest.0[j - 1]));
                    let q = choose|q: int| 0 <= q < tail.len() && tail[q] == rest.0[j - 1];
                    assert(kids[q + 1] == rest.0[j - 1]);
                    assert(kids[0] != kids[q + 1]);
                } else {
                    assert(out[i] == rest.0[i - 1]);
                    assert(out[j] == rest.0[j - 1]);
                }
            } else {
                assert(out[i] == rest.0[i]);
                assert(out[j] == rest.0[j]);
            }
        }
    }
}

/// The children of one state are pairwise distinct.
pub proof fn lemma_children_distinct(rep: BitArrayRepresentation, s: Seq<bool>, p: Seq<bool>)
    requires
        rep.wf(),
        rep.reflexive(),
        s.len() == rep.n(),
        rep.spec_possibilities(s) == Some(p),
    ensures
        distinct_states(rep.children(s, p)),
{
    let kids = rep.children(s, p);
    lemma_ones_list_props(p);
    assert forall|i: int, j: int| 0 <= i < j < kids.len() implies kids[i] != kids[j] by {
        let b1 = ones_list(p)[i];
        let b2 = ones_list(p)[j];
        assert(b1 < b2);
        assert(p[b1] && p[b2]);
        lemma_possibility_site(rep, s, p, b2);
        assert(kids[i] == s.update(b1, true));
        assert(kids[j] == s.update(b2, true));
        assert(kids[i][b2] == s[b2]);
        assert(!s[b2]);
        assert(kids[j][b2]);
    }
}

/// One generation step: the solutions it yields are states of the
/// generation itself, and the next frontier is pairwise distinct with
/// every child recording its parent inside the generation.
pub proof fn lemma_process_gen_distinct(
    rep: BitArrayRepresentation,
    gen: Seq<Seq<bool>>,
    st: Map<u64, Seq<Seq<u64>>>,
    filtering: bool,
)
    requires
        rep.wf(),
        rep.reflexive(),
        distinct_states(gen),
        forall|i: int| 0 <= i < gen.len() ==> (#[trigger] gen[i]).len() == rep.n(),
    ensures
        ({
            let step = process_gen(rep, gen, st, filtering);
            &&& distinct_states(step.0)
            &&& forall|i: int| 0 <= i < step.0.len() ==> gen.contains(#[trigger] step.0[i])
            &&& distinct_states(step.1)
            &&& forall|i: int|
                0 <= i < step.1.len() ==> gen.contains(parent_of(#[trigger] step.1[i]))
        }),
    decreases gen.len(),
{
    if gen.len() > 0 {
        let s = gen[0];
        let e = expand_one(rep, s, st, filtering);
        let tail = gen.drop_first();
        assert(distinct_states(tail)) by {
            assert forall|i: int, j: int| 0 <= i < j < tail.len() implies tail[i] != tail[j] by {
                assert(tail[i] == gen[i + 1]);
                assert(tail[j] == gen[j + 1]);
            }
        }
        lemma_process_gen_distinct(rep, tail, e.2, filtering);
        let rest = process_gen(rep, tail, e.2, filtering);
        let step = process_gen(rep, gen, st, filtering);
        assert(step.0 == e.0 + rest.0);
        assert(step.1 == e.1 + rest.1);

        // shape of the head state's own contribution
        match rep.spec_possibilities(s) {
            None => {
                assert(e.0 =~= Seq::<Seq<bool>>::empty());
                assert(e.1 =~= Seq::<Seq<bool>>::empty());
            },
            Some(p) => {
                if !has_true(p) {
                    assert(e.0 == seq![s]);
                } else {
                    let kids = rep.children(s, p);
                    lemma_children_distinct(rep, s, p);
                    lemma_filter_children_distinct(rep, kids, st, filtering);
                    lemma_filter_children_subset(rep, kids, st, filtering);
                    lemma_ones_list_props(p);
                    assert forall|i: int| 0 <= i < e.1.len() implies parent_of(
                        #[trigger] e.1[i],
                    ) == s by {
                        assert(kids.contains(e.1[i]));
                        let q = choose|q: int| 0 <= q < kids.len() && kids[q] == e.1[i];
                        let site = ones_list(p)[q];
                        assert(p[site]);
                        lemma_child_shape(rep, s, p, site);
                        assert(kids[q] == s.update(site, true));
                        assert(highest_true(kids[q]) == site);
                        assert(kids[q].update(site, false) == s);
                    }
                }
            },
        }

        // the solutions of the step are states of the generation
        assert forall|i: int| 0 <= i < step.0.len() implies gen.contains(
            #[trigger] step.0[i],
        ) by {
            if i < e.0.len() {
                assert(step.0[i] == s);
                assert(gen[0] == s);
            } else {
                assert(step.0[i] == rest.0[i - e.0.len()]);
                assert(tail.contains(rest.0[i - e.0.len()]));
                let q = choose|q: int|
                    0 <= q < tail.len() && tail[q] == rest.0[i - e.0.len()];
                assert(gen[q + 1] == rest.0[i - e.0.len()]);
            }
        }
        assert forall|i: int, j: int| 0 <= i < j < step.0.len() implies step.0[i]
            != step.0[j] by {
            if i < e.0.len() {
                assert(step.0[i] == s);
                assert(step.0[j] == rest.0[j - e.0.len()]);
                assert(tail.contains(rest.0[j - e.0.len()]));
                let q = choose|q: int|
                    0 <= q < tail.len() && tail[q] == rest.0[j - e.0.len()];
                assert(gen[q + 1] == rest.0[j - e.0.len()]);
                assert(gen[0] != gen[q + 1]);
            } else {
                assert(step.0[i] == rest.0[i - e.0.len()]);
                assert(step.0[j] == rest.0[j - e.0.len()]);
            }
        }

        // the next frontier is distinct: children of one parent
        // differ, and children of different parents recover different
        // parents
        assert forall|i: int| 0 <= i < step.1.len() implies gen.contains(parent_of(
            #[trigger] step.1[i],
        )) by {
            if i < e.1.len() {
                assert(step.1[i] == e.1[i]);
                assert(parent_of(e.1[i]) == s);
                assert(gen[0] == s);
            } else {
                assert(step.1[i] == rest.1[i - e.1.len()]);
                assert(tail.contains(parent_of(rest.1[i - e.1.len()])));
                let q = choose|q: int|
                    0 <= q < tail.len() && tail[q] == parent_of(rest.1[i - e.1.len()]);
                assert(gen[q + 1] == parent_of(rest.1[i - e.1.len()]));
            }
        }
        assert forall|i: int, j: int| 0 <= i < j < step.1.len() implies step.1[i]
            != step.1[j] by {
            if j < e.1.len() {
                assert(step.1[i] == e.1[i] && step.1[j] == e.1[j]);
            } else if i >= e.1.len() {
                assert(step.1[i] == rest.1[i - e.1.len()] && step.1[j] == rest.1[j - e.1.len()]);
            } else {
                let x = e.1[i];
                let y = rest.1[j - e.1.len()];
                assert(step.1[i] == x && step.1[j] == y);
                assert(parent_of(x) == s);
                assert(tail.contains(parent_of(y)));
                let q = choose|q: int| 0 <= q < tail.len() && tail[q] == parent_of(y);
                assert(gen[q + 1] == parent_of(y));
                if x == y {
                    assert(parent_of(y) == s);
                    assert(gen[0] != gen[q + 1]);
                    assert(false);
                }
            }
        }
    }
}

/// Along a whole run, the solution list stays pairwise distinct:
/// thanks to the canonical fill order, no solution is ever discovered
/// twice.
pub proof fn lemma_run_distinct(
    rep: BitArrayRepresentation,
    gen: Seq<Seq<bool>>,
    sols: Seq<Seq<bool>>,
    st: Map<u64, Seq<Seq<u64>>>,
    find_all: bool,
    filtering: bool,
    fuel: nat,
    c: nat,
)
    requires
        rep.wf(),
        rep.reflexive(),
        distinct_states(gen),
        forall|i: int|
            0 <= i < gen.len() ==> ((#[trigger] gen[i]).len() == rep.n() && count_true(gen[i])
                == c),
        distinct_states(sols),
        forall|i: int| 0 <= i < sols.len() ==> count_true(#[trigger] sols[i]) < c,
    ensures
        distinct_states(run(rep, gen, sols, st, find_all, filtering, fuel)),
    decreases fuel,
{
    if gen.len() == 0 || (!find_all && sols.len() > 0) || fuel == 0 {
    } else {
        let step = process_gen(rep, gen, st, filtering);
        lemma_process_gen_distinct(rep, gen, st, filtering);
        lemma_process_gen_budget_counts(rep, gen, st, filtering, c);
        let sols2 = sols + step.0;
        assert(distinct_states(sols2)) by {
            assert forall|i: int, j: int| 0 <= i < j < sols2.len() implies sols2[i]
                != sols2[j] by {
                if j < sols.len() {
                    assert(sols2[i] == sols[i] && sols2[j] == sols[j]);
                } else if i >= sols.len() {
                    assert(sols2[i] == step.0[i - sols.len()] && sols2[j] == step.0[j
                        - sols.len()]);
                } else {
                    assert(sols2[i] == sols[i] && sols2[j] == step.0[j - sols.len()]);
                    assert(gen.contains(step.0[j - sols.len()]));
                    let q = choose|q: int|
                        0 <= q < gen.len() && gen[q] == step.0[j - sols.len()];
                    assert(count_true(sols2[j]) == c);
                    assert(count_true(sols2[i]) < c);
                }
            }
        }
        assert forall|i: int| 0 <= i < sols2.len() implies count_true(#[trigger] sols2[i]) < c
            + 1 by {
            if i < sols.len() {
                assert(sols2[i] == sols[i]);
            } else {
                assert(sols2[i] == step.0[i - sols.len()]);
                assert(gen.contains(step.0[i - sols.len()]));
                let q = choose|q: int| 0 <= q < gen.len() && gen[q] == step.0[i - sols.len()];
                assert(count_true(sols2[i]) == c);
            }
        }
        lemma_run_distinct(rep, step.1, sols2, step.2, find_all, filtering, (fuel - 1) as nat, c
            + 1);
        assert(run(rep, gen, sols, st, find_all, filtering, fuel) == run(
            rep,
            step.1,
            sols2,
            step.2,
            find_all,
            filtering,
            (fuel - 1) as nat,
        ));
    }
}

/// Counts through one generation step: solutions keep the
/// generation's count, children carry one more.
pub proof fn lemma_process_gen_budget_counts(
    rep: BitArrayRepresentation,
    gen: Seq<Seq<bool>>,
    st: Map<u64, Seq<Seq<u64>>>,
    filtering: bool,
    c: nat,
)
    requires
        rep.wf(),
        rep.reflexive(),
        forall|i: int|
            0 <= i < gen.len() ==> ((#[trigger] gen[i]).len() == rep.n() && count_true(gen[i])
                == c),
    ensures
        ({
            let step = process_gen(rep, gen, st, filtering);
            &&& forall|i: int|
                0 <= i < step.0.len() ==> ((#[trigger] step.0[i]).len() == rep.n() && count_true(
                    step.0[i],
                ) == c)
            &&& forall|i: int|
                0 <= i < step.1.len() ==> ((#[trigger] step.1[i]).len() == rep.n() && count_true(
                    step.1[i],
                ) == c + 1)
        }),
    decreases gen.len(),
{
    if gen.len() > 0 {
        let s = gen[0];
        let e = expand_one(rep, s, st, filtering);
        let tail = gen.drop_first();
        lemma_process_gen_budget_counts(rep, tail, e.2, filtering, c);
        let rest = process_gen(rep, tail, e.2, filtering);
        let step = process_gen(rep, gen, st, filtering);
        match rep.spec_possibilities(s) {
            None => {},
            Some(p) => {
                if has_true(p) {
                    let kids = rep.children(s, p);
                    lemma_ones_list_props(p);
                    lemma_filter_children_subset(rep, kids, st, filtering);
                    assert forall|q: int| 0 <= q < kids.len() implies ((#[trigger] kids[q]).len()
                        == rep.n() && count_true(kids[q]) == c + 1) by {
                        let site = ones_list(p)[q];
                        assert(p[site]);
                        lemma_child_shape(rep, s, p, site);
                        assert(kids[q] == s.update(site, true));
                    }
                    assert forall|i: int| 0 <= i < e.1.len() implies ((#[trigger] e.1[i]).len()
                        == rep.n() && count_true(e.1[i]) == c + 1) by {
                        assert(kids.contains(e.1[i]));
                        let q = choose|q: int| 0 <= q < kids.len() && kids[q] == e.1[i];
                    }
                }
            },
        }
        assert forall|i: int| 0 <= i < step.0.len() implies ((#[trigger] step.0[i]).len()
            == rep.n() && count_true(step.0[i]) == c) by {
            if i < e.0.len() {
                assert(step.0[i] == s);
            } else {
                assert(step.0[i] == rest.0[i - e.0.len()]);
            }
        }
        assert forall|i: int| 0 <= i < step.1.len() implies ((#[trigger] step.1[i]).len()
            == rep.n() && count_true(step.1[i]) == c + 1) by {
            if i < e.1.len() {
                assert(step.1[i] == e.1[i]);
            } else {
                assert(step.1[i] == rest.1[i - e.1.len()]);
            }
        }
    }
}

/// Canonicalization is order-independent: no solution is discovered
/// twice, by either solver, whatever the filter mode — each final
/// configuration is reached through exactly one (sorted) fill order.
pub proof fn lemma_canonical_uniqueness(rep: BitArrayRepresentation, find_all: bool)
    requires
        rep.wf(),
        rep.reflexive(),
    ensures
        distinct_states(rep.spec_solve(find_all)),
        distinct_states(rep.spec_solve_parallel(find_all)),
{
    let v0 = bits_of(rep.filled_sites);
    lemma_run_distinct(
        rep,
        seq![v0],
        Seq::empty(),
        Map::empty(),
        find_all,
        rep.filtering(),
        (rep.n() + 2) as nat,
        count_true(v0),
    );
    lemma_run_distinct(
        rep,
        seq![v0],
        Seq::empty(),
        Map::empty(),
        find_all,
        false,
        (rep.n() + 2) as nat,
        count_true(v0),
    );
}

/// The solutions a generation step yields are maximal states: no
/// site at all is available in them.
pub proof fn lemma_process_gen_maximal(
    rep: BitArrayRepresentation,
    gen: Seq<Seq<bool>>,
    st: Map<u64, Seq<Seq<u64>>>,
    filtering: bool,
)
    ensures
        forall|i: int|
            0 <= i < process_gen(rep, gen, st, filtering).0.len() ==> !has_true(
                rep.avail(#[trigger] process_gen(rep, gen, st, filtering).0[i]),
            ),
    decreases gen.len(),
{
    if gen.len() > 0 {
        let s = gen[0];
        let e = expand_one(rep, s, st, filtering);
        lemma_process_gen_maximal(rep, gen.drop_first(), e.2, filtering);
        let rest = process_gen(rep, gen.drop_first(), e.2, filtering);
        let step = process_gen(rep, gen, st, filtering);
        match rep.spec_possibilities(s) {
            None => {},
            Some(p) => {
                if !has_true(p) {
                    lemma_empty_poss_means_avail_empty(rep, s, p);
                }
            },
        }
        assert forall|i: int| 0 <= i < step.0.len() implies !has_true(
            rep.avail(#[trigger] step.0[i]),
        ) by {
            if i < e.0.len() {
                assert(step.0[i] == s);
            } else {
                assert(step.0[i] == rest.0[i - e.0.len()]);
            }
        }
    }
}

/// Along a whole run, every reported solution is a maximal state.
pub proof fn lemma_run_maximal(
    rep: BitArrayRepresentation,
    gen: Seq<Seq<bool>>,
    sols: Seq<Seq<bool>>,
    st: Map<u64, Seq<Seq<u64>>>,
    find_all: bool,
    filtering: bool,
    fuel: nat,
)
    requires
        forall|i: int| 0 <= i < sols.len() ==> !has_true(rep.avail(#[trigger] sols[i])),
    ensures
        forall|i: int|
            0 <= i < run(rep, gen, sols, st, find_all, filtering, fuel).len() ==> !has_true(
                rep.avail(#[trigger] run(rep, gen, sols, st, find_all, filtering, fuel)[i]),
            ),
    decreases fuel,
{
    if gen.len() == 0 || (!find_all && sols.len() > 0) || fuel == 0 {
    } else {
        let step = process_gen(rep, gen, st, filtering);
        lemma_process_gen_maximal(rep, gen, st, filtering);
        assert forall|i: int| 0 <= i < (sols + step.0).len() implies !has_true(
            rep.avail(#[trigger] (sols + step.0)[i]),
        ) by {
            if i < sols.len() {
                assert((sols + step.0)[i] == sols[i]);
            } else {
                assert((sols + step.0)[i] == step.0[i - sols.len()]);
            }
        }
        lemma_run_maximal(rep, step.1, sols + step.0, step.2, find_all, filtering, (fuel
            - 1) as nat);
        assert(run(rep, gen, sols, st, find_all, filtering, fuel) == run(
            rep,
            step.1,
            sols + step.0,
            step.2,
            find_all,
            filtering,
            (fuel - 1) as nat,
        ));
    }
}

/// True maximality of every reported solution: for each solution
/// state either solver returns, no site at all could still be filled
/// without violating an exclusion constraint.
pub proof fn lemma_solutions_maximal(rep: BitArrayRepresentation, find_all: bool)
    ensures
        forall|i: int|
            0 <= i < rep.spec_solve(find_all).len() ==> !has_true(
                rep.avail(#[trigger] rep.spec_solve(find_all)[i]),
            ),
        forall|i: int|
            0 <= i < rep.spec_solve_parallel(find_all).len() ==> !has_true(
                rep.avail(#[trigger] rep.spec_solve_parallel(find_all)[i]),
            ),
{
    let v0 = bits_of(rep.filled_sites);
    lemma_run_maximal(
        rep,
        seq![v0],
        Seq::empty(),
        Map::empty(),
        find_all,
        rep.filtering(),
        (rep.n() + 2) as nat,
    );
    lemma_run_maximal(
        rep,
        seq![v0],
        Seq::empty(),
        Map::empty(),
        find_all,
        false,
        (rep.n() + 2) as nat,
    );
}

/// With the duplicate filter disabled, the sequential and the
/// parallel solver are the same computation: their
/// specification-level runs coincide, so they return the same
/// solutions, in the same order, independent of thread count.
pub proof fn lemma_parallel_matches_sequential(rep: BitArrayRepresentation, find_all: bool)
    requires
        rep.options.solve_filter == BitArrayFilter::Off,
    ensures
        rep.spec_solve(find_all) == rep.spec_solve_parallel(find_all),
{
}

/// Setting an unoccupied site occupies exactly one more site.
pub proof fn lemma_count_update_true(s: Seq<bool>, i: int)
    requires
        0 <= i < s.len(),
        !s[i],
    ensures
        count_true(s.update(i, true)) == count_true(s) + 1,
    decreases s.len(),
{
    let u = s.update(i, true);
    if i == s.len() - 1 {
        assert(u.drop_last() =~= s.drop_last());
        assert(u.last());
        assert(!s.last());
    } else {
        assert(u.drop_last() =~= s.drop_last().update(i, true));
        lemma_count_update_true(s.drop_last(), i);
        assert(u.last() == s.last());
    }
}

/// Every legal move returned by the possibility engine is available,
/// and with reflexive exclusion it is unoccupied and at or above the
/// state's highest occupied site.
pub proof fn lemma_possibility_site(rep: BitArrayRepresentation, s: Seq<bool>, p: Seq<bool>, i: int)
    requires
        rep.wf(),
        rep.reflexive(),
        s.len() == rep.n(),
        rep.spec_possibilities(s) == Some(p),
        0 <= i < p.len(),
        p[i],
    ensures
        p.len() == rep.n(),
        rep.avail_at(s, i),
        !s[i],
        i > highest_true(s),
{
    let a = rep.avail(s);
    let c = rep.canon(s);
    let pr = rep.priority(s);
    if !has_true(a) {
        assert(p == a);
        assert(false);
    } else if !has_true(c) {
        assert(false);
    } else if has_true(pr) {
        assert(p == pr);
        assert(a[i]);
    } else {
        assert(p == c);
        assert(a[i]);
    }
    assert(rep.avail_at(s, i));
    assert(rep.excl(i).len() == rep.n());
    assert(rep.excl(i)[i]);
    assert(!(s[i] && rep.excl(i)[i])) by {
        assert(seq_disjoint(s, rep.excl(i)));
    }
    assert(!s[i]);
    lemma_highest_true_props(s);
    if has_true(s) {
        let h = highest_true(s);
        assert(i >= h);
        assert(s[h]);
        assert(i != h);
    }
}

/// The shape of a child state: one more site, the new site on top.
pub proof fn lemma_child_shape(rep: BitArrayRepresentation, s: Seq<bool>, p: Seq<bool>, i: int)
    requires
        rep.wf(),
        rep.reflexive(),
        s.len() == rep.n(),
        rep.spec_possibilities(s) == Some(p),
        0 <= i < p.len(),
        p[i],
    ensures
        ({
            let c = s.update(i, true);
            &&& c.len() == rep.n()
            &&& count_true(c) == count_true(s) + 1
            &&& highest_true(c) == i
            &&& c.update(i, false) == s
        }),
{
    lemma_possibility_site(rep, s, p, i);
    lemma_count_update_true(s, i);
    let c = s.update(i, true);
    lemma_highest_true_props(s);
    lemma_highest_true_props(c);
    assert(c[i]);
    assert(has_true(c));
    let h = highest_true(c);
    assert(c[h]);
    assert(forall|j: int| h < j < c.len() ==> !c[j]);
    assert(!(h < i));
    if h > i {
        assert(c[h] == s[h]);
        assert(s[h]);
        assert(h <= highest_true(s));
        assert(false);
    }
    assert(h == i);
    assert(c.update(i, false) =~= s);
}

} // verus!
