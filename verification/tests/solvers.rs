use fixedbitset::FixedBitSet;
use lattice_solver::{
    BitArrayFilter, BitArrayRepresentation, BitArraySettings, BitArraySolution, SiteFilter,
    OxygenIndex,
};

fn bits(n: usize, set: &[usize]) -> FixedBitSet {
    let mut b = FixedBitSet::with_capacity(n);
    for &i in set {
        b.set(i, true);
    }
    b
}

fn ones(solution: &BitArraySolution) -> Vec<usize> {
    solution.0.ones().collect()
}

fn solution_sets(solutions: &[BitArraySolution]) -> Vec<Vec<usize>> {
    let mut sets: Vec<Vec<usize>> = solutions.iter().map(ones).collect();
    sets.sort();
    sets
}

/// Five all-singlet sites with exclusion pairs {0-1, 0-2, 1-3} (plus
/// self-exclusion) and a singlet budget of five.
fn independent_set_instance() -> BitArrayRepresentation {
    let n = 5;
    let exclusion_matrix = vec![
        bits(n, &[0, 1, 2]),
        bits(n, &[0, 1, 3]),
        bits(n, &[0, 2]),
        bits(n, &[1, 3]),
        bits(n, &[4]),
    ];
    BitArrayRepresentation::create_debug(
        bits(n, &[]),
        exclusion_matrix,
        vec![vec![0u64; n]; n],
        bits(n, &[]),
        bits(n, &[]),
        bits(n, &[0, 1, 2, 3, 4]),
        None,
        BitArraySettings::create(5, 50000, (1000000, 1000000), BitArrayFilter::Off),
    )
}

#[test]
fn solver_finds_maximal_independent_sets() {
    let rep = independent_set_instance();
    assert!(rep.check_wf());
    assert!(rep.check_reflexive());
    let solutions = rep.solve(true, true);
    assert_eq!(
        solution_sets(&solutions),
        vec![vec![0, 3, 4], vec![1, 2, 4], vec![2, 3, 4]]
    );
}

#[test]
fn solver_finds_no_duplicate_solutions() {
    let rep = independent_set_instance();
    let solutions = rep.solve(true, true);
    let mut sets = solution_sets(&solutions);
    let before = sets.len();
    sets.dedup();
    assert_eq!(sets.len(), before);
}

#[test]
fn zero_budget_yields_zero_solutions() {
    let n = 2;
    let rep = BitArrayRepresentation::create_debug(
        bits(n, &[]),
        vec![bits(n, &[0]), bits(n, &[1])],
        vec![vec![0u64; n]; n],
        bits(n, &[]),
        bits(n, &[]),
        bits(n, &[0, 1]),
        None,
        BitArraySettings::create(0, 50000, (1, 1), BitArrayFilter::Off),
    );
    assert!(rep.check_wf());
    let solutions = rep.solve(true, true);
    assert!(solutions.is_empty());
}

#[test]
fn budget_bounds_solution_singlets() {
    let rep = independent_set_instance();
    for solution in rep.solve(true, true) {
        assert!(ones(&solution).len() <= 5);
    }
    let n = 2;
    let two_singlets = BitArrayRepresentation::create_debug(
        bits(n, &[]),
        vec![bits(n, &[0]), bits(n, &[1])],
        vec![vec![0u64; n]; n],
        bits(n, &[]),
        bits(n, &[]),
        bits(n, &[0, 1]),
        None,
        BitArraySettings::create(2, 50000, (1, 1), BitArrayFilter::Off),
    );
    let solutions = two_singlets.solve(true, true);
    assert_eq!(solution_sets(&solutions), vec![vec![0, 1]]);
}

#[test]
fn parallel_solver_matches_sequential() {
    let rep = independent_set_instance();
    let sequential = rep.solve(true, true);
    let parallel = rep.solve_parallel(true, true);
    assert_eq!(solution_sets(&sequential), solution_sets(&parallel));

    let sequential_first = rep.solve(false, true);
    let parallel_first = rep.solve_parallel(false, true);
    assert_eq!(
        solution_sets(&sequential_first),
        solution_sets(&parallel_first)
    );
}

#[test]
fn sequential_solver_is_deterministic() {
    let rep = independent_set_instance();
    let first = rep.solve(true, true);
    let second = rep.solve(true, true);
    assert_eq!(solution_sets(&first), solution_sets(&second));
}

#[test]
fn find_first_stops_at_shallowest_solutions() {
    let rep = independent_set_instance();
    let solutions = rep.solve(false, true);
    // all three maximal sets have three sites, so the first
    // generation that yields any solution yields all of them
    assert_eq!(solutions.len(), 3);
}

#[test]
fn inflate_maps_bits_to_filter_positions() {
    let mut compressed = BitArraySolution(bits(3, &[0, 2]));
    let filter = bits(6, &[1, 3, 5]);
    compressed.inflate(&filter);
    assert_eq!(ones(&compressed), vec![1, 5]);
    assert_eq!(compressed.__str__(), "010001");
}

#[test]
fn inflate_leaves_filtered_positions_clear() {
    let mut compressed = BitArraySolution(bits(2, &[0, 1]));
    let filter = bits(5, &[0, 4]);
    compressed.inflate(&filter);
    assert_eq!(ones(&compressed), vec![0, 4]);
    for i in [1, 2, 3] {
        assert!(!compressed.0.contains(i));
    }
}

#[test]
fn filtered_compacts_and_solutions_inflate() {
    let rep = independent_set_instance();
    // remove site 0: the reduced instance has sites {1, 2, 3, 4}
    let reduced = rep.filtered(SiteFilter { wrapped: vec![OxygenIndex(0)] });
    assert!(reduced.check_wf());
    assert!(reduced.check_reflexive());
    assert_eq!(reduced.exclusion_matrix.len(), 4);
    let solutions = reduced.solve(true, true);
    // solutions are reported in the original five-site index space
    let sets = solution_sets(&solutions);
    assert_eq!(sets, vec![vec![1, 2, 4], vec![2, 3, 4]]);
}

#[test]
fn empty_site_filter_keeps_every_site() {
    let rep = independent_set_instance();
    let reduced = rep.filtered(SiteFilter::empty());
    assert_eq!(reduced.exclusion_matrix.len(), 5);
    let solutions = reduced.solve(true, true);
    assert_eq!(
        solution_sets(&solutions),
        vec![vec![0, 3, 4], vec![1, 2, 4], vec![2, 3, 4]]
    );
}

#[test]
fn get_bitarray_returns_initial_state() {
    let rep = independent_set_instance();
    assert_eq!(rep.get_bitarray(), bits(5, &[]));
}
