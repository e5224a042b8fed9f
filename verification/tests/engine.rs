use fixedbitset::FixedBitSet;
use lattice_solver::{BitArrayFilter, BitArrayRepresentation, BitArraySettings};

fn bits(n: usize, set: &[usize]) -> FixedBitSet {
    let mut b = FixedBitSet::with_capacity(n);
    for &i in set {
        b.set(i, true);
    }
    b
}

/// The five-site example instance: exclusion rows pair sites 0/1 and
/// 2/3, site 4 stands alone, every site excludes itself.
fn example_representation() -> BitArrayRepresentation {
    let n = 5;
    let exclusion_matrix = vec![
        bits(n, &[0, 1]),
        bits(n, &[0, 1]),
        bits(n, &[2, 3]),
        bits(n, &[2, 3]),
        bits(n, &[4]),
    ];
    let distances_matrix = vec![vec![0u64; n]; n];
    BitArrayRepresentation::create_debug(
        bits(n, &[]),
        exclusion_matrix,
        distances_matrix,
        bits(n, &[0, 1]),
        bits(n, &[2, 3]),
        bits(n, &[4]),
        None,
        BitArraySettings::create(2, 50000, (1000000, 1000000), BitArrayFilter::Off),
    )
}

#[test]
fn example_representation_is_well_formed() {
    let rep = example_representation();
    assert!(rep.check_wf());
    assert!(rep.check_reflexive());
}

#[test]
fn matrix_vector_multiply_reports_available_sites() {
    let rep = example_representation();
    let vector = bits(5, &[3, 4]);
    let available = rep.matrix_vector_multiply(&vector);
    assert_eq!(available, bits(5, &[0, 1]));
}

#[test]
fn possibilities_prefer_tripoints_and_midpoints() {
    let rep = example_representation();
    let vector = bits(5, &[1]);
    let result = rep.get_possibilities(&vector);
    assert_eq!(result, Ok(bits(5, &[2, 3])));
}

#[test]
fn possibilities_allow_singlets_within_budget() {
    let rep = example_representation();
    let vector = bits(5, &[0, 3]);
    let result = rep.get_possibilities(&vector);
    assert_eq!(result, Ok(bits(5, &[4])));
}

#[test]
fn possibilities_empty_means_maximal() {
    let rep = example_representation();
    let vector = bits(5, &[0, 3, 4]);
    let result = rep.get_possibilities(&vector);
    assert_eq!(result, Ok(bits(5, &[])));
}

#[test]
fn canonical_order_prunes_backward_fills() {
    let rep = example_representation();
    // from {4}: sites 0 to 3 are still available, but all lie below
    // the highest occupied site, so every continuation of this state
    // is already counted under another fill order
    let vector = bits(5, &[4]);
    let available = rep.matrix_vector_multiply(&vector);
    assert!(available.contains(0));
    assert!(rep.get_possibilities(&vector).is_err());
}

#[test]
fn budget_counts_all_available_sites() {
    let rep = example_representation();
    // from {2}: available are 0, 1 and 4; no tripoint or midpoint
    // survives the canonical mask, and three available sites exceed
    // the budget of two
    let result = rep.get_possibilities(&bits(5, &[2]));
    assert!(result.is_err());
}

#[test]
fn budget_overflow_is_infeasible() {
    let n = 3;
    let rep = BitArrayRepresentation::create_debug(
        bits(n, &[]),
        vec![bits(n, &[0]), bits(n, &[1]), bits(n, &[2])],
        vec![vec![0u64; n]; n],
        bits(n, &[]),
        bits(n, &[]),
        bits(n, &[0, 1, 2]),
        None,
        BitArraySettings::create(2, 50000, (1, 1), BitArrayFilter::Off),
    );
    assert!(rep.check_wf());
    // three singlets available, budget two
    assert!(rep.get_possibilities(&bits(n, &[])).is_err());
}

#[test]
fn representation_renderings() {
    let n = 2;
    let rep = BitArrayRepresentation::create_debug(
        bits(n, &[]),
        vec![bits(n, &[0]), bits(n, &[1])],
        vec![vec![0u64; n]; n],
        bits(n, &[]),
        bits(n, &[]),
        bits(n, &[0, 1]),
        None,
        BitArraySettings::create(2, 50000, (1, 1), BitArrayFilter::Off),
    );
    assert_eq!(rep.__repr__(), "BitArrayRepresentation[00]");
    let text = rep.__str__();
    assert!(text.starts_with("BitArrayRepresentation: {\n  filled_sites = \n    00\n"));
    assert!(text.contains("  exclusion_matrix = \n    10\n    01\n"));
    assert!(text.contains("  singlet_mask = \n    11\n"));
    assert!(text.ends_with("  filter = \n    None\n}"));
}

#[test]
fn check_wf_rejects_overlapping_masks() {
    let n = 2;
    let rep = BitArrayRepresentation::create_debug(
        bits(n, &[]),
        vec![bits(n, &[0]), bits(n, &[1])],
        vec![vec![0u64; n]; n],
        bits(n, &[0]),
        bits(n, &[]),
        bits(n, &[0, 1]),
        None,
        BitArraySettings::create(2, 50000, (1, 1), BitArrayFilter::Off),
    );
    assert!(!rep.check_wf());
}

#[test]
fn check_wf_rejects_asymmetric_exclusions() {
    let n = 2;
    let rep = BitArrayRepresentation::create_debug(
        bits(n, &[]),
        vec![bits(n, &[0, 1]), bits(n, &[1])],
        vec![vec![0u64; n]; n],
        bits(n, &[]),
        bits(n, &[]),
        bits(n, &[0, 1]),
        None,
        BitArraySettings::create(2, 50000, (1, 1), BitArrayFilter::Off),
    );
    assert!(!rep.check_wf());
}
