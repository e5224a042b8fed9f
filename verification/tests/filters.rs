use std::collections::HashMap;
use fixedbitset::FixedBitSet;
use lattice_solver::{
    BitArrayFilter, BitArrayRepresentation, BitArraySettings, CloseVectorTree,
    CloseVectorTreeMap, PointTypeCount,
};

fn bits(n: usize, set: &[usize]) -> FixedBitSet {
    let mut b = FixedBitSet::with_capacity(n);
    for &i in set {
        b.set(i, true);
    }
    b
}

/// Three all-singlet sites with chosen pairwise distances and a
/// tolerance of 50 fixed-point units.
fn geometry_instance(d01: u64, d02: u64, d12: u64) -> BitArrayRepresentation {
    let n = 3;
    let distances_matrix = vec![
        vec![0, d01, d02],
        vec![0, 0, d12],
        vec![0, 0, 0],
    ];
    BitArrayRepresentation::create_debug(
        bits(n, &[]),
        vec![bits(n, &[0]), bits(n, &[1]), bits(n, &[2])],
        distances_matrix,
        bits(n, &[]),
        bits(n, &[]),
        bits(n, &[0, 1, 2]),
        None,
        BitArraySettings::create(3, 50, (1000000, 1000000), BitArrayFilter::Similarity),
    )
}

#[test]
fn fingerprint_is_sorted_pair_distances() {
    let rep = geometry_instance(900, 300, 600);
    let fp = rep.create_diff_vector(&bits(3, &[0, 1, 2]));
    assert_eq!(fp, vec![300, 600, 900]);
    let fp2 = rep.create_diff_vector(&bits(3, &[0, 2]));
    assert_eq!(fp2, vec![300]);
    let fp_empty = rep.create_diff_vector(&bits(3, &[2]));
    assert!(fp_empty.is_empty());
}

#[test]
fn near_duplicate_is_rejected() {
    let rep = geometry_instance(1000, 1040, 5000);
    let mut map: HashMap<u64, Vec<Vec<u64>>> = HashMap::new();
    // {0, 1} and {0, 2} have the same type composition; their
    // fingerprints 1000 and 1040 differ by less than the tolerance
    assert!(rep.similarity_filter(&bits(3, &[0, 1]), &mut map));
    assert!(!rep.similarity_filter(&bits(3, &[0, 2]), &mut map));
}

#[test]
fn distinguishable_candidate_is_accepted() {
    let rep = geometry_instance(1000, 1100, 5000);
    let mut map: HashMap<u64, Vec<Vec<u64>>> = HashMap::new();
    // fingerprints 1000 and 1100 differ by more than the tolerance
    assert!(rep.similarity_filter(&bits(3, &[0, 1]), &mut map));
    assert!(rep.similarity_filter(&bits(3, &[0, 2]), &mut map));
}

#[test]
fn tree_filter_agrees_with_pairwise_scan() {
    for (d01, d02) in [(1000u64, 1040u64), (1000, 1100)] {
        let rep = geometry_instance(d01, d02, 5000);
        let mut scan_map: HashMap<u64, Vec<Vec<u64>>> = HashMap::new();
        let mut tree_map = CloseVectorTreeMap::new(50);
        let candidates = [bits(3, &[0, 1]), bits(3, &[0, 2]), bits(3, &[1, 2])];
        for candidate in &candidates {
            let scan = rep.similarity_filter(candidate, &mut scan_map);
            let tree = rep.new_similarity_filter(candidate, &mut tree_map);
            assert_eq!(scan, tree);
        }
    }
}

#[test]
fn tree_filter_rejects_within_tolerance_on_all_coordinates() {
    let mut tree = CloseVectorTree::length(2, 50);
    assert!(tree.insert(vec![1000, 2000]));
    // within tolerance on every coordinate: rejected
    assert!(!tree.insert(vec![1040, 1960]));
    // beyond tolerance in one coordinate: accepted
    assert!(tree.insert(vec![1000, 2100]));
    // close to the first stored fingerprint again: rejected
    assert!(!tree.insert(vec![960, 2040]));
}

#[test]
fn tree_check_does_not_record() {
    let tree = CloseVectorTree::length(1, 10);
    assert!(tree.check(&vec![500]));
    assert!(tree.check(&vec![500]));
    let mut tree = tree;
    assert!(tree.insert(vec![500]));
    assert!(!tree.check(&vec![505]));
    assert!(tree.check(&vec![511]));
}

#[test]
fn buckets_separate_type_compositions() {
    let n = 4;
    // sites 0 and 1 are tripoints, 2 and 3 are singlets; equal
    // distances, so same-bucket candidates collide
    let distances_matrix = vec![
        vec![0, 700, 700, 700],
        vec![0, 0, 700, 700],
        vec![0, 0, 0, 700],
        vec![0, 0, 0, 0],
    ];
    let rep = BitArrayRepresentation::create_debug(
        bits(n, &[]),
        vec![
            bits(n, &[0]),
            bits(n, &[1]),
            bits(n, &[2]),
            bits(n, &[3]),
        ],
        distances_matrix,
        bits(n, &[0, 1]),
        bits(n, &[]),
        bits(n, &[2, 3]),
        None,
        BitArraySettings::create(4, 50, (1, 1), BitArrayFilter::Similarity),
    );
    let mut map: HashMap<u64, Vec<Vec<u64>>> = HashMap::new();
    // {0, 1}: two tripoints; {2, 3}: two singlets — identical
    // fingerprints, but different buckets, so both are accepted
    assert!(rep.similarity_filter(&bits(n, &[0, 1]), &mut map));
    assert!(rep.similarity_filter(&bits(n, &[2, 3]), &mut map));
    // {0, 2} and {1, 3} share a bucket and a fingerprint
    assert!(rep.similarity_filter(&bits(n, &[0, 2]), &mut map));
    assert!(!rep.similarity_filter(&bits(n, &[1, 3]), &mut map));
}

#[test]
fn point_type_count_counts_by_class() {
    let rep = {
        let n = 4;
        BitArrayRepresentation::create_debug(
            bits(n, &[]),
            vec![
                bits(n, &[0]),
                bits(n, &[1]),
                bits(n, &[2]),
                bits(n, &[3]),
            ],
            vec![vec![0u64; n]; n],
            bits(n, &[0, 1]),
            bits(n, &[2]),
            bits(n, &[3]),
            None,
            BitArraySettings::create(4, 50, (1, 1), BitArrayFilter::Off),
        )
    };
    let counts = PointTypeCount::create(&bits(4, &[0, 2, 3]), &rep);
    assert_eq!(counts, PointTypeCount { tri: 1, mid: 1, sin: 1 });
    let empty = PointTypeCount::create(&bits(4, &[]), &rep);
    assert_eq!(empty, PointTypeCount::default());
}

#[test]
fn sequential_solver_with_filter_drops_duplicates() {
    // two geometrically identical solutions: sites laid out so that
    // {0, 2} and {1, 2} have equal fingerprints; 0 excludes 1
    let n = 3;
    let distances_matrix = vec![
        vec![0, 500, 800],
        vec![0, 0, 800],
        vec![0, 0, 0],
    ];
    let make = |filter: BitArrayFilter| {
        BitArrayRepresentation::create_debug(
            bits(n, &[]),
            vec![bits(n, &[0, 1]), bits(n, &[0, 1]), bits(n, &[2])],
            distances_matrix.clone(),
            bits(n, &[]),
            bits(n, &[]),
            bits(n, &[0, 1, 2]),
            None,
            BitArraySettings::create(3, 50, (1, 1), filter),
        )
    };
    let unfiltered = make(BitArrayFilter::Off).solve(true, true);
    assert_eq!(unfiltered.len(), 2);
    let filtered = make(BitArrayFilter::Similarity).solve(true, true);
    assert_eq!(filtered.len(), 1);
    let tree_filtered = make(BitArrayFilter::SimTrees).solve(true, true);
    assert_eq!(tree_filtered.len(), 1);
}
