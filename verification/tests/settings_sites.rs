use lattice_solver::{
    BitArrayFilter, BitArraySettings, SettingsBuilder, SiteFilter, SiteType, Singlet, Midpoint,
    Tripoint, LatticeIndex, OxygenIndex, DEFAULT_MAX_SINGLETS, DEFAULT_TOLERANCE,
};

#[test]
fn settings_create_records_fields() {
    let settings = BitArraySettings::create(3, 75000, (2000000, 1500000), BitArrayFilter::SimTrees);
    assert_eq!(settings.max_singlets, 3);
    assert_eq!(settings.difference_distance, 75000);
    assert_eq!(settings.max_x, 2000000);
    assert_eq!(settings.max_y, 1500000);
    assert_eq!(settings.solve_filter, BitArrayFilter::SimTrees);
}

#[test]
fn settings_default_uses_documented_defaults() {
    let settings = BitArraySettings::default((123, 456));
    assert_eq!(settings.max_singlets, DEFAULT_MAX_SINGLETS);
    assert_eq!(settings.max_singlets, 2);
    assert_eq!(settings.difference_distance, DEFAULT_TOLERANCE);
    assert_eq!(settings.difference_distance, 50000);
    assert_eq!((settings.max_x, settings.max_y), (123, 456));
    assert_eq!(settings.solve_filter, BitArrayFilter::Off);
}

#[test]
fn builder_defaults_match_settings_defaults() {
    let built = SettingsBuilder::default().build((123, 456));
    assert_eq!(built, BitArraySettings::default((123, 456)));
}

#[test]
fn builder_setters_override_defaults() {
    let built = SettingsBuilder::default()
        .max_singlets(7)
        .difference_distance(111)
        .max((9, 8))
        .solve_filter(BitArrayFilter::Similarity)
        .build((123, 456));
    assert_eq!(built.max_singlets, 7);
    assert_eq!(built.difference_distance, 111);
    assert_eq!((built.max_x, built.max_y), (9, 8));
    assert_eq!(built.solve_filter, BitArrayFilter::Similarity);
}

#[test]
fn site_type_iter_lists_bridged_points() {
    let tripoint = SiteType::Tripoint(Tripoint([
        LatticeIndex(3),
        LatticeIndex(7),
        LatticeIndex(9),
    ]));
    let points: Vec<usize> = tripoint.iter().iter().map(|p| p.0).collect();
    assert_eq!(points, vec![3, 7, 9]);

    let midpoint = SiteType::Midpoint(Midpoint([LatticeIndex(1), LatticeIndex(2)]));
    assert_eq!(midpoint.iter().len(), 2);

    let singlet = SiteType::Singlet(Singlet([LatticeIndex(5)]));
    let single: Vec<usize> = singlet.iter().iter().map(|p| p.0).collect();
    assert_eq!(single, vec![5]);
}

#[test]
fn empty_site_filter_has_no_entries() {
    let filter = SiteFilter::empty();
    assert!(filter.wrapped.is_empty());
    let filter = SiteFilter { wrapped: vec![OxygenIndex(2), OxygenIndex(4)] };
    assert_eq!(filter.wrapped.len(), 2);
}

#[test]
fn sort_vec_orders_ascending() {
    assert_eq!(lattice_solver::sort_vec(vec![300, 100, 200, 100]), vec![100, 100, 200, 300]);
    assert_eq!(lattice_solver::sort_vec(Vec::new()), Vec::<u64>::new());
}

#[test]
fn distance_scale_is_micro_units() {
    assert_eq!(lattice_solver::DISTANCE_SCALE, 1_000_000);
}
