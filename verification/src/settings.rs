//! The immutable configuration bundle for one solve: the singlet
//! budget, the similarity tolerance, the lattice bounds, and which
//! duplicate-filter variant is active.
//!
//! Distances and the tolerance are carried as fixed-point integers in
//! millionths of the geometric unit (`DISTANCE_SCALE` steps per unit),
//! so the engine's arithmetic is exact.

use vstd::prelude::*;

verus! {

/// Fixed-point steps per geometric distance unit.
pub const DISTANCE_SCALE: u64 = 1000000;

/// Default singlet budget.
pub const DEFAULT_MAX_SINGLETS: usize = 2;

/// Default similarity tolerance: 0.05 distance units.
pub const DEFAULT_TOLERANCE: u64 = 50000;

/// Which duplicate-filter strategy the solver applies to newly
/// generated candidate states.
#[derive(Clone, Copy, Debug, PartialEq, Eq, Structural)]
pub enum BitArrayFilter {
    /// No duplicate suppression.
    Off,
    /// Pairwise linear scan of the fingerprints accepted so far.
    Similarity,
    /// Per-coordinate ordered indexes with range queries and
    /// intersection.
    SimTrees,
}

/// Configuration for one solve over a `BitArrayRepresentation`.
#[derive(Clone, Copy, Debug, PartialEq, Eq, Structural)]
pub struct BitArraySettings {
    pub max_singlets: usize,
    pub difference_distance: u64,
    pub max_x: u64,
    pub max_y: u64,
    pub solve_filter: BitArrayFilter,
}

impl BitArraySettings {
    /// Bundle explicit values into a settings record.
    pub fn create(
        max_singlets: usize,
        difference_distance: u64,
        max: (u64, u64),
        solve_filter: BitArrayFilter,
    ) -> (r: Self)
        ensures
            r.max_singlets == max_singlets,
            r.difference_distance == difference_distance,
            r.max_x == max.0,
            r.max_y == max.1,
            r.solve_filter == solve_filter,
    {
        BitArraySettings {
            max_singlets,
            difference_distance,
            max_x: max.0,
            max_y: max.1,
            solve_filter,
        }
    }

    /// The documented defaults, with the lattice bounds supplied by
    /// the caller.
    pub fn default(max: (u64, u64)) -> (r: Self)
        ensures
            r.max_singlets == DEFAULT_MAX_SINGLETS,
            r.difference_distance == DEFAULT_TOLERANCE,
            r.max_x == max.0,
            r.max_y == max.1,
            r.solve_filter == BitArrayFilter::Off,
    {
        BitArraySettings {
            max_singlets: DEFAULT_MAX_SINGLETS,
            difference_distance: DEFAULT_TOLERANCE,
            max_x: max.0,
            max_y: max.1,
            solve_filter: BitArrayFilter::Off,
        }
    }
}

/// Fluent builder for `BitArraySettings`; every field falls back to
/// its documented default when left unset.
pub struct SettingsBuilder {
    pub max_singlets: Option<usize>,
    pub difference_distance: Option<u64>,
    pub max: Option<(u64, u64)>,
    pub solve_filter: Option<BitArrayFilter>,
}

impl Default for SettingsBuilder {
    fn default() -> (r: Self)
        ensures
            r.max_singlets is None,
            r.difference_distance is None,
            r.max is None,
            r.solve_filter is None,
    {
        SettingsBuilder {
            max_singlets: None,
            difference_distance: None,
            max: None,
            solve_filter: None,
        }
    }
}

impl SettingsBuilder {
    pub fn max_singlets(self, value: usize) -> (r: Self)
        ensures
            r.max_singlets == Some(value),
            r.difference_distance == self.difference_distance,
            r.max == self.max,
            r.solve_filter == self.solve_filter,
    {
        SettingsBuilder { max_singlets: Some(value), ..self }
    }

    pub fn difference_distance(self, value: u64) -> (r: Self)
        ensures
            r.max_singlets == self.max_singlets,
            r.difference_distance == Some(value),
            r.max == self.max,
            r.solve_filter == self.solve_filter,
    {
        SettingsBuilder { difference_distance: Some(value), ..self }
    }

    pub fn max(self, value: (u64, u64)) -> (r: Self)
        ensures
            r.max_singlets == self.max_singlets,
            r.difference_distance == self.difference_distance,
            r.max == Some(value),
            r.solve_filter == self.solve_filter,
    {
        SettingsBuilder { max: Some(value), ..self }
    }

    pub fn solve_filter(self, value: BitArrayFilter) -> (r: Self)
        ensures
            r.max_singlets == self.max_singlets,
            r.difference_distance == self.difference_distance,
            r.max == self.max,
            r.solve_filter == Some(value),
    {
        SettingsBuilder { solve_filter: Some(value), ..self }
    }

    /// Finish the build; `max_default` stands in for the lattice
    /// bounds when none were set explicitly.
    pub fn build(self, max_default: (u64, u64)) -> (r: BitArraySettings)
        ensures
            r.max_singlets == self.max_singlets.unwrap_or(DEFAULT_MAX_SINGLETS),
            r.difference_distance == self.difference_distance.unwrap_or(DEFAULT_TOLERANCE),
            (r.max_x, r.max_y) == self.max.unwrap_or(max_default),
            r.solve_filter == self.solve_filter.unwrap_or(BitArrayFilter::Off),
    {
        let max_singlets = match self.max_singlets {
            Some(v) => v,
            None => DEFAULT_MAX_SINGLETS,
        };
        let difference_distance = match self.difference_distance {
            Some(v) => v,
            None => DEFAULT_TOLERANCE,
        };
        let max = match self.max {
            Some(v) => v,
            None => max_default,
        };
        let solve_filter = match self.solve_filter {
            Some(v) => v,
            None => BitArrayFilter::Off,
        };
        BitArraySettings {
            max_singlets,
            difference_distance,
            max_x: max.0,
            max_y: max.1,
            solve_filter,
        }
    }
}

} // verus!
