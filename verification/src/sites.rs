//! Site identities and classes.  Sites are referred to everywhere by a
//! dense integer index into the shared matrices and masks; the three
//! classes (tripoint, midpoint, singlet) record how many lattice
//! points a site bridges.

use vstd::prelude::*;

verus! {

/// Index of a candidate (oxygen) site in the matrices and bit vectors.
#[derive(Clone, Copy, Debug, PartialEq, Eq, Structural)]
pub struct OxygenIndex(pub usize);

/// Index of an underlying lattice point.
#[derive(Clone, Copy, Debug, PartialEq, Eq, Structural)]
pub struct LatticeIndex(pub usize);

/// A site bridging a single lattice point.
#[derive(Clone, Copy)]
pub struct Singlet(pub [LatticeIndex; 1]);

/// A site bridging two lattice points.
#[derive(Clone, Copy)]
pub struct Midpoint(pub [LatticeIndex; 2]);

/// A site bridging three lattice points.
#[derive(Clone, Copy)]
pub struct Tripoint(pub [LatticeIndex; 3]);

/// The structural class of a site, with the lattice points it bridges.
#[derive(Clone, Copy)]
pub enum SiteType {
    Singlet(Singlet),
    Midpoint(Midpoint),
    Tripoint(Tripoint),
}

impl SiteType {
    /// The lattice points this site bridges, in declaration order.
    pub fn iter(&self) -> (r: Vec<LatticeIndex>)
        ensures
            r@ == match *self {
                SiteType::Tripoint(c) => c.0@,
                SiteType::Midpoint(c) => c.0@,
                SiteType::Singlet(c) => c.0@,
            },
    {
        match self {
            SiteType::Tripoint(c) => {
                let r = vec![c.0[0], c.0[1], c.0[2]];
                proof {
                    assert(r@ =~= c.0@);
                }
                r
            },
            SiteType::Midpoint(c) => {
                let r = vec![c.0[0], c.0[1]];
                proof {
                    assert(r@ =~= c.0@);
                }
                r
            },
            SiteType::Singlet(c) => {
                let r = vec![c.0[0]];
                proof {
                    assert(r@ =~= c.0@);
                }
                r
            },
        }
    }
}

/// A sub-selection of sites: the listed sites are removed when a
/// representation is compacted.
#[derive(Clone, Debug)]
pub struct SiteFilter {
    pub wrapped: Vec<OxygenIndex>,
}

impl SiteFilter {
    /// A filter that removes no site.
    pub fn empty() -> (r: Self)
        ensures
            r.wrapped@.len() == 0,
    {
        SiteFilter { wrapped: Vec::new() }
    }
}

} // verus!
