//! Statistics.
use vstd::prelude::*;

verus! {

/// A namespace for statistical functions.
pub struct Stat {}

impl Stat {
    /// Eigen decomposition; not there yet.
    pub fn eig() {
    }
}

} // verus!
