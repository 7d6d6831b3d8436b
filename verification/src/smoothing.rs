//! The state of a smoothing process.
use vstd::prelude::*;

verus! {

/// Whether a smoothing process is still moving.
#[derive(Debug, Copy, Clone, PartialEq, Eq, Structural)]
pub enum State {
    Running,
    Finished,
}

} // verus!
