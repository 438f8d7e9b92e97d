//! The two searches.

use vstd::prelude::*;

pub mod bruteforce;
pub mod chains;
pub mod minimax;

pub use bruteforce::BruteForceSolver;
pub use minimax::MinimaxSolver;

verus! {

/// A count as the counter shows it: the counter stops at its largest value.
pub open spec fn capped(count: int) -> u64 {
    if count > u64::MAX {
        u64::MAX
    } else {
        count as u64
    }
}

} // verus!
