//! The integer side of the PageRank iteration: when it stops. The scores
//! themselves are real numbers and are computed by the caller.
use vstd::prelude::*;

verus! {

/// The number of iterations after which PageRank stops, converged or not.
pub const MAX_ITERATIONS: usize = 100;

/// Whether PageRank runs another iteration after `done` iterations, the
/// last of which did or did not converge. Hitting the cap is no error: the
/// last scores stand.
pub fn keep_iterating(converged: bool, done: usize) -> (r: bool)
    ensures
        r == (!converged && done < MAX_ITERATIONS),
{
    !converged && done < MAX_ITERATIONS
}

} // verus!
