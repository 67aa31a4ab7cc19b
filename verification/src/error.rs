use vstd::prelude::*;

verus! {

/// Errors of the balancer.
#[derive(Debug)]
pub enum BalancerError {
    /// No chain of pools leads from an offered asset to an asked one.
    NoSwapPath,
}

} // verus!
