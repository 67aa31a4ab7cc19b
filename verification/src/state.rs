use vstd::prelude::*;

use cosmwasm_std::Decimal;

verus! {

/// The balancer's configuration.
pub struct Config {
    /// the allowed deviation from the target ratio
    pub max_deviation: Decimal,
    /// the dex to use for swaps
    pub dex: String,
}

} // verus!
