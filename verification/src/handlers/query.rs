use vstd::prelude::*;

use abstract_core::objects::AssetEntry;

use crate::msg::{ConfigResponse, WeightedAsset};
use crate::state::Config;

verus! {

/// The configuration query's answer, from the stored configuration and the
/// stored asset weights (in ascending order of asset).
pub fn query_config(state: Config, asset_weights: Vec<(AssetEntry, WeightedAsset)>) -> (r: ConfigResponse)
    ensures
        r.max_deviation == state.max_deviation,
        r.asset_weights == asset_weights,
{
    ConfigResponse { max_deviation: state.max_deviation, asset_weights }
}

} // verus!
