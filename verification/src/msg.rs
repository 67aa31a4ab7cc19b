use vstd::prelude::*;

use abstract_core::objects::AssetEntry;
use cosmwasm_std::Decimal;

verus! {

/// `cosmwasm_std::Decimal`, a fixed-point decimal: opaque here, carried
/// through unchanged; nothing is claimed of its contents.
#[verifier::external_type_specification]
#[verifier::external_body]
pub struct ExDecimal(Decimal);

/// `abstract_core::objects::AssetEntry`, the name service's entry for an
/// asset: opaque here, carried through unchanged; nothing is claimed of its
/// contents.
#[verifier::external_type_specification]
#[verifier::external_body]
pub struct ExAssetEntry(AssetEntry);

/// The app's full name: namespace and name.
pub const BALANCER: &'static str = "equilibrium:balancer";

/// Weight of an asset.
#[derive(Clone, Copy, Debug, PartialEq, Eq, Structural)]
pub struct WeightedAsset {
    /// Weight of the asset
    pub weight: u64,
}

/// Migrate msg
#[derive(Clone, Copy, Debug, PartialEq, Eq, Structural)]
pub struct BalancerMigrateMsg {}

/// Init msg
pub struct BalancerInstantiateMsg {
    /// Weights of the assets in the etf
    pub asset_weights: Vec<(AssetEntry, WeightedAsset)>,
    /// The allowed deviation from the target ratio
    pub deviation: Decimal,
    /// The dex to use for swaps
    pub dex: String,
}

/// Execute msg
pub enum BalancerExecuteMsg {
    /// Rebalance the etf
    Rebalance {},
    /// Update asset weights
    UpdateAssetWeights { to_add: Option<Vec<(AssetEntry, WeightedAsset)>>, to_remove: Option<Vec<AssetEntry>> },
    /// Update config
    UpdateConfig { deviation: Option<Decimal>, dex: Option<String> },
}

/// Query msg
#[derive(Clone, Copy, Debug, PartialEq, Eq, Structural)]
pub enum BalancerQueryMsg {
    /// Returns [`ConfigResponse`]
    Config {},
}

/// The configuration, as a query answers it.
pub struct ConfigResponse {
    pub asset_weights: Vec<(AssetEntry, WeightedAsset)>,
    pub max_deviation: Decimal,
}

} // verus!
