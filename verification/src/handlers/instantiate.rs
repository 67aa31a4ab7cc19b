use vstd::prelude::*;

use abstract_core::objects::AssetEntry;

use crate::contract::{Attribute, HandlerResponse, BALANCER_ID};
use crate::msg::{BalancerInstantiateMsg, WeightedAsset};
use crate::state::Config;

verus! {

/// What instantiating the app writes and answers.
pub struct Instantiation {
    /// The configuration to store.
    pub config: Config,
    /// The total to store.
    pub total: u64,
    /// The asset weights handed to the weight update, to add.
    pub asset_weights_to_add: Option<Vec<(AssetEntry, WeightedAsset)>>,
    /// The asset entries handed to the weight update, to remove.
    pub asset_weights_to_remove: Option<Vec<AssetEntry>>,
    /// The response.
    pub response: HandlerResponse,
}

/// Initial instantiation of the contract: the configuration taken from the
/// message, a total of zero, the message's asset weights to add, and a
/// response naming the action and the contract.
pub fn instantiate_handler(msg: BalancerInstantiateMsg) -> (r: Instantiation)
    ensures
        r.config.dex == msg.dex,
        r.config.max_deviation == msg.deviation,
        r.total == 0,
        r.asset_weights_to_add == Some(msg.asset_weights),
        r.asset_weights_to_remove.is_none(),
        r.response.attributes@.len() == 2,
        r.response.attributes@[0].key@ == "action"@,
        r.response.attributes@[0].value@ == "instantiate"@,
        r.response.attributes@[1].key@ == "contract"@,
        r.response.attributes@[1].value@ == BALANCER_ID@,
{
    // Initial config
    let config: Config = Config { dex: msg.dex, max_deviation: msg.deviation };
    let mut attributes: Vec<Attribute> = Vec::new();
    attributes.push(Attribute { key: "action".to_owned(), value: "instantiate".to_owned() });
    attributes.push(Attribute { key: "contract".to_owned(), value: BALANCER_ID.to_owned() });
    Instantiation {
        config,
        total: 0,
        asset_weights_to_add: Some(msg.asset_weights),
        asset_weights_to_remove: None,
        response: HandlerResponse { attributes },
    }
}

} // verus!
