use abstract_core::objects::AssetEntry;
use balancer::contract::BALANCER_ID;
use balancer::handlers::instantiate::instantiate_handler;
use balancer::handlers::migrate::migrate_handler;
use balancer::handlers::query::query_config;
use balancer::msg::{BalancerInstantiateMsg, BalancerMigrateMsg, WeightedAsset};
use cosmwasm_std::Decimal;

const DEFAULT_DEVIATION_PERCENT: u64 = 5;
const WYNDEX: &str = "wyndex";
const EUR: &str = "eur";
const USD: &str = "usd";

fn balancer_init_msg(asset_weights: Vec<(AssetEntry, WeightedAsset)>) -> BalancerInstantiateMsg {
    BalancerInstantiateMsg {
        asset_weights,
        deviation: Decimal::percent(DEFAULT_DEVIATION_PERCENT),
        dex: WYNDEX.to_string(),
    }
}

#[test]
fn test_init_config() {
    let init = instantiate_handler(balancer_init_msg(vec![]));
    let weights = init.asset_weights_to_add.unwrap_or_default();
    let config = query_config(init.config, weights);

    assert_eq!(config.max_deviation, Decimal::percent(DEFAULT_DEVIATION_PERCENT));
}

#[test]
fn instantiate_keeps_config_and_weights() {
    let weights = vec![
        (AssetEntry::new(EUR), WeightedAsset { weight: 50 }),
        (AssetEntry::new(USD), WeightedAsset { weight: 50 }),
    ];
    let init = instantiate_handler(balancer_init_msg(weights.clone()));
    assert_eq!(init.config.dex, WYNDEX);
    assert_eq!(init.config.max_deviation, Decimal::percent(5));
    assert_eq!(init.total, 0);
    assert_eq!(init.asset_weights_to_add, Some(weights.clone()));
    assert!(init.asset_weights_to_remove.is_none());

    let attributes: Vec<(String, String)> = init
        .response
        .attributes
        .iter()
        .map(|a| (a.key.clone(), a.value.clone()))
        .collect();
    assert_eq!(
        attributes,
        vec![
            ("action".to_string(), "instantiate".to_string()),
            ("contract".to_string(), BALANCER_ID.to_string()),
        ]
    );
    assert_eq!(BALANCER_ID, "balancer");

    let config = query_config(init.config, weights.clone());
    assert_eq!(config.asset_weights, weights);
    assert_eq!(config.max_deviation, Decimal::percent(5));
}

#[test]
fn migrate_answers_an_empty_response() {
    let response = migrate_handler(BalancerMigrateMsg {});
    assert!(response.attributes.is_empty());
}
