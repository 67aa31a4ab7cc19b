use balancer::asset::{AssetInfo, AssetInfoWrapper};
use balancer::error::BalancerError;
use balancer::graph::{determine_swap_paths, find_path, populate_graph, Graph, OracleAsset, PriceSource};

fn native(denom: &str) -> AssetInfo {
    AssetInfo::Native(denom.to_string())
}

fn cw20(addr: &str) -> AssetInfo {
    AssetInfo::Cw20(addr.to_string())
}

fn pool(a: AssetInfo, b: AssetInfo) -> OracleAsset {
    OracleAsset { asset: a.clone(), price_source: PriceSource::Pool { pair: vec![a, b] } }
}

#[test]
fn wrappers_compare_by_display_text() {
    assert!(AssetInfoWrapper::from(native("uusd")) == AssetInfoWrapper::from(native("uusd")));
    assert!(AssetInfoWrapper::from(native("uusd")) != AssetInfoWrapper::from(native("uluna")));
    assert!(AssetInfoWrapper::from(native("token")) != AssetInfoWrapper::from(cw20("token")));
    assert!(AssetInfoWrapper::from(cw20("addr1")) == AssetInfoWrapper::from(cw20("addr1")));
    let back: AssetInfo = AssetInfoWrapper::from(cw20("addr1")).into();
    assert_eq!(back, cw20("addr1"));
}

#[test]
fn path_to_itself_is_the_asset_alone() {
    let graph = Graph::new();
    assert_eq!(find_path(&graph, &native("a"), &native("a")), Some(vec![native("a")]));
}

#[test]
fn no_path_in_an_empty_graph() {
    let graph = Graph::new();
    assert_eq!(find_path(&graph, &native("a"), &native("b")), None);
}

#[test]
fn path_follows_pairs_in_either_direction() {
    let mut graph = Graph::new();
    graph.add_pair(native("a"), native("b"));
    graph.add_pair(native("c"), native("b"));
    assert_eq!(
        find_path(&graph, &native("a"), &native("c")),
        Some(vec![native("a"), native("b"), native("c")])
    );
    assert_eq!(
        find_path(&graph, &native("c"), &native("a")),
        Some(vec![native("c"), native("b"), native("a")])
    );
}

#[test]
fn path_is_a_shortest_one() {
    let mut graph = Graph::new();
    graph.add_pair(native("a"), native("b"));
    graph.add_pair(native("b"), native("c"));
    graph.add_pair(native("c"), native("d"));
    graph.add_pair(native("a"), native("d"));
    assert_eq!(
        find_path(&graph, &native("a"), &native("d")),
        Some(vec![native("a"), native("d")])
    );
    let path = find_path(&graph, &native("b"), &native("d")).unwrap();
    assert_eq!(path.len(), 3);
    assert_eq!(path[0], native("b"));
    assert_eq!(path[2], native("d"));
}

#[test]
fn no_path_between_separate_components() {
    let mut graph = Graph::new();
    graph.add_pair(native("a"), native("b"));
    graph.add_pair(native("c"), native("d"));
    assert_eq!(find_path(&graph, &native("a"), &native("d")), None);
    assert_eq!(find_path(&graph, &native("x"), &native("a")), None);
    assert_eq!(find_path(&graph, &native("a"), &native("x")), None);
}

#[test]
fn native_and_cw20_of_the_same_name_are_different_assets() {
    let mut graph = Graph::new();
    graph.add_pair(native("t"), native("b"));
    assert_eq!(find_path(&graph, &cw20("t"), &native("b")), None);
    graph.add_pair(cw20("t"), native("t"));
    assert_eq!(
        find_path(&graph, &cw20("t"), &native("b")),
        Some(vec![cw20("t"), native("t"), native("b")])
    );
}

#[test]
fn pairing_twice_changes_nothing() {
    let mut graph = Graph::new();
    graph.add_pair(native("a"), native("b"));
    graph.add_pair(native("b"), native("a"));
    graph.add_pair(native("a"), native("b"));
    assert_eq!(find_path(&graph, &native("a"), &native("b")), Some(vec![native("a"), native("b")]));
    assert_eq!(find_path(&graph, &native("b"), &native("a")), Some(vec![native("b"), native("a")]));
}

#[test]
fn self_pair_is_harmless() {
    let mut graph = Graph::new();
    graph.add_pair(native("a"), native("a"));
    assert_eq!(find_path(&graph, &native("a"), &native("a")), Some(vec![native("a")]));
    assert_eq!(find_path(&graph, &native("a"), &native("b")), None);
}

#[test]
fn populated_graph_links_pool_assets() {
    let oracle = vec![pool(native("eur"), native("usd")), pool(cw20("wynd"), native("usd"))];
    let graph = populate_graph(&oracle);
    assert_eq!(
        find_path(&graph, &native("eur"), &cw20("wynd")),
        Some(vec![native("eur"), native("usd"), cw20("wynd")])
    );
}

#[test]
fn swap_paths_for_every_offer_and_ask() {
    let oracle = vec![pool(native("eur"), native("usd")), pool(native("usd"), native("juno"))];
    let paths = determine_swap_paths(
        vec![native("eur"), native("juno")],
        vec![native("juno"), native("usd")],
        oracle,
    )
    .unwrap();
    assert_eq!(paths.len(), 4);
    // eur -> juno
    assert_eq!(paths[0].swaps.len(), 2);
    assert_eq!(paths[0].swaps[0].from, native("eur"));
    assert_eq!(paths[0].swaps[0].to, native("usd"));
    assert_eq!(paths[0].swaps[1].from, native("usd"));
    assert_eq!(paths[0].swaps[1].to, native("juno"));
    // eur -> usd
    assert_eq!(paths[1].swaps.len(), 1);
    assert_eq!(paths[1].swaps[0].from, native("eur"));
    assert_eq!(paths[1].swaps[0].to, native("usd"));
    // juno -> juno
    assert!(paths[2].swaps.is_empty());
    // juno -> usd
    assert_eq!(paths[3].swaps.len(), 1);
    assert_eq!(paths[3].swaps[0].from, native("juno"));
    assert_eq!(paths[3].swaps[0].to, native("usd"));
}

#[test]
fn swap_paths_fail_without_a_route() {
    let oracle = vec![pool(native("eur"), native("usd"))];
    let result = determine_swap_paths(vec![native("eur")], vec![native("usd"), native("juno")], oracle);
    assert!(matches!(result, Err(BalancerError::NoSwapPath)));
}

#[test]
fn swap_paths_use_the_first_two_assets_of_a_pool() {
    let oracle = vec![OracleAsset {
        asset: native("a"),
        price_source: PriceSource::Pool { pair: vec![native("a"), native("b"), native("c")] },
    }];
    let ok = determine_swap_paths(vec![native("a")], vec![native("b")], oracle).unwrap();
    assert_eq!(ok.len(), 1);
    let oracle = vec![OracleAsset {
        asset: native("a"),
        price_source: PriceSource::Pool { pair: vec![native("a"), native("b"), native("c")] },
    }];
    assert!(determine_swap_paths(vec![native("a")], vec![native("c")], oracle).is_err());
}

#[test]
fn no_offers_give_no_paths() {
    let paths = determine_swap_paths(vec![], vec![native("a")], vec![]).unwrap();
    assert!(paths.is_empty());
}
