# balancer

The logic of an asset-balancing app for CosmWasm chains, verified with Verus.

- `src/asset.rs` — assets (native coins and CW20 tokens), told apart by the text
  `cw_asset` displays them as; that text determines the asset.
- `src/graph.rs` — the undirected graph of assets paired by the oracle's pools,
  breadth-first search for a shortest swap route, and swap paths for every offered
  and asked asset.
- `src/handlers/` — what instantiating, querying and migrating compute.
- `src/msg.rs`, `src/state.rs`, `src/contract.rs`, `src/error.rs` — messages,
  configuration, constants, errors.
- `app/` — entry points: storage, serialisation, conversion from chain types.
- `tests/` — scenarios run against the library.
