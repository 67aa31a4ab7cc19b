pub mod instantiate;
pub mod migrate;
pub mod query;
