pub mod asset;
pub mod contract;
pub mod error;
pub mod graph;
pub mod handlers;
pub mod msg;
pub mod state;
