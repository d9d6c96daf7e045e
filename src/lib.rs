//! Aggregation of token balances recorded in JSON documents, and planning of
//! capped mints over the aggregated balances.

pub mod amount;
pub mod number;
pub mod ledger;
pub mod order;
pub mod json;
pub mod documents;
pub mod plan;
pub mod render;
pub mod audit;
