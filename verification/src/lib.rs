//! An aggregated limit-order book fed by exchange feeds, with verified
//! book maintenance, feed decoding and response building.

pub mod book;
pub mod decimal;
pub mod kraken;
pub mod text;
pub mod bitmex_order;
pub mod bitmex;
pub mod booker;
pub mod endpoint;
pub mod json;
