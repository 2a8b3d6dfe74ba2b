//! One side of a trading order book kept as price levels in key order, with
//! decimal prices quantized to integer keys.

pub mod decimal;
pub mod key;
pub mod levels;
pub mod models;
pub mod convert;
