//! A limit order book: resting buy and sell orders grouped in price levels,
//! matched on arrival, plus the experimental "number line" index.

pub mod side;
pub mod order;
pub mod transaction;
pub mod price_level;
pub mod levels;
pub mod matching;
pub mod book;
pub mod number_line;
pub mod laws;
