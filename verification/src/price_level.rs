use vstd::prelude::*;
use std::collections::VecDeque;
use crate::order::LimitOrder;

verus! {

/// All resting orders at one price, oldest first.
#[derive(Debug)]
pub struct PriceLevel {
    pub price: u64,
    pub orders: VecDeque<LimitOrder>,
}

impl PriceLevel {
    /// An empty level at `price`.
    pub fn new(price: u64) -> (level: PriceLevel)
        ensures
            level.price == price,
            level.orders@ == Seq::<LimitOrder>::empty(),
    {
        PriceLevel { price, orders: VecDeque::new() }
    }
}

} // verus!
