use vstd::prelude::*;
use core::cmp::Ordering;
use crate::side::Side;

verus! {

/// A limit order: buy or sell `quantity` units at `price` (in cents) or better.
#[derive(Clone, Copy, Debug, PartialEq, Eq, Structural)]
pub struct LimitOrder {
    pub order_id: u64,
    pub side: Side,
    pub price: u64,
    pub quantity: u64,
}

/// How two prices compare.
pub open spec fn price_ordering(a: u64, b: u64) -> Ordering {
    if a < b {
        Ordering::Less
    } else if a == b {
        Ordering::Equal
    } else {
        Ordering::Greater
    }
}

impl LimitOrder {
    /// Orders are ranked by price alone.
    pub fn cmp(&self, other: &Self) -> (r: Ordering)
        ensures
            r == price_ordering(self.price, other.price),
            (r == Ordering::Less) == (self.price < other.price),
            (r == Ordering::Equal) == (self.price == other.price),
            (r == Ordering::Greater) == (self.price > other.price),
    {
        if self.price < other.price {
            Ordering::Less
        } else if self.price == other.price {
            Ordering::Equal
        } else {
            Ordering::Greater
        }
    }
}

impl PartialOrd for LimitOrder {
    fn partial_cmp(&self, other: &Self) -> (r: Option<Ordering>) {
        Some(LimitOrder::cmp(self, other))
    }
}

impl vstd::std_specs::cmp::PartialOrdSpecImpl for LimitOrder {
    open spec fn obeys_partial_cmp_spec() -> bool {
        true
    }

    open spec fn partial_cmp_spec(&self, other: &Self) -> Option<Ordering> {
        Some(price_ordering(self.price, other.price))
    }
}

/// Orders compare exactly as their prices in cents do: one is below another
/// when its price is lower, level with it when the prices are the same, and
/// above it when its price is higher; every two orders compare.
pub proof fn lemma_orders_compare_by_price(a: LimitOrder, b: LimitOrder)
    ensures
        (vstd::std_specs::cmp::PartialOrdSpec::partial_cmp_spec(&a, &b) == Some(Ordering::Less)) == (a.price < b.price),
        (vstd::std_specs::cmp::PartialOrdSpec::partial_cmp_spec(&a, &b) == Some(Ordering::Equal)) == (a.price == b.price),
        (vstd::std_specs::cmp::PartialOrdSpec::partial_cmp_spec(&a, &b) == Some(Ordering::Greater)) == (a.price > b.price),
        vstd::std_specs::cmp::PartialOrdSpec::partial_cmp_spec(&a, &b) is Some,
{
}

} // verus!
