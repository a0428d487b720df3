use vstd::prelude::*;

verus! {

/// The side of the book an order stands on.
#[derive(Clone, Copy, Debug, PartialEq, Eq, Structural)]
pub enum Side {
    Sell,
    Buy,
}

} // verus!
