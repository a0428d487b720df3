use vstd::prelude::*;
use crate::matching::TransactionView;

verus! {

/// A record of one match: the ids of the buy and of the sell orders it involved.
pub struct Transaction {
    pub transaction_id: u64,
    pub buy_order_ids: Vec<u64>,
    pub sell_order_ids: Vec<u64>,
}

impl View for Transaction {
    type V = TransactionView;

    open spec fn view(&self) -> TransactionView {
        TransactionView {
            transaction_id: self.transaction_id,
            buy_order_ids: self.buy_order_ids@,
            sell_order_ids: self.sell_order_ids@,
        }
    }
}

/// Draws a fresh transaction id with `rand::random::<u64>()`, which samples the
/// thread-local generator. Any `u64` may come back; nothing more is claimed.
#[verifier::external_body]
fn random_transaction_id() -> (id: u64) {
    rand::random::<u64>()
}

impl Transaction {
    /// An empty transaction whose id is drawn at random.
    pub fn new() -> (t: Self)
        ensures
            t.buy_order_ids@ == Seq::<u64>::empty(),
            t.sell_order_ids@ == Seq::<u64>::empty(),
    {
        Self::with_id(random_transaction_id())
    }

    /// An empty transaction with the given id.
    pub fn with_id(transaction_id: u64) -> (t: Self)
        ensures
            t.transaction_id == transaction_id,
            t.buy_order_ids@ == Seq::<u64>::empty(),
            t.sell_order_ids@ == Seq::<u64>::empty(),
    {
        Transaction { transaction_id, buy_order_ids: Vec::new(), sell_order_ids: Vec::new() }
    }
}

impl Default for Transaction {
    fn default() -> (t: Self)
        ensures
            t.buy_order_ids@ == Seq::<u64>::empty(),
            t.sell_order_ids@ == Seq::<u64>::empty(),
    {
        Transaction::new()
    }
}

} // verus!
