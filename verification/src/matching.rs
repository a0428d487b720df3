//! The mathematical model of the book and of what one incoming order does to it.

use vstd::prelude::*;
use crate::order::LimitOrder;

verus! {

/// What a completed transaction records.
pub struct TransactionView {
    pub transaction_id: u64,
    pub buy_order_ids: Seq<u64>,
    pub sell_order_ids: Seq<u64>,
}

/// The book as a value: the resting orders of each side by price (oldest first),
/// the recorded transactions by id, and the completed orders in completion order.
pub struct BookView {
    pub buys: Map<u64, Seq<LimitOrder>>,
    pub sells: Map<u64, Seq<LimitOrder>>,
    pub transactions: Map<u64, TransactionView>,
    pub completed: Seq<LimitOrder>,
}

/// Every transaction is filed under its own id.
pub open spec fn filed_by_id(transactions: Map<u64, TransactionView>) -> bool {
    forall|k: u64| #[trigger] transactions.contains_key(k) ==> transactions[k].transaction_id == k
}

/// What matching against the queue of one price level leaves.
pub struct LevelFill {
    /// the queue of the level afterwards
    pub rest: Seq<LimitOrder>,
    /// the quantity of the incoming order still unmatched
    pub left: nat,
    /// the orders of the level that were filled completely, oldest first
    pub filled: Seq<LimitOrder>,
    /// the order that was filled in part, as it stood before, if one was
    pub partial: Option<LimitOrder>,
}

/// `order` with its quantity lowered to `quantity`.
pub open spec fn with_quantity(order: LimitOrder, quantity: u64) -> LimitOrder {
    LimitOrder { quantity, ..order }
}

/// Matching `left` units against a level's queue, oldest order first: an order
/// no larger than what is left is filled completely and leaves the queue; a
/// larger one is filled in part and stays at the front with its quantity
/// reduced. Matching stops when nothing is left or the queue is empty.
pub open spec fn fill_level(queue: Seq<LimitOrder>, left: nat) -> LevelFill
    decreases queue.len(),
{
    if left == 0 || queue.len() == 0 {
        LevelFill { rest: queue, left, filled: Seq::empty(), partial: None }
    } else if queue[0].quantity <= left {
        let r = fill_level(queue.drop_first(), (left - queue[0].quantity) as nat);
        LevelFill { filled: seq![queue[0]] + r.filled, ..r }
    } else {
        LevelFill {
            rest: seq![with_quantity(queue[0], (queue[0].quantity - left) as u64)] + queue.drop_first(),
            left: 0,
            filled: Seq::empty(),
            partial: Some(queue[0]),
        }
    }
}

/// What sweeping the levels of one side over a range of prices leaves.
pub struct Sweep {
    /// the levels afterwards; a level left empty is removed
    pub levels: Map<u64, Seq<LimitOrder>>,
    /// the quantity of the incoming order still unmatched
    pub left: nat,
    /// the orders filled completely, in the order they were filled
    pub filled: Seq<LimitOrder>,
    /// the order filled in part, as it stood before, if one was
    pub partial: Option<LimitOrder>,
}

/// Matching `left` units against the levels whose price lies in `[lo, hi]`,
/// best price first: the highest first where `down`, the lowest first
/// otherwise. Each level met is matched with `fill_level` and removed where
/// it is left empty; the sweep stops at the end of the range or once nothing
/// of the incoming order is left.
pub open spec fn sweep(levels: Map<u64, Seq<LimitOrder>>, lo: int, hi: int, left: nat, down: bool) -> Sweep
    decreases hi + 1 - lo,
{
    if lo > hi || left == 0 {
        Sweep { levels, left, filled: Seq::empty(), partial: None }
    } else {
        let k = if down { hi } else { lo };
        let nlo = if down { lo } else { lo + 1 };
        let nhi = if down { hi - 1 } else { hi };
        if !levels.dom().contains(k as u64) {
            sweep(levels, nlo, nhi, left, down)
        } else {
            let f = fill_level(levels[k as u64], left);
            let after = if f.rest.len() == 0 { levels.remove(k as u64) } else { levels.insert(k as u64, f.rest) };
            let r = sweep(after, nlo, nhi, f.left, down);
            Sweep {
                levels: r.levels,
                left: r.left,
                filled: f.filled + r.filled,
                partial: if f.partial is Some { f.partial } else { r.partial },
            }
        }
    }
}

/// The ids of a sequence of orders.
pub open spec fn order_ids(orders: Seq<LimitOrder>) -> Seq<u64> {
    orders.map_values(|o: LimitOrder| o.order_id)
}

/// The ids of an optional order.
pub open spec fn optional_id(o: Option<LimitOrder>) -> Seq<u64> {
    match o {
        Some(o) => seq![o.order_id],
        None => Seq::empty(),
    }
}

/// A side of the book after `order` has been added at the back of its level,
/// a level being opened for it where none stood at its price.
pub open spec fn rest_order(levels: Map<u64, Seq<LimitOrder>>, order: LimitOrder) -> Map<u64, Seq<LimitOrder>> {
    if levels.dom().contains(order.price) {
        levels.insert(order.price, levels[order.price].push(order))
    } else {
        levels.insert(order.price, seq![order])
    }
}

/// What an incoming sell order does: it is matched against the buy levels
/// priced at or above it, highest price first; the buy levels left empty are
/// removed; a transaction naming the sell order and every buy order it met
/// is recorded where it met one; the buy orders filled completely are
/// completed, and so is the sell order where nothing of it is left; otherwise
/// what is left of it rests at its price.
pub open spec fn sell_result(book: BookView, order: LimitOrder, transaction_id: u64) -> BookView {
    let s = sweep(book.buys, order.price as int, u64::MAX as int, order.quantity as nat, true);
    let met = order_ids(s.filled) + optional_id(s.partial);
    let tx = TransactionView {
        transaction_id,
        buy_order_ids: met,
        sell_order_ids: seq![order.order_id],
    };
    BookView {
        buys: s.levels,
        sells: if s.left == 0 { book.sells } else { rest_order(book.sells, with_quantity(order, s.left as u64)) },
        transactions: if met.len() > 0 { book.transactions.insert(transaction_id, tx) } else { book.transactions },
        completed: book.completed + s.filled + (if s.left == 0 { seq![order] } else { Seq::empty() }),
    }
}

/// What an incoming buy order does, the mirror of a sell: it is matched
/// against the sell levels priced at or below it, lowest price first; the sell
/// levels left empty are removed; a transaction naming the buy order and every
/// sell order it met is recorded where it met one; the sell orders filled
/// completely are completed, and so is the buy order where nothing of it is
/// left; otherwise what is left of it rests at its price.
pub open spec fn buy_result(book: BookView, order: LimitOrder, transaction_id: u64) -> BookView {
    let s = sweep(book.sells, 0, order.price as int, order.quantity as nat, false);
    let met = order_ids(s.filled) + optional_id(s.partial);
    let tx = TransactionView {
        transaction_id,
        buy_order_ids: seq![order.order_id],
        sell_order_ids: met,
    };
    BookView {
        buys: if s.left == 0 { book.buys } else { rest_order(book.buys, with_quantity(order, s.left as u64)) },
        sells: s.levels,
        transactions: if met.len() > 0 { book.transactions.insert(transaction_id, tx) } else { book.transactions },
        completed: book.completed + s.filled + (if s.left == 0 { seq![order] } else { Seq::empty() }),
    }
}

/// What adding `order` does to the book, the transaction it opens having the given id.
pub open spec fn add_order_result(book: BookView, order: LimitOrder, transaction_id: u64) -> BookView {
    match order.side {
        crate::side::Side::Sell => sell_result(book, order, transaction_id),
        crate::side::Side::Buy => buy_result(book, order, transaction_id),
    }
}

} // verus!

verus! {

/// Where something of the incoming order is left after a level, the level was
/// emptied and no order of it was filled in part.
pub proof fn lemma_fill_level_left_means_emptied(queue: Seq<LimitOrder>, left: nat)
    ensures
        fill_level(queue, left).left > 0 ==> {
            &&& fill_level(queue, left).rest.len() == 0
            &&& fill_level(queue, left).partial is None
        },
        fill_level(queue, left).left <= left,
    decreases queue.len(),
{
    if queue.len() > 0 && left > 0 && queue[0].quantity <= left {
        lemma_fill_level_left_means_emptied(queue.drop_first(), (left - queue[0].quantity) as nat);
    }
}

/// A sweep leaves at most what it started with.
pub proof fn lemma_sweep_left_bounded(levels: Map<u64, Seq<LimitOrder>>, lo: int, hi: int, left: nat, down: bool)
    ensures
        sweep(levels, lo, hi, left, down).left <= left,
    decreases hi + 1 - lo,
{
    if lo <= hi && left > 0 {
        let k = if down { hi } else { lo };
        let nlo = if down { lo } else { lo + 1 };
        let nhi = if down { hi - 1 } else { hi };
        if !levels.dom().contains(k as u64) {
            lemma_sweep_left_bounded(levels, nlo, nhi, left, down);
        } else {
            let f = fill_level(levels[k as u64], left);
            lemma_fill_level_left_means_emptied(levels[k as u64], left);
            let after = if f.rest.len() == 0 { levels.remove(k as u64) } else { levels.insert(k as u64, f.rest) };
            lemma_sweep_left_bounded(after, nlo, nhi, f.left, down);
        }
    }
}

/// Prices at which no level stands are passed over, going up.
pub proof fn lemma_sweep_skip_up(levels: Map<u64, Seq<LimitOrder>>, lo: int, k: int, hi: int, left: nat)
    requires
        0 <= lo <= k <= hi + 1,
        hi <= u64::MAX,
        forall|j: u64| lo <= j < k ==> !levels.dom().contains(j),
    ensures
        sweep(levels, lo, hi, left, false) == sweep(levels, k, hi, left, false),
    decreases k - lo,
{
    if lo < k {
        assert(!levels.dom().contains(lo as u64));
        lemma_sweep_skip_up(levels, lo + 1, k, hi, left);
    }
}

/// Prices at which no level stands are passed over, going down.
pub proof fn lemma_sweep_skip_down(levels: Map<u64, Seq<LimitOrder>>, lo: int, k: int, hi: int, left: nat)
    requires
        0 <= lo,
        lo - 1 <= k <= hi,
        hi <= u64::MAX,
        forall|j: u64| k < j <= hi ==> !levels.dom().contains(j),
    ensures
        sweep(levels, lo, hi, left, true) == sweep(levels, lo, k, left, true),
    decreases hi - k,
{
    if k < hi {
        assert(!levels.dom().contains(hi as u64));
        lemma_sweep_skip_down(levels, lo, k, hi - 1, left);
    }
}

} // verus!
