//! The order book: the buy and the sell levels, and what has been matched.

use vstd::prelude::*;
use std::collections::HashMap;
use std::collections::VecDeque;
use crate::order::LimitOrder;
use crate::matching::{
    BookView, TransactionView, fill_level, sweep, rest_order, order_ids, optional_id, with_quantity,
    sell_result, buy_result, add_order_result, filed_by_id,
    lemma_fill_level_left_means_emptied, lemma_sweep_skip_up, lemma_sweep_skip_down,
};
use crate::price_level::PriceLevel;
use crate::side::Side;
use crate::transaction::Transaction;
use crate::levels::{
    Levels, level_map, levels_new, levels_insert, levels_remove, levels_get, levels_first_key_from,
    levels_last_key_upto,
};

verus! {

broadcast use vstd::std_specs::hash::group_hash_axioms;

/// The book: resting buy and sell orders in price levels, the recorded
/// transactions by id, and the orders completed so far.
pub struct OrderBook {
    buy_orders: Levels,
    sell_orders: Levels,
    completed_transactions: HashMap<u64, Transaction>,
    completed_orders: Vec<LimitOrder>,
}

impl View for OrderBook {
    type V = BookView;

    closed spec fn view(&self) -> BookView {
        BookView {
            buys: level_orders(level_map(self.buy_orders)),
            sells: level_orders(level_map(self.sell_orders)),
            transactions: self.completed_transactions@.map_values(|t: Transaction| t@),
            completed: self.completed_orders@,
        }
    }
}

impl OrderBook {
    /// Each level of either side is filed under its own price.
    pub closed spec fn wf(&self) -> bool {
        &&& levels_keyed_by_price(level_map(self.buy_orders))
        &&& levels_keyed_by_price(level_map(self.sell_orders))
        &&& filed_by_id(self@.transactions)
    }
}

/// The queues of a side's levels, by price.
pub open spec fn level_orders(m: Map<u64, PriceLevel>) -> Map<u64, Seq<LimitOrder>> {
    m.map_values(|l: PriceLevel| l.orders@)
}

/// Every level is filed under its own price.
pub open spec fn levels_keyed_by_price(m: Map<u64, PriceLevel>) -> bool {
    forall|k: u64| #[trigger] m.dom().contains(k) ==> m[k].price == k
}

/// Matches `left` units against `queue`, oldest order first: the orders
/// filled completely are pushed onto `filled`; an order filled in part stays
/// at the front with its quantity reduced. Returns the quantity still
/// unmatched and the order filled in part, as it stood before, if any.
fn fill_from_queue(queue: &mut VecDeque<LimitOrder>, left: u64, filled: &mut Vec<LimitOrder>) -> (r: (u64, Option<LimitOrder>))
    ensures
        ({
            let f = fill_level(old(queue)@, left as nat);
            &&& final(queue)@ == f.rest
            &&& r.0 == f.left
            &&& r.1 == f.partial
            &&& final(filled)@ == old(filled)@ + f.filled
        }),
{
    let ghost f0 = fill_level(queue@, left as nat);
    let ghost filled0 = filled@;
    let mut quantity_left = left;
    let mut partial: Option<LimitOrder> = None;
    assert(filled@.skip(filled0.len() as int) =~= Seq::<LimitOrder>::empty());
    while quantity_left > 0 && queue.len() > 0
        invariant
            ({
                let g = fill_level(queue@, quantity_left as nat);
                &&& f0.rest == g.rest
                &&& f0.left == g.left
                &&& f0.filled == filled@.skip(filled0.len() as int) + g.filled
                &&& f0.partial == (if partial is Some { partial } else { g.partial })
            }),
            partial is Some ==> quantity_left == 0,
            filled@.len() >= filled0.len(),
            filled@.take(filled0.len() as int) == filled0,
        decreases queue@.len(), quantity_left,
    {
        let ghost q = queue@;
        let ghost done = filled@;
        let mut order = queue.pop_front().unwrap();
        assert(q.drop_first() =~= queue@);
        if quantity_left >= order.quantity {
            quantity_left = quantity_left - order.quantity;
            filled.push(order);
            assert(filled@.skip(filled0.len() as int) =~= done.skip(filled0.len() as int).push(order));
        } else {
            let met = order;
            order.quantity = order.quantity - quantity_left;
            queue.push_front(order);
            partial = Some(met);
            quantity_left = 0;
            assert(queue@ =~= seq![with_quantity(q[0], (q[0].quantity - (q[0].quantity - order.quantity)) as u64)] + q.drop_first());
        }
        assert(filled@.take(filled0.len() as int) =~= done.take(filled0.len() as int));
    }
    assert(f0.filled =~= filled@.skip(filled0.len() as int));
    (quantity_left, partial)
}

/// Appending nothing leaves a sequence as it is.
proof fn lemma_append_nothing(s: Seq<LimitOrder>)
    ensures
        s + Seq::<LimitOrder>::empty() == s,
{
    assert(s + Seq::<LimitOrder>::empty() =~= s);
}

/// Sweeps the levels of `levels` priced in `[lo, hi]` with `left` units, best
/// price first (the highest where `down`, the lowest otherwise): pushes the
/// orders filled completely onto `filled`, removes the levels left empty, and
/// returns what is left unmatched and the order filled in part, if any.
fn sweep_levels(levels: &mut Levels, lo: u64, hi: u64, left: u64, down: bool, filled: &mut Vec<LimitOrder>) -> (r: (u64, Option<LimitOrder>))
    requires
        lo <= hi,
        levels_keyed_by_price(level_map(*old(levels))),
    ensures
        ({
            let s = sweep(level_orders(level_map(*old(levels))), lo as int, hi as int, left as nat, down);
            &&& level_orders(level_map(*final(levels))) == s.levels
            &&& r.0 == s.left
            &&& r.1 == s.partial
            &&& final(filled)@ == old(filled)@ + s.filled
        }),
        levels_keyed_by_price(level_map(*final(levels))),
{
    let ghost s0 = sweep(level_orders(level_map(*levels)), lo as int, hi as int, left as nat, down);
    let ghost filled0 = filled@;
    let mut quantity_left = left;
    let mut partial: Option<LimitOrder> = None;
    let mut cur_lo = lo;
    let mut cur_hi = hi;
    assert(filled@.skip(filled0.len() as int) =~= Seq::<LimitOrder>::empty());
    loop
        invariant_except_break
            lo <= cur_lo <= cur_hi <= hi,
            ({
                let s = sweep(level_orders(level_map(*levels)), cur_lo as int, cur_hi as int, quantity_left as nat, down);
                &&& s0.levels == s.levels
                &&& s0.left == s.left
                &&& s0.partial == (if partial is Some { partial } else { s.partial })
                &&& s0.filled == filled@.skip(filled0.len() as int) + s.filled
            }),
            partial is Some ==> quantity_left == 0,
        invariant
            filled@.len() >= filled0.len(),
            filled@.take(filled0.len() as int) == filled0,
            levels_keyed_by_price(level_map(*levels)),
        ensures
            s0.levels == level_orders(level_map(*levels)),
            s0.left == quantity_left,
            s0.partial == partial,
            s0.filled == filled@.skip(filled0.len() as int),
        decreases cur_hi - cur_lo,
    {
        let ghost m = level_orders(level_map(*levels));
        let ghost done = filled@;
        if quantity_left == 0 {
            proof { lemma_append_nothing(filled@.skip(filled0.len() as int)); }
            break;
        }
        let found = if down { levels_last_key_upto(levels, cur_hi) } else { levels_first_key_from(levels, cur_lo) };
        let k = match found {
            None => {
                proof {
                    if down {
                        lemma_sweep_skip_down(m, cur_lo as int, cur_lo - 1, cur_hi as int, quantity_left as nat);
                    } else {
                        lemma_sweep_skip_up(m, cur_lo as int, cur_hi + 1, cur_hi as int, quantity_left as nat);
                    }
                    lemma_append_nothing(filled@.skip(filled0.len() as int));
                }
                break;
            },
            Some(k) => k,
        };
        if (down && k < cur_lo) || (!down && k > cur_hi) {
            proof {
                if down {
                    lemma_sweep_skip_down(m, cur_lo as int, cur_lo - 1, cur_hi as int, quantity_left as nat);
                } else {
                    lemma_sweep_skip_up(m, cur_lo as int, cur_hi + 1, cur_hi as int, quantity_left as nat);
                }
                lemma_append_nothing(filled@.skip(filled0.len() as int));
            }
            break;
        }
        proof {
            if down {
                lemma_sweep_skip_down(m, cur_lo as int, k as int, cur_hi as int, quantity_left as nat);
            } else {
                lemma_sweep_skip_up(m, cur_lo as int, k as int, cur_hi as int, quantity_left as nat);
            }
            lemma_fill_level_left_means_emptied(m[k], quantity_left as nat);
        }
        let ghost f = fill_level(m[k], quantity_left as nat);
        let mut level = levels_remove(levels, k).unwrap();
        let (after, met) = fill_from_queue(&mut level.orders, quantity_left, filled);
        if level.orders.len() > 0 {
            levels_insert(levels, k, level);
            assert(level_orders(level_map(*levels)) =~= m.insert(k, f.rest));
        } else {
            assert(level_orders(level_map(*levels)) =~= m.remove(k));
        }
        proof {
            assert(filled@.take(filled0.len() as int) =~= done.take(filled0.len() as int));
            assert(filled@.skip(filled0.len() as int) =~= done.skip(filled0.len() as int) + f.filled);
        }
        quantity_left = after;
        if met.is_some() {
            partial = met;
        }
        if down {
            if k == cur_lo {
                proof { lemma_append_nothing(filled@.skip(filled0.len() as int)); }
                break;
            }
            cur_hi = k - 1;
        } else {
            if k == cur_hi {
                proof { lemma_append_nothing(filled@.skip(filled0.len() as int)); }
                break;
            }
            cur_lo = k + 1;
        }
    }
    (quantity_left, partial)
}

/// Adds `order` at the back of the level at its price, opening the level where
/// there is none.
fn rest_in_levels(levels: &mut Levels, order: LimitOrder)
    requires
        levels_keyed_by_price(level_map(*old(levels))),
    ensures
        level_orders(level_map(*final(levels))) == rest_order(level_orders(level_map(*old(levels))), order),
        levels_keyed_by_price(level_map(*final(levels))),
{
    let ghost m = level_map(*levels);
    match levels_remove(levels, order.price) {
        Some(mut level) => {
            level.orders.push_back(order);
            levels_insert(levels, order.price, level);
        },
        None => {
            let mut pl = PriceLevel::new(order.price);
            pl.orders.push_back(order);
            levels_insert(levels, pl.price, pl);
        },
    }
    assert(level_orders(level_map(*levels)) =~= rest_order(level_orders(m), order));
}

/// Moves the filled orders onto the completed ones, pushing their ids onto `ids`.
fn complete_filled(completed: &mut Vec<LimitOrder>, ids: &mut Vec<u64>, filled: &Vec<LimitOrder>)
    ensures
        final(completed)@ == old(completed)@ + filled@,
        final(ids)@ == old(ids)@ + order_ids(filled@),
{
    let ghost c0 = completed@;
    let ghost i0 = ids@;
    let mut i: usize = 0;
    while i < filled.len()
        invariant
            i <= filled.len(),
            completed@ == c0 + filled@.take(i as int),
            ids@ == i0 + order_ids(filled@.take(i as int)),
        decreases filled.len() - i,
    {
        let o = filled[i];
        completed.push(o);
        ids.push(o.order_id);
        assert(filled@.take(i + 1) =~= filled@.take(i as int).push(o));
        assert(order_ids(filled@.take(i + 1)) =~= order_ids(filled@.take(i as int)).push(o.order_id));
        i = i + 1;
    }
    assert(filled@.take(i as int) =~= filled@);
}

/// Matches `order` against the book, the transaction it opens being `transaction`.
fn match_orders(order_book: &mut OrderBook, order: LimitOrder, transaction: Transaction)
    requires
        old(order_book).wf(),
        transaction.buy_order_ids@.len() == 0,
        transaction.sell_order_ids@.len() == 0,
    ensures
        final(order_book).wf(),
        final(order_book)@ == add_order_result(old(order_book)@, order, transaction.transaction_id),
{
    let mut transaction = transaction;
    let ghost book = order_book@;
    let transaction_id = transaction.transaction_id;
    let starting_quantity = order.quantity;
    let mut filled: Vec<LimitOrder> = Vec::new();
    match order.side {
        Side::Sell => {
            transaction.sell_order_ids.push(order.order_id);
            // the best buyers first: buy levels from the highest price down to this order's
            let (quantity_left, partial) = sweep_levels(
                &mut order_book.buy_orders,
                order.price,
                u64::MAX,
                starting_quantity,
                true,
                &mut filled,
            );
            complete_filled(&mut order_book.completed_orders, &mut transaction.buy_order_ids, &filled);
            if let Some(met) = partial {
                transaction.buy_order_ids.push(met.order_id);
            }
            let ghost tx = transaction@;
            if !transaction.buy_order_ids.is_empty() {
                order_book.completed_transactions.insert(transaction_id, transaction);
            }
            if quantity_left == 0 {
                order_book.completed_orders.push(order);
            } else {
                // what is left of the order rests on the book
                rest_in_levels(&mut order_book.sell_orders, LimitOrder { quantity: quantity_left, ..order });
            }
            proof {
                let s = sweep(book.buys, order.price as int, u64::MAX as int, order.quantity as nat, true);
                assert(tx.buy_order_ids =~= order_ids(s.filled) + optional_id(s.partial));
                assert(tx.sell_order_ids =~= seq![order.order_id]);
                assert(order_book@.transactions =~= sell_result(book, order, transaction_id).transactions);
                assert(filed_by_id(order_book@.transactions));
                assert(order_book@.completed =~= sell_result(book, order, transaction_id).completed);
            }
        },
        Side::Buy => {
            transaction.buy_order_ids.push(order.order_id);
            // the best sellers first: sell levels from the lowest price up to this order's
            let (quantity_left, partial) = sweep_levels(
                &mut order_book.sell_orders,
                0,
                order.price,
                starting_quantity,
                false,
                &mut filled,
            );
            complete_filled(&mut order_book.completed_orders, &mut transaction.sell_order_ids, &filled);
            if let Some(met) = partial {
                transaction.sell_order_ids.push(met.order_id);
            }
            let ghost tx = transaction@;
            if !transaction.sell_order_ids.is_empty() {
                order_book.completed_transactions.insert(transaction_id, transaction);
            }
            if quantity_left == 0 {
                order_book.completed_orders.push(order);
            } else {
                // what is left of the order rests on the book
                rest_in_levels(&mut order_book.buy_orders, LimitOrder { quantity: quantity_left, ..order });
            }
            proof {
                let s = sweep(book.sells, 0, order.price as int, order.quantity as nat, false);
                assert(tx.sell_order_ids =~= order_ids(s.filled) + optional_id(s.partial));
                assert(tx.buy_order_ids =~= seq![order.order_id]);
                assert(order_book@.transactions =~= buy_result(book, order, transaction_id).transactions);
                assert(filed_by_id(order_book@.transactions));
                assert(order_book@.completed =~= buy_result(book, order, transaction_id).completed);
            }
        },
    }
}

/// The levels of a side, lowest price first, each with its orders oldest first.
fn levels_ascending(levels: &Levels) -> (r: Vec<(u64, Vec<LimitOrder>)>)
    ensures
        forall|i: int, j: int| 0 <= i < j < r@.len() ==> r@[i].0 < r@[j].0,
        forall|i: int| 0 <= i < r@.len() ==> {
            &&& level_map(*levels).dom().contains(#[trigger] r@[i].0)
            &&& r@[i].1@ == level_orders(level_map(*levels))[r@[i].0]
        },
        forall|k: u64| #[trigger] level_map(*levels).dom().contains(k) ==> exists|i: int| 0 <= i < r@.len() && r@[i].0 == k,
{
    let ghost m = level_map(*levels);
    let mut r: Vec<(u64, Vec<LimitOrder>)> = Vec::new();
    let mut cursor: u64 = 0;
    loop
        invariant_except_break
            forall|k: u64| #[trigger] m.dom().contains(k) && k < cursor ==> exists|i: int| 0 <= i < r@.len() && r@[i].0 == k,
            forall|i: int| 0 <= i < r@.len() ==> r@[i].0 < cursor,
        invariant
            m == level_map(*levels),
            forall|i: int, j: int| 0 <= i < j < r@.len() ==> r@[i].0 < r@[j].0,
            forall|i: int| 0 <= i < r@.len() ==> {
                &&& m.dom().contains(#[trigger] r@[i].0)
                &&& r@[i].1@ == level_orders(m)[r@[i].0]
            },
        ensures
            forall|k: u64| #[trigger] m.dom().contains(k) ==> exists|i: int| 0 <= i < r@.len() && r@[i].0 == k,
        decreases u64::MAX - cursor,
    {
        let k = match levels_first_key_from(levels, cursor) {
            None => break,
            Some(k) => k,
        };
        let level = levels_get(levels, k).unwrap();
        let mut orders: Vec<LimitOrder> = Vec::new();
        let mut i: usize = 0;
        while i < level.orders.len()
            invariant
                i <= level.orders@.len(),
                orders@ == level.orders@.take(i as int),
            decreases level.orders@.len() - i,
        {
            orders.push(level.orders[i]);
            assert(level.orders@.take(i + 1) =~= level.orders@.take(i as int).push(level.orders@[i as int]));
            i = i + 1;
        }
        assert(level.orders@.take(i as int) =~= level.orders@);
        let ghost before = r@;
        r.push((k, orders));
        assert(r@[before.len() as int].0 == k);
        assert forall|j: u64| #[trigger] m.dom().contains(j) && j <= k implies exists|i: int| 0 <= i < r@.len() && r@[i].0 == j by {
            if j < cursor {
                let i = choose|i: int| 0 <= i < before.len() && before[i].0 == j;
                assert(r@[i] == before[i]);
            } else {
                assert(r@[before.len() as int].0 == j);
            }
        }
        if k == u64::MAX {
            break;
        }
        cursor = k + 1;
    }
    r
}

impl OrderBook {
    /// An empty book.
    pub fn new() -> (book: Self)
        ensures
            book.wf(),
            book@.buys == Map::<u64, Seq<LimitOrder>>::empty(),
            book@.sells == Map::<u64, Seq<LimitOrder>>::empty(),
            book@.transactions == Map::<u64, TransactionView>::empty(),
            book@.completed == Seq::<LimitOrder>::empty(),
    {
        let book = Self {
            buy_orders: levels_new(),
            sell_orders: levels_new(),
            completed_transactions: HashMap::new(),
            completed_orders: Vec::new(),
        };
        assert(book@.buys =~= Map::<u64, Seq<LimitOrder>>::empty());
        assert(book@.sells =~= Map::<u64, Seq<LimitOrder>>::empty());
        assert(book@.transactions =~= Map::<u64, TransactionView>::empty());
        book
    }

    /// The least id under which no transaction is recorded.
    fn unused_transaction_id(&self) -> (id: u64)
        ensures
            !self@.transactions.contains_key(id),
    {
        let ghost dom = self.completed_transactions@.dom();
        assert(self@.transactions.dom() =~= dom);
        proof {
            assert(dom.finite());
            assert(self.completed_transactions.len() == self.completed_transactions@.len());
        }
        let mut candidate: u64 = 0;
        let ghost mut tried: Set<u64> = Set::empty();
        while self.completed_transactions.contains_key(&candidate)
            invariant
                dom == self.completed_transactions@.dom(),
                dom.finite(),
                dom.len() <= usize::MAX,
                tried.finite(),
                tried.len() == candidate,
                forall|x: u64| tried.contains(x) <==> x < candidate,
                tried.subset_of(dom),
            decreases dom.len() - candidate,
        {
            proof {
                assert(!tried.contains(candidate));
                tried = tried.insert(candidate);
                vstd::set_lib::lemma_len_subset(tried, dom);
            }
            candidate = candidate + 1;
        }
        candidate
    }

    /// Adds `order` to the book, matching it first against the orders on the
    /// other side; the transaction this opens gets a randomly drawn id, or,
    /// where a transaction is already recorded under the drawn id, the least
    /// unused one, so that it never replaces a recorded transaction.
    pub fn add_order(&mut self, order: LimitOrder)
        requires
            old(self).wf(),
        ensures
            final(self).wf(),
            exists|transaction_id: u64|
                !old(self)@.transactions.contains_key(transaction_id)
                && final(self)@ == add_order_result(old(self)@, order, transaction_id),
    {
        let drawn = Transaction::new();
        let transaction = if self.completed_transactions.contains_key(&drawn.transaction_id) {
            Transaction::with_id(self.unused_transaction_id())
        } else {
            drawn
        };
        let ghost transaction_id = transaction.transaction_id;
        assert(!self@.transactions.contains_key(transaction_id));
        match_orders(self, order, transaction);
        assert(self@ == add_order_result(old(self)@, order, transaction_id));
    }

    /// Adds `order` to the book as `add_order` does, the transaction this
    /// opens having the given id.
    pub fn add_order_with_transaction_id(&mut self, order: LimitOrder, transaction_id: u64)
        requires
            old(self).wf(),
        ensures
            final(self).wf(),
            final(self)@ == add_order_result(old(self)@, order, transaction_id),
    {
        match_orders(self, order, Transaction::with_id(transaction_id));
    }

    /// The buy levels, lowest price first: each price with its orders, oldest first.
    pub fn buy_levels(&self) -> (r: Vec<(u64, Vec<LimitOrder>)>)
        ensures
            forall|i: int, j: int| 0 <= i < j < r@.len() ==> r@[i].0 < r@[j].0,
            forall|i: int| 0 <= i < r@.len() ==> {
                &&& self@.buys.dom().contains(#[trigger] r@[i].0)
                &&& r@[i].1@ == self@.buys[r@[i].0]
            },
            forall|k: u64| #[trigger] self@.buys.dom().contains(k) ==> exists|i: int| 0 <= i < r@.len() && r@[i].0 == k,
    {
        levels_ascending(&self.buy_orders)
    }

    /// The sell levels, lowest price first: each price with its orders, oldest first.
    pub fn sell_levels(&self) -> (r: Vec<(u64, Vec<LimitOrder>)>)
        ensures
            forall|i: int, j: int| 0 <= i < j < r@.len() ==> r@[i].0 < r@[j].0,
            forall|i: int| 0 <= i < r@.len() ==> {
                &&& self@.sells.dom().contains(#[trigger] r@[i].0)
                &&& r@[i].1@ == self@.sells[r@[i].0]
            },
            forall|k: u64| #[trigger] self@.sells.dom().contains(k) ==> exists|i: int| 0 <= i < r@.len() && r@[i].0 == k,
    {
        levels_ascending(&self.sell_orders)
    }

    /// The orders completed so far, in the order they were completed.
    pub fn completed_orders(&self) -> (r: &Vec<LimitOrder>)
        ensures
            r@ == self@.completed,
    {
        &self.completed_orders
    }

    /// The recorded transactions, by id.
    pub fn completed_transactions(&self) -> (r: &HashMap<u64, Transaction>)
        ensures
            r@.map_values(|t: Transaction| t@) == self@.transactions,
    {
        &self.completed_transactions
    }
}

impl Default for OrderBook {
    fn default() -> (book: Self)
        ensures
            book.wf(),
            book@.buys == Map::<u64, Seq<LimitOrder>>::empty(),
            book@.sells == Map::<u64, Seq<LimitOrder>>::empty(),
            book@.transactions == Map::<u64, TransactionView>::empty(),
            book@.completed == Seq::<LimitOrder>::empty(),
    {
        OrderBook::new()
    }
}

} // verus!
