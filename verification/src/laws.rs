//! Properties of matching that hold of every book and every incoming order.

use vstd::prelude::*;
use crate::order::LimitOrder;
use crate::side::Side;
use crate::matching::{
    BookView, TransactionView, fill_level, sweep, rest_order, with_quantity, add_order_result, sell_result, buy_result,
    order_ids, optional_id, filed_by_id,
    lemma_fill_level_left_means_emptied,
};

verus! {

/// `a` is the order `b`, its quantity possibly reduced by a partial fill.
pub open spec fn is_reduced(a: LimitOrder, b: LimitOrder) -> bool {
    &&& a.order_id == b.order_id
    &&& a.side == b.side
    &&& a.price == b.price
    &&& a.quantity <= b.quantity
}

/// `o` still stands in `queue`, its quantity possibly reduced.
pub open spec fn still_resting(o: LimitOrder, queue: Seq<LimitOrder>) -> bool {
    exists|j: int| 0 <= j < queue.len() && is_reduced(#[trigger] queue[j], o)
}

/// `a` is an order of `queue`, its quantity possibly reduced.
pub open spec fn came_from(a: LimitOrder, queue: Seq<LimitOrder>) -> bool {
    exists|i: int| 0 <= i < queue.len() && is_reduced(a, #[trigger] queue[i])
}

/// The total quantity of the orders of a queue.
pub open spec fn total_quantity(queue: Seq<LimitOrder>) -> nat
    decreases queue.len(),
{
    if queue.len() == 0 {
        0
    } else {
        queue[0].quantity as nat + total_quantity(queue.drop_first())
    }
}

/// The total quantity standing in the levels priced in `[lo, hi]`.
pub open spec fn quantity_in_range(levels: Map<u64, Seq<LimitOrder>>, lo: int, hi: int) -> nat
    decreases hi + 1 - lo,
{
    if lo > hi {
        0
    } else {
        (if levels.dom().contains(lo as u64) { total_quantity(levels[lo as u64]) } else { 0 })
            + quantity_in_range(levels, lo + 1, hi)
    }
}

/// The smaller of two quantities.
pub open spec fn min_quantity(a: nat, b: nat) -> nat {
    if a <= b { a } else { b }
}

/// Matching against a level takes orders off its front only: the orders
/// filled completely are the oldest ones; the order filled in part, if any,
/// is the next one, and it stays at the front with a smaller quantity; the
/// rest of the queue stays as it was, in order. What is matched is the
/// smaller of what came in and what the level holds.
pub proof fn lemma_fill_level_takes_oldest_first(queue: Seq<LimitOrder>, left: nat)
    ensures
        ({
            let f = fill_level(queue, left);
            let n = f.filled.len() as int;
            &&& n <= queue.len()
            &&& f.filled == queue.take(n)
            &&& f.partial is None ==> f.rest == queue.skip(n)
            &&& f.partial matches Some(o) ==> {
                &&& n < queue.len()
                &&& o == queue[n]
                &&& f.rest.len() > 0
                &&& f.rest == seq![with_quantity(o, f.rest[0].quantity)] + queue.skip(n + 1)
                &&& 0 < f.rest[0].quantity < o.quantity
            }
            &&& f.left > 0 ==> n == queue.len() && f.partial is None
            &&& f.left == left - min_quantity(left, total_quantity(queue))
        }),
    decreases queue.len(),
{
    let f = fill_level(queue, left);
    if left == 0 || queue.len() == 0 {
        assert(queue.take(0) =~= Seq::<LimitOrder>::empty());
        assert(queue.skip(0) =~= queue);
    } else if queue[0].quantity <= left {
        let tail = queue.drop_first();
        lemma_fill_level_takes_oldest_first(tail, (left - queue[0].quantity) as nat);
        let r = fill_level(tail, (left - queue[0].quantity) as nat);
        assert(f.filled =~= queue.take(f.filled.len() as int));
        assert(queue.skip(f.filled.len() as int) =~= tail.skip(r.filled.len() as int));
        if f.partial is Some {
            assert(queue.skip(f.filled.len() as int + 1) =~= tail.skip(r.filled.len() as int + 1));
        }
        if let Some(o) = f.partial {
            assert(o == tail[r.filled.len() as int]);
        }
    } else {
        assert(queue.take(0) =~= Seq::<LimitOrder>::empty());
        assert(queue.drop_first() =~= queue.skip(1));
        assert(total_quantity(queue) >= queue[0].quantity);
    }
}

/// No order of a level is lost to matching, and none is made up: each order
/// was filled completely or still stands, and each order that stands was
/// there before.
pub proof fn lemma_fill_level_keeps_orders(queue: Seq<LimitOrder>, left: nat)
    ensures
        ({
            let f = fill_level(queue, left);
            &&& forall|i: int| 0 <= i < queue.len() ==>
                f.filled.contains(#[trigger] queue[i]) || still_resting(queue[i], f.rest)
            &&& forall|j: int| 0 <= j < f.rest.len() ==> came_from(#[trigger] f.rest[j], queue)
        }),
{
    let f = fill_level(queue, left);
    lemma_fill_level_takes_oldest_first(queue, left);
    let n = f.filled.len() as int;
    assert forall|i: int| 0 <= i < queue.len() implies
        f.filled.contains(#[trigger] queue[i]) || still_resting(queue[i], f.rest) by {
        if i < n {
            assert(f.filled[i] == queue[i]);
        } else if f.partial is Some {
            if i == n {
                assert(is_reduced(f.rest[0], queue[i]));
            } else {
                assert(f.rest[i - n] == queue[i]);
                assert(is_reduced(f.rest[i - n], queue[i]));
            }
        } else {
            assert(f.rest[i - n] == queue[i]);
            assert(is_reduced(f.rest[i - n], queue[i]));
        }
    }
    assert forall|j: int| 0 <= j < f.rest.len() implies came_from(#[trigger] f.rest[j], queue) by {
        if f.partial is Some {
            if j == 0 {
                assert(is_reduced(f.rest[0], queue[n]));
            } else {
                assert(f.rest[j] == queue[n + j]);
                assert(is_reduced(f.rest[j], queue[n + j]));
            }
        } else {
            assert(f.rest[j] == queue[n + j]);
            assert(is_reduced(f.rest[j], queue[n + j]));
        }
    }
}

/// `o` stood in one of the levels priced in `[lo, hi]`.
pub open spec fn stood_in_range(levels: Map<u64, Seq<LimitOrder>>, lo: int, hi: int, o: LimitOrder) -> bool {
    exists|k: u64| levels.dom().contains(k) && lo <= k <= hi && #[trigger] levels[k].contains(o)
}

/// The level at `k` was changed or removed.
pub open spec fn touched(before: Map<u64, Seq<LimitOrder>>, after: Map<u64, Seq<LimitOrder>>, k: u64) -> bool {
    !(after.dom().contains(k) && after[k] == before[k])
}

/// What a sweep does to the levels: it leaves the levels outside its range
/// alone; where something of the incoming order is left, it has removed every
/// level of its range; every order of a level was filled completely or still
/// stands at its price, and every order standing afterwards stood there
/// before; it fills only orders of its range; and it touches a level only
/// after removing every level of a better price.
#[verifier::rlimit(80)]
#[verifier::spinoff_prover]
pub proof fn lemma_sweep_shape(levels: Map<u64, Seq<LimitOrder>>, lo: int, hi: int, left: nat, down: bool)
    requires
        0 <= lo,
        hi <= u64::MAX,
    ensures
        ({
            let s = sweep(levels, lo, hi, left, down);
            &&& s.levels.dom().subset_of(levels.dom())
            &&& forall|k: u64| #[trigger] levels.dom().contains(k) && (k < lo || k > hi) ==>
                s.levels.dom().contains(k) && s.levels[k] == levels[k]
            &&& s.left > 0 ==> forall|k: u64| #[trigger] levels.dom().contains(k) && lo <= k <= hi ==>
                !s.levels.dom().contains(k)
            &&& forall|k: u64, i: int| #[trigger] levels.dom().contains(k) && 0 <= i < levels[k].len() ==>
                s.filled.contains(#[trigger] levels[k][i]) || (s.levels.dom().contains(k) && still_resting(levels[k][i], s.levels[k]))
            &&& forall|k: u64, j: int| #[trigger] s.levels.dom().contains(k) && 0 <= j < s.levels[k].len() ==>
                came_from(#[trigger] s.levels[k][j], levels[k])
            &&& forall|i: int| 0 <= i < s.filled.len() ==> stood_in_range(levels, lo, hi, #[trigger] s.filled[i])
            &&& s.partial matches Some(o) ==> stood_in_range(levels, lo, hi, o)
            &&& forall|k1: u64, k2: u64|
                #![trigger touched(levels, s.levels, k1), levels.dom().contains(k2)]
                levels.dom().contains(k1) && levels.dom().contains(k2) && lo <= k1 <= hi && lo <= k2 <= hi
                    && (if down { k1 < k2 } else { k2 < k1 }) && touched(levels, s.levels, k1)
                    ==> !s.levels.dom().contains(k2)
        }),
    decreases hi + 1 - lo,
{
    let s = sweep(levels, lo, hi, left, down);
    if lo > hi || left == 0 {
    } else {
        let k = if down { hi } else { lo };
        let nlo = if down { lo } else { lo + 1 };
        let nhi = if down { hi - 1 } else { hi };
        if !levels.dom().contains(k as u64) {
            lemma_sweep_shape(levels, nlo, nhi, left, down);
            assert forall|i: int| 0 <= i < s.filled.len() implies stood_in_range(levels, lo, hi, #[trigger] s.filled[i]) by {
                assert(stood_in_range(levels, nlo, nhi, s.filled[i]));
                let j = choose|j: u64| levels.dom().contains(j) && nlo <= j <= nhi && #[trigger] levels[j].contains(s.filled[i]);
                assert(levels[j].contains(s.filled[i]));
            }
            if let Some(o) = s.partial {
                let j = choose|j: u64| levels.dom().contains(j) && nlo <= j <= nhi && #[trigger] levels[j].contains(o);
                assert(levels[j].contains(o));
            }
        } else {
            let kk = k as u64;
            let f = fill_level(levels[kk], left);
            lemma_fill_level_takes_oldest_first(levels[kk], left);
            lemma_fill_level_keeps_orders(levels[kk], left);
            let after = if f.rest.len() == 0 { levels.remove(kk) } else { levels.insert(kk, f.rest) };
            lemma_sweep_shape(after, nlo, nhi, f.left, down);
            let r = sweep(after, nlo, nhi, f.left, down);
            assert(s.levels == r.levels);
            assert(s.filled == f.filled + r.filled);
            assert forall|j: u64| #[trigger] levels.dom().contains(j) && j != kk implies
                after.dom().contains(j) && after[j] == levels[j] by {}
            // the level at k is beyond the rest of the sweep
            assert(f.rest.len() > 0 ==> r.levels.dom().contains(kk) && r.levels[kk] == f.rest);
            assert(f.rest.len() == 0 ==> !after.dom().contains(kk));
            assert(f.rest.len() == 0 ==> !r.levels.dom().contains(kk));
            assert forall|j: u64| #[trigger] levels.dom().contains(j) && (j < lo || j > hi) implies
                s.levels.dom().contains(j) && s.levels[j] == levels[j] by {
                assert(after.dom().contains(j) && after[j] == levels[j]);
            }
            assert forall|j: u64, i: int| #[trigger] levels.dom().contains(j) && 0 <= i < levels[j].len() implies
                s.filled.contains(#[trigger] levels[j][i]) || (s.levels.dom().contains(j) && still_resting(levels[j][i], s.levels[j])) by {
                if j == kk {
                    if f.filled.contains(levels[j][i]) {
                        let x = choose|x: int| 0 <= x < f.filled.len() && f.filled[x] == levels[j][i];
                        assert(s.filled[x] == levels[j][i]);
                    } else {
                        assert(still_resting(levels[j][i], f.rest));
                    }
                } else {
                    assert(after.dom().contains(j) && after[j] == levels[j]);
                    assert(after[j][i] == levels[j][i]);
                    if r.filled.contains(levels[j][i]) {
                        let x = choose|x: int| 0 <= x < r.filled.len() && r.filled[x] == levels[j][i];
                        assert(s.filled[f.filled.len() + x] == levels[j][i]);
                    }
                }
            }
            assert forall|j: u64, x: int| #[trigger] s.levels.dom().contains(j) && 0 <= x < s.levels[j].len() implies
                came_from(#[trigger] s.levels[j][x], levels[j]) by {
                if j == kk {
                    assert(came_from(f.rest[x], levels[kk]));
                } else {
                    assert(came_from(r.levels[j][x], after[j]));
                }
            }
            assert forall|i: int| 0 <= i < s.filled.len() implies stood_in_range(levels, lo, hi, #[trigger] s.filled[i]) by {
                if i < f.filled.len() {
                    assert(s.filled[i] == f.filled[i]);
                    assert(f.filled[i] == levels[kk][i]);
                    assert(levels[kk].contains(s.filled[i]));
                } else {
                    let o = r.filled[i - f.filled.len()];
                    assert(s.filled[i] == o);
                    assert(stood_in_range(after, nlo, nhi, o));
                    let j = choose|j: u64| after.dom().contains(j) && nlo <= j <= nhi && #[trigger] after[j].contains(o);
                    assert(after[j] == levels[j]);
                    assert(levels[j].contains(o));
                }
            }
            if let Some(o) = s.partial {
                if let Some(p) = f.partial {
                    assert(levels[kk][f.filled.len() as int] == o);
                    assert(levels[kk].contains(o));
                } else {
                    let j = choose|j: u64| after.dom().contains(j) && nlo <= j <= nhi && #[trigger] after[j].contains(o);
                    assert(after[j] == levels[j]);
                    assert(levels[j].contains(o));
                }
            }
            lemma_fill_level_left_means_emptied(levels[kk], left);
            if s.left > 0 {
                assert(r.left > 0);
                crate::matching::lemma_sweep_left_bounded(after, nlo, nhi, f.left, down);
                assert(f.left > 0);
            }
            assert forall|k1: u64, k2: u64|
                #![trigger touched(levels, s.levels, k1), levels.dom().contains(k2)]
                levels.dom().contains(k1) && levels.dom().contains(k2) && lo <= k1 <= hi && lo <= k2 <= hi
                    && (if down { k1 < k2 } else { k2 < k1 }) && touched(levels, s.levels, k1)
                    implies !s.levels.dom().contains(k2) by {
                if k1 != kk {
                    // k1 was touched by the rest of the sweep, which ran only because level k emptied
                    assert(after.dom().contains(k1) && after[k1] == levels[k1]);
                    assert(touched(after, r.levels, k1));
                    if f.left == 0 {
                        assert(r.levels == after);
                    }
                    assert(f.left > 0);
                    if k2 != kk {
                        assert(after.dom().contains(k2));
                    }
                }
            }
        }
    }
}

/// `quantity_in_range` taken from its top end.
pub proof fn lemma_quantity_in_range_from_top(levels: Map<u64, Seq<LimitOrder>>, lo: int, hi: int)
    requires
        0 <= lo <= hi <= u64::MAX,
    ensures
        quantity_in_range(levels, lo, hi) == quantity_in_range(levels, lo, hi - 1)
            + (if levels.dom().contains(hi as u64) { total_quantity(levels[hi as u64]) } else { 0 }),
    decreases hi - lo,
{
    assert(quantity_in_range(levels, hi + 1, hi) == 0);
    assert(quantity_in_range(levels, lo, lo - 1) == 0);
    if lo < hi {
        lemma_quantity_in_range_from_top(levels, lo + 1, hi);
    }
}

/// `quantity_in_range` reads only the levels of its range.
pub proof fn lemma_quantity_in_range_local(a: Map<u64, Seq<LimitOrder>>, b: Map<u64, Seq<LimitOrder>>, lo: int, hi: int)
    requires
        0 <= lo,
        hi <= u64::MAX,
        forall|k: u64| lo <= k <= hi ==> (a.dom().contains(k) <==> b.dom().contains(k)),
        forall|k: u64| lo <= k <= hi && #[trigger] a.dom().contains(k) ==> a[k] == b[k],
    ensures
        quantity_in_range(a, lo, hi) == quantity_in_range(b, lo, hi),
    decreases hi + 1 - lo,
{
    if lo <= hi {
        lemma_quantity_in_range_local(a, b, lo + 1, hi);
    }
}

/// A sweep matches the smaller of what came in and what its range holds.
pub proof fn lemma_sweep_matches_what_crosses(levels: Map<u64, Seq<LimitOrder>>, lo: int, hi: int, left: nat, down: bool)
    requires
        0 <= lo,
        hi <= u64::MAX,
    ensures
        sweep(levels, lo, hi, left, down).left == left - min_quantity(left, quantity_in_range(levels, lo, hi)),
    decreases hi + 1 - lo,
{
    if lo > hi || left == 0 {
    } else {
        let k = if down { hi } else { lo };
        let nlo = if down { lo } else { lo + 1 };
        let nhi = if down { hi - 1 } else { hi };
        if down {
            lemma_quantity_in_range_from_top(levels, lo, hi);
        }
        if !levels.dom().contains(k as u64) {
            lemma_sweep_matches_what_crosses(levels, nlo, nhi, left, down);
        } else {
            let kk = k as u64;
            let f = fill_level(levels[kk], left);
            lemma_fill_level_takes_oldest_first(levels[kk], left);
            let after = if f.rest.len() == 0 { levels.remove(kk) } else { levels.insert(kk, f.rest) };
            lemma_sweep_matches_what_crosses(after, nlo, nhi, f.left, down);
            lemma_quantity_in_range_local(after, levels, nlo, nhi);
        }
    }
}

/// Every order of `queue` is of `side`, at `price`, with a positive quantity.
pub open spec fn level_ok(queue: Seq<LimitOrder>, side: Side, price: u64) -> bool {
    forall|i: int| 0 <= i < queue.len() ==> {
        &&& (#[trigger] queue[i]).side == side
        &&& queue[i].price == price
        &&& queue[i].quantity > 0
    }
}

/// Every level of a side is nonempty and holds only orders of that side at
/// its own price, each with a positive quantity.
pub open spec fn side_ok(levels: Map<u64, Seq<LimitOrder>>, side: Side) -> bool {
    forall|k: u64| #[trigger] levels.dom().contains(k) ==> levels[k].len() > 0 && level_ok(levels[k], side, k)
}

/// Both sides of the book are as `side_ok` says.
pub open spec fn book_ok(book: BookView) -> bool {
    side_ok(book.buys, Side::Buy) && side_ok(book.sells, Side::Sell)
}

/// Every resting buy order is priced below every resting sell order.
pub open spec fn orders_uncrossed(book: BookView) -> bool {
    forall|b: u64, i: int, a: u64, j: int|
        #![trigger book.buys[b][i], book.sells[a][j]]
        book.buys.dom().contains(b) && 0 <= i < book.buys[b].len() && book.sells.dom().contains(a)
            && 0 <= j < book.sells[a].len() ==> book.buys[b][i].price < book.sells[a][j].price
}

/// Of a level's old queue `old`, the first `n` orders are among `filled`, and
/// what stands of the level afterwards (nothing where it is gone) is the rest
/// of the queue in its old order, its front possibly reduced.
pub open spec fn kept_in_order_at(old: Seq<LimitOrder>, present: bool, now: Seq<LimitOrder>, filled: Seq<LimitOrder>, n: int) -> bool {
    let survivors = if present { now } else { Seq::<LimitOrder>::empty() };
    &&& 0 <= n <= old.len()
    &&& survivors.len() == old.len() - n
    &&& survivors.len() > 0 ==> is_reduced(survivors[0], old[n]) && survivors.drop_first() == old.skip(n + 1)
    &&& forall|i: int| 0 <= i < n ==> filled.contains(#[trigger] old[i])
}

/// Some prefix of the old queue was filled and the rest stands in order.
pub open spec fn kept_in_order(old: Seq<LimitOrder>, present: bool, now: Seq<LimitOrder>, filled: Seq<LimitOrder>) -> bool {
    exists|n: int| kept_in_order_at(old, present, now, filled, n)
}

/// What a level loses to matching is what the incoming order loses, and a
/// good level stays good where it is not emptied.
pub proof fn lemma_fill_level_totals(queue: Seq<LimitOrder>, left: nat)
    ensures
        total_quantity(queue) == total_quantity(fill_level(queue, left).rest) + left - fill_level(queue, left).left,
        forall|side: Side, price: u64| level_ok(queue, side, price) ==> #[trigger] level_ok(fill_level(queue, left).rest, side, price),
    decreases queue.len(),
{
    let f = fill_level(queue, left);
    lemma_fill_level_takes_oldest_first(queue, left);
    if left == 0 || queue.len() == 0 {
    } else if queue[0].quantity <= left {
        let tail = queue.drop_first();
        lemma_fill_level_totals(tail, (left - queue[0].quantity) as nat);
        assert forall|side: Side, price: u64| level_ok(queue, side, price) implies #[trigger] level_ok(f.rest, side, price) by {
            assert forall|i: int| 0 <= i < tail.len() implies {
                &&& (#[trigger] tail[i]).side == side
                &&& tail[i].price == price
                &&& tail[i].quantity > 0
            } by {
                assert(tail[i] == queue[i + 1]);
            }
            assert(level_ok(tail, side, price));
        }
    } else {
        let tail = queue.drop_first();
        let front = with_quantity(queue[0], (queue[0].quantity - left) as u64);
        assert((seq![front] + tail).drop_first() =~= tail);
        assert((seq![front] + tail)[0] == front);
        assert forall|side: Side, price: u64| level_ok(queue, side, price) implies #[trigger] level_ok(f.rest, side, price) by {
            assert forall|i: int| 0 <= i < f.rest.len() implies {
                &&& (#[trigger] f.rest[i]).side == side
                &&& f.rest[i].price == price
                &&& f.rest[i].quantity > 0
            } by {
                if i > 0 {
                    assert(f.rest[i] == queue[i]);
                } else {
                    assert(queue[0].side == side);
                }
            }
        }
    }
}

/// A sweep changes only the levels of its range, and removes levels only.
pub proof fn lemma_sweep_frame(levels: Map<u64, Seq<LimitOrder>>, lo: int, hi: int, left: nat, down: bool)
    requires
        0 <= lo,
        hi <= u64::MAX,
    ensures
        sweep(levels, lo, hi, left, down).levels.dom().subset_of(levels.dom()),
        forall|k: u64| #[trigger] levels.dom().contains(k) && (k < lo || k > hi) ==>
            sweep(levels, lo, hi, left, down).levels.dom().contains(k)
            && sweep(levels, lo, hi, left, down).levels[k] == levels[k],
{
    lemma_sweep_shape(levels, lo, hi, left, down);
}

/// The quantity a sweep takes off the levels of its range is what the
/// incoming order loses.
#[verifier::rlimit(60)]
#[verifier::spinoff_prover]
pub proof fn lemma_sweep_totals(levels: Map<u64, Seq<LimitOrder>>, lo: int, hi: int, left: nat, down: bool)
    requires
        0 <= lo,
        hi <= u64::MAX,
    ensures
        quantity_in_range(levels, lo, hi) == quantity_in_range(sweep(levels, lo, hi, left, down).levels, lo, hi) + left
            - sweep(levels, lo, hi, left, down).left,
    decreases hi + 1 - lo,
{
    let s = sweep(levels, lo, hi, left, down);
    lemma_sweep_frame(levels, lo, hi, left, down);
    if lo > hi || left == 0 {
    } else {
        let k = if down { hi } else { lo };
        let nlo = if down { lo } else { lo + 1 };
        let nhi = if down { hi - 1 } else { hi };
        let kk = k as u64;
        if down {
            lemma_quantity_in_range_from_top(levels, lo, hi);
            lemma_quantity_in_range_from_top(s.levels, lo, hi);
        }
        if !levels.dom().contains(kk) {
            lemma_sweep_totals(levels, nlo, nhi, left, down);
            assert(!s.levels.dom().contains(kk));
        } else {
            let f = fill_level(levels[kk], left);
            lemma_fill_level_totals(levels[kk], left);
            let after = if f.rest.len() == 0 { levels.remove(kk) } else { levels.insert(kk, f.rest) };
            lemma_sweep_frame(after, nlo, nhi, f.left, down);
            lemma_sweep_totals(after, nlo, nhi, f.left, down);
            let r = sweep(after, nlo, nhi, f.left, down);
            assert(s.levels == r.levels);
            lemma_quantity_in_range_local(after, levels, nlo, nhi);
            if f.rest.len() > 0 {
                assert(after.dom().contains(kk));
                assert(r.levels.dom().contains(kk) && r.levels[kk] == f.rest);
            } else {
                assert(!r.levels.dom().contains(kk));
                assert(total_quantity(f.rest) == 0);
            }
        }
    }
}

/// A sweep keeps the levels of a side good.
#[verifier::rlimit(60)]
#[verifier::spinoff_prover]
pub proof fn lemma_sweep_keeps_side_ok(levels: Map<u64, Seq<LimitOrder>>, lo: int, hi: int, left: nat, down: bool, side: Side)
    requires
        0 <= lo,
        hi <= u64::MAX,
        side_ok(levels, side),
    ensures
        side_ok(sweep(levels, lo, hi, left, down).levels, side),
    decreases hi + 1 - lo,
{
    if lo > hi || left == 0 {
    } else {
        let k = if down { hi } else { lo };
        let nlo = if down { lo } else { lo + 1 };
        let nhi = if down { hi - 1 } else { hi };
        let kk = k as u64;
        if !levels.dom().contains(kk) {
            lemma_sweep_keeps_side_ok(levels, nlo, nhi, left, down, side);
        } else {
            let f = fill_level(levels[kk], left);
            lemma_fill_level_totals(levels[kk], left);
            assert(level_ok(levels[kk], side, kk));
            assert(level_ok(f.rest, side, kk));
            let after = if f.rest.len() == 0 { levels.remove(kk) } else { levels.insert(kk, f.rest) };
            assert forall|j: u64| #[trigger] after.dom().contains(j) implies after[j].len() > 0 && level_ok(after[j], side, j) by {
                if j != kk {
                    assert(levels.dom().contains(j));
                }
            }
            lemma_sweep_keeps_side_ok(after, nlo, nhi, f.left, down, side);
        }
    }
}

/// Matching against one level keeps it in order.
proof fn lemma_fill_level_keeps_order(queue: Seq<LimitOrder>, left: nat)
    ensures
        kept_in_order_at(queue, fill_level(queue, left).rest.len() > 0, fill_level(queue, left).rest,
            fill_level(queue, left).filled, fill_level(queue, left).filled.len() as int),
{
    let f = fill_level(queue, left);
    let n = f.filled.len() as int;
    lemma_fill_level_takes_oldest_first(queue, left);
    if f.rest.len() > 0 {
        assert(f.rest.drop_first() =~= queue.skip(n + 1));
        if f.partial is None {
            assert(f.rest[0] == queue[n]);
        }
    }
    assert forall|i: int| 0 <= i < n implies f.filled.contains(#[trigger] queue[i]) by {
        assert(f.filled[i] == queue[i]);
    }
}

/// What was filled stays filled when more is filled before or after it.
proof fn lemma_kept_in_order_more_filled(old: Seq<LimitOrder>, present: bool, now: Seq<LimitOrder>,
    filled: Seq<LimitOrder>, before: Seq<LimitOrder>, after: Seq<LimitOrder>, n: int)
    requires
        kept_in_order_at(old, present, now, filled, n),
    ensures
        kept_in_order_at(old, present, now, before + filled + after, n),
{
    let all = before + filled + after;
    assert forall|i: int| 0 <= i < n implies all.contains(#[trigger] old[i]) by {
        assert(filled.contains(old[i]));
        let x = choose|x: int| 0 <= x < filled.len() && filled[x] == old[i];
        assert(all[before.len() + x] == old[i]);
    }
}

/// A level left alone is kept in order, with nothing filled.
proof fn lemma_untouched_kept_in_order(old: Seq<LimitOrder>, filled: Seq<LimitOrder>)
    ensures
        kept_in_order_at(old, true, old, filled, 0),
{
    if old.len() > 0 {
        assert(old.drop_first() =~= old.skip(1));
    }
}

/// A sweep keeps each level in order: of its old queue some prefix was
/// filled, and what stands is the rest in its old order, front possibly reduced.
#[verifier::rlimit(80)]
#[verifier::spinoff_prover]
pub proof fn lemma_sweep_keeps_order(levels: Map<u64, Seq<LimitOrder>>, lo: int, hi: int, left: nat, down: bool)
    requires
        0 <= lo,
        hi <= u64::MAX,
    ensures
        ({
            let s = sweep(levels, lo, hi, left, down);
            forall|k: u64| #[trigger] levels.dom().contains(k) ==>
                kept_in_order(levels[k], s.levels.dom().contains(k), s.levels[k], s.filled)
        }),
    decreases hi + 1 - lo,
{
    let s = sweep(levels, lo, hi, left, down);
    if lo > hi || left == 0 {
        assert forall|k: u64| #[trigger] levels.dom().contains(k) implies
            kept_in_order(levels[k], s.levels.dom().contains(k), s.levels[k], s.filled) by {
            lemma_untouched_kept_in_order(levels[k], s.filled);
        }
    } else {
        let k = if down { hi } else { lo };
        let nlo = if down { lo } else { lo + 1 };
        let nhi = if down { hi - 1 } else { hi };
        let kk = k as u64;
        if !levels.dom().contains(kk) {
            lemma_sweep_keeps_order(levels, nlo, nhi, left, down);
        } else {
            let f = fill_level(levels[kk], left);
            let after = if f.rest.len() == 0 { levels.remove(kk) } else { levels.insert(kk, f.rest) };
            lemma_sweep_frame(after, nlo, nhi, f.left, down);
            lemma_sweep_keeps_order(after, nlo, nhi, f.left, down);
            let r = sweep(after, nlo, nhi, f.left, down);
            assert(s.levels == r.levels);
            assert(s.filled == f.filled + r.filled);
            assert forall|j: u64| #[trigger] levels.dom().contains(j) implies
                kept_in_order(levels[j], s.levels.dom().contains(j), s.levels[j], s.filled) by {
                if j == kk {
                    lemma_fill_level_keeps_order(levels[kk], left);
                    if f.rest.len() > 0 {
                        assert(after.dom().contains(kk));
                    }
                    lemma_kept_in_order_more_filled(levels[kk], f.rest.len() > 0, f.rest, f.filled,
                        Seq::empty(), r.filled, f.filled.len() as int);
                    assert(Seq::<LimitOrder>::empty() + f.filled + r.filled =~= s.filled);
                    assert(kept_in_order_at(levels[kk], s.levels.dom().contains(kk), s.levels[kk], s.filled, f.filled.len() as int));
                } else {
                    assert(after.dom().contains(j) && after[j] == levels[j]);
                    assert(kept_in_order(after[j], r.levels.dom().contains(j), r.levels[j], r.filled));
                    let n = choose|n: int| kept_in_order_at(after[j], r.levels.dom().contains(j), r.levels[j], r.filled, n);
                    lemma_kept_in_order_more_filled(levels[j], r.levels.dom().contains(j), r.levels[j], r.filled,
                        f.filled, Seq::empty(), n);
                    assert(f.filled + r.filled + Seq::<LimitOrder>::empty() =~= s.filled);
                    assert(kept_in_order_at(levels[j], s.levels.dom().contains(j), s.levels[j], s.filled, n));
                }
            }
        }
    }
}

/// No nonempty buy level is priced at or above a nonempty sell level.
pub open spec fn uncrossed(book: BookView) -> bool {
    forall|b: u64, a: u64|
        #![trigger book.buys[b], book.sells[a]]
        book.buys.dom().contains(b) && book.sells.dom().contains(a) && book.buys[b].len() > 0
            && book.sells[a].len() > 0 ==> b < a
}

/// The levels of the side that `order` trades against.
pub open spec fn opposite_levels(book: BookView, order: LimitOrder) -> Map<u64, Seq<LimitOrder>> {
    match order.side {
        Side::Sell => book.buys,
        Side::Buy => book.sells,
    }
}

/// The levels of the side that `order` joins.
pub open spec fn own_levels(book: BookView, order: LimitOrder) -> Map<u64, Seq<LimitOrder>> {
    match order.side {
        Side::Sell => book.sells,
        Side::Buy => book.buys,
    }
}

/// The lowest and highest prices that `order` may trade at.
pub open spec fn acceptable_low(order: LimitOrder) -> int {
    match order.side {
        Side::Sell => order.price as int,
        Side::Buy => 0,
    }
}

pub open spec fn acceptable_high(order: LimitOrder) -> int {
    match order.side {
        Side::Sell => u64::MAX as int,
        Side::Buy => order.price as int,
    }
}

/// The sweep that adding `order` makes.
pub open spec fn order_sweep(book: BookView, order: LimitOrder) -> crate::matching::Sweep {
    sweep(opposite_levels(book, order), acceptable_low(order), acceptable_high(order), order.quantity as nat,
        order.side == Side::Sell)
}

proof fn lemma_result_by_sweep(book: BookView, order: LimitOrder, transaction_id: u64)
    ensures
        ({
            let after = add_order_result(book, order, transaction_id);
            let s = order_sweep(book, order);
            &&& opposite_levels(after, order) == s.levels
            &&& own_levels(after, order) == (if s.left == 0 { own_levels(book, order) } else {
                rest_order(own_levels(book, order), with_quantity(order, s.left as u64)) })
            &&& after.completed == book.completed + s.filled + (if s.left == 0 { seq![order] } else { Seq::<LimitOrder>::empty() })
        }),
{
    match order.side {
        Side::Sell => { assert(add_order_result(book, order, transaction_id) == sell_result(book, order, transaction_id)); },
        Side::Buy => { assert(add_order_result(book, order, transaction_id) == buy_result(book, order, transaction_id)); },
    }
}

/// Adding an order never undoes a completion: the orders completed before
/// stay completed, in the same order, at the front of the completed orders.
pub proof fn lemma_completed_orders_only_grow(book: BookView, order: LimitOrder, transaction_id: u64)
    ensures
        ({
            let after = add_order_result(book, order, transaction_id);
            &&& after.completed.len() >= book.completed.len()
            &&& after.completed.take(book.completed.len() as int) == book.completed
        }),
{
    let after = add_order_result(book, order, transaction_id);
    lemma_result_by_sweep(book, order, transaction_id);
    assert(after.completed.take(book.completed.len() as int) =~= book.completed);
}

/// An incoming order trades only at its limit price or better: every order
/// that its arrival completes, but itself, and the order it fills in part,
/// stood on the other side at an acceptable price.
pub proof fn lemma_fills_respect_limit_price(book: BookView, order: LimitOrder, transaction_id: u64)
    ensures
        ({
            let after = add_order_result(book, order, transaction_id);
            let s = order_sweep(book, order);
            &&& forall|i: int| book.completed.len() <= i < after.completed.len() ==>
                #[trigger] after.completed[i] == order
                    || stood_in_range(opposite_levels(book, order), acceptable_low(order), acceptable_high(order), after.completed[i])
            &&& s.partial matches Some(o) ==> stood_in_range(opposite_levels(book, order), acceptable_low(order), acceptable_high(order), o)
        }),
{
    let after = add_order_result(book, order, transaction_id);
    let s = order_sweep(book, order);
    lemma_result_by_sweep(book, order, transaction_id);
    lemma_sweep_shape(opposite_levels(book, order), acceptable_low(order), acceptable_high(order), order.quantity as nat, order.side == Side::Sell);
    let n = book.completed.len();
    assert forall|i: int| n <= i < after.completed.len() implies
        #[trigger] after.completed[i] == order
            || stood_in_range(opposite_levels(book, order), acceptable_low(order), acceptable_high(order), after.completed[i]) by {
        if i < n + s.filled.len() {
            assert(after.completed[i] == s.filled[i - n]);
        } else {
            assert(after.completed[i] == order);
        }
    }
}

/// The best price is taken first: for a sell order, a buy level is touched
/// only once every higher-priced buy level it may trade with is gone; for a
/// buy order, a sell level is touched only once every lower-priced sell
/// level it may trade with is gone. Only levels at acceptable prices are
/// touched, levels are only ever removed from that side, and a level that is
/// gone had every one of its orders filled completely.
pub proof fn lemma_best_price_first(book: BookView, order: LimitOrder, transaction_id: u64)
    ensures
        ({
            let after_book = add_order_result(book, order, transaction_id);
            let before = opposite_levels(book, order);
            let after = opposite_levels(after_book, order);
            &&& forall|k1: u64, k2: u64|
                #![trigger touched(before, after, k1), before.dom().contains(k2)]
                before.dom().contains(k1) && before.dom().contains(k2)
                    && acceptable_low(order) <= k1 <= acceptable_high(order)
                    && acceptable_low(order) <= k2 <= acceptable_high(order)
                    && (if order.side == Side::Sell { k1 < k2 } else { k2 < k1 })
                    && touched(before, after, k1)
                    ==> !after.dom().contains(k2)
            &&& after.dom().subset_of(before.dom())
            &&& forall|k: u64| #[trigger] before.dom().contains(k) && touched(before, after, k) ==>
                acceptable_low(order) <= k <= acceptable_high(order)
            &&& forall|k: u64, i: int| #[trigger] before.dom().contains(k) && !after.dom().contains(k) && 0 <= i < before[k].len()
                ==> after_book.completed.contains(#[trigger] before[k][i])
        }),
{
    let after_book = add_order_result(book, order, transaction_id);
    let before = opposite_levels(book, order);
    let s = order_sweep(book, order);
    lemma_result_by_sweep(book, order, transaction_id);
    lemma_sweep_shape(before, acceptable_low(order), acceptable_high(order), order.quantity as nat, order.side == Side::Sell);
    let n = book.completed.len();
    assert forall|k: u64, i: int| #[trigger] before.dom().contains(k) && !s.levels.dom().contains(k) && 0 <= i < before[k].len()
        implies after_book.completed.contains(#[trigger] before[k][i]) by {
        assert(s.filled.contains(before[k][i]));
        let x = choose|x: int| 0 <= x < s.filled.len() && s.filled[x] == before[k][i];
        assert(after_book.completed[n + x] == before[k][i]);
    }
}

/// What is matched is the smaller of the order's quantity and what stands
/// on the other side at acceptable prices: the order is completed where that
/// covers it, and otherwise rests with exactly what is left of it.
pub proof fn lemma_matched_quantity(book: BookView, order: LimitOrder, transaction_id: u64)
    ensures
        ({
            let after = add_order_result(book, order, transaction_id);
            let crossing = quantity_in_range(opposite_levels(book, order), acceptable_low(order), acceptable_high(order));
            &&& crossing >= order.quantity ==> after.completed.last() == order
            &&& crossing < order.quantity ==> {
                &&& own_levels(after, order).dom().contains(order.price)
                &&& own_levels(after, order)[order.price].last() == with_quantity(order, (order.quantity - crossing) as u64)
            }
        }),
{
    lemma_result_by_sweep(book, order, transaction_id);
    lemma_sweep_matches_what_crosses(opposite_levels(book, order), acceptable_low(order), acceptable_high(order), order.quantity as nat, order.side == Side::Sell);
}

/// A book that is not crossed stays so when an order is added.
pub proof fn lemma_book_stays_uncrossed(book: BookView, order: LimitOrder, transaction_id: u64)
    requires
        uncrossed(book),
    ensures
        uncrossed(add_order_result(book, order, transaction_id)),
{
    let after = add_order_result(book, order, transaction_id);
    let s = order_sweep(book, order);
    lemma_result_by_sweep(book, order, transaction_id);
    lemma_sweep_shape(opposite_levels(book, order), acceptable_low(order), acceptable_high(order), order.quantity as nat, order.side == Side::Sell);
    let opp = opposite_levels(book, order);
    assert forall|k: u64| #[trigger] s.levels.dom().contains(k) && s.levels[k].len() > 0 implies opp[k].len() > 0 by {
        assert(came_from(s.levels[k][0], opp[k]));
    }
    match order.side {
        Side::Sell => {
            assert forall|b: u64, a: u64|
                after.buys.dom().contains(b) && after.sells.dom().contains(a) && #[trigger] after.buys[b].len() > 0
                    && #[trigger] after.sells[a].len() > 0 implies b < a by {
                assert(book.buys[b].len() > 0);
                if s.left > 0 && a == order.price {
                    assert(b < order.price);
                } else {
                    assert(after.sells[a] == book.sells[a]);
                    assert(book.buys[b].len() > 0 && book.sells[a].len() > 0);
                }
            }
        },
        Side::Buy => {
            assert forall|b: u64, a: u64|
                after.buys.dom().contains(b) && after.sells.dom().contains(a) && #[trigger] after.buys[b].len() > 0
                    && #[trigger] after.sells[a].len() > 0 implies b < a by {
                assert(book.sells[a].len() > 0);
                if s.left > 0 && b == order.price {
                    assert(order.price < a);
                } else {
                    assert(after.buys[b] == book.buys[b]);
                    assert(book.buys[b].len() > 0 && book.sells[a].len() > 0);
                }
            }
        },
    }
}

/// No resting order is lost: after an order is added, every order that
/// rested on either side was filled completely (and is among the completed
/// orders) or still rests at its price, its quantity possibly reduced.
pub proof fn lemma_no_resting_order_lost(book: BookView, order: LimitOrder, transaction_id: u64)
    ensures
        ({
            let after = add_order_result(book, order, transaction_id);
            &&& forall|k: u64, i: int| #[trigger] book.buys.dom().contains(k) && 0 <= i < book.buys[k].len() ==>
                after.completed.contains(#[trigger] book.buys[k][i])
                    || (after.buys.dom().contains(k) && still_resting(book.buys[k][i], after.buys[k]))
            &&& forall|k: u64, i: int| #[trigger] book.sells.dom().contains(k) && 0 <= i < book.sells[k].len() ==>
                after.completed.contains(#[trigger] book.sells[k][i])
                    || (after.sells.dom().contains(k) && still_resting(book.sells[k][i], after.sells[k]))
        }),
{
    let after = add_order_result(book, order, transaction_id);
    let s = order_sweep(book, order);
    lemma_result_by_sweep(book, order, transaction_id);
    lemma_sweep_shape(opposite_levels(book, order), acceptable_low(order), acceptable_high(order), order.quantity as nat, order.side == Side::Sell);
    let opp = opposite_levels(book, order);
    let own = own_levels(book, order);
    let n = book.completed.len();
    assert forall|k: u64, i: int| #[trigger] opp.dom().contains(k) && 0 <= i < opp[k].len() implies
        after.completed.contains(#[trigger] opp[k][i])
            || (opposite_levels(after, order).dom().contains(k) && still_resting(opp[k][i], opposite_levels(after, order)[k])) by {
        if s.filled.contains(opp[k][i]) {
            let x = choose|x: int| 0 <= x < s.filled.len() && s.filled[x] == opp[k][i];
            assert(after.completed[n + x] == opp[k][i]);
        }
    }
    assert forall|k: u64, i: int| #![trigger own[k][i]] own.dom().contains(k) && 0 <= i < own[k].len() implies
        own_levels(after, order).dom().contains(k) && still_resting(own[k][i], own_levels(after, order)[k]) by {
        let a = own_levels(after, order);
        assert(a[k][i] == own[k][i]);
        assert(is_reduced(a[k][i], own[k][i]));
    }
    match order.side {
        Side::Sell => {},
        Side::Buy => {},
    }
}

/// The book invents no order: after an order is added, every order resting
/// on either side is what is left of the incoming order, or an order that
/// rested at that price before, its quantity possibly reduced.
pub proof fn lemma_book_invents_no_orders(book: BookView, order: LimitOrder, transaction_id: u64)
    ensures
        ({
            let after = add_order_result(book, order, transaction_id);
            &&& forall|k: u64, j: int| #[trigger] after.buys.dom().contains(k) && 0 <= j < after.buys[k].len() ==>
                is_reduced(#[trigger] after.buys[k][j], order) || (book.buys.dom().contains(k) && came_from(after.buys[k][j], book.buys[k]))
            &&& forall|k: u64, j: int| #[trigger] after.sells.dom().contains(k) && 0 <= j < after.sells[k].len() ==>
                is_reduced(#[trigger] after.sells[k][j], order) || (book.sells.dom().contains(k) && came_from(after.sells[k][j], book.sells[k]))
        }),
{
    let after = add_order_result(book, order, transaction_id);
    let s = order_sweep(book, order);
    lemma_result_by_sweep(book, order, transaction_id);
    crate::matching::lemma_sweep_left_bounded(opposite_levels(book, order), acceptable_low(order), acceptable_high(order), order.quantity as nat, order.side == Side::Sell);
    lemma_sweep_shape(opposite_levels(book, order), acceptable_low(order), acceptable_high(order), order.quantity as nat, order.side == Side::Sell);
    let own = own_levels(book, order);
    let a = own_levels(after, order);
    assert forall|k: u64, j: int| #[trigger] a.dom().contains(k) && 0 <= j < a[k].len() implies
        is_reduced(#[trigger] a[k][j], order) || (own.dom().contains(k) && came_from(a[k][j], own[k])) by {
        if s.left > 0 && k == order.price && j == a[k].len() - 1 {
            assert(a[k][j] == with_quantity(order, s.left as u64));
        } else {
            assert(own.dom().contains(k));
            assert(a[k][j] == own[k][j]);
            assert(is_reduced(own[k][j], own[k][j]));
        }
    }
    match order.side {
        Side::Sell => {},
        Side::Buy => {},
    }
}

/// The side that `order` trades against, by name.
pub open spec fn opposite_side(order: LimitOrder) -> Side {
    match order.side {
        Side::Sell => Side::Buy,
        Side::Buy => Side::Sell,
    }
}

/// Some order resting in `levels` has the id `id`.
pub open spec fn id_rests(levels: Map<u64, Seq<LimitOrder>>, id: u64) -> bool {
    exists|k: u64, i: int| levels.dom().contains(k) && 0 <= i < levels[k].len() && (#[trigger] levels[k][i]).order_id == id
}

/// The quantity that adding `order` takes off the resting orders it meets.
pub open spec fn matched_quantity(book: BookView, order: LimitOrder) -> nat {
    min_quantity(order.quantity as nat, quantity_in_range(opposite_levels(book, order), acceptable_low(order), acceptable_high(order)))
}

/// The book stays well formed: no level is left empty, and every resting
/// order has its level's side and price and a positive quantity.
pub proof fn lemma_book_stays_well_formed(book: BookView, order: LimitOrder, transaction_id: u64)
    requires
        book_ok(book),
    ensures
        book_ok(add_order_result(book, order, transaction_id)),
{
    let after = add_order_result(book, order, transaction_id);
    let s = order_sweep(book, order);
    lemma_result_by_sweep(book, order, transaction_id);
    lemma_sweep_keeps_side_ok(opposite_levels(book, order), acceptable_low(order), acceptable_high(order),
        order.quantity as nat, order.side == Side::Sell, opposite_side(order));
    crate::matching::lemma_sweep_left_bounded(opposite_levels(book, order), acceptable_low(order), acceptable_high(order),
        order.quantity as nat, order.side == Side::Sell);
    let own = own_levels(book, order);
    let a = own_levels(after, order);
    assert(side_ok(own, order.side));
    if s.left > 0 {
        let rest = with_quantity(order, s.left as u64);
        assert forall|k: u64| #[trigger] a.dom().contains(k) implies a[k].len() > 0 && level_ok(a[k], order.side, k) by {
            if k == order.price {
                assert forall|i: int| 0 <= i < a[k].len() implies {
                    &&& (#[trigger] a[k][i]).side == order.side
                    &&& a[k][i].price == k
                    &&& a[k][i].quantity > 0
                } by {
                    if own.dom().contains(k) {
                        assert(level_ok(own[k], order.side, k));
                    }
                    if i < a[k].len() - 1 {
                        assert(a[k][i] == own[k][i]);
                    } else {
                        assert(a[k][i] == rest);
                    }
                }
            }
        }
        assert(side_ok(a, order.side));
    }
    match order.side {
        Side::Sell => {},
        Side::Buy => {},
    }
}

/// In a well-formed book, the prices of the resting orders are those of
/// their levels, so the book is uncrossed by order prices exactly when it is
/// by level prices.
proof fn lemma_orders_uncrossed_iff(book: BookView)
    requires
        book_ok(book),
    ensures
        orders_uncrossed(book) <==> uncrossed(book),
{
    if orders_uncrossed(book) {
        assert forall|b: u64, a: u64|
            book.buys.dom().contains(b) && book.sells.dom().contains(a) && #[trigger] book.buys[b].len() > 0
                && #[trigger] book.sells[a].len() > 0 implies b < a by {
            assert(level_ok(book.buys[b], Side::Buy, b));
            assert(level_ok(book.sells[a], Side::Sell, a));
            assert(book.buys[b][0].price < book.sells[a][0].price);
        }
    }
    if uncrossed(book) {
        assert forall|b: u64, i: int, a: u64, j: int|
            book.buys.dom().contains(b) && 0 <= i < book.buys[b].len() && book.sells.dom().contains(a)
                && 0 <= j < book.sells[a].len() implies #[trigger] book.buys[b][i].price < #[trigger] book.sells[a][j].price by {
            assert(level_ok(book.buys[b], Side::Buy, b));
            assert(level_ok(book.sells[a], Side::Sell, a));
            assert(book.buys[b].len() > 0 && book.sells[a].len() > 0);
        }
    }
}

/// In a well-formed book, no resting buy order is priced at or above a
/// resting sell order, and adding an order keeps it so.
pub proof fn lemma_orders_stay_uncrossed(book: BookView, order: LimitOrder, transaction_id: u64)
    requires
        book_ok(book),
        orders_uncrossed(book),
    ensures
        orders_uncrossed(add_order_result(book, order, transaction_id)),
{
    lemma_orders_uncrossed_iff(book);
    lemma_book_stays_uncrossed(book, order, transaction_id);
    lemma_book_stays_well_formed(book, order, transaction_id);
    lemma_orders_uncrossed_iff(add_order_result(book, order, transaction_id));
}

/// Orders within a level keep their order: of every level of the other side,
/// a prefix of its old queue was filled (and those orders are completed),
/// and what stands of it is the rest of the queue in its old order, its
/// front possibly reduced.
pub proof fn lemma_levels_keep_their_order(book: BookView, order: LimitOrder, transaction_id: u64)
    ensures
        ({
            let after = add_order_result(book, order, transaction_id);
            let before = opposite_levels(book, order);
            let now = opposite_levels(after, order);
            forall|k: u64| #[trigger] before.dom().contains(k) ==>
                kept_in_order(before[k], now.dom().contains(k), now[k], after.completed)
        }),
{
    let after = add_order_result(book, order, transaction_id);
    let s = order_sweep(book, order);
    let before = opposite_levels(book, order);
    lemma_result_by_sweep(book, order, transaction_id);
    lemma_sweep_keeps_order(before, acceptable_low(order), acceptable_high(order), order.quantity as nat, order.side == Side::Sell);
    let tail = if s.left == 0 { seq![order] } else { Seq::<LimitOrder>::empty() };
    assert(after.completed == book.completed + s.filled + tail);
    assert forall|k: u64| #[trigger] before.dom().contains(k) implies
        kept_in_order(before[k], s.levels.dom().contains(k), s.levels[k], after.completed) by {
        let n = choose|n: int| kept_in_order_at(before[k], s.levels.dom().contains(k), s.levels[k], s.filled, n);
        lemma_kept_in_order_more_filled(before[k], s.levels.dom().contains(k), s.levels[k], s.filled, book.completed, tail, n);
    }
}

/// Quantity is conserved: what the incoming order takes off the resting
/// orders it may trade with is the smaller of its quantity and what they
/// hold, and every other level of that side is left as it was; on its own
/// side, what is left of it (where anything is) is added at the back of the
/// level at its price and every other level and order stays as it was;
/// where nothing is left of it, its own side is unchanged and, its id being
/// new, it rests nowhere.
pub proof fn lemma_quantity_conserved(book: BookView, order: LimitOrder, transaction_id: u64)
    ensures
        ({
            let after = add_order_result(book, order, transaction_id);
            let before = opposite_levels(book, order);
            let now = opposite_levels(after, order);
            let own = own_levels(book, order);
            let own_now = own_levels(after, order);
            let lo = acceptable_low(order);
            let hi = acceptable_high(order);
            let m = matched_quantity(book, order);
            &&& quantity_in_range(before, lo, hi) == quantity_in_range(now, lo, hi) + m
            &&& now.dom().subset_of(before.dom())
            &&& forall|k: u64| #[trigger] before.dom().contains(k) && (k < lo || k > hi) ==>
                now.dom().contains(k) && now[k] == before[k]
            &&& m < order.quantity ==> {
                &&& own_now.dom() == own.dom().insert(order.price)
                &&& forall|k: u64| #[trigger] own.dom().contains(k) && k != order.price ==> own_now[k] == own[k]
                &&& own_now[order.price] == (if own.dom().contains(order.price) { own[order.price] } else { Seq::empty() })
                    .push(with_quantity(order, (order.quantity - m) as u64))
            }
            &&& m == order.quantity ==> {
                &&& own_now == own
                &&& after.completed.last() == order
                &&& (!id_rests(book.buys, order.order_id) && !id_rests(book.sells, order.order_id)) ==>
                    !id_rests(after.buys, order.order_id) && !id_rests(after.sells, order.order_id)
            }
        }),
{
    let after = add_order_result(book, order, transaction_id);
    let s = order_sweep(book, order);
    let before = opposite_levels(book, order);
    let lo = acceptable_low(order);
    let hi = acceptable_high(order);
    let down = order.side == Side::Sell;
    lemma_result_by_sweep(book, order, transaction_id);
    lemma_sweep_totals(before, lo, hi, order.quantity as nat, down);
    lemma_sweep_matches_what_crosses(before, lo, hi, order.quantity as nat, down);
    lemma_sweep_frame(before, lo, hi, order.quantity as nat, down);
    lemma_sweep_shape(before, lo, hi, order.quantity as nat, down);
    let own = own_levels(book, order);
    let own_now = own_levels(after, order);
    if s.left > 0 {
        assert(own_now.dom() =~= own.dom().insert(order.price));
    } else {
        let now = opposite_levels(after, order);
        if !id_rests(book.buys, order.order_id) && !id_rests(book.sells, order.order_id) {
            assert(!id_rests(before, order.order_id));
            assert forall|k: u64, j: int| now.dom().contains(k) && 0 <= j < now[k].len() implies
                (#[trigger] now[k][j]).order_id != order.order_id by {
                assert(came_from(now[k][j], before[k]));
                let i = choose|i: int| 0 <= i < before[k].len() && is_reduced(now[k][j], #[trigger] before[k][i]);
                assert(before[k][i].order_id != order.order_id);
            }
            assert(!id_rests(now, order.order_id));
        }
    }
    match order.side {
        Side::Sell => {},
        Side::Buy => {},
    }
}

/// The total quantity of two queues one after the other.
proof fn lemma_total_quantity_concat(a: Seq<LimitOrder>, b: Seq<LimitOrder>)
    ensures
        total_quantity(a + b) == total_quantity(a) + total_quantity(b),
    decreases a.len(),
{
    if a.len() > 0 {
        assert((a + b).drop_first() =~= a.drop_first() + b);
        lemma_total_quantity_concat(a.drop_first(), b);
    } else {
        assert(a + b =~= b);
    }
}

/// A queue of orders with positive quantities holds a positive quantity.
proof fn lemma_total_quantity_positive(q: Seq<LimitOrder>)
    requires
        q.len() > 0,
        q[0].quantity > 0,
    ensures
        total_quantity(q) > 0,
{
}

/// What matching against a level takes from the incoming order is the
/// quantity of the orders it filled completely, and more where it filled one
/// in part.
proof fn lemma_fill_level_accounting(queue: Seq<LimitOrder>, left: nat)
    ensures
        fill_level(queue, left).left <= left,
        fill_level(queue, left).partial is None ==>
            left - fill_level(queue, left).left == total_quantity(fill_level(queue, left).filled),
        fill_level(queue, left).partial is Some ==> {
            &&& fill_level(queue, left).left == 0
            &&& left > total_quantity(fill_level(queue, left).filled)
        },
    decreases queue.len(),
{
    let f = fill_level(queue, left);
    if left == 0 || queue.len() == 0 {
    } else if queue[0].quantity <= left {
        let tail = queue.drop_first();
        lemma_fill_level_accounting(tail, (left - queue[0].quantity) as nat);
        let r = fill_level(tail, (left - queue[0].quantity) as nat);
        lemma_total_quantity_concat(seq![queue[0]], r.filled);
        assert(seq![queue[0]].drop_first() =~= Seq::<LimitOrder>::empty());
        assert(total_quantity(Seq::<LimitOrder>::empty()) == 0);
        assert(total_quantity(seq![queue[0]]) == queue[0].quantity + total_quantity(seq![queue[0]].drop_first()));
    }
}

/// What a sweep takes from the incoming order is the quantity of the orders
/// it filled completely, and more where it filled one in part; and the order
/// filled in part stood in a level of its range that still stands, led by
/// that order with a smaller quantity.
#[verifier::rlimit(60)]
#[verifier::spinoff_prover]
pub proof fn lemma_sweep_accounting(levels: Map<u64, Seq<LimitOrder>>, lo: int, hi: int, left: nat, down: bool)
    requires
        0 <= lo,
        hi <= u64::MAX,
    ensures
        ({
            let s = sweep(levels, lo, hi, left, down);
            &&& s.left <= left
            &&& s.partial is None ==> left - s.left == total_quantity(s.filled)
            &&& s.partial is Some ==> s.left == 0 && left > total_quantity(s.filled)
            &&& s.partial matches Some(o) ==> exists|k: u64| {
                &&& levels.dom().contains(k)
                &&& lo <= k <= hi
                &&& #[trigger] levels[k].contains(o)
                &&& s.levels.dom().contains(k)
                &&& s.levels[k].len() > 0
                &&& s.levels[k][0] == with_quantity(o, s.levels[k][0].quantity)
                &&& s.levels[k][0].quantity < o.quantity
            }
        }),
    decreases hi + 1 - lo,
{
    let s = sweep(levels, lo, hi, left, down);
    if lo > hi || left == 0 {
        assert(total_quantity(Seq::<LimitOrder>::empty()) == 0);
    } else {
        let k = if down { hi } else { lo };
        let nlo = if down { lo } else { lo + 1 };
        let nhi = if down { hi - 1 } else { hi };
        let kk = k as u64;
        if !levels.dom().contains(kk) {
            lemma_sweep_accounting(levels, nlo, nhi, left, down);
            if let Some(o) = s.partial {
                let j = choose|j: u64| {
                    &&& levels.dom().contains(j)
                    &&& nlo <= j <= nhi
                    &&& #[trigger] levels[j].contains(o)
                    &&& s.levels.dom().contains(j)
                    &&& s.levels[j].len() > 0
                    &&& s.levels[j][0] == with_quantity(o, s.levels[j][0].quantity)
                    &&& s.levels[j][0].quantity < o.quantity
                };
                assert(levels[j].contains(o));
            }
        } else {
            let f = fill_level(levels[kk], left);
            lemma_fill_level_accounting(levels[kk], left);
            lemma_fill_level_takes_oldest_first(levels[kk], left);
            let after = if f.rest.len() == 0 { levels.remove(kk) } else { levels.insert(kk, f.rest) };
            lemma_sweep_frame(after, nlo, nhi, f.left, down);
            lemma_sweep_accounting(after, nlo, nhi, f.left, down);
            let r = sweep(after, nlo, nhi, f.left, down);
            assert(s.filled == f.filled + r.filled);
            lemma_total_quantity_concat(f.filled, r.filled);
            if let Some(o) = f.partial {
                assert(r.filled =~= Seq::<LimitOrder>::empty());
                assert(total_quantity(r.filled) == 0);
                assert(after.dom().contains(kk));
                assert(r.levels.dom().contains(kk) && r.levels[kk] == f.rest);
                assert(levels[kk][f.filled.len() as int] == o);
                assert(levels[kk].contains(o));
            } else if let Some(o) = r.partial {
                let j = choose|j: u64| {
                    &&& after.dom().contains(j)
                    &&& nlo <= j <= nhi
                    &&& #[trigger] after[j].contains(o)
                    &&& r.levels.dom().contains(j)
                    &&& r.levels[j].len() > 0
                    &&& r.levels[j][0] == with_quantity(o, r.levels[j][0].quantity)
                    &&& r.levels[j][0].quantity < o.quantity
                };
                assert(after[j] == levels[j]);
                assert(levels[j].contains(o));
            }
        }
    }
}

/// The ids a transaction lists on the incoming order's own side.
pub open spec fn own_ids(tx: TransactionView, order: LimitOrder) -> Seq<u64> {
    match order.side {
        Side::Sell => tx.sell_order_ids,
        Side::Buy => tx.buy_order_ids,
    }
}

/// The ids a transaction lists on the side the incoming order trades against.
pub open spec fn counter_ids(tx: TransactionView, order: LimitOrder) -> Seq<u64> {
    match order.side {
        Side::Sell => tx.buy_order_ids,
        Side::Buy => tx.sell_order_ids,
    }
}

/// The orders that adding `order` completes, but itself, in completion order.
pub open spec fn completed_counterparts(book: BookView, order: LimitOrder, transaction_id: u64) -> Seq<LimitOrder> {
    let c = add_order_result(book, order, transaction_id).completed.skip(book.completed.len() as int);
    if matched_quantity(book, order) == order.quantity { c.drop_last() } else { c }
}

/// In a well-formed book, adding an order records a transaction exactly when
/// it trades: where nothing is matched the transactions are unchanged;
/// otherwise one transaction is filed under the given id, carrying that id,
/// naming the incoming order on its own side and, on the other side, every
/// order it completed in the order they were completed, followed by the order
/// it filled in part where the matched quantity exceeds what those completed
/// orders held; that last order still rests at its level, at the front, with
/// a smaller quantity. No other transaction changes.
pub proof fn lemma_transaction_names_every_order_met(book: BookView, order: LimitOrder, transaction_id: u64)
    requires
        book_ok(book),
    ensures
        ({
            let after = add_order_result(book, order, transaction_id);
            let m = matched_quantity(book, order);
            let others = completed_counterparts(book, order, transaction_id);
            let tx = after.transactions[transaction_id];
            let before_levels = opposite_levels(book, order);
            let after_levels = opposite_levels(after, order);
            &&& m == 0 ==> after.transactions == book.transactions
            &&& m > 0 ==> {
                &&& after.transactions == book.transactions.insert(transaction_id, tx)
                &&& tx.transaction_id == transaction_id
                &&& own_ids(tx, order) == seq![order.order_id]
                &&& counter_ids(tx, order).len() == others.len() + (if m > total_quantity(others) { 1int } else { 0int })
                &&& counter_ids(tx, order).take(others.len() as int) == order_ids(others)
                &&& m > total_quantity(others) ==> exists|k: u64, i: int| {
                    &&& before_levels.dom().contains(k)
                    &&& 0 <= i < before_levels[k].len()
                    &&& (#[trigger] before_levels[k][i]).order_id == counter_ids(tx, order).last()
                    &&& after_levels.dom().contains(k)
                    &&& after_levels[k].len() > 0
                    &&& after_levels[k][0] == with_quantity(before_levels[k][i], after_levels[k][0].quantity)
                    &&& after_levels[k][0].quantity < before_levels[k][i].quantity
                }
            }
        }),
{
    let after = add_order_result(book, order, transaction_id);
    let s = order_sweep(book, order);
    let before_levels = opposite_levels(book, order);
    let lo = acceptable_low(order);
    let hi = acceptable_high(order);
    let down = order.side == Side::Sell;
    lemma_result_by_sweep(book, order, transaction_id);
    lemma_sweep_accounting(before_levels, lo, hi, order.quantity as nat, down);
    lemma_sweep_matches_what_crosses(before_levels, lo, hi, order.quantity as nat, down);
    lemma_sweep_shape(before_levels, lo, hi, order.quantity as nat, down);
    let m = matched_quantity(book, order);
    assert(m == order.quantity - s.left);
    let c = after.completed.skip(book.completed.len() as int);
    let others = completed_counterparts(book, order, transaction_id);
    if s.left == 0 {
        assert(c =~= s.filled.push(order));
        assert(c.drop_last() =~= s.filled);
    } else {
        assert(c =~= s.filled);
    }
    assert(others == s.filled);
    // a completed order of a good book had a positive quantity
    if s.filled.len() > 0 {
        assert(stood_in_range(before_levels, lo, hi, s.filled[0]));
        let k = choose|k: u64| before_levels.dom().contains(k) && lo <= k <= hi && #[trigger] before_levels[k].contains(s.filled[0]);
        let opp_side = opposite_side(order);
        assert(side_ok(before_levels, opp_side)) by {
            match order.side {
                Side::Sell => {},
                Side::Buy => {},
            }
        }
        assert(level_ok(before_levels[k], opp_side, k));
        lemma_total_quantity_positive(s.filled);
    }
    let met = order_ids(s.filled) + optional_id(s.partial);
    assert(met.len() > 0 <==> m > 0);
    assert(met.take(s.filled.len() as int) =~= order_ids(s.filled));
    if let Some(o) = s.partial {
        assert(met.last() == o.order_id);
        let k = choose|k: u64| {
            &&& before_levels.dom().contains(k)
            &&& lo <= k <= hi
            &&& #[trigger] before_levels[k].contains(o)
            &&& s.levels.dom().contains(k)
            &&& s.levels[k].len() > 0
            &&& s.levels[k][0] == with_quantity(o, s.levels[k][0].quantity)
            &&& s.levels[k][0].quantity < o.quantity
        };
        let i = choose|i: int| 0 <= i < before_levels[k].len() && before_levels[k][i] == o;
        assert(before_levels[k][i].order_id == met.last());
    }
    match order.side {
        Side::Sell => {
            assert(after == sell_result(book, order, transaction_id));
        },
        Side::Buy => {
            assert(after == buy_result(book, order, transaction_id));
        },
    }
}

/// Every recorded transaction is filed under its own id, and adding an order
/// keeps it so.
pub proof fn lemma_transactions_filed_under_their_ids(book: BookView, order: LimitOrder, transaction_id: u64)
    requires
        filed_by_id(book.transactions),
    ensures
        filed_by_id(add_order_result(book, order, transaction_id).transactions),
{
    let after = add_order_result(book, order, transaction_id);
    match order.side {
        Side::Sell => { assert(after == sell_result(book, order, transaction_id)); },
        Side::Buy => { assert(after == buy_result(book, order, transaction_id)); },
    }
}

/// Under an id not used before, an order that trades adds exactly one
/// transaction and replaces none; one that does not trade adds none.
pub proof fn lemma_each_trade_adds_one_transaction(book: BookView, order: LimitOrder, transaction_id: u64)
    requires
        book_ok(book),
        book.transactions.dom().finite(),
        !book.transactions.contains_key(transaction_id),
    ensures
        ({
            let after = add_order_result(book, order, transaction_id);
            &&& forall|k: u64| #[trigger] book.transactions.contains_key(k) ==>
                after.transactions.contains_key(k) && after.transactions[k] == book.transactions[k]
            &&& matched_quantity(book, order) > 0 ==> {
                &&& after.transactions.dom() == book.transactions.dom().insert(transaction_id)
                &&& after.transactions.len() == book.transactions.len() + 1
            }
            &&& matched_quantity(book, order) == 0 ==> after.transactions == book.transactions
        }),
{
    lemma_transaction_names_every_order_met(book, order, transaction_id);
    let after = add_order_result(book, order, transaction_id);
    if matched_quantity(book, order) > 0 {
        assert(after.transactions.dom() =~= book.transactions.dom().insert(transaction_id));
    }
}

} // verus!
