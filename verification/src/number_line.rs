//! The number line: a table of price queues, each queue in the slot of its
//! price modulo the table's capacity and linked to the queues of the nearest
//! prices below and above it; head and tail name the lowest and highest
//! prices held. Where two prices would share a slot, the table grows.

use vstd::prelude::*;
use std::collections::VecDeque;

verus! {

/// One entry: an order id, its price and the number of items at that price.
#[derive(Debug)]
pub struct LineItem {
    pub id: u64,
    pub value: u64,
    pub count: u64,
}

/// The entries at one price, oldest first, with the prices of the queues
/// next above and next below it on the line.
#[derive(Debug)]
pub struct LineItemQueue {
    pub value: u64,
    pub queue: VecDeque<LineItem>,
    pub next_queue: Option<u64>,
    pub prev_queue: Option<u64>,
}

/// A table of queues, one slot per price modulo `capacity`; `head` and `tail`
/// are the lowest and highest prices held, and `size` the number of
/// occupied slots.
#[derive(Debug)]
pub struct NumberLine {
    pub head: Option<u64>,
    pub tail: Option<u64>,
    pub items: Vec<Option<LineItemQueue>>,
    pub size: usize,
    pub capacity: usize,
}

pub const DEFAULT_INIT_CAPACITY: usize = 100;

impl LineItem {
    /// Reduce the count of items.
    pub fn reduce(&mut self, count: u64)
        requires
            count <= old(self).count,
        ensures
            final(self).count == old(self).count - count,
            final(self).id == old(self).id,
            final(self).value == old(self).value,
    {
        self.count = self.count - count;
    }
}

impl LineItemQueue {
    /// A queue holding just `line_item`, at its price.
    pub fn new(line_item: LineItem) -> (q: LineItemQueue)
        ensures
            q.value == line_item.value,
            q.queue@ == seq![line_item],
            q.next_queue is None,
            q.prev_queue is None,
    {
        let mut res = LineItemQueue {
            value: line_item.value,
            queue: VecDeque::new(),
            next_queue: None,
            prev_queue: None,
        };
        res.queue.push_front(line_item);
        assert(res.queue@ =~= seq![line_item]);
        res
    }

    /// Adds `line_item` at the back of the queue.
    pub fn add(&mut self, line_item: LineItem)
        ensures
            final(self).queue@ == old(self).queue@.push(line_item),
            final(self).value == old(self).value,
            final(self).next_queue == old(self).next_queue,
            final(self).prev_queue == old(self).prev_queue,
    {
        self.queue.push_back(line_item);
    }

    /// Takes the oldest entry off the queue.
    pub fn pop(&mut self) -> (r: Option<LineItem>)
        ensures
            old(self).queue@.len() == 0 ==> r is None && final(self).queue@ == old(self).queue@,
            old(self).queue@.len() > 0 ==> r == Some(old(self).queue@[0]) && final(self).queue@ == old(self).queue@.drop_first(),
            final(self).value == old(self).value,
            final(self).next_queue == old(self).next_queue,
            final(self).prev_queue == old(self).prev_queue,
    {
        self.queue.pop_front()
    }
}

/// The lowest price of `prices` at `from` or above.
pub open spec fn first_price_from(prices: Set<u64>, from: int) -> Option<u64>
    decreases u64::MAX + 1 - from,
{
    if from < 0 || from > u64::MAX {
        None
    } else if prices.contains(from as u64) {
        Some(from as u64)
    } else {
        first_price_from(prices, from + 1)
    }
}

/// The highest price of `prices` at `upto` or below.
pub open spec fn last_price_upto(prices: Set<u64>, upto: int) -> Option<u64>
    decreases upto + 1,
{
    if upto < 0 || upto > u64::MAX {
        None
    } else if prices.contains(upto as u64) {
        Some(upto as u64)
    } else {
        last_price_upto(prices, upto - 1)
    }
}

/// The price next above `v` among `prices`.
pub open spec fn next_price(prices: Set<u64>, v: u64) -> Option<u64> {
    first_price_from(prices, v + 1)
}

/// The price next below `v` among `prices`.
pub open spec fn prev_price(prices: Set<u64>, v: u64) -> Option<u64> {
    last_price_upto(prices, v - 1)
}

/// The number of occupied slots.
pub open spec fn occupied_count(items: Seq<Option<LineItemQueue>>) -> nat
    decreases items.len(),
{
    if items.len() == 0 {
        0
    } else {
        (if items.last() is Some { 1nat } else { 0nat }) + occupied_count(items.drop_last())
    }
}

/// The capacity reached by doubling `capacity` until it exceeds `spread`.
pub open spec fn grown_capacity(capacity: nat, spread: nat) -> nat
    decreases (if capacity > spread { 0 } else { spread + 1 - capacity }),
{
    if capacity == 0 || capacity > spread {
        capacity
    } else {
        grown_capacity(capacity * 2, spread)
    }
}

/// What `first_price_from` finds: the least price at `from` or above.
pub proof fn lemma_first_price_from(prices: Set<u64>, from: int)
    requires
        0 <= from,
    ensures
        match first_price_from(prices, from) {
            Some(w) => prices.contains(w) && from <= w && forall|u: u64| #[trigger] prices.contains(u) && from <= u ==> w <= u,
            None => forall|u: u64| #[trigger] prices.contains(u) ==> u < from,
        },
    decreases u64::MAX + 1 - from,
{
    if from <= u64::MAX && !prices.contains(from as u64) {
        lemma_first_price_from(prices, from + 1);
    }
}

/// What `last_price_upto` finds: the greatest price at `upto` or below.
pub proof fn lemma_last_price_upto(prices: Set<u64>, upto: int)
    requires
        upto <= u64::MAX,
    ensures
        match last_price_upto(prices, upto) {
            Some(w) => prices.contains(w) && w <= upto && forall|u: u64| #[trigger] prices.contains(u) && u <= upto ==> u <= w,
            None => forall|u: u64| #[trigger] prices.contains(u) ==> upto < u,
        },
    decreases upto + 1,
{
    if upto >= 0 && !prices.contains(upto as u64) {
        lemma_last_price_upto(prices, upto - 1);
    }
}

/// `first_price_from` is the one price with that property.
pub proof fn lemma_first_price_is(prices: Set<u64>, from: int, r: Option<u64>)
    requires
        0 <= from,
        match r {
            Some(w) => prices.contains(w) && from <= w && forall|u: u64| #[trigger] prices.contains(u) && from <= u ==> w <= u,
            None => forall|u: u64| #[trigger] prices.contains(u) ==> u < from,
        },
    ensures
        first_price_from(prices, from) == r,
{
    lemma_first_price_from(prices, from);
}

/// `last_price_upto` is the one price with that property.
pub proof fn lemma_last_price_is(prices: Set<u64>, upto: int, r: Option<u64>)
    requires
        upto <= u64::MAX,
        match r {
            Some(w) => prices.contains(w) && w <= upto && forall|u: u64| #[trigger] prices.contains(u) && u <= upto ==> u <= w,
            None => forall|u: u64| #[trigger] prices.contains(u) ==> upto < u,
        },
    ensures
        last_price_upto(prices, upto) == r,
{
    lemma_last_price_upto(prices, upto);
}

/// Counting occupied slots after one slot changes.
pub proof fn lemma_occupied_count_update(items: Seq<Option<LineItemQueue>>, i: int, x: Option<LineItemQueue>)
    requires
        0 <= i < items.len(),
    ensures
        occupied_count(items.update(i, x)) + (if items[i] is Some { 1int } else { 0int })
            == occupied_count(items) + (if x is Some { 1int } else { 0int }),
        occupied_count(items) <= items.len(),
    decreases items.len(),
{
    let u = items.update(i, x);
    if i == items.len() - 1 {
        assert(u.drop_last() =~= items.drop_last());
        lemma_occupied_count_bounded(items);
    } else {
        assert(u.drop_last() =~= items.drop_last().update(i, x));
        lemma_occupied_count_update(items.drop_last(), i, x);
    }
}

/// There are no more occupied slots than slots, and fewer where one is free.
pub proof fn lemma_occupied_count_bounded(items: Seq<Option<LineItemQueue>>)
    ensures
        occupied_count(items) <= items.len(),
        (exists|i: int| 0 <= i < items.len() && (#[trigger] items[i]) is None) ==> occupied_count(items) < items.len(),
    decreases items.len(),
{
    if items.len() > 0 {
        lemma_occupied_count_bounded(items.drop_last());
        if exists|i: int| 0 <= i < items.len() && (#[trigger] items[i]) is None {
            let i = choose|i: int| 0 <= i < items.len() && (#[trigger] items[i]) is None;
            if i < items.len() - 1 {
                assert(items.drop_last()[i] is None);
            }
        }
    }
}

/// Two numbers closer than `c` with the same remainder modulo `c` are equal.
pub proof fn lemma_mod_separates(a: int, b: int, c: int)
    requires
        0 <= a,
        0 <= b,
        c > 0,
        a - b < c,
        b - a < c,
        a % c == b % c,
    ensures
        a == b,
{
    vstd::arithmetic::div_mod::lemma_fundamental_div_mod(a, c);
    vstd::arithmetic::div_mod::lemma_fundamental_div_mod(b, c);
    let qa = a / c;
    let qb = b / c;
    assert(a - b == c * (qa - qb)) by (nonlinear_arith)
        requires
            a == c * qa + a % c,
            b == c * qb + b % c,
            a % c == b % c;
    if qa > qb {
        assert(c * (qa - qb) >= c) by (nonlinear_arith)
            requires
                qa - qb >= 1,
                c > 0;
    } else if qa < qb {
        assert(c * (qb - qa) >= c) by (nonlinear_arith)
            requires
                qb - qa >= 1,
                c > 0;
        assert(c * (qa - qb) == -(c * (qb - qa))) by (nonlinear_arith);
    }
}

/// Adding a price `x` changes the least price at `from` or above only where
/// `x` is at `from` or above and below the old one.
pub proof fn lemma_first_price_insert(prices: Set<u64>, x: u64, from: int)
    requires
        0 <= from,
    ensures
        first_price_from(prices.insert(x), from) == (if from <= x && (first_price_from(prices, from) is None
            || x < first_price_from(prices, from)->0) {
            Some(x)
        } else {
            first_price_from(prices, from)
        }),
{
    lemma_first_price_from(prices, from);
    let r = if from <= x && (first_price_from(prices, from) is None || x < first_price_from(prices, from)->0) {
        Some(x)
    } else {
        first_price_from(prices, from)
    };
    lemma_first_price_is(prices.insert(x), from, r);
}

/// Adding a price `x` changes the greatest price at `upto` or below only
/// where `x` is at `upto` or below and above the old one.
pub proof fn lemma_last_price_insert(prices: Set<u64>, x: u64, upto: int)
    requires
        upto <= u64::MAX,
    ensures
        last_price_upto(prices.insert(x), upto) == (if x <= upto && (last_price_upto(prices, upto) is None
            || last_price_upto(prices, upto)->0 < x) {
            Some(x)
        } else {
            last_price_upto(prices, upto)
        }),
{
    lemma_last_price_upto(prices, upto);
    let r = if x <= upto && (last_price_upto(prices, upto) is None || last_price_upto(prices, upto)->0 < x) {
        Some(x)
    } else {
        last_price_upto(prices, upto)
    };
    lemma_last_price_is(prices.insert(x), upto, r);
}

/// Placing a queue of a new price `v` in its slot, linked to the queues of the
/// nearest prices below and above, with those linked back to it and head and
/// tail moved to take it in, keeps every slot as `slot_ok` says.
proof fn lemma_new_price_linked(mid: NumberLine, after: NumberLine, v: u64, index: int)
    requires
        mid.wf(),
        !mid.prices().contains(v),
        index == mid.slot_of(v),
        mid.items@[index] is None,
        after.capacity == mid.capacity,
        after.items@.len() == mid.items@.len(),
        after.items@[index] matches Some(q) && q.value == v
            && (forall|k: int| 0 <= k < q.queue@.len() ==> (#[trigger] q.queue@[k]).value == v)
            && q.next_queue == next_price(mid.prices(), v) && q.prev_queue == prev_price(mid.prices(), v),
        forall|x: int| 0 <= x < mid.items@.len() && x != index && (#[trigger] mid.items@[x]) is None ==> after.items@[x] is None,
        forall|x: int| 0 <= x < mid.items@.len() && x != index && (#[trigger] mid.items@[x]) is Some ==> {
            let q = mid.items@[x]->0;
            &&& after.items@[x] matches Some(r)
            &&& r.value == q.value
            &&& r.queue == q.queue
            &&& r.next_queue == (if Some(q.value) == prev_price(mid.prices(), v) { Some(v) } else { q.next_queue })
            &&& r.prev_queue == (if Some(q.value) == next_price(mid.prices(), v) { Some(v) } else { q.prev_queue })
        },
        after.head == (if mid.head is None || v < mid.head->0 { Some(v) } else { mid.head }),
        after.tail == (if mid.tail is None || mid.tail->0 < v { Some(v) } else { mid.tail }),
    ensures
        after.prices() == mid.prices().insert(v),
        forall|x: int| 0 <= x < after.items@.len() ==> #[trigger] after.slot_ok(x),
        after.head == first_price_from(after.prices(), 0),
        after.tail == last_price_upto(after.prices(), u64::MAX as int),
{
    let prices = mid.prices();
    assert forall|w: u64| after.holds(w) <==> (mid.holds(w) || w == v) by {
        let x = mid.slot_of(w);
        if x != index {
            if mid.items@[x] is Some {
            }
        }
    }
    assert(after.prices() =~= prices.insert(v));
    lemma_first_price_insert(prices, v, 0);
    lemma_last_price_insert(prices, v, u64::MAX as int);
    lemma_first_price_from(prices, v + 1);
    lemma_last_price_upto(prices, v - 1);
    assert forall|x: int| 0 <= x < after.items@.len() implies #[trigger] after.slot_ok(x) by {
        if x != index && after.items@[x] is Some {
            assert(mid.slot_ok(x));
            let q = mid.items@[x]->0;
            let w = q.value;
            assert(mid.holds(w));
            assert(prices.contains(w));
            lemma_first_price_insert(prices, v, w + 1);
            lemma_last_price_insert(prices, v, w - 1);
            lemma_first_price_from(prices, w + 1);
            lemma_last_price_upto(prices, w - 1);
        } else if x == index {
            lemma_first_price_insert(prices, v, v + 1);
            lemma_last_price_insert(prices, v, v - 1);
        }
    }
}

impl NumberLine {
    /// The slot a price falls in.
    pub open spec fn slot_of(&self, value: u64) -> int {
        (value % (self.capacity as u64)) as int
    }

    /// The line holds a queue of price `value`.
    pub open spec fn holds(&self, value: u64) -> bool {
        &&& 0 <= self.slot_of(value) < self.items@.len()
        &&& self.items@[self.slot_of(value)] matches Some(q)
        &&& q.value == value
    }

    /// The prices of the queues held.
    pub open spec fn prices(&self) -> Set<u64> {
        Set::new(|v: u64| self.holds(v))
    }

    /// The queues held, by price.
    pub open spec fn queues(&self) -> Map<u64, LineItemQueue> {
        Map::new(|v: u64| self.holds(v), |v: u64| self.items@[self.slot_of(v)]->0)
    }

    /// A queue standing in slot `j` is in the slot of its price, holds only
    /// entries of its price, and links to the next prices below and above it.
    pub open spec fn slot_ok(&self, j: int) -> bool {
        self.items@[j] matches Some(q) ==> {
            &&& self.slot_of(q.value) == j
            &&& forall|k: int| 0 <= k < q.queue@.len() ==> (#[trigger] q.queue@[k]).value == q.value
            &&& q.next_queue == next_price(self.prices(), q.value)
            &&& q.prev_queue == prev_price(self.prices(), q.value)
        }
    }

    /// The line is well formed: `capacity` slots, at least one; every queue
    /// as `slot_ok` says; head and tail the lowest and highest prices held;
    /// `size` the number of occupied slots.
    pub open spec fn wf(&self) -> bool {
        &&& self.items@.len() == self.capacity
        &&& self.capacity > 0
        &&& forall|j: int| 0 <= j < self.items@.len() ==> #[trigger] self.slot_ok(j)
        &&& self.head == first_price_from(self.prices(), 0)
        &&& self.tail == last_price_upto(self.prices(), u64::MAX as int)
        &&& self.size == occupied_count(self.items@)
    }

    /// The slot of `value` holds a queue of another price.
    pub open spec fn collides(&self, value: u64) -> bool {
        self.items@[self.slot_of(value)] matches Some(q) && q.value != value
    }

    /// The distance between the lowest and the highest of the prices held
    /// and `value`.
    pub open spec fn spread_with(&self, value: u64) -> nat {
        let lo = match self.head {
            Some(h) => if h < value { h } else { value },
            None => value,
        };
        let hi = match self.tail {
            Some(t) => if t > value { t } else { value },
            None => value,
        };
        (hi - lo) as nat
    }

    /// Every price held lies between head and tail.
    proof fn lemma_prices_between_head_and_tail(&self)
        requires
            self.wf(),
        ensures
            forall|u: u64| #[trigger] self.prices().contains(u) ==> {
                &&& (self.head matches Some(h) && h <= u)
                &&& (self.tail matches Some(t) && u <= t)
            },
    {
        lemma_first_price_from(self.prices(), 0);
        lemma_last_price_upto(self.prices(), u64::MAX as int);
    }

    /// The prices next below and next above `v` among those held.
    fn neighbours(&self, v: u64) -> (r: (Option<u64>, Option<u64>))
        requires
            self.wf(),
        ensures
            r.0 == prev_price(self.prices(), v),
            r.1 == next_price(self.prices(), v),
    {
        let mut below: Option<u64> = None;
        let mut above: Option<u64> = None;
        let mut j: usize = 0;
        while j < self.items.len()
            invariant
                self.wf(),
                j <= self.items@.len(),
                below matches Some(b) ==> self.prices().contains(b) && b < v,
                above matches Some(a) ==> self.prices().contains(a) && v < a,
                forall|jj: int| 0 <= jj < j && (#[trigger] self.items@[jj]) is Some && self.items@[jj]->0.value < v
                    ==> (below matches Some(b) && self.items@[jj]->0.value <= b),
                forall|jj: int| 0 <= jj < j && (#[trigger] self.items@[jj]) is Some && self.items@[jj]->0.value > v
                    ==> (above matches Some(a) && a <= self.items@[jj]->0.value),
            decreases self.items@.len() - j,
        {
            if let Some(q) = &self.items[j] {
                assert(self.slot_ok(j as int));
                assert(self.holds(q.value));
                if q.value < v && (below.is_none() || below.unwrap() < q.value) {
                    below = Some(q.value);
                }
                if q.value > v && (above.is_none() || q.value < above.unwrap()) {
                    above = Some(q.value);
                }
            }
            j = j + 1;
        }
        proof {
            assert forall|u: u64| #[trigger] self.prices().contains(u) && u < v implies (below matches Some(b) && u <= b) by {
                assert(self.holds(u));
                assert(self.items@[self.slot_of(u)] is Some);
            }
            assert forall|u: u64| #[trigger] self.prices().contains(u) && u > v implies (above matches Some(a) && a <= u) by {
                assert(self.holds(u));
                assert(self.items@[self.slot_of(u)] is Some);
            }
            lemma_last_price_is(self.prices(), v - 1, below);
            lemma_first_price_is(self.prices(), v + 1, above);
        }
        (below, above)
    }

    /// Grows the table so that `v` and every price held fall in slots of their
    /// own: the capacity is doubled until it exceeds the distance between the
    /// lowest and the highest of them, and every queue is moved to the slot of
    /// its price under the new capacity.
    fn grow(&mut self, v: u64)
        requires
            old(self).wf(),
            old(self).collides(v),
            old(self).spread_with(v) < usize::MAX / 2,
        ensures
            final(self).wf(),
            final(self).prices() == old(self).prices(),
            final(self).queues() == old(self).queues(),
            final(self).head == old(self).head,
            final(self).tail == old(self).tail,
            final(self).capacity == grown_capacity(old(self).capacity as nat, old(self).spread_with(v)),
            final(self).items@[final(self).slot_of(v)] is None,
    {
        let ghost old_line = *self;
        let ghost prices = self.prices();
        proof {
            self.lemma_prices_between_head_and_tail();
            let q = self.items@[self.slot_of(v)]->0;
            assert(self.slot_ok(self.slot_of(v)));
            assert(self.holds(q.value));
            assert(self.prices().contains(q.value));
        }
        let h = self.head.unwrap();
        let t = self.tail.unwrap();
        let lo = if h < v { h } else { v };
        let hi = if t > v { t } else { v };
        let spread = hi - lo;
        assert(spread == self.spread_with(v));

        // the new capacity: doubled until it exceeds the spread
        let mut capacity = self.capacity;
        while (capacity as u64) <= spread
            invariant
                0 < capacity,
                capacity <= old_line.capacity || capacity <= 2 * spread,
                old_line.capacity <= spread || capacity == old_line.capacity,
                spread < usize::MAX / 2,
                grown_capacity(capacity as nat, spread as nat) == grown_capacity(old_line.capacity as nat, spread as nat),
            decreases (if (capacity as u64) > spread { 0 } else { spread + 1 - capacity }),
        {
            capacity = capacity * 2;
        }
        assert(grown_capacity(capacity as nat, spread as nat) == capacity);

        let mut items: Vec<Option<LineItemQueue>> = Vec::new();
        let mut i: usize = 0;
        while i < capacity
            invariant
                i <= capacity,
                items@.len() == i,
                forall|j: int| 0 <= j < items@.len() ==> items@[j] is None,
                occupied_count(items@) == 0,
            decreases capacity - i,
        {
            let ghost before = items@;
            items.push(None);
            assert(items@.drop_last() =~= before);
            i = i + 1;
        }

        // move every queue to the slot of its price
        let mut old_items: Vec<Option<LineItemQueue>> = Vec::new();
        std::mem::swap(&mut old_items, &mut self.items);
        let ghost old0 = old_items@;
        let ghost cap0 = old_line.capacity;
        assert(old0.take(0) =~= Seq::<Option<LineItemQueue>>::empty());
        let mut j: usize = 0;
        while j < old_items.len()
            invariant
                old0 == old_line.items@,
                old0.len() == cap0,
                cap0 == old_line.capacity,
                old_line.wf(),
                prices == old_line.prices(),
                forall|u: u64| #[trigger] prices.contains(u) ==> lo <= u <= hi,
                lo <= v <= hi,
                spread == hi - lo,
                capacity > spread,
                j <= old_items@.len(),
                old_items@.len() == old0.len(),
                forall|jj: int| j <= jj < old0.len() ==> #[trigger] old_items@[jj] == old0[jj],
                items@.len() == capacity,
                forall|jj: int| 0 <= jj < j && (#[trigger] old0[jj]) is Some ==>
                    items@[(old0[jj]->0.value % (capacity as u64)) as int] == old0[jj],
                forall|x: int| 0 <= x < capacity && (#[trigger] items@[x]) is Some ==> {
                    let q = items@[x]->0;
                    &&& (q.value % (capacity as u64)) as int == x
                    &&& ((q.value % (cap0 as u64)) as int) < j
                    &&& old0[(q.value % (cap0 as u64)) as int] == items@[x]
                },
                occupied_count(items@) == occupied_count(old0.take(j as int)),
            decreases old_items@.len() - j,
        {
            let mut taken: Option<LineItemQueue> = None;
            old_items.set_and_swap(j, &mut taken);
            let ghost before = items@;
            assert(old0.take(j + 1).drop_last() =~= old0.take(j as int));
            if let Some(q) = taken {
                let target = (q.value % (capacity as u64)) as usize;
                proof {
                    assert(old_line.slot_ok(j as int));
                    assert(old_line.holds(q.value));
                    if items@[target as int] is Some {
                        let q2 = items@[target as int]->0;
                        assert(old_line.slot_ok((q2.value % (cap0 as u64)) as int));
                        assert(old_line.holds(q2.value));
                        assert(prices.contains(q2.value));
                        assert(prices.contains(q.value));
                        lemma_mod_separates(q.value as int, q2.value as int, capacity as int);
                        assert(false);
                    }
                    lemma_occupied_count_update(before, target as int, Some(q));
                }
                items.set(target, Some(q));
            }
            j = j + 1;
        }
        assert(old0.take(old0.len() as int) =~= old0);
        self.items = items;
        self.capacity = capacity;
        proof {
            assert forall|w: u64| self.holds(w) <==> old_line.holds(w) by {
                if self.holds(w) {
                    let q = self.items@[self.slot_of(w)]->0;
                    assert(old0[(q.value % (cap0 as u64)) as int] == self.items@[self.slot_of(w)]);
                }
                if old_line.holds(w) {
                    let jj = old_line.slot_of(w);
                    assert(old0[jj] is Some);
                }
            }
            assert(self.prices() =~= prices);
            assert(self.queues() =~= old_line.queues()) by {
                assert forall|w: u64| #[trigger] self.queues().dom().contains(w) implies self.queues()[w] == old_line.queues()[w] by {
                    let q = self.items@[self.slot_of(w)]->0;
                    assert(old0[(q.value % (cap0 as u64)) as int] == self.items@[self.slot_of(w)]);
                }
            }
            assert forall|x: int| 0 <= x < self.items@.len() implies #[trigger] self.slot_ok(x) by {
                if let Some(q) = self.items@[x] {
                    assert(old_line.slot_ok((q.value % (cap0 as u64)) as int));
                }
            }
            if self.items@[self.slot_of(v)] is Some {
                let q = self.items@[self.slot_of(v)]->0;
                assert(old_line.slot_ok((q.value % (cap0 as u64)) as int));
                assert(old_line.holds(q.value));
                assert(prices.contains(q.value));
                lemma_mod_separates(q.value as int, v as int, capacity as int);
                assert(old_line.holds(v));
                assert(false);
            }
        }
    }

    /// Places `line_item` at the back of the queue of its price, opening a
    /// queue for it where the line holds none: the new queue is linked to the
    /// queues of the nearest prices below and above, they are linked to it,
    /// and head, tail and size follow. Where the slot of its price holds
    /// another price, the table first grows.
    #[verifier::rlimit(80)]
    #[verifier::spinoff_prover]
    pub fn add(&mut self, line_item: LineItem)
        requires
            old(self).wf(),
            old(self).collides(line_item.value) ==> old(self).spread_with(line_item.value) < usize::MAX / 2,
        ensures
            final(self).wf(),
            final(self).prices() == old(self).prices().insert(line_item.value),
            forall|w: u64| #[trigger] final(self).prices().contains(w) ==>
                final(self).queues()[w].queue@ == (if w == line_item.value {
                    if old(self).prices().contains(w) { old(self).queues()[w].queue@.push(line_item) } else { seq![line_item] }
                } else {
                    old(self).queues()[w].queue@
                }),
            final(self).capacity == (if old(self).collides(line_item.value) {
                grown_capacity(old(self).capacity as nat, old(self).spread_with(line_item.value))
            } else {
                old(self).capacity as nat
            }),
    {
        let v = line_item.value;
        let first_index = (v % (self.capacity as u64)) as usize;
        let collides = match &self.items[first_index] {
            Some(q) => q.value != v,
            None => false,
        };
        if collides {
            // two prices would share a slot: grow the table
            self.grow(v);
        }
        let ghost mid = *self;
        let ghost prices = self.prices();
        let index = (v % (self.capacity as u64)) as usize;
        assert(index == self.slot_of(v));

        if self.items[index].is_some() {
            // the queue of this price: add to its back
            proof {
                assert(self.slot_ok(index as int));
                assert(self.holds(v));
            }
            let mut slot: Option<LineItemQueue> = None;
            self.items.set_and_swap(index, &mut slot);
            let mut q = slot.unwrap();
            q.add(line_item);
            self.items.set(index, Some(q));
            proof {
                assert(self.items@ =~= mid.items@.update(index as int, self.items@[index as int]));
                lemma_occupied_count_update(mid.items@, index as int, self.items@[index as int]);
                assert forall|w: u64| self.holds(w) <==> mid.holds(w) by {}
                assert(self.prices() =~= prices);
                assert(prices.insert(v) =~= prices);
                assert forall|x: int| 0 <= x < self.items@.len() implies #[trigger] self.slot_ok(x) by {
                    assert(mid.slot_ok(x));
                }
            }
        } else {
            // a new price: link it between its neighbours
            proof {
                assert(!self.holds(v));
                assert(!prices.contains(v));
            }
            let (prev, next) = self.neighbours(v);
            proof {
                lemma_first_price_from(prices, v + 1);
                lemma_last_price_upto(prices, v - 1);
            }
            let mut liq = LineItemQueue::new(line_item);
            liq.next_queue = next;
            liq.prev_queue = prev;
            self.items.set(index, Some(liq));
            let ghost placed = self.items@;
            assert(placed =~= mid.items@.update(index as int, Some(liq)));
            if let Some(n) = next {
                let s = (n % (self.capacity as u64)) as usize;
                proof {
                    assert(mid.holds(n));
                }
                let mut slot: Option<LineItemQueue> = None;
                self.items.set_and_swap(s, &mut slot);
                let mut q = slot.unwrap();
                q.prev_queue = Some(v);
                self.items.set(s, Some(q));
                assert(self.items@ =~= placed.update(s as int, self.items@[s as int]));
                assert(placed[s as int] is Some);
            }
            let ghost linked = self.items@;
            if let Some(p) = prev {
                let s = (p % (self.capacity as u64)) as usize;
                proof {
                    assert(mid.holds(p));
                }
                let mut slot: Option<LineItemQueue> = None;
                self.items.set_and_swap(s, &mut slot);
                let mut q = slot.unwrap();
                q.next_queue = Some(v);
                self.items.set(s, Some(q));
                assert(self.items@ =~= linked.update(s as int, self.items@[s as int]));
                assert(linked[s as int] is Some);
            }
            if self.head.is_none() || v < self.head.unwrap() {
                self.head = Some(v);
            }
            if self.tail.is_none() || self.tail.unwrap() < v {
                self.tail = Some(v);
            }
            proof {
                lemma_occupied_count_bounded(mid.items@);
                lemma_occupied_count_update(mid.items@, index as int, Some(liq));
            }
            self.size = self.size + 1;
            proof {
                let pn = prev;
                let nn = next;
                if let Some(n) = nn {
                    lemma_occupied_count_update(placed, (n % (self.capacity as u64)) as int, linked[(n % (self.capacity as u64)) as int]);
                }
                if let Some(p) = pn {
                    lemma_occupied_count_update(linked, (p % (self.capacity as u64)) as int, self.items@[(p % (self.capacity as u64)) as int]);
                }
                assert(self.size == occupied_count(self.items@));
                assert forall|x: int| 0 <= x < mid.items@.len() && x != index && (#[trigger] mid.items@[x]) is Some implies {
                    let q = mid.items@[x]->0;
                    &&& self.items@[x] matches Some(r)
                    &&& r.value == q.value
                    &&& r.queue == q.queue
                    &&& r.next_queue == (if Some(q.value) == prev_price(mid.prices(), v) { Some(v) } else { q.next_queue })
                    &&& r.prev_queue == (if Some(q.value) == next_price(mid.prices(), v) { Some(v) } else { q.prev_queue })
                } by {
                    let q = mid.items@[x]->0;
                    assert(mid.slot_ok(x));
                    assert(placed[x] == mid.items@[x]);
                    if let Some(n) = nn {
                        assert(prices.contains(n));
                        assert(mid.holds(n));
                    }
                    if let Some(p) = pn {
                        assert(prices.contains(p));
                        assert(mid.holds(p));
                    }
                }
                assert forall|x: int| 0 <= x < mid.items@.len() && x != index && (#[trigger] mid.items@[x]) is None implies
                    self.items@[x] is None by {
                    assert(placed[x] == mid.items@[x]);
                    if let Some(n) = nn {
                        assert(prices.contains(n));
                        assert(mid.holds(n));
                    }
                    if let Some(p) = pn {
                        assert(prices.contains(p));
                        assert(mid.holds(p));
                    }
                }
                lemma_new_price_linked(mid, *self, v, index as int);
            }
        }
    }

    /// A line of `DEFAULT_INIT_CAPACITY` empty slots.
    pub fn new() -> (line: NumberLine)
        ensures
            line.wf(),
            line.capacity == DEFAULT_INIT_CAPACITY,
            line.prices() == Set::<u64>::empty(),
            forall|i: int| 0 <= i < line.items@.len() ==> line.items@[i] is None,
    {
        let mut items: Vec<Option<LineItemQueue>> = Vec::new();
        let mut i: usize = 0;
        while i < DEFAULT_INIT_CAPACITY
            invariant
                i <= DEFAULT_INIT_CAPACITY,
                items@.len() == i,
                forall|j: int| 0 <= j < items@.len() ==> items@[j] is None,
                occupied_count(items@) == 0,
            decreases DEFAULT_INIT_CAPACITY - i,
        {
            let ghost before = items@;
            items.push(None);
            assert(items@.drop_last() =~= before);
            i = i + 1;
        }
        let line = NumberLine { head: None, tail: None, items, size: 0, capacity: DEFAULT_INIT_CAPACITY };
        assert(line.prices() =~= Set::<u64>::empty());
        proof {
            lemma_first_price_is(line.prices(), 0, None);
            lemma_last_price_is(line.prices(), u64::MAX as int, None);
        }
        line
    }
}

impl Default for NumberLine {
    fn default() -> (line: NumberLine)
        ensures
            line.wf(),
            line.capacity == DEFAULT_INIT_CAPACITY,
            line.prices() == Set::<u64>::empty(),
            forall|i: int| 0 <= i < line.items@.len() ==> line.items@[i] is None,
    {
        NumberLine::new()
    }
}

} // verus!
