# orderbook

A limit order book whose matching is verified with Verus.

- `src/` — the library. `book.rs` holds the book and its matching; `matching.rs`
  the model that the contracts speak of (what one incoming order does to the
  book: it meets the best prices first — the highest buyers for a sell, the
  lowest sellers for a buy — oldest order first at each price, leaves an order
  filled in part at the front of its level with what is left of it, removes
  emptied levels, and rests what is left of itself); `laws.rs` properties proved
  of that model (fills respect the limit price, the best price goes first, the
  oldest order at a price goes first and the survivors of a level keep their
  order, what is matched is the smaller of the order and what crosses and is
  taken off the resting orders exactly, no resting order is lost or made up,
  the book stays well formed and never crosses, completed orders are never
  undone); `levels.rs` the trusted
  interface to `skiplist::SkipMap`, which holds each side's price levels;
  `number_line.rs` the price-indexed table of queues, linked by price, which
  grows where two prices would share a slot.
- `app/` — the simulation program and the Markdown state report.
- `tests/` — scenarios run against the compiled library.
