# lib — a verified limit order book

A price-time priority matching engine written in Verus.

- `types`: sides, order types, ids, prices, quantities, orders and trades.
- `arena`: a slab of values addressed by index that reuses freed slots.
- `orderbook`: the arena node of a resting order, the head/tail of a price
  level, and the two sides of the book as `BTreeMap`s keyed by price, with
  the best bid and best ask.
- `model`: the engine seen as values (`BookState`: each side a map from price
  to a queue of resting orders, the index, the store) and what matching does
  to it (`fill_level`, `sweep`, `market_outcome`, `limit_outcome`,
  `cancel_state`).
- `links`: how the doubly linked queues in the arena stand for those values.
- `matching`: `MatchingEngine` — `process`, `process_market`, `cancel` and
  their helpers — proved against `model`.
- `laws`: properties of the whole: price-time priority, trades at
  ever-worse prices, conservation of quantity, no trade-through, an
  uncrossed book stays uncrossed, a cancel right after a rest restores the
  book, every resting order stays cancellable while ids are not reused.

The tests under `tests/` run the engine on concrete orders.
