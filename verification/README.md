# orderbook

A limit order book with price-time priority matching, verified with Verus.

- `src/` is the library. `orderbook` holds the book (price levels kept in
  arrival order, entries removed by tombstones), matching, resting, deletion
  and the depth cache, with their contracts. The book's invariant keeps each
  level's total equal to the sum of its live entries and every recorded
  location pointing at a live entry. `orderbook::laws` states and proves what
  every match guarantees (limit prices, price and time priority, conservation
  of quantity, makers taken from live resting orders, no crossing liquidity
  left behind, an uncrossed book stays uncrossed, filled makers cannot be
  deleted). `matching_engine` decides what the matching loop does with each
  queued event; `persist::worker` encodes depth snapshots and computes their
  checksum; `route` decides the wire encoding of HTTP requests.
- `app/` is the service around it: HTTP routes (actix-web), websockets,
  the matching loop, Kafka and ScyllaDB.
- `tests/` exercises the library on concrete inputs.
