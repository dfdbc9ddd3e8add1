# match_engine_rust

A matching engine for one instrument: a limit order book with price-time priority, proved
correct with Verus.

- `src/` is the verified library.
  - `types`, `order`, `level`, `ladder`, `book`: orders, price levels, sides and the book.
  - `events`, `lookup`, `clock`: the trade channel, the order registry and the wall clock, with
    the few contracts that are taken on trust.
  - `model`: the book as a mathematical value and what each command does to it.
  - `invariants`, `priority`, `identity`, `market`, `replay`, `laws`, `totals`: what is proved of
    it.
- `tests/` runs the library.
- `app/` is a small program around it, with a book that threads can share.

A command takes the book by `&mut`. To use one book from several threads, put it behind a lock.

Reporting a trade never waits. A trade for which a channel with a capacity has no room is kept
back, in order, until there is room or until it is taken with `take_waiting_trades`.

Timestamps of orders are in nanoseconds since the Unix epoch, those of trades in milliseconds.
The best prices are those at which orders rest: a price level that has been emptied does not count.
