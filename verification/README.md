# ktask

A consolidated ETHBTC order book that merges depth from Binance and OKX,
written in Verus. Prices and sizes are held as fixed-point integers
(price precision 5, size precision 6); no floating point is used in the book.

Layout:

- `src/` — the verified library.
  - `helpers` — decimal strings to fixed-point integers (`dot_trim`, `parse_scaled`).
  - `tally` — per-source size tables with a distinct-names invariant.
  - `order_book`, `ladder` — the consolidated book: price levels keyed by integer
    price, each summing the sizes that its sources hold there.
  - `snapshot` — volumes, VWAP, imbalance and the depth within a number of
    basis points of the mid price, computed exactly.
  - `synthetic`, `level_book` — the two smaller books of the demo programs.
  - `feed` — decoding Binance depth messages and applying exchange depth
    messages (Binance, OKX) to the book.
  - `publish` — what a price update for subscribers holds.
  - `clock` — the current time, read from the system clock and checked by chrono.
  - `laws` — properties that relate several operations of the book.
- `tests/` — tests on concrete values.
- `app/` — the program around the library: websocket feeds, the HTTP API,
  printing, JSON and the floating-point demo books.
