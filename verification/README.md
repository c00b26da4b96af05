# orderbook

An aggregated bitcoin order book fed by the Kraken and BitMEX websocket feeds.

- `src/` is the verified library (Verus):
  - `book.rs`: the aggregated book, its sorted sides, `process` and batches, and the laws of updates;
  - `decimal.rs`: numerals read as fixed-point integers (units of 1e-8), and integers;
  - `json.rs`: messages read by `serde_json` into values verified code can look into;
  - `kraken.rs`, `bitmex.rs`, `bitmex_order.rs`: each feed's conversation, message by message: its local book and the updates it sends on;
  - `booker.rs`: the responses given to clients and the service state;
  - `endpoint.rs`, `text.rs`: feed addresses and text comparison.
- `app/` runs the program: websockets, the queues between threads, printing.
- `tests/` exercises the library.

## Behaviour to be aware of

The library keeps these behaviours of the service as they are, and its
contracts state them:

- A Kraken update level with size zero deletes the level from the local
  book but sends a zero size difference downstream, so the aggregated book
  keeps the level; the laws on sent differences hold for runs without such
  deletes.
- When a side of a feed's local book grows past `BOOK_DEPTH` levels, the
  size of the level at index `BOOK_DEPTH` of the side as stored (ascending
  by price) is sent negated downstream while the level stays in the local
  book; for bids that level is not the lowest bid. The laws on sent
  differences hold for runs in which no side grows past `BOOK_DEPTH`.
- A response pairs the price of the `i`-th best bid with the size of the
  `i`-th bid counted from the lowest.
- Prices and sizes are read as fixed-point integers with eight fractional
  digits; numerals with a sign, an exponent or more fractional digits are
  refused as malformed. BitMEX sizes are scaled by integer division.
