# exchange

A small crypto exchange: order books that match incoming bids and asks
against resting orders, an engine that keeps one book per market, and the
request logic of its HTTP front end. The library under `src/` is written in
Verus and verified; `app/` holds the two programs (the HTTP front end and the
engine loop) that do the network, database and Redis I/O around it.

- `src/order_book.rs` — orders, trades and books; matching (`match_ask`,
  `match_bid`, `add_order`), cancelling, depth, with their specifications.
- `src/book_laws.rs` — properties of matching, cancelling and depth proved
  for every book.
- `src/engine.rs` — the engine: routing orders to the book of their market,
  opening books, order ids.
- `src/messages.rs` — the messages between front end and engine.
- `src/auth.rs` — bearer tokens, token claims, login and sign-up decisions.
- `src/text.rs` — decimal numerals, parsing and splitting of text.

Run `app` with `api` or `engine` as its first argument.
