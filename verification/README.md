# matching_engine

A price-time priority order matching engine with an append-only journal that can
be replayed up to any time.

`src/` is a library that Verus verifies. Prices and quantities in it are
fixed-point decimals: whole numbers of billionths (`fixed::UNIT` is one).

- `order`, `orderbook`, `engine`: orders, the book, and the engine with its
  journal, replay and validation. `model`, `history` and `timeline` say what they
  do; `ladder`, `levels`, `matching`, `validity`, `walk`, `depth`, `taker`, `rest`,
  `filters` and `audit` hold the parts and the proofs.
- `laws`, `lookup`: what holds of every book and every run of events.
- `ws`, `demo`, `generator`: the messages of the WebSocket, the demo script, and
  the market that makes up orders.
  `rounds` says what the server does over time.
- `bridge`, `worker`, `publisher`, `replay`, `schema`: handing orders over to a
  matching service, and the check of an archive's replay.
- `text`, `fixed`, `double`, `clock`: numbers as text, units, the rounding of
  floating-point arithmetic, and the time of day. The clock is the one thing that
  is trusted rather than proved.

`app/` is the server: sockets, JSON and floating-point numbers. `publisher.rs` and
`replay.rs` in it need packages or native libraries that are not always there, and
are not part of the server's build.
