# exchanges

The decision logic of a Binance market-data backend, verified with Verus.

`src/` holds the library, every function with its contract:

- `book`, `observer` — the subscription book of a book ticker socket and the
  spreading of symbols over sockets (chunks of ten, a new socket when the
  newest is full).
- `handler` — the book ticker handler's cursor (socket and request id) and
  the index of which cursor each symbol was subscribed under.
- `sessions`, `events` — the trade observer's sessions and the symbol events
  it gathers between ticks.
- `nodes`, `symbols` — observer nodes: symbol differences, balancing, node
  registration; changes of the exchange's symbol list.
- `history` — planning of historical kline fetches: queries, retry steps,
  fetch windows, first trade dates and progress reports.
- `orders`, `stream`, `ticker`, `text` — message vocabulary and text helpers.

The public proof functions named `law_*` state properties that hold across
calls, such as what unsubscribing leaves in a book or how fetch windows tile
a period.

`app/` is ordinary Rust around the library: serializable copies of its
message types, reading the numbers of market payloads, REST requests and the
drivers that send what the library decides.
