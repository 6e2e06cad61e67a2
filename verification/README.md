# proxybroker

Find, check, and serve public HTTP(S) and SOCKS4/5 proxies.

`src/` is the library. Its functions are verified with Verus against the contracts that they state,
beside the laws that hold of the library as a whole. What it takes from elsewhere is trusted, not
proved: the contracts of `geo::open_source`, `geo::find_record`, `geo::read_city` and
`geo::read_asn` (maxminddb),
`pattern::compile` and `pattern::find_at` (regex), `persist::write_entries` and
`persist::read_entries` (serde_json), and `persist::quoted`, `text::to_upper`,
`server::http::lossy_text`, `server::http::strict_text` and `String::push` (std).

- `text`, `addr`, `addr_parse`, `measure`, `types`, `proxy`: the vocabulary. A measure is the bits
  of a floating point number; the library compares measures and leaves their arithmetic to callers.
- `pattern`, `parse`: finding addresses in text.
- `geo`, `mmdb`: country and network of an address, from a database of the MaxMind format, of which a
  record is read once it was seen to be readable.
- `broker`: queries, filters, and the decisions of a run that gathers and checks.
- `persist`: what is remembered of a proxy, in memory, SQLite and Redis.
- `server`: the rotating proxy server as state machines: reading a request (`intake`, `http`,
  `socks5`), who is let in and how often a request is tried (`session`, `auth`), the pool and its
  strategies (`pool`, `select`), a relay (`relay`), requests to the server itself (`control`), and
  metrics (`metrics`).
- `output`, `cli`, `tui`: what is written and shown, and what the command line asks for.

`app/` is the program around it: sockets, files, databases, the terminal, and floating point.
`tests/` runs the library.
