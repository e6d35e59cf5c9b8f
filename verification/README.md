# crdt_redis

A small collection of verified building blocks, checked with Verus:

- `crdt`: a grow-only counter, a positive/negative counter and an
  observed-remove set, with their merge laws proved: idempotence and
  inflation for all three; commutativity, associativity and convergence of
  replicas for the other two; commutativity and associativity of the
  grow-only counter's merge for counters that hold the same keys (its merge
  only raises keys it already has).
- `redis`: an in-memory key-value store in the style of Redis: strings,
  lists, streams with consumer groups, expiry times, argument checks, the
  display of values, the command dispatcher and the command log format.
- `text_editor`, `greeting`, `compression`: the helpers of a browser text
  editor (keyword highlighting, tag wrapping, Markdown rendering through
  `pulldown-cmark`) and JPEG re-encoding through `image`.
- `str_map`, `text_util`: a sorted string-keyed map and the text functions
  the rest is built on.

`src/` holds the verified library. `app/` is the unverified shell around it:
the TCP server with one thread per client, the append-only log file and its
replay, the CRDT demonstration, and the functions the browser pages call.
The time (`chrono`), upper-casing, Debug quoting, Markdown rendering and
image coding are the outside calls; each sits behind one trusted function
whose contract says what is assumed of it.
