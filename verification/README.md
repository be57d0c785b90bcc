# edamame_alpha

A live-HLS origin/controller (`edamame-core`) and cache node (`edamame-node`),
with the decision logic written in Verus and proved against its contracts.

- `src/` is the verified library: segment identities and filenames,
  rendition metadata, live and retention windows, ingest and commit rules,
  generated master/media playlists and snapshot refresh, the cache node
  registry and its state machine, placement and prewarm planning, the node's
  retained-segment set and eviction, and the URLs of the core API.
  `src/ordered.rs` holds the verified sorted map and set the rest is built on.
  They stand in for `BTreeMap`/`BTreeSet`: with `String` keys vstd's
  specifications of those do not let Verus prove even that a map holds one
  entry after one `insert` into an empty map, so key order, lookups and
  removal are proved here over a sorted vector instead.
- `app/` is the unverified shell: command-line parsing, the HTTP servers and
  client, file reads and writes, JSON forms of the library's types, and the
  conversion of reported float loads into the order keys the library
  compares.
- `tests/` runs the library on concrete scenarios.

State evaluation never reads the clock: the current time is an argument, so
one evaluation of the same registry at the same time always gives the same
result.
