# kvs

A key/value store with a log-structured storage engine.

- `src/` is the verified library.
  - `memory.rs`: a store that keeps its pairs in memory only.
  - `engines/kvs.rs`: the state of the log-structured engine — which
    generation log holds the live command of each key and where, how many
    bytes are stale, which logs are open — and every decision taken on it:
    replaying logs on open, recording sets and removes, and compacting.
  - `engines/index.rs`, `engines/keyorder.rs`: the index of live commands,
    kept in the byte order of its keys. It is a `StringHashMap` with a
    sorted list of its keys rather than a `BTreeMap<String, _>`: vstd
    specifies `BTreeMap` only for key types that obey its ordering spec,
    and gives `String` no such spec, so nothing could be proved of a
    `String`-keyed `BTreeMap`.
  - `engines/model.rs`: a model of the appended logs under the index, and
    the laws of the store's key/value map: set, remove, reopen and compact.
  - `engines/logfiles.rs`, `decimal.rs`: the names of log files and the
    generations they hold.
  - `server.rs`, `client.rs`, `common.rs`, `error.rs`: the server's answer
    to each request, the client's requests and its reading of the answers,
    the messages they exchange, and errors.
- `app/` holds the programs: the file and network side of the engine, the
  server and the client, command-line parsing, and the JSON and RON forms of commands
  and messages.
- `tests/` runs the library on concrete values.
