# bunnymeshdb

A multi-master key-value store, verified with Verus.

Every namespace is an append-only log of records chained by SHA-256, with an in-memory
index and snapshots. Writes carry hybrid logical clocks, so nodes that pull each other's
logs converge: the last writer wins, or every version is kept, as the namespace says.
Capabilities signed by the root key say who may do what. On top stand an HTTP API, a small
query language, JSON schemas, secondary indexes, pull-only replication over connections
that prove the peer's key, and a view of the host's own namespace as a tree of files.

## Layout

- `src/` is the library. What each operation returns and changes is stated over values of
  a model and proved. It does no I/O; a store opens from, and gives back, what its
  directory holds. Calls into other crates and into parts of std stand behind small
  wrappers, marked `external_body`, or have an `assume_specification`; those contracts are
  believed and not proved:
  - `json` and `hexes` reading and writing JSON and hexadecimal
  - `hash` and `node/ident` SHA-256, Ed25519, random seeds
  - `net/serve` peer ids
  - `server/config` and `server/tls` multiaddresses, PEM files
  - `text`, `util` and `clock` parts of std: text, `Debug`, UTF-8, the wall clock

  The modules of the library:
  - `storage` records, logs, recovery, snapshots, compaction, the store
  - `caps`, `ns` capabilities, authorization, quotas
  - `query` the query language
  - `schema` JSON schemas
  - `server` what the API answers, rate limits, configuration, boot
  - `net` checking, serving and pulling records
  - `fs` the tree of files
  - `node` clocks, keys, the key file, key rotation
- `app/` is the program around it: command line, files, HTTP, libp2p, FUSE and TLS.
- `tests/` runs the library with the real crates behind it.

Proof functions named `law_` state what holds of the library as a whole.
