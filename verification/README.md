# ormdb

An embedded graph database for object-relational workloads, with its logic
verified by Verus.

Entities are stored as versions, each under a key of identifier and commit
timestamp. A graph fetch reads a root type and the relations that it asks for; a
fetch as of a timestamp shows one cut through the history, whatever is committed
meanwhile.

## Layout

- `src/value.rs`, `src/codec.rs`, `src/catalog.rs`, `src/security.rs`: values, their
  encoding, schemas, and who may do what.
- `src/storage/`: the versioned store over sled, its indexes, and transactions.
  `laws.rs` states what holds of reads and writes together.
- `src/query/`: plans and those that are kept, conditions, rows, fetching, relations
  and the executor. `laws.rs` and `fracture.rs` state what a snapshot guarantees,
  `order_laws.rs` and `paging_laws.rs` when rows come out in order and which of them
  a page holds.
- `src/server/`: mutations, alone and in batches that are made as a whole or not at
  all, the log of changes, the handler of requests, framing, and the decisions of the
  transport.
- `src/raft/`: the state machine that the replicated log is applied to.
- `src/gateway/`: results as JSON.
- `app/`: the server program around the library: sockets, threads, command line,
  and the traits of the consensus crate.
- `tests/`: tests, run against the real store.

## What is trusted

Calls into sled, openraft and serde_json, the clock and UTF-8 decoding stand behind
small functions marked `external_body`, each with a comment that says what is
claimed of it. Public proof functions whose names begin with `law_` state what the
library promises as a whole.
