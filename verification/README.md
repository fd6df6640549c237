# cassettedb

A single-file JSON document database with a write-ahead log, full-text and
secondary indexes, sharding, Raft-based clustering and two-phase distributed
transactions.  The library is written in Verus: the public functions state
what they return or change in their `requires`/`ensures`, and Verus proves
it, with the exceptions listed under "What is trusted".

## Layout

- `src/` — the verified library.
  - `db`, `sync`, `transaction`: the single-file database (collections,
    documents, full-text and secondary indexes, queries, compaction), merging
    two databases, and transactions over a snapshot.
  - `engine`, `index`, `document`, `query`, `literal`, `json`: the in-memory
    engine, its inverted index, documents, and the query language parser.
  - `wal`, `storage`, `replication`, `bytes`: the byte formats of the
    write-ahead log, the paged main file and the replication log, and what
    recovery does with them.
  - `raft`, `cluster`, `shard`, `dist_tx`: consensus, cluster membership and
    health, shard allocation and consistent-hash routing, and distributed
    transactions.
  - `server`: request routing, authentication and framing shared by the TCP
    and HTTP servers.
  - `backup`, `feedback`, `config`, `repl`: snapshot naming and ordering,
    feedback logs, configuration migration, and the interactive shell's
    command parsing and completion.
  - `path_check`: the check that keeps JSONPath expressions with array
    indexes that the evaluator cannot take away from it.
  - `assoc`, `seqs`, `text`, `time`, `error`: shared helpers.
- `tests/` — tests of the library on concrete values.
- `app/` — the `cassette` program: files, sockets, the clock-driven loops,
  JSON encoding with serde, metrics and query evaluation over floating-point
  numbers.

The laws the library keeps (a stored document reads back, recovery applies
committed transactions only, the index follows every change, and so on) are
public proof functions next to the code they are about.

## What is trusted

The calls into outside code (serde_json, jsonpath_rust, regex, chrono,
uuid, rand, byteorder, crc32fast, and a few std functions Verus has no
specification for) go through 34 trusted items: 24 wrappers marked
`#[verifier::external_body]`, 2 declarations of outside types, and 8 names
for results that are too long to state (such as `crc32` or
`jsonpath_result`).  Each carries a doc comment that says what its contract
claims of the outside function; nothing here proves those claims.

Two functions read the clock and carry no `ensures`:
`RaftNode::election_due` and `VolatileState::is_election_timed_out`.  The
decision they make is stated one call down, in `timed_out_after`, which
takes the elapsed time as an argument.  In the same way, the variants
(`VolatileState::new_at`,
`ClusterNode::record_heartbeat_at`,
`ClusterNode::record_missed_heartbeat_at`,
`ClusterNode::should_failover_after`,
`ClusterNode::tick_with`) take the clock reading as an argument and state
their result exactly.
