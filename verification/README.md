# irokle

A signed Merkle-DAG operation log for invite-only topics, verified with Verus.

Each topic is a DAG of ed25519-signed operations: a genesis that names the
initial members, events, and membership and replication controls. Nodes exchange
summaries and operations, admit what verifies at its DAG position, and sign
acknowledgements of what they hold. Data of a topic a node does not hold is staged
until the staged history proves that both the node and the sender are members.

## Layout

- `src/ids.rs`, `idset.rs`, `idmap.rs`, `clock.rs`, `order.rs`: identifiers,
  sorted sets and maps of them, actor clocks, sort keys.
- `src/codec.rs`, `op.rs`, `topic.rs`, `frame.rs`: the signed byte encodings of
  operations and payloads, and length-prefixed frames.
- `src/crypto.rs`: blake3 and ed25519 behind trusted wrappers.
- `src/storage.rs`: the in-memory store of operations, topic states, buffered
  operations, acknowledgements and evictions.
- `src/oplog/`: admission of local and received operations, genesis choice,
  causal pasts, history order, integrity scans, quarantine.
- `src/node/`: the node facade: topics, history reads and pages, DAG queries,
  sync summaries and acknowledgements, bootstrap staging, peer selection.
- `src/resync.rs`: the resync scheduler: due targets, claims, backoff, leases.
- `src/transport.rs`: stream bounds, protocol names, attempt progress.
- `src/session.rs`, `paging.rs`, `batch.rs`: what each sync message is answered
  with, data pages within a message count and byte budget, and the steps of a
  batch of topic exchanges with one peer.
- `src/accept.rs`, `sweep.rs`: admission of incoming connections, and the timing
  of background resync sweeps.
- `src/status.rs`: per-peer sync records: state, obligations, attempts, errors.
- `src/manual.rs`, `followup.rs`: the paging decisions of a manual sync, and the
  grouping of a batch's follow-up replies into sends.
- `src/round.rs`: the decisions of a resync batch between its round trips: the
  fingerprint round, the grouping of planned topics into one stream, how each
  exchanged topic ended, and which claimed targets are attempted, released or
  failed.
- `app/`: the system clock, shared ownership with destructors, and `std::io`
  error inspection around the library.
- `tests/`: scenarios run against the compiled library.
