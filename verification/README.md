# dewdb

The decision core of DewDB, a replicated and sharded store of JSON documents, written in Verus. Every
rule that a node applies to its own state, to a peer's message or to a client's document is a function
under `src/` with a contract that Verus proves.

## Layout

- `src/` is the library.
  - `consensus/`: who votes, who leads, what is committed inside one shard group: configurations and
    their quorums, votes, campaigns, leases, linearizable reads, membership changes, handovers.
  - `cluster/`: the topology and how it travels, ownership of keys, movement of data between groups,
    request routing, queries over every group, change streams.
  - `json`, `number`, `wire`: documents, their order, patches and projections, and their text.
  - `ring`: hash ranges and the consistent-hash ring.
  - `config`, `boot`, `logging`, `maintenance`, `metrics`, `model`: settings and what follows from them.
  - `text`, `endpoint`, `escape`, `lists`, `sorting`, `name_map`, `key_set`: what the rest is built of.
- `tests/` runs the library on concrete values.
- `app/` is a router in ordinary Rust around the library: HTTP, files, timers and logging. A shard's
  storage engine is not part of this crate.

## Conventions

Time is a number of nanoseconds on a monotonic clock that the caller passes in. A request that
alternates between deciding and asking others is a state machine: each answer is an event, and each
event gives the next thing to do. HTTP statuses are numbers.

Calls into other crates stand behind declarations whose contracts are taken on trust. Each says in its
doc comment what it claims: `xxh64` in `ring`, JSON text in `wire`, the level parser in `logging`, fresh
ids in `cluster::router`, and a few functions of the standard library in `text`.
