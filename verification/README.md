# redisops

An in-memory key-value store with a small job queue, in the style of Redis,
written in Verus: the store, the sorted sets, the lists, the wire format and
the command interpreter carry contracts that Verus proves.

## Layout

- `src/` — the verified library
  - `shard.rs` — FNV-1a hashing of keys into 32 shards (used by the expiry sweep)
  - `text.rs` — character-level helpers: decimal integers both ways, joining, prefixes
  - `zset.rs` — sorted sets ranked by (score, member), scores as IEEE-754 bit patterns
  - `store.rs` — the keyspace: strings, sorted sets and lists with millisecond deadlines,
    in insertion order, with a hash index from key to position
  - `proto.rs` — request parsing, reply serialization and framing
  - `handler.rs` — the command interpreter (`dispatch`, `try_dispatch`)
  - `stats.rs`, `server.rs` — counters and server settings
  - `laws.rs` — properties proved across operations (read after write, expiry,
    first-in first-out over any number of pushes, the sweep covering every
    shard, case-insensitive command names, request round trip, error replies
    leave the store alone, ...)
- `tests/` — tests of the library, including requests over the wire format
- `app/` — the tokio server: shared store, background expiry sweep, TCP frame I/O

Time enters the library as a parameter `now` (milliseconds on a monotonic
clock); the server supplies it. Doubles enter as their bit patterns; the server
parses the text of each argument as a double before calling the interpreter.
