# segment: a verified numeric payload index

Points of a segment carry numeric payload values (integers, or doubles held by
their IEEE 754 bit patterns). The index keeps one twelve-byte key per
(value, point): eight big-endian bytes of an order key of the value, then four
big-endian bytes of the point. Range conditions select a contiguous run of keys.

- `src/key_encoding.rs`: the key encoding, with proofs that keys decode to what
  they encode and that byte order of keys is the order of (value, point).
- `src/key_order.rs`: the order in which the index map hands out its keys.
- `src/btree_index.rs`: the in-memory index (add, load, remove, filter, counts).
  Operations that change a backing store give back the keys to write or delete.
- `src/index_laws.rs`: laws that relate the operations (loading what was
  written, removing what was added, range conditions on values, the agreement
  of keys and values that adding and removing keep, filtering over values).
- `src/reload_laws.rs`: reading a store back, in any order and in key order.
- `app/`: the RocksDB-backed store around the index, JSON value reading, range
  bounds given as doubles, and the command-line entry point.
