# skip_list

An inverted index kept in a `fiole` keyspace. Each document (a `u32` id) is
recorded under the key of every one of its values, and in the set of every
document; a query (`Filter`) combines those sets of ids, held in roaring
bitmaps.

Layout of a key: tag byte `0` alone for the set of every document, tag byte `1`
followed by the value's encoding for the documents holding that value. Range
queries scan the tag-1 keys in byte-wise order, so the order of values is the
order of their encodings.

- `src/` — the library, verified with Verus:
  - `lib.rs`: `SkipList` (`insert`, `try_insert`, `filter`, `try_filter`).
    Values reach the library encoded, each with the error that encoding it
    gave in place of its encoding where it failed: a query fails on such a
    value only where its evaluation reaches it, and an insert keeps what it
    wrote before it. The `try_` forms answer `None` where the evaluation or
    the insert reaches a key that the store cannot take (over 65535 bytes) or
    cannot read back (one of another layout), on which the others panic;
  - `key.rs`: the key layout and its codec;
  - `query.rs`: `Filter`, `Bound`, and the text of a query;
  - `model.rs`: what the stored content means and what a query reads from it;
  - `laws.rs`: the documents the index holds, what a query selects among them,
    and the proofs that `insert` and `filter` agree with that meaning;
  - `store.rs`, `bitmap.rs`: the calls into `fiole` and `roaring`, each with the
    contract it is trusted to meet.
- `app/` — the typed face: values given as items of a `fiole` codec, encoded
  before they reach the library; it panics where the `try_` forms answer
  `None`.
- `tests/` — tests against a real keyspace in a temporary directory.
