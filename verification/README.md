# ammo

The core of a small game engine, written in Verus and proved against its
contracts.

- `src/` is the verified library:
  - `ecs`: object ids, versions, component stores (sorted parallel vectors
    with tombstones and a sorted list of pending inserts), component
    identities, and the counter/random state of the id factory.
  - `ecs_core`: the identifiers and the component trait shared with users.
  - `framer`: varints, frame headers, the framer that writes frames and the
    parser that reads them back.
  - `net`: connection settings, how much of the first message may be read
    next, and message-handling outcomes.
  - `nzslab`: a slab addressed by handles that carry their slab's tag and
    their slot's version.
  - `self_organizing_list`: a bounded cache that moves hits toward the front.
- `tests/` runs the library on concrete values.
- `app/` holds what the verifier does not take: copies of library types with
  serde, thiserror and derive_more derives, the id factory's lock and rate
  limiter, type-erased store and system maps, the tokio server and
  connections, and the floating-point clock and physics.

Each module states its laws as public proof functions (`law_*`).

Two collections are held in plain vectors, with the properties that matter
stated as invariants and proved:

- The store's pending inserts are two parallel vectors sorted by id, not an
  ordered map: the key, `ObjectId`, is a struct whose order comes from a
  derived `Ord` that the verifier does not read, so calls on a map keyed by it
  could not be proved.
- The self-organizing list keeps its entries in a `Vec` with a fixed capacity
  rather than a fixed-capacity vector from another crate: that type is generic
  over its items, and what it holds could only be named for one item type.
