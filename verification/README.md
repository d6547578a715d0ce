# dynostore

A log store kept on an object store, with the decisions it makes proved in Verus.

Topics that share a *prefix* are written together into immutable *segment* objects. Each
segment ends in a footer that says which offsets of which partition lie where. Whoever
creates the object at a sequence first has its offsets, so that writers need no lease.

## Layout

- `src/` is the library: what the store decides and computes, with contracts that say
  what. Two functions promise nothing of what they give: `now_ms` in `object`, which reads
  the clock, and `fresh_nonce` in `random`. The library performs no I/O. A task that alternates with the object store (a flush, a
  fetch, a refresh of the index, a merge, a lease, a change of a document) is a function
  from a state and an event to the next state and what to do.
- `app/` performs what the library asks for, on any `object_store::ObjectStore`. The
  embedding broker provides its routing and its record format through `app/host.rs`.
- `tests/` runs the library on values.

## Where to look

| Subject | Modules |
| --- | --- |
| The segment format | `wire`, `segment`, `codec`, `codec_laws`, `encode`, `frame` |
| The index of footers | `index`, `refresh`, `probe`, `reindex`, `fence` |
| Offsets and deduplication | `producer`, `replay`, `assign`, `retain`, `offsets` |
| Writing | `buffer`, `flush`, `leaseless`, `lease` |
| Reading | `fetch`, `coalesced`, `regions`, `readback`, `trace` |
| Compaction | `coverage`, `select`, `merge`, `perkey`, `walk`, `compact`, `drain` |
| Upkeep | `maintain`, `expire`, `sweep` |
| Documents | `object`, `opticon`, `principals`, `groups`, `members`, `committed` |
| Caches | `prefixes`, `topics`, `locked`, `memo`, `recent` |
| The object store's replies | `metron`, `key_class` |
| Helpers | `ordmap`, `text`, `path`, `clock`, `random`, `config`, `error`, `store` |

Properties that span several functions are public proof functions, beside what they are
about. Some to start with: `what_is_written_is_read_back` and
`batches_are_read_at_their_offsets` in `readback`, `assigned_offsets_leave_no_gap` in
`assign`, `a_batch_is_written_once` in `replay`, `served_ranges_are_disjoint` and
`the_highest_epoch_serves` in `fence`, `a_merge_serves_what_the_run_served` in `merge`,
`truncated_footers_are_refused` in `codec_laws`, `credentials_lie_apart` in `principals`.

## What is believed

Functions marked `external_body` call code outside the crate: string primitives, the clock
and the count of an `Arc`'s holders of the standard library (`text`, `object`, `index`),
`object_store`'s path encoding (`path`), `rand` (`random`, `maintain`), and `cached`'s
expiring map (`memo`). Each says what is believed of it.
