# zerokv

A key-value storage engine whose behaviour is stated in contracts and proved with Verus: an
ordered index of skiplists with epoch-based reclamation, a write-ahead log with group commit, and
a mesh of shards that share nothing.

## Layout

- `src/` is the library. Every item in it is verified, but for the calls under "What is trusted".
  `src/lib.rs` lists the modules.
- `tests/` runs the library on concrete values.
- `app/` is a program around the library: threads and core pinning, files, futures, and the
  measurements. Verus does not read it.

## What is proved

| Module | Model | Statements |
|---|---|---|
| `store`, `shard`, `skiplist`, `towers` | a map from byte strings to byte strings | every operation is the map operation; a value that a pinned reader found stays readable until the reader unpins; one operation in 128 tries to free what is old enough; a durable write is in the log before it is in the index |
| `ebr` | slots with epochs, three bags of retired items | nothing that a pinned participant may hold is freed, and nothing is lost or freed twice |
| `mmap_log`, `group_commit`, `regbuf` | sequences of records and bytes | a file that took every batch at its offset holds the records in the order of submission; a file that took the batches whose writes succeeded holds every record whose future is ready with `Ok`; vectored writes cover every byte once |
| `region`, `arena` | bytes with an address | memory starts at a multiple of its alignment, going by the address that is shown for it; allocations are disjoint and the capacity is a multiple of the alignment |
| `zerocopy`, `record_impl`, `derived` | images of values, places of fields | decoding inverts encoding; the text of an implementation is stated in full, and what its calls do is encode the bytes in memory and decode them again |
| `spsc`, `lanes`, `mesh` | queues with their histories, a log for each shard | queues are first in, first out; the workers cannot deadlock; a finished mesh has carried out every write |
| `desk`, `service`, `promises` | requests by ticket | every request gets its outcome, once; a read gives what the key had at some time during the request; an acknowledged write is seen; a service that was shut down has answered every request |
| `executor`, `backoff`, `workload` | tasks, exponents, generators | ready tasks are polled in order; a task is done once it gave its output, which is kept, and is not polled again; waits grow up to a cap |

Operations take `&mut`. A structure that several threads use stands behind a lock in `app/`, and
what is stated of one step of a worker holds in every order in which the workers take theirs.

## What is trusted

- In `backoff`, nothing is claimed of `core::hint::spin_loop` and `RandomState::new`, which have
  assumed contracts, and of `BuildHasher::hash_one`, which stands behind the wrapper `hash_one`.
- In `region`, nothing is claimed of the text that the pointer format `{:p}` shows, which stands
  behind the wrapper `shown`.
- In `record_impl`, it is claimed of `syn::parse_str`, behind the wrapper `parse_declaration`, that
  what it gives is a matter of the text alone. `syn`, `quote` and `proc-macro2` are built without
  their link to the compiler, so that one lexer and one printer serve every process.
