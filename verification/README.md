# sbann

A streaming int8 IVF-PQ index for nearest-neighbour search. Points are int8 vectors; a router sends
each of them to one or more cells, a compressor stores short codes for the points of a cell, and a
query scans the codes of the cells it probes and ranks the survivors exactly.

## Layout

- `src/` is the library. Every function carries its contract and is verified with Verus. It works on
  integers, bytes and bit patterns of floating-point values.
- `tests/` runs the library on concrete values.
- `app/` is the command line around the library: files, the process environment, threads, timing, and
  the single-precision arithmetic of training and of query tables.

## Modules of the library

| What | Where |
| --- | --- |
| bytes, words, file formats | `bytes`, `persist`, `ibin`, `fbin`, `sidecar`, `trace`, `dump`, `meta`, `bitcode`, `half` |
| distance and table kernels | `simd`, `pq` |
| ordering, selection, hash table of ids | `order`, `table`, `fused`, `refine` |
| routing | `router`, `hier`, `routes`, `spill`, `training` |
| codes in cells | `compress`, `layout` |
| the index and its searches | `index`, `scan`, `search`, `rerank`, `batch`, `adaptive`, `floatrank`, `ivf` |
| inserts and deletions | `stream`, `append`, `live` |
| images of an index | `store`, `image`, `archive`, `sound`, `revive` |
| neighbour graphs | `graph`, `knn`, `descent`, `prune`, `double`, `entry` |
| presets, plans, reports | `preset`, `plan`, `text`, `report`, `scatter` |
| what holds of searches as a whole | `truth`, `whole`, `agree`, `alike`, `built` |

Public proof functions whose names begin with `law_` state what holds of the library as a whole, for
example that a search of all cells with a full rerank is exact, that an image gives back the index it
was made from, or that a deleted point is never found.

Floating-point values enter the library only as bit patterns. Two calls leave it: byte strings are
read and written as signed values through `bytemuck`.
