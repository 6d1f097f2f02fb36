# vector_index

Approximate nearest-neighbour indexes with machine-checked contracts.

| Module | What it holds |
| --- | --- |
| `dataset`, `types`, `index` | vectors, metrics, errors, results, and what every index offers |
| `bits`, `math` | floating-point numbers as bit patterns, and the arithmetic that callers supply |
| `ranking` | sorting, keeping the best few, taking the best next |
| `graph`, `links`, `search_laws` | searching, pruning and linking proximity graphs |
| `nsw`, `levels`, `hnsw` | one proximity graph, and a hierarchy of them |
| `clusters`, `ivf`, `ivf_laws` | rows grouped around centroids |
| `codebooks`, `pq`, `pq_laws` | groups whose rows are stored as codes |

`src/` is the library. `app/` is a thin crate around it that works on `f32`
vectors: it supplies the arithmetic and the random draws, and converts.

The library holds no floating-point code. Functions that need arithmetic take a
`VectorMath` and ask that it be `lawful`: the same arguments give the same
answer. Every contract then speaks of the numbers that it computes.
