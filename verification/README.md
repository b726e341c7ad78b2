# consensus

Verified pruning-point logic of a blockDAG consensus: building, applying and
serving pruning point proofs, the anticone of the pruning point with its
trusted data, and the store of UTXO multiset hashes.

- `src/model.rs`: headers, GHOSTDAG data, the block order by blue work.
- `src/stores.rs`, `src/reachability.rs`: in-memory stores of headers,
  GHOSTDAG data, DAG relations, reachability, pruning points.
- `src/pruning_proof.rs`: the proof manager (import of pruning points,
  population of reachability, application and construction of proofs).
- `src/traversal.rs`, `src/trusted_data.rs`: the anticone of the pruning
  point, the trusted data sent with it, and the cache that serves both.
- `src/utxo_multisets.rs`: multiset hashes by block, direct and batched.
- `src/errors.rs`, `src/rpc.rs`: error and RPC entry types.
- `app/`: the consensus interface and the copies of the error and RPC types
  that carry error messages and serde/borsh encodings.
