# oblioplib

A library of operators over registered data, with its contracts proved by
Verus.

- `src/context.rs`: data descriptions, operator expressions, replies.
- `src/manager.rs`: the registry of data by id, and the answer to a data
  request.
- `src/operator/`: preparing and executing operator trees, the hash and
  sort operators, the merge join that emits fixed-size blocks, and
  resumable contexts.
- `src/getter.rs`: records and the cursor that reads them.
- `src/strmap.rs`: the string-keyed map under the registry and the stash.
- `src/logger.rs`, `src/util.rs`, `src/fbs_vec.rs`: the log buffer, byte
  dumps, and the FlatBuffers row table.
- `app/`: the process-wide registries, JSON replies and the serde copies
  of the message types.
