# reverse_cluster

The control and placement logic of a sharded reverse-query matcher, verified with Verus.

A reverse-query matcher stores queries and finds those that a given title matches. This library
holds what the coordinator of a cluster of such matchers decides:

- `control`, `control_laws`: the cluster-state document and the changes that are committed to it.
- `control_raft`, `control_store`, `control_wire`: the same document under consensus: the log, the
  state machine, the files of a manager node, and requests from other processes.
- `allocator`: which nodes hold which position.
- `clog`: the log of query mutations and its format.
- `autoscale`: when to rebalance, move, split or grow.
- `coordinator`: routing and merging, ranked and exhaustive requests, loading and repair,
  checkpoints, resizes, moves of single positions and of replica groups, sweeps, and the removal of
  shards that nothing routes to.

Each module states what its functions return over mathematical models and proves it; the functions
named `law_..` state what holds across several of them. Where the cluster alternates decisions and
calls to other processes, the decisions are a state machine in the library: `call` says what to do
next and `next` takes what came of it.

`app/` is ordinary Rust around the library: files, threads, the consensus engine, and the drivers
that carry out what the library decides. `tests/` runs the library from outside.
