# timely: pointstamp reachability

A timely dataflow computation needs to know which timestamps may still arrive at which input of
which operator. This library answers the question for a graph of operators, and Verus proves that
it does what its contracts say.

- A `Builder` takes the nodes of a graph, with the summaries of the paths inside each node, and
  the edges between their ports. `summarize` compiles them into a `Summary`: for each port and
  each input port that can be reached from it, the mutually incomparable summaries of the paths
  between the two. They are the least ones if lesser summaries remain so along a path. The edges
  have to refer to ports that exist, and no loop may leave a timestamp as it is. `try_summarize`
  reports the first such edge or loop, and `summarize_with_loops` allows such loops.
- A `Tracker` buffers changes of timestamp counts that are observed at ports. `propagate` turns
  them into the changes at each input port that they entail along all paths.

## Layout

- `src/order.rs`: partial orders.
- `src/progress/timestamp.rs`: timestamps and path summaries. Proofs that they obey their laws are
  part of the traits.
- `src/progress/frontier.rs`: antichains.
- `src/progress/change_batch.rs`: batches of changes of counts. Counts wrap around.
- `src/progress/sequences.rs`: sequences, finite and infinite, for the proof that the search for
  paths ends.
- `src/progress/nested/`: ports, product timestamps, and `reachability`.
- `src/progress/nested/reachability/`: `builder` and `tracker` hold the code. `topology`, `row`,
  `search`, `minimal` and `flow` hold what their contracts speak of, `laws` what holds of all this
  together, and `history` what any sequence of updates and propagations comes to.

No function is trusted: every contract is proved, down to what `vstd` says of the standard library.
