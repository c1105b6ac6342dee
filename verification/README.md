# langgraph4rust

A workflow engine for graphs of nodes that work on a shared state, verified with
Verus.

- `src/` is the library. A graph is built with `StateGraphBuilder`, held against
  the rules of `graph_validator`, and run as a batch (`StateGraph::invoke`) or as
  a stream of events (`StateGraph::stream`). `execution` says what a run is,
  `laws` what holds of every run, `agreement` when two runs come out the same,
  and `cycles` how circles of static edges are found.
- `app/` runs the same graphs asynchronously: the nodes of a step at the same
  time, events over a channel while the run goes on, the memory behind a lock.
- `tests/` runs the library.

What the library does not prove:

- that a clone of a JSON value is the same value;
- how often and when a node is applied or a router is called: contracts speak of
  what they return, not of what they do to a state behind its `Arc`;
- anything about the clock, or about what is inside JSON values and JSON errors;
- anything about `app/`.
