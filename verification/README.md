# flow_rs

A dataflow-graph engine whose decision-making core is verified with Verus.

A graph is described in TOML: nodes of registered types, external inputs
and outputs, internal connections between `node:port` references, shared
resources, and subgraphs that are inlined or instantiated while the graph
runs.  Messages travel between nodes in typed envelopes that carry metadata.

## Layout

- `src/` — the verified library.
  - `envelope`, `dr`, `algo_base`: message envelopes and their metadata,
    records with private data and a dirty flag, tracking states.
  - `config`, `interlayer`, `text`, `search`: the configuration model,
    port and message-type descriptions, string helpers with their proofs.
  - `subgraph`: flattening of statically referenced subgraphs.
  - `conversion`, `type_infer`: the conversion table and channel-type
    inference, where a port's template parameter takes the type chosen for
    an edge at its node.
  - `registry`, `wiring`, `graph`, `resource`: node registrations, the
    wiring plan of a graph (which channel end reaches which port), dynamic
    subgraph wirings, resources and node contexts.
  - `node`, `broker`, `topics`, `channel`, `builtin`: the life of a node
    task, broker mailboxes, who receives each broker topic's messages, batch
    bookkeeping, and what the built-in nodes decide.
  - `expansion`: what the node and conversion macros decide — accepted
    conversion signatures, the port-list grammar, injected port fields, how a
    node's fields become ports and arguments, and added lifecycle methods.
- `app/` — the runtime around the library: TOML parsing, Tokio channels and
  tasks, compile-time registries, the built-in node tasks, the broker,
  dynamic subgraph instances and the single-node sandbox.
- `tests/` — tests of the library.
