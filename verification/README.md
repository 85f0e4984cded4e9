# epok

An operator that exposes the external ports of Kubernetes services on the nodes of a
cluster: from what it knows of the cluster (interfaces, services, nodes) it works out the
forwarding rules and keeps a backend's rules in step with them.

The library under `src/` is verified with Verus:

- `order`, `ordered`, `set`: total orders on texts, ports, services, nodes and interfaces, and
  `OrderedSet`, a set kept as a strictly sorted sequence.
- `res`: services, nodes, interfaces and port specs.
- `state`: the operator's state, its difference with an earlier state, and the operations that
  watch events turn into.
- `operator`: rule and service ids, the rules of a state, what a reconciliation hands to the
  backend, and the `Operator` itself.
- `memory`: `MemoryBackend`, a backend that keeps its rules in memory and keeps to the laws
  that `Backend` states.
- `cli`: the command line options and the interface list they give.
- `laws`: properties that span several functions, proved.

`app/main.rs` reads the command line and sets up the initial state.
