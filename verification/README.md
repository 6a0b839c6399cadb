# hypercube collectives

Message-passing collectives on a hypercube and on a ring of nodes, verified
with Verus.

- `src/` is the library: who talks to whom, in which order, and what each
  node sends and keeps. `broadcast` holds the one-to-all broadcast,
  `reduction` the gather at node 0, `ring` the ring all-to-all broadcast,
  `topology` the neighbour lists, `bits` and `text` the bit and text facts
  they rest on. Each module states the laws of its collective as proof
  functions named `law_*`.
- `app/` runs the collectives on threads joined by channels; every decision
  there comes from the library.
- `tests/` runs the collectives node by node on queues and checks what
  every node ends up with.
