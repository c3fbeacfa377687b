# Sally

Building blocks of a modular model checker, verified with Verus.

- `src/computation`: bit sets and action sets over 64-bit words, interval sets
  (convex, disjoint, continuous), sorted disjoint intervals, a byte-addressed memory
  for the discrete variables of models, offset lists, combination and product
  enumerators, fixed points of step functions, and difference bound matrices over
  clock bounds, held in `nalgebra` matrices (zones, kept by each added bound and by the
  canonical form, which is proved closed wherever the bounds are small enough for no sum to
  overflow).
- `src/models`: labels, variables, clocks, the context that maps the variables of a
  model into memory, conditions and expressions (their meaning along a run, their
  rewriting, their disjunctive and conjunctive normal forms, their written form and
  their evaluation on a state), and directed graphs with their traversals, shortest
  paths (Floyd-Warshall and Dijkstra) and loop detection.
- `src/models/class_graph.rs`: state classes of time Petri nets, the class reached by
  firing a transition, and the class graph gathered from an initial class, each class
  recording the classes and transitions it is reached from.
- `src/io`: reading and writing SLY documents, the JSON files that name the type of
  the model they hold.
- `src/game.rs`: runs of a model, as sequences of transitions and states.
- `src/verification`: the three-valued outcome of checking a condition on a state, and
  the interface of the states that conditions are checked on.
- `app/`: the command-line program, and what works on floating-point numbers or on
  threads: random distributions, genetic optimization and real-valued distances.

The tests under `tests/` exercise the library with the outside crates linked.
