# lib: the verified core of an incremental computation engine

A graph of nodes, each computed from its inputs, is kept up to date after some
inputs change by recomputing only what depends on them, in order of height. This
crate holds the bookkeeping behind that, written in Verus and proved against its
contracts:

- `graph`: the dependency graph as an arena of nodes, with parent/child links that
  agree from both ends, and the edges heights must respect.
- `recompute_heap`, `adjust_heights_heap`, `height_adjustment`: the queue of nodes
  to recompute, layered by height, and the raising of heights after a new edge,
  with cycle detection.
- `node_state`, `stabilise`: staleness, the decision to recompute, cutoffs, change
  counting, the queue of nodes whose update handlers run afterwards, taking the
  lowest layer out of the recompute heap, and the stabilisation loop that empties it.
- `values`, `step`: node values held by node, the change decision a cutoff makes
  from the old and the new value, and one recomputation step driven by what the
  node's own function gave: a value, a bind's new right-hand side (which switches
  the bind and invalidates what its scope made before), or invalidity.
- `bind`: binds, whose main node switches to the right-hand side its function
  returns, invalidating what its scope made the previous time.
- `necessity`, `invalidity`, `observation`, `expert`, `var`: nodes becoming needed
  or unneeded, invalidation and its propagation, observers coming into use and
  being unlinked, dynamic dependencies of expert nodes, variables, and the end of a
  stabilisation.
- `node_update`, `observer`, `public`: what update handlers and observers see.
- `symmetric_fold`, `sorted_map`, `closure_fold`, `unordered_fold`, `fold_law`:
  folds and filter-maps over sorted maps and arrays that apply only the difference
  between two versions, and the proof that doing so gives the fold of the current
  map.

`tests/` exercises the library on concrete graphs. The functions that nodes compute
and user callbacks stay outside the library: whoever runs them hands the library
what they gave (`Recomputed`), and a stabilisation with binds is driven by
`Graph::take_min_layer` and `Graph::recompute_step`.
