# minikanren_1bit_chirho

Bit-parallel building blocks for a miniKanren-style logic solver, verified with
Verus.

`src/` is the verified library. Its modules:

- `bits`, `hardware`, `hardware_state`, `optics_hw`: bit-vector domains of 64 to
  512 values, search states over them, and lenses/prisms on those states.
- `hierarchical`, `paged`, `complement`, `symbolic`, `hw_symbolic`, `hybrid`:
  larger, sparse, cofinite, symbolic (ranges, residues, type tags) and mixed
  domain representations, each with its set semantics stated and its
  operations proved against it.
- `bitmatrix`, `bitmatrix_packed`, `relation`, `relations`: relations as
  packed boolean matrices and tensors; composition, closure, appendo/membero.
- `constraint`, `backend`, `fpga_control`: constraint propagation (AC-3 and
  fixpoint propagation) and complete search, the solver-backend interface and
  its CPU implementation, and the decisions of the FPGA backend.
- `contraction`, `elimination`, `contraction_learn`: tensor-network
  contraction planning (greedy order, minimum-degree elimination order) and the
  network graph used for learned ordering.
- `hw_goals`, `gpu_batch`, `fused`, `adaptive`: goals over hardware states,
  batched search, fused-engine configuration, mode analysis and goal ordering.
- `slg`, `reach`: tabling with SLG completion (answer tables, dependency
  graph, strongly connected components in dependency order) and the
  reachability machinery it rests on; the even/odd bit tensor.
- `recursion`: one layer of term structure, an indexed term store and
  catamorphism/paramorphism folds with their standard algebras.
- `union_find`, `egraph_native`: a flat union-find and the native e-graph
  over it: hash-consed nodes, groundness and constant analysis (each class
  keeps the combined data of the classes it took in), unification that
  refuses clashing constants, and rebuilding to congruence closure.
- `counting`: counts of the integers of a window that meet a predicate,
  tied to set sizes and to the set bits of words.
- `egraph_data`, `closure_plan`: the per-class data rules of the e-graph store
  and the host-side steps of a GPU transitive closure.

`tests/` exercises the library. `app/` holds the parts that are I/O or
floating point: the `egg`-based e-graph store, the `wgpu` GPU context, backend
construction from the environment, and the floating-point modules (learning,
differentiable domains, schema validation, adaptive representation choice).

The miniKanren core itself is not part of this crate: lazy substitution
streams, goals as closures and as an interpreted AST (`eq`, `conde`, `run`),
free goals, linear goals and the comonad zipper. All of them are written over
a term store, substitutions and unification of terms, none of which this
crate contains, so they are in neither `src/` nor `app/`.
