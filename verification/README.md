# lib

Verified analyses of a JavaScript compiler's middle end, written in Verus.

The intermediate representation is modelled as plain data: `ir.rs` holds a
module's functions, operations, regions, bindings, imports and exports, and
`program.rs` a linked program of modules with their dependencies. Analyses
that read block structure take it as a shape of their own (`RegionShape`,
`FunctionLayout`, `RegionLayout`, `FunctionFacts`).

- `control_flow`, `dominator_tree`, `dominance_frontier`: regional control
  flow graphs, dominators and (iterated) dominance frontiers.
- `forwarding`, `dead_bindings`, `unreachable_blocks`: planning the removal
  of blocks that only forward their parameters, the merging of linear
  blocks, the removal of module bindings that are only initialized, and the
  removal of blocks that cannot execute.
- `capture`, `binding_promotion`, `region_capture`: which bindings nested
  functions capture, which bindings can become SSA values, and which values
  cross region boundaries.
- `dependence`, `escape_flow`, `function_escape`, `pointer_flow`,
  `pointer_solver`, `function_pointer`: value dependence, escape and
  points-to facts of one function.
- `abstract_value`, `transfer`, `function_value_inputs`, `operation_safety`:
  the abstract value domain, its transfer rules, and whether an operation's
  evaluation can be discarded.
- `program_linkage`, `program_reachability`, `program_targets`,
  `program_call_graph`, `reference_order`, `function_reachability`: import
  resolution, whole-program reachability, call targets, the call graph and
  the stable order of function references.

Every public function states its result in `ensures`; laws that relate
several functions are public proof functions. Tests are under `tests/`.
