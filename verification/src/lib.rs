//! Verified analyses for a JavaScript compiler middle end: regional control
//! flow, dominance and dominance frontiers, binding captures and binding
//! promotion, region captures, value dependence, escape and points-to facts,
//! abstract values, module linkage, whole-program reachability and the
//! program call graph; and the plans of the control-flow, dead-binding and
//! unreachable-block simplifications.

pub mod abstract_value;
pub mod binding_promotion;
pub mod call_graph;
pub mod capture;
pub mod control_flow;
pub mod dead_bindings;
pub mod dependence;
pub mod dominance;
pub mod dominance_frontier;
pub mod dominator_tree;
pub mod escape_flow;
pub mod flow;
pub mod forwarding;
pub mod function_escape;
pub mod function_pointer;
pub mod function_reachability;
pub mod function_value_inputs;
pub mod ir;
pub mod operation_safety;
pub mod paths;
pub mod pointer_flow;
pub mod program;
pub mod program_call_graph;
pub mod program_linkage;
pub mod program_reachability;
pub mod region_capture;
pub mod program_targets;
pub mod reference_order;
pub mod pointer_solver;
pub mod points_to;
pub mod sparse_bitset;
pub mod transfer;
pub mod unreachable_blocks;

