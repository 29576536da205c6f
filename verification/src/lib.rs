//! Static analyses over a program in SSA form: the call graph, the functions
//! by their type, and for each function the control flow graph, the dominator
//! and post-dominator trees, and the control dependence graph.
//!
//! [`Analysis`] is the entry point: it makes each analysis when it is first
//! asked for and keeps it.

pub mod analysis;
pub mod cache;
pub mod call_graph;
pub mod control_dep_graph;
pub mod control_flow_graph;
pub mod dom_tree_builder;
pub mod dominance;
pub mod dominator_tree;
pub mod estimates;
pub mod fixed_point;
pub mod functions_by_type;
pub mod graph;
pub mod ir;
pub mod lifting;
pub mod name_index;
pub mod node_table;

pub use crate::analysis::Analysis;
pub use crate::cache::{MappingCache, SimpleCache};
pub use crate::call_graph::CallGraph;
pub use crate::control_dep_graph::ControlDependenceGraph;
pub use crate::control_flow_graph::ControlFlowGraph;
pub use crate::dominator_tree::{DominatorTree, PostDominatorTree};
pub use crate::functions_by_type::FunctionsByType;
pub use crate::ir::{
    AnalysisError, BasicBlock, CFGNode, Callee, Function, Module, Name, OperandType, Terminator, TypeRef,
};
