//! Path-sensitive context-graph core for a static analyzer of
//! smart-contract source.
//!
//! The crate models one analysis run as an append-only arena of typed
//! nodes connected by typed edges: execution-path contexts that fork at
//! conditionals and die on unreachable branches, SSA-style snapshots of
//! variables with attached value ranges, and the derived facts a bound
//! analysis extracts from recorded index accesses.

pub mod analysis;
pub mod ast;
pub mod builder;
pub mod context;
pub mod cvar;
pub mod error;
pub mod graph;
pub mod loc;
pub mod nodes;
pub mod util;

pub use analysis::{Analysis, ArrayAccess, ArrayAccessAnalysis, Relative, RelativeTarget};
pub use builder::ExprRet;
pub use context::{Context, ContextEdge, ContextNode};
pub use error::{AnalysisError, ErrorKind};
pub use graph::{Analyzer, Edge, GraphEdge, Node};
pub use loc::{Loc, LocSpan};
pub use nodes::{Builtin, Concrete, ContextVar, ContextVarNode, FunctionNode, Range, RangeElem, VarType};
