//! Incremental rebuild engine of a JavaScript/TypeScript bundler:
//! a module dependency graph, an update planner that turns file-system
//! events into a minimal change set, per-module statement graphs with a
//! used-ident reachability query, and the re-export resolution used by
//! tree-shaking, together with the pure decision logic of the dev loop.

pub mod ident;
pub mod idents;
pub mod statement;
pub mod statement_graph;
pub mod reexport;
pub mod module_graph;
pub mod text;
pub mod update;
pub mod dev;
pub mod analyze;
