use vstd::prelude::*;

pub mod ast;
pub mod ast_copy;
pub mod names;
pub mod graph;
pub mod clock;
pub mod scheduler;
pub mod conflicts;
pub mod text;
pub mod indentation;
pub mod table_values;
pub mod async_runtime;
pub mod async_scheduler_integration;
pub mod async_table_integration;
pub mod resource_lifecycle;
pub mod query;
pub mod optimizer;
pub mod error_propagation;
pub mod computed_columns;
pub mod system_scheduler;
pub mod build_system;
pub mod filesystem;
pub mod program_loader;
pub mod event_loop_manager;
pub mod package_manager;

verus! {

} // verus!
