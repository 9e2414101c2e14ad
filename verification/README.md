# tricti

The compiler front end and runtime core of TriCTI, a data-oriented language that brings
together ECS systems, relational tables, array computation and reactive programming. The
library is written in Verus: every function in `src/` has a contract, and Verus proves that
the code meets it.

## Layout

- `src/` is the verified library.
  - Syntax trees: `ast`, `ast_copy`, `indentation` (turns indentation-based blocks into braces).
  - Scheduling: `scheduler` (borrow tracking, conflict graph), `conflicts`, `system_scheduler`,
    `graph` (reachability and cycles).
  - Tables: `table_values`, `query`, `optimizer`, `computed_columns`.
  - Runtime: `async_runtime`, `async_scheduler_integration`, `async_table_integration`,
    `resource_lifecycle`, `error_propagation`, `event_loop_manager`.
  - Building: `program_loader`, `build_system`, `package_manager`, `filesystem`.
  - Helpers: `names`, `text`, `clock`.
- `tests/` runs the library on concrete inputs.
- `app/` is the command-line program around the library: argument handling, files, and the
  loops that perform what the library decides.

Laws that span several functions are stated as public proof functions whose names begin
with `law_`.
