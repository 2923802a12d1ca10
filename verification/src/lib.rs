//! A local runner for CI pipeline definitions: resolves job inheritance,
//! merges variables with the documented precedence, selects jobs by name or
//! stage, expands shell-style variable references, and plans the command
//! lines a job will run.
pub mod driver;
pub mod expand;
pub mod model;
pub mod resolver;
pub mod selector;
pub mod vars;
