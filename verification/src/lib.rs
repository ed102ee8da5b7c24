//! Core logic of a script kernel: script inputs, module naming, import
//! discovery and the dependency graph of a script.
pub mod config;
pub mod error;
pub mod graph;
pub mod host;
pub mod imports;
pub mod kernel;
pub mod path;
pub mod python_runtime;
pub mod text;
pub mod util;
