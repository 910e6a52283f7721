// Incremental synchronization of a directory tree against a recorded state:
// the tree model and its differences, path filters, variable substitution,
// command-step preparation and the worker-pool decisions.

pub mod command;
pub mod diff;
pub mod filter;
pub mod hashing;
pub mod manifest;
pub mod ordering;
pub mod partition;
pub mod paths;
pub mod plan;
pub mod pool;
pub mod process;
pub mod soundness;
pub mod text;
pub mod tree;
pub mod vars;
