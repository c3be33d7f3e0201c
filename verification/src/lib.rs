//! Status reconciliation for a working directory that is tracked both by a
//! commit-graph ledger and by an artifact tracker that keeps `.dvc` sidecar
//! files in that ledger.

pub mod dvc;
pub mod error;
pub mod file;
pub mod file_tree;
pub mod git;
pub mod ledger;
pub mod path;
pub mod sidecar;
pub mod state;
pub mod status;
pub mod path_map;
pub mod text;
