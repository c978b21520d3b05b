//! Policy validation and dependency provenance for a dependency auditing tool.
pub mod ident;
pub mod diag;
pub mod cfg;
pub mod krates;
pub mod spans;
pub mod grapher;
