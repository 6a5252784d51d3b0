//! Change detection and reconciliation for mirroring a file tree into a
//! remote document store keyed by relative path.

pub mod fingerprint;
pub mod walk;
pub mod cache;
pub mod reconcile;
pub mod laws;
