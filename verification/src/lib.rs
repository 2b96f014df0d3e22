//! Core logic of a bulk file-scanning pipeline: signature-table and
//! ownership-table parsing, per-file context derivation, match scoring and
//! filtering, and the shared scan-state bookkeeping.

pub mod errors;
pub mod text;
pub mod magic;
pub mod userid;
pub mod state;
pub mod report;
pub mod context;
