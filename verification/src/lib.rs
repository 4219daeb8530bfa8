//! Host-side core of a small script-module runtime: a shared task ledger
//! with deterministic smallest-id-first assignment, extension-based module
//! classification and transpilation, and worker-pool bookkeeping.

pub mod lex;
pub mod ledger;
pub mod modules;
pub mod dispatch;
