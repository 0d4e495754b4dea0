//! Ledger-side request registry with chunked response staging, and the
//! decision logic of the off-ledger relay worker that serves it.

pub mod registry;
pub mod relay;
