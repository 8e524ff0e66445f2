//! Keeps a relational, versioned projection of the agents and organizations of
//! a ledger, fed by batches of block-commit and state-delta events, and
//! reconciled when the ledger replaces a block.

pub mod block;
pub mod models;
pub mod number;
pub mod store;
pub mod versions;
