//! Initialization of shielded-pool reward and limit parameters for bridged
//! tokens.
//!
//! A fixed table of token descriptors drives a one-shot ledger transaction:
//! for each descriptor the canonical token identifier is derived from its
//! channel and base token, the protocol's per-token parameter keys are
//! derived from that identifier, and a consistent set of initial values is
//! written into the ledger's key-value state.  Two transaction bodies are
//! provided: a strict one that requires a pooled balance to exist for every
//! token, and a lenient one that also registers deposit/withdrawal limits
//! and extends the global token map.

pub mod amount;
pub mod dec;
pub mod keys;
pub mod ledger;
pub mod table;
pub mod tx;
