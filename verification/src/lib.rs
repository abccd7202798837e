//! Contributor node of a BLS threshold signature aggregation protocol.
//!
//! A fixed committee of contributors, each holding a BN254 keypair, signs a
//! per-round task payload announced by a single orchestrator. One contributor
//! may also act as aggregator: it collects partial signatures from its peers,
//! detects when a threshold is reached, and combines the partials into one
//! aggregate signature.
//!
//! The round-driven state machine (membership index, per-round signature
//! store, duplicate rejection, threshold detection, participant ordering) is
//! verified. Elliptic-curve operations are delegated to the `bn254` crate
//! through a small set of trusted wrappers.

pub mod bytes_ord;
pub mod contributor;
pub mod crypto;
pub mod laws;
pub mod session;
pub mod wire;
