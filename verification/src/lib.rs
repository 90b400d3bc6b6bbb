//! Gateway logic of the ZeroClaw agent runtime: scoped session keys,
//! the node control plane, and the integer side of retry backoff.

pub mod gateway;
