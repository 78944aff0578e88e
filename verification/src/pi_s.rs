//! The publicly verifiable protocol for a single secret.

pub mod dealer;
pub mod party;
