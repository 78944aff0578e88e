//! The protocol with hash commitments for a single secret.

pub mod dealer;
pub mod party;
