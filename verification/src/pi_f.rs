//! The protocol with group-element commitments for a single secret.

pub mod dealer;
