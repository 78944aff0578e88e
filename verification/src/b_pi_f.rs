//! The batched protocol with group-element commitments: each party's
//! commitment is the sum of its shares times their generators and of the
//! value of the blinding polynomial times another generator.

pub mod dealer;
pub mod party;
