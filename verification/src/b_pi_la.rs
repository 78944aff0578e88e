//! The batched protocol with hash commitments: each party's commitment is
//! the hash of its shares and of the value of the blinding polynomial.

pub mod dealer;
pub mod party;
