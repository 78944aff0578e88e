//! The protocol with Pedersen commitments and a second blind for a single
//! secret: each party's commitment is `f * g1 + r * g2 + gamma * g3`.

pub mod dealer;
pub mod party;
pub mod utils;
