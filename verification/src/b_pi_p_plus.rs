//! The batched protocol with hashed shares in a Pedersen commitment: each
//! party's commitment is `h * g1 + gamma * g2`, where `h` is the hash of its
//! shares and of the value of the blinding polynomial, and `gamma` a second
//! blind that is sent with the shares.

pub mod dealer;
pub mod party;
