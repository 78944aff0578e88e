//! The batched publicly verifiable protocol: shares are encrypted to the
//! parties' public keys, and anyone can check the dealer's proof.

pub mod dealer;
pub mod party;
