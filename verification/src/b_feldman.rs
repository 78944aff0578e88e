//! The batched Feldman protocol: the dealer commits to the coefficients of
//! the polynomials, and a share is checked against the commitments
//! evaluated at the party's index.

pub mod dealer;
pub mod party;
