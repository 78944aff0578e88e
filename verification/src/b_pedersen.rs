//! The batched Pedersen protocol: the dealer commits to the coefficients of
//! the polynomials, blinded by the coefficients of a further polynomial
//! whose values are sent with the shares.

pub mod dealer;
pub mod party;
