//! Verifiable secret sharing over the Ristretto group: a polynomial algebra over
//! the scalar field, Fiat-Shamir challenges, Lagrange reconstruction, and the
//! dealer and party state machines of several protocol variants.

pub mod b_feldman;
pub mod b_pedersen;
pub mod b_pi_f;
pub mod b_pi_la;
pub mod b_pi_p_plus;
pub mod b_pi_s;
pub mod commit;
pub mod dleq;
pub mod error;
pub mod field;
pub mod fused;
pub mod lagrange;
pub mod pi_f;
pub mod pi_la;
pub mod pi_p;
pub mod pi_s;
pub mod polynomial;
pub mod precompute;
pub mod random;
pub mod ristretto;
pub mod scalar;
pub mod secret_sharing;
pub mod transcript;
pub mod utils;
