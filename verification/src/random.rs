//! Sampling of scalars and group elements from a caller's generator.

use crate::ristretto::{all_valid, RistrettoPoint};
use crate::scalar::{all_canonical, Scalar};
use crate::transcript::wipe;
use rand::{CryptoRng, RngCore};
use vstd::prelude::*;

verus! {

/// `rand::RngCore::fill_bytes` on a 64-byte buffer. The bytes depend on the
/// generator's state; nothing is claimed of them.
#[verifier::external_body]
fn rng_fill_64<R: CryptoRng + RngCore>(rng: &mut R, buf: &mut [u8; 64]) {
    rng.fill_bytes(buf);
}

/// `rand::rng` and `fill_bytes` on a 64-byte buffer: bytes from the thread's
/// own generator. Nothing is claimed of them.
#[verifier::external_body]
fn thread_rng_fill_64(buf: &mut [u8; 64]) {
    rand::rng().fill_bytes(buf);
}

/// A scalar from 64 fresh bytes of `rng`, reduced modulo the group order.
pub fn random_scalar<R: CryptoRng + RngCore>(rng: &mut R) -> (r: Scalar)
    ensures
        r.wf(),
{
    let mut bytes = [0u8; 64];
    rng_fill_64(rng, &mut bytes);
    let scalar = Scalar::from_bytes_mod_order_wide(&bytes);
    wipe(&mut bytes);
    scalar
}

/// A scalar from 64 fresh bytes of the thread's generator.
pub fn thread_random_scalar() -> (r: Scalar)
    ensures
        r.wf(),
{
    let mut bytes = [0u8; 64];
    thread_rng_fill_64(&mut bytes);
    let scalar = Scalar::from_bytes_mod_order_wide(&bytes);
    wipe(&mut bytes);
    scalar
}

/// `n` scalars, each from 64 fresh bytes of `rng`.
pub fn random_scalars<R: CryptoRng + RngCore>(rng: &mut R, n: usize) -> (r: Vec<Scalar>)
    ensures
        r.len() == n,
        all_canonical(r@),
{
    let mut bytes = [0u8; 64];
    let mut out: Vec<Scalar> = Vec::new();
    let mut i: usize = 0;
    while i < n
        invariant
            i <= n,
            out.len() == i,
            all_canonical(out@),
        decreases n - i,
    {
        rng_fill_64(rng, &mut bytes);
        let scalar = Scalar::from_bytes_mod_order_wide(&bytes);
        wipe(&mut bytes);
        out.push(scalar);
        i += 1;
    }
    out
}

/// A group element from 64 fresh bytes of `rng`.
pub fn random_point<R: CryptoRng + RngCore>(rng: &mut R) -> (r: RistrettoPoint)
    ensures
        r.wf(),
{
    let mut bytes = [0u8; 64];
    rng_fill_64(rng, &mut bytes);
    let point = RistrettoPoint::from_uniform_bytes(&bytes);
    wipe(&mut bytes);
    point
}

/// `n` group elements, each from 64 fresh bytes of `rng`.
pub fn random_points<R: CryptoRng + RngCore>(rng: &mut R, n: usize) -> (r: Vec<RistrettoPoint>)
    ensures
        r.len() == n,
        all_valid(r@),
{
    let mut bytes = [0u8; 64];
    let mut out: Vec<RistrettoPoint> = Vec::new();
    let mut i: usize = 0;
    while i < n
        invariant
            i <= n,
            out.len() == i,
            all_valid(out@),
        decreases n - i,
    {
        rng_fill_64(rng, &mut bytes);
        let point = RistrettoPoint::from_uniform_bytes(&bytes);
        wipe(&mut bytes);
        out.push(point);
        i += 1;
    }
    out
}

} // verus!
