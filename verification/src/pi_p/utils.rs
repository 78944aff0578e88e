//! Helpers of the protocol with Pedersen commitments: public keys for a
//! session, and the check of a publicly verifiable proof by someone who is
//! no party.

use crate::commit::absorb_points;
use crate::error::Error;
use crate::field::{lemma_small_is_reduced, order};
use crate::pi_p::party::Party;
use crate::polynomial::{poly_eval, Polynomial};
use crate::random::random_scalar;
use crate::ristretto::{
    all_valid, ristretto_decodes, ristretto_mul, ristretto_sub, CompressedRistretto,
    RistrettoPoint,
};
use crate::scalar::{all_canonical, lemma_scalar_of, scalar_of, Scalar};
use crate::transcript::{wipe, zeroed, Transcript};
use crate::utils::{
    challenge, concat_encodings, decoded, first_invalid, first_nodes, lagrange_product,
};
use rand::{CryptoRng, RngCore};
use vstd::prelude::*;

verus! {

/// The `n` parties of a session, each with a freshly drawn private key.
pub fn generate_parties<R: CryptoRng + RngCore>(
    generator: &RistrettoPoint,
    g1: &RistrettoPoint,
    g2: &RistrettoPoint,
    g3: &RistrettoPoint,
    rng: &mut R,
    n: usize,
    t: usize,
) -> (r: Vec<Party>)
    requires
        generator.wf(),
        g1.wf(),
        g2.wf(),
        g3.wf(),
        t < n,
        t == (n - 1) / 2,
    ensures
        r.len() == n,
        forall|i: int|
            0 <= i < n ==> (#[trigger] r[i]).wf() && r[i].index == i + 1 && r[i].n == n && r[i].t
                == t && r[i].private_key.wf() && r[i].public_key.1@ == ristretto_mul(
                r[i].private_key@ % order(),
                generator@,
            ) && r[i].g1 == *g1 && r[i].g2 == *g2 && r[i].g3 == *g3,
{
    crate::pi_p::party::generate_parties(generator, g1, g2, g3, rng, n, t)
}

/// The encoding is that of the generator multiplied by some private key.
pub open spec fn is_public_key(encoding: Seq<u8>, generator: Seq<u8>) -> bool {
    exists|key: int| 0 <= key < order() && encoding == #[trigger] ristretto_mul(key, generator)
}

/// `n` public keys, each the generator multiplied by a freshly drawn
/// private key that is not kept.
pub fn generate_public_keys<R: CryptoRng + RngCore>(
    generator: &RistrettoPoint,
    rng: &mut R,
    n: usize,
) -> (r: Vec<CompressedRistretto>)
    requires
        generator.wf(),
    ensures
        r.len() == n,
        forall|i: int| 0 <= i < n ==> is_public_key((#[trigger] r[i])@, generator@),
{
    let mut out: Vec<CompressedRistretto> = Vec::new();
    let mut i: usize = 0;
    while i < n
        invariant
            i <= n,
            generator.wf(),
            out.len() == i,
            forall|q: int| 0 <= q < i ==> is_public_key((#[trigger] out[q])@, generator@),
        decreases n - i,
    {
        let key = random_scalar(rng);
        proof {
            lemma_small_is_reduced(key@);
        }
        let public_key = generator.mul(&key).compress();
        assert(public_key@ == ristretto_mul(key@, generator@));
        assert(is_public_key(public_key@, generator@));
        out.push(public_key);
        i += 1;
    }
    out
}

/// The encodings of what a verifier recomputes for the first `m` parties:
/// the public key multiplied by the value of `z` at the party's index, less
/// the encrypted share multiplied by `d`.
pub open spec fn recomputed_bytes(
    z: Seq<int>,
    public_keys: Seq<RistrettoPoint>,
    encrypted: Seq<RistrettoPoint>,
    d: int,
    m: nat,
) -> Seq<u8>
    decreases m,
{
    if m == 0 {
        Seq::empty()
    } else {
        recomputed_bytes(z, public_keys, encrypted, d, (m - 1) as nat) + ristretto_sub(
            ristretto_mul(poly_eval(z, m as int) % order(), public_keys[m - 1]@),
            ristretto_mul(d % order(), encrypted[m - 1]@),
        )
    }
}

/// Whether the proof `(d, z)` is accepted for the encrypted shares, by a
/// transcript that had absorbed `before`.
pub open spec fn proof_accepted(
    d: Scalar,
    z: Seq<int>,
    public_keys: Seq<RistrettoPoint>,
    compressed: Seq<CompressedRistretto>,
    encrypted: Seq<RistrettoPoint>,
    before: Seq<u8>,
) -> bool {
    d == scalar_of(
        challenge(
            before + concat_encodings(compressed) + recomputed_bytes(
                z,
                public_keys,
                encrypted,
                d@,
                public_keys.len(),
            ),
        ),
    )
}

/// The check of a publicly verifiable proof from public data alone: the
/// encrypted shares, in encoded and decoded form, the public keys, and the
/// proof `(d, z)`. Fails where the two forms of the shares, or the shares
/// and the public keys, differ in number.
pub fn verify_encrypted_shares_standalone(
    encrypted_shares: &(Vec<CompressedRistretto>, Vec<RistrettoPoint>),
    public_keys: &Vec<RistrettoPoint>,
    proof: (&Scalar, &Polynomial),
    hasher: &mut Transcript,
    buf: &mut [u8; 64],
) -> (r: Result<bool, Error>)
    requires
        all_valid(public_keys@),
        all_valid(encrypted_shares.1@),
        public_keys.len() < usize::MAX,
    ensures
        encrypted_shares.0.len() != encrypted_shares.1.len() ==> r == Err::<bool, Error>(
            Error::CountMismatch(
                encrypted_shares.0.len(),
                "encrypted_shares.0",
                encrypted_shares.1.len(),
                "encrypted_shares.1",
            ),
        ),
        encrypted_shares.0.len() == encrypted_shares.1.len() && public_keys.len()
            != encrypted_shares.0.len() ==> r == Err::<bool, Error>(
            Error::CountMismatch(
                public_keys.len(),
                "public_keys",
                encrypted_shares.0.len(),
                "encrypted_shares",
            ),
        ),
        r is Err ==> final(hasher)@ == old(hasher)@ && final(buf)@ == old(buf)@,
        encrypted_shares.0.len() == encrypted_shares.1.len() && public_keys.len()
            == encrypted_shares.0.len() ==> {
            &&& r == Ok::<bool, Error>(
                proof_accepted(
                    *proof.0,
                    proof.1@,
                    public_keys@,
                    encrypted_shares.0@,
                    encrypted_shares.1@,
                    old(hasher)@,
                ),
            )
            &&& final(hasher)@ == Seq::<u8>::empty()
            &&& final(buf)@ == zeroed()
        },
{
    if encrypted_shares.0.len() == encrypted_shares.1.len() {
        if public_keys.len() == encrypted_shares.0.len() {
            let (d, z) = (proof.0, proof.1);
            let n = public_keys.len();
            let (_, scaled) = z.evaluate_multiply(public_keys, 1);
            let mut shares: Vec<CompressedRistretto> = Vec::new();
            let mut i: usize = 0;
            while i < n
                invariant
                    i <= n,
                    n == public_keys.len(),
                    n == encrypted_shares.1.len(),
                    n == scaled.len(),
                    all_valid(scaled@),
                    all_valid(encrypted_shares.1@),
                    forall|q: int|
                        0 <= q < n ==> (#[trigger] scaled[q])@ == ristretto_mul(
                            poly_eval(z@, q + 1) % order(),
                            public_keys[q]@,
                        ),
                    shares.len() == i,
                    concat_encodings(shares@) == recomputed_bytes(
                        z@,
                        public_keys@,
                        encrypted_shares.1@,
                        d@,
                        i as nat,
                    ),
                decreases n - i,
            {
                proof {
                    assert(scaled@[i as int].wf());
                    assert(encrypted_shares.1@[i as int].wf());
                }
                let entry = scaled[i].sub(&encrypted_shares.1[i].mul(d)).compress();
                let ghost before = shares@;
                shares.push(entry);
                proof {
                    assert(shares@.drop_last() =~= before);
                    assert(shares@.last() == entry);
                }
                i += 1;
            }
            absorb_points(hasher, encrypted_shares.0.as_slice());
            absorb_points(hasher, shares.as_slice());
            hasher.squeeze(buf);
            let reconstructed_d = Scalar::from_bytes_mod_order_wide(buf);
            wipe(buf);
            hasher.reset();
            proof {
                let input = old(hasher)@ + concat_encodings(encrypted_shares.0@)
                    + recomputed_bytes(z@, public_keys@, encrypted_shares.1@, d@, n as nat);
                lemma_small_is_reduced(reconstructed_d@);
                lemma_scalar_of(reconstructed_d, challenge(input));
                if d.bytes@ == reconstructed_d.bytes@ {
                    assert(d.bytes =~= reconstructed_d.bytes);
                }
            }
            Ok(d.equals(&reconstructed_d))
        } else {
            Err(
                Error::CountMismatch(
                    public_keys.len(),
                    "public_keys",
                    encrypted_shares.0.len(),
                    "encrypted_shares",
                ),
            )
        }
    } else {
        Err(
            Error::CountMismatch(
                encrypted_shares.0.len(),
                "encrypted_shares.0",
                encrypted_shares.1.len(),
                "encrypted_shares.1",
            ),
        )
    }
}

/// The group element that the bytes encode, or the error that names them.
pub fn decompress_ristretto_point(compressed_point: CompressedRistretto) -> (r: Result<
    RistrettoPoint,
    Error,
>)
    ensures
        ristretto_decodes(compressed_point@) ==> r is Ok,
        !ristretto_decodes(compressed_point@) ==> r == Err::<RistrettoPoint, Error>(
            Error::PointDecompressionError(compressed_point.bytes),
        ),
        r matches Ok(p) ==> p.wf() && p@ == compressed_point@,
{
    crate::utils::decompress_ristretto_point(compressed_point)
}

/// The group elements that the entries encode; fails with the first entry
/// that encodes none.
pub fn batch_decompress_ristretto_points(compressed_points: &[CompressedRistretto]) -> (r: Result<
    Vec<RistrettoPoint>,
    Error,
>)
    ensures
        first_invalid(compressed_points@) == compressed_points@.len() ==> r is Ok,
        first_invalid(compressed_points@) < compressed_points@.len() ==> r == Err::<
            Vec<RistrettoPoint>,
            Error,
        >(
            Error::PointDecompressionError(
                compressed_points[first_invalid(compressed_points@)].bytes,
            ),
        ),
        r matches Ok(points) ==> decoded(compressed_points@, points@),
{
    crate::utils::batch_decompress_ristretto_points(compressed_points)
}

/// For each `i` of `1, .., n`, the product over the nodes `j` of
/// `1, .., t + 1` other than `i` of `j / (j - i)`.
pub fn precompute_lambda(n: usize, t: usize) -> (r: Vec<Scalar>)
    requires
        t < usize::MAX,
    ensures
        r.len() == n,
        all_canonical(r@),
        forall|q: int|
            0 <= q < n ==> (#[trigger] r[q])@ == lagrange_product(
                q + 1,
                first_nodes((t + 1) as nat),
                (t + 1) as nat,
            ) % order(),
{
    crate::utils::precompute_lambda(n, t)
}

} // verus!
