//! The dealer of the publicly verifiable protocol for a single secret.

use crate::b_pi_s::dealer::{blinding_bytes, lemma_blinding_bytes};
use crate::error::Error;
use crate::field::{dot, order};
use crate::polynomial::{is_fused, poly_views, Polynomial};
use crate::ristretto::{all_valid, ristretto_mul, CompressedRistretto, RistrettoPoint};
use crate::scalar::{all_canonical, scalar_values, Scalar};
use crate::secret_sharing::{encrypt_each, generate_shares};
use crate::transcript::{zeroed, Transcript};
use crate::utils::{
    batch_decompress_ristretto_points, challenge, compute_d_from_point_commitments,
    concat_encodings, decoded, first_invalid,
};
use crate::commit::absorb_points;
use rand::{CryptoRng, RngCore};
use vstd::prelude::*;

verus! {

/// `(d, z)` is the proof for the encrypted shares `enc` of the polynomial
/// `f` that the blinding polynomial `r` gives, from a transcript that had
/// absorbed `before`: `d` is the challenge for the encrypted shares and the
/// encrypted values of `r`, and `z = r + d * f`.
pub open spec fn is_proof(
    d: Scalar,
    z: Polynomial,
    r: Seq<int>,
    f: Seq<int>,
    enc: Seq<CompressedRistretto>,
    x_pows: Seq<Vec<Scalar>>,
    public_keys: Seq<RistrettoPoint>,
    before: Seq<u8>,
) -> bool {
    &&& d.wf()
    &&& d@ == challenge(
        before + concat_encodings(enc) + blinding_bytes(r, x_pows, public_keys, public_keys.len()),
    )
    &&& all_canonical(z.coefficients@)
    &&& is_fused(z@, r, seq![f], seq![d@])
}

/// `enc[i]` encodes the public key of party `i + 1` multiplied by the value
/// that its row of `x_pows`, row `i`, gives to `f`.
pub open spec fn is_encrypted(
    enc: Seq<CompressedRistretto>,
    f: Seq<int>,
    x_pows: Seq<Vec<Scalar>>,
    public_keys: Seq<RistrettoPoint>,
) -> bool {
    &&& enc.len() == public_keys.len()
    &&& forall|i: int|
        0 <= i < enc.len() ==> (#[trigger] enc[i])@ == ristretto_mul(
            dot(f, scalar_values(x_pows[i]@)) % order(),
            public_keys[i]@,
        )
}

/// The dealer of one sharing session.
#[derive(Debug)]
pub struct Dealer {
    pub t: usize,
    pub public_keys: Vec<RistrettoPoint>,
    pub secret: Option<Scalar>,
}

impl Dealer {
    /// A dealer for `n` parties with threshold `t`; fails where there are
    /// not `n` public keys, or where one of them is no group element.
    pub fn new(n: usize, t: usize, public_keys: &[CompressedRistretto]) -> (r: Result<
        Self,
        Error,
    >)
        ensures
            public_keys.len() != n ==> r == Err::<Self, Error>(
                Error::CountMismatch(n, "parties", public_keys.len(), "public keys"),
            ),
            public_keys.len() == n && first_invalid(public_keys@) < n ==> r == Err::<Self, Error>(
                Error::PointDecompressionError(public_keys[first_invalid(public_keys@)].bytes),
            ),
            public_keys.len() == n && first_invalid(public_keys@) == n ==> r is Ok,
            r matches Ok(d) ==> d.t == t && d.secret is None && decoded(
                public_keys@,
                d.public_keys@,
            ),
    {
        if public_keys.len() != n {
            return Err(Error::CountMismatch(n, "parties", public_keys.len(), "public keys"));
        }
        match batch_decompress_ristretto_points(public_keys) {
            Ok(pks) => Ok(Dealer { t, public_keys: pks, secret: None }),
            Err(x) => Err(x),
        }
    }

    /// Encrypted shares and proof for the secret, which the dealer keeps.
    pub fn deal_secret<R: CryptoRng + RngCore>(
        &mut self,
        rng: &mut R,
        hasher: &mut Transcript,
        buf: &mut [u8; 64],
        x_pows: &Vec<Vec<Scalar>>,
        secret: &Scalar,
    ) -> (r: (Vec<CompressedRistretto>, (Scalar, Polynomial)))
        requires
            old(self).t < usize::MAX,
            old(self).public_keys.len() <= x_pows.len(),
            all_valid(old(self).public_keys@),
        ensures
            final(self).t == old(self).t,
            final(self).public_keys == old(self).public_keys,
            final(self).secret == Some(*secret),
            exists|f: Polynomial, blind: Seq<int>|
                {
                    &&& f.coefficients.len() == old(self).t + 1
                    &&& f.coefficients[0] == *secret
                    &&& is_encrypted(r.0@, f@, x_pows@, old(self).public_keys@)
                    &&& blind.len() == old(self).t + 1
                    &&& #[trigger] is_proof(
                        r.1.0,
                        r.1.1,
                        blind,
                        f@,
                        r.0@,
                        x_pows@,
                        old(self).public_keys@,
                        old(hasher)@,
                    )
                },
            r.1.1.coefficients.len() == old(self).t + 1,
            final(hasher)@ == Seq::<u8>::empty(),
            final(buf)@ == zeroed(),
    {
        self.secret = Some(*secret);
        let ghost before = hasher@;
        let (f_polynomial, f_evals) = self.generate_encrypted_shares(rng, x_pows, secret);
        let ghost f = f_polynomial;
        let (d, z) = self.generate_proof(rng, hasher, buf, x_pows, f_polynomial, &f_evals);
        let ghost blind = choose|blind: Seq<int>|
            blind.len() == self.t + 1 && #[trigger] is_proof(
                d,
                z,
                blind,
                f@,
                f_evals@,
                x_pows@,
                self.public_keys@,
                before,
            );
        let r = (f_evals, (d, z));
        assert(is_proof(r.1.0, r.1.1, blind, f@, r.0@, x_pows@, self.public_keys@, before));
        assert(is_encrypted(r.0@, f@, x_pows@, self.public_keys@));
        r
    }

    /// A polynomial of degree `t` with the secret as its constant term, and
    /// the public key of each party multiplied by the value at its index.
    pub fn generate_encrypted_shares<R: CryptoRng + RngCore>(
        &self,
        rng: &mut R,
        x_pows: &Vec<Vec<Scalar>>,
        secret: &Scalar,
    ) -> (r: (Polynomial, Vec<CompressedRistretto>))
        requires
            self.t < usize::MAX,
            self.public_keys.len() <= x_pows.len(),
            all_valid(self.public_keys@),
        ensures
            r.0.coefficients.len() == self.t + 1,
            r.0.coefficients[0] == *secret,
            forall|c: int| 1 <= c <= self.t ==> (#[trigger] r.0.coefficients[c]).wf(),
            is_encrypted(r.1@, r.0@, x_pows@, self.public_keys@),
    {
        let (f_polynomial, f_evals) = generate_shares(
            rng,
            self.public_keys.len(),
            self.t,
            x_pows,
            secret,
        );
        let encrypted_shares = encrypt_each(&f_evals, self.public_keys.as_slice());
        proof {
            assert forall|i: int| 0 <= i < encrypted_shares.len() implies (
            #[trigger] encrypted_shares[i])@ == ristretto_mul(
                dot(f_polynomial@, scalar_values(x_pows[i]@)) % order(),
                self.public_keys[i]@,
            ) by {
                crate::field::lemma_reduced(dot(f_polynomial@, scalar_values(x_pows[i]@)));
            }
        }
        (f_polynomial, encrypted_shares)
    }

    /// The proof for given encrypted shares, with a blinding polynomial
    /// drawn from `rng`.
    pub fn generate_proof<R: CryptoRng + RngCore>(
        &self,
        rng: &mut R,
        hasher: &mut Transcript,
        buf: &mut [u8; 64],
        x_pows: &Vec<Vec<Scalar>>,
        f_polynomial: Polynomial,
        f_evals: &Vec<CompressedRistretto>,
    ) -> (r: (Scalar, Polynomial))
        requires
            self.t < usize::MAX,
            self.public_keys.len() <= x_pows.len(),
            all_valid(self.public_keys@),
            f_polynomial.coefficients.len() == self.t + 1,
        ensures
            exists|blind: Seq<int>|
                blind.len() == self.t + 1 && #[trigger] is_proof(
                    r.0,
                    r.1,
                    blind,
                    f_polynomial@,
                    f_evals@,
                    x_pows@,
                    self.public_keys@,
                    old(hasher)@,
                ),
            r.1.coefficients.len() == self.t + 1,
            final(hasher)@ == Seq::<u8>::empty(),
            final(buf)@ == zeroed(),
    {
        let blinding = Polynomial::sample(self.t, rng);
        let ghost blind = blinding@;
        let ghost f = f_polynomial@;
        let r = self.generate_proof_with(blinding, hasher, buf, x_pows, f_polynomial, f_evals);
        assert(is_proof(r.0, r.1, blind, f, f_evals@, x_pows@, self.public_keys@, old(hasher)@));
        r
    }

    /// The proof for given encrypted shares and a given blinding polynomial.
    pub fn generate_proof_with(
        &self,
        blinding: Polynomial,
        hasher: &mut Transcript,
        buf: &mut [u8; 64],
        x_pows: &Vec<Vec<Scalar>>,
        f_polynomial: Polynomial,
        f_evals: &Vec<CompressedRistretto>,
    ) -> (r: (Scalar, Polynomial))
        requires
            self.public_keys.len() <= x_pows.len(),
            all_valid(self.public_keys@),
            f_polynomial.coefficients.len() == blinding.coefficients.len(),
        ensures
            is_proof(
                r.0,
                r.1,
                blinding@,
                f_polynomial@,
                f_evals@,
                x_pows@,
                self.public_keys@,
                old(hasher)@,
            ),
            r.1.coefficients.len() == blinding.coefficients.len(),
            final(hasher)@ == Seq::<u8>::empty(),
            final(buf)@ == zeroed(),
    {
        let mut z = blinding;
        let ghost blind = z@;
        let ghost f = f_polynomial@;
        let n = self.public_keys.len();
        let r_evals = z.evaluate_range_precomp(x_pows, 1, n);
        let blinded = encrypt_each(&r_evals, self.public_keys.as_slice());
        proof {
            assert forall|i: int| 0 <= i < n implies (#[trigger] r_evals[i])@ == dot(
                blind,
                scalar_values(x_pows[i]@),
            ) % order() by {
                assert(r_evals[i] == r_evals[(i + 1) - 1]);
            }
            lemma_blinding_bytes(blinded@, r_evals@, blind, x_pows@, self.public_keys@, n as nat);
            assert(blinded@.subrange(0, n as int) =~= blinded@);
        }
        absorb_points(hasher, f_evals.as_slice());
        let ghost mid = hasher@;
        let d = compute_d_from_point_commitments(hasher, buf, blinded.as_slice());
        proof {
            assert(mid + concat_encodings(blinded@) =~= old(hasher)@ + concat_encodings(f_evals@)
                + blinding_bytes(blind, x_pows@, self.public_keys@, n as nat));
        }
        let fs = vec![f_polynomial];
        let ds = vec![d];
        proof {
            assert(poly_views(fs@) =~= seq![f]);
            assert(scalar_values(ds@) =~= seq![d@]);
        }
        z.compute_z(fs.as_slice(), ds.as_slice());
        (d, z)
    }
}

} // verus!
