//! The dealer of the protocol with group-element commitments for a single
//! secret.

use crate::error::Error;
use crate::field::{dot, lemma_small_is_reduced, order};
use crate::polynomial::{is_fused, poly_views, Polynomial};
use crate::ristretto::{ristretto_add, ristretto_mul, CompressedRistretto, RistrettoPoint};
use crate::scalar::{all_canonical, scalar_values, Scalar};
use crate::secret_sharing::generate_shares;
use crate::transcript::{zeroed, Transcript};
use crate::utils::{
    batch_decompress_ristretto_points, challenge, compute_d_from_point_commitments,
    concat_encodings, decoded, first_invalid,
};
use rand::{CryptoRng, RngCore};
use vstd::prelude::*;

verus! {

/// The commitment to a share and a blinding value with two generators:
/// `f * g1 + r * g2`.
pub open spec fn pair_commitment(f: int, r: int, g1: Seq<u8>, g2: Seq<u8>) -> Seq<u8> {
    ristretto_add(ristretto_mul(f % order(), g1), ristretto_mul(r % order(), g2))
}

/// `c[i]` is the commitment to the share of party `i + 1` and to the value
/// that its row of `x_pows` gives to the blinding polynomial `r`.
pub open spec fn commits_to(
    c: Seq<CompressedRistretto>,
    evals: Seq<Scalar>,
    r: Seq<int>,
    x_pows: Seq<Vec<Scalar>>,
    g1: Seq<u8>,
    g2: Seq<u8>,
) -> bool {
    &&& c.len() == evals.len()
    &&& forall|i: int|
        0 <= i < c.len() ==> (#[trigger] c[i])@ == pair_commitment(
            evals[i]@,
            dot(r, scalar_values(x_pows[i]@)),
            g1,
            g2,
        )
}

/// `(c, z)` is the proof for the shares `evals` of the polynomial `f` that
/// the blinding polynomial `r` gives, from a transcript that had absorbed
/// `before`: the commitments, and `z = r + d * f` for the challenge `d`
/// that the commitments give.
pub open spec fn is_proof(
    c: Seq<CompressedRistretto>,
    z: Polynomial,
    r: Seq<int>,
    f: Seq<int>,
    evals: Seq<Scalar>,
    x_pows: Seq<Vec<Scalar>>,
    g1: Seq<u8>,
    g2: Seq<u8>,
    before: Seq<u8>,
) -> bool {
    &&& commits_to(c, evals, r, x_pows, g1, g2)
    &&& all_canonical(z.coefficients@)
    &&& is_fused(z@, r, seq![f], seq![challenge(before + concat_encodings(c))])
}

/// The dealer of one sharing session.
#[derive(Debug)]
pub struct Dealer {
    pub t: usize,
    pub g1: RistrettoPoint,
    pub g2: RistrettoPoint,
    pub public_keys: Vec<RistrettoPoint>,
    pub secret: Option<Scalar>,
}

impl Dealer {
    /// The generators are group elements.
    pub open spec fn wf(&self) -> bool {
        self.g1.wf() && self.g2.wf()
    }

    /// A dealer for `n` parties with threshold `t`; fails where there are
    /// not `n` public keys, or where one of them is no group element.
    pub fn new(
        g1: RistrettoPoint,
        g2: RistrettoPoint,
        n: usize,
        t: usize,
        public_keys: &[CompressedRistretto],
    ) -> (r: Result<Self, Error>)
        ensures
            public_keys.len() != n ==> r == Err::<Self, Error>(
                Error::CountMismatch(n, "parties", public_keys.len(), "public keys"),
            ),
            public_keys.len() == n && first_invalid(public_keys@) < n ==> r == Err::<Self, Error>(
                Error::PointDecompressionError(public_keys[first_invalid(public_keys@)].bytes),
            ),
            public_keys.len() == n && first_invalid(public_keys@) == n ==> r is Ok,
            r matches Ok(d) ==> d.t == t && d.g1 == g1 && d.g2 == g2 && d.secret is None
                && decoded(public_keys@, d.public_keys@),
    {
        if public_keys.len() != n {
            return Err(Error::CountMismatch(n, "parties", public_keys.len(), "public keys"));
        }
        match batch_decompress_ristretto_points(public_keys) {
            Ok(pks) => Ok(Dealer { t, public_keys: pks, secret: None, g1, g2 }),
            Err(x) => Err(x),
        }
    }

    pub fn t(&self) -> (r: usize)
        ensures
            r == self.t,
    {
        self.t
    }

    /// Shares and proof for the secret.
    pub fn deal_secret<R: CryptoRng + RngCore>(
        &mut self,
        rng: &mut R,
        hasher: &mut Transcript,
        buf: &mut [u8; 64],
        x_pows: &Vec<Vec<Scalar>>,
        secret: &Scalar,
    ) -> (r: (Vec<Scalar>, (Vec<CompressedRistretto>, Polynomial)))
        requires
            old(self).wf(),
            old(self).t < usize::MAX,
            old(self).public_keys.len() <= x_pows.len(),
        ensures
            *final(self) == *old(self),
            exists|f: Polynomial, blind: Seq<int>|
                {
                    &&& f.coefficients.len() == old(self).t + 1
                    &&& f.coefficients[0] == *secret
                    &&& crate::pi_la::dealer::shares_of(
                        r.0@,
                        f@,
                        x_pows@,
                        old(self).public_keys@.len(),
                    )
                    &&& blind.len() == old(self).t + 1
                    &&& #[trigger] is_proof(
                        r.1.0@,
                        r.1.1,
                        blind,
                        f@,
                        r.0@,
                        x_pows@,
                        old(self).g1@,
                        old(self).g2@,
                        old(hasher)@,
                    )
                },
            r.1.1.coefficients.len() == old(self).t + 1,
            final(hasher)@ == Seq::<u8>::empty(),
            final(buf)@ == zeroed(),
    {
        let ghost before = hasher@;
        let (f_polynomial, f_evals) = generate_shares(
            rng,
            self.public_keys.len(),
            self.t,
            x_pows,
            secret,
        );
        let ghost f = f_polynomial;
        let mut c_buf: Vec<CompressedRistretto> = Vec::new();
        let z = self.generate_proof(rng, hasher, buf, &mut c_buf, x_pows, f_polynomial, &f_evals);
        let ghost blind = choose|blind: Seq<int>|
            blind.len() == self.t + 1 && #[trigger] is_proof(
                c_buf@,
                z,
                blind,
                f@,
                f_evals@,
                x_pows@,
                self.g1@,
                self.g2@,
                before,
            );
        let r = (f_evals, (c_buf, z));
        assert(is_proof(r.1.0@, r.1.1, blind, f@, r.0@, x_pows@, self.g1@, self.g2@, before));
        assert(crate::pi_la::dealer::shares_of(r.0@, f@, x_pows@, self.public_keys@.len()));
        r
    }

    /// The proof for given shares, with a blinding polynomial drawn from
    /// `rng`: the commitments replace what `c_buf` holds, the polynomial `z`
    /// is returned.
    pub fn generate_proof<R: CryptoRng + RngCore>(
        &self,
        rng: &mut R,
        hasher: &mut Transcript,
        buf: &mut [u8; 64],
        c_buf: &mut Vec<CompressedRistretto>,
        x_pows: &Vec<Vec<Scalar>>,
        f_polynomial: Polynomial,
        f_evals: &Vec<Scalar>,
    ) -> (z: Polynomial)
        requires
            self.wf(),
            self.t < usize::MAX,
            self.public_keys.len() <= x_pows.len(),
            f_evals.len() == self.public_keys.len(),
            f_polynomial.coefficients.len() == self.t + 1,
        ensures
            exists|blind: Seq<int>|
                blind.len() == self.t + 1 && #[trigger] is_proof(
                    final(c_buf)@,
                    z,
                    blind,
                    f_polynomial@,
                    f_evals@,
                    x_pows@,
                    self.g1@,
                    self.g2@,
                    old(hasher)@,
                ),
            z.coefficients.len() == self.t + 1,
            final(hasher)@ == Seq::<u8>::empty(),
            final(buf)@ == zeroed(),
    {
        let r = Polynomial::sample(self.t, rng);
        let ghost blind = r@;
        let ghost f = f_polynomial@;
        let z = self.generate_proof_with(r, hasher, buf, c_buf, x_pows, f_polynomial, f_evals);
        assert(is_proof(c_buf@, z, blind, f, f_evals@, x_pows@, self.g1@, self.g2@, old(hasher)@));
        z
    }

    /// The proof for given shares and a given blinding polynomial `r`.
    pub fn generate_proof_with(
        &self,
        r: Polynomial,
        hasher: &mut Transcript,
        buf: &mut [u8; 64],
        c_buf: &mut Vec<CompressedRistretto>,
        x_pows: &Vec<Vec<Scalar>>,
        f_polynomial: Polynomial,
        f_evals: &Vec<Scalar>,
    ) -> (z: Polynomial)
        requires
            self.wf(),
            self.public_keys.len() <= x_pows.len(),
            f_evals.len() == self.public_keys.len(),
            f_polynomial.coefficients.len() == r.coefficients.len(),
        ensures
            is_proof(
                final(c_buf)@,
                z,
                r@,
                f_polynomial@,
                f_evals@,
                x_pows@,
                self.g1@,
                self.g2@,
                old(hasher)@,
            ),
            z.coefficients.len() == r.coefficients.len(),
            final(hasher)@ == Seq::<u8>::empty(),
            final(buf)@ == zeroed(),
    {
        let mut r = r;
        let ghost blind = r@;
        let ghost f = f_polynomial@;
        let n = self.public_keys.len();
        let r_evals = r.evaluate_range_precomp(x_pows, 1, n);
        let mut commitments: Vec<CompressedRistretto> = Vec::new();
        let mut i: usize = 0;
        while i < n
            invariant
                i <= n,
                n == self.public_keys.len(),
                n <= x_pows.len(),
                self.wf(),
                f_evals.len() == n,
                r_evals.len() == n,
                blind == r@,
                all_canonical(r_evals@),
                forall|q: int|
                    1 <= q <= n ==> (#[trigger] r_evals[q - 1])@ == dot(
                        blind,
                        scalar_values(x_pows[q - 1]@),
                    ) % order(),
                commitments.len() == i,
                forall|q: int|
                    0 <= q < i ==> (#[trigger] commitments[q])@ == pair_commitment(
                        f_evals[q]@,
                        dot(blind, scalar_values(x_pows[q]@)),
                        self.g1@,
                        self.g2@,
                    ),
            decreases n - i,
        {
            proof {
                assert(r_evals[i as int] == r_evals[(i + 1) - 1]);
                assert(r_evals@[i as int].wf());
                lemma_small_is_reduced(r_evals[i as int]@);
                crate::field::lemma_reduced(dot(blind, scalar_values(x_pows[i as int]@)));
            }
            let c = self.g1.mul(&f_evals[i]).add(&self.g2.mul(&r_evals[i]));
            commitments.push(c.compress());
            i += 1;
        }
        *c_buf = commitments;
        let d = compute_d_from_point_commitments(hasher, buf, c_buf.as_slice());
        let fs = vec![f_polynomial];
        let ds = vec![d];
        proof {
            assert(poly_views(fs@) =~= seq![f]);
            assert(scalar_values(ds@) =~= seq![d@]);
        }
        r.compute_z(fs.as_slice(), ds.as_slice());
        r
    }

    /// The public key of the first party.
    pub fn get_pk0(&self) -> (r: &RistrettoPoint)
        requires
            self.public_keys.len() >= 1,
        ensures
            *r == self.public_keys[0],
    {
        &self.public_keys[0]
    }

    /// The secret that the dealer holds.
    pub fn publish_f0(&self) -> (r: Scalar)
        requires
            self.secret is Some,
        ensures
            Some(r) == self.secret,
    {
        self.secret.unwrap()
    }
}

} // verus!
