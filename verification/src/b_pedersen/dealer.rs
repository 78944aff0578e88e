//! The dealer of the batched Pedersen protocol.

use crate::commit::{coefficient_column, coefficient_column_of};
use crate::error::Error;
use crate::field::{dot, order};
use crate::polynomial::Polynomial;
use crate::ristretto::{
    all_valid, fold_points, point_encodings, point_fold, ristretto_mul, CompressedRistretto,
    RistrettoPoint,
};
use crate::scalar::{all_canonical, scalar_values, Scalar};
use crate::secret_sharing::{embeds, evaluated, generate_shares_batched};
use crate::utils::{batch_decompress_ristretto_points, decoded, first_invalid};
use rand::{CryptoRng, RngCore};
use vstd::prelude::*;

verus! {

/// The commitment to the coefficients of `x^j`, blinded by the coefficient
/// `r_j` of the blinding polynomial: `r_j * g0 + sum_k fs[k][j] * g[k]`.
pub open spec fn coefficient_commitment(
    r_j: int,
    fs: Seq<Polynomial>,
    g: Seq<RistrettoPoint>,
    g0: Seq<u8>,
    j: int,
) -> Seq<u8> {
    point_fold(
        ristretto_mul(r_j % order(), g0),
        coefficient_column(fs, j),
        point_encodings(g),
        g.len(),
    )
}

/// `c` holds the blinded commitments to the coefficients, and `r_evals` the
/// values that the rows of `x_pows` give to the blinding polynomial `r`.
pub open spec fn is_proof(
    c: Seq<CompressedRistretto>,
    r_evals: Seq<Scalar>,
    r: Seq<int>,
    fs: Seq<Polynomial>,
    x_pows: Seq<Vec<Scalar>>,
    g: Seq<RistrettoPoint>,
    g0: Seq<u8>,
    n: nat,
) -> bool {
    &&& c.len() == r.len()
    &&& forall|j: int|
        0 <= j < c.len() ==> (#[trigger] c[j])@ == coefficient_commitment(r[j], fs, g, g0, j)
    &&& r_evals.len() == n
    &&& all_canonical(r_evals)
    &&& forall|i: int|
        0 <= i < n ==> (#[trigger] r_evals[i])@ == dot(r, scalar_values(x_pows[i]@)) % order()
}

/// The dealer of one sharing session.
#[derive(Debug)]
pub struct Dealer {
    pub t: usize,
    pub g: Vec<RistrettoPoint>,
    pub g0: RistrettoPoint,
    pub public_keys: Vec<RistrettoPoint>,
    pub secret: Option<Scalar>,
}

impl Dealer {
    /// The generators are group elements.
    pub open spec fn wf(&self) -> bool {
        all_valid(self.g@) && self.g0.wf()
    }

    /// A dealer for `n` parties with threshold `t`; fails where there are
    /// not `n` public keys, or where one of them is no group element.
    pub fn new(
        g: Vec<RistrettoPoint>,
        g0: RistrettoPoint,
        n: usize,
        t: usize,
        public_keys: &[CompressedRistretto],
    ) -> (r: Result<Self, Error>)
        ensures
            public_keys.len() != n ==> r == Err::<Self, Error>(
                Error::CountMismatch(n, "parties", public_keys.len(), "public keys"),
            ),
            public_keys.len() == n && first_invalid(public_keys@) < n ==> r == Err::<Self, Error>(
                Error::PointDecompressionError(public_keys[first_invalid(public_keys@)].bytes),
            ),
            public_keys.len() == n && first_invalid(public_keys@) == n ==> r is Ok,
            r matches Ok(d) ==> d.t == t && d.g == g && d.g0 == g0 && d.secret is None && decoded(
                public_keys@,
                d.public_keys@,
            ),
    {
        if public_keys.len() != n {
            return Err(Error::CountMismatch(n, "parties", public_keys.len(), "public keys"));
        }
        match batch_decompress_ristretto_points(public_keys) {
            Ok(pks) => Ok(Dealer { t, public_keys: pks, secret: None, g, g0 }),
            Err(x) => Err(x),
        }
    }

    pub fn t(&self) -> (r: usize)
        ensures
            r == self.t,
    {
        self.t
    }

    /// Shares for the secrets, the values of the blinding polynomial, and
    /// the blinded commitments to the coefficients. There must be a generator
    /// for every secret at most.
    pub fn deal_secret<R: CryptoRng + RngCore>(
        &mut self,
        rng: &mut R,
        x_pows: &Vec<Vec<Scalar>>,
        secrets: &Vec<Scalar>,
    ) -> (r: (Vec<Vec<Scalar>>, (Vec<Scalar>, Vec<CompressedRistretto>)))
        requires
            old(self).wf(),
            old(self).t < usize::MAX,
            old(self).public_keys.len() <= x_pows.len(),
            old(self).g.len() <= secrets.len(),
        ensures
            *final(self) == *old(self),
            exists|fs: Seq<Polynomial>, blind: Seq<int>|
                {
                    &&& embeds(fs, secrets@, old(self).t as nat)
                    &&& evaluated(r.0@, fs, x_pows@, old(self).public_keys@.len())
                    &&& blind.len() == old(self).t + 1
                    &&& #[trigger] is_proof(
                        r.1.1@,
                        r.1.0@,
                        blind,
                        fs,
                        x_pows@,
                        old(self).g@,
                        old(self).g0@,
                        old(self).public_keys@.len(),
                    )
                },
    {
        let k = secrets.len();
        let (f_polynomials, f_evals) = self.generate_shares(x_pows, k, secrets);
        let mut c_buf: Vec<CompressedRistretto> = Vec::new();
        let r_evals = self.generate_proof(rng, &mut c_buf, x_pows, &f_polynomials);
        let ghost blind = choose|blind: Seq<int>|
            blind.len() == self.t + 1 && #[trigger] is_proof(
                c_buf@,
                r_evals@,
                blind,
                f_polynomials@,
                x_pows@,
                self.g@,
                self.g0@,
                self.public_keys@.len(),
            );
        let r = (f_evals, (r_evals, c_buf));
        assert(is_proof(
            r.1.1@,
            r.1.0@,
            blind,
            f_polynomials@,
            x_pows@,
            self.g@,
            self.g0@,
            self.public_keys@.len(),
        ));
        assert(embeds(f_polynomials@, secrets@, self.t as nat));
        assert(evaluated(r.0@, f_polynomials@, x_pows@, self.public_keys@.len()));
        r
    }

    /// For each secret a polynomial of degree `t` with that constant term,
    /// and for each party the values that its row of `x_pows` gives them.
    pub fn generate_shares(&self, x_pows: &Vec<Vec<Scalar>>, k: usize, secrets: &Vec<Scalar>) -> (r:
        (Vec<Polynomial>, Vec<Vec<Scalar>>))
        requires
            self.t < usize::MAX,
            self.public_keys.len() <= x_pows.len(),
            k == secrets.len(),
        ensures
            embeds(r.0@, secrets@, self.t as nat),
            evaluated(r.1@, r.0@, x_pows@, self.public_keys@.len()),
    {
        generate_shares_batched(self.public_keys.len(), self.t, x_pows, secrets)
    }

    /// The blinded commitments to the coefficients, for a blinding
    /// polynomial drawn from `rng`: the commitments are appended to `c_buf`,
    /// the values of the blinding polynomial are returned.
    pub fn generate_proof<R: CryptoRng + RngCore>(
        &self,
        rng: &mut R,
        c_buf: &mut Vec<CompressedRistretto>,
        x_pows: &Vec<Vec<Scalar>>,
        f_polynomials: &Vec<Polynomial>,
    ) -> (r_evals: Vec<Scalar>)
        requires
            self.wf(),
            self.t < usize::MAX,
            self.public_keys.len() <= x_pows.len(),
            old(c_buf).len() == 0,
            self.g.len() <= f_polynomials.len(),
            forall|k: int|
                0 <= k < f_polynomials.len() ==> (#[trigger] f_polynomials[k]).coefficients.len()
                    > self.t,
        ensures
            exists|blind: Seq<int>|
                blind.len() == self.t + 1 && #[trigger] is_proof(
                    final(c_buf)@,
                    r_evals@,
                    blind,
                    f_polynomials@,
                    x_pows@,
                    self.g@,
                    self.g0@,
                    self.public_keys@.len(),
                ),
    {
        let r = Polynomial::sample(self.t, rng);
        let r_evals = self.generate_proof_with(&r, c_buf, x_pows, f_polynomials);
        assert(is_proof(
            c_buf@,
            r_evals@,
            r@,
            f_polynomials@,
            x_pows@,
            self.g@,
            self.g0@,
            self.public_keys@.len(),
        ));
        r_evals
    }

    /// The blinded commitments to the coefficients for a given blinding
    /// polynomial.
    pub fn generate_proof_with(
        &self,
        r: &Polynomial,
        c_buf: &mut Vec<CompressedRistretto>,
        x_pows: &Vec<Vec<Scalar>>,
        f_polynomials: &Vec<Polynomial>,
    ) -> (r_evals: Vec<Scalar>)
        requires
            self.wf(),
            self.public_keys.len() <= x_pows.len(),
            old(c_buf).len() == 0,
            self.g.len() <= f_polynomials.len(),
            forall|k: int|
                0 <= k < f_polynomials.len() ==> (#[trigger] f_polynomials[k]).coefficients.len()
                    >= r.coefficients.len(),
        ensures
            is_proof(
                final(c_buf)@,
                r_evals@,
                r@,
                f_polynomials@,
                x_pows@,
                self.g@,
                self.g0@,
                self.public_keys@.len(),
            ),
    {
        let n = self.public_keys.len();
        let r_evals = r.evaluate_range_precomp(x_pows, 1, n);
        let m = r.coefficients.len();
        let mut j: usize = 0;
        while j < m
            invariant
                j <= m,
                m == r.coefficients.len(),
                self.wf(),
                self.g.len() <= f_polynomials.len(),
                forall|k: int|
                    0 <= k < f_polynomials.len() ==> (
                    #[trigger] f_polynomials[k]).coefficients.len() >= m,
                c_buf.len() == j,
                forall|q: int|
                    0 <= q < j ==> (#[trigger] c_buf[q])@ == coefficient_commitment(
                        r@[q],
                        f_polynomials@,
                        self.g@,
                        self.g0@,
                        q,
                    ),
            decreases m - j,
        {
            let start = self.g0.mul(&r.coefficients[j]);
            let column = coefficient_column_of(f_polynomials, j);
            proof {
                assert(r@[j as int] == r.coefficients[j as int]@);
                assert(scalar_values(column@).len() == column@.len());
                assert(coefficient_column(f_polynomials@, j as int).len() == f_polynomials@.len());
            }
            let commitment = fold_points(start, column.as_slice(), self.g.as_slice());
            c_buf.push(commitment.compress());
            j += 1;
        }
        proof {
            assert forall|i: int| 0 <= i < n implies (#[trigger] r_evals[i])@ == dot(
                r@,
                scalar_values(x_pows[i]@),
            ) % order() by {
                assert(r_evals[i] == r_evals[(i + 1) - 1]);
            }
        }
        r_evals
    }

    /// The public key of the first party.
    pub fn get_pk0(&self) -> (r: &RistrettoPoint)
        requires
            self.public_keys.len() >= 1,
        ensures
            *r == self.public_keys[0],
    {
        &self.public_keys[0]
    }

    /// The secret that the dealer holds.
    pub fn publish_f0(&self) -> (r: Scalar)
        requires
            self.secret is Some,
        ensures
            Some(r) == self.secret,
    {
        self.secret.unwrap()
    }
}

} // verus!
