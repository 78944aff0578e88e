//! The dealer of the batched Feldman protocol.

use crate::commit::{coefficient_column, coefficient_column_of};
use crate::error::Error;
use crate::polynomial::Polynomial;
use crate::ristretto::{
    all_valid, fold_points, identity_encoding, paired, point_encodings, point_fold,
    CompressedRistretto, RistrettoPoint,
};
use crate::scalar::Scalar;
use crate::secret_sharing::{embeds, evaluated, generate_shares_batched};
use crate::utils::{batch_decompress_ristretto_points, decoded, first_invalid};
use vstd::prelude::*;

verus! {

/// The commitment to the coefficients of `x^j`: the sum of
/// `fs[k][j] * g[k]` over the positions that both have.
pub open spec fn coefficient_commitment(
    fs: Seq<Polynomial>,
    g: Seq<RistrettoPoint>,
    j: int,
) -> Seq<u8> {
    point_fold(
        identity_encoding(),
        coefficient_column(fs, j),
        point_encodings(g),
        paired(g.len(), fs.len()),
    )
}

/// `c[j]` is the commitment to the coefficients of `x^j`, for every `j`.
pub open spec fn commits_to(
    c: Seq<CompressedRistretto>,
    fs: Seq<Polynomial>,
    g: Seq<RistrettoPoint>,
) -> bool {
    forall|j: int| 0 <= j < c.len() ==> (#[trigger] c[j])@ == coefficient_commitment(fs, g, j)
}

/// The dealer of one sharing session.
#[derive(Debug)]
pub struct Dealer {
    pub t: usize,
    pub g: Vec<RistrettoPoint>,
    pub public_keys: Vec<RistrettoPoint>,
    pub secret: Option<Scalar>,
}

impl Dealer {
    /// The generators are group elements.
    pub open spec fn wf(&self) -> bool {
        all_valid(self.g@)
    }

    /// A dealer for `n` parties with threshold `t`; fails where there are
    /// not `n` public keys, or where one of them is no group element.
    pub fn new(g: Vec<RistrettoPoint>, n: usize, t: usize, public_keys: &[CompressedRistretto]) -> (r:
        Result<Self, Error>)
        ensures
            public_keys.len() != n ==> r == Err::<Self, Error>(
                Error::CountMismatch(n, "parties", public_keys.len(), "public keys"),
            ),
            public_keys.len() == n && first_invalid(public_keys@) < n ==> r == Err::<Self, Error>(
                Error::PointDecompressionError(public_keys[first_invalid(public_keys@)].bytes),
            ),
            public_keys.len() == n && first_invalid(public_keys@) == n ==> r is Ok,
            r matches Ok(d) ==> d.t == t && d.g == g && d.secret is None && decoded(
                public_keys@,
                d.public_keys@,
            ),
    {
        if public_keys.len() != n {
            return Err(Error::CountMismatch(n, "parties", public_keys.len(), "public keys"));
        }
        match batch_decompress_ristretto_points(public_keys) {
            Ok(pks) => Ok(Dealer { t, public_keys: pks, secret: None, g }),
            Err(x) => Err(x),
        }
    }

    pub fn t(&self) -> (r: usize)
        ensures
            r == self.t,
    {
        self.t
    }

    /// Shares for the secrets, and the commitments to the `t + 1`
    /// coefficients of the polynomials.
    pub fn deal_secret(&mut self, x_pows: &Vec<Vec<Scalar>>, secrets: &Vec<Scalar>) -> (r: (
        Vec<Vec<Scalar>>,
        Vec<CompressedRistretto>,
    ))
        requires
            old(self).wf(),
            old(self).t < usize::MAX,
            old(self).public_keys.len() <= x_pows.len(),
        ensures
            *final(self) == *old(self),
            r.1.len() == old(self).t + 1,
            exists|fs: Seq<Polynomial>|
                {
                    &&& embeds(fs, secrets@, old(self).t as nat)
                    &&& evaluated(r.0@, fs, x_pows@, old(self).public_keys@.len())
                    &&& #[trigger] commits_to(r.1@, fs, old(self).g@)
                },
    {
        let (f_polynomials, f_evals) = generate_shares_batched(
            self.public_keys.len(),
            self.t,
            x_pows,
            secrets,
        );
        let mut c_buf: Vec<CompressedRistretto> = Vec::new();
        let mut j: usize = 0;
        while j <= self.t
            invariant
                j <= self.t + 1,
                self.t < usize::MAX,
                c_buf.len() == j,
            decreases self.t + 1 - j,
        {
            c_buf.push(CompressedRistretto::identity());
            j += 1;
        }
        self.generate_proof(&mut c_buf, &f_polynomials);
        let r = (f_evals, c_buf);
        assert(commits_to(r.1@, f_polynomials@, self.g@));
        assert(embeds(f_polynomials@, secrets@, self.t as nat));
        assert(evaluated(r.0@, f_polynomials@, x_pows@, self.public_keys@.len()));
        r
    }

    /// The commitments to the coefficients: `c_buf[j]` becomes the sum of
    /// `f_polynomials[k][j] * g[k]`.
    pub fn generate_proof(&self, c_buf: &mut Vec<CompressedRistretto>, f_polynomials: &Vec<Polynomial>)
        requires
            self.wf(),
            forall|k: int|
                0 <= k < f_polynomials.len() ==> old(c_buf).len() <= (
                #[trigger] f_polynomials[k]).coefficients.len(),
        ensures
            final(c_buf).len() == old(c_buf).len(),
            commits_to(final(c_buf)@, f_polynomials@, self.g@),
    {
        let m = c_buf.len();
        let mut j: usize = 0;
        while j < m
            invariant
                j <= m,
                m == c_buf.len(),
                self.wf(),
                forall|k: int|
                    0 <= k < f_polynomials.len() ==> m <= (
                    #[trigger] f_polynomials[k]).coefficients.len(),
                forall|q: int|
                    0 <= q < j ==> (#[trigger] c_buf[q])@ == coefficient_commitment(
                        f_polynomials@,
                        self.g@,
                        q,
                    ),
            decreases m - j,
        {
            let column = coefficient_column_of(f_polynomials, j);
            assert(crate::scalar::scalar_values(column@).len() == column@.len());
            assert(coefficient_column(f_polynomials@, j as int).len() == f_polynomials@.len());
            let c = fold_points(RistrettoPoint::identity(), column.as_slice(), self.g.as_slice());
            c_buf.set(j, c.compress());
            j += 1;
        }
    }

    /// The public key of the first party.
    pub fn get_pk0(&self) -> (r: &RistrettoPoint)
        requires
            self.public_keys.len() >= 1,
        ensures
            *r == self.public_keys[0],
    {
        &self.public_keys[0]
    }

    /// The secret that the dealer holds.
    pub fn publish_f0(&self) -> (r: Scalar)
        requires
            self.secret is Some,
        ensures
            Some(r) == self.secret,
    {
        self.secret.unwrap()
    }
}

} // verus!
