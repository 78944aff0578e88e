//! The dealer of the batched protocol with group-element commitments.

use crate::commit::{
    challenge_powers, challenge_powers_from_points, linear_commit, linear_commitment,
};
use crate::error::Error;
use crate::field::{dot, lemma_small_is_reduced, order};
use crate::polynomial::{is_fused, poly_views, Polynomial};
use crate::ristretto::{all_valid, CompressedRistretto, RistrettoPoint};
use crate::scalar::{all_canonical, scalar_values, Scalar};
use crate::secret_sharing::{embeds, evaluated};
use crate::transcript::{zeroed, Transcript};
use crate::utils::{
    batch_decompress_ristretto_points, challenge, concat_encodings, decoded, first_invalid,
};
use rand::{CryptoRng, RngCore};
use vstd::prelude::*;

verus! {

/// `c[i]` is the commitment to the shares of party `i + 1` and to the value
/// that its row of `x_pows` gives to the blinding polynomial `r`.
pub open spec fn commits_to(
    c: Seq<CompressedRistretto>,
    evals: Seq<Vec<Scalar>>,
    r: Seq<int>,
    x_pows: Seq<Vec<Scalar>>,
    g: Seq<RistrettoPoint>,
    g0: Seq<u8>,
) -> bool {
    &&& c.len() == evals.len()
    &&& forall|i: int|
        0 <= i < c.len() ==> (#[trigger] c[i])@ == linear_commitment(
            evals[i]@,
            g,
            g0,
            dot(r, scalar_values(x_pows[i]@)),
        )
}

/// `(c, z)` is the proof for the shares `evals` of the polynomials `fs` that
/// the blinding polynomial `r` gives, from a transcript that had absorbed
/// `before`: the commitments, and `z = r + sum_j d^j * fs[j]` for the
/// challenge `d` that the commitments give.
pub open spec fn is_proof(
    c: Seq<CompressedRistretto>,
    z: Polynomial,
    r: Seq<int>,
    fs: Seq<Polynomial>,
    evals: Seq<Vec<Scalar>>,
    x_pows: Seq<Vec<Scalar>>,
    g: Seq<RistrettoPoint>,
    g0: Seq<u8>,
    before: Seq<u8>,
) -> bool {
    &&& commits_to(c, evals, r, x_pows, g, g0)
    &&& all_canonical(z.coefficients@)
    &&& is_fused(
        z@,
        r,
        poly_views(fs),
        challenge_powers(challenge(before + concat_encodings(c)), fs.len()),
    )
}

/// The dealer of one sharing session.
#[derive(Debug)]
pub struct Dealer {
    pub t: usize,
    pub g: Vec<RistrettoPoint>,
    pub g0: RistrettoPoint,
    pub public_keys: Vec<RistrettoPoint>,
    pub secret: Option<Scalar>,
}

impl Dealer {
    /// The generators are group elements.
    pub open spec fn wf(&self) -> bool {
        all_valid(self.g@) && self.g0.wf()
    }

    /// A dealer for `n` parties with threshold `t`; fails where there are
    /// not `n` public keys, or where one of them is no group element.
    pub fn new(
        g: Vec<RistrettoPoint>,
        g0: RistrettoPoint,
        n: usize,
        t: usize,
        public_keys: &[CompressedRistretto],
    ) -> (r: Result<Self, Error>)
        ensures
            public_keys.len() != n ==> r == Err::<Self, Error>(
                Error::CountMismatch(n, "parties", public_keys.len(), "public keys"),
            ),
            public_keys.len() == n && first_invalid(public_keys@) < n ==> r == Err::<Self, Error>(
                Error::PointDecompressionError(public_keys[first_invalid(public_keys@)].bytes),
            ),
            public_keys.len() == n && first_invalid(public_keys@) == n ==> r is Ok,
            r matches Ok(d) ==> d.t == t && d.g == g && d.g0 == g0 && d.secret is None && decoded(
                public_keys@,
                d.public_keys@,
            ),
    {
        if public_keys.len() != n {
            return Err(Error::CountMismatch(n, "parties", public_keys.len(), "public keys"));
        }
        match batch_decompress_ristretto_points(public_keys) {
            Ok(pks) => Ok(Dealer { t, public_keys: pks, secret: None, g, g0 }),
            Err(x) => Err(x),
        }
    }

    pub fn t(&self) -> (r: usize)
        ensures
            r == self.t,
    {
        self.t
    }

    /// The public key of the first party.
    pub fn get_pk0(&self) -> (r: &RistrettoPoint)
        requires
            self.public_keys.len() >= 1,
        ensures
            *r == self.public_keys[0],
    {
        &self.public_keys[0]
    }

    /// The secret that the dealer holds.
    pub fn publish_f0(&self) -> (r: Scalar)
        requires
            self.secret is Some,
        ensures
            Some(r) == self.secret,
    {
        self.secret.unwrap()
    }

    /// Shares and proof for the secrets.
    pub fn deal_secret<R: CryptoRng + RngCore>(
        &mut self,
        rng: &mut R,
        hasher: &mut Transcript,
        buf: &mut [u8; 64],
        x_pows: &Vec<Vec<Scalar>>,
        secrets: &Vec<Scalar>,
    ) -> (r: (Vec<Vec<Scalar>>, (Vec<CompressedRistretto>, Polynomial)))
        requires
            old(self).wf(),
            old(self).t < usize::MAX,
            old(self).public_keys.len() <= x_pows.len(),
        ensures
            *final(self) == *old(self),
            exists|fs: Seq<Polynomial>, blind: Seq<int>|
                {
                    &&& embeds(fs, secrets@, old(self).t as nat)
                    &&& evaluated(r.0@, fs, x_pows@, old(self).public_keys@.len())
                    &&& blind.len() == old(self).t + 1
                    &&& #[trigger] is_proof(
                        r.1.0@,
                        r.1.1,
                        blind,
                        fs,
                        r.0@,
                        x_pows@,
                        old(self).g@,
                        old(self).g0@,
                        old(hasher)@,
                    )
                },
            r.1.1.coefficients.len() == old(self).t + 1,
            final(hasher)@ == Seq::<u8>::empty(),
            final(buf)@ == zeroed(),
    {
        let k = secrets.len();
        let ghost before = hasher@;
        let (f_polynomials, f_evals) = self.generate_shares(x_pows, k, secrets);
        let mut c_buf: Vec<CompressedRistretto> = Vec::new();
        let z = self.generate_proof(
            rng,
            hasher,
            buf,
            &mut c_buf,
            x_pows,
            k,
            &f_polynomials,
            &f_evals,
        );
        let ghost blind = choose|blind: Seq<int>|
            blind.len() == self.t + 1 && #[trigger] is_proof(
                c_buf@,
                z,
                blind,
                f_polynomials@,
                f_evals@,
                x_pows@,
                self.g@,
                self.g0@,
                before,
            );
        let r = (f_evals, (c_buf, z));
        assert(is_proof(
            r.1.0@,
            r.1.1,
            blind,
            f_polynomials@,
            r.0@,
            x_pows@,
            self.g@,
            self.g0@,
            before,
        ));
        assert(embeds(f_polynomials@, secrets@, self.t as nat));
        assert(evaluated(r.0@, f_polynomials@, x_pows@, self.public_keys@.len()));
        r
    }

    /// For each secret a polynomial of degree `t` with that constant term,
    /// and for each party the values that its row of `x_pows` gives them.
    pub fn generate_shares(&self, x_pows: &Vec<Vec<Scalar>>, k: usize, secrets: &Vec<Scalar>) -> (r:
        (Vec<Polynomial>, Vec<Vec<Scalar>>))
        requires
            self.t < usize::MAX,
            self.public_keys.len() <= x_pows.len(),
            k == secrets.len(),
        ensures
            embeds(r.0@, secrets@, self.t as nat),
            evaluated(r.1@, r.0@, x_pows@, self.public_keys@.len()),
    {
        crate::secret_sharing::generate_shares_batched(
            self.public_keys.len(),
            self.t,
            x_pows,
            secrets,
        )
    }

    /// The proof for given shares, with a blinding polynomial drawn from
    /// `rng`: the commitments replace what `c_buf` holds, the polynomial `z`
    /// is returned.
    pub fn generate_proof<R: CryptoRng + RngCore>(
        &self,
        rng: &mut R,
        hasher: &mut Transcript,
        buf: &mut [u8; 64],
        c_buf: &mut Vec<CompressedRistretto>,
        x_pows: &Vec<Vec<Scalar>>,
        k: usize,
        f_polynomials: &Vec<Polynomial>,
        f_evals: &Vec<Vec<Scalar>>,
    ) -> (z: Polynomial)
        requires
            self.wf(),
            self.t < usize::MAX,
            self.public_keys.len() <= x_pows.len(),
            k == f_polynomials.len(),
            f_evals.len() == self.public_keys.len(),
            forall|j: int|
                0 <= j < f_polynomials.len() ==> (#[trigger] f_polynomials[j]).coefficients.len()
                    == self.t + 1,
        ensures
            exists|blind: Seq<int>|
                blind.len() == self.t + 1 && #[trigger] is_proof(
                    final(c_buf)@,
                    z,
                    blind,
                    f_polynomials@,
                    f_evals@,
                    x_pows@,
                    self.g@,
                    self.g0@,
                    old(hasher)@,
                ),
            z.coefficients.len() == self.t + 1,
            final(hasher)@ == Seq::<u8>::empty(),
            final(buf)@ == zeroed(),
    {
        let r = Polynomial::sample(self.t, rng);
        let ghost blind = r@;
        let z = self.generate_proof_with(r, hasher, buf, c_buf, x_pows, k, f_polynomials, f_evals);
        assert(is_proof(
            c_buf@,
            z,
            blind,
            f_polynomials@,
            f_evals@,
            x_pows@,
            self.g@,
            self.g0@,
            old(hasher)@,
        ));
        z
    }

    /// The proof for given shares and a given blinding polynomial `r`.
    pub fn generate_proof_with(
        &self,
        r: Polynomial,
        hasher: &mut Transcript,
        buf: &mut [u8; 64],
        c_buf: &mut Vec<CompressedRistretto>,
        x_pows: &Vec<Vec<Scalar>>,
        k: usize,
        f_polynomials: &Vec<Polynomial>,
        f_evals: &Vec<Vec<Scalar>>,
    ) -> (z: Polynomial)
        requires
            self.wf(),
            self.public_keys.len() <= x_pows.len(),
            k == f_polynomials.len(),
            f_evals.len() == self.public_keys.len(),
            forall|j: int|
                0 <= j < f_polynomials.len() ==> (#[trigger] f_polynomials[j]).coefficients.len()
                    == r.coefficients.len(),
        ensures
            is_proof(
                final(c_buf)@,
                z,
                r@,
                f_polynomials@,
                f_evals@,
                x_pows@,
                self.g@,
                self.g0@,
                old(hasher)@,
            ),
            z.coefficients.len() == r.coefficients.len(),
            final(hasher)@ == Seq::<u8>::empty(),
            final(buf)@ == zeroed(),
    {
        let mut r = r;
        let ghost blind = r@;
        let n = self.public_keys.len();
        let r_evals = r.evaluate_range_precomp(x_pows, 1, n);
        let mut commitments: Vec<CompressedRistretto> = Vec::new();
        let mut i: usize = 0;
        while i < n
            invariant
                i <= n,
                n == self.public_keys.len(),
                n <= x_pows.len(),
                self.wf(),
                f_evals.len() == n,
                r_evals.len() == n,
                blind == r@,
                all_canonical(r_evals@),
                forall|q: int|
                    1 <= q <= n ==> (#[trigger] r_evals[q - 1])@ == dot(
                        blind,
                        scalar_values(x_pows[q - 1]@),
                    ) % order(),
                commitments.len() == i,
                forall|q: int|
                    0 <= q < i ==> (#[trigger] commitments[q])@ == linear_commitment(
                        f_evals[q]@,
                        self.g@,
                        self.g0@,
                        dot(blind, scalar_values(x_pows[q]@)),
                    ),
            decreases n - i,
        {
            proof {
                assert(r_evals[i as int] == r_evals[(i + 1) - 1]);
                assert(r_evals@[i as int].wf());
                lemma_small_is_reduced(r_evals[i as int]@);
                crate::field::lemma_reduced(dot(blind, scalar_values(x_pows[i as int]@)));
            }
            let c = linear_commit(
                f_evals[i].as_slice(),
                self.g.as_slice(),
                &self.g0,
                &r_evals[i],
            );
            commitments.push(c.compress());
            i += 1;
        }
        *c_buf = commitments;
        let d_vals = challenge_powers_from_points(hasher, buf, c_buf.as_slice(), k);
        r.compute_z(f_polynomials.as_slice(), d_vals.as_slice());
        r
    }
}

} // verus!
