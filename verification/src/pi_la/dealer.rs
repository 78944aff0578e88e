//! The dealer of the protocol with hash commitments for a single secret.

use crate::commit::{hash_commit, hash_commitment};
use crate::error::Error;
use crate::field::{dot, order};
use crate::polynomial::{is_fused, poly_views, Polynomial};
use crate::ristretto::{CompressedRistretto, RistrettoPoint};
use crate::scalar::{all_canonical, lemma_scalar_of, scalar_of, scalar_values, Scalar};
use crate::secret_sharing::generate_shares;
use crate::transcript::{zeroed, Transcript};
use crate::utils::{
    batch_decompress_ristretto_points, challenge, compute_d_from_hash_commitments,
    concat_digests, decoded, first_invalid,
};
use rand::{CryptoRng, RngCore};
use vstd::prelude::*;

verus! {

/// `evals[i]` is the value that row `i` of `x_pows`, the row of party
/// `i + 1`, gives to `f`, for each of the `n` parties.
pub open spec fn shares_of(evals: Seq<Scalar>, f: Seq<int>, x_pows: Seq<Vec<Scalar>>, n: nat) -> bool {
    &&& evals.len() == n
    &&& all_canonical(evals)
    &&& forall|i: int|
        0 <= i < n ==> (#[trigger] evals[i])@ == dot(f, scalar_values(x_pows[i]@)) % order()
}

/// `c[i]` is the commitment to the share of party `i + 1` and to the value
/// that its row of `x_pows` gives to the blinding polynomial `r`.
pub open spec fn commits_to(
    c: Seq<[u8; 64]>,
    evals: Seq<Scalar>,
    r: Seq<int>,
    x_pows: Seq<Vec<Scalar>>,
) -> bool {
    &&& c.len() == evals.len()
    &&& forall|i: int|
        0 <= i < c.len() ==> (#[trigger] c[i])@ == hash_commitment(
            seq![evals[i]],
            scalar_of(dot(r, scalar_values(x_pows[i]@))),
        )
}

/// `(c, z)` is the proof for the shares `evals` of the polynomial `f` that
/// the blinding polynomial `r` gives, from a transcript that had absorbed
/// `before`: the commitments, and `z = r + d * f` for the challenge `d`
/// that the commitments give.
pub open spec fn is_proof(
    c: Seq<[u8; 64]>,
    z: Polynomial,
    r: Seq<int>,
    f: Seq<int>,
    evals: Seq<Scalar>,
    x_pows: Seq<Vec<Scalar>>,
    before: Seq<u8>,
) -> bool {
    &&& commits_to(c, evals, r, x_pows)
    &&& all_canonical(z.coefficients@)
    &&& is_fused(z@, r, seq![f], seq![challenge(before + concat_digests(c))])
}

/// The dealer of one sharing session.
#[derive(Debug)]
pub struct Dealer {
    pub t: usize,
    pub public_keys: Vec<RistrettoPoint>,
    pub secret: Option<Scalar>,
}

impl Dealer {
    /// A dealer for `n` parties with threshold `t`; fails where there are
    /// not `n` public keys, or where one of them is no group element.
    pub fn new(n: usize, t: usize, public_keys: &[CompressedRistretto]) -> (r: Result<
        Self,
        Error,
    >)
        ensures
            public_keys.len() != n ==> r == Err::<Self, Error>(
                Error::CountMismatch(n, "parties", public_keys.len(), "public keys"),
            ),
            public_keys.len() == n && first_invalid(public_keys@) < n ==> r == Err::<Self, Error>(
                Error::PointDecompressionError(public_keys[first_invalid(public_keys@)].bytes),
            ),
            public_keys.len() == n && first_invalid(public_keys@) == n ==> r is Ok,
            r matches Ok(d) ==> d.t == t && d.secret is None && decoded(
                public_keys@,
                d.public_keys@,
            ),
    {
        if public_keys.len() != n {
            return Err(Error::CountMismatch(n, "parties", public_keys.len(), "public keys"));
        }
        match batch_decompress_ristretto_points(public_keys) {
            Ok(pks) => Ok(Dealer { t, public_keys: pks, secret: None }),
            Err(x) => Err(x),
        }
    }

    pub fn t(&self) -> (r: usize)
        ensures
            r == self.t,
    {
        self.t
    }

    /// The public key of the first party.
    pub fn get_pk0(&self) -> (r: &RistrettoPoint)
        requires
            self.public_keys.len() >= 1,
        ensures
            *r == self.public_keys[0],
    {
        &self.public_keys[0]
    }

    /// The secret that the dealer holds.
    pub fn publish_f0(&self) -> (r: Scalar)
        requires
            self.secret is Some,
        ensures
            Some(r) == self.secret,
    {
        self.secret.unwrap()
    }

    /// Shares and proof for the secret.
    pub fn deal_secret<R: CryptoRng + RngCore>(
        &mut self,
        rng: &mut R,
        hasher: &mut Transcript,
        buf: &mut [u8; 64],
        x_pows: &Vec<Vec<Scalar>>,
        secret: &Scalar,
    ) -> (r: (Vec<Scalar>, (Vec<[u8; 64]>, Polynomial)))
        requires
            old(self).t < usize::MAX,
            old(self).public_keys.len() <= x_pows.len(),
        ensures
            *final(self) == *old(self),
            exists|f: Polynomial, blind: Seq<int>|
                {
                    &&& f.coefficients.len() == old(self).t + 1
                    &&& f.coefficients[0] == *secret
                    &&& shares_of(r.0@, f@, x_pows@, old(self).public_keys@.len())
                    &&& blind.len() == old(self).t + 1
                    &&& #[trigger] is_proof(
                        r.1.0@,
                        r.1.1,
                        blind,
                        f@,
                        r.0@,
                        x_pows@,
                        old(hasher)@,
                    )
                },
            r.1.1.coefficients.len() == old(self).t + 1,
            final(hasher)@ == Seq::<u8>::empty(),
            final(buf)@ == zeroed(),
    {
        let ghost before = hasher@;
        let (f_polynomial, f_evals) = self.generate_shares(rng, x_pows, secret);
        let ghost f = f_polynomial;
        let mut c_buf: Vec<[u8; 64]> = Vec::new();
        let mut i: usize = 0;
        while i < self.public_keys.len()
            invariant
                i <= self.public_keys.len(),
                c_buf.len() == i,
            decreases self.public_keys.len() - i,
        {
            c_buf.push([0u8; 64]);
            i += 1;
        }
        let z = self.generate_proof(rng, hasher, buf, &mut c_buf, x_pows, f_polynomial, &f_evals);
        let ghost blind = choose|blind: Seq<int>|
            blind.len() == self.t + 1 && #[trigger] is_proof(
                c_buf@,
                z,
                blind,
                f@,
                f_evals@,
                x_pows@,
                before,
            );
        let r = (f_evals, (c_buf, z));
        assert(is_proof(r.1.0@, r.1.1, blind, f@, r.0@, x_pows@, before));
        assert(shares_of(r.0@, f@, x_pows@, self.public_keys@.len()));
        r
    }

    /// A polynomial of degree `t` with the secret as its constant term, and
    /// its values for the parties.
    pub fn generate_shares<R: CryptoRng + RngCore>(
        &self,
        rng: &mut R,
        x_pows: &Vec<Vec<Scalar>>,
        secret: &Scalar,
    ) -> (r: (Polynomial, Vec<Scalar>))
        requires
            self.t < usize::MAX,
            self.public_keys.len() <= x_pows.len(),
        ensures
            r.0.coefficients.len() == self.t + 1,
            r.0.coefficients[0] == *secret,
            forall|c: int| 1 <= c <= self.t ==> (#[trigger] r.0.coefficients[c]).wf(),
            shares_of(r.1@, r.0@, x_pows@, self.public_keys@.len()),
    {
        generate_shares(rng, self.public_keys.len(), self.t, x_pows, secret)
    }

    /// The proof for given shares, with a blinding polynomial drawn from
    /// `rng`: the commitments go to `c_buf`, the polynomial `z` is returned.
    pub fn generate_proof<R: CryptoRng + RngCore>(
        &self,
        rng: &mut R,
        hasher: &mut Transcript,
        buf: &mut [u8; 64],
        c_buf: &mut Vec<[u8; 64]>,
        x_pows: &Vec<Vec<Scalar>>,
        f_polynomial: Polynomial,
        f_evals: &Vec<Scalar>,
    ) -> (z: Polynomial)
        requires
            self.t < usize::MAX,
            self.public_keys.len() <= x_pows.len(),
            old(c_buf).len() == self.public_keys.len(),
            f_evals.len() == self.public_keys.len(),
            f_polynomial.coefficients.len() == self.t + 1,
        ensures
            exists|blind: Seq<int>|
                blind.len() == self.t + 1 && #[trigger] is_proof(
                    final(c_buf)@,
                    z,
                    blind,
                    f_polynomial@,
                    f_evals@,
                    x_pows@,
                    old(hasher)@,
                ),
            z.coefficients.len() == self.t + 1,
            final(hasher)@ == Seq::<u8>::empty(),
            final(buf)@ == zeroed(),
    {
        let r = Polynomial::sample(self.t, rng);
        let ghost blind = r@;
        let ghost f = f_polynomial@;
        let z = self.generate_proof_with(r, hasher, buf, c_buf, x_pows, f_polynomial, f_evals);
        assert(is_proof(c_buf@, z, blind, f, f_evals@, x_pows@, old(hasher)@));
        z
    }

    /// The proof for given shares and a given blinding polynomial `r`.
    pub fn generate_proof_with(
        &self,
        r: Polynomial,
        hasher: &mut Transcript,
        buf: &mut [u8; 64],
        c_buf: &mut Vec<[u8; 64]>,
        x_pows: &Vec<Vec<Scalar>>,
        f_polynomial: Polynomial,
        f_evals: &Vec<Scalar>,
    ) -> (z: Polynomial)
        requires
            self.public_keys.len() <= x_pows.len(),
            old(c_buf).len() == self.public_keys.len(),
            f_evals.len() == self.public_keys.len(),
            f_polynomial.coefficients.len() == r.coefficients.len(),
        ensures
            is_proof(final(c_buf)@, z, r@, f_polynomial@, f_evals@, x_pows@, old(hasher)@),
            z.coefficients.len() == r.coefficients.len(),
            final(hasher)@ == Seq::<u8>::empty(),
            final(buf)@ == zeroed(),
    {
        let mut r = r;
        let ghost blind = r@;
        let ghost f = f_polynomial@;
        let n = self.public_keys.len();
        let r_evals = r.evaluate_range_precomp(x_pows, 1, n);
        let mut l_hasher = Transcript::new();
        let mut i: usize = 0;
        while i < n
            invariant
                i <= n,
                n == self.public_keys.len(),
                n <= x_pows.len(),
                c_buf.len() == n,
                f_evals.len() == n,
                r_evals.len() == n,
                blind == r@,
                l_hasher@ == Seq::<u8>::empty(),
                all_canonical(r_evals@),
                forall|q: int|
                    1 <= q <= n ==> (#[trigger] r_evals[q - 1])@ == dot(
                        blind,
                        scalar_values(x_pows[q - 1]@),
                    ) % order(),
                forall|q: int|
                    0 <= q < i ==> (#[trigger] c_buf[q])@ == hash_commitment(
                        seq![f_evals[q]],
                        scalar_of(dot(blind, scalar_values(x_pows[q]@))),
                    ),
            decreases n - i,
        {
            let mut l_buf = [0u8; 64];
            let share = vec![f_evals[i]];
            hash_commit(&mut l_hasher, share.as_slice(), &r_evals[i], &mut l_buf);
            proof {
                assert(share@ =~= seq![f_evals[i as int]]);
                assert(r_evals[i as int] == r_evals[(i + 1) - 1]);
                assert(r_evals@[i as int].wf());
                lemma_scalar_of(r_evals[i as int], dot(blind, scalar_values(x_pows[i as int]@)));
            }
            c_buf.set(i, l_buf);
            i += 1;
        }
        let d = compute_d_from_hash_commitments(hasher, buf, c_buf.as_slice());
        let fs = vec![f_polynomial];
        let ds = vec![d];
        proof {
            assert(poly_views(fs@) =~= seq![f]);
            assert(scalar_values(ds@) =~= seq![d@]);
        }
        r.compute_z(fs.as_slice(), ds.as_slice());
        r
    }
}

} // verus!
