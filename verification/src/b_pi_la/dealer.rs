//! The dealer of the batched protocol with hash commitments.

use crate::commit::{challenge_powers, challenge_powers_from_digests, hash_commit, hash_commitment};
use crate::error::Error;
use crate::field::order;
use crate::polynomial::{is_fused, poly_eval, poly_views, Polynomial};
use crate::ristretto::{CompressedRistretto, RistrettoPoint};
use crate::scalar::{all_canonical, lemma_scalar_of, scalar_of, scalar_values, Scalar};
use crate::secret_sharing::embeds;
use crate::transcript::{zeroed, Transcript};
use crate::utils::{
    batch_decompress_ristretto_points, challenge, concat_digests, decoded, first_invalid,
};
use rand::{CryptoRng, RngCore};
use vstd::prelude::*;

verus! {

/// `evals[i][j]` is the value of polynomial `j` at `i + 1`, for `n` parties.
pub open spec fn shares_of(evals: Seq<Vec<Scalar>>, fs: Seq<Polynomial>, n: nat) -> bool {
    &&& evals.len() == n
    &&& forall|i: int|
        0 <= i < n ==> {
            &&& (#[trigger] evals[i]).len() == fs.len()
            &&& all_canonical(evals[i]@)
            &&& forall|j: int|
                0 <= j < fs.len() ==> (#[trigger] evals[i][j])@ == poly_eval(fs[j]@, i + 1)
                    % order()
        }
}

/// `c[i]` is the commitment to the shares of party `i + 1` and to the value
/// of the blinding polynomial `r` at `i + 1`.
pub open spec fn commits_to(c: Seq<[u8; 64]>, evals: Seq<Vec<Scalar>>, r: Seq<int>) -> bool {
    &&& c.len() == evals.len()
    &&& forall|i: int|
        0 <= i < c.len() ==> (#[trigger] c[i])@ == hash_commitment(
            evals[i]@,
            scalar_of(poly_eval(r, i + 1)),
        )
}

/// `(c, z)` is the proof for the shares `evals` of the polynomials `fs` that
/// the blinding polynomial `r` gives, from a transcript that had absorbed
/// `before`: the commitments, and `z = r + sum_j d^j * fs[j]` for the
/// challenge `d` that the commitments give.
pub open spec fn is_proof(
    c: Seq<[u8; 64]>,
    z: Polynomial,
    r: Seq<int>,
    fs: Seq<Polynomial>,
    evals: Seq<Vec<Scalar>>,
    before: Seq<u8>,
) -> bool {
    &&& commits_to(c, evals, r)
    &&& all_canonical(z.coefficients@)
    &&& is_fused(
        z@,
        r,
        poly_views(fs),
        challenge_powers(challenge(before + concat_digests(c)), fs.len()),
    )
}

/// The dealer of one sharing session.
#[derive(Debug)]
pub struct Dealer {
    pub t: usize,
    pub public_keys: Vec<RistrettoPoint>,
    pub secrets: Option<Vec<Scalar>>,
}

impl Dealer {
    /// A dealer for `n` parties with threshold `t`; fails where there are
    /// not `n` public keys, or where one of them is no group element.
    pub fn new(n: usize, t: usize, public_keys: &[CompressedRistretto]) -> (r: Result<
        Self,
        Error,
    >)
        ensures
            public_keys.len() != n ==> r == Err::<Self, Error>(
                Error::CountMismatch(n, "parties", public_keys.len(), "public keys"),
            ),
            public_keys.len() == n && first_invalid(public_keys@) < n ==> r == Err::<Self, Error>(
                Error::PointDecompressionError(public_keys[first_invalid(public_keys@)].bytes),
            ),
            public_keys.len() == n && first_invalid(public_keys@) == n ==> r is Ok,
            r matches Ok(d) ==> d.t == t && d.secrets is None && decoded(
                public_keys@,
                d.public_keys@,
            ),
    {
        if public_keys.len() != n {
            return Err(Error::CountMismatch(n, "parties", public_keys.len(), "public keys"));
        }
        match batch_decompress_ristretto_points(public_keys) {
            Ok(pks) => Ok(Dealer { t, public_keys: pks, secrets: None }),
            Err(x) => Err(x),
        }
    }

    pub fn t(&self) -> (r: usize)
        ensures
            r == self.t,
    {
        self.t
    }

    /// The public key of the first party.
    pub fn get_pk0(&self) -> (r: &RistrettoPoint)
        requires
            self.public_keys.len() >= 1,
        ensures
            *r == self.public_keys[0],
    {
        &self.public_keys[0]
    }

    /// The secrets that the dealer holds.
    pub fn publish_f0(&self) -> (r: Vec<Scalar>)
        requires
            self.secrets is Some,
        ensures
            r@ == self.secrets->Some_0@,
    {
        match &self.secrets {
            Some(s) => crate::commit::copy_scalars(s),
            None => Vec::new(),
        }
    }

    /// Shares and proof for the secrets: for each secret a polynomial of
    /// degree `t` with that constant term, their values at each party's index,
    /// and the proof for a fresh blinding polynomial.
    pub fn deal_secrets_v2<R: CryptoRng + RngCore>(
        &mut self,
        rng: &mut R,
        hasher: &mut Transcript,
        buf: &mut [u8; 64],
        secrets: &Vec<Scalar>,
    ) -> (r: (Vec<Vec<Scalar>>, (Vec<[u8; 64]>, Polynomial)))
        requires
            old(self).t < usize::MAX,
        ensures
            *final(self) == *old(self),
            exists|fs: Seq<Polynomial>, blind: Seq<int>|
                {
                    &&& embeds(fs, secrets@, old(self).t as nat)
                    &&& shares_of(r.0@, fs, old(self).public_keys@.len())
                    &&& blind.len() == old(self).t + 1
                    &&& #[trigger] is_proof(r.1.0@, r.1.1, blind, fs, r.0@, old(hasher)@)
                },
            r.1.1.coefficients.len() == old(self).t + 1,
            final(hasher)@ == Seq::<u8>::empty(),
            final(buf)@ == zeroed(),
    {
        let k = secrets.len();
        let (f_polynomials, f_evals) = self.generate_shares(k, secrets);
        let mut c_buf: Vec<[u8; 64]> = Vec::new();
        let mut i: usize = 0;
        while i < self.public_keys.len()
            invariant
                i <= self.public_keys.len(),
                c_buf.len() == i,
            decreases self.public_keys.len() - i,
        {
            c_buf.push([0u8; 64]);
            i += 1;
        }
        let ghost before = hasher@;
        let z = self.generate_proof(rng, hasher, buf, &mut c_buf, k, &f_polynomials, &f_evals);
        let ghost blind = choose|blind: Seq<int>|
            blind.len() == self.t + 1 && #[trigger] is_proof(
                c_buf@,
                z,
                blind,
                f_polynomials@,
                f_evals@,
                before,
            );
        proof {
            assert(shares_of(f_evals@, f_polynomials@, self.public_keys@.len()));
            assert(embeds(f_polynomials@, secrets@, self.t as nat));
        }
        let r = (f_evals, (c_buf, z));
        assert(is_proof(r.1.0@, r.1.1, blind, f_polynomials@, r.0@, before));
        r
    }

    /// For each secret a polynomial of degree `t` with that constant term,
    /// and for each party the values of the polynomials at its index.
    pub fn generate_shares(&self, k: usize, secrets: &Vec<Scalar>) -> (r: (
        Vec<Polynomial>,
        Vec<Vec<Scalar>>,
    ))
        requires
            self.t < usize::MAX,
            k == secrets.len(),
        ensures
            embeds(r.0@, secrets@, self.t as nat),
            shares_of(r.1@, r.0@, self.public_keys@.len()),
    {
        let f_polynomials = Polynomial::sample_n_set_f0(k, self.t, secrets).unwrap();
        let f_evals = Polynomial::evaluate_many_range(
            f_polynomials.as_slice(),
            1,
            self.public_keys.len(),
        );
        proof {
            assert forall|i: int| 0 <= i < self.public_keys.len() implies {
                &&& (#[trigger] f_evals[i]).len() == f_polynomials.len()
                &&& all_canonical(f_evals[i]@)
                &&& forall|j: int|
                    0 <= j < f_polynomials.len() ==> (#[trigger] f_evals[i][j])@ == poly_eval(
                        f_polynomials[j]@,
                        i + 1,
                    ) % order()
            } by {
                assert(f_evals[i] == f_evals[(i + 1) - 1]);
            }
        }
        (f_polynomials, f_evals)
    }

    /// The proof for given shares, with a blinding polynomial drawn from
    /// `rng`: the commitments go to `c_buf`, the polynomial `z` is returned.
    pub fn generate_proof<R: CryptoRng + RngCore>(
        &self,
        rng: &mut R,
        hasher: &mut Transcript,
        buf: &mut [u8; 64],
        c_buf: &mut Vec<[u8; 64]>,
        k: usize,
        f_polynomials: &Vec<Polynomial>,
        f_evals: &Vec<Vec<Scalar>>,
    ) -> (z: Polynomial)
        requires
            self.t < usize::MAX,
            k == f_polynomials.len(),
            old(c_buf).len() == self.public_keys.len(),
            f_evals.len() == self.public_keys.len(),
            forall|j: int|
                0 <= j < f_polynomials.len() ==> (#[trigger] f_polynomials[j]).coefficients.len()
                    == self.t + 1,
        ensures
            exists|blind: Seq<int>|
                blind.len() == self.t + 1 && #[trigger] is_proof(
                    final(c_buf)@,
                    z,
                    blind,
                    f_polynomials@,
                    f_evals@,
                    old(hasher)@,
                ),
            z.coefficients.len() == self.t + 1,
            final(hasher)@ == Seq::<u8>::empty(),
            final(buf)@ == zeroed(),
    {
        let r = Polynomial::sample(self.t, rng);
        let ghost blind = r@;
        let z = self.generate_proof_with(r, hasher, buf, c_buf, k, f_polynomials, f_evals);
        assert(is_proof(c_buf@, z, blind, f_polynomials@, f_evals@, old(hasher)@));
        z
    }

    /// The proof for given shares and a given blinding polynomial `r`.
    pub fn generate_proof_with(
        &self,
        r: Polynomial,
        hasher: &mut Transcript,
        buf: &mut [u8; 64],
        c_buf: &mut Vec<[u8; 64]>,
        k: usize,
        f_polynomials: &Vec<Polynomial>,
        f_evals: &Vec<Vec<Scalar>>,
    ) -> (z: Polynomial)
        requires
            k == f_polynomials.len(),
            old(c_buf).len() == self.public_keys.len(),
            f_evals.len() == self.public_keys.len(),
            forall|j: int|
                0 <= j < f_polynomials.len() ==> (#[trigger] f_polynomials[j]).coefficients.len()
                    == r.coefficients.len(),
        ensures
            is_proof(final(c_buf)@, z, r@, f_polynomials@, f_evals@, old(hasher)@),
            z.coefficients.len() == r.coefficients.len(),
            final(hasher)@ == Seq::<u8>::empty(),
            final(buf)@ == zeroed(),
    {
        let mut r = r;
        let ghost blind = r@;
        let n = self.public_keys.len();
        let r_evals = r.evaluate_range(1, n);
        let mut l_hasher = Transcript::new();
        let mut i: usize = 0;
        while i < n
            invariant
                i <= n,
                n == self.public_keys.len(),
                c_buf.len() == n,
                f_evals.len() == n,
                r_evals.len() == n,
                blind == r@,
                l_hasher@ == Seq::<u8>::empty(),
                all_canonical(r_evals@),
                forall|q: int|
                    1 <= q <= n ==> (#[trigger] r_evals[q - 1])@ == poly_eval(blind, q) % order(),
                forall|q: int|
                    0 <= q < i ==> (#[trigger] c_buf[q])@ == hash_commitment(
                        f_evals[q]@,
                        scalar_of(poly_eval(blind, q + 1)),
                    ),
            decreases n - i,
        {
            let mut l_buf = [0u8; 64];
            hash_commit(&mut l_hasher, f_evals[i].as_slice(), &r_evals[i], &mut l_buf);
            proof {
                assert(r_evals[i as int] == r_evals[(i + 1) - 1]);
                assert(r_evals@[i as int].wf());
                lemma_scalar_of(r_evals[i as int], poly_eval(blind, i + 1));
            }
            c_buf.set(i, l_buf);
            i += 1;
        }
        let d_vals = challenge_powers_from_digests(hasher, buf, c_buf.as_slice(), k);
        r.compute_z(f_polynomials.as_slice(), d_vals.as_slice());
        r
    }
}

/// An honest dealer's shares pass. Where `(c, z)` is the proof for the
/// shares `evals` of the polynomials `fs` with a blinding polynomial of
/// their length, the commitment of every party is the one that the party
/// computes from its share and `z`.
pub proof fn lemma_honest_share_accepted(
    c: Seq<[u8; 64]>,
    z: Polynomial,
    blind: Seq<int>,
    fs: Seq<Polynomial>,
    evals: Seq<Vec<Scalar>>,
    before: Seq<u8>,
    n: nat,
    i: int,
)
    requires
        is_proof(c, z, blind, fs, evals, before),
        shares_of(evals, fs, n),
        forall|j: int| 0 <= j < fs.len() ==> (#[trigger] fs[j])@.len() == blind.len(),
        0 <= i < n,
    ensures
        c[i]@ == hash_commitment(
            evals[i]@,
            crate::commit::expected_blinding(
                z@,
                evals[i]@,
                i + 1,
                challenge(before + concat_digests(c)),
                fs.len(),
            ),
        ),
{
    let d = challenge(before + concat_digests(c));
    let ds = challenge_powers(d, fs.len());
    let views = poly_views(fs);
    let vals = scalar_values(evals[i]@);
    assert forall|j: int| 0 <= j < views.len() implies crate::field::congruent(
        #[trigger] vals[j],
        poly_eval(views[j], i + 1),
    ) by {
        assert(vals[j] == evals[i][j]@);
        crate::field::lemma_reduced(poly_eval(fs[j]@, i + 1));
    }
    assert forall|j: int| 0 <= j < views.len() implies (#[trigger] views[j]).len()
        == blind.len() by {
        assert(views[j] == fs[j]@);
    }
    crate::field::lemma_reduced(poly_eval(z@, i + 1));
    crate::polynomial::lemma_unfused_value(
        z@,
        blind,
        views,
        ds,
        i + 1,
        poly_eval(z@, i + 1),
        vals,
    );
}

} // verus!
