//! The dealer of the batched protocol with hashed shares in a Pedersen
//! commitment.

use crate::commit::{
    challenge_powers, challenge_powers_from_points, hash_commit, hash_commitment,
};
use crate::error::Error;
use crate::field::{dot, lemma_small_is_reduced, order};
use crate::polynomial::{is_fused, poly_views, Polynomial};
use crate::random::random_scalars;
use crate::ristretto::{ristretto_add, ristretto_mul, CompressedRistretto, RistrettoPoint};
use crate::scalar::{
    all_canonical, le_value, lemma_scalar_of, scalar_of, scalar_values, Scalar,
};
use crate::secret_sharing::{embeds, evaluated};
use crate::transcript::{wipe, zeroed, Transcript};
use crate::utils::{
    batch_decompress_ristretto_points, challenge, concat_encodings, decoded, first_invalid,
};
use rand::{CryptoRng, RngCore};
use vstd::prelude::*;

verus! {

/// The commitment to a share, a blinding value `r` and a second blind
/// `gamma`: `h * g1 + gamma * g2`, where `h` is the hash of the share and
/// `r`, reduced to a scalar.
pub open spec fn hashed_commitment(
    share: Seq<Scalar>,
    r: Scalar,
    gamma: int,
    g1: Seq<u8>,
    g2: Seq<u8>,
) -> Seq<u8> {
    ristretto_add(
        ristretto_mul(le_value(hash_commitment(share, r)) as int % order(), g1),
        ristretto_mul(gamma % order(), g2),
    )
}

/// The commitment to a share, a blinding value and a second blind, from a
/// transcript that is empty and is left empty; `buf` is cleared.
pub fn hashed_commit(
    hasher: &mut Transcript,
    buf: &mut [u8; 64],
    share: &[Scalar],
    r: &Scalar,
    gamma: &Scalar,
    g1: &RistrettoPoint,
    g2: &RistrettoPoint,
) -> (c: RistrettoPoint)
    requires
        old(hasher)@ == Seq::<u8>::empty(),
        g1.wf(),
        g2.wf(),
    ensures
        c.wf(),
        c@ == hashed_commitment(share@, *r, gamma@, g1@, g2@),
        final(hasher)@ == Seq::<u8>::empty(),
        final(buf)@ == zeroed(),
{
    hash_commit(hasher, share, r, buf);
    let h = Scalar::from_bytes_mod_order_wide(buf);
    wipe(buf);
    proof {
        lemma_small_is_reduced(h@);
    }
    g1.mul(&h).add(&g2.mul(gamma))
}

/// `c[i]` is the commitment to the shares of party `i + 1`, to the value
/// that its row of `x_pows` gives to the blinding polynomial `r`, and to
/// its second blind.
pub open spec fn commits_to(
    c: Seq<CompressedRistretto>,
    evals: Seq<Vec<Scalar>>,
    r: Seq<int>,
    gammas: Seq<Scalar>,
    x_pows: Seq<Vec<Scalar>>,
    g1: Seq<u8>,
    g2: Seq<u8>,
) -> bool {
    &&& c.len() == evals.len()
    &&& c.len() == gammas.len()
    &&& forall|i: int|
        0 <= i < c.len() ==> (#[trigger] c[i])@ == hashed_commitment(
            evals[i]@,
            scalar_of(dot(r, scalar_values(x_pows[i]@))),
            gammas[i]@,
            g1,
            g2,
        )
}

/// `(c, z)` is the proof for the shares `evals` of the polynomials `fs` that
/// the blinding polynomial `r` and the second blinds `gammas` give, from a
/// transcript that had absorbed `before`.
pub open spec fn is_proof(
    c: Seq<CompressedRistretto>,
    z: Polynomial,
    r: Seq<int>,
    gammas: Seq<Scalar>,
    fs: Seq<Polynomial>,
    evals: Seq<Vec<Scalar>>,
    x_pows: Seq<Vec<Scalar>>,
    g1: Seq<u8>,
    g2: Seq<u8>,
    before: Seq<u8>,
) -> bool {
    &&& commits_to(c, evals, r, gammas, x_pows, g1, g2)
    &&& all_canonical(z.coefficients@)
    &&& is_fused(
        z@,
        r,
        poly_views(fs),
        challenge_powers(challenge(before + concat_encodings(c)), fs.len()),
    )
}

/// The dealer of one sharing session.
#[derive(Debug)]
pub struct Dealer {
    pub t: usize,
    pub g1: RistrettoPoint,
    pub g2: RistrettoPoint,
    pub public_keys: Vec<RistrettoPoint>,
    pub secret: Option<Scalar>,
}

impl Dealer {
    /// The generators are group elements.
    pub open spec fn wf(&self) -> bool {
        self.g1.wf() && self.g2.wf()
    }

    /// A dealer for `n` parties with threshold `t`; fails where there are
    /// not `n` public keys, or where one of them is no group element.
    pub fn new(
        g1: RistrettoPoint,
        g2: RistrettoPoint,
        n: usize,
        t: usize,
        public_keys: &[CompressedRistretto],
    ) -> (r: Result<Self, Error>)
        ensures
            public_keys.len() != n ==> r == Err::<Self, Error>(
                Error::CountMismatch(n, "parties", public_keys.len(), "public keys"),
            ),
            public_keys.len() == n && first_invalid(public_keys@) < n ==> r == Err::<Self, Error>(
                Error::PointDecompressionError(public_keys[first_invalid(public_keys@)].bytes),
            ),
            public_keys.len() == n && first_invalid(public_keys@) == n ==> r is Ok,
            r matches Ok(d) ==> d.t == t && d.g1 == g1 && d.g2 == g2 && d.secret is None
                && decoded(public_keys@, d.public_keys@),
    {
        if public_keys.len() != n {
            return Err(Error::CountMismatch(n, "parties", public_keys.len(), "public keys"));
        }
        match batch_decompress_ristretto_points(public_keys) {
            Ok(pks) => Ok(Dealer { t, public_keys: pks, secret: None, g1, g2 }),
            Err(x) => Err(x),
        }
    }

    pub fn t(&self) -> (r: usize)
        ensures
            r == self.t,
    {
        self.t
    }

    /// Shares, second blinds and proof for the secrets.
    pub fn deal_secret<R: CryptoRng + RngCore>(
        &mut self,
        rng: &mut R,
        hasher: &mut Transcript,
        buf: &mut [u8; 64],
        x_pows: &Vec<Vec<Scalar>>,
        secrets: &Vec<Scalar>,
    ) -> (r: (Vec<Vec<Scalar>>, (Vec<Scalar>, Vec<CompressedRistretto>, Polynomial)))
        requires
            old(self).wf(),
            old(self).t < usize::MAX,
            old(self).public_keys.len() <= x_pows.len(),
        ensures
            *final(self) == *old(self),
            exists|fs: Seq<Polynomial>, blind: Seq<int>|
                {
                    &&& embeds(fs, secrets@, old(self).t as nat)
                    &&& evaluated(r.0@, fs, x_pows@, old(self).public_keys@.len())
                    &&& blind.len() == old(self).t + 1
                    &&& #[trigger] is_proof(
                        r.1.1@,
                        r.1.2,
                        blind,
                        r.1.0@,
                        fs,
                        r.0@,
                        x_pows@,
                        old(self).g1@,
                        old(self).g2@,
                        old(hasher)@,
                    )
                },
            r.1.2.coefficients.len() == old(self).t + 1,
            final(hasher)@ == Seq::<u8>::empty(),
            final(buf)@ == zeroed(),
    {
        let k = secrets.len();
        let ghost before = hasher@;
        let (f_polynomials, f_evals) = self.generate_shares(x_pows, k, secrets);
        let mut c_buf: Vec<CompressedRistretto> = Vec::new();
        let (g, z) = self.generate_proof(
            rng,
            hasher,
            buf,
            &mut c_buf,
            x_pows,
            k,
            &f_polynomials,
            &f_evals,
        );
        let ghost blind = choose|blind: Seq<int>|
            blind.len() == self.t + 1 && #[trigger] is_proof(
                c_buf@,
                z,
                blind,
                g@,
                f_polynomials@,
                f_evals@,
                x_pows@,
                self.g1@,
                self.g2@,
                before,
            );
        let r = (f_evals, (g, c_buf, z));
        assert(is_proof(
            r.1.1@,
            r.1.2,
            blind,
            r.1.0@,
            f_polynomials@,
            r.0@,
            x_pows@,
            self.g1@,
            self.g2@,
            before,
        ));
        assert(embeds(f_polynomials@, secrets@, self.t as nat));
        assert(evaluated(r.0@, f_polynomials@, x_pows@, self.public_keys@.len()));
        r
    }

    /// For each secret a polynomial of degree `t` with that constant term,
    /// and for each party the values that its row of `x_pows` gives them.
    pub fn generate_shares(&self, x_pows: &Vec<Vec<Scalar>>, k: usize, secrets: &Vec<Scalar>) -> (r:
        (Vec<Polynomial>, Vec<Vec<Scalar>>))
        requires
            self.t < usize::MAX,
            self.public_keys.len() <= x_pows.len(),
            k == secrets.len(),
        ensures
            embeds(r.0@, secrets@, self.t as nat),
            evaluated(r.1@, r.0@, x_pows@, self.public_keys@.len()),
    {
        crate::secret_sharing::generate_shares_batched(
            self.public_keys.len(),
            self.t,
            x_pows,
            secrets,
        )
    }

    /// The proof for given shares, with a blinding polynomial and second
    /// blinds drawn from `rng`: the commitments replace what `c_buf` holds,
    /// the second blinds and the polynomial `z` are returned.
    pub fn generate_proof<R: CryptoRng + RngCore>(
        &self,
        rng: &mut R,
        hasher: &mut Transcript,
        buf: &mut [u8; 64],
        c_buf: &mut Vec<CompressedRistretto>,
        x_pows: &Vec<Vec<Scalar>>,
        k: usize,
        f_polynomials: &Vec<Polynomial>,
        f_evals: &Vec<Vec<Scalar>>,
    ) -> (r: (Vec<Scalar>, Polynomial))
        requires
            self.wf(),
            self.t < usize::MAX,
            self.public_keys.len() <= x_pows.len(),
            k == f_polynomials.len(),
            f_evals.len() == self.public_keys.len(),
            forall|j: int|
                0 <= j < f_polynomials.len() ==> (#[trigger] f_polynomials[j]).coefficients.len()
                    == self.t + 1,
        ensures
            exists|blind: Seq<int>|
                blind.len() == self.t + 1 && #[trigger] is_proof(
                    final(c_buf)@,
                    r.1,
                    blind,
                    r.0@,
                    f_polynomials@,
                    f_evals@,
                    x_pows@,
                    self.g1@,
                    self.g2@,
                    old(hasher)@,
                ),
            r.1.coefficients.len() == self.t + 1,
            all_canonical(r.0@),
            final(hasher)@ == Seq::<u8>::empty(),
            final(buf)@ == zeroed(),
    {
        let blinding = Polynomial::sample(self.t, rng);
        let ghost blind = blinding@;
        let g = random_scalars(rng, self.public_keys.len());
        let z = self.generate_proof_with(
            blinding,
            &g,
            hasher,
            buf,
            c_buf,
            x_pows,
            k,
            f_polynomials,
            f_evals,
        );
        assert(is_proof(
            c_buf@,
            z,
            blind,
            g@,
            f_polynomials@,
            f_evals@,
            x_pows@,
            self.g1@,
            self.g2@,
            old(hasher)@,
        ));
        let r = (g, z);
        assert(is_proof(
            c_buf@,
            r.1,
            blind,
            r.0@,
            f_polynomials@,
            f_evals@,
            x_pows@,
            self.g1@,
            self.g2@,
            old(hasher)@,
        ));
        r
    }

    /// The proof for given shares, a given blinding polynomial `r` and given
    /// second blinds.
    pub fn generate_proof_with(
        &self,
        r: Polynomial,
        gammas: &Vec<Scalar>,
        hasher: &mut Transcript,
        buf: &mut [u8; 64],
        c_buf: &mut Vec<CompressedRistretto>,
        x_pows: &Vec<Vec<Scalar>>,
        k: usize,
        f_polynomials: &Vec<Polynomial>,
        f_evals: &Vec<Vec<Scalar>>,
    ) -> (z: Polynomial)
        requires
            self.wf(),
            self.public_keys.len() <= x_pows.len(),
            k == f_polynomials.len(),
            f_evals.len() == self.public_keys.len(),
            gammas.len() == self.public_keys.len(),
            forall|j: int|
                0 <= j < f_polynomials.len() ==> (#[trigger] f_polynomials[j]).coefficients.len()
                    == r.coefficients.len(),
        ensures
            is_proof(
                final(c_buf)@,
                z,
                r@,
                gammas@,
                f_polynomials@,
                f_evals@,
                x_pows@,
                self.g1@,
                self.g2@,
                old(hasher)@,
            ),
            z.coefficients.len() == r.coefficients.len(),
            final(hasher)@ == Seq::<u8>::empty(),
            final(buf)@ == zeroed(),
    {
        let mut r = r;
        let ghost blind = r@;
        let n = self.public_keys.len();
        let r_evals = r.evaluate_range_precomp(x_pows, 1, n);
        let mut l_hasher = Transcript::new();
        let mut l_buf = [0u8; 64];
        let mut commitments: Vec<CompressedRistretto> = Vec::new();
        let mut i: usize = 0;
        while i < n
            invariant
                i <= n,
                n == self.public_keys.len(),
                n <= x_pows.len(),
                self.wf(),
                f_evals.len() == n,
                gammas.len() == n,
                r_evals.len() == n,
                blind == r@,
                l_hasher@ == Seq::<u8>::empty(),
                all_canonical(r_evals@),
                forall|q: int|
                    1 <= q <= n ==> (#[trigger] r_evals[q - 1])@ == dot(
                        blind,
                        scalar_values(x_pows[q - 1]@),
                    ) % order(),
                commitments.len() == i,
                forall|q: int|
                    0 <= q < i ==> (#[trigger] commitments[q])@ == hashed_commitment(
                        f_evals[q]@,
                        scalar_of(dot(blind, scalar_values(x_pows[q]@))),
                        gammas[q]@,
                        self.g1@,
                        self.g2@,
                    ),
            decreases n - i,
        {
            proof {
                assert(r_evals[i as int] == r_evals[(i + 1) - 1]);
                assert(r_evals@[i as int].wf());
                lemma_scalar_of(r_evals[i as int], dot(blind, scalar_values(x_pows[i as int]@)));
            }
            let c = hashed_commit(
                &mut l_hasher,
                &mut l_buf,
                f_evals[i].as_slice(),
                &r_evals[i],
                &gammas[i],
                &self.g1,
                &self.g2,
            );
            commitments.push(c.compress());
            i += 1;
        }
        *c_buf = commitments;
        let d_vals = challenge_powers_from_points(hasher, buf, c_buf.as_slice(), k);
        r.compute_z(f_polynomials.as_slice(), d_vals.as_slice());
        r
    }

    /// The public key of the first party.
    pub fn get_pk0(&self) -> (r: &RistrettoPoint)
        requires
            self.public_keys.len() >= 1,
        ensures
            *r == self.public_keys[0],
    {
        &self.public_keys[0]
    }

    /// The secret that the dealer holds.
    pub fn publish_f0(&self) -> (r: Scalar)
        requires
            self.secret is Some,
        ensures
            Some(r) == self.secret,
    {
        self.secret.unwrap()
    }
}

} // verus!
