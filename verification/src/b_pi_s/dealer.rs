//! The dealer of the batched publicly verifiable protocol.

use crate::commit::{absorb_points, challenge_powers, lemma_power_list_values};
use crate::error::Error;
use crate::field::{dot, order};
use crate::polynomial::{is_fused, poly_views, Polynomial};
use crate::ristretto::{all_valid, ristretto_mul, CompressedRistretto, RistrettoPoint};
use crate::scalar::{all_canonical, scalar_values, Scalar};
use crate::secret_sharing::{
    embeds, encrypt_each, encrypted, evaluated, generate_encrypted_shares_batched,
};
use crate::transcript::{zeroed, Transcript};
use crate::utils::{
    batch_decompress_ristretto_points, challenge, compute_d_from_point_commitments,
    compute_d_powers, concat_encodings, decoded, first_invalid,
};
use rand::{CryptoRng, RngCore};
use vstd::prelude::*;

verus! {

/// The encodings of all the rows, one row after the other.
pub open spec fn concat_rows(rows: Seq<Vec<CompressedRistretto>>) -> Seq<u8>
    decreases rows.len(),
{
    if rows.len() == 0 {
        Seq::empty()
    } else {
        concat_rows(rows.drop_last()) + concat_encodings(rows.last()@)
    }
}

/// The encodings, for the first `m` parties, of the party's public key
/// multiplied by the value that its row of `x_pows` gives to the polynomial
/// `r`.
pub open spec fn blinding_bytes(
    r: Seq<int>,
    x_pows: Seq<Vec<Scalar>>,
    public_keys: Seq<RistrettoPoint>,
    m: nat,
) -> Seq<u8>
    decreases m,
{
    if m == 0 {
        Seq::empty()
    } else {
        blinding_bytes(r, x_pows, public_keys, (m - 1) as nat) + ristretto_mul(
            dot(r, scalar_values(x_pows[m - 1]@)) % order(),
            public_keys[m - 1]@,
        )
    }
}

/// `(d, z)` is the proof for the encrypted shares `enc` of the polynomials
/// `fs` that the blinding polynomial `r` gives, from a transcript that had
/// absorbed `before`: `d` is the challenge for the encrypted shares and the
/// encrypted values of `r`, and `z = r + sum_j d^j * fs[j]`.
pub open spec fn is_proof(
    d: Scalar,
    z: Polynomial,
    r: Seq<int>,
    fs: Seq<Polynomial>,
    enc: Seq<Vec<CompressedRistretto>>,
    x_pows: Seq<Vec<Scalar>>,
    public_keys: Seq<RistrettoPoint>,
    before: Seq<u8>,
) -> bool {
    &&& d.wf()
    &&& d@ == challenge(
        before + concat_rows(enc) + blinding_bytes(r, x_pows, public_keys, public_keys.len()),
    )
    &&& all_canonical(z.coefficients@)
    &&& is_fused(z@, r, poly_views(fs), challenge_powers(d@, fs.len()))
}

/// Absorbs the encodings of all the rows, one row after the other.
pub fn absorb_rows(hasher: &mut Transcript, rows: &Vec<Vec<CompressedRistretto>>)
    ensures
        final(hasher)@ == old(hasher)@ + concat_rows(rows@),
{
    let mut i: usize = 0;
    while i < rows.len()
        invariant
            i <= rows.len(),
            hasher@ == old(hasher)@ + concat_rows(rows@.subrange(0, i as int)),
        decreases rows.len() - i,
    {
        absorb_points(hasher, rows[i].as_slice());
        proof {
            let next = rows@.subrange(0, i + 1);
            assert(next.drop_last() =~= rows@.subrange(0, i as int));
            assert(next.last() == rows[i as int]);
            assert(hasher@ =~= old(hasher)@ + concat_rows(next));
        }
        i += 1;
    }
    assert(rows@.subrange(0, i as int) =~= rows@);
}

pub proof fn lemma_blinding_bytes(
    blinded: Seq<CompressedRistretto>,
    r_evals: Seq<Scalar>,
    r: Seq<int>,
    x_pows: Seq<Vec<Scalar>>,
    public_keys: Seq<RistrettoPoint>,
    m: nat,
)
    requires
        m <= blinded.len(),
        m <= r_evals.len(),
        forall|i: int|
            0 <= i < m ==> (#[trigger] blinded[i])@ == ristretto_mul(
                r_evals[i]@ % order(),
                public_keys[i]@,
            ),
        forall|i: int|
            0 <= i < m ==> (#[trigger] r_evals[i])@ == dot(r, scalar_values(x_pows[i]@))
                % order(),
    ensures
        concat_encodings(blinded.subrange(0, m as int)) == blinding_bytes(r, x_pows, public_keys, m),
    decreases m,
{
    let cur = blinded.subrange(0, m as int);
    if m > 0 {
        lemma_blinding_bytes(blinded, r_evals, r, x_pows, public_keys, (m - 1) as nat);
        assert(cur.drop_last() =~= blinded.subrange(0, m - 1));
        assert(cur.last() == blinded[m - 1]);
        crate::field::lemma_reduced(dot(r, scalar_values(x_pows[m - 1]@)));
        assert(r_evals[m - 1]@ == dot(r, scalar_values(x_pows[m - 1]@)) % order());
    }
}

/// The dealer of one sharing session.
#[derive(Debug)]
pub struct Dealer {
    pub t: usize,
    pub public_keys: Vec<RistrettoPoint>,
    pub secrets: Option<Vec<Scalar>>,
}

impl Dealer {
    /// A dealer for `n` parties with threshold `t`; fails where there are
    /// not `n` public keys, or where one of them is no group element.
    pub fn new(n: usize, t: usize, public_keys: &[CompressedRistretto]) -> (r: Result<
        Self,
        Error,
    >)
        ensures
            public_keys.len() != n ==> r == Err::<Self, Error>(
                Error::CountMismatch(n, "parties", public_keys.len(), "public keys"),
            ),
            public_keys.len() == n && first_invalid(public_keys@) < n ==> r == Err::<Self, Error>(
                Error::PointDecompressionError(public_keys[first_invalid(public_keys@)].bytes),
            ),
            public_keys.len() == n && first_invalid(public_keys@) == n ==> r is Ok,
            r matches Ok(d) ==> d.t == t && d.secrets is None && decoded(
                public_keys@,
                d.public_keys@,
            ),
    {
        if public_keys.len() != n {
            return Err(Error::CountMismatch(n, "parties", public_keys.len(), "public keys"));
        }
        match batch_decompress_ristretto_points(public_keys) {
            Ok(pks) => Ok(Dealer { t, public_keys: pks, secrets: None }),
            Err(x) => Err(x),
        }
    }

    pub fn t(&self) -> (r: usize)
        ensures
            r == self.t,
    {
        self.t
    }

    /// The public key of the first party.
    pub fn get_pk0(&self) -> (r: &RistrettoPoint)
        requires
            self.public_keys.len() >= 1,
        ensures
            *r == self.public_keys[0],
    {
        &self.public_keys[0]
    }

    /// The secrets that the dealer holds.
    pub fn publish_f0(&self) -> (r: Vec<Scalar>)
        requires
            self.secrets is Some,
        ensures
            r@ == self.secrets->Some_0@,
    {
        match &self.secrets {
            Some(s) => crate::commit::copy_scalars(s),
            None => Vec::new(),
        }
    }

    /// Encrypted shares and proof for the secrets.
    pub fn deal_secrets<R: CryptoRng + RngCore>(
        &mut self,
        rng: &mut R,
        hasher: &mut Transcript,
        buf: &mut [u8; 64],
        x_pows: &Vec<Vec<Scalar>>,
        secrets: &Vec<Scalar>,
    ) -> (r: (Vec<Vec<CompressedRistretto>>, (Scalar, Polynomial)))
        requires
            old(self).t < usize::MAX,
            old(self).public_keys.len() <= x_pows.len(),
            all_valid(old(self).public_keys@),
        ensures
            *final(self) == *old(self),
            exists|fs: Seq<Polynomial>, f_evals: Seq<Vec<Scalar>>, blind: Seq<int>|
                {
                    &&& embeds(fs, secrets@, old(self).t as nat)
                    &&& #[trigger] evaluated(f_evals, fs, x_pows@, old(self).public_keys@.len())
                    &&& encrypted(r.0@, f_evals, old(self).public_keys@)
                    &&& blind.len() == old(self).t + 1
                    &&& #[trigger] is_proof(
                        r.1.0,
                        r.1.1,
                        blind,
                        fs,
                        r.0@,
                        x_pows@,
                        old(self).public_keys@,
                        old(hasher)@,
                    )
                },
            r.1.1.coefficients.len() == old(self).t + 1,
            final(hasher)@ == Seq::<u8>::empty(),
            final(buf)@ == zeroed(),
    {
        let k = secrets.len();
        let ghost before = hasher@;
        let (f_polynomials, f_evals) = generate_encrypted_shares_batched(
            self.t,
            x_pows,
            self.public_keys.as_slice(),
            secrets,
        );
        let ghost plain = choose|plain: Seq<Vec<Scalar>>|
            #[trigger] evaluated(plain, f_polynomials@, x_pows@, self.public_keys@.len())
                && encrypted(f_evals@, plain, self.public_keys@);
        let (d, z) = self.generate_proof(rng, hasher, buf, x_pows, k, &f_polynomials, &f_evals);
        let ghost blind = choose|blind: Seq<int>|
            blind.len() == self.t + 1 && #[trigger] is_proof(
                d,
                z,
                blind,
                f_polynomials@,
                f_evals@,
                x_pows@,
                self.public_keys@,
                before,
            );
        let r = (f_evals, (d, z));
        assert(is_proof(
            r.1.0,
            r.1.1,
            blind,
            f_polynomials@,
            r.0@,
            x_pows@,
            self.public_keys@,
            before,
        ));
        assert(evaluated(plain, f_polynomials@, x_pows@, self.public_keys@.len()));
        assert(encrypted(r.0@, plain, self.public_keys@));
        r
    }

    /// The proof for given encrypted shares, with a blinding polynomial
    /// drawn from `rng`.
    pub fn generate_proof<R: CryptoRng + RngCore>(
        &self,
        rng: &mut R,
        hasher: &mut Transcript,
        buf: &mut [u8; 64],
        x_pows: &Vec<Vec<Scalar>>,
        k: usize,
        f_polynomials: &Vec<Polynomial>,
        f_evals: &Vec<Vec<CompressedRistretto>>,
    ) -> (r: (Scalar, Polynomial))
        requires
            self.t < usize::MAX,
            self.public_keys.len() <= x_pows.len(),
            all_valid(self.public_keys@),
            k == f_polynomials.len(),
            forall|j: int|
                0 <= j < f_polynomials.len() ==> (#[trigger] f_polynomials[j]).coefficients.len()
                    == self.t + 1,
        ensures
            exists|blind: Seq<int>|
                blind.len() == self.t + 1 && #[trigger] is_proof(
                    r.0,
                    r.1,
                    blind,
                    f_polynomials@,
                    f_evals@,
                    x_pows@,
                    self.public_keys@,
                    old(hasher)@,
                ),
            r.1.coefficients.len() == self.t + 1,
            final(hasher)@ == Seq::<u8>::empty(),
            final(buf)@ == zeroed(),
    {
        let blinding = Polynomial::sample(self.t, rng);
        let ghost blind = blinding@;
        let r = self.generate_proof_with(blinding, hasher, buf, x_pows, k, f_polynomials, f_evals);
        assert(is_proof(
            r.0,
            r.1,
            blind,
            f_polynomials@,
            f_evals@,
            x_pows@,
            self.public_keys@,
            old(hasher)@,
        ));
        r
    }

    /// The proof for given encrypted shares and a given blinding polynomial.
    pub fn generate_proof_with(
        &self,
        blinding: Polynomial,
        hasher: &mut Transcript,
        buf: &mut [u8; 64],
        x_pows: &Vec<Vec<Scalar>>,
        k: usize,
        f_polynomials: &Vec<Polynomial>,
        f_evals: &Vec<Vec<CompressedRistretto>>,
    ) -> (r: (Scalar, Polynomial))
        requires
            self.public_keys.len() <= x_pows.len(),
            all_valid(self.public_keys@),
            k == f_polynomials.len(),
            forall|j: int|
                0 <= j < f_polynomials.len() ==> (#[trigger] f_polynomials[j]).coefficients.len()
                    == blinding.coefficients.len(),
        ensures
            is_proof(
                r.0,
                r.1,
                blinding@,
                f_polynomials@,
                f_evals@,
                x_pows@,
                self.public_keys@,
                old(hasher)@,
            ),
            r.1.coefficients.len() == blinding.coefficients.len(),
            final(hasher)@ == Seq::<u8>::empty(),
            final(buf)@ == zeroed(),
    {
        let mut z = blinding;
        let ghost blind = z@;
        let n = self.public_keys.len();
        let r_evals = z.evaluate_range_precomp(x_pows, 1, n);
        let blinded = encrypt_each(&r_evals, self.public_keys.as_slice());
        proof {
            assert forall|i: int| 0 <= i < n implies (#[trigger] r_evals[i])@ == dot(
                blind,
                scalar_values(x_pows[i]@),
            ) % order() by {
                assert(r_evals[i] == r_evals[(i + 1) - 1]);
            }
            lemma_blinding_bytes(blinded@, r_evals@, blind, x_pows@, self.public_keys@, n as nat);
            assert(blinded@.subrange(0, n as int) =~= blinded@);
        }
        absorb_rows(hasher, f_evals);
        let ghost mid = hasher@;
        let d = compute_d_from_point_commitments(hasher, buf, blinded.as_slice());
        proof {
            assert(mid + concat_encodings(blinded@) =~= old(hasher)@ + concat_rows(f_evals@)
                + blinding_bytes(blind, x_pows@, self.public_keys@, n as nat));
        }
        let d_vals = if k >= 1 {
            let powers = compute_d_powers(k, &d);
            proof {
                lemma_power_list_values(powers@, d, k as nat);
            }
            powers
        } else {
            let none: Vec<Scalar> = Vec::new();
            assert(scalar_values(none@) =~= challenge_powers(d@, 0));
            none
        };
        z.compute_z(f_polynomials.as_slice(), d_vals.as_slice());
        (d, z)
    }
}

} // verus!
