//! The dealer of the protocol with Pedersen commitments and a second blind.

use crate::error::Error;
use crate::field::{lemma_small_is_reduced, order};
use crate::polynomial::{common_len, eval_upto, Polynomial};
use crate::random::random_scalars;
use crate::ristretto::{ristretto_add, ristretto_mul, CompressedRistretto, RistrettoPoint};
use crate::scalar::{all_canonical, Scalar};
use crate::transcript::{zeroed, Transcript};
use crate::utils::{
    batch_decompress_ristretto_points, challenge, compute_d_from_point_commitments,
    concat_encodings, decoded, first_invalid,
};
use rand::{CryptoRng, RngCore};
use vstd::prelude::*;

verus! {

/// The commitment to a share, a blinding value and a second blind:
/// `f * g1 + r * g2 + gamma * g3`.
pub open spec fn triple_commitment(
    f: int,
    r: int,
    gamma: int,
    g1: Seq<u8>,
    g2: Seq<u8>,
    g3: Seq<u8>,
) -> Seq<u8> {
    ristretto_add(
        ristretto_add(ristretto_mul(f % order(), g1), ristretto_mul(r % order(), g2)),
        ristretto_mul(gamma % order(), g3),
    )
}

/// What a dealing with the share polynomial `f`, the blinding polynomial `r`
/// and the second blinds `gammas` gives for `n` parties: the shares, the
/// commitments, and `z = d * f + r` for the challenge `d` that the
/// commitments give to a transcript that had absorbed `before`.
pub open spec fn is_dealing(
    shares: Seq<Scalar>,
    c: Seq<CompressedRistretto>,
    z: Polynomial,
    f: Seq<int>,
    r: Seq<int>,
    gammas: Seq<Scalar>,
    g1: Seq<u8>,
    g2: Seq<u8>,
    g3: Seq<u8>,
    n: nat,
    before: Seq<u8>,
) -> bool {
    let d = challenge(before + concat_encodings(c));
    &&& shares.len() == n
    &&& c.len() == n
    &&& all_canonical(shares)
    &&& forall|i: int|
        0 <= i < n ==> (#[trigger] shares[i])@ == eval_upto(f, i + 1, common_len(f, r)) % order()
    &&& forall|i: int|
        0 <= i < n ==> (#[trigger] c[i])@ == triple_commitment(
            shares[i]@,
            eval_upto(r, i + 1, common_len(f, r)),
            gammas[i]@,
            g1,
            g2,
            g3,
        )
    &&& z@.len() == f.len()
    &&& forall|j: int|
        0 <= j < common_len(f, r) ==> (#[trigger] z.coefficients[j]).wf() && z@[j] == (f[j] * d
            + r[j]) % order()
}

/// The dealer of one sharing session.
#[derive(Debug)]
pub struct Dealer {
    pub t: usize,
    pub g1: RistrettoPoint,
    pub g2: RistrettoPoint,
    pub g3: RistrettoPoint,
    pub public_keys: Vec<RistrettoPoint>,
    pub secret: Option<Scalar>,
}

impl Dealer {
    /// The generators are group elements.
    pub open spec fn wf(&self) -> bool {
        self.g1.wf() && self.g2.wf() && self.g3.wf()
    }

    /// A dealer for `n` parties with threshold `t`; fails where there are
    /// not `n` public keys, or where one of them is no group element.
    pub fn new(
        g1: RistrettoPoint,
        g2: RistrettoPoint,
        g3: RistrettoPoint,
        n: usize,
        t: usize,
        public_keys: &[CompressedRistretto],
    ) -> (r: Result<Self, Error>)
        ensures
            public_keys.len() != n ==> r == Err::<Self, Error>(
                Error::CountMismatch(n, "parties", public_keys.len(), "public keys"),
            ),
            public_keys.len() == n && first_invalid(public_keys@) < n ==> r == Err::<Self, Error>(
                Error::PointDecompressionError(public_keys[first_invalid(public_keys@)].bytes),
            ),
            public_keys.len() == n && first_invalid(public_keys@) == n ==> r is Ok,
            r matches Ok(d) ==> d.t == t && d.g1 == g1 && d.g2 == g2 && d.g3 == g3 && d.secret
                is None && decoded(public_keys@, d.public_keys@),
    {
        if public_keys.len() != n {
            return Err(Error::CountMismatch(n, "parties", public_keys.len(), "public keys"));
        }
        match batch_decompress_ristretto_points(public_keys) {
            Ok(pks) => Ok(Dealer { t, public_keys: pks, secret: None, g1, g2, g3 }),
            Err(x) => Err(x),
        }
    }

    pub fn t(&self) -> (r: usize)
        ensures
            r == self.t,
    {
        self.t
    }

    /// Shares, second blinds and proof for the secret, which the dealer
    /// keeps. Fails where the challenge turns `g2` into `g1`.
    pub fn deal_secret<R: CryptoRng + RngCore>(
        &mut self,
        rng: &mut R,
        hasher: &mut Transcript,
        buf: &mut [u8; 64],
        secret: &Scalar,
    ) -> (r: Result<((Vec<Scalar>, Vec<Scalar>), (Vec<CompressedRistretto>, Polynomial)), Error>)
        requires
            old(self).wf(),
            old(self).t < usize::MAX,
            old(self).public_keys.len() < usize::MAX,
        ensures
            final(self).t == old(self).t,
            final(self).g1 == old(self).g1,
            final(self).g2 == old(self).g2,
            final(self).g3 == old(self).g3,
            final(self).public_keys == old(self).public_keys,
            final(self).secret == Some(*secret),
            final(hasher)@ == Seq::<u8>::empty(),
            final(buf)@ == zeroed(),
            r matches Err(e) ==> e == Error::DegenerateChallenge,
            r matches Ok(dealt) ==> exists|f: Polynomial, blind: Polynomial|
                {
                    &&& f.coefficients.len() == old(self).t + 1
                    &&& blind.coefficients.len() == old(self).t + 1
                    &&& f.coefficients[0] == *secret
                    &&& #[trigger] is_dealing(
                        dealt.0.0@,
                        dealt.1.0@,
                        dealt.1.1,
                        f@,
                        blind@,
                        dealt.0.1@,
                        old(self).g1@,
                        old(self).g2@,
                        old(self).g3@,
                        old(self).public_keys@.len(),
                        old(hasher)@,
                    )
                },
    {
        let (f, r) = Polynomial::sample_two_set_f0(self.t, secret, rng);
        self.secret = Some(*secret);
        let g = random_scalars(rng, self.public_keys.len());
        let ghost before = hasher@;
        match self.deal_with(&f, &r, g, hasher, buf) {
            Ok(dealt) => {
                assert(is_dealing(
                    dealt.0.0@,
                    dealt.1.0@,
                    dealt.1.1,
                    f@,
                    r@,
                    dealt.0.1@,
                    self.g1@,
                    self.g2@,
                    self.g3@,
                    self.public_keys@.len(),
                    before,
                ));
                return Ok(dealt);
            },
            Err(e) => {
                return Err(e);
            },
        }
    }

    /// The dealing for a given share polynomial, blinding polynomial and
    /// second blinds. Fails where the challenge `d` turns `g2` into `g1`,
    /// that is where `g1 == d * g2`.
    pub fn deal_with(
        &self,
        f: &Polynomial,
        r: &Polynomial,
        gammas: Vec<Scalar>,
        hasher: &mut Transcript,
        buf: &mut [u8; 64],
    ) -> (res: Result<
        ((Vec<Scalar>, Vec<Scalar>), (Vec<CompressedRistretto>, Polynomial)),
        Error,
    >)
        requires
            self.wf(),
            self.public_keys.len() < usize::MAX,
            gammas.len() == self.public_keys.len(),
        ensures
            final(hasher)@ == Seq::<u8>::empty(),
            final(buf)@ == zeroed(),
            res matches Err(e) ==> e == Error::DegenerateChallenge,
            res matches Ok(dealt) ==> dealt.0.1@ == gammas@ && is_dealing(
                dealt.0.0@,
                dealt.1.0@,
                dealt.1.1,
                f@,
                r@,
                gammas@,
                self.g1@,
                self.g2@,
                self.g3@,
                self.public_keys@.len(),
                old(hasher)@,
            ),
            res is Err <==> exists|c: Seq<CompressedRistretto>|
                {
                    &&& c.len() == self.public_keys@.len()
                    &&& forall|i: int|
                        0 <= i < c.len() ==> (#[trigger] c[i])@ == triple_commitment(
                            eval_upto(f@, i + 1, common_len(f@, r@)) % order(),
                            eval_upto(r@, i + 1, common_len(f@, r@)),
                            gammas[i]@,
                            self.g1@,
                            self.g2@,
                            self.g3@,
                        )
                    &&& self.g1@ == ristretto_mul(
                        challenge(old(hasher)@ + concat_encodings(c)),
                        self.g2@,
                    )
                },
    {
        let n = self.public_keys.len();
        let (f_evals, r_evals) = f.evaluate_two_range(r, 1, n);
        let mut c_vals: Vec<CompressedRistretto> = Vec::new();
        let mut i: usize = 0;
        while i < n
            invariant
                i <= n,
                self.wf(),
                f_evals.len() == n,
                r_evals.len() == n,
                gammas.len() == n,
                all_canonical(r_evals@),
                all_canonical(f_evals@),
                forall|q: int|
                    1 <= q <= n ==> (#[trigger] r_evals[q - 1])@ == eval_upto(
                        r@,
                        q,
                        common_len(f@, r@),
                    ) % order(),
                forall|q: int|
                    1 <= q <= n ==> (#[trigger] f_evals[q - 1])@ == eval_upto(
                        f@,
                        q,
                        common_len(f@, r@),
                    ) % order(),
                c_vals.len() == i,
                forall|q: int|
                    0 <= q < i ==> (#[trigger] c_vals[q])@ == triple_commitment(
                        f_evals[q]@,
                        eval_upto(r@, q + 1, common_len(f@, r@)),
                        gammas[q]@,
                        self.g1@,
                        self.g2@,
                        self.g3@,
                    ),
            decreases n - i,
        {
            proof {
                assert(r_evals[i as int] == r_evals[(i + 1) - 1]);
                assert(f_evals[i as int] == f_evals[(i + 1) - 1]);
                assert(r_evals@[i as int].wf());
                lemma_small_is_reduced(r_evals[i as int]@);
                crate::field::lemma_reduced(eval_upto(r@, i + 1, common_len(f@, r@)));
            }
            let c = self.g1.mul(&f_evals[i]).add(&self.g2.mul(&r_evals[i])).add(
                &self.g3.mul(&gammas[i]),
            );
            c_vals.push(c.compress());
            i += 1;
        }
        let d = compute_d_from_point_commitments(hasher, buf, c_vals.as_slice());
        proof {
            lemma_small_is_reduced(d@);
            assert forall|i: int| 0 <= i < n implies (#[trigger] f_evals[i])@ == eval_upto(
                f@,
                i + 1,
                common_len(f@, r@),
            ) % order() by {
                assert(f_evals[i] == f_evals[(i + 1) - 1]);
            }
            assert forall|i: int| 0 <= i < n implies (#[trigger] c_vals[i])@ == triple_commitment(
                eval_upto(f@, i + 1, common_len(f@, r@)) % order(),
                eval_upto(r@, i + 1, common_len(f@, r@)),
                gammas[i]@,
                self.g1@,
                self.g2@,
                self.g3@,
            ) by {
                assert(f_evals[i] == f_evals[(i + 1) - 1]);
            }
        }
        if self.g1.equals(&self.g2.mul(&d)) {
            proof {
                let c = c_vals@;
                assert(c.len() == self.public_keys@.len() && (forall|i: int|
                    0 <= i < c.len() ==> (#[trigger] c[i])@ == triple_commitment(
                        eval_upto(f@, i + 1, common_len(f@, r@)) % order(),
                        eval_upto(r@, i + 1, common_len(f@, r@)),
                        gammas[i]@,
                        self.g1@,
                        self.g2@,
                        self.g3@,
                    )) && self.g1@ == ristretto_mul(
                    challenge(old(hasher)@ + concat_encodings(c)),
                    self.g2@,
                ));
            }
            Err(Error::DegenerateChallenge)
        } else {
            let mut z = f.clone();
            let ghost copied = z@;
            assert(copied =~= f@);
            z.mul_sum(&d, r);
            proof {
                assert(z@.len() == f@.len());
                assert forall|j: int| 0 <= j < common_len(f@, r@) implies (
                #[trigger] z.coefficients[j]).wf() && z@[j] == (f@[j] * d@ + r@[j]) % order() by {
                    assert(z@[j] == (copied[j] * d@ + r@[j]) % order());
                }
                assert forall|c: Seq<CompressedRistretto>|
                    c.len() == self.public_keys@.len() && (forall|i: int|
                        0 <= i < c.len() ==> (#[trigger] c[i])@ == triple_commitment(
                            eval_upto(f@, i + 1, common_len(f@, r@)) % order(),
                            eval_upto(r@, i + 1, common_len(f@, r@)),
                            gammas[i]@,
                            self.g1@,
                            self.g2@,
                            self.g3@,
                        )) implies self.g1@ != ristretto_mul(
                    challenge(old(hasher)@ + concat_encodings(c)),
                    self.g2@,
                ) by {
                    lemma_same_encodings(c, c_vals@);
                }
            }
            Ok(((f_evals, gammas), (c_vals, z)))
        }
    }

    /// The public key of the first party.
    pub fn get_pk0(&self) -> (r: &RistrettoPoint)
        requires
            self.public_keys.len() >= 1,
        ensures
            *r == self.public_keys[0],
    {
        &self.public_keys[0]
    }

    /// The secret that the dealer holds.
    pub fn publish_f0(&self) -> (r: Scalar)
        requires
            self.secret is Some,
        ensures
            Some(r) == self.secret,
    {
        self.secret.unwrap()
    }
}

/// Lists of encodings that agree entry by entry give the same bytes.
pub proof fn lemma_same_encodings(a: Seq<CompressedRistretto>, b: Seq<CompressedRistretto>)
    requires
        a.len() == b.len(),
        forall|i: int| 0 <= i < a.len() ==> (#[trigger] a[i])@ == b[i]@,
    ensures
        concat_encodings(a) == concat_encodings(b),
    decreases a.len(),
{
    if a.len() > 0 {
        lemma_same_encodings(a.drop_last(), b.drop_last());
        assert(a.last()@ == b.last()@);
    }
}

} // verus!
