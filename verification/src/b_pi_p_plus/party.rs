//! A party of the batched protocol with hashed shares in a Pedersen commitment.

use crate::b_pi_p_plus::dealer::{hashed_commit, hashed_commitment};
use crate::commit::{
    blinding_of, blinding_value, challenge_powers, challenge_powers_from_points,
    check_parameters, copy_scalars, lemma_passing_indices, passing_indices, valid_parameters,
};
use crate::error::{Error, ProofDefect};
use crate::field::{congruent, dot, lemma_reduced, lemma_small_is_reduced, order};
use crate::polynomial::Polynomial;
use crate::random::random_scalar;
use crate::ristretto::{copy_encodings, ristretto_mul, CompressedRistretto, RistrettoPoint};
use crate::scalar::{lemma_scalar_of, scalar_of, scalar_values, Scalar};
use crate::transcript::{zeroed, Transcript};
use crate::utils::{
    batch_decompress_ristretto_points, challenge, concat_encodings, decoded, first_invalid,
};
use rand::{CryptoRng, RngCore};
use vstd::prelude::*;

verus! {

/// Whether the commitment of the party with the given index, counted from
/// one, is the one to `share`, to the blinding value that the proof leaves
/// for it and to the second blind `gamma`, with the row of the index in
/// `x_pows`, the challenge from a transcript that had absorbed `before`, and
/// its first `k` powers.
pub open spec fn share_accepted(
    compressed: Seq<CompressedRistretto>,
    z: Seq<int>,
    x_pows: Seq<Vec<Scalar>>,
    g1: Seq<u8>,
    g2: Seq<u8>,
    share: Seq<Scalar>,
    gamma: Scalar,
    index: int,
    before: Seq<u8>,
    k: nat,
) -> bool {
    compressed[index - 1]@ == hashed_commitment(
        share,
        scalar_of(
            blinding_value(
                dot(z, scalar_values(x_pows[index - 1]@)),
                share,
                challenge(before + concat_encodings(compressed)),
                k,
            ),
        ),
        gamma@,
        g1,
        g2,
    )
}

/// The positions below `m` of the shares that the proof accepts, in rising
/// order.
pub open spec fn accepted_shares(
    compressed: Seq<CompressedRistretto>,
    z: Seq<int>,
    x_pows: Seq<Vec<Scalar>>,
    g1: Seq<u8>,
    g2: Seq<u8>,
    shares: Seq<(Vec<Scalar>, Scalar)>,
    before: Seq<u8>,
    m: nat,
) -> Seq<usize> {
    passing_indices(
        m,
        |i: int|
            share_accepted(
                compressed,
                z,
                x_pows,
                g1,
                g2,
                shares[i].0@,
                shares[i].1,
                i + 1,
                before,
                shares[0].0@.len(),
            ),
    )
}

/// The shares held are those given, each with its second blind.
pub open spec fn zipped(held: Seq<(Vec<Scalar>, Scalar)>, shares: Seq<Vec<Scalar>>, gammas: Seq<Scalar>) -> bool {
    &&& held.len() == shares.len()
    &&& held.len() == gammas.len()
    &&& forall|i: int|
        0 <= i < held.len() ==> (#[trigger] held[i]).0@ == shares[i]@ && held[i].1 == gammas[i]
}

/// A party, with what it has been given so far.
#[derive(Debug)]
pub struct Party {
    pub g1: RistrettoPoint,
    pub g2: RistrettoPoint,
    pub private_key: Scalar,
    pub public_key: (CompressedRistretto, RistrettoPoint),
    pub index: usize,
    pub n: usize,
    pub t: usize,
    pub public_keys: Option<Vec<RistrettoPoint>>,
    pub dealer_proof: Option<(Vec<CompressedRistretto>, Vec<RistrettoPoint>, Polynomial)>,
    pub validated_shares: Vec<usize>,
    pub share: Option<(Vec<Scalar>, Scalar)>,
    pub d: Option<Scalar>,
    pub shares: Option<Vec<(Vec<Scalar>, Scalar)>>,
    pub qualified_set: Option<Vec<(usize, Vec<Scalar>)>>,
}

impl Party {
    /// The parameters are an honest-majority set, the points held are group
    /// elements, and what was ingested has the sizes that the parameters ask
    /// for.
    pub open spec fn wf(&self) -> bool {
        &&& valid_parameters(self.n, self.t, self.index)
        &&& self.public_key.1.wf()
        &&& self.public_key.0@ == self.public_key.1@
        &&& self.g1.wf()
        &&& self.g2.wf()
        &&& (self.dealer_proof matches Some(proof) ==> proof.0.len() == self.n && decoded(
            proof.0@,
            proof.1@,
        ) && proof.2.coefficients.len() == self.t + 1)
        &&& (self.shares matches Some(s) ==> s.len() == self.n)
        &&& forall|i: int|
            0 <= i < self.validated_shares.len() ==> self.validated_shares[i] < self.n
    }

    /// The two parties have the same keys, parameters and index.
    pub open spec fn same_identity(&self, other: &Party) -> bool {
        &&& self.private_key == other.private_key
        &&& self.public_key == other.public_key
        &&& self.index == other.index
        &&& self.n == other.n
        &&& self.t == other.t
        &&& self.g1 == other.g1
        &&& self.g2 == other.g2
    }

    /// The party is as it is made: nothing ingested, and the public key is
    /// the generator multiplied by the private key.
    pub open spec fn is_fresh(
        &self,
        generator: &RistrettoPoint,
        g1: RistrettoPoint,
        g2: RistrettoPoint,
        private_key: Scalar,
        n: usize,
        t: usize,
        index: usize,
    ) -> bool {
        &&& self.wf()
        &&& self.private_key == private_key
        &&& self.public_key.1@ == ristretto_mul(private_key@ % order(), generator@)
        &&& self.index == index
        &&& self.n == n
        &&& self.t == t
        &&& self.g1 == g1
        &&& self.g2 == g2
        &&& self.public_keys is None
        &&& self.dealer_proof is None
        &&& self.validated_shares@ == Seq::<usize>::empty()
        &&& self.share is None
        &&& self.d is None
        &&& self.shares is None
        &&& self.qualified_set is None
    }

    /// A party with a freshly drawn private key; fails where `(n, t, index)`
    /// is no honest-majority parameter set.
    pub fn new<R: CryptoRng + RngCore>(
        generator: &RistrettoPoint,
        g1: RistrettoPoint,
        g2: RistrettoPoint,
        rng: &mut R,
        n: usize,
        t: usize,
        index: usize,
    ) -> (r: Result<Self, Error>)
        requires
            generator.wf(),
            g1.wf(),
            g2.wf(),
        ensures
            !valid_parameters(n, t, index) ==> r == Err::<Self, Error>(
                Error::InvalidParameterSet(n, t, index),
            ),
            valid_parameters(n, t, index) ==> r is Ok,
            r matches Ok(p) ==> p.is_fresh(generator, g1, g2, p.private_key, n, t, index)
                && p.private_key.wf(),
    {
        let private_key = random_scalar(rng);
        Party::from_private_key(generator, g1, g2, private_key, n, t, index)
    }

    /// A party with the given private key; fails where `(n, t, index)` is no
    /// honest-majority parameter set.
    pub fn from_private_key(
        generator: &RistrettoPoint,
        g1: RistrettoPoint,
        g2: RistrettoPoint,
        private_key: Scalar,
        n: usize,
        t: usize,
        index: usize,
    ) -> (r: Result<Self, Error>)
        requires
            generator.wf(),
            g1.wf(),
            g2.wf(),
        ensures
            !valid_parameters(n, t, index) ==> r == Err::<Self, Error>(
                Error::InvalidParameterSet(n, t, index),
            ),
            valid_parameters(n, t, index) ==> r is Ok,
            r matches Ok(p) ==> p.is_fresh(generator, g1, g2, private_key, n, t, index),
    {
        let public_key = generator.mul(&private_key);
        if check_parameters(n, t, index) {
            Ok(
                Party {
                    g1,
                    g2,
                    private_key,
                    public_key: (public_key.compress(), public_key),
                    index,
                    n,
                    t,
                    public_keys: None,
                    dealer_proof: None,
                    validated_shares: Vec::new(),
                    share: None,
                    d: None,
                    shares: None,
                    qualified_set: None,
                },
            )
        } else {
            Err(Error::InvalidParameterSet(n, t, index))
        }
    }

    /// Takes the party's own share and second blind.
    pub fn ingest_share(&mut self, share: (&Vec<Scalar>, &Scalar))
        ensures
            final(self).share matches Some(s) && s.0@ == share.0@ && s.1 == *share.1,
            final(self).same_identity(old(self)),
            final(self).public_keys == old(self).public_keys,
            final(self).dealer_proof == old(self).dealer_proof,
            final(self).validated_shares == old(self).validated_shares,
            final(self).d == old(self).d,
            final(self).shares == old(self).shares,
            final(self).qualified_set == old(self).qualified_set,
            old(self).wf() ==> final(self).wf(),
    {
        self.share = Some((copy_scalars(share.0), *share.1));
    }

    /// Takes the dealer's proof; fails where the polynomial has not `t + 1`
    /// coefficients, then where there are not `n` commitments, and then where
    /// a commitment is no group element.
    pub fn ingest_dealer_proof(&mut self, proof: (&Vec<CompressedRistretto>, &Polynomial)) -> (r:
        Result<(), Error>)
        requires
            old(self).wf(),
        ensures
            final(self).wf(),
            final(self).same_identity(old(self)),
            final(self).public_keys == old(self).public_keys,
            final(self).validated_shares == old(self).validated_shares,
            final(self).share == old(self).share,
            final(self).d == old(self).d,
            final(self).shares == old(self).shares,
            final(self).qualified_set == old(self).qualified_set,
            proof.1.coefficients.len() != old(self).t + 1 ==> r == Err::<(), Error>(
                Error::InvalidProof(
                    ProofDefect::PolynomialLength {
                        len: proof.1.coefficients.len(),
                        t: old(self).t,
                    },
                ),
            ),
            proof.1.coefficients.len() == old(self).t + 1 && proof.0.len() != old(self).n ==> r
                == Err::<(), Error>(
                Error::InvalidProof(
                    ProofDefect::CommitmentCount { len: proof.0.len(), expected: old(self).n },
                ),
            ),
            proof.1.coefficients.len() == old(self).t + 1 && proof.0.len() == old(self).n
                && first_invalid(proof.0@) < proof.0@.len() ==> r == Err::<(), Error>(
                Error::PointDecompressionError(proof.0[first_invalid(proof.0@)].bytes),
            ),
            proof.1.coefficients.len() == old(self).t + 1 && proof.0.len() == old(self).n
                && first_invalid(proof.0@) == proof.0@.len() ==> r is Ok,
            r is Err ==> final(self).dealer_proof == old(self).dealer_proof,
            r is Ok ==> (final(self).dealer_proof matches Some(held) && held.0@ == proof.0@
                && held.2.coefficients@ == proof.1.coefficients@),
    {
        if proof.1.len() != self.t + 1 {
            Err(
                Error::InvalidProof(ProofDefect::PolynomialLength { len: proof.1.len(), t: self.t }),
            )
        } else if proof.0.len() != self.n {
            Err(
                Error::InvalidProof(
                    ProofDefect::CommitmentCount { len: proof.0.len(), expected: self.n },
                ),
            )
        } else {
            match batch_decompress_ristretto_points(proof.0.as_slice()) {
                Ok(decompressed_c_vals) => {
                    self.dealer_proof = Some(
                        (copy_encodings(proof.0), decompressed_c_vals, proof.1.clone()),
                    );
                    Ok(())
                },
                Err(e) => Err(e),
            }
        }
    }

    /// Checks the party's own share against the proof. Fails where the proof
    /// or the share has not been ingested.
    pub fn verify_share(
        &self,
        hasher: &mut Transcript,
        buf: &mut [u8; 64],
        x_pows: &Vec<Vec<Scalar>>,
    ) -> (r: Result<bool, Error>)
        requires
            self.wf(),
            self.n <= x_pows.len(),
        ensures
            self.dealer_proof is None ==> r == Err::<bool, Error>(
                Error::UninitializedValue("party.dealer_proof"),
            ),
            self.dealer_proof is Some && self.share is None ==> r == Err::<bool, Error>(
                Error::UninitializedValue("party.share"),
            ),
            r is Err ==> final(hasher)@ == old(hasher)@ && final(buf)@ == old(buf)@,
            (self.dealer_proof, self.share) matches (Some(proof), Some(share)) ==> {
                &&& r == Ok::<bool, Error>(
                    share_accepted(
                        proof.0@,
                        proof.2@,
                        x_pows@,
                        self.g1@,
                        self.g2@,
                        share.0@,
                        share.1,
                        self.index as int,
                        old(hasher)@,
                        share.0@.len(),
                    ),
                )
                &&& final(hasher)@ == Seq::<u8>::empty()
                &&& final(buf)@ == zeroed()
            },
    {
        match &self.dealer_proof {
            Some((compressed_cvals, cvals, z)) => match &self.share {
                Some((fi, gi)) => {
                    let k = fi.len();
                    let d_vals = challenge_powers_from_points(
                        hasher,
                        buf,
                        compressed_cvals.as_slice(),
                        k,
                    );
                    let zi = z.evaluate_precomp(x_pows, self.index);
                    let expected_c = cvals[self.index - 1];
                    let r_val = blinding_of(&zi, fi.as_slice(), d_vals.as_slice());
                    proof {
                        lemma_reduced(dot(z@, scalar_values(x_pows[self.index - 1]@)));
                        assert(congruent(
                            dot(z@, scalar_values(x_pows[self.index - 1]@)),
                            zi@,
                        ));
                        let d = challenge(old(hasher)@ + concat_encodings(compressed_cvals@));
                        assert(scalar_values(d_vals@) == challenge_powers(d, k as nat));
                        let v = blinding_value(
                            dot(z@, scalar_values(x_pows[self.index - 1]@)),
                            fi@,
                            d,
                            k as nat,
                        );
                        lemma_small_is_reduced(r_val@);
                        lemma_scalar_of(r_val, v);
                    }
                    let c = hashed_commit(
                        hasher,
                        buf,
                        fi.as_slice(),
                        &r_val,
                        gi,
                        &self.g1,
                        &self.g2,
                    );
                    Ok(expected_c.equals(&c))
                },
                None => Err(Error::UninitializedValue("party.share")),
            },
            None => Err(Error::UninitializedValue("party.dealer_proof")),
        }
    }

    /// Checks all the shares against the proof and records the positions of
    /// those that pass; the result says whether more than `t` did. Fails where
    /// the proof or the shares have not been ingested.
    pub fn verify_shares(
        &mut self,
        hasher: &mut Transcript,
        buf: &mut [u8; 64],
        x_pows: &Vec<Vec<Scalar>>,
    ) -> (r: Result<bool, Error>)
        requires
            old(self).wf(),
            old(self).n <= x_pows.len(),
        ensures
            final(self).wf(),
            final(self).same_identity(old(self)),
            final(self).public_keys == old(self).public_keys,
            final(self).dealer_proof == old(self).dealer_proof,
            final(self).share == old(self).share,
            final(self).d == old(self).d,
            final(self).shares == old(self).shares,
            final(self).qualified_set == old(self).qualified_set,
            old(self).dealer_proof is None ==> r == Err::<bool, Error>(
                Error::UninitializedValue("party.dealer_proof"),
            ),
            old(self).dealer_proof is Some && old(self).shares is None ==> r == Err::<bool, Error>(
                Error::UninitializedValue("party.share"),
            ),
            r is Err ==> final(hasher)@ == old(hasher)@ && final(buf)@ == old(buf)@,
            r is Err ==> final(self).validated_shares == old(self).validated_shares,
            (old(self).dealer_proof, old(self).shares) matches (Some(proof), Some(shares)) ==> {
                &&& final(self).validated_shares@ == accepted_shares(
                    proof.0@,
                    proof.2@,
                    x_pows@,
                    old(self).g1@,
                    old(self).g2@,
                    shares@,
                    old(hasher)@,
                    old(self).n as nat,
                )
                &&& r == Ok::<bool, Error>(final(self).validated_shares@.len() > old(self).t)
                &&& final(hasher)@ == Seq::<u8>::empty()
                &&& final(buf)@ == zeroed()
            },
    {
        let n = self.n;
        let found: Result<Vec<usize>, Error> = match &self.dealer_proof {
            Some((compressed_cvals, cvals, z)) => match &self.shares {
                Some(shares) => {
                    let k = shares[0].0.len();
                    let ghost before = hasher@;
                    let d_vals = challenge_powers_from_points(
                        hasher,
                        buf,
                        compressed_cvals.as_slice(),
                        k,
                    );
                    let z_evals = z.evaluate_range_precomp(x_pows, 1, n);
                    let mut l_hasher = Transcript::new();
                    let mut l_buf = [0u8; 64];
                    let mut validated: Vec<usize> = Vec::new();
                    let mut i: usize = 0;
                    while i < n
                        invariant
                            i <= n,
                            n == self.n,
                            1 <= n,
                            n <= x_pows.len(),
                            self.g1.wf(),
                            self.g2.wf(),
                            k == shares[0].0@.len(),
                            compressed_cvals.len() == n,
                            decoded(compressed_cvals@, cvals@),
                            shares.len() == n,
                            z_evals.len() == n,
                            l_hasher@ == Seq::<u8>::empty(),
                            scalar_values(d_vals@) == challenge_powers(
                                challenge(before + concat_encodings(compressed_cvals@)),
                                k as nat,
                            ),
                            forall|q: int|
                                1 <= q <= n ==> (#[trigger] z_evals[q - 1])@ == dot(
                                    z@,
                                    scalar_values(x_pows[q - 1]@),
                                ) % order(),
                            validated@ == accepted_shares(
                                compressed_cvals@,
                                z@,
                                x_pows@,
                                self.g1@,
                                self.g2@,
                                shares@,
                                before,
                                i as nat,
                            ),
                        decreases n - i,
                    {
                        proof {
                            assert(z_evals[i as int] == z_evals[(i + 1) - 1]);
                            lemma_reduced(dot(z@, scalar_values(x_pows[i as int]@)));
                            assert(congruent(
                                dot(z@, scalar_values(x_pows[i as int]@)),
                                z_evals[i as int]@,
                            ));
                        }
                        let r_val = blinding_of(
                            &z_evals[i],
                            shares[i].0.as_slice(),
                            d_vals.as_slice(),
                        );
                        proof {
                            let d = challenge(before + concat_encodings(compressed_cvals@));
                            let v = blinding_value(
                                dot(z@, scalar_values(x_pows[i as int]@)),
                                shares[i as int].0@,
                                d,
                                k as nat,
                            );
                            lemma_small_is_reduced(r_val@);
                            lemma_scalar_of(r_val, v);
                        }
                        let c = hashed_commit(
                            &mut l_hasher,
                            &mut l_buf,
                            shares[i].0.as_slice(),
                            &r_val,
                            &shares[i].1,
                            &self.g1,
                            &self.g2,
                        );
                        let check_bit = cvals[i].equals(&c);
                        proof {
                            assert(cvals[i as int]@ == compressed_cvals[i as int]@);
                            assert(check_bit == share_accepted(
                                compressed_cvals@,
                                z@,
                                x_pows@,
                                self.g1@,
                                self.g2@,
                                shares[i as int].0@,
                                shares[i as int].1,
                                i + 1,
                                before,
                                k as nat,
                            ));
                        }
                        if check_bit {
                            validated.push(i);
                        }
                        i += 1;
                    }
                    proof {
                        lemma_passing_indices(
                            n as nat,
                            |i: int|
                                share_accepted(
                                    compressed_cvals@,
                                    z@,
                                    x_pows@,
                                    self.g1@,
                                    self.g2@,
                                    shares@[i].0@,
                                    shares@[i].1,
                                    i + 1,
                                    before,
                                    shares@[0].0@.len(),
                                ),
                        );
                    }
                    Ok(validated)
                },
                None => Err(Error::UninitializedValue("party.share")),
            },
            None => Err(Error::UninitializedValue("party.dealer_proof")),
        };
        match found {
            Ok(validated) => {
                self.validated_shares = validated;
                Ok(self.validated_shares.len() > self.t)
            },
            Err(e) => Err(e),
        }
    }

    /// Takes the shares and second blinds of all `n` parties; fails where
    /// there are not `n` of either.
    pub fn ingest_shares(&mut self, shares: (&Vec<Vec<Scalar>>, &Vec<Scalar>)) -> (r: Result<
        (),
        Error,
    >)
        requires
            old(self).wf(),
        ensures
            final(self).wf(),
            final(self).same_identity(old(self)),
            final(self).public_keys == old(self).public_keys,
            final(self).dealer_proof == old(self).dealer_proof,
            final(self).validated_shares == old(self).validated_shares,
            final(self).share == old(self).share,
            final(self).d == old(self).d,
            final(self).qualified_set == old(self).qualified_set,
            !(shares.0.len() == old(self).n && shares.1.len() == old(self).n) ==> r == Err::<
                (),
                Error,
            >(Error::CountMismatch(old(self).n, "parties", shares.0.len(), "ingestable shares"))
                && final(self).shares == old(self).shares,
            shares.0.len() == old(self).n && shares.1.len() == old(self).n ==> r is Ok && (final(self).shares matches Some(held) && zipped(held@, shares.0@, shares.1@)),
    {
        if shares.0.len() == self.n && shares.1.len() == self.n {
            let mut held: Vec<(Vec<Scalar>, Scalar)> = Vec::new();
            let mut i: usize = 0;
            while i < shares.0.len()
                invariant
                    i <= shares.0.len(),
                    shares.0.len() == shares.1.len(),
                    held.len() == i,
                    forall|q: int|
                        0 <= q < i ==> (#[trigger] held[q]).0@ == shares.0[q]@ && held[q].1
                            == shares.1[q],
                decreases shares.0.len() - i,
            {
                held.push((copy_scalars(&shares.0[i]), shares.1[i]));
                i += 1;
            }
            self.shares = Some(held);
            Ok(())
        } else {
            Err(Error::CountMismatch(self.n, "parties", shares.0.len(), "ingestable shares"))
        }
    }
}

/// The `n` parties of a session, each with a freshly drawn private key.
pub fn generate_parties<R: CryptoRng + RngCore>(
    generator: &RistrettoPoint,
    g1: &RistrettoPoint,
    g2: &RistrettoPoint,
    rng: &mut R,
    n: usize,
    t: usize,
) -> (r: Vec<Party>)
    requires
        generator.wf(),
        g1.wf(),
        g2.wf(),
        t < n,
        t == (n - 1) / 2,
    ensures
        r.len() == n,
        forall|i: int|
            0 <= i < n ==> (#[trigger] r[i]).wf() && r[i].index == i + 1 && r[i].n == n && r[i].t
                == t && r[i].private_key.wf() && r[i].public_key.1@ == ristretto_mul(
                r[i].private_key@ % order(),
                generator@,
            ) && r[i].g1 == *g1 && r[i].g2 == *g2,
{
    let mut out: Vec<Party> = Vec::new();
    let mut i: usize = 0;
    while i < n
        invariant
            i <= n,
            generator.wf(),
            g1.wf(),
            g2.wf(),
            t < n,
            t == (n - 1) / 2,
            out.len() == i,
            forall|q: int|
                0 <= q < i ==> (#[trigger] out[q]).wf() && out[q].index == q + 1 && out[q].n == n
                    && out[q].t == t && out[q].private_key.wf() && out[q].public_key.1@
                    == ristretto_mul(out[q].private_key@ % order(), generator@) && out[q].g1 == *g1 && out[q].g2 == *g2,
        decreases n - i,
    {
        let g1_own = *g1;
        let g2_own = *g2;
        let p = Party::new(generator, g1_own, g2_own, rng, n, t, i + 1).unwrap();
        out.push(p);
        i += 1;
    }
    out
}

/// An honest dealer's shares pass. Where `(c, z)` is the proof for the
/// shares `evals` of the polynomials `fs` and the second blinds `gammas`,
/// with a blinding polynomial of the length of the `fs`, every party accepts
/// its own share, whatever the rows of the table hold.
pub proof fn lemma_honest_share_accepted(
    c: Seq<CompressedRistretto>,
    z: Polynomial,
    blind: Seq<int>,
    gammas: Seq<Scalar>,
    fs: Seq<Polynomial>,
    evals: Seq<Vec<Scalar>>,
    x_pows: Seq<Vec<Scalar>>,
    g1: Seq<u8>,
    g2: Seq<u8>,
    before: Seq<u8>,
    n: nat,
    i: int,
)
    requires
        crate::b_pi_p_plus::dealer::is_proof(
            c,
            z,
            blind,
            gammas,
            fs,
            evals,
            x_pows,
            g1,
            g2,
            before,
        ),
        crate::secret_sharing::evaluated(evals, fs, x_pows, n),
        forall|j: int| 0 <= j < fs.len() ==> (#[trigger] fs[j])@.len() == blind.len(),
        0 <= i < n,
    ensures
        share_accepted(
            c,
            z@,
            x_pows,
            g1,
            g2,
            evals[i]@,
            gammas[i],
            i + 1,
            before,
            evals[i]@.len(),
        ),
{
    let d = challenge(before + concat_encodings(c));
    let row = scalar_values(x_pows[i as int]@);
    let views = crate::polynomial::poly_views(fs);
    let ds = challenge_powers(d, fs.len());
    let shares = scalar_values(evals[i]@);
    assert forall|k: int| 0 <= k < views.len() implies congruent(
        #[trigger] shares[k],
        dot(views[k], row),
    ) by {
        assert(shares[k] == evals[i][k]@);
        lemma_reduced(dot(fs[k]@, row));
    }
    assert forall|k: int| 0 <= k < views.len() implies (#[trigger] views[k]).len()
        == blind.len() by {
        assert(views[k] == fs[k]@);
    }
    crate::fused::lemma_unfused_dot(z@, blind, views, ds, row, shares);
    lemma_reduced(dot(z@, row) - dot(shares, ds));
}

} // verus!
