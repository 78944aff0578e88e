//! A party of the protocol with Pedersen commitments and a second blind.

use crate::commit::{
    check_parameters, lemma_passing_indices, passing_indices, valid_parameters,
};
use crate::error::{Error, ProofDefect};
use crate::field::{dot, lemma_congruent_sub, lemma_reduced, lemma_small_is_reduced, order};
use crate::pi_p::dealer::triple_commitment;
use crate::polynomial::{poly_eval, Polynomial};
use crate::random::random_scalar;
use crate::ristretto::{copy_encodings, ristretto_mul, CompressedRistretto, RistrettoPoint};
use crate::scalar::{scalar_values, Scalar};
use crate::secret_sharing::{lemma_same_members, share_values, shuffle_indices};
use crate::transcript::{zeroed, Transcript};
use crate::utils::{
    batch_decompress_ristretto_points, challenge, compute_d_from_point_commitments,
    concat_encodings, decoded, first_invalid,
};
use rand::{CryptoRng, RngCore};
use vstd::prelude::*;

verus! {

/// Whether the commitment of the party with the given index, counted from
/// one, is the one to its share `f`, to the blinding value `z(index) - d * f`
/// that the proof leaves for it, and to its second blind, for the challenge
/// `d` from a transcript that had absorbed `before`.
pub open spec fn share_accepted(
    compressed: Seq<CompressedRistretto>,
    z: Seq<int>,
    g1: Seq<u8>,
    g2: Seq<u8>,
    g3: Seq<u8>,
    f: Scalar,
    gamma: Scalar,
    index: int,
    before: Seq<u8>,
) -> bool {
    compressed[index - 1]@ == triple_commitment(
        f@,
        poly_eval(z, index) - challenge(before + concat_encodings(compressed)) * f@,
        gamma@,
        g1,
        g2,
        g3,
    )
}

/// The positions below `m` of the shares that the proof accepts, in rising
/// order.
pub open spec fn accepted_shares(
    compressed: Seq<CompressedRistretto>,
    z: Seq<int>,
    g1: Seq<u8>,
    g2: Seq<u8>,
    g3: Seq<u8>,
    shares: Seq<(Scalar, Scalar)>,
    before: Seq<u8>,
    m: nat,
) -> Seq<usize> {
    passing_indices(
        m,
        |i: int| share_accepted(compressed, z, g1, g2, g3, shares[i].0, shares[i].1, i + 1, before),
    )
}

/// `q` pairs each of the first `t + 1` entries of `chosen`, counted from one,
/// with its share.
pub open spec fn is_qualified_from(
    q: Seq<(usize, Scalar)>,
    chosen: Seq<usize>,
    shares: Seq<(Scalar, Scalar)>,
    t: nat,
) -> bool {
    &&& q.len() == t + 1
    &&& forall|i: int|
        0 <= i <= t ==> (#[trigger] q[i]).0 == chosen[i] + 1 && q[i].1
            == shares[chosen[i] as int].0
}

/// The shares held are those given, each with its second blind.
pub open spec fn zipped(held: Seq<(Scalar, Scalar)>, shares: Seq<Scalar>, gammas: Seq<Scalar>) -> bool {
    &&& held.len() == shares.len()
    &&& held.len() == gammas.len()
    &&& forall|i: int| 0 <= i < held.len() ==> #[trigger] held[i] == (shares[i], gammas[i])
}

/// The commitment that a party recomputes from a share, its second blind,
/// a value of `z` and the challenge.
pub fn recompute_commitment(
    g1: &RistrettoPoint,
    g2: &RistrettoPoint,
    g3: &RistrettoPoint,
    f: &Scalar,
    gamma: &Scalar,
    z_eval: &Scalar,
    d: &Scalar,
) -> (c: RistrettoPoint)
    requires
        g1.wf(),
        g2.wf(),
        g3.wf(),
        d.wf(),
    ensures
        c.wf(),
        forall|p: int| #[trigger]
            crate::field::congruent(p, z_eval@) ==> c@ == triple_commitment(
                f@,
                p - d@ * f@,
                gamma@,
                g1@,
                g2@,
                g3@,
            ),
{
    let blind = z_eval.sub(&d.mul(f));
    let c = g1.mul(f).add(&g2.mul(&blind)).add(&g3.mul(gamma));
    proof {
        lemma_small_is_reduced(blind@);
        assert forall|p: int| #[trigger] crate::field::congruent(p, z_eval@) implies c@
            == triple_commitment(f@, p - d@ * f@, gamma@, g1@, g2@, g3@) by {
            lemma_reduced(d@ * f@);
            lemma_congruent_sub(p, z_eval@, d@ * f@, (d@ * f@) % order());
        }
    }
    c
}

/// A party, with what it has been given so far.
#[derive(Debug)]
pub struct Party {
    pub g1: RistrettoPoint,
    pub g2: RistrettoPoint,
    pub g3: RistrettoPoint,
    pub private_key: Scalar,
    pub public_key: (CompressedRistretto, RistrettoPoint),
    pub index: usize,
    pub n: usize,
    pub t: usize,
    pub public_keys: Option<Vec<RistrettoPoint>>,
    pub dealer_proof: Option<(Vec<CompressedRistretto>, Vec<RistrettoPoint>, Polynomial)>,
    pub validated_shares: Vec<usize>,
    pub share: Option<(Scalar, Scalar)>,
    pub d: Option<Scalar>,
    pub shares: Option<Vec<(Scalar, Scalar)>>,
    pub qualified_set: Option<Vec<(usize, Scalar)>>,
}

impl Party {
    /// The parameters are an honest-majority set, the points held are group
    /// elements, and what was ingested has the sizes that the parameters ask
    /// for.
    pub open spec fn wf(&self) -> bool {
        &&& valid_parameters(self.n, self.t, self.index)
        &&& self.public_key.1.wf()
        &&& self.public_key.0@ == self.public_key.1@
        &&& self.g1.wf()
        &&& self.g2.wf()
        &&& self.g3.wf()
        &&& (self.dealer_proof matches Some(proof) ==> proof.0.len() == self.n && decoded(
            proof.0@,
            proof.1@,
        ) && proof.2.coefficients.len() == self.t + 1)
        &&& (self.shares matches Some(s) ==> s.len() == self.n)
        &&& forall|i: int|
            0 <= i < self.validated_shares.len() ==> self.validated_shares[i] < self.n
    }

    /// The two parties have the same keys, parameters and index.
    pub open spec fn same_identity(&self, other: &Party) -> bool {
        &&& self.private_key == other.private_key
        &&& self.public_key == other.public_key
        &&& self.index == other.index
        &&& self.n == other.n
        &&& self.t == other.t
        &&& self.g1 == other.g1
        &&& self.g2 == other.g2
        &&& self.g3 == other.g3
    }

    /// The party is as it is made: nothing ingested, and the public key is
    /// the generator multiplied by the private key.
    pub open spec fn is_fresh(
        &self,
        generator: &RistrettoPoint,
        g1: RistrettoPoint,
        g2: RistrettoPoint,
        g3: RistrettoPoint,
        private_key: Scalar,
        n: usize,
        t: usize,
        index: usize,
    ) -> bool {
        &&& self.wf()
        &&& self.private_key == private_key
        &&& self.public_key.1@ == ristretto_mul(private_key@ % order(), generator@)
        &&& self.index == index
        &&& self.n == n
        &&& self.t == t
        &&& self.g1 == g1
        &&& self.g2 == g2
        &&& self.g3 == g3
        &&& self.public_keys is None
        &&& self.dealer_proof is None
        &&& self.validated_shares@ == Seq::<usize>::empty()
        &&& self.share is None
        &&& self.d is None
        &&& self.shares is None
        &&& self.qualified_set is None
    }

    /// A party with a freshly drawn private key; fails where `(n, t, index)`
    /// is no honest-majority parameter set.
    pub fn new<R: CryptoRng + RngCore>(
        generator: &RistrettoPoint,
        g1: RistrettoPoint,
        g2: RistrettoPoint,
        g3: RistrettoPoint,
        rng: &mut R,
        n: usize,
        t: usize,
        index: usize,
    ) -> (r: Result<Self, Error>)
        requires
            generator.wf(),
            g1.wf(),
            g2.wf(),
            g3.wf(),
        ensures
            !valid_parameters(n, t, index) ==> r == Err::<Self, Error>(
                Error::InvalidParameterSet(n, t, index),
            ),
            valid_parameters(n, t, index) ==> r is Ok,
            r matches Ok(p) ==> p.is_fresh(generator, g1, g2, g3, p.private_key, n, t, index)
                && p.private_key.wf(),
    {
        let private_key = random_scalar(rng);
        Party::from_private_key(generator, g1, g2, g3, private_key, n, t, index)
    }

    /// A party with the given private key; fails where `(n, t, index)` is no
    /// honest-majority parameter set.
    pub fn from_private_key(
        generator: &RistrettoPoint,
        g1: RistrettoPoint,
        g2: RistrettoPoint,
        g3: RistrettoPoint,
        private_key: Scalar,
        n: usize,
        t: usize,
        index: usize,
    ) -> (r: Result<Self, Error>)
        requires
            generator.wf(),
            g1.wf(),
            g2.wf(),
            g3.wf(),
        ensures
            !valid_parameters(n, t, index) ==> r == Err::<Self, Error>(
                Error::InvalidParameterSet(n, t, index),
            ),
            valid_parameters(n, t, index) ==> r is Ok,
            r matches Ok(p) ==> p.is_fresh(generator, g1, g2, g3, private_key, n, t, index),
    {
        let public_key = generator.mul(&private_key);
        if check_parameters(n, t, index) {
            Ok(
                Party {
                    g1,
                    g2,
                    g3,
                    private_key,
                    public_key: (public_key.compress(), public_key),
                    index,
                    n,
                    t,
                    public_keys: None,
                    dealer_proof: None,
                    validated_shares: Vec::new(),
                    share: None,
                    d: None,
                    shares: None,
                    qualified_set: None,
                },
            )
        } else {
            Err(Error::InvalidParameterSet(n, t, index))
        }
    }

    /// Takes the party's own share and second blind.
    pub fn ingest_share(&mut self, share: (&Scalar, &Scalar))
        ensures
            final(self).share == Some((*share.0, *share.1)),
            final(self).same_identity(old(self)),
            final(self).public_keys == old(self).public_keys,
            final(self).dealer_proof == old(self).dealer_proof,
            final(self).validated_shares == old(self).validated_shares,
            final(self).d == old(self).d,
            final(self).shares == old(self).shares,
            final(self).qualified_set == old(self).qualified_set,
            old(self).wf() ==> final(self).wf(),
    {
        self.share = Some((*share.0, *share.1));
    }

    /// Takes the public keys of the `n - 1` other parties, in order, and
    /// puts the party's own key at its place.
    pub fn ingest_public_keys(&mut self, public_keys: &[CompressedRistretto]) -> (r: Result<
        (),
        Error,
    >)
        requires
            old(self).wf(),
        ensures
            final(self).wf(),
            final(self).same_identity(old(self)),
            final(self).dealer_proof == old(self).dealer_proof,
            final(self).validated_shares == old(self).validated_shares,
            final(self).share == old(self).share,
            final(self).d == old(self).d,
            final(self).shares == old(self).shares,
            final(self).qualified_set == old(self).qualified_set,
            public_keys.len() != old(self).n - 1 ==> r == Err::<(), Error>(
                Error::CountMismatch(old(self).n, "parties", public_keys.len(), "public_keys"),
            ),
            public_keys.len() == old(self).n - 1 && first_invalid(public_keys@) < public_keys@.len()
                ==> r == Err::<(), Error>(
                Error::PointDecompressionError(public_keys[first_invalid(public_keys@)].bytes),
            ),
            public_keys.len() == old(self).n - 1 && first_invalid(public_keys@)
                == public_keys@.len() ==> r is Ok,
            r is Err ==> final(self).public_keys == old(self).public_keys,
            r is Ok ==> (final(self).public_keys matches Some(pks) && {
                &&& pks.len() == old(self).n
                &&& pks[old(self).index - 1] == old(self).public_key.1
                &&& forall|i: int|
                    0 <= i < old(self).index - 1 ==> (#[trigger] pks[i]).wf() && pks[i]@
                        == public_keys[i]@
                &&& forall|i: int|
                    old(self).index <= i < old(self).n ==> (#[trigger] pks[i]).wf() && pks[i]@
                        == public_keys[i - 1]@
            }),
    {
        match crate::utils::ingest_public_keys(self.n, &self.public_key.1, self.index, public_keys) {
            Ok(pks) => {
                self.public_keys = Some(pks);
                Ok(())
            },
            Err(x) => Err(x),
        }
    }

    /// Takes the dealer's proof; fails where the polynomial has not `t + 1`
    /// coefficients, then where there are not `n` commitments, and then where
    /// a commitment is no group element.
    pub fn ingest_dealer_proof(&mut self, proof: (&Vec<CompressedRistretto>, &Polynomial)) -> (r:
        Result<(), Error>)
        requires
            old(self).wf(),
        ensures
            final(self).wf(),
            final(self).same_identity(old(self)),
            final(self).public_keys == old(self).public_keys,
            final(self).validated_shares == old(self).validated_shares,
            final(self).share == old(self).share,
            final(self).d == old(self).d,
            final(self).shares == old(self).shares,
            final(self).qualified_set == old(self).qualified_set,
            proof.1.coefficients.len() != old(self).t + 1 ==> r == Err::<(), Error>(
                Error::InvalidProof(
                    ProofDefect::PolynomialLength {
                        len: proof.1.coefficients.len(),
                        t: old(self).t,
                    },
                ),
            ),
            proof.1.coefficients.len() == old(self).t + 1 && proof.0.len() != old(self).n ==> r
                == Err::<(), Error>(
                Error::InvalidProof(
                    ProofDefect::CommitmentCount { len: proof.0.len(), expected: old(self).n },
                ),
            ),
            proof.1.coefficients.len() == old(self).t + 1 && proof.0.len() == old(self).n
                && first_invalid(proof.0@) < proof.0@.len() ==> r == Err::<(), Error>(
                Error::PointDecompressionError(proof.0[first_invalid(proof.0@)].bytes),
            ),
            proof.1.coefficients.len() == old(self).t + 1 && proof.0.len() == old(self).n
                && first_invalid(proof.0@) == proof.0@.len() ==> r is Ok,
            r is Err ==> final(self).dealer_proof == old(self).dealer_proof,
            r is Ok ==> (final(self).dealer_proof matches Some(held) && held.0@ == proof.0@
                && held.2.coefficients@ == proof.1.coefficients@),
    {
        if proof.1.len() != self.t + 1 {
            Err(
                Error::InvalidProof(ProofDefect::PolynomialLength { len: proof.1.len(), t: self.t }),
            )
        } else if proof.0.len() != self.n {
            Err(
                Error::InvalidProof(
                    ProofDefect::CommitmentCount { len: proof.0.len(), expected: self.n },
                ),
            )
        } else {
            match batch_decompress_ristretto_points(proof.0.as_slice()) {
                Ok(decompressed_c_vals) => {
                    self.dealer_proof = Some(
                        (copy_encodings(proof.0), decompressed_c_vals, proof.1.clone()),
                    );
                    Ok(())
                },
                Err(e) => Err(e),
            }
        }
    }

    /// Checks the party's own share against the proof. Fails where the proof
    /// or the share has not been ingested.
    pub fn verify_share(&self, hasher: &mut Transcript, buf: &mut [u8; 64]) -> (r: Result<
        bool,
        Error,
    >)
        requires
            self.wf(),
        ensures
            self.dealer_proof is None ==> r == Err::<bool, Error>(
                Error::UninitializedValue("party.dealer_proof"),
            ),
            self.dealer_proof is Some && self.share is None ==> r == Err::<bool, Error>(
                Error::UninitializedValue("party.share"),
            ),
            r is Err ==> final(hasher)@ == old(hasher)@ && final(buf)@ == old(buf)@,
            (self.dealer_proof, self.share) matches (Some(proof), Some(share)) ==> {
                &&& r == Ok::<bool, Error>(
                    share_accepted(
                        proof.0@,
                        proof.2@,
                        self.g1@,
                        self.g2@,
                        self.g3@,
                        share.0,
                        share.1,
                        self.index as int,
                        old(hasher)@,
                    ),
                )
                &&& final(hasher)@ == Seq::<u8>::empty()
                &&& final(buf)@ == zeroed()
            },
    {
        match &self.dealer_proof {
            Some((compressed_cvals, cvals, z)) => match &self.share {
                Some((f_i, g_i)) => {
                    let d = compute_d_from_point_commitments(
                        hasher,
                        buf,
                        compressed_cvals.as_slice(),
                    );
                    let expected_c = cvals[self.index - 1];
                    let z_eval = z.evaluate(self.index);
                    proof {
                        lemma_reduced(poly_eval(z@, self.index as int));
                        assert(crate::field::congruent(
                            poly_eval(z@, self.index as int),
                            z_eval@,
                        ));
                    }
                    let c = recompute_commitment(
                        &self.g1,
                        &self.g2,
                        &self.g3,
                        f_i,
                        g_i,
                        &z_eval,
                        &d,
                    );
                    Ok(expected_c.equals(&c))
                },
                None => Err(Error::UninitializedValue("party.share")),
            },
            None => Err(Error::UninitializedValue("party.dealer_proof")),
        }
    }

    /// Checks all the shares against the proof and records the positions of
    /// those that pass; the result says whether more than `t` did. Fails where
    /// the proof or the shares have not been ingested.
    pub fn verify_shares(&mut self, hasher: &mut Transcript, buf: &mut [u8; 64]) -> (r: Result<
        bool,
        Error,
    >)
        requires
            old(self).wf(),
        ensures
            final(self).wf(),
            final(self).same_identity(old(self)),
            final(self).public_keys == old(self).public_keys,
            final(self).dealer_proof == old(self).dealer_proof,
            final(self).share == old(self).share,
            final(self).d == old(self).d,
            final(self).shares == old(self).shares,
            final(self).qualified_set == old(self).qualified_set,
            old(self).dealer_proof is None ==> r == Err::<bool, Error>(
                Error::UninitializedValue("party.dealer_proof"),
            ),
            old(self).dealer_proof is Some && old(self).shares is None ==> r == Err::<bool, Error>(
                Error::UninitializedValue("party.share"),
            ),
            r is Err ==> final(hasher)@ == old(hasher)@ && final(buf)@ == old(buf)@,
            r is Err ==> final(self).validated_shares == old(self).validated_shares,
            (old(self).dealer_proof, old(self).shares) matches (Some(proof), Some(shares)) ==> {
                &&& final(self).validated_shares@ == accepted_shares(
                    proof.0@,
                    proof.2@,
                    old(self).g1@,
                    old(self).g2@,
                    old(self).g3@,
                    shares@,
                    old(hasher)@,
                    old(self).n as nat,
                )
                &&& r == Ok::<bool, Error>(final(self).validated_shares@.len() > old(self).t)
                &&& final(hasher)@ == Seq::<u8>::empty()
                &&& final(buf)@ == zeroed()
            },
    {
        let n = self.n;
        let found: Result<Vec<usize>, Error> = match &self.dealer_proof {
            Some((compressed_cvals, cvals, z)) => match &self.shares {
                Some(shares) => {
                    let ghost before = hasher@;
                    let d = compute_d_from_point_commitments(
                        hasher,
                        buf,
                        compressed_cvals.as_slice(),
                    );
                    let mut validated: Vec<usize> = Vec::new();
                    let mut i: usize = 0;
                    while i < n
                        invariant
                            i <= n,
                            n == self.n,
                            self.g1.wf(),
                            self.g2.wf(),
                            self.g3.wf(),
                            d.wf(),
                            d@ == challenge(before + concat_encodings(compressed_cvals@)),
                            compressed_cvals.len() == n,
                            decoded(compressed_cvals@, cvals@),
                            shares.len() == n,
                            validated@ == accepted_shares(
                                compressed_cvals@,
                                z@,
                                self.g1@,
                                self.g2@,
                                self.g3@,
                                shares@,
                                before,
                                i as nat,
                            ),
                        decreases n - i,
                    {
                        let z_eval = z.evaluate(i + 1);
                        proof {
                            lemma_reduced(poly_eval(z@, i + 1));
                            assert(crate::field::congruent(poly_eval(z@, i + 1), z_eval@));
                        }
                        let c = recompute_commitment(
                            &self.g1,
                            &self.g2,
                            &self.g3,
                            &shares[i].0,
                            &shares[i].1,
                            &z_eval,
                            &d,
                        );
                        let check_bit = cvals[i].equals(&c);
                        proof {
                            assert(cvals[i as int]@ == compressed_cvals[i as int]@);
                            assert(check_bit == share_accepted(
                                compressed_cvals@,
                                z@,
                                self.g1@,
                                self.g2@,
                                self.g3@,
                                shares[i as int].0,
                                shares[i as int].1,
                                i + 1,
                                before,
                            ));
                        }
                        if check_bit {
                            validated.push(i);
                        }
                        i += 1;
                    }
                    proof {
                        lemma_passing_indices(
                            n as nat,
                            |i: int|
                                share_accepted(
                                    compressed_cvals@,
                                    z@,
                                    self.g1@,
                                    self.g2@,
                                    self.g3@,
                                    shares@[i].0,
                                    shares@[i].1,
                                    i + 1,
                                    before,
                                ),
                        );
                    }
                    Ok(validated)
                },
                None => Err(Error::UninitializedValue("party.share")),
            },
            None => Err(Error::UninitializedValue("party.dealer_proof")),
        };
        match found {
            Ok(validated) => {
                self.validated_shares = validated;
                Ok(self.validated_shares.len() > self.t)
            },
            Err(e) => Err(e),
        }
    }

    /// Takes the shares and second blinds of all `n` parties; fails where
    /// there are not `n` of either.
    pub fn ingest_shares(&mut self, shares: &(Vec<Scalar>, Vec<Scalar>)) -> (r: Result<(), Error>)
        requires
            old(self).wf(),
        ensures
            final(self).wf(),
            final(self).same_identity(old(self)),
            final(self).public_keys == old(self).public_keys,
            final(self).dealer_proof == old(self).dealer_proof,
            final(self).validated_shares == old(self).validated_shares,
            final(self).share == old(self).share,
            final(self).d == old(self).d,
            final(self).qualified_set == old(self).qualified_set,
            !(shares.0.len() == old(self).n && shares.1.len() == old(self).n) ==> r == Err::<
                (),
                Error,
            >(Error::CountMismatch(old(self).n, "parties", shares.0.len(), "ingestable shares"))
                && final(self).shares == old(self).shares,
            shares.0.len() == old(self).n && shares.1.len() == old(self).n ==> r is Ok && (final(self).shares matches Some(held) && zipped(held@, shares.0@, shares.1@)),
    {
        if shares.0.len() == self.n && shares.1.len() == self.n {
            let mut held: Vec<(Scalar, Scalar)> = Vec::new();
            let mut i: usize = 0;
            while i < shares.0.len()
                invariant
                    i <= shares.0.len(),
                    shares.0.len() == shares.1.len(),
                    held.len() == i,
                    forall|q: int| 0 <= q < i ==> #[trigger] held[q] == (shares.0[q], shares.1[q]),
                decreases shares.0.len() - i,
            {
                held.push((shares.0[i], shares.1[i]));
                i += 1;
            }
            self.shares = Some(held);
            Ok(())
        } else {
            Err(Error::CountMismatch(self.n, "parties", shares.0.len(), "ingestable shares"))
        }
    }

    /// Chooses the qualified set: `t + 1` of the validated shares, by a
    /// shuffle. Fails where the shares have not been ingested, and where no
    /// more than `t` are validated.
    pub fn select_qualified_set<R: CryptoRng + RngCore>(&mut self, rng: &mut R) -> (r: Result<
        (),
        Error,
    >)
        requires
            old(self).wf(),
        ensures
            final(self).wf(),
            final(self).same_identity(old(self)),
            final(self).public_keys == old(self).public_keys,
            final(self).dealer_proof == old(self).dealer_proof,
            final(self).validated_shares == old(self).validated_shares,
            final(self).share == old(self).share,
            final(self).d == old(self).d,
            final(self).shares == old(self).shares,
            old(self).shares is None ==> r == Err::<(), Error>(
                Error::UninitializedValue("party.decrypted_shares"),
            ),
            old(self).shares is Some && old(self).validated_shares.len() <= old(self).t ==> r
                == Err::<(), Error>(
                Error::InsufficientShares(old(self).validated_shares.len(), old(self).t),
            ),
            old(self).shares is Some && old(self).validated_shares.len() > old(self).t ==> r
                is Ok,
            r is Err ==> final(self).qualified_set == old(self).qualified_set,
            r is Ok ==> (final(self).qualified_set matches Some(q) && exists|chosen: Seq<usize>|
                chosen.to_multiset() == old(self).validated_shares@.to_multiset()
                    && #[trigger] is_qualified_from(
                    q@,
                    chosen,
                    old(self).shares->Some_0@,
                    old(self).t as nat,
                )),
    {
        let t = self.t;
        let found: Result<Vec<(usize, Scalar)>, Error> = match &self.shares {
            Some(shares) => {
                if self.validated_shares.len() > t {
                    let mut tmp = self.validated_shares.clone();
                    assert(tmp@ =~= self.validated_shares@);
                    shuffle_indices(rng, &mut tmp);
                    proof {
                        lemma_same_members(tmp@, self.validated_shares@);
                    }
                    let mut out: Vec<(usize, Scalar)> = Vec::new();
                    let mut i: usize = 0;
                    while i <= t
                        invariant
                            i <= t + 1,
                            t < tmp.len(),
                            shares.len() == self.n,
                            forall|q: int| 0 <= q < tmp.len() ==> tmp[q] < self.n,
                            out.len() == i,
                            forall|q: int|
                                0 <= q < i ==> (#[trigger] out[q]).0 == tmp[q] + 1 && out[q].1
                                    == shares[tmp[q] as int].0,
                        decreases t + 1 - i,
                    {
                        let x = tmp[i];
                        out.push((x + 1, shares[x].0));
                        i += 1;
                    }
                    assert(is_qualified_from(out@, tmp@, shares@, t as nat));
                    Ok(out)
                } else {
                    Err(Error::InsufficientShares(self.validated_shares.len(), t))
                }
            },
            None => Err(Error::UninitializedValue("party.decrypted_shares")),
        };
        match found {
            Ok(q) => {
                let ghost chosen = choose|chosen: Seq<usize>|
                    chosen.to_multiset() == self.validated_shares@.to_multiset()
                        && #[trigger] is_qualified_from(
                        q@,
                        chosen,
                        self.shares->Some_0@,
                        self.t as nat,
                    );
                self.qualified_set = Some(q);
                assert(is_qualified_from(
                    self.qualified_set->Some_0@,
                    chosen,
                    self.shares->Some_0@,
                    self.t as nat,
                ));
                return Ok(());
            },
            Err(e) => {
                return Err(e);
            },
        }
    }

    /// The secret from the qualified set and its Lagrange coefficients: the
    /// sum of `lambdas[i] * share_i`. Fails where no qualified set has been
    /// chosen.
    pub fn reconstruct_secret(&self, lambdas: &Vec<Scalar>) -> (r: Result<Scalar, Error>)
        ensures
            self.qualified_set is None ==> r == Err::<Scalar, Error>(
                Error::UninitializedValue("party.qualified_set"),
            ),
            self.qualified_set is Some ==> r is Ok,
            (self.qualified_set, r) matches (Some(q), Ok(v)) ==> v.wf() && v@ == dot(
                scalar_values(lambdas@),
                share_values(q@),
            ) % order(),
    {
        crate::secret_sharing::reconstruct_secret(&self.qualified_set, lambdas)
    }
}

/// The `n` parties of a session, each with a freshly drawn private key.
pub fn generate_parties<R: CryptoRng + RngCore>(
    generator: &RistrettoPoint,
    g1: &RistrettoPoint,
    g2: &RistrettoPoint,
    g3: &RistrettoPoint,
    rng: &mut R,
    n: usize,
    t: usize,
) -> (r: Vec<Party>)
    requires
        generator.wf(),
        g1.wf(),
        g2.wf(),
        g3.wf(),
        t < n,
        t == (n - 1) / 2,
    ensures
        r.len() == n,
        forall|i: int|
            0 <= i < n ==> (#[trigger] r[i]).wf() && r[i].index == i + 1 && r[i].n == n && r[i].t
                == t && r[i].private_key.wf() && r[i].public_key.1@ == ristretto_mul(
                r[i].private_key@ % order(),
                generator@,
            ) && r[i].g1 == *g1 && r[i].g2 == *g2 && r[i].g3 == *g3,
{
    let mut out: Vec<Party> = Vec::new();
    let mut i: usize = 0;
    while i < n
        invariant
            i <= n,
            generator.wf(),
            g1.wf(),
            g2.wf(),
            g3.wf(),
            t < n,
            t == (n - 1) / 2,
            out.len() == i,
            forall|q: int|
                0 <= q < i ==> (#[trigger] out[q]).wf() && out[q].index == q + 1 && out[q].n == n
                    && out[q].t == t && out[q].private_key.wf() && out[q].public_key.1@
                    == ristretto_mul(out[q].private_key@ % order(), generator@) && out[q].g1 == *g1 && out[q].g2 == *g2 && out[q].g3 == *g3,
        decreases n - i,
    {
        let g1_own = *g1;
        let g2_own = *g2;
        let g3_own = *g3;
        let p = Party::new(generator, g1_own, g2_own, g3_own, rng, n, t, i + 1).unwrap();
        out.push(p);
        i += 1;
    }
    out
}

/// An honest dealer's shares pass. Where the shares, the commitments and `z`
/// are the dealing for a share polynomial `f`, a blinding polynomial `r` of
/// its length and the second blinds `gammas`, every party accepts its own
/// share.
pub proof fn lemma_honest_share_accepted(
    shares: Seq<Scalar>,
    c: Seq<CompressedRistretto>,
    z: Polynomial,
    f: Seq<int>,
    r: Seq<int>,
    gammas: Seq<Scalar>,
    g1: Seq<u8>,
    g2: Seq<u8>,
    g3: Seq<u8>,
    before: Seq<u8>,
    n: nat,
    i: int,
)
    requires
        crate::pi_p::dealer::is_dealing(shares, c, z, f, r, gammas, g1, g2, g3, n, before),
        f.len() == r.len(),
        0 <= i < n,
    ensures
        share_accepted(c, z@, g1, g2, g3, shares[i], gammas[i], i + 1, before),
{
    let d = challenge(before + concat_encodings(c));
    let m = f.len();
    let x = i + 1;
    assert forall|j: int| 0 <= j < m implies crate::field::congruent(
        #[trigger] z@[j],
        f[j] * d + r[j],
    ) by {
        assert(z.coefficients[j].wf());
        lemma_reduced(f[j] * d + r[j]);
    }
    crate::fused::lemma_scaled_sum_eval(z@, f, r, d, x, m);
    let ef = crate::polynomial::eval_upto(f, x, m);
    let er = crate::polynomial::eval_upto(r, x, m);
    lemma_reduced(ef);
    crate::field::lemma_congruent_mul(d, d, shares[i]@, ef);
    lemma_congruent_sub(poly_eval(z@, x), d * ef + er, d * shares[i]@, d * ef);
}

} // verus!
