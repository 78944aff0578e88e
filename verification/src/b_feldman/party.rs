//! A party of the batched Feldman protocol.

use crate::commit::{
    check_parameters, copy_rows, copy_scalars, evaluate_commitment, evaluated_commitment,
    lemma_passing_indices, passing_indices, same_rows, share_combination, valid_parameters,
};
use crate::error::{Error, ProofDefect};
use crate::field::order;
use crate::random::random_scalar;
use crate::ristretto::{
    all_valid, copy_encodings, copy_points, fold_points, ristretto_mul, CompressedRistretto,
    RistrettoPoint,
};
use crate::scalar::Scalar;
use crate::utils::{batch_decompress_ristretto_points, decoded, first_invalid};
use rand::{CryptoRng, RngCore};
use vstd::prelude::*;

verus! {

/// Whether the share of the party with the given index, counted from one,
/// fits the commitments to the coefficients: whether the sum of
/// `share[k] * g[k]` is the commitments evaluated at the index.
pub open spec fn share_accepted(
    commitments: Seq<RistrettoPoint>,
    g: Seq<RistrettoPoint>,
    share: Seq<Scalar>,
    index: int,
) -> bool {
    share_combination(share, g) == evaluated_commitment(commitments, index)
}

/// The positions of the shares that fit the commitments, in rising order.
pub open spec fn accepted_shares(
    commitments: Seq<RistrettoPoint>,
    g: Seq<RistrettoPoint>,
    shares: Seq<Vec<Scalar>>,
    m: nat,
) -> Seq<usize> {
    passing_indices(m, |i: int| share_accepted(commitments, g, shares[i]@, i + 1))
}

/// A party, with what it has been given so far.
#[derive(Debug)]
pub struct Party {
    pub g: Vec<RistrettoPoint>,
    pub private_key: Scalar,
    pub public_key: (CompressedRistretto, RistrettoPoint),
    pub index: usize,
    pub n: usize,
    pub t: usize,
    pub public_keys: Option<Vec<RistrettoPoint>>,
    pub dealer_proof: Option<(Vec<CompressedRistretto>, Vec<RistrettoPoint>)>,
    pub validated_shares: Vec<usize>,
    pub share: Option<Vec<Scalar>>,
    pub d: Option<Scalar>,
    pub shares: Option<Vec<Vec<Scalar>>>,
    pub qualified_set: Option<Vec<(usize, Vec<Scalar>)>>,
}

impl Party {
    /// The parameters are an honest-majority set, the points held are group
    /// elements, and what was ingested has the sizes that the parameters ask
    /// for.
    pub open spec fn wf(&self) -> bool {
        &&& valid_parameters(self.n, self.t, self.index)
        &&& self.public_key.1.wf()
        &&& self.public_key.0@ == self.public_key.1@
        &&& all_valid(self.g@)
        &&& (self.dealer_proof matches Some(proof) ==> proof.0.len() == self.t + 1 && decoded(
            proof.0@,
            proof.1@,
        ))
        &&& (self.shares matches Some(s) ==> s.len() == self.n)
        &&& forall|i: int|
            0 <= i < self.validated_shares.len() ==> self.validated_shares[i] < self.n
    }

    /// The two parties have the same keys, parameters and index.
    pub open spec fn same_identity(&self, other: &Party) -> bool {
        &&& self.private_key == other.private_key
        &&& self.public_key == other.public_key
        &&& self.index == other.index
        &&& self.n == other.n
        &&& self.t == other.t
        &&& self.g == other.g
    }

    /// The party is as it is made: nothing ingested, and the public key is
    /// the generator multiplied by the private key.
    pub open spec fn is_fresh(
        &self,
        generator: &RistrettoPoint,
        g: Vec<RistrettoPoint>,
        private_key: Scalar,
        n: usize,
        t: usize,
        index: usize,
    ) -> bool {
        &&& self.wf()
        &&& self.private_key == private_key
        &&& self.public_key.1@ == ristretto_mul(private_key@ % order(), generator@)
        &&& self.index == index
        &&& self.n == n
        &&& self.t == t
        &&& self.g == g
        &&& self.public_keys is None
        &&& self.dealer_proof is None
        &&& self.validated_shares@ == Seq::<usize>::empty()
        &&& self.share is None
        &&& self.d is None
        &&& self.shares is None
        &&& self.qualified_set is None
    }

    /// A party with a freshly drawn private key; fails where `(n, t, index)`
    /// is no honest-majority parameter set.
    pub fn new<R: CryptoRng + RngCore>(
        generator: &RistrettoPoint,
        g: Vec<RistrettoPoint>,
        rng: &mut R,
        n: usize,
        t: usize,
        index: usize,
    ) -> (r: Result<Self, Error>)
        requires
            generator.wf(),
            all_valid(g@),
        ensures
            !valid_parameters(n, t, index) ==> r == Err::<Self, Error>(
                Error::InvalidParameterSet(n, t, index),
            ),
            valid_parameters(n, t, index) ==> r is Ok,
            r matches Ok(p) ==> p.is_fresh(generator, g, p.private_key, n, t, index)
                && p.private_key.wf(),
    {
        let private_key = random_scalar(rng);
        Party::from_private_key(generator, g, private_key, n, t, index)
    }

    /// A party with the given private key; fails where `(n, t, index)` is no
    /// honest-majority parameter set.
    pub fn from_private_key(
        generator: &RistrettoPoint,
        g: Vec<RistrettoPoint>,
        private_key: Scalar,
        n: usize,
        t: usize,
        index: usize,
    ) -> (r: Result<Self, Error>)
        requires
            generator.wf(),
            all_valid(g@),
        ensures
            !valid_parameters(n, t, index) ==> r == Err::<Self, Error>(
                Error::InvalidParameterSet(n, t, index),
            ),
            valid_parameters(n, t, index) ==> r is Ok,
            r matches Ok(p) ==> p.is_fresh(generator, g, private_key, n, t, index),
    {
        let public_key = generator.mul(&private_key);
        if check_parameters(n, t, index) {
            Ok(
                Party {
                    g,
                    private_key,
                    public_key: (public_key.compress(), public_key),
                    index,
                    n,
                    t,
                    public_keys: None,
                    dealer_proof: None,
                    validated_shares: Vec::new(),
                    share: None,
                    d: None,
                    shares: None,
                    qualified_set: None,
                },
            )
        } else {
            Err(Error::InvalidParameterSet(n, t, index))
        }
    }

    /// Takes the party's own share, of as many scalars as there are
    /// generators.
    pub fn ingest_share(&mut self, share: &Vec<Scalar>)
        requires
            share.len() == old(self).g.len(),
        ensures
            final(self).share matches Some(s) && s@ == share@,
            final(self).same_identity(old(self)),
            final(self).public_keys == old(self).public_keys,
            final(self).dealer_proof == old(self).dealer_proof,
            final(self).validated_shares == old(self).validated_shares,
            final(self).d == old(self).d,
            final(self).shares == old(self).shares,
            final(self).qualified_set == old(self).qualified_set,
            old(self).wf() ==> final(self).wf(),
    {
        self.share = Some(copy_scalars(share));
    }

    /// Takes the dealer's commitments; fails where there are not `t + 1`,
    /// and then where one is no group element.
    pub fn ingest_dealer_proof(&mut self, proof: &Vec<CompressedRistretto>) -> (r: Result<(), Error>)
        requires
            old(self).wf(),
        ensures
            final(self).wf(),
            final(self).same_identity(old(self)),
            final(self).public_keys == old(self).public_keys,
            final(self).validated_shares == old(self).validated_shares,
            final(self).share == old(self).share,
            final(self).d == old(self).d,
            final(self).shares == old(self).shares,
            final(self).qualified_set == old(self).qualified_set,
            proof.len() != old(self).t + 1 ==> r == Err::<(), Error>(
                Error::InvalidProof(
                    ProofDefect::CommitmentCount {
                        len: proof.len(),
                        expected: (old(self).t + 1) as usize,
                    },
                ),
            ),
            proof.len() == old(self).t + 1 && first_invalid(proof@) < proof@.len() ==> r == Err::<
                (),
                Error,
            >(Error::PointDecompressionError(proof[first_invalid(proof@)].bytes)),
            proof.len() == old(self).t + 1 && first_invalid(proof@) == proof@.len() ==> r is Ok,
            r is Err ==> final(self).dealer_proof == old(self).dealer_proof,
            r is Ok ==> (final(self).dealer_proof matches Some(held) && held.0@ == proof@),
    {
        if proof.len() != self.t + 1 {
            Err(
                Error::InvalidProof(
                    ProofDefect::CommitmentCount { len: proof.len(), expected: self.t + 1 },
                ),
            )
        } else {
            match batch_decompress_ristretto_points(proof.as_slice()) {
                Ok(decompressed_c_vals) => {
                    self.dealer_proof = Some((copy_encodings(proof), decompressed_c_vals));
                    Ok(())
                },
                Err(e) => Err(e),
            }
        }
    }

    /// Checks the party's own share against the commitments. Fails where the
    /// commitments or the share have not been ingested.
    pub fn verify_share(&self) -> (r: Result<bool, Error>)
        requires
            self.wf(),
        ensures
            self.dealer_proof is None ==> r == Err::<bool, Error>(
                Error::UninitializedValue("party.dealer_proof"),
            ),
            self.dealer_proof is Some && self.share is None ==> r == Err::<bool, Error>(
                Error::UninitializedValue("party.share"),
            ),
            (self.dealer_proof, self.share) matches (Some(proof), Some(share)) ==> r == Ok::<
                bool,
                Error,
            >(share_accepted(proof.1@, self.g@, share@, self.index as int)),
    {
        match &self.dealer_proof {
            Some((_, cvals)) => match &self.share {
                Some(fi) => {
                    let a = fold_points(
                        RistrettoPoint::identity(),
                        fi.as_slice(),
                        self.g.as_slice(),
                    );
                    let b = evaluate_commitment(cvals, self.index);
                    Ok(a.equals(&b))
                },
                None => Err(Error::UninitializedValue("party.share")),
            },
            None => Err(Error::UninitializedValue("party.dealer_proof")),
        }
    }

    /// Checks all the shares against the commitments and records the
    /// positions of those that fit; the result says whether more than `t`
    /// did. Fails where the commitments or the shares have not been ingested.
    pub fn verify_shares(&mut self) -> (r: Result<bool, Error>)
        requires
            old(self).wf(),
        ensures
            final(self).wf(),
            final(self).same_identity(old(self)),
            final(self).public_keys == old(self).public_keys,
            final(self).dealer_proof == old(self).dealer_proof,
            final(self).share == old(self).share,
            final(self).d == old(self).d,
            final(self).shares == old(self).shares,
            final(self).qualified_set == old(self).qualified_set,
            old(self).dealer_proof is None ==> r == Err::<bool, Error>(
                Error::UninitializedValue("party.dealer_proof"),
            ),
            old(self).dealer_proof is Some && old(self).shares is None ==> r == Err::<bool, Error>(
                Error::UninitializedValue("party.share"),
            ),
            r is Err ==> final(self).validated_shares == old(self).validated_shares,
            (old(self).dealer_proof, old(self).shares) matches (Some(proof), Some(shares)) ==> {
                &&& final(self).validated_shares@ == accepted_shares(
                    proof.1@,
                    old(self).g@,
                    shares@,
                    old(self).n as nat,
                )
                &&& r == Ok::<bool, Error>(final(self).validated_shares@.len() > old(self).t)
            },
    {
        let n = self.n;
        let found: Result<Vec<usize>, Error> = match &self.dealer_proof {
            Some((compressed, cvals)) => match &self.shares {
                Some(shares) => {
                    let mut validated: Vec<usize> = Vec::new();
                    let mut i: usize = 0;
                    while i < n
                        invariant
                            i <= n,
                            n == self.n,
                            all_valid(self.g@),
                            decoded(compressed@, cvals@),
                            shares.len() == n,
                            validated@ == accepted_shares(cvals@, self.g@, shares@, i as nat),
                        decreases n - i,
                    {
                        let a = fold_points(
                            RistrettoPoint::identity(),
                            shares[i].as_slice(),
                            self.g.as_slice(),
                        );
                        let b = evaluate_commitment(cvals, i + 1);
                        if a.equals(&b) {
                            validated.push(i);
                        }
                        i += 1;
                    }
                    proof {
                        lemma_passing_indices(
                            n as nat,
                            |i: int| share_accepted(cvals@, self.g@, shares@[i]@, i + 1),
                        );
                    }
                    Ok(validated)
                },
                None => Err(Error::UninitializedValue("party.share")),
            },
            None => Err(Error::UninitializedValue("party.dealer_proof")),
        };
        match found {
            Ok(validated) => {
                self.validated_shares = validated;
                Ok(self.validated_shares.len() > self.t)
            },
            Err(e) => Err(e),
        }
    }

    /// Takes the shares of all `n` parties; fails where there are not `n`,
    /// and where the first has not as many scalars as there are generators.
    pub fn ingest_shares(&mut self, shares: &Vec<Vec<Scalar>>) -> (r: Result<(), Error>)
        requires
            old(self).wf(),
        ensures
            final(self).wf(),
            final(self).same_identity(old(self)),
            final(self).public_keys == old(self).public_keys,
            final(self).dealer_proof == old(self).dealer_proof,
            final(self).validated_shares == old(self).validated_shares,
            final(self).share == old(self).share,
            final(self).d == old(self).d,
            final(self).qualified_set == old(self).qualified_set,
            !(shares.len() == old(self).n && shares[0].len() == old(self).g.len()) ==> r == Err::<
                (),
                Error,
            >(Error::CountMismatch(old(self).n, "parties", shares.len(), "ingestable shares"))
                && final(self).shares == old(self).shares,
            shares.len() == old(self).n && shares[0].len() == old(self).g.len() ==> r is Ok && (
            final(self).shares matches Some(held) && same_rows(held@, shares@)),
    {
        if shares.len() == self.n && shares[0].len() == self.g.len() {
            self.shares = Some(copy_rows(shares));
            Ok(())
        } else {
            Err(Error::CountMismatch(self.n, "parties", shares.len(), "ingestable shares"))
        }
    }
}

/// The `n` parties of a session, each with a freshly drawn private key.
pub fn generate_parties<R: CryptoRng + RngCore>(
    generator: &RistrettoPoint,
    g: &Vec<RistrettoPoint>,
    rng: &mut R,
    n: usize,
    t: usize,
) -> (r: Vec<Party>)
    requires
        generator.wf(),
        all_valid(g@),
        t < n,
        t == (n - 1) / 2,
    ensures
        r.len() == n,
        forall|i: int|
            0 <= i < n ==> (#[trigger] r[i]).wf() && r[i].index == i + 1 && r[i].n == n && r[i].t
                == t && r[i].private_key.wf() && r[i].public_key.1@ == ristretto_mul(
                r[i].private_key@ % order(),
                generator@,
            ) && r[i].g@ == g@,
{
    let mut out: Vec<Party> = Vec::new();
    let mut i: usize = 0;
    while i < n
        invariant
            i <= n,
            generator.wf(),
            all_valid(g@),
            t < n,
            t == (n - 1) / 2,
            out.len() == i,
            forall|q: int|
                0 <= q < i ==> (#[trigger] out[q]).wf() && out[q].index == q + 1 && out[q].n == n
                    && out[q].t == t && out[q].private_key.wf() && out[q].public_key.1@
                    == ristretto_mul(out[q].private_key@ % order(), generator@) && out[q].g@ == g@,
        decreases n - i,
    {
        let g_own = copy_points(g);
        let p = Party::new(generator, g_own, rng, n, t, i + 1).unwrap();
        out.push(p);
        i += 1;
    }
    out
}

} // verus!
