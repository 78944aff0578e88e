//! A party of the batched Pedersen protocol.

use crate::b_pi_p_plus::party::zipped;
use crate::commit::{
    check_parameters, copy_scalars, evaluate_commitment_from_first,
    evaluated_commitment_from_first, lemma_passing_indices, passing_indices, valid_parameters,
};
use crate::error::{Error, ProofDefect};
use crate::field::{dot, order};
use crate::random::random_scalar;
use crate::ristretto::{
    all_valid, copy_encodings, copy_points, fold_points, paired, point_encodings, point_fold,
    ristretto_mul, CompressedRistretto, RistrettoPoint,
};
use crate::scalar::{all_canonical, scalar_values, Scalar};
use crate::secret_sharing::{share_column, shuffle_indices, lemma_same_members};
use crate::utils::{batch_decompress_ristretto_points, decoded, first_invalid};
use rand::{CryptoRng, RngCore};
use vstd::prelude::*;

verus! {

/// Whether the share and blinding value of the party with the given index,
/// counted from one, fit the commitments to the coefficients: whether
/// `blind * g0 + sum_k share[k] * g[k]` is the commitments evaluated at the
/// index.
pub open spec fn share_accepted(
    commitments: Seq<RistrettoPoint>,
    g: Seq<RistrettoPoint>,
    g0: Seq<u8>,
    share: Seq<Scalar>,
    blind: Scalar,
    index: int,
) -> bool {
    point_fold(
        ristretto_mul(blind@ % order(), g0),
        scalar_values(share),
        point_encodings(g),
        paired(g.len(), share.len()),
    ) == evaluated_commitment_from_first(commitments, index)
}

/// The positions of the shares that fit the commitments, in rising order.
pub open spec fn accepted_shares(
    commitments: Seq<RistrettoPoint>,
    g: Seq<RistrettoPoint>,
    g0: Seq<u8>,
    shares: Seq<(Vec<Scalar>, Scalar)>,
    m: nat,
) -> Seq<usize> {
    passing_indices(
        m,
        |i: int| share_accepted(commitments, g, g0, shares[i].0@, shares[i].1, i + 1),
    )
}

/// `q` pairs each of the first `t + 1` entries of `chosen`, counted from one,
/// with a copy of its share.
pub open spec fn is_qualified_from(
    q: Seq<(usize, Vec<Scalar>)>,
    chosen: Seq<usize>,
    shares: Seq<(Vec<Scalar>, Scalar)>,
    t: nat,
) -> bool {
    &&& q.len() == t + 1
    &&& forall|i: int|
        0 <= i <= t ==> (#[trigger] q[i]).0 == chosen[i] + 1 && q[i].1@
            == shares[chosen[i] as int].0@
}

/// A party, with what it has been given so far.
#[derive(Debug)]
pub struct Party {
    pub g: Vec<RistrettoPoint>,
    pub g0: RistrettoPoint,
    pub private_key: Scalar,
    pub public_key: (CompressedRistretto, RistrettoPoint),
    pub index: usize,
    pub n: usize,
    pub t: usize,
    pub public_keys: Option<Vec<RistrettoPoint>>,
    pub dealer_proof: Option<(Vec<CompressedRistretto>, Vec<RistrettoPoint>)>,
    pub validated_shares: Vec<usize>,
    pub share: Option<(Vec<Scalar>, Scalar)>,
    pub d: Option<Scalar>,
    pub shares: Option<Vec<(Vec<Scalar>, Scalar)>>,
    pub qualified_set: Option<Vec<(usize, Vec<Scalar>)>>,
}

impl Party {
    /// The parameters are an honest-majority set, the points held are group
    /// elements, and what was ingested has the sizes that the parameters ask
    /// for.
    pub open spec fn wf(&self) -> bool {
        &&& valid_parameters(self.n, self.t, self.index)
        &&& self.public_key.1.wf()
        &&& self.public_key.0@ == self.public_key.1@
        &&& all_valid(self.g@)
        &&& self.g0.wf()
        &&& (self.dealer_proof matches Some(proof) ==> proof.0.len() == self.t + 1 && decoded(
            proof.0@,
            proof.1@,
        ))
        &&& (self.shares matches Some(s) ==> s.len() == self.n)
        &&& forall|i: int|
            0 <= i < self.validated_shares.len() ==> self.validated_shares[i] < self.n
    }

    /// The two parties have the same keys, parameters and index.
    pub open spec fn same_identity(&self, other: &Party) -> bool {
        &&& self.private_key == other.private_key
        &&& self.public_key == other.public_key
        &&& self.index == other.index
        &&& self.n == other.n
        &&& self.t == other.t
        &&& self.g == other.g
        &&& self.g0 == other.g0
    }

    /// The party is as it is made: nothing ingested, and the public key is
    /// the generator multiplied by the private key.
    pub open spec fn is_fresh(
        &self,
        generator: &RistrettoPoint,
        g: Vec<RistrettoPoint>,
        g0: RistrettoPoint,
        private_key: Scalar,
        n: usize,
        t: usize,
        index: usize,
    ) -> bool {
        &&& self.wf()
        &&& self.private_key == private_key
        &&& self.public_key.1@ == ristretto_mul(private_key@ % order(), generator@)
        &&& self.index == index
        &&& self.n == n
        &&& self.t == t
        &&& self.g == g
        &&& self.g0 == g0
        &&& self.public_keys is None
        &&& self.dealer_proof is None
        &&& self.validated_shares@ == Seq::<usize>::empty()
        &&& self.share is None
        &&& self.d is None
        &&& self.shares is None
        &&& self.qualified_set is None
    }

    /// A party with a freshly drawn private key; fails where `(n, t, index)`
    /// is no honest-majority parameter set.
    pub fn new<R: CryptoRng + RngCore>(
        generator: &RistrettoPoint,
        g: Vec<RistrettoPoint>,
        g0: RistrettoPoint,
        rng: &mut R,
        n: usize,
        t: usize,
        index: usize,
    ) -> (r: Result<Self, Error>)
        requires
            generator.wf(),
            all_valid(g@),
            g0.wf(),
        ensures
            !valid_parameters(n, t, index) ==> r == Err::<Self, Error>(
                Error::InvalidParameterSet(n, t, index),
            ),
            valid_parameters(n, t, index) ==> r is Ok,
            r matches Ok(p) ==> p.is_fresh(generator, g, g0, p.private_key, n, t, index)
                && p.private_key.wf(),
    {
        let private_key = random_scalar(rng);
        Party::from_private_key(generator, g, g0, private_key, n, t, index)
    }

    /// A party with the given private key; fails where `(n, t, index)` is no
    /// honest-majority parameter set.
    pub fn from_private_key(
        generator: &RistrettoPoint,
        g: Vec<RistrettoPoint>,
        g0: RistrettoPoint,
        private_key: Scalar,
        n: usize,
        t: usize,
        index: usize,
    ) -> (r: Result<Self, Error>)
        requires
            generator.wf(),
            all_valid(g@),
            g0.wf(),
        ensures
            !valid_parameters(n, t, index) ==> r == Err::<Self, Error>(
                Error::InvalidParameterSet(n, t, index),
            ),
            valid_parameters(n, t, index) ==> r is Ok,
            r matches Ok(p) ==> p.is_fresh(generator, g, g0, private_key, n, t, index),
    {
        let public_key = generator.mul(&private_key);
        if check_parameters(n, t, index) {
            Ok(
                Party {
                    g,
                    g0,
                    private_key,
                    public_key: (public_key.compress(), public_key),
                    index,
                    n,
                    t,
                    public_keys: None,
                    dealer_proof: None,
                    validated_shares: Vec::new(),
                    share: None,
                    d: None,
                    shares: None,
                    qualified_set: None,
                },
            )
        } else {
            Err(Error::InvalidParameterSet(n, t, index))
        }
    }

    /// Takes the party's own share, of as many scalars as there are
    /// generators, and its blinding value.
    pub fn ingest_share(&mut self, share: (&Vec<Scalar>, &Scalar))
        requires
            share.0.len() == old(self).g.len(),
        ensures
            final(self).share matches Some(s) && s.0@ == share.0@ && s.1 == *share.1,
            final(self).same_identity(old(self)),
            final(self).public_keys == old(self).public_keys,
            final(self).dealer_proof == old(self).dealer_proof,
            final(self).validated_shares == old(self).validated_shares,
            final(self).d == old(self).d,
            final(self).shares == old(self).shares,
            final(self).qualified_set == old(self).qualified_set,
            old(self).wf() ==> final(self).wf(),
    {
        self.share = Some((copy_scalars(share.0), *share.1));
    }

    /// Takes the public keys of the `n - 1` other parties, in order, and
    /// puts the party's own key at its place.
    pub fn ingest_public_keys(&mut self, public_keys: &[CompressedRistretto]) -> (r: Result<
        (),
        Error,
    >)
        requires
            old(self).wf(),
        ensures
            final(self).wf(),
            final(self).same_identity(old(self)),
            final(self).dealer_proof == old(self).dealer_proof,
            final(self).validated_shares == old(self).validated_shares,
            final(self).share == old(self).share,
            final(self).d == old(self).d,
            final(self).shares == old(self).shares,
            final(self).qualified_set == old(self).qualified_set,
            public_keys.len() != old(self).n - 1 ==> r == Err::<(), Error>(
                Error::CountMismatch(old(self).n, "parties", public_keys.len(), "public_keys"),
            ),
            public_keys.len() == old(self).n - 1 && first_invalid(public_keys@) < public_keys@.len()
                ==> r == Err::<(), Error>(
                Error::PointDecompressionError(public_keys[first_invalid(public_keys@)].bytes),
            ),
            public_keys.len() == old(self).n - 1 && first_invalid(public_keys@)
                == public_keys@.len() ==> r is Ok,
            r is Err ==> final(self).public_keys == old(self).public_keys,
            r is Ok ==> (final(self).public_keys matches Some(pks) && {
                &&& pks.len() == old(self).n
                &&& pks[old(self).index - 1] == old(self).public_key.1
                &&& forall|i: int|
                    0 <= i < old(self).index - 1 ==> (#[trigger] pks[i]).wf() && pks[i]@
                        == public_keys[i]@
                &&& forall|i: int|
                    old(self).index <= i < old(self).n ==> (#[trigger] pks[i]).wf() && pks[i]@
                        == public_keys[i - 1]@
            }),
    {
        match crate::utils::ingest_public_keys(self.n, &self.public_key.1, self.index, public_keys) {
            Ok(pks) => {
                self.public_keys = Some(pks);
                Ok(())
            },
            Err(x) => Err(x),
        }
    }

    /// Takes the dealer's commitments; fails where there are not `t + 1`,
    /// and then where one is no group element.
    pub fn ingest_dealer_proof(&mut self, proof: &Vec<CompressedRistretto>) -> (r: Result<(), Error>)
        requires
            old(self).wf(),
        ensures
            final(self).wf(),
            final(self).same_identity(old(self)),
            final(self).public_keys == old(self).public_keys,
            final(self).validated_shares == old(self).validated_shares,
            final(self).share == old(self).share,
            final(self).d == old(self).d,
            final(self).shares == old(self).shares,
            final(self).qualified_set == old(self).qualified_set,
            proof.len() != old(self).t + 1 ==> r == Err::<(), Error>(
                Error::InvalidProof(
                    ProofDefect::CommitmentCount {
                        len: proof.len(),
                        expected: (old(self).t + 1) as usize,
                    },
                ),
            ),
            proof.len() == old(self).t + 1 && first_invalid(proof@) < proof@.len() ==> r == Err::<
                (),
                Error,
            >(Error::PointDecompressionError(proof[first_invalid(proof@)].bytes)),
            proof.len() == old(self).t + 1 && first_invalid(proof@) == proof@.len() ==> r is Ok,
            r is Err ==> final(self).dealer_proof == old(self).dealer_proof,
            r is Ok ==> (final(self).dealer_proof matches Some(held) && held.0@ == proof@),
    {
        if proof.len() != self.t + 1 {
            Err(
                Error::InvalidProof(
                    ProofDefect::CommitmentCount { len: proof.len(), expected: self.t + 1 },
                ),
            )
        } else {
            match batch_decompress_ristretto_points(proof.as_slice()) {
                Ok(decompressed_c_vals) => {
                    self.dealer_proof = Some((copy_encodings(proof), decompressed_c_vals));
                    Ok(())
                },
                Err(e) => Err(e),
            }
        }
    }

    /// Checks the party's own share against the commitments. Fails where the
    /// commitments or the share have not been ingested.
    pub fn verify_share(&self) -> (r: Result<bool, Error>)
        requires
            self.wf(),
        ensures
            self.dealer_proof is None ==> r == Err::<bool, Error>(
                Error::UninitializedValue("party.dealer_proof"),
            ),
            self.dealer_proof is Some && self.share is None ==> r == Err::<bool, Error>(
                Error::UninitializedValue("party.share"),
            ),
            (self.dealer_proof, self.share) matches (Some(proof), Some(share)) ==> r == Ok::<
                bool,
                Error,
            >(share_accepted(proof.1@, self.g@, self.g0@, share.0@, share.1, self.index as int)),
    {
        match &self.dealer_proof {
            Some((_, cvals)) => match &self.share {
                Some((fi, ri)) => {
                    let a = fold_points(self.g0.mul(ri), fi.as_slice(), self.g.as_slice());
                    let b = evaluate_commitment_from_first(cvals, self.index);
                    Ok(a.equals(&b))
                },
                None => Err(Error::UninitializedValue("party.share")),
            },
            None => Err(Error::UninitializedValue("party.dealer_proof")),
        }
    }

    /// Checks all the shares against the commitments, each at the index of
    /// its party, and records the positions of those that fit; the result
    /// says whether more than `t` did. Fails where the commitments or the
    /// shares have not been ingested.
    pub fn verify_shares(&mut self) -> (r: Result<bool, Error>)
        requires
            old(self).wf(),
        ensures
            final(self).wf(),
            final(self).same_identity(old(self)),
            final(self).public_keys == old(self).public_keys,
            final(self).dealer_proof == old(self).dealer_proof,
            final(self).share == old(self).share,
            final(self).d == old(self).d,
            final(self).shares == old(self).shares,
            final(self).qualified_set == old(self).qualified_set,
            old(self).dealer_proof is None ==> r == Err::<bool, Error>(
                Error::UninitializedValue("party.dealer_proof"),
            ),
            old(self).dealer_proof is Some && old(self).shares is None ==> r == Err::<bool, Error>(
                Error::UninitializedValue("party.share"),
            ),
            r is Err ==> final(self).validated_shares == old(self).validated_shares,
            (old(self).dealer_proof, old(self).shares) matches (Some(proof), Some(shares)) ==> {
                &&& final(self).validated_shares@ == accepted_shares(
                    proof.1@,
                    old(self).g@,
                    old(self).g0@,
                    shares@,
                    old(self).n as nat,
                )
                &&& r == Ok::<bool, Error>(final(self).validated_shares@.len() > old(self).t)
            },
    {
        let n = self.n;
        let found: Result<Vec<usize>, Error> = match &self.dealer_proof {
            Some((compressed, cvals)) => match &self.shares {
                Some(shares) => {
                    let mut validated: Vec<usize> = Vec::new();
                    let mut i: usize = 0;
                    while i < n
                        invariant
                            i <= n,
                            n == self.n,
                            all_valid(self.g@),
                            self.g0.wf(),
                            decoded(compressed@, cvals@),
                            cvals.len() >= 1,
                            shares.len() == n,
                            validated@ == accepted_shares(
                                cvals@,
                                self.g@,
                                self.g0@,
                                shares@,
                                i as nat,
                            ),
                        decreases n - i,
                    {
                        let a = fold_points(
                            self.g0.mul(&shares[i].1),
                            shares[i].0.as_slice(),
                            self.g.as_slice(),
                        );
                        let b = evaluate_commitment_from_first(cvals, i + 1);
                        if a.equals(&b) {
                            validated.push(i);
                        }
                        i += 1;
                    }
                    proof {
                        lemma_passing_indices(
                            n as nat,
                            |i: int|
                                share_accepted(
                                    cvals@,
                                    self.g@,
                                    self.g0@,
                                    shares@[i].0@,
                                    shares@[i].1,
                                    i + 1,
                                ),
                        );
                    }
                    Ok(validated)
                },
                None => Err(Error::UninitializedValue("party.share")),
            },
            None => Err(Error::UninitializedValue("party.dealer_proof")),
        };
        match found {
            Ok(validated) => {
                self.validated_shares = validated;
                Ok(self.validated_shares.len() > self.t)
            },
            Err(e) => Err(e),
        }
    }

    /// Takes the shares and blinding values of all `n` parties; fails where
    /// there are not `n` of either.
    pub fn ingest_shares(&mut self, shares: (&Vec<Vec<Scalar>>, &Vec<Scalar>)) -> (r: Result<
        (),
        Error,
    >)
        requires
            old(self).wf(),
        ensures
            final(self).wf(),
            final(self).same_identity(old(self)),
            final(self).public_keys == old(self).public_keys,
            final(self).dealer_proof == old(self).dealer_proof,
            final(self).validated_shares == old(self).validated_shares,
            final(self).share == old(self).share,
            final(self).d == old(self).d,
            final(self).qualified_set == old(self).qualified_set,
            !(shares.0.len() == old(self).n && shares.1.len() == old(self).n) ==> r == Err::<
                (),
                Error,
            >(Error::CountMismatch(old(self).n, "parties", shares.0.len(), "ingestable shares"))
                && final(self).shares == old(self).shares,
            shares.0.len() == old(self).n && shares.1.len() == old(self).n ==> r is Ok && (final(self).shares matches Some(held) && zipped(held@, shares.0@, shares.1@)),
    {
        if shares.0.len() == self.n && shares.1.len() == self.n {
            let mut held: Vec<(Vec<Scalar>, Scalar)> = Vec::new();
            let mut i: usize = 0;
            while i < shares.0.len()
                invariant
                    i <= shares.0.len(),
                    shares.0.len() == shares.1.len(),
                    held.len() == i,
                    forall|q: int|
                        0 <= q < i ==> (#[trigger] held[q]).0@ == shares.0[q]@ && held[q].1
                            == shares.1[q],
                decreases shares.0.len() - i,
            {
                held.push((copy_scalars(&shares.0[i]), shares.1[i]));
                i += 1;
            }
            self.shares = Some(held);
            Ok(())
        } else {
            Err(Error::CountMismatch(self.n, "parties", shares.0.len(), "ingestable shares"))
        }
    }

    /// Chooses the qualified set: `t + 1` of the validated shares, by a
    /// shuffle. Fails where the shares have not been ingested, and where no
    /// more than `t` are validated.
    pub fn select_qualified_set<R: CryptoRng + RngCore>(&mut self, rng: &mut R) -> (r: Result<
        (),
        Error,
    >)
        requires
            old(self).wf(),
        ensures
            final(self).wf(),
            final(self).same_identity(old(self)),
            final(self).public_keys == old(self).public_keys,
            final(self).dealer_proof == old(self).dealer_proof,
            final(self).validated_shares == old(self).validated_shares,
            final(self).share == old(self).share,
            final(self).d == old(self).d,
            final(self).shares == old(self).shares,
            old(self).shares is None ==> r == Err::<(), Error>(
                Error::UninitializedValue("party.decrypted_shares"),
            ),
            old(self).shares is Some && old(self).validated_shares.len() <= old(self).t ==> r
                == Err::<(), Error>(
                Error::InsufficientShares(old(self).validated_shares.len(), old(self).t),
            ),
            old(self).shares is Some && old(self).validated_shares.len() > old(self).t ==> r
                is Ok,
            r is Err ==> final(self).qualified_set == old(self).qualified_set,
            r is Ok ==> (final(self).qualified_set matches Some(q) && exists|chosen: Seq<usize>|
                chosen.to_multiset() == old(self).validated_shares@.to_multiset()
                    && #[trigger] is_qualified_from(
                    q@,
                    chosen,
                    old(self).shares->Some_0@,
                    old(self).t as nat,
                )),
    {
        let t = self.t;
        let found: Result<Vec<(usize, Vec<Scalar>)>, Error> = match &self.shares {
            Some(shares) => {
                if self.validated_shares.len() > t {
                    let mut tmp = self.validated_shares.clone();
                    assert(tmp@ =~= self.validated_shares@);
                    shuffle_indices(rng, &mut tmp);
                    proof {
                        lemma_same_members(tmp@, self.validated_shares@);
                    }
                    let mut out: Vec<(usize, Vec<Scalar>)> = Vec::new();
                    let mut i: usize = 0;
                    while i <= t
                        invariant
                            i <= t + 1,
                            t < tmp.len(),
                            shares.len() == self.n,
                            forall|q: int| 0 <= q < tmp.len() ==> tmp[q] < self.n,
                            out.len() == i,
                            forall|q: int|
                                0 <= q < i ==> (#[trigger] out[q]).0 == tmp[q] + 1 && out[q].1@
                                    == shares[tmp[q] as int].0@,
                        decreases t + 1 - i,
                    {
                        let x = tmp[i];
                        out.push((x + 1, copy_scalars(&shares[x].0)));
                        i += 1;
                    }
                    assert(is_qualified_from(out@, tmp@, shares@, t as nat));
                    Ok(out)
                } else {
                    Err(Error::InsufficientShares(self.validated_shares.len(), t))
                }
            },
            None => Err(Error::UninitializedValue("party.decrypted_shares")),
        };
        match found {
            Ok(q) => {
                let ghost chosen = choose|chosen: Seq<usize>|
                    chosen.to_multiset() == self.validated_shares@.to_multiset()
                        && #[trigger] is_qualified_from(
                        q@,
                        chosen,
                        self.shares->Some_0@,
                        self.t as nat,
                    );
                self.qualified_set = Some(q);
                assert(is_qualified_from(
                    self.qualified_set->Some_0@,
                    chosen,
                    self.shares->Some_0@,
                    self.t as nat,
                ));
                return Ok(());
            },
            Err(e) => {
                return Err(e);
            },
        }
    }

    /// The secrets from the qualified set and its Lagrange coefficients:
    /// component by component, the sum of `lambdas[i] * share_i[k]`. Fails
    /// where no qualified set has been chosen.
    pub fn reconstruct_secrets(&self, lambdas: &Vec<Scalar>) -> (r: Result<Vec<Scalar>, Error>)
        requires
            self.qualified_set matches Some(q) ==> q.len() >= 1 && lambdas.len() >= 1 && forall|
                i: int,
            |
                0 <= i < q.len() ==> (#[trigger] q[i]).1.len() >= q[0].1.len(),
        ensures
            self.qualified_set is None ==> r == Err::<Vec<Scalar>, Error>(
                Error::UninitializedValue("party.qualified_set"),
            ),
            self.qualified_set is Some ==> r is Ok,
            (self.qualified_set, r) matches (Some(q), Ok(v)) ==> {
                &&& v.len() == q[0].1.len()
                &&& all_canonical(v@)
                &&& forall|k: int|
                    0 <= k < v.len() ==> (#[trigger] v[k])@ == dot(
                        scalar_values(lambdas@),
                        share_column(q@, k),
                    ) % order()
            },
    {
        crate::secret_sharing::reconstruct_secrets(&self.qualified_set, lambdas)
    }
}

/// The `n` parties of a session, each with a freshly drawn private key.
pub fn generate_parties<R: CryptoRng + RngCore>(
    generator: &RistrettoPoint,
    g: &Vec<RistrettoPoint>,
    g0: &RistrettoPoint,
    rng: &mut R,
    n: usize,
    t: usize,
) -> (r: Vec<Party>)
    requires
        generator.wf(),
        all_valid(g@),
        g0.wf(),
        t < n,
        t == (n - 1) / 2,
    ensures
        r.len() == n,
        forall|i: int|
            0 <= i < n ==> (#[trigger] r[i]).wf() && r[i].index == i + 1 && r[i].n == n && r[i].t
                == t && r[i].private_key.wf() && r[i].public_key.1@ == ristretto_mul(
                r[i].private_key@ % order(),
                generator@,
            ) && r[i].g@ == g@ && r[i].g0 == *g0,
{
    let mut out: Vec<Party> = Vec::new();
    let mut i: usize = 0;
    while i < n
        invariant
            i <= n,
            generator.wf(),
            all_valid(g@),
            g0.wf(),
            t < n,
            t == (n - 1) / 2,
            out.len() == i,
            forall|q: int|
                0 <= q < i ==> (#[trigger] out[q]).wf() && out[q].index == q + 1 && out[q].n == n
                    && out[q].t == t && out[q].private_key.wf() && out[q].public_key.1@
                    == ristretto_mul(out[q].private_key@ % order(), generator@) && out[q].g@ == g@ && out[q].g0 == *g0,
        decreases n - i,
    {
        let g_own = copy_points(g);
        let g0_own = *g0;
        let p = Party::new(generator, g_own, g0_own, rng, n, t, i + 1).unwrap();
        out.push(p);
        i += 1;
    }
    out
}

} // verus!
