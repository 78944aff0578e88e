//! A party of the protocol with hash commitments for a single secret.

use crate::commit::{
    check_hash_commitment, check_parameters, copy_digests, copy_scalars, hash_commitment,
    lemma_passing_indices, passing_indices, valid_parameters,
};
use crate::error::{Error, ProofDefect};
use crate::field::{congruent, dot, lemma_reduced, order};
use crate::polynomial::Polynomial;
use crate::random::random_scalar;
use crate::ristretto::{ristretto_mul, CompressedRistretto, RistrettoPoint};
use crate::scalar::{scalar_of, scalar_values, Scalar};
use crate::secret_sharing::{is_qualified_from, share_values};
use crate::transcript::{zeroed, Transcript};
use crate::utils::{challenge, compute_d_from_hash_commitments, concat_digests, first_invalid};
use rand::{CryptoRng, RngCore};
use vstd::prelude::*;

verus! {

/// Whether the commitment of the party with the given index, counted from
/// one, is the one to `share` and to the blinding value that the proof
/// `(c, z)` leaves for it, with the row of the index in `x_pows` and the
/// challenge from a transcript that had absorbed `before`.
pub open spec fn share_accepted(
    c: Seq<[u8; 64]>,
    z: Seq<int>,
    x_pows: Seq<Vec<Scalar>>,
    share: Scalar,
    index: int,
    before: Seq<u8>,
) -> bool {
    c[index - 1]@ == hash_commitment(
        seq![share],
        scalar_of(
            dot(z, scalar_values(x_pows[index - 1]@)) - dot(
                seq![share@],
                seq![challenge(before + concat_digests(c))],
            ),
        ),
    )
}

/// The positions below `m` of the shares that the proof accepts, in rising
/// order.
pub open spec fn accepted_shares(
    c: Seq<[u8; 64]>,
    z: Seq<int>,
    x_pows: Seq<Vec<Scalar>>,
    shares: Seq<Scalar>,
    before: Seq<u8>,
    m: nat,
) -> Seq<usize> {
    passing_indices(m, |i: int| share_accepted(c, z, x_pows, shares[i], i + 1, before))
}

/// A party, with what it has been given so far.
#[derive(Debug)]
pub struct Party {
    pub private_key: Scalar,
    pub public_key: (CompressedRistretto, RistrettoPoint),
    pub index: usize,
    pub n: usize,
    pub t: usize,
    pub public_keys: Option<Vec<RistrettoPoint>>,
    pub dealer_proof: Option<(Vec<[u8; 64]>, Polynomial)>,
    pub validated_shares: Vec<usize>,
    pub share: Option<Scalar>,
    pub d: Option<Scalar>,
    pub shares: Option<Vec<Scalar>>,
    pub qualified_set: Option<Vec<(usize, Scalar)>>,
}

impl Party {
    /// The parameters are an honest-majority set, the public key is a group
    /// element, and what was ingested has the sizes that the parameters ask
    /// for.
    pub open spec fn wf(&self) -> bool {
        &&& valid_parameters(self.n, self.t, self.index)
        &&& self.public_key.1.wf()
        &&& self.public_key.0@ == self.public_key.1@
        &&& (self.dealer_proof matches Some(proof) ==> proof.0.len() == self.n
            && proof.1.coefficients.len() == self.t + 1)
        &&& (self.shares matches Some(s) ==> s.len() == self.n)
        &&& forall|i: int|
            0 <= i < self.validated_shares.len() ==> self.validated_shares[i] < self.n
    }

    /// The two parties have the same keys, parameters and index.
    pub open spec fn same_identity(&self, other: &Party) -> bool {
        &&& self.private_key == other.private_key
        &&& self.public_key == other.public_key
        &&& self.index == other.index
        &&& self.n == other.n
        &&& self.t == other.t
    }

    /// The party is as it is made: nothing ingested, and the public key is
    /// the generator multiplied by the private key.
    pub open spec fn is_fresh(
        &self,
        g: &RistrettoPoint,
        private_key: Scalar,
        n: usize,
        t: usize,
        index: usize,
    ) -> bool {
        &&& self.wf()
        &&& self.private_key == private_key
        &&& self.public_key.1@ == ristretto_mul(private_key@ % order(), g@)
        &&& self.index == index
        &&& self.n == n
        &&& self.t == t
        &&& self.public_keys is None
        &&& self.dealer_proof is None
        &&& self.validated_shares@ == Seq::<usize>::empty()
        &&& self.share is None
        &&& self.d is None
        &&& self.shares is None
        &&& self.qualified_set is None
    }

    /// A party with a freshly drawn private key; fails where `(n, t, index)`
    /// is no honest-majority parameter set.
    pub fn new<R: CryptoRng + RngCore>(
        g: &RistrettoPoint,
        rng: &mut R,
        n: usize,
        t: usize,
        index: usize,
    ) -> (r: Result<Self, Error>)
        requires
            g.wf(),
        ensures
            !valid_parameters(n, t, index) ==> r == Err::<Self, Error>(
                Error::InvalidParameterSet(n, t, index),
            ),
            valid_parameters(n, t, index) ==> r is Ok,
            r matches Ok(p) ==> p.is_fresh(g, p.private_key, n, t, index) && p.private_key.wf(),
    {
        let private_key = random_scalar(rng);
        Party::from_private_key(g, private_key, n, t, index)
    }

    /// A party with the given private key; fails where `(n, t, index)` is no
    /// honest-majority parameter set.
    pub fn from_private_key(
        g: &RistrettoPoint,
        private_key: Scalar,
        n: usize,
        t: usize,
        index: usize,
    ) -> (r: Result<Self, Error>)
        requires
            g.wf(),
        ensures
            !valid_parameters(n, t, index) ==> r == Err::<Self, Error>(
                Error::InvalidParameterSet(n, t, index),
            ),
            valid_parameters(n, t, index) ==> r is Ok,
            r matches Ok(p) ==> p.is_fresh(g, private_key, n, t, index),
    {
        let public_key = g.mul(&private_key);
        if check_parameters(n, t, index) {
            Ok(
                Party {
                    private_key,
                    public_key: (public_key.compress(), public_key),
                    index,
                    n,
                    t,
                    dealer_proof: None,
                    share: None,
                    public_keys: None,
                    validated_shares: Vec::new(),
                    d: None,
                    shares: None,
                    qualified_set: None,
                },
            )
        } else {
            Err(Error::InvalidParameterSet(n, t, index))
        }
    }

    /// Takes the party's own share.
    pub fn ingest_share(&mut self, share: &Scalar)
        ensures
            final(self).share == Some(*share),
            final(self).same_identity(old(self)),
            final(self).public_keys == old(self).public_keys,
            final(self).dealer_proof == old(self).dealer_proof,
            final(self).validated_shares == old(self).validated_shares,
            final(self).d == old(self).d,
            final(self).shares == old(self).shares,
            final(self).qualified_set == old(self).qualified_set,
            old(self).wf() ==> final(self).wf(),
    {
        self.share = Some(*share);
    }

    /// Takes the public keys of the `n - 1` other parties, in order, and
    /// puts the party's own key at its place.
    pub fn ingest_public_keys(&mut self, public_keys: &[CompressedRistretto]) -> (r: Result<
        (),
        Error,
    >)
        requires
            old(self).wf(),
        ensures
            final(self).wf(),
            final(self).same_identity(old(self)),
            final(self).dealer_proof == old(self).dealer_proof,
            final(self).validated_shares == old(self).validated_shares,
            final(self).share == old(self).share,
            final(self).d == old(self).d,
            final(self).shares == old(self).shares,
            final(self).qualified_set == old(self).qualified_set,
            public_keys.len() != old(self).n - 1 ==> r == Err::<(), Error>(
                Error::CountMismatch(old(self).n, "parties", public_keys.len(), "public_keys"),
            ),
            public_keys.len() == old(self).n - 1 && first_invalid(public_keys@) < public_keys@.len()
                ==> r == Err::<(), Error>(
                Error::PointDecompressionError(public_keys[first_invalid(public_keys@)].bytes),
            ),
            public_keys.len() == old(self).n - 1 && first_invalid(public_keys@)
                == public_keys@.len() ==> r is Ok,
            r is Err ==> final(self).public_keys == old(self).public_keys,
            r is Ok ==> (final(self).public_keys matches Some(pks) && {
                &&& pks.len() == old(self).n
                &&& pks[old(self).index - 1] == old(self).public_key.1
                &&& forall|i: int|
                    0 <= i < old(self).index - 1 ==> (#[trigger] pks[i]).wf() && pks[i]@
                        == public_keys[i]@
                &&& forall|i: int|
                    old(self).index <= i < old(self).n ==> (#[trigger] pks[i]).wf() && pks[i]@
                        == public_keys[i - 1]@
            }),
    {
        match crate::utils::ingest_public_keys(self.n, &self.public_key.1, self.index, public_keys) {
            Ok(pks) => {
                self.public_keys = Some(pks);
                Ok(())
            },
            Err(x) => Err(x),
        }
    }

    /// Takes the dealer's proof; fails where the polynomial has not `t + 1`
    /// coefficients, and then where there are not `n` commitments.
    pub fn ingest_dealer_proof(&mut self, proof: (&Vec<[u8; 64]>, &Polynomial)) -> (r: Result<
        (),
        Error,
    >)
        requires
            old(self).wf(),
        ensures
            final(self).wf(),
            final(self).same_identity(old(self)),
            final(self).public_keys == old(self).public_keys,
            final(self).validated_shares == old(self).validated_shares,
            final(self).share == old(self).share,
            final(self).d == old(self).d,
            final(self).shares == old(self).shares,
            final(self).qualified_set == old(self).qualified_set,
            proof.1.coefficients.len() != old(self).t + 1 ==> r == Err::<(), Error>(
                Error::InvalidProof(
                    ProofDefect::PolynomialLength {
                        len: proof.1.coefficients.len(),
                        t: old(self).t,
                    },
                ),
            ),
            proof.1.coefficients.len() == old(self).t + 1 && proof.0.len() != old(self).n ==> r
                == Err::<(), Error>(
                Error::InvalidProof(
                    ProofDefect::CommitmentCount { len: proof.0.len(), expected: old(self).n },
                ),
            ),
            proof.1.coefficients.len() == old(self).t + 1 && proof.0.len() == old(self).n ==> r
                is Ok,
            r is Err ==> final(self).dealer_proof == old(self).dealer_proof,
            r is Ok ==> (final(self).dealer_proof matches Some(held) && held.0@ == proof.0@
                && held.1.coefficients@ == proof.1.coefficients@),
    {
        if proof.1.len() != self.t + 1 {
            Err(
                Error::InvalidProof(ProofDefect::PolynomialLength { len: proof.1.len(), t: self.t }),
            )
        } else if proof.0.len() != self.n {
            Err(
                Error::InvalidProof(
                    ProofDefect::CommitmentCount { len: proof.0.len(), expected: self.n },
                ),
            )
        } else {
            self.dealer_proof = Some((copy_digests(proof.0), proof.1.clone()));
            Ok(())
        }
    }

    /// Checks the party's own share against the proof. Fails where the proof
    /// or the share has not been ingested.
    pub fn verify_share(
        &self,
        hasher: &mut Transcript,
        buf: &mut [u8; 64],
        x_pows: &Vec<Vec<Scalar>>,
    ) -> (r: Result<bool, Error>)
        requires
            self.wf(),
            self.n <= x_pows.len(),
        ensures
            self.dealer_proof is None ==> r == Err::<bool, Error>(
                Error::UninitializedValue("party.dealer_proof"),
            ),
            self.dealer_proof is Some && self.share is None ==> r == Err::<bool, Error>(
                Error::UninitializedValue("party.share"),
            ),
            r is Err ==> final(hasher)@ == old(hasher)@ && final(buf)@ == old(buf)@,
            (self.dealer_proof, self.share) matches (Some(proof), Some(share)) ==> {
                &&& r == Ok::<bool, Error>(
                    share_accepted(
                        proof.0@,
                        proof.1@,
                        x_pows@,
                        share,
                        self.index as int,
                        old(hasher)@,
                    ),
                )
                &&& final(hasher)@ == Seq::<u8>::empty()
                &&& final(buf)@ == zeroed()
            },
    {
        match &self.dealer_proof {
            Some((c_vals, z)) => match &self.share {
                Some(fi) => {
                    let d = compute_d_from_hash_commitments(hasher, buf, c_vals.as_slice());
                    let z_eval = z.evaluate_precomp(x_pows, self.index);
                    let share = vec![*fi];
                    let d_vals = vec![d];
                    proof {
                        assert(share@ =~= seq![*fi]);
                        assert(scalar_values(share@) =~= seq![fi@]);
                        assert(scalar_values(d_vals@) =~= seq![d@]);
                        lemma_reduced(dot(z@, scalar_values(x_pows[self.index - 1]@)));
                        assert(congruent(
                            dot(z@, scalar_values(x_pows[self.index - 1]@)),
                            z_eval@,
                        ));
                    }
                    let check_bit = check_hash_commitment(
                        &c_vals[self.index - 1],
                        &z_eval,
                        share.as_slice(),
                        d_vals.as_slice(),
                        hasher,
                        buf,
                    );
                    Ok(check_bit)
                },
                None => Err(Error::UninitializedValue("party.share")),
            },
            None => Err(Error::UninitializedValue("party.dealer_proof")),
        }
    }

    /// Checks all the shares against the proof and records the positions of
    /// those that pass; the result says whether more than `t` did. Fails where
    /// the proof or the shares have not been ingested.
    pub fn verify_shares(
        &mut self,
        hasher: &mut Transcript,
        buf: &mut [u8; 64],
        x_pows: &Vec<Vec<Scalar>>,
    ) -> (r: Result<bool, Error>)
        requires
            old(self).wf(),
            old(self).n <= x_pows.len(),
        ensures
            final(self).wf(),
            final(self).same_identity(old(self)),
            final(self).public_keys == old(self).public_keys,
            final(self).dealer_proof == old(self).dealer_proof,
            final(self).share == old(self).share,
            final(self).d == old(self).d,
            final(self).shares == old(self).shares,
            final(self).qualified_set == old(self).qualified_set,
            old(self).dealer_proof is None ==> r == Err::<bool, Error>(
                Error::UninitializedValue("party.dealer_proof"),
            ),
            old(self).dealer_proof is Some && old(self).shares is None ==> r == Err::<bool, Error>(
                Error::UninitializedValue("party.share"),
            ),
            r is Err ==> final(hasher)@ == old(hasher)@ && final(buf)@ == old(buf)@,
            r is Err ==> final(self).validated_shares == old(self).validated_shares,
            (old(self).dealer_proof, old(self).shares) matches (Some(proof), Some(shares)) ==> {
                &&& final(self).validated_shares@ == accepted_shares(
                    proof.0@,
                    proof.1@,
                    x_pows@,
                    shares@,
                    old(hasher)@,
                    old(self).n as nat,
                )
                &&& r == Ok::<bool, Error>(final(self).validated_shares@.len() > old(self).t)
                &&& final(hasher)@ == Seq::<u8>::empty()
                &&& final(buf)@ == zeroed()
            },
    {
        let n = self.n;
        let found: Result<Vec<usize>, Error> = match &self.dealer_proof {
            Some((cvals, z)) => match &self.shares {
                Some(shares) => {
                    let ghost before = hasher@;
                    let d = compute_d_from_hash_commitments(hasher, buf, cvals.as_slice());
                    let z_evals = z.evaluate_range_precomp(x_pows, 1, n);
                    let d_vals = vec![d];
                    let mut l_hasher = Transcript::new();
                    let mut l_buf = [0u8; 64];
                    let mut validated: Vec<usize> = Vec::new();
                    let mut i: usize = 0;
                    while i < n
                        invariant
                            i <= n,
                            n == self.n,
                            n <= x_pows.len(),
                            cvals.len() == n,
                            shares.len() == n,
                            z_evals.len() == n,
                            l_hasher@ == Seq::<u8>::empty(),
                            d_vals@.len() == 1,
                            d_vals@[0] == d,
                            d@ == challenge(before + concat_digests(cvals@)),
                            forall|q: int|
                                1 <= q <= n ==> (#[trigger] z_evals[q - 1])@ == dot(
                                    z@,
                                    scalar_values(x_pows[q - 1]@),
                                ) % order(),
                            validated@ == accepted_shares(
                                cvals@,
                                z@,
                                x_pows@,
                                shares@,
                                before,
                                i as nat,
                            ),
                        decreases n - i,
                    {
                        let share = vec![shares[i]];
                        proof {
                            assert(share@ =~= seq![shares[i as int]]);
                            assert(scalar_values(share@) =~= seq![shares[i as int]@]);
                            assert(scalar_values(d_vals@) =~= seq![d@]);
                            assert(z_evals[i as int] == z_evals[(i + 1) - 1]);
                            lemma_reduced(dot(z@, scalar_values(x_pows[i as int]@)));
                            assert(congruent(
                                dot(z@, scalar_values(x_pows[i as int]@)),
                                z_evals[i as int]@,
                            ));
                        }
                        let check_bit = check_hash_commitment(
                            &cvals[i],
                            &z_evals[i],
                            share.as_slice(),
                            d_vals.as_slice(),
                            &mut l_hasher,
                            &mut l_buf,
                        );
                        proof {
                            assert(check_bit == share_accepted(
                                cvals@,
                                z@,
                                x_pows@,
                                shares[i as int],
                                i + 1,
                                before,
                            ));
                        }
                        if check_bit {
                            validated.push(i);
                        }
                        i += 1;
                    }
                    proof {
                        lemma_passing_indices(
                            n as nat,
                            |i: int| share_accepted(cvals@, z@, x_pows@, shares@[i], i + 1, before),
                        );
                    }
                    Ok(validated)
                },
                None => Err(Error::UninitializedValue("party.share")),
            },
            None => Err(Error::UninitializedValue("party.dealer_proof")),
        };
        match found {
            Ok(validated) => {
                self.validated_shares = validated;
                Ok(self.validated_shares.len() > self.t)
            },
            Err(e) => Err(e),
        }
    }

    /// Takes the shares of all `n` parties; fails where there are not `n`.
    pub fn ingest_shares(&mut self, shares: &Vec<Scalar>) -> (r: Result<(), Error>)
        requires
            old(self).wf(),
        ensures
            final(self).wf(),
            final(self).same_identity(old(self)),
            final(self).public_keys == old(self).public_keys,
            final(self).dealer_proof == old(self).dealer_proof,
            final(self).validated_shares == old(self).validated_shares,
            final(self).share == old(self).share,
            final(self).d == old(self).d,
            final(self).qualified_set == old(self).qualified_set,
            shares.len() != old(self).n ==> r == Err::<(), Error>(
                Error::CountMismatch(old(self).n, "parties", shares.len(), "ingestable shares"),
            ) && final(self).shares == old(self).shares,
            shares.len() == old(self).n ==> r is Ok && (final(self).shares matches Some(held)
                && held@ == shares@),
    {
        if shares.len() == self.n {
            self.shares = Some(copy_scalars(shares));
            Ok(())
        } else {
            Err(Error::CountMismatch(self.n, "parties", shares.len(), "ingestable shares"))
        }
    }

    /// Chooses the qualified set: `t + 1` of the validated shares, by a
    /// shuffle. Fails where the shares have not been ingested, and where no
    /// more than `t` are validated.
    pub fn select_qualified_set<R: CryptoRng + RngCore>(&mut self, rng: &mut R) -> (r: Result<
        (),
        Error,
    >)
        requires
            old(self).wf(),
        ensures
            final(self).wf(),
            final(self).same_identity(old(self)),
            final(self).public_keys == old(self).public_keys,
            final(self).dealer_proof == old(self).dealer_proof,
            final(self).validated_shares == old(self).validated_shares,
            final(self).share == old(self).share,
            final(self).d == old(self).d,
            final(self).shares == old(self).shares,
            old(self).shares is None ==> r == Err::<(), Error>(
                Error::UninitializedValue("party.decrypted_shares"),
            ),
            old(self).shares is Some && old(self).validated_shares.len() <= old(self).t ==> r
                == Err::<(), Error>(
                Error::InsufficientShares(old(self).validated_shares.len(), old(self).t),
            ),
            old(self).shares is Some && old(self).validated_shares.len() > old(self).t ==> r
                is Ok,
            r is Err ==> final(self).qualified_set == old(self).qualified_set,
            r is Ok ==> (final(self).qualified_set matches Some(q) && exists|chosen: Seq<usize>|
                chosen.to_multiset() == old(self).validated_shares@.to_multiset()
                    && #[trigger] is_qualified_from(
                    q@,
                    chosen,
                    old(self).shares->Some_0@,
                    old(self).t as nat,
                )),
    {
        if self.shares.is_none() {
            return Err(Error::UninitializedValue("party.decrypted_shares"));
        }
        match crate::secret_sharing::select_qualified_set(
            rng,
            self.t,
            &self.shares,
            &self.validated_shares,
        ) {
            Ok(q) => {
                let ghost chosen = choose|chosen: Seq<usize>|
                    chosen.to_multiset() == self.validated_shares@.to_multiset()
                        && #[trigger] is_qualified_from(
                        q@,
                        chosen,
                        self.shares->Some_0@,
                        self.t as nat,
                    );
                self.qualified_set = Some(q);
                assert(is_qualified_from(
                    self.qualified_set->Some_0@,
                    chosen,
                    self.shares->Some_0@,
                    self.t as nat,
                ));
                return Ok(());
            },
            Err(e) => {
                return Err(e);
            },
        }
    }

    /// The secret from the qualified set and its Lagrange coefficients: the
    /// sum of `lambdas[i] * share_i`. Fails where no qualified set has been
    /// chosen.
    pub fn reconstruct_secret(&self, lambdas: &Vec<Scalar>) -> (r: Result<Scalar, Error>)
        ensures
            self.qualified_set is None ==> r == Err::<Scalar, Error>(
                Error::UninitializedValue("party.qualified_set"),
            ),
            self.qualified_set is Some ==> r is Ok,
            (self.qualified_set, r) matches (Some(q), Ok(v)) ==> v.wf() && v@ == dot(
                scalar_values(lambdas@),
                share_values(q@),
            ) % order(),
    {
        crate::secret_sharing::reconstruct_secret(&self.qualified_set, lambdas)
    }
}

/// The `n` parties of a session, each with a freshly drawn private key.
pub fn generate_parties<R: CryptoRng + RngCore>(
    g: &RistrettoPoint,
    rng: &mut R,
    n: usize,
    t: usize,
) -> (r: Vec<Party>)
    requires
        g.wf(),
        t < n,
        t == (n - 1) / 2,
    ensures
        r.len() == n,
        forall|i: int|
            0 <= i < n ==> (#[trigger] r[i]).is_fresh(
                g,
                r[i].private_key,
                n,
                t,
                (i + 1) as usize,
            ) && r[i].private_key.wf(),
{
    let mut out: Vec<Party> = Vec::new();
    let mut i: usize = 0;
    while i < n
        invariant
            i <= n,
            g.wf(),
            t < n,
            t == (n - 1) / 2,
            out.len() == i,
            forall|q: int|
                0 <= q < i ==> (#[trigger] out[q]).is_fresh(
                    g,
                    out[q].private_key,
                    n,
                    t,
                    (q + 1) as usize,
                ) && out[q].private_key.wf(),
        decreases n - i,
    {
        let p = Party::new(g, rng, n, t, i + 1).unwrap();
        out.push(p);
        i += 1;
    }
    out
}

/// An honest dealer's shares pass. Where `(c, z)` is the proof for the
/// shares `evals` of the polynomial `f`, with a blinding polynomial of its
/// length, every party accepts its own share, whatever the rows of the
/// table hold.
pub proof fn lemma_honest_share_accepted(
    c: Seq<[u8; 64]>,
    z: Polynomial,
    blind: Seq<int>,
    f: Seq<int>,
    evals: Seq<Scalar>,
    x_pows: Seq<Vec<Scalar>>,
    before: Seq<u8>,
    n: nat,
    i: int,
)
    requires
        crate::pi_la::dealer::is_proof(c, z, blind, f, evals, x_pows, before),
        crate::pi_la::dealer::shares_of(evals, f, x_pows, n),
        f.len() == blind.len(),
        0 <= i < n,
    ensures
        share_accepted(c, z@, x_pows, evals[i], i + 1, before),
{
    let d = challenge(before + concat_digests(c));
    let row = scalar_values(x_pows[i as int]@);
    let fs = seq![f];
    let ds = seq![d];
    let shares = seq![evals[i]@];
    assert forall|k: int| 0 <= k < fs.len() implies crate::field::congruent(
        #[trigger] shares[k],
        dot(fs[k], row),
    ) by {
        lemma_reduced(dot(f, row));
    }
    crate::fused::lemma_unfused_dot(z@, blind, fs, ds, row, shares);
}

} // verus!
