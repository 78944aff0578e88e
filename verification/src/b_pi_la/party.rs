//! A party of the batched protocol with hash commitments.

use crate::commit::{
    challenge_powers, challenge_powers_from_digests, check_hash_commitment, check_parameters,
    copy_digests, copy_rows, copy_scalars, expected_blinding, hash_commitment,
    lemma_passing_indices, passing_indices, same_rows, valid_parameters,
};
use crate::error::{Error, ProofDefect};
use crate::field::{dot, lemma_reduced, order};
use crate::polynomial::{poly_eval, Polynomial};
use crate::random::random_scalar;
use crate::ristretto::{ristretto_mul, CompressedRistretto, RistrettoPoint};
use crate::scalar::{all_canonical, scalar_values, Scalar};
use crate::secret_sharing::{is_qualified_from, share_column};
use crate::transcript::{zeroed, Transcript};
use crate::utils::{challenge, concat_digests, first_invalid};
use rand::{CryptoRng, RngCore};
use vstd::prelude::*;

verus! {

/// Whether the commitment of the party with the given index, counted from
/// one, is the one to `share` and to the blinding value that the proof
/// `(c, z)` leaves for it, the challenge taken from a transcript that had
/// absorbed `before` and weighted by its first `k` powers.
pub open spec fn share_accepted(
    c: Seq<[u8; 64]>,
    z: Seq<int>,
    share: Seq<Scalar>,
    index: int,
    before: Seq<u8>,
    k: nat,
) -> bool {
    c[index - 1]@ == hash_commitment(
        share,
        expected_blinding(z, share, index, challenge(before + concat_digests(c)), k),
    )
}

/// The positions below `m` of the shares that the proof accepts, in rising
/// order.
pub open spec fn accepted_shares(
    c: Seq<[u8; 64]>,
    z: Seq<int>,
    shares: Seq<Vec<Scalar>>,
    before: Seq<u8>,
    m: nat,
) -> Seq<usize> {
    passing_indices(
        m,
        |i: int| share_accepted(c, z, shares[i]@, i + 1, before, shares[0]@.len()),
    )
}

/// A party, with what it has been given so far.
#[derive(Debug)]
pub struct Party {
    pub private_key: Scalar,
    pub public_key: (CompressedRistretto, RistrettoPoint),
    pub index: usize,
    pub n: usize,
    pub t: usize,
    pub public_keys: Option<Vec<RistrettoPoint>>,
    pub dealer_proof: Option<(Vec<[u8; 64]>, Polynomial)>,
    pub validated_shares: Vec<usize>,
    pub share: Option<Vec<Scalar>>,
    pub shares: Option<Vec<Vec<Scalar>>>,
    pub qualified_set: Option<Vec<(usize, Vec<Scalar>)>>,
}

impl Party {
    /// The parameters are an honest-majority set, the public key is a group
    /// element, and what was ingested has the sizes that the parameters ask
    /// for.
    pub open spec fn wf(&self) -> bool {
        &&& valid_parameters(self.n, self.t, self.index)
        &&& self.public_key.1.wf()
        &&& self.public_key.0@ == self.public_key.1@
        &&& (self.dealer_proof matches Some(proof) ==> proof.0.len() == self.n
            && proof.1.coefficients.len() == self.t + 1)
        &&& (self.shares matches Some(s) ==> s.len() == self.n)
        &&& forall|i: int|
            0 <= i < self.validated_shares.len() ==> self.validated_shares[i] < self.n
    }

    /// The two parties have the same keys, parameters and index.
    pub open spec fn same_identity(&self, other: &Party) -> bool {
        &&& self.private_key == other.private_key
        &&& self.public_key == other.public_key
        &&& self.index == other.index
        &&& self.n == other.n
        &&& self.t == other.t
    }

    /// A party with a freshly drawn private key; fails where `(n, t, index)`
    /// is no honest-majority parameter set.
    pub fn new<R: CryptoRng + RngCore>(
        g: &RistrettoPoint,
        rng: &mut R,
        n: usize,
        t: usize,
        index: usize,
    ) -> (r: Result<Self, Error>)
        requires
            g.wf(),
        ensures
            !valid_parameters(n, t, index) ==> r == Err::<Self, Error>(
                Error::InvalidParameterSet(n, t, index),
            ),
            valid_parameters(n, t, index) ==> r is Ok,
            r matches Ok(p) ==> p.is_fresh(g, p.private_key, n, t, index) && p.private_key.wf(),
    {
        let private_key = random_scalar(rng);
        Party::from_private_key(g, private_key, n, t, index)
    }

    /// The party is as it is made: nothing ingested, and the public key is
    /// the generator multiplied by the private key.
    pub open spec fn is_fresh(
        &self,
        g: &RistrettoPoint,
        private_key: Scalar,
        n: usize,
        t: usize,
        index: usize,
    ) -> bool {
        &&& self.wf()
        &&& self.private_key == private_key
        &&& self.public_key.1@ == ristretto_mul(private_key@ % order(), g@)
        &&& self.index == index
        &&& self.n == n
        &&& self.t == t
        &&& self.public_keys is None
        &&& self.dealer_proof is None
        &&& self.validated_shares@ == Seq::<usize>::empty()
        &&& self.share is None
        &&& self.shares is None
        &&& self.qualified_set is None
    }

    /// A party with the given private key; fails where `(n, t, index)` is no
    /// honest-majority parameter set.
    pub fn from_private_key(
        g: &RistrettoPoint,
        private_key: Scalar,
        n: usize,
        t: usize,
        index: usize,
    ) -> (r: Result<Self, Error>)
        requires
            g.wf(),
        ensures
            !valid_parameters(n, t, index) ==> r == Err::<Self, Error>(
                Error::InvalidParameterSet(n, t, index),
            ),
            valid_parameters(n, t, index) ==> r is Ok,
            r matches Ok(p) ==> p.is_fresh(g, private_key, n, t, index),
    {
        let public_key = g.mul(&private_key);
        if check_parameters(n, t, index) {
            Ok(
                Party {
                    private_key,
                    public_key: (public_key.compress(), public_key),
                    index,
                    n,
                    t,
                    dealer_proof: None,
                    share: None,
                    public_keys: None,
                    validated_shares: Vec::new(),
                    shares: None,
                    qualified_set: None,
                },
            )
        } else {
            Err(Error::InvalidParameterSet(n, t, index))
        }
    }

    /// Takes the party's own share.
    pub fn ingest_share(&mut self, share: &Vec<Scalar>)
        ensures
            final(self).share matches Some(s) && s@ == share@,
            final(self).same_identity(old(self)),
            final(self).public_keys == old(self).public_keys,
            final(self).dealer_proof == old(self).dealer_proof,
            final(self).validated_shares == old(self).validated_shares,
            final(self).shares == old(self).shares,
            final(self).qualified_set == old(self).qualified_set,
            old(self).wf() ==> final(self).wf(),
    {
        self.share = Some(copy_scalars(share));
    }

    /// Takes the public keys of the `n - 1` other parties, in order, and
    /// puts the party's own key at its place.
    pub fn ingest_public_keys(&mut self, public_keys: &[CompressedRistretto]) -> (r: Result<
        (),
        Error,
    >)
        requires
            old(self).wf(),
        ensures
            final(self).wf(),
            final(self).same_identity(old(self)),
            final(self).dealer_proof == old(self).dealer_proof,
            final(self).validated_shares == old(self).validated_shares,
            final(self).share == old(self).share,
            final(self).shares == old(self).shares,
            final(self).qualified_set == old(self).qualified_set,
            public_keys.len() != old(self).n - 1 ==> r == Err::<(), Error>(
                Error::CountMismatch(old(self).n, "parties", public_keys.len(), "public_keys"),
            ),
            public_keys.len() == old(self).n - 1 && first_invalid(public_keys@) < public_keys@.len()
                ==> r == Err::<(), Error>(
                Error::PointDecompressionError(public_keys[first_invalid(public_keys@)].bytes),
            ),
            public_keys.len() == old(self).n - 1 && first_invalid(public_keys@)
                == public_keys@.len() ==> r is Ok,
            r is Err ==> final(self).public_keys == old(self).public_keys,
            r is Ok ==> (final(self).public_keys matches Some(pks) && {
                &&& pks.len() == old(self).n
                &&& pks[old(self).index - 1] == old(self).public_key.1
                &&& forall|i: int|
                    0 <= i < old(self).index - 1 ==> (#[trigger] pks[i]).wf() && pks[i]@
                        == public_keys[i]@
                &&& forall|i: int|
                    old(self).index <= i < old(self).n ==> (#[trigger] pks[i]).wf() && pks[i]@
                        == public_keys[i - 1]@
            }),
    {
        match crate::utils::ingest_public_keys(self.n, &self.public_key.1, self.index, public_keys) {
            Ok(pks) => {
                self.public_keys = Some(pks);
                Ok(())
            },
            Err(x) => Err(x),
        }
    }

    /// Takes the dealer's proof; fails where the polynomial has not `t + 1`
    /// coefficients, and then where there are not `n` commitments.
    pub fn ingest_dealer_proof(&mut self, proof: (&Vec<[u8; 64]>, &Polynomial)) -> (r: Result<
        (),
        Error,
    >)
        requires
            old(self).wf(),
        ensures
            final(self).wf(),
            final(self).same_identity(old(self)),
            final(self).public_keys == old(self).public_keys,
            final(self).validated_shares == old(self).validated_shares,
            final(self).share == old(self).share,
            final(self).shares == old(self).shares,
            final(self).qualified_set == old(self).qualified_set,
            proof.1.coefficients.len() != old(self).t + 1 ==> r == Err::<(), Error>(
                Error::InvalidProof(
                    ProofDefect::PolynomialLength {
                        len: proof.1.coefficients.len(),
                        t: old(self).t,
                    },
                ),
            ),
            proof.1.coefficients.len() == old(self).t + 1 && proof.0.len() != old(self).n ==> r
                == Err::<(), Error>(
                Error::InvalidProof(
                    ProofDefect::CommitmentCount { len: proof.0.len(), expected: old(self).n },
                ),
            ),
            proof.1.coefficients.len() == old(self).t + 1 && proof.0.len() == old(self).n ==> r
                is Ok,
            r is Err ==> final(self).dealer_proof == old(self).dealer_proof,
            r is Ok ==> (final(self).dealer_proof matches Some(held) && held.0@ == proof.0@
                && held.1.coefficients@ == proof.1.coefficients@),
    {
        if proof.1.len() != self.t + 1 {
            Err(
                Error::InvalidProof(ProofDefect::PolynomialLength { len: proof.1.len(), t: self.t }),
            )
        } else if proof.0.len() != self.n {
            Err(
                Error::InvalidProof(
                    ProofDefect::CommitmentCount { len: proof.0.len(), expected: self.n },
                ),
            )
        } else {
            self.dealer_proof = Some((copy_digests(proof.0), proof.1.clone()));
            Ok(())
        }
    }

    /// Checks the party's own share against the proof. Fails where the proof
    /// or the share has not been ingested.
    pub fn verify_share(&mut self, hasher: &mut Transcript, buf: &mut [u8; 64]) -> (r: Result<
        bool,
        Error,
    >)
        requires
            old(self).wf(),
        ensures
            *final(self) == *old(self),
            old(self).dealer_proof is None ==> r == Err::<bool, Error>(
                Error::UninitializedValue("party.dealer_proof"),
            ),
            old(self).dealer_proof is Some && old(self).share is None ==> r == Err::<bool, Error>(
                Error::UninitializedValue("party.share"),
            ),
            r is Err ==> final(hasher)@ == old(hasher)@ && final(buf)@ == old(buf)@,
            (old(self).dealer_proof, old(self).share) matches (Some(proof), Some(share)) ==> {
                &&& r == Ok::<bool, Error>(
                    share_accepted(
                        proof.0@,
                        proof.1@,
                        share@,
                        old(self).index as int,
                        old(hasher)@,
                        share@.len(),
                    ),
                )
                &&& final(hasher)@ == Seq::<u8>::empty()
                &&& final(buf)@ == zeroed()
            },
    {
        match &self.dealer_proof {
            Some((cvals, z)) => match &self.share {
                Some(share) => {
                    let k = share.len();
                    let d_vals = challenge_powers_from_digests(hasher, buf, cvals.as_slice(), k);
                    let mut l_hasher = Transcript::new();
                    let z_eval = z.evaluate(self.index);
                    proof {
                        lemma_reduced(poly_eval(z@, self.index as int));
                        assert(crate::field::congruent(poly_eval(z@, self.index as int), z_eval@));
                    }
                    let check_bit = check_hash_commitment(
                        &cvals[self.index - 1],
                        &z_eval,
                        share.as_slice(),
                        d_vals.as_slice(),
                        &mut l_hasher,
                        buf,
                    );
                    Ok(check_bit)
                },
                None => Err(Error::UninitializedValue("party.share")),
            },
            None => Err(Error::UninitializedValue("party.dealer_proof")),
        }
    }

    /// Checks all the shares against the proof and records the positions of
    /// those that pass; the result says whether more than `t` did. Fails where
    /// the proof or the shares have not been ingested.
    pub fn verify_shares(&mut self, hasher: &mut Transcript, buf: &mut [u8; 64]) -> (r: Result<
        bool,
        Error,
    >)
        requires
            old(self).wf(),
        ensures
            final(self).wf(),
            final(self).same_identity(old(self)),
            final(self).public_keys == old(self).public_keys,
            final(self).dealer_proof == old(self).dealer_proof,
            final(self).share == old(self).share,
            final(self).shares == old(self).shares,
            final(self).qualified_set == old(self).qualified_set,
            old(self).dealer_proof is None ==> r == Err::<bool, Error>(
                Error::UninitializedValue("party.dealer_proof"),
            ),
            old(self).dealer_proof is Some && old(self).shares is None ==> r == Err::<bool, Error>(
                Error::UninitializedValue("party.share"),
            ),
            r is Err ==> final(hasher)@ == old(hasher)@ && final(buf)@ == old(buf)@,
            r is Err ==> final(self).validated_shares == old(self).validated_shares,
            (old(self).dealer_proof, old(self).shares) matches (Some(proof), Some(shares)) ==> {
                &&& final(self).validated_shares@ == accepted_shares(
                    proof.0@,
                    proof.1@,
                    shares@,
                    old(hasher)@,
                    old(self).n as nat,
                )
                &&& r == Ok::<bool, Error>(final(self).validated_shares@.len() > old(self).t)
                &&& final(hasher)@ == Seq::<u8>::empty()
                &&& final(buf)@ == zeroed()
            },
    {
        let n = self.n;
        let found: Result<Vec<usize>, Error> = match &self.dealer_proof {
            Some((cvals, z)) => match &self.shares {
                Some(shares) => {
                    let k = shares[0].len();
                    let ghost before = hasher@;
                    let d_vals = challenge_powers_from_digests(hasher, buf, cvals.as_slice(), k);
                    let z_evals = z.evaluate_range(1, n);
                    let mut l_hasher = Transcript::new();
                    let mut l_buf = [0u8; 64];
                    let mut validated: Vec<usize> = Vec::new();
                    let mut i: usize = 0;
                    while i < n
                        invariant
                            i <= n,
                            n == self.n,
                            1 <= n,
                            cvals.len() == n,
                            shares.len() == n,
                            z_evals.len() == n,
                            k == shares[0]@.len(),
                            l_hasher@ == Seq::<u8>::empty(),
                            scalar_values(d_vals@) == challenge_powers(
                                challenge(before + concat_digests(cvals@)),
                                k as nat,
                            ),
                            forall|q: int|
                                1 <= q <= n ==> (#[trigger] z_evals[q - 1])@ == poly_eval(z@, q)
                                    % order(),
                            validated@ == accepted_shares(cvals@, z@, shares@, before, i as nat),
                        decreases n - i,
                    {
                        proof {
                            assert(z_evals[i as int] == z_evals[(i + 1) - 1]);
                            lemma_reduced(poly_eval(z@, i + 1));
                            assert(crate::field::congruent(poly_eval(z@, i + 1), z_evals[i as int]@));
                        }
                        let check_bit = check_hash_commitment(
                            &cvals[i],
                            &z_evals[i],
                            shares[i].as_slice(),
                            d_vals.as_slice(),
                            &mut l_hasher,
                            &mut l_buf,
                        );
                        proof {
                            assert(check_bit == share_accepted(
                                cvals@,
                                z@,
                                shares[i as int]@,
                                i + 1,
                                before,
                                k as nat,
                            ));
                        }
                        if check_bit {
                            validated.push(i);
                        }
                        i += 1;
                    }
                    proof {
                        lemma_passing_indices(
                            n as nat,
                            |i: int|
                                share_accepted(
                                    cvals@,
                                    z@,
                                    shares@[i]@,
                                    i + 1,
                                    before,
                                    shares@[0]@.len(),
                                ),
                        );
                    }
                    Ok(validated)
                },
                None => Err(Error::UninitializedValue("party.share")),
            },
            None => Err(Error::UninitializedValue("party.dealer_proof")),
        };
        match found {
            Ok(validated) => {
                self.validated_shares = validated;
                Ok(self.validated_shares.len() > self.t)
            },
            Err(e) => Err(e),
        }
    }

    /// Takes the shares of all `n` parties; fails where there are not `n`.
    pub fn ingest_shares(&mut self, shares: &Vec<Vec<Scalar>>) -> (r: Result<(), Error>)
        requires
            old(self).wf(),
        ensures
            final(self).wf(),
            final(self).same_identity(old(self)),
            final(self).public_keys == old(self).public_keys,
            final(self).dealer_proof == old(self).dealer_proof,
            final(self).validated_shares == old(self).validated_shares,
            final(self).share == old(self).share,
            final(self).qualified_set == old(self).qualified_set,
            shares.len() != old(self).n ==> r == Err::<(), Error>(
                Error::CountMismatch(old(self).n, "parties", shares.len(), "ingestable shares"),
            ) && final(self).shares == old(self).shares,
            shares.len() == old(self).n ==> r is Ok && (final(self).shares matches Some(held)
                && same_rows(held@, shares@)),
    {
        if shares.len() == self.n {
            self.shares = Some(copy_rows(shares));
            Ok(())
        } else {
            Err(Error::CountMismatch(self.n, "parties", shares.len(), "ingestable shares"))
        }
    }

    /// Chooses the qualified set: `t + 1` of the validated shares, by a
    /// shuffle. Fails where the shares have not been ingested, and where no
    /// more than `t` are validated.
    pub fn select_qualified_set<R: CryptoRng + RngCore>(&mut self, rng: &mut R) -> (r: Result<
        (),
        Error,
    >)
        requires
            old(self).wf(),
        ensures
            final(self).wf(),
            final(self).same_identity(old(self)),
            final(self).public_keys == old(self).public_keys,
            final(self).dealer_proof == old(self).dealer_proof,
            final(self).validated_shares == old(self).validated_shares,
            final(self).share == old(self).share,
            final(self).shares == old(self).shares,
            old(self).shares is None ==> r == Err::<(), Error>(
                Error::UninitializedValue("party.decrypted_shares"),
            ),
            old(self).shares is Some && old(self).validated_shares.len() <= old(self).t ==> r
                == Err::<(), Error>(
                Error::InsufficientShares(old(self).validated_shares.len(), old(self).t),
            ),
            old(self).shares is Some && old(self).validated_shares.len() > old(self).t ==> r
                is Ok,
            r is Err ==> final(self).qualified_set == old(self).qualified_set,
            r is Ok ==> (final(self).qualified_set matches Some(q) && exists|chosen: Seq<usize>|
                chosen.to_multiset() == old(self).validated_shares@.to_multiset()
                    && #[trigger] is_qualified_from(
                    q@,
                    chosen,
                    old(self).shares->Some_0@,
                    old(self).t as nat,
                )),
    {
        if self.shares.is_none() {
            return Err(Error::UninitializedValue("party.decrypted_shares"));
        }
        match crate::secret_sharing::select_qualified_set(
            rng,
            self.t,
            &self.shares,
            &self.validated_shares,
        ) {
            Ok(q) => {
                let ghost chosen = choose|chosen: Seq<usize>|
                    chosen.to_multiset() == self.validated_shares@.to_multiset()
                        && #[trigger] is_qualified_from(
                        q@,
                        chosen,
                        self.shares->Some_0@,
                        self.t as nat,
                    );
                self.qualified_set = Some(q);
                assert(is_qualified_from(
                    self.qualified_set->Some_0@,
                    chosen,
                    self.shares->Some_0@,
                    self.t as nat,
                ));
                return Ok(());
            },
            Err(e) => {
                return Err(e);
            },
        }
    }

    /// The secrets from the qualified set and its Lagrange coefficients:
    /// component by component, the sum of `lambdas[i] * share_i[k]`. Fails
    /// where no qualified set has been chosen.
    pub fn reconstruct_secrets(&self, lambdas: &Vec<Scalar>) -> (r: Result<Vec<Scalar>, Error>)
        requires
            self.qualified_set matches Some(q) ==> q.len() >= 1 && lambdas.len() >= 1 && forall|
                i: int,
            |
                0 <= i < q.len() ==> (#[trigger] q[i]).1.len() >= q[0].1.len(),
        ensures
            self.qualified_set is None ==> r == Err::<Vec<Scalar>, Error>(
                Error::UninitializedValue("party.qualified_set"),
            ),
            self.qualified_set is Some ==> r is Ok,
            (self.qualified_set, r) matches (Some(q), Ok(v)) ==> {
                &&& v.len() == q[0].1.len()
                &&& all_canonical(v@)
                &&& forall|k: int|
                    0 <= k < v.len() ==> (#[trigger] v[k])@ == dot(
                        scalar_values(lambdas@),
                        share_column(q@, k),
                    ) % order()
            },
    {
        crate::secret_sharing::reconstruct_secrets(&self.qualified_set, lambdas)
    }
}

/// The `n` parties of a session, each with a freshly drawn private key.
pub fn generate_parties<R: CryptoRng + RngCore>(
    g: &RistrettoPoint,
    rng: &mut R,
    n: usize,
    t: usize,
) -> (r: Vec<Party>)
    requires
        g.wf(),
        t < n,
        t == (n - 1) / 2,
    ensures
        r.len() == n,
        forall|i: int|
            0 <= i < n ==> (#[trigger] r[i]).is_fresh(
                g,
                r[i].private_key,
                n,
                t,
                (i + 1) as usize,
            ) && r[i].private_key.wf(),
{
    let mut out: Vec<Party> = Vec::new();
    let mut i: usize = 0;
    while i < n
        invariant
            i <= n,
            g.wf(),
            t < n,
            t == (n - 1) / 2,
            out.len() == i,
            forall|q: int|
                0 <= q < i ==> (#[trigger] out[q]).is_fresh(
                    g,
                    out[q].private_key,
                    n,
                    t,
                    (q + 1) as usize,
                ) && out[q].private_key.wf(),
        decreases n - i,
    {
        let p = Party::new(g, rng, n, t, i + 1).unwrap();
        out.push(p);
        i += 1;
    }
    out
}

/// Where every share is accepted, every position is listed as validated.
pub proof fn lemma_all_accepted(
    c: Seq<[u8; 64]>,
    z: Seq<int>,
    shares: Seq<Vec<Scalar>>,
    before: Seq<u8>,
    n: nat,
)
    requires
        n <= usize::MAX,
        forall|i: int|
            0 <= i < n ==> share_accepted(
                c,
                z,
                (#[trigger] shares[i])@,
                i + 1,
                before,
                shares[0]@.len(),
            ),
    ensures
        accepted_shares(c, z, shares, before, n).len() == n,
        forall|i: int| 0 <= i < n ==> #[trigger] accepted_shares(c, z, shares, before, n)[i] == i,
{
    let ok = |i: int| share_accepted(c, z, shares[i]@, i + 1, before, shares[0]@.len());
    assert forall|i: int| 0 <= i < n implies #[trigger] ok(i) by {
        assert(share_accepted(c, z, shares[i]@, i + 1, before, shares[0]@.len()));
    }
    crate::commit::lemma_all_pass(n, ok);
}

/// The indices of the parties of a qualified set.
pub open spec fn indices_of(q: Seq<(usize, Vec<Scalar>)>) -> Seq<usize> {
    Seq::new(q.len(), |a: int| q[a].0)
}

/// An honest dealing validates every share. Where `(c, z)` is the proof for
/// the shares `evals` of the polynomials `fs`, with a blinding polynomial of
/// their length, every party accepts its own share, and every one of the `n`
/// positions is validated when all the shares are checked: more than `t` of
/// them, whatever `t` below `n`.
pub proof fn lemma_honest_dealing_validates(
    c: Seq<[u8; 64]>,
    z: Polynomial,
    blind: Seq<int>,
    fs: Seq<Polynomial>,
    evals: Seq<Vec<Scalar>>,
    before: Seq<u8>,
    n: nat,
)
    requires
        1 <= n <= usize::MAX,
        crate::b_pi_la::dealer::is_proof(c, z, blind, fs, evals, before),
        crate::b_pi_la::dealer::shares_of(evals, fs, n),
        forall|j: int| 0 <= j < fs.len() ==> (#[trigger] fs[j])@.len() == blind.len(),
    ensures
        forall|i: int|
            0 <= i < n ==> share_accepted(
                c,
                z@,
                (#[trigger] evals[i])@,
                i + 1,
                before,
                evals[i]@.len(),
            ),
        accepted_shares(c, z@, evals, before, n).len() == n,
{
    assert forall|i: int| 0 <= i < n implies share_accepted(
        c,
        z@,
        (#[trigger] evals[i])@,
        i + 1,
        before,
        evals[0]@.len(),
    ) by {
        crate::b_pi_la::dealer::lemma_honest_share_accepted(c, z, blind, fs, evals, before, n, i);
        assert(evals[i]@.len() == fs.len());
        assert(evals[0]@.len() == fs.len());
    }
    lemma_all_accepted(c, z@, evals, before, n);
    assert forall|i: int| 0 <= i < n implies share_accepted(
        c,
        z@,
        (#[trigger] evals[i])@,
        i + 1,
        before,
        evals[i]@.len(),
    ) by {
        assert(evals[i]@.len() == fs.len());
        assert(evals[0]@.len() == fs.len());
    }
}

/// An honest dealing is reconstructed. Where the shares `evals` are the
/// values of polynomials of degree `t` whose constant terms are the secrets,
/// the qualified set holds the shares of `t + 1` parties with separated
/// indices, and `lambdas` are the Lagrange coefficients of those indices,
/// the weighted sum of the `k`-th components of the shares is the `k`-th
/// secret.
pub proof fn lemma_honest_reconstruction(
    fs: Seq<Polynomial>,
    secrets: Seq<Scalar>,
    evals: Seq<Vec<Scalar>>,
    n: nat,
    t: nat,
    q: Seq<(usize, Vec<Scalar>)>,
    lambdas: Seq<Scalar>,
    k: int,
)
    requires
        crate::secret_sharing::embeds(fs, secrets, t),
        crate::b_pi_la::dealer::shares_of(evals, fs, n),
        q.len() == t + 1,
        forall|a: int|
            0 <= a < q.len() ==> 1 <= (#[trigger] q[a]).0 <= n && q[a].1@ == evals[q[a].0 - 1]@,
        crate::lagrange::separated(crate::utils::node_values(indices_of(q))),
        lambdas.len() == q.len(),
        forall|a: int|
            0 <= a < q.len() ==> (#[trigger] lambdas[a])@ == crate::lagrange::basis(
                crate::utils::node_values(indices_of(q)),
                a,
            ) % order(),
        0 <= k < secrets.len(),
    ensures
        crate::field::congruent(dot(scalar_values(lambdas), share_column(q, k)), secrets[k]@),
{
    let indices = indices_of(q);
    let f = fs[k]@;
    assert(f.len() == t + 1);
    assert(f[0] == fs[k].coefficients[0]@);
    let ls = scalar_values(lambdas);
    let column = share_column(q, k);
    assert forall|a: int| 0 <= a < indices.len() implies crate::field::congruent(
        #[trigger] ls[a],
        crate::lagrange::basis(crate::utils::node_values(indices), a),
    ) by {
        assert(ls[a] == lambdas[a]@);
        lemma_reduced(crate::lagrange::basis(crate::utils::node_values(indices), a));
    }
    assert forall|a: int| 0 <= a < indices.len() implies crate::field::congruent(
        #[trigger] column[a],
        poly_eval(f, indices[a] as int),
    ) by {
        let row = q[a].0 - 1;
        assert(column[a] == q[a].1[k]@);
        assert(q[a].1@ == evals[row]@);
        assert(evals[row][k]@ == poly_eval(fs[k]@, row + 1) % order());
        lemma_reduced(poly_eval(f, row + 1));
    }
    crate::lagrange::lemma_shares_reconstruct(indices, ls, column, f);
}

} // verus!
