//! A party of the batched protocol with group-element commitments.

use crate::commit::{
    blinding_of, blinding_value, challenge_powers, challenge_powers_from_points, check_parameters,
    copy_rows, copy_scalars, lemma_passing_indices, linear_commit, linear_commitment,
    passing_indices, same_rows, valid_parameters,
};
use crate::error::{Error, ProofDefect};
use crate::field::{congruent, dot, lemma_reduced, order};
use crate::polynomial::Polynomial;
use crate::random::random_scalar;
use crate::ristretto::{
    all_valid, copy_encodings, copy_points, ristretto_mul, CompressedRistretto, RistrettoPoint,
};
use crate::scalar::{scalar_values, Scalar};
use crate::transcript::{zeroed, Transcript};
use crate::utils::{
    batch_decompress_ristretto_points, challenge, concat_encodings, decoded, first_invalid,
};
use rand::{CryptoRng, RngCore};
use vstd::prelude::*;

verus! {

/// Whether the commitment of the party with the given index, counted from
/// one, is the one to `share` and to the blinding value that the proof
/// leaves for it, with the row of the index in `x_pows` and the challenge
/// from a transcript that had absorbed `before`.
pub open spec fn share_accepted(
    compressed: Seq<CompressedRistretto>,
    z: Seq<int>,
    x_pows: Seq<Vec<Scalar>>,
    g: Seq<RistrettoPoint>,
    g0: Seq<u8>,
    share: Seq<Scalar>,
    index: int,
    before: Seq<u8>,
) -> bool {
    compressed[index - 1]@ == linear_commitment(
        share,
        g,
        g0,
        blinding_value(
            dot(z, scalar_values(x_pows[index - 1]@)),
            share,
            challenge(before + concat_encodings(compressed)),
            g.len(),
        ),
    )
}

/// The positions below `m` of the shares that the proof accepts, in rising
/// order.
pub open spec fn accepted_shares(
    compressed: Seq<CompressedRistretto>,
    z: Seq<int>,
    x_pows: Seq<Vec<Scalar>>,
    g: Seq<RistrettoPoint>,
    g0: Seq<u8>,
    shares: Seq<Vec<Scalar>>,
    before: Seq<u8>,
    m: nat,
) -> Seq<usize> {
    passing_indices(
        m,
        |i: int| share_accepted(compressed, z, x_pows, g, g0, shares[i]@, i + 1, before),
    )
}

/// A party, with what it has been given so far.
#[derive(Debug)]
pub struct Party {
    pub g: Vec<RistrettoPoint>,
    pub g0: RistrettoPoint,
    pub private_key: Scalar,
    pub public_key: (CompressedRistretto, RistrettoPoint),
    pub index: usize,
    pub n: usize,
    pub t: usize,
    pub public_keys: Option<Vec<RistrettoPoint>>,
    pub dealer_proof: Option<(Vec<CompressedRistretto>, Vec<RistrettoPoint>, Polynomial)>,
    pub validated_shares: Vec<usize>,
    pub share: Option<Vec<Scalar>>,
    pub d: Option<Scalar>,
    pub shares: Option<Vec<Vec<Scalar>>>,
    pub qualified_set: Option<Vec<(usize, Vec<Scalar>)>>,
}

impl Party {
    /// The parameters are an honest-majority set, the points held are group
    /// elements, and what was ingested has the sizes that the parameters ask
    /// for.
    pub open spec fn wf(&self) -> bool {
        &&& valid_parameters(self.n, self.t, self.index)
        &&& self.public_key.1.wf()
        &&& self.public_key.0@ == self.public_key.1@
        &&& all_valid(self.g@)
        &&& self.g0.wf()
        &&& (self.dealer_proof matches Some(proof) ==> proof.0.len() == self.n && decoded(
            proof.0@,
            proof.1@,
        ) && proof.2.coefficients.len() == self.t + 1)
        &&& (self.shares matches Some(s) ==> s.len() == self.n)
        &&& forall|i: int|
            0 <= i < self.validated_shares.len() ==> self.validated_shares[i] < self.n
    }

    /// The two parties have the same keys, parameters and index.
    pub open spec fn same_identity(&self, other: &Party) -> bool {
        &&& self.private_key == other.private_key
        &&& self.public_key == other.public_key
        &&& self.index == other.index
        &&& self.n == other.n
        &&& self.t == other.t
        &&& self.g == other.g
        &&& self.g0 == other.g0
    }

    /// The party is as it is made: nothing ingested, and the public key is
    /// the generator multiplied by the private key.
    pub open spec fn is_fresh(
        &self,
        generator: &RistrettoPoint,
        g: Vec<RistrettoPoint>,
        g0: RistrettoPoint,
        private_key: Scalar,
        n: usize,
        t: usize,
        index: usize,
    ) -> bool {
        &&& self.wf()
        &&& self.private_key == private_key
        &&& self.public_key.1@ == ristretto_mul(private_key@ % order(), generator@)
        &&& self.index == index
        &&& self.n == n
        &&& self.t == t
        &&& self.g == g
        &&& self.g0 == g0
        &&& self.public_keys is None
        &&& self.dealer_proof is None
        &&& self.validated_shares@ == Seq::<usize>::empty()
        &&& self.share is None
        &&& self.d is None
        &&& self.shares is None
        &&& self.qualified_set is None
    }

    /// A party with a freshly drawn private key; fails where `(n, t, index)`
    /// is no honest-majority parameter set.
    pub fn new<R: CryptoRng + RngCore>(
        generator: &RistrettoPoint,
        g: Vec<RistrettoPoint>,
        g0: RistrettoPoint,
        rng: &mut R,
        n: usize,
        t: usize,
        index: usize,
    ) -> (r: Result<Self, Error>)
        requires
            generator.wf(),
            all_valid(g@),
            g0.wf(),
        ensures
            !valid_parameters(n, t, index) ==> r == Err::<Self, Error>(
                Error::InvalidParameterSet(n, t, index),
            ),
            valid_parameters(n, t, index) ==> r is Ok,
            r matches Ok(p) ==> p.is_fresh(generator, g, g0, p.private_key, n, t, index)
                && p.private_key.wf(),
    {
        let private_key = random_scalar(rng);
        Party::from_private_key(generator, g, g0, private_key, n, t, index)
    }

    /// A party with the given private key; fails where `(n, t, index)` is no
    /// honest-majority parameter set.
    pub fn from_private_key(
        generator: &RistrettoPoint,
        g: Vec<RistrettoPoint>,
        g0: RistrettoPoint,
        private_key: Scalar,
        n: usize,
        t: usize,
        index: usize,
    ) -> (r: Result<Self, Error>)
        requires
            generator.wf(),
            all_valid(g@),
            g0.wf(),
        ensures
            !valid_parameters(n, t, index) ==> r == Err::<Self, Error>(
                Error::InvalidParameterSet(n, t, index),
            ),
            valid_parameters(n, t, index) ==> r is Ok,
            r matches Ok(p) ==> p.is_fresh(generator, g, g0, private_key, n, t, index),
    {
        let public_key = generator.mul(&private_key);
        if check_parameters(n, t, index) {
            Ok(
                Party {
                    g,
                    g0,
                    private_key,
                    public_key: (public_key.compress(), public_key),
                    index,
                    n,
                    t,
                    public_keys: None,
                    dealer_proof: None,
                    validated_shares: Vec::new(),
                    share: None,
                    d: None,
                    shares: None,
                    qualified_set: None,
                },
            )
        } else {
            Err(Error::InvalidParameterSet(n, t, index))
        }
    }

    /// Takes the party's own share.
    pub fn ingest_share(&mut self, share: &Vec<Scalar>)
        ensures
            final(self).share matches Some(s) && s@ == share@,
            final(self).same_identity(old(self)),
            final(self).public_keys == old(self).public_keys,
            final(self).dealer_proof == old(self).dealer_proof,
            final(self).validated_shares == old(self).validated_shares,
            final(self).d == old(self).d,
            final(self).shares == old(self).shares,
            final(self).qualified_set == old(self).qualified_set,
            old(self).wf() ==> final(self).wf(),
    {
        self.share = Some(copy_scalars(share));
    }

    /// Takes the dealer's proof; fails where the polynomial has not `t + 1`
    /// coefficients, then where there are not `n` commitments, and then where
    /// a commitment is no group element.
    pub fn ingest_dealer_proof(&mut self, proof: (&Vec<CompressedRistretto>, &Polynomial)) -> (r:
        Result<(), Error>)
        requires
            old(self).wf(),
        ensures
            final(self).wf(),
            final(self).same_identity(old(self)),
            final(self).public_keys == old(self).public_keys,
            final(self).validated_shares == old(self).validated_shares,
            final(self).share == old(self).share,
            final(self).d == old(self).d,
            final(self).shares == old(self).shares,
            final(self).qualified_set == old(self).qualified_set,
            proof.1.coefficients.len() != old(self).t + 1 ==> r == Err::<(), Error>(
                Error::InvalidProof(
                    ProofDefect::PolynomialLength {
                        len: proof.1.coefficients.len(),
                        t: old(self).t,
                    },
                ),
            ),
            proof.1.coefficients.len() == old(self).t + 1 && proof.0.len() != old(self).n ==> r
                == Err::<(), Error>(
                Error::InvalidProof(
                    ProofDefect::CommitmentCount { len: proof.0.len(), expected: old(self).n },
                ),
            ),
            proof.1.coefficients.len() == old(self).t + 1 && proof.0.len() == old(self).n
                && first_invalid(proof.0@) < proof.0@.len() ==> r == Err::<(), Error>(
                Error::PointDecompressionError(proof.0[first_invalid(proof.0@)].bytes),
            ),
            proof.1.coefficients.len() == old(self).t + 1 && proof.0.len() == old(self).n
                && first_invalid(proof.0@) == proof.0@.len() ==> r is Ok,
            r is Err ==> final(self).dealer_proof == old(self).dealer_proof,
            r is Ok ==> (final(self).dealer_proof matches Some(held) && held.0@ == proof.0@
                && held.2.coefficients@ == proof.1.coefficients@),
    {
        if proof.1.len() != self.t + 1 {
            Err(
                Error::InvalidProof(ProofDefect::PolynomialLength { len: proof.1.len(), t: self.t }),
            )
        } else if proof.0.len() != self.n {
            Err(
                Error::InvalidProof(
                    ProofDefect::CommitmentCount { len: proof.0.len(), expected: self.n },
                ),
            )
        } else {
            match batch_decompress_ristretto_points(proof.0.as_slice()) {
                Ok(decompressed_c_vals) => {
                    self.dealer_proof = Some(
                        (copy_encodings(proof.0), decompressed_c_vals, proof.1.clone()),
                    );
                    Ok(())
                },
                Err(e) => Err(e),
            }
        }
    }

    /// Checks the party's own share against the proof. Fails where the proof
    /// or the share has not been ingested.
    pub fn verify_share(
        &self,
        hasher: &mut Transcript,
        buf: &mut [u8; 64],
        x_pows: &Vec<Vec<Scalar>>,
    ) -> (r: Result<bool, Error>)
        requires
            self.wf(),
            self.n <= x_pows.len(),
        ensures
            self.dealer_proof is None ==> r == Err::<bool, Error>(
                Error::UninitializedValue("party.dealer_proof"),
            ),
            self.dealer_proof is Some && self.share is None ==> r == Err::<bool, Error>(
                Error::UninitializedValue("party.share"),
            ),
            r is Err ==> final(hasher)@ == old(hasher)@ && final(buf)@ == old(buf)@,
            (self.dealer_proof, self.share) matches (Some(proof), Some(share)) ==> {
                &&& r == Ok::<bool, Error>(
                    share_accepted(
                        proof.0@,
                        proof.2@,
                        x_pows@,
                        self.g@,
                        self.g0@,
                        share@,
                        self.index as int,
                        old(hasher)@,
                    ),
                )
                &&& final(hasher)@ == Seq::<u8>::empty()
                &&& final(buf)@ == zeroed()
            },
    {
        match &self.dealer_proof {
            Some((compressed_cvals, cvals, z)) => match &self.share {
                Some(fi) => {
                    let k = self.g.len();
                    let d_vals = challenge_powers_from_points(
                        hasher,
                        buf,
                        compressed_cvals.as_slice(),
                        k,
                    );
                    let zi = z.evaluate_precomp(x_pows, self.index);
                    let expected_c = cvals[self.index - 1];
                    let r_val = blinding_of(&zi, fi.as_slice(), d_vals.as_slice());
                    proof {
                        lemma_reduced(dot(z@, scalar_values(x_pows[self.index - 1]@)));
                        assert(congruent(
                            dot(z@, scalar_values(x_pows[self.index - 1]@)),
                            zi@,
                        ));
                        assert(scalar_values(d_vals@) == challenge_powers(
                            challenge(old(hasher)@ + concat_encodings(compressed_cvals@)),
                            k as nat,
                        ));
                    }
                    let c = linear_commit(fi.as_slice(), self.g.as_slice(), &self.g0, &r_val);
                    Ok(expected_c.equals(&c))
                },
                None => Err(Error::UninitializedValue("party.share")),
            },
            None => Err(Error::UninitializedValue("party.dealer_proof")),
        }
    }

    /// Checks all the shares against the proof and records the positions of
    /// those that pass; the result says whether more than `t` did. Fails where
    /// the proof or the shares have not been ingested.
    pub fn verify_shares(
        &mut self,
        hasher: &mut Transcript,
        buf: &mut [u8; 64],
        x_pows: &Vec<Vec<Scalar>>,
    ) -> (r: Result<bool, Error>)
        requires
            old(self).wf(),
            old(self).n <= x_pows.len(),
        ensures
            final(self).wf(),
            final(self).same_identity(old(self)),
            final(self).public_keys == old(self).public_keys,
            final(self).dealer_proof == old(self).dealer_proof,
            final(self).share == old(self).share,
            final(self).d == old(self).d,
            final(self).shares == old(self).shares,
            final(self).qualified_set == old(self).qualified_set,
            old(self).dealer_proof is None ==> r == Err::<bool, Error>(
                Error::UninitializedValue("party.dealer_proof"),
            ),
            old(self).dealer_proof is Some && old(self).shares is None ==> r == Err::<bool, Error>(
                Error::UninitializedValue("party.share"),
            ),
            r is Err ==> final(hasher)@ == old(hasher)@ && final(buf)@ == old(buf)@,
            r is Err ==> final(self).validated_shares == old(self).validated_shares,
            (old(self).dealer_proof, old(self).shares) matches (Some(proof), Some(shares)) ==> {
                &&& final(self).validated_shares@ == accepted_shares(
                    proof.0@,
                    proof.2@,
                    x_pows@,
                    old(self).g@,
                    old(self).g0@,
                    shares@,
                    old(hasher)@,
                    old(self).n as nat,
                )
                &&& r == Ok::<bool, Error>(final(self).validated_shares@.len() > old(self).t)
                &&& final(hasher)@ == Seq::<u8>::empty()
                &&& final(buf)@ == zeroed()
            },
    {
        let n = self.n;
        let found: Result<Vec<usize>, Error> = match &self.dealer_proof {
            Some((compressed_cvals, cvals, z)) => match &self.shares {
                Some(shares) => {
                    let k = self.g.len();
                    let ghost before = hasher@;
                    let d_vals = challenge_powers_from_points(
                        hasher,
                        buf,
                        compressed_cvals.as_slice(),
                        k,
                    );
                    let z_evals = z.evaluate_range_precomp(x_pows, 1, n);
                    let mut validated: Vec<usize> = Vec::new();
                    let mut i: usize = 0;
                    while i < n
                        invariant
                            i <= n,
                            n == self.n,
                            n <= x_pows.len(),
                            all_valid(self.g@),
                            self.g0.wf(),
                            k == self.g@.len(),
                            compressed_cvals.len() == n,
                            decoded(compressed_cvals@, cvals@),
                            shares.len() == n,
                            z_evals.len() == n,
                            scalar_values(d_vals@) == challenge_powers(
                                challenge(before + concat_encodings(compressed_cvals@)),
                                k as nat,
                            ),
                            forall|q: int|
                                1 <= q <= n ==> (#[trigger] z_evals[q - 1])@ == dot(
                                    z@,
                                    scalar_values(x_pows[q - 1]@),
                                ) % order(),
                            validated@ == accepted_shares(
                                compressed_cvals@,
                                z@,
                                x_pows@,
                                self.g@,
                                self.g0@,
                                shares@,
                                before,
                                i as nat,
                            ),
                        decreases n - i,
                    {
                        proof {
                            assert(z_evals[i as int] == z_evals[(i + 1) - 1]);
                            lemma_reduced(dot(z@, scalar_values(x_pows[i as int]@)));
                            assert(congruent(
                                dot(z@, scalar_values(x_pows[i as int]@)),
                                z_evals[i as int]@,
                            ));
                        }
                        let r_val = blinding_of(
                            &z_evals[i],
                            shares[i].as_slice(),
                            d_vals.as_slice(),
                        );
                        let c = linear_commit(
                            shares[i].as_slice(),
                            self.g.as_slice(),
                            &self.g0,
                            &r_val,
                        );
                        let check_bit = cvals[i].equals(&c);
                        proof {
                            assert(cvals[i as int]@ == compressed_cvals[i as int]@);
                            assert(check_bit == share_accepted(
                                compressed_cvals@,
                                z@,
                                x_pows@,
                                self.g@,
                                self.g0@,
                                shares[i as int]@,
                                i + 1,
                                before,
                            ));
                        }
                        if check_bit {
                            validated.push(i);
                        }
                        i += 1;
                    }
                    proof {
                        lemma_passing_indices(
                            n as nat,
                            |i: int|
                                share_accepted(
                                    compressed_cvals@,
                                    z@,
                                    x_pows@,
                                    self.g@,
                                    self.g0@,
                                    shares@[i]@,
                                    i + 1,
                                    before,
                                ),
                        );
                    }
                    Ok(validated)
                },
                None => Err(Error::UninitializedValue("party.share")),
            },
            None => Err(Error::UninitializedValue("party.dealer_proof")),
        };
        match found {
            Ok(validated) => {
                self.validated_shares = validated;
                Ok(self.validated_shares.len() > self.t)
            },
            Err(e) => Err(e),
        }
    }

    /// Takes the shares of all `n` parties; fails where there are not `n`.
    pub fn ingest_shares(&mut self, shares: &Vec<Vec<Scalar>>) -> (r: Result<(), Error>)
        requires
            old(self).wf(),
        ensures
            final(self).wf(),
            final(self).same_identity(old(self)),
            final(self).public_keys == old(self).public_keys,
            final(self).dealer_proof == old(self).dealer_proof,
            final(self).validated_shares == old(self).validated_shares,
            final(self).share == old(self).share,
            final(self).d == old(self).d,
            final(self).qualified_set == old(self).qualified_set,
            shares.len() != old(self).n ==> r == Err::<(), Error>(
                Error::CountMismatch(old(self).n, "parties", shares.len(), "ingestable shares"),
            ) && final(self).shares == old(self).shares,
            shares.len() == old(self).n ==> r is Ok && (final(self).shares matches Some(held)
                && same_rows(held@, shares@)),
    {
        if shares.len() == self.n {
            self.shares = Some(copy_rows(shares));
            Ok(())
        } else {
            Err(Error::CountMismatch(self.n, "parties", shares.len(), "ingestable shares"))
        }
    }
}

/// The `n` parties of a session, each with a freshly drawn private key.
pub fn generate_parties<R: CryptoRng + RngCore>(
    generator: &RistrettoPoint,
    g: &Vec<RistrettoPoint>,
    g0: &RistrettoPoint,
    rng: &mut R,
    n: usize,
    t: usize,
) -> (r: Vec<Party>)
    requires
        generator.wf(),
        all_valid(g@),
        g0.wf(),
        t < n,
        t == (n - 1) / 2,
    ensures
        r.len() == n,
        forall|i: int|
            0 <= i < n ==> (#[trigger] r[i]).wf() && r[i].index == i + 1 && r[i].n == n && r[i].t
                == t && r[i].private_key.wf() && r[i].public_key.1@ == ristretto_mul(
                r[i].private_key@ % order(),
                generator@,
            ) && r[i].g@ == g@ && r[i].g0 == *g0,
{
    let mut out: Vec<Party> = Vec::new();
    let mut i: usize = 0;
    while i < n
        invariant
            i <= n,
            generator.wf(),
            all_valid(g@),
            g0.wf(),
            t < n,
            t == (n - 1) / 2,
            out.len() == i,
            forall|q: int|
                0 <= q < i ==> (#[trigger] out[q]).wf() && out[q].index == q + 1 && out[q].n == n
                    && out[q].t == t && out[q].private_key.wf() && out[q].public_key.1@
                    == ristretto_mul(out[q].private_key@ % order(), generator@) && out[q].g@ == g@ && out[q].g0 == *g0,
        decreases n - i,
    {
        let g_own = copy_points(g);
        let g0_own = *g0;
        let p = Party::new(generator, g_own, g0_own, rng, n, t, i + 1).unwrap();
        out.push(p);
        i += 1;
    }
    out
}

/// An honest dealer's shares pass. Where `(c, z)` is the proof for the
/// shares `evals` of the polynomials `fs`, with a blinding polynomial of
/// their length and a generator for every polynomial, every party accepts
/// its own share, whatever the rows of the table hold.
pub proof fn lemma_honest_share_accepted(
    c: Seq<CompressedRistretto>,
    z: Polynomial,
    blind: Seq<int>,
    fs: Seq<Polynomial>,
    evals: Seq<Vec<Scalar>>,
    x_pows: Seq<Vec<Scalar>>,
    g: Seq<RistrettoPoint>,
    g0: Seq<u8>,
    before: Seq<u8>,
    n: nat,
    i: int,
)
    requires
        crate::b_pi_f::dealer::is_proof(c, z, blind, fs, evals, x_pows, g, g0, before),
        crate::secret_sharing::evaluated(evals, fs, x_pows, n),
        forall|j: int| 0 <= j < fs.len() ==> (#[trigger] fs[j])@.len() == blind.len(),
        g.len() == fs.len(),
        0 <= i < n,
    ensures
        share_accepted(c, z@, x_pows, g, g0, evals[i]@, i + 1, before),
{
    let d = challenge(before + concat_encodings(c));
    let row = scalar_values(x_pows[i as int]@);
    let views = crate::polynomial::poly_views(fs);
    let ds = challenge_powers(d, fs.len());
    let shares = scalar_values(evals[i]@);
    assert forall|k: int| 0 <= k < views.len() implies congruent(
        #[trigger] shares[k],
        dot(views[k], row),
    ) by {
        assert(shares[k] == evals[i][k]@);
        lemma_reduced(dot(fs[k]@, row));
    }
    assert forall|k: int| 0 <= k < views.len() implies (#[trigger] views[k]).len()
        == blind.len() by {
        assert(views[k] == fs[k]@);
    }
    crate::fused::lemma_unfused_dot(z@, blind, views, ds, row, shares);
    lemma_reduced(dot(z@, row) - dot(shares, ds));
}

} // verus!
