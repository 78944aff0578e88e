//! A party of the publicly verifiable protocol for a single secret.

use crate::commit::{
    absorb_points, check_parameters, lemma_passing_indices, passing_indices, valid_parameters,
};
use crate::dleq::{dleq_accepts, dleq_prove, dleq_verify, has_dleq_proof};
use crate::error::{Error, ProofDefect};
use crate::field::{dot, inv_mod, lemma_small_is_reduced, order};
use crate::polynomial::Polynomial;
use crate::random::random_scalar;
use crate::ristretto::{
    all_valid, paired, ristretto_mul, ristretto_sub, CompressedRistretto, RistrettoPoint,
};
use crate::scalar::{lemma_scalar_of, scalar_of, scalar_values, Scalar};
use crate::secret_sharing::{is_qualified_from, point_combination, point_values};
use crate::transcript::{wipe, zeroed, Transcript};
use crate::utils::{
    batch_decompress_ristretto_points, challenge, concat_encodings, decoded, first_invalid,
};
use rand::{CryptoRng, RngCore};
use vstd::prelude::*;

verus! {

/// The encodings of what the verifier recomputes for the first `m` parties,
/// counted from `x_0`: the public key multiplied by the value that the row
/// of the party gives to `z`, less the encrypted share multiplied by `d`.
pub open spec fn recomputed_bytes(
    z: Seq<int>,
    x_pows: Seq<Vec<Scalar>>,
    public_keys: Seq<RistrettoPoint>,
    encrypted: Seq<RistrettoPoint>,
    d: int,
    m: nat,
) -> Seq<u8>
    decreases m,
{
    if m == 0 {
        Seq::empty()
    } else {
        recomputed_bytes(z, x_pows, public_keys, encrypted, d, (m - 1) as nat) + ristretto_sub(
            ristretto_mul(dot(z, scalar_values(x_pows[m - 1]@)) % order(), public_keys[m - 1]@),
            ristretto_mul(d % order(), encrypted[m - 1]@),
        )
    }
}

/// Whether the proof `(d, z)` is accepted for the encrypted shares, by a
/// transcript that had absorbed `before`: whether `d` is the challenge for
/// the encrypted shares and what the verifier recomputes from them.
pub open spec fn proof_accepted(
    d: Scalar,
    z: Seq<int>,
    x_pows: Seq<Vec<Scalar>>,
    public_keys: Seq<RistrettoPoint>,
    compressed: Seq<CompressedRistretto>,
    encrypted: Seq<RistrettoPoint>,
    before: Seq<u8>,
) -> bool {
    d == scalar_of(
        challenge(
            before + concat_encodings(compressed) + recomputed_bytes(
                z,
                x_pows,
                public_keys,
                encrypted,
                d@,
                public_keys.len(),
            ),
        ),
    )
}

/// The positions below `m` of the parties whose decrypted share comes with
/// an accepted proof, in rising order.
pub open spec fn accepted_shares(
    g: Seq<u8>,
    public_keys: Seq<RistrettoPoint>,
    decrypted: Seq<RistrettoPoint>,
    proofs: Seq<(Scalar, Scalar)>,
    encrypted: Seq<RistrettoPoint>,
    m: nat,
) -> Seq<usize> {
    passing_indices(
        m,
        |i: int|
            dleq_accepts(
                g,
                public_keys[i]@,
                encrypted[i]@,
                decrypted[i]@,
                proofs[i].0,
                proofs[i].1,
            ),
    )
}

/// Checks a proof `(d, z)` against encrypted shares and public keys, the
/// first row of `x_pows` taken for the first party. The transcript is left empty and `buf`
/// cleared.
pub fn check_proof(
    d: &Scalar,
    z: &Polynomial,
    x_pows: &Vec<Vec<Scalar>>,
    public_keys: &Vec<RistrettoPoint>,
    compressed: &Vec<CompressedRistretto>,
    encrypted: &Vec<RistrettoPoint>,
    hasher: &mut Transcript,
    buf: &mut [u8; 64],
) -> (r: bool)
    requires
        public_keys.len() <= x_pows.len(),
        public_keys.len() == encrypted.len(),
        all_valid(public_keys@),
        all_valid(encrypted@),
    ensures
        r == proof_accepted(
            *d,
            z@,
            x_pows@,
            public_keys@,
            compressed@,
            encrypted@,
            old(hasher)@,
        ),
        final(hasher)@ == Seq::<u8>::empty(),
        final(buf)@ == zeroed(),
{
    let n = public_keys.len();
    let z_evals = z.evaluate_range_precomp(x_pows, 1, n);
    let mut shares: Vec<CompressedRistretto> = Vec::new();
    let mut i: usize = 0;
    while i < n
        invariant
            i <= n,
            n == public_keys.len(),
            n == encrypted.len(),
            n == z_evals.len(),
            n <= x_pows.len(),
            all_valid(public_keys@),
            all_valid(encrypted@),
            forall|q: int|
                1 <= q <= n ==> (#[trigger] z_evals[q - 1])@ == dot(z@, scalar_values(x_pows[q - 1]@))
                    % order(),
            shares.len() == i,
            concat_encodings(shares@) == recomputed_bytes(
                z@,
                x_pows@,
                public_keys@,
                encrypted@,
                d@,
                i as nat,
            ),
        decreases n - i,
    {
        proof {
            assert(public_keys@[i as int].wf());
            assert(encrypted@[i as int].wf());
            assert(z_evals[i as int] == z_evals[(i + 1) - 1]);
            lemma_small_is_reduced(z_evals[i as int]@);
        }
        let entry = public_keys[i].mul(&z_evals[i]).sub(&encrypted[i].mul(d)).compress();
        let ghost before = shares@;
        shares.push(entry);
        proof {
            assert(shares@.drop_last() =~= before);
            assert(shares@.last() == entry);
        }
        i += 1;
    }
    absorb_points(hasher, compressed.as_slice());
    absorb_points(hasher, shares.as_slice());
    hasher.squeeze(buf);
    let reconstructed_d = Scalar::from_bytes_mod_order_wide(buf);
    hasher.reset();
    wipe(buf);
    proof {
        let input = old(hasher)@ + concat_encodings(compressed@) + recomputed_bytes(
            z@,
            x_pows@,
            public_keys@,
            encrypted@,
            d@,
            n as nat,
        );
        lemma_small_is_reduced(reconstructed_d@);
        lemma_scalar_of(reconstructed_d, challenge(input));
        if d.bytes@ == reconstructed_d.bytes@ {
            assert(d.bytes =~= reconstructed_d.bytes);
        }
    }
    d.equals(&reconstructed_d)
}

/// A party, with what it has been given so far.
#[derive(Debug)]
pub struct Party {
    pub private_key: Scalar,
    pub public_key: (CompressedRistretto, RistrettoPoint),
    pub index: usize,
    pub n: usize,
    pub t: usize,
    pub share_proof: Option<(Scalar, Scalar)>,
    pub encrypted_share: Option<RistrettoPoint>,
    pub decrypted_share: Option<RistrettoPoint>,
    pub dealer_proof: Option<(Scalar, Polynomial)>,
    pub public_keys: Option<Vec<RistrettoPoint>>,
    pub encrypted_shares: Option<(Vec<CompressedRistretto>, Vec<RistrettoPoint>)>,
    pub decrypted_shares: Option<Vec<RistrettoPoint>>,
    pub share_proofs: Option<Vec<(Scalar, Scalar)>>,
    pub validated_shares: Vec<usize>,
    pub qualified_set: Option<Vec<(usize, RistrettoPoint)>>,
}

impl Party {
    /// The parameters are an honest-majority set, the points held are group
    /// elements, and what was ingested has the sizes that the parameters ask
    /// for.
    pub open spec fn wf(&self) -> bool {
        &&& valid_parameters(self.n, self.t, self.index)
        &&& self.public_key.1.wf()
        &&& self.public_key.0@ == self.public_key.1@
        &&& (self.public_keys matches Some(p) ==> p.len() == self.n && all_valid(p@))
        &&& (self.dealer_proof matches Some(proof) ==> proof.1.coefficients.len() == self.t + 1)
        &&& (self.encrypted_share matches Some(e) ==> e.wf())
        &&& (self.decrypted_share matches Some(e) ==> e.wf())
        &&& (self.encrypted_shares matches Some(e) ==> e.0.len() == self.n && decoded(e.0@, e.1@))
        &&& (self.decrypted_shares matches Some(d) ==> d.len() == self.n && all_valid(d@))
        &&& (self.share_proofs matches Some(s) ==> s.len() == self.n)
        &&& forall|i: int|
            0 <= i < self.validated_shares.len() ==> self.validated_shares[i] < self.n
    }

    /// The two parties have the same keys, parameters and index.
    pub open spec fn same_identity(&self, other: &Party) -> bool {
        &&& self.private_key == other.private_key
        &&& self.public_key == other.public_key
        &&& self.index == other.index
        &&& self.n == other.n
        &&& self.t == other.t
    }

    /// The party is as it is made: nothing ingested, and the public key is
    /// the generator multiplied by the private key.
    pub open spec fn is_fresh(
        &self,
        g: &RistrettoPoint,
        private_key: Scalar,
        n: usize,
        t: usize,
        index: usize,
    ) -> bool {
        &&& self.wf()
        &&& self.private_key == private_key
        &&& self.public_key.1@ == ristretto_mul(private_key@ % order(), g@)
        &&& self.index == index
        &&& self.n == n
        &&& self.t == t
        &&& self.public_keys is None
        &&& self.dealer_proof is None
        &&& self.validated_shares@ == Seq::<usize>::empty()
        &&& self.encrypted_share is None
        &&& self.decrypted_share is None
        &&& self.encrypted_shares is None
        &&& self.decrypted_shares is None
        &&& self.share_proof is None
        &&& self.share_proofs is None
        &&& self.qualified_set is None
    }

    /// A party with a freshly drawn private key; fails where `(n, t, index)`
    /// is no honest-majority parameter set.
    pub fn new<R: CryptoRng + RngCore>(
        g: &RistrettoPoint,
        rng: &mut R,
        n: usize,
        t: usize,
        index: usize,
    ) -> (r: Result<Self, Error>)
        requires
            g.wf(),
        ensures
            !valid_parameters(n, t, index) ==> r == Err::<Self, Error>(
                Error::InvalidParameterSet(n, t, index),
            ),
            valid_parameters(n, t, index) ==> r is Ok,
            r matches Ok(p) ==> p.is_fresh(g, p.private_key, n, t, index) && p.private_key.wf(),
    {
        let private_key = random_scalar(rng);
        Party::from_private_key(g, private_key, n, t, index)
    }

    /// A party with the given private key; fails where `(n, t, index)` is no
    /// honest-majority parameter set.
    pub fn from_private_key(
        g: &RistrettoPoint,
        private_key: Scalar,
        n: usize,
        t: usize,
        index: usize,
    ) -> (r: Result<Self, Error>)
        requires
            g.wf(),
        ensures
            !valid_parameters(n, t, index) ==> r == Err::<Self, Error>(
                Error::InvalidParameterSet(n, t, index),
            ),
            valid_parameters(n, t, index) ==> r is Ok,
            r matches Ok(p) ==> p.is_fresh(g, private_key, n, t, index),
    {
        let public_key = g.mul(&private_key);
        if check_parameters(n, t, index) {
            Ok(
                Party {
                    private_key,
                    public_key: (public_key.compress(), public_key),
                    index,
                    n,
                    t,
                    dealer_proof: None,
                    encrypted_share: None,
                    decrypted_share: None,
                    share_proof: None,
                    share_proofs: None,
                    encrypted_shares: None,
                    decrypted_shares: None,
                    public_keys: None,
                    validated_shares: Vec::new(),
                    qualified_set: None,
                },
            )
        } else {
            Err(Error::InvalidParameterSet(n, t, index))
        }
    }

    /// Takes the encrypted shares of all `n` parties, and keeps the party's
    /// own. Fails where there are not `n`, or where one is no group element.
    pub fn ingest_encrypted_shares(&mut self, encrypted_shares: &[CompressedRistretto]) -> (r:
        Result<(), Error>)
        requires
            old(self).wf(),
        ensures
            final(self).wf(),
            final(self).same_identity(old(self)),
            final(self).share_proof == old(self).share_proof,
            final(self).decrypted_share == old(self).decrypted_share,
            final(self).dealer_proof == old(self).dealer_proof,
            final(self).public_keys == old(self).public_keys,
            final(self).decrypted_shares == old(self).decrypted_shares,
            final(self).share_proofs == old(self).share_proofs,
            final(self).validated_shares == old(self).validated_shares,
            final(self).qualified_set == old(self).qualified_set,
            encrypted_shares.len() != old(self).n ==> r == Err::<(), Error>(
                Error::CountMismatch(
                    old(self).n,
                    "parties",
                    encrypted_shares.len(),
                    "encrypted shares",
                ),
            ),
            encrypted_shares.len() == old(self).n && first_invalid(encrypted_shares@) < old(self).n
                ==> r == Err::<(), Error>(
                Error::PointDecompressionError(
                    encrypted_shares[first_invalid(encrypted_shares@)].bytes,
                ),
            ),
            encrypted_shares.len() == old(self).n && first_invalid(encrypted_shares@) == old(self).n ==> r is Ok,
            r is Err ==> final(self).encrypted_share == old(self).encrypted_share && final(self).encrypted_shares == old(self).encrypted_shares,
            r is Ok ==> (final(self).encrypted_shares matches Some(held) && final(self).encrypted_share matches Some(own) && held.0@ == encrypted_shares@ && own
                == held.1[old(self).index - 1]),
    {
        if encrypted_shares.len() == self.n {
            match batch_decompress_ristretto_points(encrypted_shares) {
                Ok(enc_shares) => {
                    let mut copy: Vec<CompressedRistretto> = Vec::new();
                    let mut i: usize = 0;
                    while i < encrypted_shares.len()
                        invariant
                            i <= encrypted_shares.len(),
                            copy@ == encrypted_shares@.subrange(0, i as int),
                        decreases encrypted_shares.len() - i,
                    {
                        copy.push(encrypted_shares[i]);
                        assert(copy@ =~= encrypted_shares@.subrange(0, i + 1));
                        i += 1;
                    }
                    assert(encrypted_shares@.subrange(0, i as int) =~= encrypted_shares@);
                    assert(enc_shares@[self.index - 1].wf());
                    self.encrypted_share = Some(enc_shares[self.index - 1]);
                    self.encrypted_shares = Some((copy, enc_shares));
                    Ok(())
                },
                Err(x) => Err(x),
            }
        } else {
            Err(
                Error::CountMismatch(self.n, "parties", encrypted_shares.len(), "encrypted shares"),
            )
        }
    }

    /// Takes the public keys of the `n - 1` other parties, in order, and
    /// puts the party's own key at its place.
    pub fn ingest_public_keys(&mut self, public_keys: &[CompressedRistretto]) -> (r: Result<
        (),
        Error,
    >)
        requires
            old(self).wf(),
        ensures
            final(self).wf(),
            final(self).same_identity(old(self)),
            final(self).share_proof == old(self).share_proof,
            final(self).encrypted_share == old(self).encrypted_share,
            final(self).decrypted_share == old(self).decrypted_share,
            final(self).dealer_proof == old(self).dealer_proof,
            final(self).encrypted_shares == old(self).encrypted_shares,
            final(self).decrypted_shares == old(self).decrypted_shares,
            final(self).share_proofs == old(self).share_proofs,
            final(self).validated_shares == old(self).validated_shares,
            final(self).qualified_set == old(self).qualified_set,
            public_keys.len() != old(self).n - 1 ==> r == Err::<(), Error>(
                Error::CountMismatch(old(self).n, "parties", public_keys.len(), "public_keys"),
            ),
            public_keys.len() == old(self).n - 1 && first_invalid(public_keys@) < public_keys@.len()
                ==> r == Err::<(), Error>(
                Error::PointDecompressionError(public_keys[first_invalid(public_keys@)].bytes),
            ),
            public_keys.len() == old(self).n - 1 && first_invalid(public_keys@)
                == public_keys@.len() ==> r is Ok,
            r is Err ==> final(self).public_keys == old(self).public_keys,
            r is Ok ==> (final(self).public_keys matches Some(pks) && {
                &&& pks.len() == old(self).n
                &&& pks[old(self).index - 1] == old(self).public_key.1
                &&& forall|i: int|
                    0 <= i < old(self).index - 1 ==> (#[trigger] pks[i]).wf() && pks[i]@
                        == public_keys[i]@
                &&& forall|i: int|
                    old(self).index <= i < old(self).n ==> (#[trigger] pks[i]).wf() && pks[i]@
                        == public_keys[i - 1]@
            }),
    {
        match crate::utils::ingest_public_keys(self.n, &self.public_key.1, self.index, public_keys) {
            Ok(pks) => {
                proof {
                    assert forall|i: int| 0 <= i < pks.len() implies (#[trigger] pks[i]).wf() by {
                        if i == self.index - 1 {
                        } else if i < self.index - 1 {
                        } else {
                        }
                    }
                }
                self.public_keys = Some(pks);
                Ok(())
            },
            Err(x) => Err(x),
        }
    }

    /// Takes the dealer's proof; fails where the challenge is zero, and then
    /// where the polynomial has not `t + 1` coefficients.
    pub fn ingest_dealer_proof(&mut self, d: Scalar, z: Polynomial) -> (r: Result<(), Error>)
        requires
            old(self).wf(),
        ensures
            final(self).wf(),
            final(self).same_identity(old(self)),
            final(self).share_proof == old(self).share_proof,
            final(self).encrypted_share == old(self).encrypted_share,
            final(self).decrypted_share == old(self).decrypted_share,
            final(self).public_keys == old(self).public_keys,
            final(self).encrypted_shares == old(self).encrypted_shares,
            final(self).decrypted_shares == old(self).decrypted_shares,
            final(self).share_proofs == old(self).share_proofs,
            final(self).validated_shares == old(self).validated_shares,
            final(self).qualified_set == old(self).qualified_set,
            d.bytes@ == Scalar::zero_bytes() ==> r == Err::<(), Error>(
                Error::InvalidProof(ProofDefect::ZeroChallenge),
            ),
            d.bytes@ != Scalar::zero_bytes() && z.coefficients.len() != old(self).t + 1 ==> r
                == Err::<(), Error>(
                Error::InvalidProof(
                    ProofDefect::PolynomialLength { len: z.coefficients.len(), t: old(self).t },
                ),
            ),
            d.bytes@ != Scalar::zero_bytes() && z.coefficients.len() == old(self).t + 1 ==> r
                is Ok,
            r is Err ==> final(self).dealer_proof == old(self).dealer_proof,
            r is Ok ==> final(self).dealer_proof == Some((d, z)),
    {
        if d.is_zero() {
            Err(Error::InvalidProof(ProofDefect::ZeroChallenge))
        } else if z.len() != self.t + 1 {
            Err(Error::InvalidProof(ProofDefect::PolynomialLength { len: z.len(), t: self.t }))
        } else {
            self.dealer_proof = Some((d, z));
            Ok(())
        }
    }

    /// Takes the decrypted shares and the proofs of the `n - 1` other
    /// parties, in order, and puts the party's own at its place. Fails where
    /// the counts are wrong, where an entry is no group element, and where
    /// the party's own decrypted share or proof is missing.
    pub fn ingest_decrypted_shares_and_proofs(
        &mut self,
        decrypted_shares: &[CompressedRistretto],
        proofs: Vec<(Scalar, Scalar)>,
    ) -> (r: Result<(), Error>)
        requires
            old(self).wf(),
        ensures
            final(self).wf(),
            final(self).same_identity(old(self)),
            final(self).share_proof == old(self).share_proof,
            final(self).encrypted_share == old(self).encrypted_share,
            final(self).decrypted_share == old(self).decrypted_share,
            final(self).dealer_proof == old(self).dealer_proof,
            final(self).public_keys == old(self).public_keys,
            final(self).encrypted_shares == old(self).encrypted_shares,
            final(self).validated_shares == old(self).validated_shares,
            final(self).qualified_set == old(self).qualified_set,
            decrypted_shares.len() != old(self).n - 1 ==> r == Err::<(), Error>(
                Error::CountMismatch(
                    old(self).n,
                    "parties",
                    decrypted_shares.len(),
                    "decrypted shares",
                ),
            ),
            decrypted_shares.len() == old(self).n - 1 && proofs.len() != decrypted_shares.len()
                ==> r == Err::<(), Error>(
                Error::CountMismatch(old(self).n, "parties", proofs.len(), "proofs"),
            ),
            decrypted_shares.len() == old(self).n - 1 && proofs.len() == decrypted_shares.len() ==> {
                let decodable = first_invalid(decrypted_shares@) == decrypted_shares@.len();
                &&& !decodable ==> r == Err::<(), Error>(
                    Error::PointDecompressionError(
                        decrypted_shares[first_invalid(decrypted_shares@)].bytes,
                    ),
                )
                &&& decodable && old(self).decrypted_share is None && old(self).share_proof is Some
                    ==> r == Err::<(), Error>(Error::UninitializedValue("party.decrypted_share"))
                &&& decodable && old(self).decrypted_share is Some && old(self).share_proof is None
                    ==> r == Err::<(), Error>(Error::UninitializedValue("party.share_proof"))
                &&& decodable && old(self).decrypted_share is None && old(self).share_proof is None
                    ==> r == Err::<(), Error>(
                    Error::UninitializedValue("party.{decrypted_share, share_proof}"),
                )
                &&& decodable && old(self).decrypted_share is Some && old(self).share_proof is Some
                    ==> r is Ok
            },
            r is Err ==> final(self).decrypted_shares == old(self).decrypted_shares && final(self).share_proofs == old(self).share_proofs,
            r is Ok ==> (final(self).decrypted_shares matches Some(ds) && final(self).share_proofs matches Some(ps) && {
                &&& ds.len() == old(self).n
                &&& ps@ == proofs@.insert(
                    old(self).index - 1,
                    old(self).share_proof->Some_0,
                )
                &&& ds[old(self).index - 1] == old(self).decrypted_share->Some_0
                &&& forall|i: int|
                    0 <= i < old(self).index - 1 ==> (#[trigger] ds[i])@ == decrypted_shares[i]@
                &&& forall|i: int|
                    old(self).index <= i < old(self).n ==> (#[trigger] ds[i])@
                        == decrypted_shares[i - 1]@
            }),
    {
        if decrypted_shares.len() == self.n - 1 {
            if proofs.len() == decrypted_shares.len() {
                match batch_decompress_ristretto_points(decrypted_shares) {
                    Ok(mut dec_shares) => match (self.decrypted_share, self.share_proof) {
                        (Some(own_dec_share), Some(own_proof)) => {
                            let ghost others = dec_shares@;
                            dec_shares.insert(self.index - 1, own_dec_share);
                            let mut proofs = proofs;
                            proofs.insert(self.index - 1, own_proof);
                            proof {
                                assert forall|i: int| 0 <= i < self.n implies (
                                #[trigger] dec_shares[i]).wf() by {
                                    if i < self.index - 1 {
                                        assert(dec_shares[i] == others[i]);
                                    } else if i == self.index - 1 {
                                    } else {
                                        assert(dec_shares[i] == others[i - 1]);
                                    }
                                }
                                assert forall|i: int| 0 <= i < self.index - 1 implies (
                                #[trigger] dec_shares[i])@ == decrypted_shares[i]@ by {
                                    assert(dec_shares[i] == others[i]);
                                }
                                assert forall|i: int| self.index <= i < self.n implies (
                                #[trigger] dec_shares[i])@ == decrypted_shares[i - 1]@ by {
                                    assert(dec_shares[i] == others[i - 1]);
                                }
                            }
                            self.decrypted_shares = Some(dec_shares);
                            self.share_proofs = Some(proofs);
                            Ok(())
                        },
                        (None, Some(_)) => Err(Error::UninitializedValue("party.decrypted_share")),
                        (Some(_), None) => Err(Error::UninitializedValue("party.share_proof")),
                        (None, None) => Err(
                            Error::UninitializedValue("party.{decrypted_share, share_proof}"),
                        ),
                    },
                    Err(x) => Err(x),
                }
            } else {
                Err(Error::CountMismatch(self.n, "parties", proofs.len(), "proofs"))
            }
        } else {
            Err(
                Error::CountMismatch(self.n, "parties", decrypted_shares.len(), "decrypted shares"),
            )
        }
    }

    /// Checks the dealer's proof against the encrypted shares of all the
    /// parties. Fails where the proof, the encrypted shares or the public
    /// keys have not been ingested.
    pub fn verify_encrypted_shares(
        &self,
        hasher: &mut Transcript,
        buf: &mut [u8; 64],
        xpows: &Vec<Vec<Scalar>>,
    ) -> (r: Result<bool, Error>)
        requires
            self.wf(),
            self.n <= xpows.len(),
        ensures
            self.dealer_proof is None ==> r == Err::<bool, Error>(
                Error::UninitializedValue("party.dealer_proof"),
            ),
            self.dealer_proof is Some && self.encrypted_shares is Some && self.public_keys is None
                ==> r == Err::<bool, Error>(Error::UninitializedValue("party.public_keys")),
            self.dealer_proof is Some && self.encrypted_shares is None && self.public_keys is Some
                ==> r == Err::<bool, Error>(Error::UninitializedValue("party.encrypted_shares")),
            self.dealer_proof is Some && self.encrypted_shares is None && self.public_keys is None
                ==> r == Err::<bool, Error>(
                Error::UninitializedValue("party.{encrypted_shares, public_keys}"),
            ),
            r is Err ==> final(hasher)@ == old(hasher)@ && final(buf)@ == old(buf)@,
            (self.dealer_proof, self.encrypted_shares, self.public_keys) matches (
                Some(proof),
                Some(enc),
                Some(pks),
            ) ==> {
                &&& r == Ok::<bool, Error>(
                    proof_accepted(proof.0, proof.1@, xpows@, pks@, enc.0@, enc.1@, old(hasher)@),
                )
                &&& final(hasher)@ == Seq::<u8>::empty()
                &&& final(buf)@ == zeroed()
            },
    {
        match &self.dealer_proof {
            Some((d, z)) => match (&self.encrypted_shares, &self.public_keys) {
                (Some(encrypted_shares), Some(public_keys)) => {
                    Ok(
                        check_proof(
                            d,
                            z,
                            xpows,
                            public_keys,
                            &encrypted_shares.0,
                            &encrypted_shares.1,
                            hasher,
                            buf,
                        ),
                    )
                },
                (Some(_), None) => Err(Error::UninitializedValue("party.public_keys")),
                (None, Some(_)) => Err(Error::UninitializedValue("party.encrypted_shares")),
                (None, None) => Err(
                    Error::UninitializedValue("party.{encrypted_shares, public_keys}"),
                ),
            },
            None => Err(Error::UninitializedValue("party.dealer_proof")),
        }
    }

    /// Decrypts the party's own encrypted share with the inverse of its
    /// private key. Fails where no encrypted share has been ingested.
    pub fn decrypt_share(&mut self) -> (r: Result<(), Error>)
        requires
            old(self).wf(),
        ensures
            final(self).wf(),
            final(self).same_identity(old(self)),
            final(self).share_proof == old(self).share_proof,
            final(self).encrypted_share == old(self).encrypted_share,
            final(self).dealer_proof == old(self).dealer_proof,
            final(self).public_keys == old(self).public_keys,
            final(self).encrypted_shares == old(self).encrypted_shares,
            final(self).decrypted_shares == old(self).decrypted_shares,
            final(self).share_proofs == old(self).share_proofs,
            final(self).validated_shares == old(self).validated_shares,
            final(self).qualified_set == old(self).qualified_set,
            old(self).encrypted_share is None ==> r == Err::<(), Error>(
                Error::UninitializedValue("party.encrypted_share"),
            ) && final(self).decrypted_share == old(self).decrypted_share,
            old(self).encrypted_share matches Some(e) ==> r is Ok && (final(self).decrypted_share matches Some(v) && v@ == ristretto_mul(
                inv_mod(old(self).private_key@),
                e@,
            )),
    {
        match self.encrypted_share {
            Some(encrypted_share) => {
                self.decrypted_share = Some(
                    crate::secret_sharing::decrypt_share(&self.private_key, &encrypted_share),
                );
                Ok(())
            },
            None => Err(Error::UninitializedValue("party.encrypted_share")),
        }
    }

    /// Chooses the qualified set: `t + 1` of the validated parties, by a
    /// shuffle, each with its decrypted share. Fails where the decrypted
    /// shares have not been ingested, and where no more than `t` are
    /// validated.
    pub fn select_qualified_set<R: CryptoRng + RngCore>(&mut self, rng: &mut R) -> (r: Result<
        (),
        Error,
    >)
        requires
            old(self).wf(),
        ensures
            final(self).wf(),
            final(self).same_identity(old(self)),
            final(self).share_proof == old(self).share_proof,
            final(self).encrypted_share == old(self).encrypted_share,
            final(self).decrypted_share == old(self).decrypted_share,
            final(self).dealer_proof == old(self).dealer_proof,
            final(self).public_keys == old(self).public_keys,
            final(self).encrypted_shares == old(self).encrypted_shares,
            final(self).decrypted_shares == old(self).decrypted_shares,
            final(self).share_proofs == old(self).share_proofs,
            final(self).validated_shares == old(self).validated_shares,
            old(self).decrypted_shares is None ==> r == Err::<(), Error>(
                Error::UninitializedValue("party.decrypted_shares"),
            ),
            old(self).decrypted_shares is Some && old(self).validated_shares.len() <= old(self).t
                ==> r == Err::<(), Error>(
                Error::InsufficientShares(old(self).validated_shares.len(), old(self).t),
            ),
            old(self).decrypted_shares is Some && old(self).validated_shares.len() > old(self).t
                ==> r is Ok,
            r is Err ==> final(self).qualified_set == old(self).qualified_set,
            r is Ok ==> (final(self).qualified_set matches Some(q) && exists|chosen: Seq<usize>|
                chosen.to_multiset() == old(self).validated_shares@.to_multiset()
                    && #[trigger] is_qualified_from(
                    q@,
                    chosen,
                    old(self).decrypted_shares->Some_0@,
                    old(self).t as nat,
                )),
    {
        if self.decrypted_shares.is_none() {
            return Err(Error::UninitializedValue("party.decrypted_shares"));
        }
        match crate::secret_sharing::select_qualified_set(
            rng,
            self.t,
            &self.decrypted_shares,
            &self.validated_shares,
        ) {
            Ok(q) => {
                let ghost chosen = choose|chosen: Seq<usize>|
                    chosen.to_multiset() == self.validated_shares@.to_multiset()
                        && #[trigger] is_qualified_from(
                        q@,
                        chosen,
                        self.decrypted_shares->Some_0@,
                        self.t as nat,
                    );
                self.qualified_set = Some(q);
                assert(is_qualified_from(
                    self.qualified_set->Some_0@,
                    chosen,
                    self.decrypted_shares->Some_0@,
                    self.t as nat,
                ));
                return Ok(());
            },
            Err(e) => {
                return Err(e);
            },
        }
    }

    /// Proves of the party's decrypted share that it was decrypted with the
    /// private key of the party's public key. Fails where the decrypted or
    /// the encrypted share of the party is missing.
    pub fn dleq_share<R: CryptoRng + RngCore>(
        &mut self,
        g: &RistrettoPoint,
        rng: &mut R,
        hasher: &mut Transcript,
        buf: &mut [u8; 64],
    ) -> (r: Result<(), Error>)
        requires
            old(self).wf(),
            g.wf(),
        ensures
            final(self).wf(),
            final(self).same_identity(old(self)),
            final(self).encrypted_share == old(self).encrypted_share,
            final(self).decrypted_share == old(self).decrypted_share,
            final(self).dealer_proof == old(self).dealer_proof,
            final(self).public_keys == old(self).public_keys,
            final(self).encrypted_shares == old(self).encrypted_shares,
            final(self).decrypted_shares == old(self).decrypted_shares,
            final(self).share_proofs == old(self).share_proofs,
            final(self).validated_shares == old(self).validated_shares,
            final(self).qualified_set == old(self).qualified_set,
            old(self).decrypted_share is None && old(self).encrypted_share is Some ==> r == Err::<
                (),
                Error,
            >(Error::UninitializedValue("party.decrypted_share")),
            old(self).decrypted_share is Some && old(self).encrypted_share is None ==> r == Err::<
                (),
                Error,
            >(Error::UninitializedValue("party.encrypted_shares")),
            old(self).decrypted_share is None && old(self).encrypted_share is None ==> r == Err::<
                (),
                Error,
            >(Error::UninitializedValue("party.{decrypted_share, encrypted_shares}")),
            r is Err ==> final(self).share_proof == old(self).share_proof && final(hasher)@ == old(hasher)@ && final(buf)@ == old(buf)@,
            (old(self).decrypted_share, old(self).encrypted_share) matches (Some(dec), Some(enc))
                ==> r is Ok && (final(self).share_proof matches Some(proof) && has_dleq_proof(
                proof,
                g@,
                old(self).private_key@,
                old(self).public_key.0@,
                dec@,
                enc@,
                old(hasher)@,
            )) && final(hasher)@ == Seq::<u8>::empty() && final(buf)@ == zeroed(),
    {
        match (self.decrypted_share, self.encrypted_share) {
            (Some(decrypted_share), Some(encrypted_share)) => {
                let nonce = random_scalar(rng);
                let proof_pair = dleq_prove(
                    g,
                    &self.private_key,
                    &self.public_key.0,
                    &decrypted_share,
                    &encrypted_share,
                    &nonce,
                    hasher,
                    buf,
                );
                self.share_proof = Some(proof_pair);
                Ok(())
            },
            (None, Some(_)) => Err(Error::UninitializedValue("party.decrypted_share")),
            (Some(_), None) => Err(Error::UninitializedValue("party.encrypted_shares")),
            (None, None) => Err(
                Error::UninitializedValue("party.{decrypted_share, encrypted_shares}"),
            ),
        }
    }

    /// Checks the decrypted share of every party against its proof and
    /// records the positions of those that pass; the result says whether more
    /// than `t` did. Fails where the public keys, the encrypted shares, the
    /// decrypted shares or the proofs are missing.
    pub fn verify_decrypted_shares(&mut self, g: &RistrettoPoint) -> (r: Result<bool, Error>)
        requires
            old(self).wf(),
            g.wf(),
        ensures
            final(self).wf(),
            final(self).same_identity(old(self)),
            final(self).share_proof == old(self).share_proof,
            final(self).encrypted_share == old(self).encrypted_share,
            final(self).decrypted_share == old(self).decrypted_share,
            final(self).dealer_proof == old(self).dealer_proof,
            final(self).public_keys == old(self).public_keys,
            final(self).encrypted_shares == old(self).encrypted_shares,
            final(self).decrypted_shares == old(self).decrypted_shares,
            final(self).share_proofs == old(self).share_proofs,
            final(self).qualified_set == old(self).qualified_set,
            old(self).public_keys is None && old(self).encrypted_shares is Some ==> r == Err::<
                bool,
                Error,
            >(Error::UninitializedValue("party.public_keys")),
            old(self).public_keys is Some && old(self).encrypted_shares is None ==> r == Err::<
                bool,
                Error,
            >(Error::UninitializedValue("party.encrypted_shares")),
            old(self).public_keys is None && old(self).encrypted_shares is None ==> r == Err::<
                bool,
                Error,
            >(Error::UninitializedValue("party.{public_keys, encrypted_shares}")),
            old(self).public_keys is Some && old(self).encrypted_shares is Some ==> {
                &&& old(self).decrypted_shares is None && old(self).share_proofs is Some ==> r
                    == Err::<bool, Error>(Error::UninitializedValue("party.decrypted_shares"))
                &&& old(self).decrypted_shares is Some && old(self).share_proofs is None ==> r
                    == Err::<bool, Error>(Error::UninitializedValue("party.share_proofs"))
                &&& old(self).decrypted_shares is None && old(self).share_proofs is None ==> r
                    == Err::<bool, Error>(
                    Error::UninitializedValue("party.{decrypted_shares, share_proofs}"),
                )
                &&& old(self).decrypted_shares is Some && old(self).share_proofs is Some ==> r
                    is Ok
            },
            r is Err ==> final(self).validated_shares == old(self).validated_shares,
            r is Ok ==> {
                &&& final(self).validated_shares@ == accepted_shares(
                    g@,
                    old(self).public_keys->Some_0@,
                    old(self).decrypted_shares->Some_0@,
                    old(self).share_proofs->Some_0@,
                    old(self).encrypted_shares->Some_0.1@,
                    old(self).n as nat,
                )
                &&& r == Ok::<bool, Error>(final(self).validated_shares@.len() > old(self).t)
            },
    {
        let n = self.n;
        let found: Result<Vec<usize>, Error> = match (&self.public_keys, &self.encrypted_shares) {
            (Some(public_keys), Some(enc_shares)) => {
                match (&self.decrypted_shares, &self.share_proofs) {
                    (Some(dec_shares), Some(proofs)) => {
                        let mut hasher = Transcript::new();
                        let mut buf = [0u8; 64];
                        let mut validated: Vec<usize> = Vec::new();
                        let mut i: usize = 0;
                        while i < n
                            invariant
                                i <= n,
                                n == self.n,
                                g.wf(),
                                public_keys.len() == n,
                                all_valid(public_keys@),
                                enc_shares.1.len() == n,
                                all_valid(enc_shares.1@),
                                dec_shares.len() == n,
                                all_valid(dec_shares@),
                                proofs.len() == n,
                                hasher@ == Seq::<u8>::empty(),
                                validated@ == accepted_shares(
                                    g@,
                                    public_keys@,
                                    dec_shares@,
                                    proofs@,
                                    enc_shares.1@,
                                    i as nat,
                                ),
                            decreases n - i,
                        {
                            proof {
                                assert(public_keys@[i as int].wf());
                                assert(enc_shares.1@[i as int].wf());
                                assert(dec_shares@[i as int].wf());
                            }
                            let accepted = dleq_verify(
                                g,
                                &public_keys[i],
                                &enc_shares.1[i],
                                &dec_shares[i],
                                &proofs[i].0,
                                &proofs[i].1,
                                &mut hasher,
                                &mut buf,
                            );
                            if accepted {
                                validated.push(i);
                            }
                            i += 1;
                        }
                        proof {
                            lemma_passing_indices(
                                n as nat,
                                |i: int|
                                    dleq_accepts(
                                        g@,
                                        public_keys@[i]@,
                                        enc_shares.1@[i]@,
                                        dec_shares@[i]@,
                                        proofs@[i].0,
                                        proofs@[i].1,
                                    ),
                            );
                        }
                        Ok(validated)
                    },
                    (None, Some(_)) => Err(Error::UninitializedValue("party.decrypted_shares")),
                    (Some(_), None) => Err(Error::UninitializedValue("party.share_proofs")),
                    (None, None) => Err(
                        Error::UninitializedValue("party.{decrypted_shares, share_proofs}"),
                    ),
                }
            },
            (None, Some(_)) => Err(Error::UninitializedValue("party.public_keys")),
            (Some(_), None) => Err(Error::UninitializedValue("party.encrypted_shares")),
            (None, None) => Err(Error::UninitializedValue("party.{public_keys, encrypted_shares}")),
        };
        match found {
            Ok(validated) => {
                self.validated_shares = validated;
                Ok(self.validated_shares.len() > self.t)
            },
            Err(e) => Err(e),
        }
    }

    /// The secret in the exponent from the qualified set and its Lagrange
    /// coefficients: the sum of `lambdas[i] * share_i`. Fails where no
    /// qualified set has been chosen.
    pub fn reconstruct_secret(&self, lambdas: &Vec<Scalar>) -> (r: Result<RistrettoPoint, Error>)
        requires
            self.qualified_set matches Some(q) ==> forall|i: int|
                0 <= i < q.len() ==> (#[trigger] q[i]).1.wf(),
        ensures
            self.qualified_set is None ==> r == Err::<RistrettoPoint, Error>(
                Error::UninitializedValue("party.qualified_set"),
            ),
            self.qualified_set is Some ==> r is Ok,
            (self.qualified_set, r) matches (Some(q), Ok(v)) ==> v.wf() && v@ == point_combination(
                scalar_values(lambdas@),
                point_values(q@),
                paired(q@.len(), lambdas@.len()),
            ),
    {
        crate::secret_sharing::reconstruct_secret_exponent(&self.qualified_set, lambdas)
    }
}

/// The `n` parties of a session, each with a freshly drawn private key.
pub fn generate_parties<R: CryptoRng + RngCore>(
    g: &RistrettoPoint,
    rng: &mut R,
    n: usize,
    t: usize,
) -> (r: Vec<Party>)
    requires
        g.wf(),
        t < n,
        t == (n - 1) / 2,
    ensures
        r.len() == n,
        forall|i: int|
            0 <= i < n ==> (#[trigger] r[i]).is_fresh(
                g,
                r[i].private_key,
                n,
                t,
                (i + 1) as usize,
            ) && r[i].private_key.wf(),
{
    let mut out: Vec<Party> = Vec::new();
    let mut i: usize = 0;
    while i < n
        invariant
            i <= n,
            g.wf(),
            t < n,
            t == (n - 1) / 2,
            out.len() == i,
            forall|q: int|
                0 <= q < i ==> (#[trigger] out[q]).is_fresh(
                    g,
                    out[q].private_key,
                    n,
                    t,
                    (q + 1) as usize,
                ) && out[q].private_key.wf(),
        decreases n - i,
    {
        let p = Party::new(g, rng, n, t, i + 1).unwrap();
        out.push(p);
        i += 1;
    }
    out
}

} // verus!
