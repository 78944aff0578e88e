//! A party of the batched publicly verifiable protocol.

use crate::b_pi_s::dealer::{absorb_rows, concat_rows};
use crate::commit::{
    absorb_points, check_parameters, lemma_passing_indices, passing_indices, valid_parameters,
};
use crate::dleq::{dleq_accepts, dleq_prove, dleq_verify, has_dleq_proof, is_dleq_proof};
use crate::error::{Error, ProofDefect};
use crate::field::{congruent, dot, inv_mod, lemma_reduced, lemma_small_is_reduced, order};
use crate::polynomial::Polynomial;
use crate::random::random_scalar;
use crate::ristretto::{
    all_valid, copy_encodings, copy_points, fold_points, identity_encoding,
    lemma_point_fold_congruent, paired, point_encodings, point_fold, ristretto_mul, ristretto_sub,
    CompressedRistretto, RistrettoPoint,
};
use crate::scalar::{lemma_scalar_of, scalar_of, scalar_values, Scalar};
use crate::secret_sharing::{is_qualified_from, point_column, point_combination};
use crate::transcript::{wipe, zeroed, Transcript};
use crate::utils::{
    batch_decompress_batched_ristretto_points, challenge, compute_d_powers, concat_encodings,
    decoded, first_invalid, first_invalid_row,
};
use rand::{CryptoRng, RngCore};
use vstd::arithmetic::power::{lemma_pow1, pow};
use vstd::prelude::*;

verus! {

/// The powers `d, d^2, .., d^k`, as integers.
pub open spec fn raw_powers(d: int, k: nat) -> Seq<int> {
    Seq::new(k, |i: int| pow(d, (i + 1) as nat))
}

/// What the verifier recomputes for the party at position `i`: its public
/// key multiplied by the value of `z` for it, less its encrypted shares
/// weighted by the powers of `d`.
pub open spec fn recomputed_blinding(
    z: Seq<int>,
    x_pows: Seq<Vec<Scalar>>,
    public_key: Seq<u8>,
    row: Seq<RistrettoPoint>,
    d: int,
    k: nat,
    i: int,
) -> Seq<u8> {
    ristretto_sub(
        ristretto_mul(dot(z, scalar_values(x_pows[i]@)) % order(), public_key),
        point_fold(
            identity_encoding(),
            raw_powers(d, k),
            point_encodings(row),
            paired(row.len(), k),
        ),
    )
}

/// The encodings of what the verifier recomputes for the first `m` parties.
pub open spec fn suite_bytes(
    z: Seq<int>,
    x_pows: Seq<Vec<Scalar>>,
    public_keys: Seq<RistrettoPoint>,
    rows: Seq<Vec<RistrettoPoint>>,
    d: int,
    k: nat,
    m: nat,
) -> Seq<u8>
    decreases m,
{
    if m == 0 {
        Seq::empty()
    } else {
        suite_bytes(z, x_pows, public_keys, rows, d, k, (m - 1) as nat) + recomputed_blinding(
            z,
            x_pows,
            public_keys[m - 1]@,
            rows[m - 1]@,
            d,
            k,
            m - 1,
        )
    }
}

/// Whether the proof `(d, z)` is accepted for the encrypted shares: whether
/// `d` is the challenge for the encrypted shares and what the verifier
/// recomputes from them.
pub open spec fn proof_accepted(
    d: Scalar,
    z: Seq<int>,
    x_pows: Seq<Vec<Scalar>>,
    public_keys: Seq<RistrettoPoint>,
    compressed: Seq<Vec<CompressedRistretto>>,
    rows: Seq<Vec<RistrettoPoint>>,
) -> bool {
    d == scalar_of(
        challenge(
            concat_rows(compressed) + suite_bytes(
                z,
                x_pows,
                public_keys,
                rows,
                d@,
                compressed[0]@.len(),
                public_keys.len(),
            ),
        ),
    )
}

/// What the transcript holds when the proof at position `k` is made: what it
/// was handed over with for the first, and nothing for the others.
pub open spec fn absorbed_before(k: int, first: Seq<u8>) -> Seq<u8> {
    if k == 0 {
        first
    } else {
        Seq::empty()
    }
}

/// The number of positions that three lists all have.
pub open spec fn paired3(a: nat, b: nat, c: nat) -> nat {
    paired(paired(a, b), c)
}

/// Whether every decrypted share of a party comes with an accepted proof.
pub open spec fn row_accepted(
    g: Seq<u8>,
    public_key: Seq<u8>,
    decrypted: Seq<RistrettoPoint>,
    proofs: Seq<(Scalar, Scalar)>,
    encrypted: Seq<RistrettoPoint>,
) -> bool {
    forall|k: int|
        0 <= k < paired3(decrypted.len(), proofs.len(), encrypted.len()) ==> dleq_accepts(
            g,
            public_key,
            (#[trigger] encrypted[k])@,
            decrypted[k]@,
            proofs[k].0,
            proofs[k].1,
        )
}

/// The positions below `m` of the parties whose decrypted shares are all
/// accepted, in rising order.
pub open spec fn accepted_rows(
    g: Seq<u8>,
    public_keys: Seq<RistrettoPoint>,
    decrypted: Seq<Vec<RistrettoPoint>>,
    proofs: Seq<Vec<(Scalar, Scalar)>>,
    encrypted: Seq<Vec<RistrettoPoint>>,
    m: nat,
) -> Seq<usize> {
    passing_indices(
        m,
        |i: int| row_accepted(g, public_keys[i]@, decrypted[i]@, proofs[i]@, encrypted[i]@),
    )
}

/// A copy of a list of proofs.
pub fn copy_proofs(v: &Vec<(Scalar, Scalar)>) -> (r: Vec<(Scalar, Scalar)>)
    ensures
        r@ == v@,
{
    let mut out: Vec<(Scalar, Scalar)> = Vec::new();
    let mut i: usize = 0;
    while i < v.len()
        invariant
            i <= v.len(),
            out@ == v@.subrange(0, i as int),
        decreases v.len() - i,
    {
        out.push((v[i].0, v[i].1));
        assert(out@ =~= v@.subrange(0, i + 1));
        i += 1;
    }
    assert(v@.subrange(0, i as int) =~= v@);
    out
}

/// A party, with what it has been given so far.
#[derive(Debug)]
pub struct Party {
    pub private_key: Scalar,
    pub public_key: (CompressedRistretto, RistrettoPoint),
    pub index: usize,
    pub n: usize,
    pub t: usize,
    pub public_keys: Option<Vec<RistrettoPoint>>,
    pub dealer_proof: Option<(Scalar, Polynomial)>,
    pub validated_shares: Vec<usize>,
    pub encrypted_share: Option<Vec<RistrettoPoint>>,
    pub decrypted_share: Option<Vec<RistrettoPoint>>,
    pub encrypted_shares: Option<(Vec<Vec<CompressedRistretto>>, Vec<Vec<RistrettoPoint>>)>,
    pub decrypted_shares: Option<Vec<Vec<RistrettoPoint>>>,
    pub share: Option<Vec<Scalar>>,
    pub share_proof: Option<Vec<(Scalar, Scalar)>>,
    pub share_proofs: Option<Vec<Vec<(Scalar, Scalar)>>>,
    pub shares: Option<Vec<Vec<Scalar>>>,
    pub qualified_set: Option<Vec<(usize, Vec<RistrettoPoint>)>>,
}

impl Party {
    /// The parameters are an honest-majority set, the points held are group
    /// elements, and what was ingested has the sizes that the parameters ask
    /// for.
    pub open spec fn wf(&self) -> bool {
        &&& valid_parameters(self.n, self.t, self.index)
        &&& self.public_key.1.wf()
        &&& self.public_key.0@ == self.public_key.1@
        &&& (self.public_keys matches Some(p) ==> p.len() == self.n && all_valid(p@))
        &&& (self.dealer_proof matches Some(proof) ==> proof.1.coefficients.len() == self.t + 1)
        &&& (self.encrypted_share matches Some(e) ==> all_valid(e@))
        &&& (self.decrypted_share matches Some(e) ==> all_valid(e@))
        &&& (self.encrypted_shares matches Some(e) ==> e.0.len() == self.n && e.1.len() == self.n
            && forall|i: int| 0 <= i < self.n ==> decoded(e.0[i]@, (#[trigger] e.1[i])@))
        &&& (self.decrypted_shares matches Some(d) ==> d.len() == self.n && forall|i: int|
            0 <= i < self.n ==> all_valid((#[trigger] d[i])@))
        &&& (self.share_proofs matches Some(s) ==> s.len() == self.n)
        &&& forall|i: int|
            0 <= i < self.validated_shares.len() ==> self.validated_shares[i] < self.n
    }

    /// The two parties have the same keys, parameters and index.
    pub open spec fn same_identity(&self, other: &Party) -> bool {
        &&& self.private_key == other.private_key
        &&& self.public_key == other.public_key
        &&& self.index == other.index
        &&& self.n == other.n
        &&& self.t == other.t
    }

    /// The party is as it is made: nothing ingested, and the public key is
    /// the generator multiplied by the private key.
    pub open spec fn is_fresh(
        &self,
        g: &RistrettoPoint,
        private_key: Scalar,
        n: usize,
        t: usize,
        index: usize,
    ) -> bool {
        &&& self.wf()
        &&& self.private_key == private_key
        &&& self.public_key.1@ == ristretto_mul(private_key@ % order(), g@)
        &&& self.index == index
        &&& self.n == n
        &&& self.t == t
        &&& self.public_keys is None
        &&& self.dealer_proof is None
        &&& self.validated_shares@ == Seq::<usize>::empty()
        &&& self.encrypted_share is None
        &&& self.decrypted_share is None
        &&& self.encrypted_shares is None
        &&& self.decrypted_shares is None
        &&& self.share is None
        &&& self.share_proof is None
        &&& self.share_proofs is None
        &&& self.shares is None
        &&& self.qualified_set is None
    }

    /// A party with a freshly drawn private key; fails where `(n, t, index)`
    /// is no honest-majority parameter set.
    pub fn new<R: CryptoRng + RngCore>(
        g: &RistrettoPoint,
        rng: &mut R,
        n: usize,
        t: usize,
        index: usize,
    ) -> (r: Result<Self, Error>)
        requires
            g.wf(),
        ensures
            !valid_parameters(n, t, index) ==> r == Err::<Self, Error>(
                Error::InvalidParameterSet(n, t, index),
            ),
            valid_parameters(n, t, index) ==> r is Ok,
            r matches Ok(p) ==> p.is_fresh(g, p.private_key, n, t, index) && p.private_key.wf(),
    {
        let private_key = random_scalar(rng);
        Party::from_private_key(g, private_key, n, t, index)
    }

    /// A party with the given private key; fails where `(n, t, index)` is no
    /// honest-majority parameter set.
    pub fn from_private_key(
        g: &RistrettoPoint,
        private_key: Scalar,
        n: usize,
        t: usize,
        index: usize,
    ) -> (r: Result<Self, Error>)
        requires
            g.wf(),
        ensures
            !valid_parameters(n, t, index) ==> r == Err::<Self, Error>(
                Error::InvalidParameterSet(n, t, index),
            ),
            valid_parameters(n, t, index) ==> r is Ok,
            r matches Ok(p) ==> p.is_fresh(g, private_key, n, t, index),
    {
        let public_key = g.mul(&private_key);
        if check_parameters(n, t, index) {
            Ok(
                Party {
                    private_key,
                    public_key: (public_key.compress(), public_key),
                    index,
                    n,
                    t,
                    dealer_proof: None,
                    share: None,
                    public_keys: None,
                    validated_shares: Vec::new(),
                    encrypted_shares: None,
                    decrypted_shares: None,
                    encrypted_share: None,
                    decrypted_share: None,
                    share_proof: None,
                    share_proofs: None,
                    shares: None,
                    qualified_set: None,
                },
            )
        } else {
            Err(Error::InvalidParameterSet(n, t, index))
        }
    }

    /// Takes the party's own share.
    pub fn ingest_share(&mut self, share: &Vec<Scalar>)
        ensures
            final(self).share matches Some(s) && s@ == share@,
            final(self).same_identity(old(self)),
            final(self).public_keys == old(self).public_keys,
            final(self).dealer_proof == old(self).dealer_proof,
            final(self).validated_shares == old(self).validated_shares,
            final(self).encrypted_share == old(self).encrypted_share,
            final(self).decrypted_share == old(self).decrypted_share,
            final(self).encrypted_shares == old(self).encrypted_shares,
            final(self).decrypted_shares == old(self).decrypted_shares,
            final(self).share_proof == old(self).share_proof,
            final(self).share_proofs == old(self).share_proofs,
            final(self).shares == old(self).shares,
            final(self).qualified_set == old(self).qualified_set,
            old(self).wf() ==> final(self).wf(),
    {
        self.share = Some(crate::commit::copy_scalars(share));
    }

    /// Takes the public keys of the `n - 1` other parties, in order, and
    /// puts the party's own key at its place.
    pub fn ingest_public_keys(&mut self, public_keys: &[CompressedRistretto]) -> (r: Result<
        (),
        Error,
    >)
        requires
            old(self).wf(),
        ensures
            final(self).wf(),
            final(self).same_identity(old(self)),
            final(self).dealer_proof == old(self).dealer_proof,
            final(self).validated_shares == old(self).validated_shares,
            final(self).encrypted_share == old(self).encrypted_share,
            final(self).decrypted_share == old(self).decrypted_share,
            final(self).encrypted_shares == old(self).encrypted_shares,
            final(self).decrypted_shares == old(self).decrypted_shares,
            final(self).share == old(self).share,
            final(self).share_proof == old(self).share_proof,
            final(self).share_proofs == old(self).share_proofs,
            final(self).shares == old(self).shares,
            final(self).qualified_set == old(self).qualified_set,
            public_keys.len() != old(self).n - 1 ==> r == Err::<(), Error>(
                Error::CountMismatch(old(self).n, "parties", public_keys.len(), "public_keys"),
            ),
            public_keys.len() == old(self).n - 1 && first_invalid(public_keys@) < public_keys@.len()
                ==> r == Err::<(), Error>(
                Error::PointDecompressionError(public_keys[first_invalid(public_keys@)].bytes),
            ),
            public_keys.len() == old(self).n - 1 && first_invalid(public_keys@)
                == public_keys@.len() ==> r is Ok,
            r is Err ==> final(self).public_keys == old(self).public_keys,
            r is Ok ==> (final(self).public_keys matches Some(pks) && {
                &&& pks.len() == old(self).n
                &&& pks[old(self).index - 1] == old(self).public_key.1
                &&& forall|i: int|
                    0 <= i < old(self).index - 1 ==> (#[trigger] pks[i]).wf() && pks[i]@
                        == public_keys[i]@
                &&& forall|i: int|
                    old(self).index <= i < old(self).n ==> (#[trigger] pks[i]).wf() && pks[i]@
                        == public_keys[i - 1]@
            }),
    {
        match crate::utils::ingest_public_keys(self.n, &self.public_key.1, self.index, public_keys) {
            Ok(pks) => {
                proof {
                    assert forall|i: int| 0 <= i < pks.len() implies (#[trigger] pks[i]).wf() by {
                        if i == self.index - 1 {
                        } else if i < self.index - 1 {
                        } else {
                        }
                    }
                }
                self.public_keys = Some(pks);
                Ok(())
            },
            Err(x) => Err(x),
        }
    }

    /// Takes the dealer's proof; fails where the polynomial has not `t + 1`
    /// coefficients.
    pub fn ingest_dealer_proof(&mut self, proof: (&Scalar, &Polynomial)) -> (r: Result<(), Error>)
        requires
            old(self).wf(),
        ensures
            final(self).wf(),
            final(self).same_identity(old(self)),
            final(self).public_keys == old(self).public_keys,
            final(self).validated_shares == old(self).validated_shares,
            final(self).encrypted_share == old(self).encrypted_share,
            final(self).decrypted_share == old(self).decrypted_share,
            final(self).encrypted_shares == old(self).encrypted_shares,
            final(self).decrypted_shares == old(self).decrypted_shares,
            final(self).share == old(self).share,
            final(self).share_proof == old(self).share_proof,
            final(self).share_proofs == old(self).share_proofs,
            final(self).shares == old(self).shares,
            final(self).qualified_set == old(self).qualified_set,
            proof.1.coefficients.len() != old(self).t + 1 ==> r == Err::<(), Error>(
                Error::InvalidProof(
                    ProofDefect::PolynomialLength {
                        len: proof.1.coefficients.len(),
                        t: old(self).t,
                    },
                ),
            ) && final(self).dealer_proof == old(self).dealer_proof,
            proof.1.coefficients.len() == old(self).t + 1 ==> r is Ok && (final(self).dealer_proof matches Some(held) && held.0 == *proof.0 && held.1.coefficients@
                == proof.1.coefficients@),
    {
        if proof.1.len() != self.t + 1 {
            Err(
                Error::InvalidProof(ProofDefect::PolynomialLength { len: proof.1.len(), t: self.t }),
            )
        } else {
            self.dealer_proof = Some((*proof.0, proof.1.clone()));
            Ok(())
        }
    }

    /// Checks the dealer's proof against the encrypted shares of all the
    /// parties. Fails where the proof, the encrypted shares or the public
    /// keys have not been ingested.
    pub fn verify_encrypted_shares(
        &mut self,
        hasher: &mut Transcript,
        buf: &mut [u8; 64],
        x_pows: &Vec<Vec<Scalar>>,
    ) -> (r: Result<bool, Error>)
        requires
            old(self).wf(),
            old(self).n <= x_pows.len(),
        ensures
            *final(self) == *old(self),
            old(self).dealer_proof is None ==> r == Err::<bool, Error>(
                Error::UninitializedValue("party.dealer_proof"),
            ),
            old(self).dealer_proof is Some && old(self).encrypted_shares is Some && old(self).public_keys is None ==> r == Err::<bool, Error>(
                Error::UninitializedValue("party.public_keys"),
            ),
            old(self).dealer_proof is Some && old(self).encrypted_shares is None && old(self).public_keys is Some ==> r == Err::<bool, Error>(
                Error::UninitializedValue("party.encrypted_shares"),
            ),
            old(self).dealer_proof is Some && old(self).encrypted_shares is None && old(self).public_keys is None ==> r == Err::<bool, Error>(
                Error::UninitializedValue("party.{encrypted_shares, public_keys}"),
            ),
            r is Err ==> final(hasher)@ == old(hasher)@ && final(buf)@ == old(buf)@,
            (old(self).dealer_proof, old(self).encrypted_shares, old(self).public_keys) matches (
                Some(proof),
                Some(enc),
                Some(pks),
            ) ==> {
                &&& r == Ok::<bool, Error>(
                    proof_accepted(proof.0, proof.1@, x_pows@, pks@, enc.0@, enc.1@),
                )
                &&& final(hasher)@ == Seq::<u8>::empty()
                &&& final(buf)@ == zeroed()
            },
    {
        match &self.dealer_proof {
            Some((d, z)) => match (&self.encrypted_shares, &self.public_keys) {
                (Some(encrypted_shares), Some(public_keys)) => {
                    hasher.reset();
                    wipe(buf);
                    let n = public_keys.len();
                    let k = encrypted_shares.0[0].len();
                    let d_vals = if k >= 1 {
                        compute_d_powers(k, d)
                    } else {
                        Vec::new()
                    };
                    let ghost raw = raw_powers(d@, k as nat);
                    proof {
                        assert forall|i: int| 0 <= i < k implies congruent(
                            #[trigger] scalar_values(d_vals@)[i],
                            raw[i],
                        ) by {
                            if i == 0 {
                                lemma_pow1(d@);
                            } else {
                                lemma_reduced(pow(d@, (i + 1) as nat));
                            }
                        }
                    }
                    let z_evals = z.evaluate_range_precomp(x_pows, 1, n);
                    let mut suite: Vec<CompressedRistretto> = Vec::new();
                    let mut i: usize = 0;
                    while i < n
                        invariant
                            i <= n,
                            n == self.n,
                            n == public_keys.len(),
                            n == encrypted_shares.1.len(),
                            n == encrypted_shares.0.len(),
                            n == z_evals.len(),
                            n <= x_pows.len(),
                            all_valid(public_keys@),
                            forall|q: int|
                                0 <= q < n ==> decoded(
                                    encrypted_shares.0[q]@,
                                    (#[trigger] encrypted_shares.1[q])@,
                                ),
                            d_vals.len() == k,
                            raw == raw_powers(d@, k as nat),
                            forall|q: int|
                                0 <= q < k ==> congruent(
                                    #[trigger] scalar_values(d_vals@)[q],
                                    raw[q],
                                ),
                            forall|q: int|
                                1 <= q <= n ==> (#[trigger] z_evals[q - 1])@ == dot(
                                    z@,
                                    scalar_values(x_pows[q - 1]@),
                                ) % order(),
                            suite.len() == i,
                            concat_encodings(suite@) == suite_bytes(
                                z@,
                                x_pows@,
                                public_keys@,
                                encrypted_shares.1@,
                                d@,
                                k as nat,
                                i as nat,
                            ),
                        decreases n - i,
                    {
                        let row = &encrypted_shares.1[i];
                        proof {
                            assert(decoded(encrypted_shares.0[i as int]@, row@));
                            assert(all_valid(row@));
                            assert(public_keys[i as int].wf());
                            assert(z_evals[i as int] == z_evals[(i + 1) - 1]);
                            lemma_small_is_reduced(z_evals[i as int]@);
                            lemma_point_fold_congruent(
                                identity_encoding(),
                                scalar_values(d_vals@),
                                raw,
                                point_encodings(row@),
                                paired(row@.len(), k as nat),
                            );
                        }
                        let weighted = fold_points(
                            RistrettoPoint::identity(),
                            d_vals.as_slice(),
                            row.as_slice(),
                        );
                        let entry = public_keys[i].mul(&z_evals[i]).sub(&weighted).compress();
                        let ghost before = suite@;
                        suite.push(entry);
                        proof {
                            assert(suite@.drop_last() =~= before);
                            assert(suite@.last() == entry);
                        }
                        i += 1;
                    }
                    absorb_rows(hasher, &encrypted_shares.0);
                    absorb_points(hasher, suite.as_slice());
                    hasher.squeeze(buf);
                    hasher.reset();
                    let d_comp = Scalar::from_bytes_mod_order_wide(buf);
                    wipe(buf);
                    proof {
                        let input = concat_rows(encrypted_shares.0@) + suite_bytes(
                            z@,
                            x_pows@,
                            public_keys@,
                            encrypted_shares.1@,
                            d@,
                            k as nat,
                            n as nat,
                        );
                        assert(Seq::<u8>::empty() + concat_rows(encrypted_shares.0@)
                            + concat_encodings(suite@) =~= input);
                        lemma_small_is_reduced(d_comp@);
                        lemma_scalar_of(d_comp, challenge(input));
                        if d.bytes@ == d_comp.bytes@ {
                            assert(d.bytes =~= d_comp.bytes);
                        }
                    }
                    Ok(d.equals(&d_comp))
                },
                (Some(_), None) => Err(Error::UninitializedValue("party.public_keys")),
                (None, Some(_)) => Err(Error::UninitializedValue("party.encrypted_shares")),
                (None, None) => Err(
                    Error::UninitializedValue("party.{encrypted_shares, public_keys}"),
                ),
            },
            None => Err(Error::UninitializedValue("party.dealer_proof")),
        }
    }

    /// Decrypts the party's own encrypted shares with the inverse of its
    /// private key. Fails where no encrypted share has been ingested.
    pub fn decrypt_shares(&mut self) -> (r: Result<(), Error>)
        requires
            old(self).wf(),
        ensures
            final(self).wf(),
            final(self).same_identity(old(self)),
            final(self).public_keys == old(self).public_keys,
            final(self).dealer_proof == old(self).dealer_proof,
            final(self).validated_shares == old(self).validated_shares,
            final(self).encrypted_share == old(self).encrypted_share,
            final(self).encrypted_shares == old(self).encrypted_shares,
            final(self).decrypted_shares == old(self).decrypted_shares,
            final(self).share == old(self).share,
            final(self).share_proof == old(self).share_proof,
            final(self).share_proofs == old(self).share_proofs,
            final(self).shares == old(self).shares,
            final(self).qualified_set == old(self).qualified_set,
            old(self).encrypted_share is None ==> r == Err::<(), Error>(
                Error::UninitializedValue("party.encrypted_share"),
            ) && final(self).decrypted_share == old(self).decrypted_share,
            old(self).encrypted_share matches Some(e) ==> r is Ok && (final(self).decrypted_share matches Some(v) && {
                &&& v.len() == e.len()
                &&& forall|k: int|
                    0 <= k < v.len() ==> (#[trigger] v[k])@ == ristretto_mul(
                        inv_mod(old(self).private_key@),
                        e[k]@,
                    )
            }),
    {
        let inv_private_key = self.private_key.invert();
        let found: Option<Vec<RistrettoPoint>> = match &self.encrypted_share {
            Some(encrypted_share) => {
                let mut out: Vec<RistrettoPoint> = Vec::new();
                let mut k: usize = 0;
                while k < encrypted_share.len()
                    invariant
                        k <= encrypted_share.len(),
                        all_valid(encrypted_share@),
                        inv_private_key.wf(),
                        inv_private_key@ == inv_mod(self.private_key@),
                        out.len() == k,
                        all_valid(out@),
                        forall|q: int|
                            0 <= q < k ==> (#[trigger] out[q])@ == ristretto_mul(
                                inv_mod(self.private_key@),
                                encrypted_share[q]@,
                            ),
                    decreases encrypted_share.len() - k,
                {
                    proof {
                        assert(encrypted_share@[k as int].wf());
                        lemma_small_is_reduced(inv_private_key@);
                    }
                    out.push(encrypted_share[k].mul(&inv_private_key));
                    k += 1;
                }
                Some(out)
            },
            None => None,
        };
        match found {
            Some(out) => {
                self.decrypted_share = Some(out);
                Ok(())
            },
            None => Err(Error::UninitializedValue("party.encrypted_share")),
        }
    }

    /// Proves of each of the party's decrypted shares that it was decrypted
    /// with the private key of the party's public key. Fails where the
    /// decrypted or the encrypted shares of the party are missing.
    pub fn dleq_share<R: CryptoRng + RngCore>(
        &mut self,
        g: &RistrettoPoint,
        rng: &mut R,
        hasher: &mut Transcript,
        buf: &mut [u8; 64],
    ) -> (r: Result<(), Error>)
        requires
            old(self).wf(),
            g.wf(),
        ensures
            final(self).wf(),
            final(self).same_identity(old(self)),
            final(self).public_keys == old(self).public_keys,
            final(self).dealer_proof == old(self).dealer_proof,
            final(self).validated_shares == old(self).validated_shares,
            final(self).encrypted_share == old(self).encrypted_share,
            final(self).decrypted_share == old(self).decrypted_share,
            final(self).encrypted_shares == old(self).encrypted_shares,
            final(self).decrypted_shares == old(self).decrypted_shares,
            final(self).share == old(self).share,
            final(self).share_proofs == old(self).share_proofs,
            final(self).shares == old(self).shares,
            final(self).qualified_set == old(self).qualified_set,
            old(self).decrypted_share is None && old(self).encrypted_share is Some ==> r == Err::<
                (),
                Error,
            >(Error::UninitializedValue("party.decrypted_share")),
            old(self).decrypted_share is Some && old(self).encrypted_share is None ==> r == Err::<
                (),
                Error,
            >(Error::UninitializedValue("party.encrypted_shares")),
            old(self).decrypted_share is None && old(self).encrypted_share is None ==> r == Err::<
                (),
                Error,
            >(Error::UninitializedValue("party.{decrypted_share, encrypted_shares}")),
            r is Err ==> final(self).share_proof == old(self).share_proof && final(hasher)@ == old(hasher)@ && final(buf)@ == old(buf)@,
            (old(self).decrypted_share, old(self).encrypted_share) matches (Some(dec), Some(enc))
                ==> r is Ok && (final(self).share_proof matches Some(proofs) && {
                &&& proofs.len() == paired(dec@.len(), enc@.len())
                &&& forall|k: int|
                    0 <= k < proofs.len() ==> has_dleq_proof(
                        #[trigger] proofs[k],
                        g@,
                        old(self).private_key@,
                        old(self).public_key.0@,
                        dec[k]@,
                        enc[k]@,
                        absorbed_before(k, old(hasher)@),
                    )
                &&& proofs.len() >= 1 ==> final(hasher)@ == Seq::<u8>::empty() && final(buf)@
                    == zeroed()
                &&& proofs.len() == 0 ==> final(hasher)@ == old(hasher)@ && final(buf)@ == old(buf)@
            }),
    {
        let found: Result<Vec<(Scalar, Scalar)>, Error> = match (
            &self.decrypted_share,
            &self.encrypted_share,
        ) {
            (Some(decrypted_shares), Some(encrypted_shares)) => {
                let m = if decrypted_shares.len() <= encrypted_shares.len() {
                    decrypted_shares.len()
                } else {
                    encrypted_shares.len()
                };
                let mut out: Vec<(Scalar, Scalar)> = Vec::new();
                let mut k: usize = 0;
                while k < m
                    invariant
                        k <= m,
                        m == paired(decrypted_shares@.len(), encrypted_shares@.len()),
                        g.wf(),
                        all_valid(decrypted_shares@),
                        out.len() == k,
                        k >= 1 ==> hasher@ == Seq::<u8>::empty() && buf@ == zeroed(),
                        k == 0 ==> hasher@ == old(hasher)@ && buf@ == old(buf)@,
                        forall|q: int|
                            0 <= q < k ==> has_dleq_proof(
                                #[trigger] out[q],
                                g@,
                                self.private_key@,
                                self.public_key.0@,
                                decrypted_shares[q]@,
                                encrypted_shares[q]@,
                                absorbed_before(q, old(hasher)@),
                            ),
                    decreases m - k,
                {
                    let nonce = random_scalar(rng);
                    assert(decrypted_shares@[k as int].wf());
                    let ghost before = hasher@;
                    let proof_k = dleq_prove(
                        g,
                        &self.private_key,
                        &self.public_key.0,
                        &decrypted_shares[k],
                        &encrypted_shares[k],
                        &nonce,
                        hasher,
                        buf,
                    );
                    let ghost prior = out@;
                    out.push(proof_k);
                    proof {
                        assert(is_dleq_proof(
                            out[k as int],
                            g@,
                            self.private_key@,
                            self.public_key.0@,
                            decrypted_shares[k as int]@,
                            encrypted_shares[k as int]@,
                            nonce@,
                            before,
                        ));
                        assert(has_dleq_proof(
                            out[k as int],
                            g@,
                            self.private_key@,
                            self.public_key.0@,
                            decrypted_shares[k as int]@,
                            encrypted_shares[k as int]@,
                            absorbed_before(k as int, old(hasher)@),
                        ));
                        assert forall|q: int| 0 <= q < k implies out[q] == prior[q] by {}
                    }
                    k += 1;
                }
                Ok(out)
            },
            (None, Some(_)) => Err(Error::UninitializedValue("party.decrypted_share")),
            (Some(_), None) => Err(Error::UninitializedValue("party.encrypted_shares")),
            (None, None) => Err(
                Error::UninitializedValue("party.{decrypted_share, encrypted_shares}"),
            ),
        };
        match found {
            Ok(out) => {
                self.share_proof = Some(out);
                Ok(())
            },
            Err(e) => Err(e),
        }
    }

    /// Takes the encrypted shares of all `n` parties, and keeps the party's
    /// own. Fails where there are not `n` rows, or where an entry is no group
    /// element.
    pub fn ingest_encrypted_shares(&mut self, encrypted_shares: &Vec<Vec<CompressedRistretto>>) -> (r:
        Result<(), Error>)
        requires
            old(self).wf(),
        ensures
            final(self).wf(),
            final(self).same_identity(old(self)),
            final(self).public_keys == old(self).public_keys,
            final(self).dealer_proof == old(self).dealer_proof,
            final(self).validated_shares == old(self).validated_shares,
            final(self).decrypted_share == old(self).decrypted_share,
            final(self).decrypted_shares == old(self).decrypted_shares,
            final(self).share == old(self).share,
            final(self).share_proof == old(self).share_proof,
            final(self).share_proofs == old(self).share_proofs,
            final(self).shares == old(self).shares,
            final(self).qualified_set == old(self).qualified_set,
            encrypted_shares.len() != old(self).n ==> r == Err::<(), Error>(
                Error::CountMismatch(
                    old(self).n,
                    "parties",
                    encrypted_shares.len(),
                    "encrypted shares",
                ),
            ),
            encrypted_shares.len() == old(self).n && first_invalid_row(encrypted_shares@) < old(self).n ==> r is Err,
            encrypted_shares.len() == old(self).n && first_invalid_row(encrypted_shares@) == old(self).n ==> r is Ok,
            r matches Err(Error::PointDecompressionError(bytes)) ==> {
                let row = encrypted_shares[first_invalid_row(encrypted_shares@)]@;
                first_invalid_row(encrypted_shares@) < encrypted_shares@.len() && 0
                    <= first_invalid(row) < row.len() && bytes == row[first_invalid(row)].bytes
            },
            r is Err ==> final(self).encrypted_share == old(self).encrypted_share && final(self).encrypted_shares == old(self).encrypted_shares,
            r is Ok ==> (final(self).encrypted_shares matches Some(held) && final(self).encrypted_share matches Some(own) && {
                &&& held.0.len() == old(self).n
                &&& forall|i: int|
                    0 <= i < old(self).n ==> (#[trigger] held.0[i])@ == encrypted_shares[i]@
                &&& own@ == held.1[old(self).index - 1]@
            }),
    {
        if encrypted_shares.len() == self.n {
            match batch_decompress_batched_ristretto_points(encrypted_shares) {
                Ok(enc_shares) => {
                    let mut copy: Vec<Vec<CompressedRistretto>> = Vec::new();
                    let mut i: usize = 0;
                    while i < encrypted_shares.len()
                        invariant
                            i <= encrypted_shares.len(),
                            copy.len() == i,
                            forall|q: int|
                                0 <= q < i ==> (#[trigger] copy[q])@ == encrypted_shares[q]@,
                        decreases encrypted_shares.len() - i,
                    {
                        copy.push(copy_encodings(&encrypted_shares[i]));
                        i += 1;
                    }
                    proof {
                        assert(decoded(
                            encrypted_shares[self.index - 1]@,
                            enc_shares[self.index - 1]@,
                        ));
                        assert forall|q: int| 0 <= q < self.n implies decoded(
                            copy[q]@,
                            (#[trigger] enc_shares[q])@,
                        ) by {
                            assert(decoded(encrypted_shares[q]@, enc_shares[q]@));
                        }
                    }
                    self.encrypted_share = Some(copy_points(&enc_shares[self.index - 1]));
                    self.encrypted_shares = Some((copy, enc_shares));
                    Ok(())
                },
                Err(x) => Err(x),
            }
        } else {
            Err(
                Error::CountMismatch(self.n, "parties", encrypted_shares.len(), "encrypted shares"),
            )
        }
    }

    /// Takes the decrypted shares and the proofs of the `n - 1` other
    /// parties, in order, and puts the party's own at its place. Fails where
    /// the counts are wrong, where an entry is no group element, and where
    /// the party's own decrypted shares or proofs are missing.
    pub fn ingest_decrypted_shares_and_proofs(
        &mut self,
        decrypted_shares: &Vec<Vec<CompressedRistretto>>,
        proofs: Vec<Vec<(Scalar, Scalar)>>,
    ) -> (r: Result<(), Error>)
        requires
            old(self).wf(),
        ensures
            final(self).wf(),
            final(self).same_identity(old(self)),
            final(self).public_keys == old(self).public_keys,
            final(self).dealer_proof == old(self).dealer_proof,
            final(self).validated_shares == old(self).validated_shares,
            final(self).encrypted_share == old(self).encrypted_share,
            final(self).decrypted_share == old(self).decrypted_share,
            final(self).encrypted_shares == old(self).encrypted_shares,
            final(self).share == old(self).share,
            final(self).share_proof == old(self).share_proof,
            final(self).shares == old(self).shares,
            final(self).qualified_set == old(self).qualified_set,
            decrypted_shares.len() != old(self).n - 1 ==> r == Err::<(), Error>(
                Error::CountMismatch(
                    old(self).n,
                    "parties",
                    decrypted_shares.len(),
                    "decrypted shares",
                ),
            ),
            decrypted_shares.len() == old(self).n - 1 && proofs.len() != decrypted_shares.len()
                ==> r == Err::<(), Error>(
                Error::CountMismatch(old(self).n, "parties", proofs.len(), "proofs"),
            ),
            decrypted_shares.len() == old(self).n - 1 && proofs.len() == decrypted_shares.len() ==> {
                let decodable = first_invalid_row(decrypted_shares@) == decrypted_shares@.len();
                &&& !decodable ==> (r matches Err(Error::PointDecompressionError(_)))
                &&& decodable && old(self).decrypted_share is None && old(self).share_proof is Some
                    ==> r == Err::<(), Error>(Error::UninitializedValue("party.decrypted_share"))
                &&& decodable && old(self).decrypted_share is Some && old(self).share_proof is None
                    ==> r == Err::<(), Error>(Error::UninitializedValue("party.share_proof"))
                &&& decodable && old(self).decrypted_share is None && old(self).share_proof is None
                    ==> r == Err::<(), Error>(
                    Error::UninitializedValue("party.{decrypted_share, share_proof}"),
                )
                &&& decodable && old(self).decrypted_share is Some && old(self).share_proof is Some
                    ==> r is Ok
            },
            r is Err ==> final(self).decrypted_shares == old(self).decrypted_shares && final(self).share_proofs == old(self).share_proofs,
            r is Ok ==> (final(self).decrypted_shares matches Some(ds) && final(self).share_proofs matches Some(ps) && {
                &&& ds.len() == old(self).n
                &&& ps.len() == old(self).n
                &&& ds[old(self).index - 1]@ == old(self).decrypted_share->Some_0@
                &&& ps[old(self).index - 1]@ == old(self).share_proof->Some_0@
                &&& forall|i: int|
                    0 <= i < old(self).index - 1 ==> decoded(
                        decrypted_shares[i]@,
                        (#[trigger] ds[i])@,
                    ) && ps[i] == proofs[i]
                &&& forall|i: int|
                    old(self).index <= i < old(self).n ==> decoded(
                        decrypted_shares[i - 1]@,
                        (#[trigger] ds[i])@,
                    ) && ps[i] == proofs[i - 1]
            }),
    {
        if decrypted_shares.len() == self.n - 1 {
            if proofs.len() == decrypted_shares.len() {
                match batch_decompress_batched_ristretto_points(decrypted_shares) {
                    Ok(mut dec_shares) => {
                        let own: Result<(Vec<RistrettoPoint>, Vec<(Scalar, Scalar)>), Error> =
                            match (&self.decrypted_share, &self.share_proof) {
                            (Some(own_dec_share), Some(own_proof)) => Ok(
                                (copy_points(own_dec_share), copy_proofs(own_proof)),
                            ),
                            (None, Some(_)) => Err(
                                Error::UninitializedValue("party.decrypted_share"),
                            ),
                            (Some(_), None) => Err(Error::UninitializedValue("party.share_proof")),
                            (None, None) => Err(
                                Error::UninitializedValue("party.{decrypted_share, share_proof}"),
                            ),
                        };
                        match own {
                            Ok((own_dec_share, own_proof)) => {
                                let ghost others = dec_shares@;
                                let ghost given = proofs@;
                                dec_shares.insert(self.index - 1, own_dec_share);
                                let mut proofs = proofs;
                                proofs.insert(self.index - 1, own_proof);
                                proof {
                                    assert forall|i: int| 0 <= i < self.n implies all_valid(
                                        (#[trigger] dec_shares[i])@,
                                    ) by {
                                        if i < self.index - 1 {
                                            assert(dec_shares[i] == others[i]);
                                            assert(decoded(decrypted_shares[i]@, others[i]@));
                                        } else if i == self.index - 1 {
                                        } else {
                                            assert(dec_shares[i] == others[i - 1]);
                                            assert(decoded(
                                                decrypted_shares[i - 1]@,
                                                others[i - 1]@,
                                            ));
                                        }
                                    }
                                    assert forall|i: int| 0 <= i < self.index - 1 implies decoded(
                                        decrypted_shares[i]@,
                                        (#[trigger] dec_shares[i])@,
                                    ) && proofs[i] == given[i] by {
                                        assert(dec_shares[i] == others[i]);
                                    }
                                    assert forall|i: int| self.index <= i < self.n implies decoded(
                                        decrypted_shares[i - 1]@,
                                        (#[trigger] dec_shares[i])@,
                                    ) && proofs[i] == given[i - 1] by {
                                        assert(dec_shares[i] == others[i - 1]);
                                    }
                                }
                                self.decrypted_shares = Some(dec_shares);
                                self.share_proofs = Some(proofs);
                                Ok(())
                            },
                            Err(e) => Err(e),
                        }
                    },
                    Err(x) => Err(x),
                }
            } else {
                Err(Error::CountMismatch(self.n, "parties", proofs.len(), "proofs"))
            }
        } else {
            Err(
                Error::CountMismatch(self.n, "parties", decrypted_shares.len(), "decrypted shares"),
            )
        }
    }

    /// Checks the decrypted shares of all the parties against their proofs
    /// and records the positions of the parties whose shares all pass; the
    /// result says whether more than `t` did. Fails where the public keys, the
    /// encrypted shares, the decrypted shares or the proofs are missing.
    pub fn verify_decrypted_shares(&mut self, g: &RistrettoPoint) -> (r: Result<bool, Error>)
        requires
            old(self).wf(),
            g.wf(),
        ensures
            final(self).wf(),
            final(self).same_identity(old(self)),
            final(self).public_keys == old(self).public_keys,
            final(self).dealer_proof == old(self).dealer_proof,
            final(self).encrypted_share == old(self).encrypted_share,
            final(self).decrypted_share == old(self).decrypted_share,
            final(self).encrypted_shares == old(self).encrypted_shares,
            final(self).decrypted_shares == old(self).decrypted_shares,
            final(self).share == old(self).share,
            final(self).share_proof == old(self).share_proof,
            final(self).share_proofs == old(self).share_proofs,
            final(self).shares == old(self).shares,
            final(self).qualified_set == old(self).qualified_set,
            old(self).public_keys is None && old(self).encrypted_shares is Some ==> r == Err::<
                bool,
                Error,
            >(Error::UninitializedValue("party.public_keys")),
            old(self).public_keys is Some && old(self).encrypted_shares is None ==> r == Err::<
                bool,
                Error,
            >(Error::UninitializedValue("party.encrypted_shares")),
            old(self).public_keys is None && old(self).encrypted_shares is None ==> r == Err::<
                bool,
                Error,
            >(Error::UninitializedValue("party.{public_keys, encrypted_shares}")),
            old(self).public_keys is Some && old(self).encrypted_shares is Some ==> {
                &&& old(self).decrypted_shares is None && old(self).share_proofs is Some ==> r
                    == Err::<bool, Error>(Error::UninitializedValue("party.decrypted_shares"))
                &&& old(self).decrypted_shares is Some && old(self).share_proofs is None ==> r
                    == Err::<bool, Error>(Error::UninitializedValue("party.share_proofs"))
                &&& old(self).decrypted_shares is None && old(self).share_proofs is None ==> r
                    == Err::<bool, Error>(
                    Error::UninitializedValue("party.{decrypted_shares, share_proofs}"),
                )
                &&& old(self).decrypted_shares is Some && old(self).share_proofs is Some ==> r
                    is Ok
            },
            r is Err ==> final(self).validated_shares == old(self).validated_shares,
            r is Ok ==> {
                &&& final(self).validated_shares@ == accepted_rows(
                    g@,
                    old(self).public_keys->Some_0@,
                    old(self).decrypted_shares->Some_0@,
                    old(self).share_proofs->Some_0@,
                    old(self).encrypted_shares->Some_0.1@,
                    old(self).n as nat,
                )
                &&& r == Ok::<bool, Error>(final(self).validated_shares@.len() > old(self).t)
            },
    {
        let n = self.n;
        let found: Result<Vec<usize>, Error> = match (&self.public_keys, &self.encrypted_shares) {
            (Some(public_keys), Some(enc_shares)) => {
                match (&self.decrypted_shares, &self.share_proofs) {
                    (Some(dec_shares), Some(proofs)) => {
                        let mut hasher = Transcript::new();
                        let mut buf = [0u8; 64];
                        let mut validated: Vec<usize> = Vec::new();
                        let mut i: usize = 0;
                        while i < n
                            invariant
                                i <= n,
                                n == self.n,
                                g.wf(),
                                public_keys.len() == n,
                                all_valid(public_keys@),
                                enc_shares.1.len() == n,
                                enc_shares.0.len() == n,
                                dec_shares.len() == n,
                                proofs.len() == n,
                                forall|q: int|
                                    0 <= q < n ==> decoded(
                                        enc_shares.0[q]@,
                                        (#[trigger] enc_shares.1[q])@,
                                    ),
                                forall|q: int|
                                    0 <= q < n ==> all_valid((#[trigger] dec_shares[q])@),
                                hasher@ == Seq::<u8>::empty(),
                                validated@ == accepted_rows(
                                    g@,
                                    public_keys@,
                                    dec_shares@,
                                    proofs@,
                                    enc_shares.1@,
                                    i as nat,
                                ),
                            decreases n - i,
                        {
                            let dec_row = &dec_shares[i];
                            let proof_row = &proofs[i];
                            let enc_row = &enc_shares.1[i];
                            let public_key = &public_keys[i];
                            proof {
                                assert(decoded(enc_shares.0[i as int]@, enc_row@));
                                assert(all_valid(dec_row@));
                                assert(public_key.wf());
                            }
                            let m1 = if dec_row.len() <= proof_row.len() {
                                dec_row.len()
                            } else {
                                proof_row.len()
                            };
                            let m = if m1 <= enc_row.len() {
                                m1
                            } else {
                                enc_row.len()
                            };
                            let mut ok = true;
                            let mut k: usize = 0;
                            while k < m
                                invariant
                                    k <= m,
                                    m == paired3(dec_row@.len(), proof_row@.len(), enc_row@.len()),
                                    g.wf(),
                                    public_key.wf(),
                                    all_valid(dec_row@),
                                    all_valid(enc_row@),
                                    hasher@ == Seq::<u8>::empty(),
                                    ok == (forall|q: int|
                                        0 <= q < k ==> dleq_accepts(
                                            g@,
                                            public_key@,
                                            (#[trigger] enc_row[q])@,
                                            dec_row[q]@,
                                            proof_row[q].0,
                                            proof_row[q].1,
                                        )),
                                decreases m - k,
                            {
                                proof {
                                    assert(dec_row@[k as int].wf());
                                    assert(enc_row@[k as int].wf());
                                }
                                let accepted = dleq_verify(
                                    g,
                                    public_key,
                                    &enc_row[k],
                                    &dec_row[k],
                                    &proof_row[k].0,
                                    &proof_row[k].1,
                                    &mut hasher,
                                    &mut buf,
                                );
                                ok = ok && accepted;
                                k += 1;
                            }
                            assert(ok == row_accepted(
                                g@,
                                public_key@,
                                dec_row@,
                                proof_row@,
                                enc_row@,
                            ));
                            if ok {
                                validated.push(i);
                            }
                            i += 1;
                        }
                        proof {
                            lemma_passing_indices(
                                n as nat,
                                |i: int|
                                    row_accepted(
                                        g@,
                                        public_keys@[i]@,
                                        dec_shares@[i]@,
                                        proofs@[i]@,
                                        enc_shares.1@[i]@,
                                    ),
                            );
                        }
                        Ok(validated)
                    },
                    (None, Some(_)) => Err(Error::UninitializedValue("party.decrypted_shares")),
                    (Some(_), None) => Err(Error::UninitializedValue("party.share_proofs")),
                    (None, None) => Err(
                        Error::UninitializedValue("party.{decrypted_shares, share_proofs}"),
                    ),
                }
            },
            (None, Some(_)) => Err(Error::UninitializedValue("party.public_keys")),
            (Some(_), None) => Err(Error::UninitializedValue("party.encrypted_shares")),
            (None, None) => Err(Error::UninitializedValue("party.{public_keys, encrypted_shares}")),
        };
        match found {
            Ok(validated) => {
                self.validated_shares = validated;
                Ok(self.validated_shares.len() > self.t)
            },
            Err(e) => Err(e),
        }
    }

    /// Chooses the qualified set: `t + 1` of the validated parties, by a
    /// shuffle, each with its decrypted shares. Fails where the decrypted
    /// shares have not been ingested, and where no more than `t` are
    /// validated.
    pub fn select_qualified_set<R: CryptoRng + RngCore>(&mut self, rng: &mut R) -> (r: Result<
        (),
        Error,
    >)
        requires
            old(self).wf(),
        ensures
            final(self).wf(),
            final(self).same_identity(old(self)),
            final(self).public_keys == old(self).public_keys,
            final(self).dealer_proof == old(self).dealer_proof,
            final(self).validated_shares == old(self).validated_shares,
            final(self).encrypted_share == old(self).encrypted_share,
            final(self).decrypted_share == old(self).decrypted_share,
            final(self).encrypted_shares == old(self).encrypted_shares,
            final(self).decrypted_shares == old(self).decrypted_shares,
            final(self).share == old(self).share,
            final(self).share_proof == old(self).share_proof,
            final(self).share_proofs == old(self).share_proofs,
            final(self).shares == old(self).shares,
            old(self).decrypted_shares is None ==> r == Err::<(), Error>(
                Error::UninitializedValue("party.decrypted_shares"),
            ),
            old(self).decrypted_shares is Some && old(self).validated_shares.len() <= old(self).t
                ==> r == Err::<(), Error>(
                Error::InsufficientShares(old(self).validated_shares.len(), old(self).t),
            ),
            old(self).decrypted_shares is Some && old(self).validated_shares.len() > old(self).t
                ==> r is Ok,
            r is Err ==> final(self).qualified_set == old(self).qualified_set,
            r is Ok ==> (final(self).qualified_set matches Some(q) && exists|chosen: Seq<usize>|
                chosen.to_multiset() == old(self).validated_shares@.to_multiset()
                    && #[trigger] is_qualified_from(
                    q@,
                    chosen,
                    old(self).decrypted_shares->Some_0@,
                    old(self).t as nat,
                )),
    {
        if self.decrypted_shares.is_none() {
            return Err(Error::UninitializedValue("party.decrypted_shares"));
        }
        match crate::secret_sharing::select_qualified_set(
            rng,
            self.t,
            &self.decrypted_shares,
            &self.validated_shares,
        ) {
            Ok(q) => {
                let ghost chosen = choose|chosen: Seq<usize>|
                    chosen.to_multiset() == self.validated_shares@.to_multiset()
                        && #[trigger] is_qualified_from(
                        q@,
                        chosen,
                        self.decrypted_shares->Some_0@,
                        self.t as nat,
                    );
                self.qualified_set = Some(q);
                assert(is_qualified_from(
                    self.qualified_set->Some_0@,
                    chosen,
                    self.decrypted_shares->Some_0@,
                    self.t as nat,
                ));
                return Ok(());
            },
            Err(e) => {
                return Err(e);
            },
        }
    }

    /// The secrets in the exponent from the qualified set and its Lagrange
    /// coefficients: component by component, the sum of
    /// `lambdas[i] * share_i[k]`. Fails where no qualified set has been
    /// chosen.
    pub fn reconstruct_secrets(&self, lambdas: &Vec<Scalar>) -> (r: Result<
        Vec<RistrettoPoint>,
        Error,
    >)
        requires
            self.qualified_set matches Some(q) ==> q.len() >= 1 && lambdas.len() >= 1 && forall|
                i: int,
            |
                0 <= i < q.len() ==> (#[trigger] q[i]).1.len() >= q[0].1.len() && all_valid(
                    q[i].1@,
                ),
        ensures
            self.qualified_set is None ==> r == Err::<Vec<RistrettoPoint>, Error>(
                Error::UninitializedValue("party.qualified_set"),
            ),
            self.qualified_set is Some ==> r is Ok,
            (self.qualified_set, r) matches (Some(q), Ok(v)) ==> {
                &&& v.len() == q[0].1.len()
                &&& all_valid(v@)
                &&& forall|k: int|
                    0 <= k < v.len() ==> (#[trigger] v[k])@ == point_combination(
                        scalar_values(lambdas@),
                        point_column(q@, k),
                        paired(q@.len(), lambdas@.len()),
                    )
            },
    {
        crate::secret_sharing::reconstruct_secrets_exponent(&self.qualified_set, lambdas)
    }
}

/// The `n` parties of a session, each with a freshly drawn private key.
pub fn generate_parties<R: CryptoRng + RngCore>(
    g: &RistrettoPoint,
    rng: &mut R,
    n: usize,
    t: usize,
) -> (r: Vec<Party>)
    requires
        g.wf(),
        t < n,
        t == (n - 1) / 2,
    ensures
        r.len() == n,
        forall|i: int|
            0 <= i < n ==> (#[trigger] r[i]).is_fresh(
                g,
                r[i].private_key,
                n,
                t,
                (i + 1) as usize,
            ) && r[i].private_key.wf(),
{
    let mut out: Vec<Party> = Vec::new();
    let mut i: usize = 0;
    while i < n
        invariant
            i <= n,
            g.wf(),
            t < n,
            t == (n - 1) / 2,
            out.len() == i,
            forall|q: int|
                0 <= q < i ==> (#[trigger] out[q]).is_fresh(
                    g,
                    out[q].private_key,
                    n,
                    t,
                    (q + 1) as usize,
                ) && out[q].private_key.wf(),
        decreases n - i,
    {
        let p = Party::new(g, rng, n, t, i + 1).unwrap();
        out.push(p);
        i += 1;
    }
    out
}

} // verus!
