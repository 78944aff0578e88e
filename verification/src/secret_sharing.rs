//! Shamir shares in batches, encrypted shares, qualified sets and
//! reconstruction.

use crate::error::Error;
use crate::field::{dot, inv_mod, lemma_small_is_reduced, order};
use crate::polynomial::{is_power_row, poly_eval, Polynomial};
use crate::ristretto::{
    all_valid, fold_points, identity_encoding, paired, point_fold, ristretto_mul,
    CompressedRistretto, RistrettoPoint,
};
use crate::scalar::{all_canonical, scalar_values, Scalar};
use rand::seq::SliceRandom;
use rand::{CryptoRng, RngCore};
use vstd::prelude::*;

verus! {

/// `polys` are `k` polynomials of degree `t` whose constant terms are the
/// secrets; the other coefficients are canonical.
pub open spec fn embeds(polys: Seq<Polynomial>, secrets: Seq<Scalar>, t: nat) -> bool {
    &&& polys.len() == secrets.len()
    &&& forall|j: int|
        0 <= j < polys.len() ==> {
            &&& (#[trigger] polys[j]).coefficients.len() == t + 1
            &&& polys[j].coefficients[0] == secrets[j]
            &&& forall|c: int| 1 <= c <= t ==> (#[trigger] polys[j].coefficients[c]).wf()
        }
}

/// `evals[i][j]` is the value that row `i` of `x_pows`, the row of party
/// `i + 1`, gives to polynomial `j`, for each of the `n` parties.
pub open spec fn evaluated(
    evals: Seq<Vec<Scalar>>,
    polys: Seq<Polynomial>,
    x_pows: Seq<Vec<Scalar>>,
    n: nat,
) -> bool {
    &&& evals.len() == n
    &&& forall|i: int|
        0 <= i < n ==> {
            &&& (#[trigger] evals[i]).len() == polys.len()
            &&& all_canonical(evals[i]@)
            &&& forall|j: int|
                0 <= j < polys.len() ==> {
                    &&& (#[trigger] evals[i][j])@ == dot(
                        polys[j]@,
                        scalar_values(x_pows[i]@),
                    ) % order()
                    &&& is_power_row(x_pows[i]@, i + 1, polys[j]@.len()) ==> evals[i][j]@
                        == poly_eval(polys[j]@, i + 1) % order()
                }
        }
}

/// `enc[i][j]` encodes the public key of party `i + 1` multiplied by
/// `evals[i][j]`.
pub open spec fn encrypted(
    enc: Seq<Vec<CompressedRistretto>>,
    evals: Seq<Vec<Scalar>>,
    public_keys: Seq<RistrettoPoint>,
) -> bool {
    &&& enc.len() == evals.len()
    &&& forall|i: int|
        0 <= i < enc.len() ==> {
            &&& (#[trigger] enc[i]).len() == evals[i].len()
            &&& forall|j: int|
                0 <= j < enc[i].len() ==> (#[trigger] enc[i][j])@ == ristretto_mul(
                    evals[i][j]@,
                    public_keys[i]@,
                )
        }
}

/// For each secret a polynomial of degree `t` with that constant term, and
/// for each of the `n` parties the values of all the polynomials at its index.
pub fn generate_shares_batched(
    n: usize,
    t: usize,
    x_pows: &Vec<Vec<Scalar>>,
    secrets: &Vec<Scalar>,
) -> (r: (Vec<Polynomial>, Vec<Vec<Scalar>>))
    requires
        t < usize::MAX,
        n <= x_pows.len(),
    ensures
        embeds(r.0@, secrets@, t as nat),
        evaluated(r.1@, r.0@, x_pows@, n as nat),
{
    let f_polynomials = Polynomial::sample_n_set_f0(secrets.len(), t, secrets).unwrap();
    let f_evals = Polynomial::evaluate_many_range_precomp(
        x_pows,
        f_polynomials.as_slice(),
        1,
        n,
    );
    proof {
        assert forall|i: int| 0 <= i < n implies {
            &&& (#[trigger] f_evals[i]).len() == f_polynomials.len()
            &&& all_canonical(f_evals[i]@)
            &&& forall|j: int|
                0 <= j < f_polynomials.len() ==> {
                    &&& (#[trigger] f_evals[i][j])@ == dot(
                        f_polynomials[j]@,
                        scalar_values(x_pows[i]@),
                    ) % order()
                    &&& is_power_row(x_pows[i]@, i + 1, f_polynomials[j]@.len())
                        ==> f_evals[i][j]@ == poly_eval(f_polynomials[j]@, i + 1) % order()
                }
        } by {
            assert(f_evals[i] == f_evals[(i + 1) - 1]);
        }
    }
    (f_polynomials, f_evals)
}

/// A polynomial of degree `t` with constant term `secret`, and its values at
/// the indices of the `n` parties.
pub fn generate_shares<R: CryptoRng + RngCore>(
    rng: &mut R,
    n: usize,
    t: usize,
    x_pows: &Vec<Vec<Scalar>>,
    secret: &Scalar,
) -> (r: (Polynomial, Vec<Scalar>))
    requires
        t < usize::MAX,
        n <= x_pows.len(),
    ensures
        r.0.coefficients.len() == t + 1,
        r.0.coefficients[0] == *secret,
        forall|c: int| 1 <= c <= t ==> (#[trigger] r.0.coefficients[c]).wf(),
        r.1.len() == n,
        all_canonical(r.1@),
        forall|i: int|
            0 <= i < n ==> (#[trigger] r.1[i])@ == dot(r.0@, scalar_values(x_pows[i]@))
                % order(),
        forall|i: int|
            0 <= i < n && is_power_row(x_pows[i]@, i + 1, r.0@.len()) ==> (#[trigger] r.1[i])@
                == poly_eval(r.0@, i + 1) % order(),
{
    let polynomial = Polynomial::sample_set_f0(t, rng, secret);
    let evals = polynomial.evaluate_range_precomp(x_pows, 1, n);
    proof {
        assert forall|i: int| 0 <= i < n implies (#[trigger] evals[i])@ == dot(
            polynomial@,
            scalar_values(x_pows[i]@),
        ) % order() by {
            assert(evals[i] == evals[(i + 1) - 1]);
        }
        assert forall|i: int|
            0 <= i < n && is_power_row(x_pows[i]@, i + 1, polynomial@.len()) implies (
        #[trigger] evals[i])@ == poly_eval(polynomial@, i + 1) % order() by {
            assert(evals[i] == evals[(i + 1) - 1]);
        }
    }
    (polynomial, evals)
}

/// Each share multiplied into the public key of its party, encoded.
pub fn encrypt_shares(f_evals: &Vec<Vec<Scalar>>, public_keys: &[RistrettoPoint]) -> (r: Vec<
    Vec<CompressedRistretto>,
>)
    requires
        f_evals.len() == public_keys.len(),
        all_valid(public_keys@),
        forall|i: int| 0 <= i < f_evals.len() ==> all_canonical((#[trigger] f_evals[i])@),
    ensures
        encrypted(r@, f_evals@, public_keys@),
{
    let mut out: Vec<Vec<CompressedRistretto>> = Vec::new();
    let mut i: usize = 0;
    while i < f_evals.len()
        invariant
            i <= f_evals.len(),
            f_evals.len() == public_keys.len(),
            all_valid(public_keys@),
            forall|q: int| 0 <= q < f_evals.len() ==> all_canonical((#[trigger] f_evals[q])@),
            out.len() == i,
            forall|q: int|
                0 <= q < i ==> {
                    &&& (#[trigger] out[q]).len() == f_evals[q].len()
                    &&& forall|j: int|
                        0 <= j < out[q].len() ==> (#[trigger] out[q][j])@ == ristretto_mul(
                            f_evals[q][j]@,
                            public_keys[q]@,
                        )
                },
        decreases f_evals.len() - i,
    {
        let mut row: Vec<CompressedRistretto> = Vec::new();
        let mut j: usize = 0;
        assert(all_canonical(f_evals[i as int]@));
        assert(public_keys[i as int].wf());
        while j < f_evals[i].len()
            invariant
                i < f_evals.len(),
                i < public_keys.len(),
                j <= f_evals[i as int].len(),
                public_keys[i as int].wf(),
                all_canonical(f_evals[i as int]@),
                row.len() == j,
                forall|q: int|
                    0 <= q < j ==> (#[trigger] row[q])@ == ristretto_mul(
                        f_evals[i as int][q]@,
                        public_keys[i as int]@,
                    ),
            decreases f_evals[i as int].len() - j,
        {
            proof {
                assert(f_evals[i as int]@[j as int].wf());
                lemma_small_is_reduced(f_evals[i as int][j as int]@);
            }
            row.push(public_keys[i].mul(&f_evals[i][j]).compress());
            j += 1;
        }
        out.push(row);
        i += 1;
    }
    out
}

/// As `generate_shares_batched`, for as many parties as there are public
/// keys, with each share multiplied into the public key of its party.
pub fn generate_encrypted_shares_batched(
    t: usize,
    x_pows: &Vec<Vec<Scalar>>,
    public_keys: &[RistrettoPoint],
    secrets: &Vec<Scalar>,
) -> (r: (Vec<Polynomial>, Vec<Vec<CompressedRistretto>>))
    requires
        t < usize::MAX,
        public_keys.len() <= x_pows.len(),
        all_valid(public_keys@),
    ensures
        embeds(r.0@, secrets@, t as nat),
        exists|f_evals: Seq<Vec<Scalar>>|
            #[trigger] evaluated(f_evals, r.0@, x_pows@, public_keys@.len()) && encrypted(
                r.1@,
                f_evals,
                public_keys@,
            ),
{
    let (f_polynomials, f_evals) = generate_shares_batched(public_keys.len(), t, x_pows, secrets);
    let encrypted_shares = encrypt_shares(&f_evals, public_keys);
    assert(evaluated(f_evals@, f_polynomials@, x_pows@, public_keys@.len()) && encrypted(
        encrypted_shares@,
        f_evals@,
        public_keys@,
    ));
    (f_polynomials, encrypted_shares)
}

/// As `generate_shares`, for as many parties as there are public keys, with
/// each share multiplied into the public key of its party.
pub fn generate_encrypted_shares<R: CryptoRng + RngCore>(
    rng: &mut R,
    t: usize,
    x_pows: &Vec<Vec<Scalar>>,
    public_keys: &[RistrettoPoint],
    secret: &Scalar,
) -> (r: (Polynomial, Vec<CompressedRistretto>))
    requires
        t < usize::MAX,
        public_keys.len() <= x_pows.len(),
        all_valid(public_keys@),
    ensures
        r.0.coefficients.len() == t + 1,
        r.0.coefficients[0] == *secret,
        forall|c: int| 1 <= c <= t ==> (#[trigger] r.0.coefficients[c]).wf(),
        r.1.len() == public_keys.len(),
        forall|i: int|
            0 <= i < r.1.len() ==> (#[trigger] r.1[i])@ == ristretto_mul(
                dot(r.0@, scalar_values(x_pows[i]@)) % order(),
                public_keys[i]@,
            ),
{
    let (f_polynomial, f_evals) = generate_shares(rng, public_keys.len(), t, x_pows, secret);
    let encrypted_shares = encrypt_each(&f_evals, public_keys);
    (f_polynomial, encrypted_shares)
}

/// Each scalar multiplied into the point at its position, encoded.
pub fn encrypt_each(f_evals: &Vec<Scalar>, public_keys: &[RistrettoPoint]) -> (r: Vec<
    CompressedRistretto,
>)
    requires
        f_evals.len() == public_keys.len(),
        all_valid(public_keys@),
    ensures
        r.len() == f_evals.len(),
        forall|i: int|
            0 <= i < r.len() ==> (#[trigger] r[i])@ == ristretto_mul(
                f_evals[i]@ % order(),
                public_keys[i]@,
            ),
{
    let mut out: Vec<CompressedRistretto> = Vec::new();
    let mut i: usize = 0;
    while i < f_evals.len()
        invariant
            i <= f_evals.len(),
            f_evals.len() == public_keys.len(),
            all_valid(public_keys@),
            out.len() == i,
            forall|q: int|
                0 <= q < i ==> (#[trigger] out[q])@ == ristretto_mul(
                    f_evals[q]@ % order(),
                    public_keys[q]@,
                ),
        decreases f_evals.len() - i,
    {
        assert(public_keys[i as int].wf());
        out.push(public_keys[i].mul(&f_evals[i]).compress());
        i += 1;
    }
    out
}

/// The encrypted share with the private key taken out:
/// `private_key^-1 * encrypted_share`.
pub fn decrypt_share(private_key: &Scalar, encrypted_share: &RistrettoPoint) -> (r: RistrettoPoint)
    requires
        encrypted_share.wf(),
    ensures
        r.wf(),
        r@ == ristretto_mul(inv_mod(private_key@), encrypted_share@),
{
    let inv = private_key.invert();
    proof {
        lemma_small_is_reduced(inv@);
    }
    encrypted_share.mul(&inv)
}

/// `rand::seq::SliceRandom::shuffle` on a vector of indices: the same indices
/// in an order that depends on the generator.
#[verifier::external_body]
pub(crate) fn shuffle_indices<R: CryptoRng + RngCore>(rng: &mut R, indices: &mut Vec<usize>)
    ensures
        final(indices)@.to_multiset() == old(indices)@.to_multiset(),
{
    indices.shuffle(rng);
}

/// `q` pairs each of the first `t + 1` entries of `chosen`, counted from one,
/// with a copy of its share.
pub open spec fn is_qualified_from<T: Clone>(
    q: Seq<(usize, T)>,
    chosen: Seq<usize>,
    shares: Seq<T>,
    t: nat,
) -> bool {
    &&& q.len() == t + 1
    &&& forall|i: int|
        0 <= i <= t ==> (#[trigger] q[i]).0 == chosen[i] + 1 && cloned(
            shares[chosen[i] as int],
            q[i].1,
        )
}

/// The first `t + 1` entries of `chosen`, each with its index counted from
/// one and a copy of its share.
pub fn take_qualified<T: Clone>(t: usize, shares: &Vec<T>, chosen: &Vec<usize>) -> (r: Vec<
    (usize, T),
>)
    requires
        chosen.len() > t,
        forall|i: int| 0 <= i < chosen.len() ==> chosen[i] < shares.len(),
    ensures
        is_qualified_from(r@, chosen@, shares@, t as nat),
{
    let mut out: Vec<(usize, T)> = Vec::new();
    let mut i: usize = 0;
    while i <= t
        invariant
            i <= t + 1,
            t < chosen.len(),
            forall|q: int| 0 <= q < chosen.len() ==> chosen[q] < shares.len(),
            out.len() == i,
            forall|q: int|
                0 <= q < i ==> (#[trigger] out[q]).0 == chosen[q] + 1 && cloned(
                    shares[chosen[q] as int],
                    out[q].1,
                ),
        decreases t + 1 - i,
    {
        let x = chosen[i];
        out.push((x + 1, shares[x].clone()));
        i += 1;
    }
    out
}

/// A qualified set: `t + 1` of the validated shares, chosen by a shuffle,
/// each with the index of its party counted from one. Fails where the shares
/// are absent, and where no more than `t` are validated.
pub fn select_qualified_set<R: CryptoRng + RngCore, T: Clone>(
    rng: &mut R,
    t: usize,
    shares: &Option<Vec<T>>,
    validated_shares: &Vec<usize>,
) -> (r: Result<Vec<(usize, T)>, Error>)
    requires
        shares matches Some(s) ==> forall|i: int|
            0 <= i < validated_shares.len() ==> validated_shares[i] < s.len(),
    ensures
        shares is None ==> r == Err::<Vec<(usize, T)>, Error>(
            Error::UninitializedValue("party.{shares || decrypted_shares}"),
        ),
        shares is Some && validated_shares.len() <= t ==> r == Err::<Vec<(usize, T)>, Error>(
            Error::InsufficientShares(validated_shares.len(), t),
        ),
        shares is Some && validated_shares.len() > t ==> r is Ok,
        r is Ok ==> exists|chosen: Seq<usize>|
            chosen.to_multiset() == validated_shares@.to_multiset() && #[trigger] is_qualified_from(
                r->Ok_0@,
                chosen,
                shares->Some_0@,
                t as nat,
            ),
{
    match shares {
        Some(held) => {
            if validated_shares.len() > t {
                let mut tmp = validated_shares.clone();
                assert(tmp@ =~= validated_shares@);
                shuffle_indices(rng, &mut tmp);
                proof {
                    lemma_same_members(tmp@, validated_shares@);
                }
                let q = take_qualified(t, held, &tmp);
                let r = Ok(q);
                assert(is_qualified_from(r->Ok_0@, tmp@, shares->Some_0@, t as nat));
                return r;
            } else {
                return Err(Error::InsufficientShares(validated_shares.len(), t));
            }
        },
        None => {
            return Err(Error::UninitializedValue("party.{shares || decrypted_shares}"));
        },
    }
}

/// Two sequences with the same multiset have the same length and the same
/// members.
pub proof fn lemma_same_members(a: Seq<usize>, b: Seq<usize>)
    requires
        a.to_multiset() == b.to_multiset(),
    ensures
        a.len() == b.len(),
        forall|i: int| 0 <= i < a.len() ==> b.contains(#[trigger] a[i]),
{
    broadcast use vstd::seq_lib::group_to_multiset_ensures;

    vstd::seq_lib::to_multiset_len(a);
    vstd::seq_lib::to_multiset_len(b);
    assert forall|i: int| 0 <= i < a.len() implies b.contains(#[trigger] a[i]) by {
        assert(a.contains(a[i]));
        assert(a.to_multiset().count(a[i]) > 0);
    }
}

/// The `k`-th component of each share of a qualified set.
pub open spec fn share_column(q: Seq<(usize, Vec<Scalar>)>, k: int) -> Seq<int> {
    Seq::new(q.len(), |i: int| q[i].1[k]@)
}

/// The shares of a single-secret qualified set.
pub open spec fn share_values(q: Seq<(usize, Scalar)>) -> Seq<int> {
    Seq::new(q.len(), |i: int| q[i].1@)
}

/// The sum of `lambdas[i] * points[i]` over the first `m` positions, added
/// up from the neutral element.
pub open spec fn point_combination(lambdas: Seq<int>, points: Seq<Seq<u8>>, m: nat) -> Seq<u8> {
    point_fold(identity_encoding(), lambdas, points, m)
}

/// The `k`-th component of each share of a qualified set of group elements.
pub open spec fn point_column(q: Seq<(usize, Vec<RistrettoPoint>)>, k: int) -> Seq<Seq<u8>> {
    Seq::new(q.len(), |i: int| q[i].1[k]@)
}

/// The shares of a single-secret qualified set of group elements.
pub open spec fn point_values(q: Seq<(usize, RistrettoPoint)>) -> Seq<Seq<u8>> {
    Seq::new(q.len(), |i: int| q[i].1@)
}

/// The secrets from a qualified set and its Lagrange coefficients: component
/// by component, the sum of `lambdas[i] * share_i[k]`.
pub fn reconstruct_secrets(
    qualified_set: &Option<Vec<(usize, Vec<Scalar>)>>,
    lambdas: &Vec<Scalar>,
) -> (r: Result<Vec<Scalar>, Error>)
    requires
        qualified_set matches Some(q) ==> q.len() >= 1 && forall|i: int|
            0 <= i < q.len() ==> (#[trigger] q[i]).1.len() >= q[0].1.len(),
    ensures
        qualified_set is None ==> r == Err::<Vec<Scalar>, Error>(
            Error::UninitializedValue("party.qualified_set"),
        ),
        qualified_set is Some ==> r is Ok,
        (qualified_set, r) matches (Some(q), Ok(v)) ==> {
            &&& v.len() == q[0].1.len()
            &&& all_canonical(v@)
            &&& forall|k: int|
                0 <= k < v.len() ==> (#[trigger] v[k])@ == dot(
                    scalar_values(lambdas@),
                    share_column(q@, k),
                ) % order()
        },
{
    match qualified_set {
        Some(qualified_set) => {
            let k = qualified_set[0].1.len();
            let m = if qualified_set.len() <= lambdas.len() {
                qualified_set.len()
            } else {
                lambdas.len()
            };
            let mut out: Vec<Scalar> = Vec::new();
            let mut c: usize = 0;
            while c < k
                invariant
                    c <= k,
                    k == qualified_set[0].1.len(),
                    qualified_set.len() >= 1,
                    forall|i: int|
                        0 <= i < qualified_set.len() ==> (#[trigger] qualified_set[i]).1.len()
                            >= k,
                    out.len() == c,
                    all_canonical(out@),
                    forall|q: int|
                        0 <= q < c ==> (#[trigger] out[q])@ == dot(
                            scalar_values(lambdas@),
                            share_column(qualified_set@, q),
                        ) % order(),
                decreases k - c,
            {
                let mut column: Vec<Scalar> = Vec::new();
                let mut i: usize = 0;
                while i < qualified_set.len()
                    invariant
                        i <= qualified_set.len(),
                        c < k,
                        forall|q: int|
                            0 <= q < qualified_set.len() ==> (#[trigger] qualified_set[q]).1.len()
                                >= k,
                        column.len() == i,
                        forall|q: int|
                            0 <= q < i ==> column[q] == qualified_set[q].1[c as int],
                    decreases qualified_set.len() - i,
                {
                    column.push(qualified_set[i].1[c]);
                    i += 1;
                }
                assert(scalar_values(column@) =~= share_column(qualified_set@, c as int));
                out.push(crate::polynomial::inner_product(lambdas.as_slice(), column.as_slice()));
                c += 1;
            }
            Ok(out)
        },
        None => Err(Error::UninitializedValue("party.qualified_set")),
    }
}

/// The secret from a single-secret qualified set and its Lagrange
/// coefficients: the sum of `lambdas[i] * share_i`.
pub fn reconstruct_secret(qualified_set: &Option<Vec<(usize, Scalar)>>, lambdas: &Vec<Scalar>) -> (r:
    Result<Scalar, Error>)
    ensures
        qualified_set is None ==> r == Err::<Scalar, Error>(
            Error::UninitializedValue("party.qualified_set"),
        ),
        qualified_set is Some ==> r is Ok,
        (qualified_set, r) matches (Some(q), Ok(v)) ==> v.wf() && v@ == dot(
            scalar_values(lambdas@),
            share_values(q@),
        ) % order(),
{
    match qualified_set {
        Some(qualified_set) => {
            let mut column: Vec<Scalar> = Vec::new();
            let mut i: usize = 0;
            while i < qualified_set.len()
                invariant
                    i <= qualified_set.len(),
                    column.len() == i,
                    forall|q: int| 0 <= q < i ==> column[q] == qualified_set[q].1,
                decreases qualified_set.len() - i,
            {
                column.push(qualified_set[i].1);
                i += 1;
            }
            assert(scalar_values(column@) =~= share_values(qualified_set@));
            Ok(crate::polynomial::inner_product(lambdas.as_slice(), column.as_slice()))
        },
        None => Err(Error::UninitializedValue("party.qualified_set")),
    }
}

/// The sum of `lambdas[i] * points[i]` over the positions that both have.
pub fn combine_points(lambdas: &[Scalar], points: &[RistrettoPoint]) -> (r: RistrettoPoint)
    requires
        all_valid(points@),
    ensures
        r.wf(),
        r@ == point_combination(
            scalar_values(lambdas@),
            crate::ristretto::point_encodings(points@),
            paired(points@.len(), lambdas@.len()),
        ),
{
    fold_points(RistrettoPoint::identity(), lambdas, points)
}

/// The secrets in the exponent from a qualified set of group elements and
/// its Lagrange coefficients.
pub fn reconstruct_secrets_exponent(
    qualified_set: &Option<Vec<(usize, Vec<RistrettoPoint>)>>,
    lambdas: &Vec<Scalar>,
) -> (r: Result<Vec<RistrettoPoint>, Error>)
    requires
        qualified_set matches Some(q) ==> q.len() >= 1 && forall|i: int|
            0 <= i < q.len() ==> (#[trigger] q[i]).1.len() >= q[0].1.len() && all_valid(q[i].1@),
    ensures
        qualified_set is None ==> r == Err::<Vec<RistrettoPoint>, Error>(
            Error::UninitializedValue("party.qualified_set"),
        ),
        qualified_set is Some ==> r is Ok,
        (qualified_set, r) matches (Some(q), Ok(v)) ==> {
            &&& v.len() == q[0].1.len()
            &&& all_valid(v@)
            &&& forall|k: int|
                0 <= k < v.len() ==> (#[trigger] v[k])@ == point_combination(
                    scalar_values(lambdas@),
                    point_column(q@, k),
                    paired(q@.len(), lambdas@.len()),
                )
        },
{
    match qualified_set {
        Some(qualified_set) => {
            let k = qualified_set[0].1.len();
            let mut out: Vec<RistrettoPoint> = Vec::new();
            let mut c: usize = 0;
            while c < k
                invariant
                    c <= k,
                    k == qualified_set[0].1.len(),
                    qualified_set.len() >= 1,
                    forall|i: int|
                        0 <= i < qualified_set.len() ==> (#[trigger] qualified_set[i]).1.len() >= k
                            && all_valid(qualified_set[i].1@),
                    out.len() == c,
                    all_valid(out@),
                    forall|q: int|
                        0 <= q < c ==> (#[trigger] out[q])@ == point_combination(
                            scalar_values(lambdas@),
                            point_column(qualified_set@, q),
                            paired(qualified_set@.len(), lambdas@.len()),
                        ),
                decreases k - c,
            {
                let mut column: Vec<RistrettoPoint> = Vec::new();
                let mut i: usize = 0;
                while i < qualified_set.len()
                    invariant
                        i <= qualified_set.len(),
                        c < k,
                        forall|q: int|
                            0 <= q < qualified_set.len() ==> (#[trigger] qualified_set[q]).1.len()
                                >= k && all_valid(qualified_set[q].1@),
                        column.len() == i,
                        all_valid(column@),
                        forall|q: int|
                            0 <= q < i ==> column[q] == qualified_set[q].1[c as int],
                    decreases qualified_set.len() - i,
                {
                    assert(all_valid(qualified_set[i as int].1@));
                    assert(qualified_set[i as int].1@[c as int].wf());
                    column.push(qualified_set[i].1[c]);
                    i += 1;
                }
                assert(crate::ristretto::point_encodings(column@) =~= point_column(
                    qualified_set@,
                    c as int,
                ));
                out.push(combine_points(lambdas.as_slice(), column.as_slice()));
                c += 1;
            }
            Ok(out)
        },
        None => Err(Error::UninitializedValue("party.qualified_set")),
    }
}

/// The secret in the exponent from a single-secret qualified set of group
/// elements and its Lagrange coefficients.
pub fn reconstruct_secret_exponent(
    qualified_set: &Option<Vec<(usize, RistrettoPoint)>>,
    lambdas: &Vec<Scalar>,
) -> (r: Result<RistrettoPoint, Error>)
    requires
        qualified_set matches Some(q) ==> forall|i: int|
            0 <= i < q.len() ==> (#[trigger] q[i]).1.wf(),
    ensures
        qualified_set is None ==> r == Err::<RistrettoPoint, Error>(
            Error::UninitializedValue("party.qualified_set"),
        ),
        qualified_set is Some ==> r is Ok,
        (qualified_set, r) matches (Some(q), Ok(v)) ==> v.wf() && v@ == point_combination(
            scalar_values(lambdas@),
            point_values(q@),
            paired(q@.len(), lambdas@.len()),
        ),
{
    match qualified_set {
        Some(qualified_set) => {
            let mut column: Vec<RistrettoPoint> = Vec::new();
            let mut i: usize = 0;
            while i < qualified_set.len()
                invariant
                    i <= qualified_set.len(),
                    forall|q: int|
                        0 <= q < qualified_set.len() ==> (#[trigger] qualified_set[q]).1.wf(),
                    column.len() == i,
                    all_valid(column@),
                    forall|q: int| 0 <= q < i ==> column[q] == qualified_set[q].1,
                decreases qualified_set.len() - i,
            {
                assert(qualified_set[i as int].1.wf());
                column.push(qualified_set[i].1);
                i += 1;
            }
            assert(crate::ristretto::point_encodings(column@) =~= point_values(qualified_set@));
            Ok(combine_points(lambdas.as_slice(), column.as_slice()))
        },
        None => Err(Error::UninitializedValue("party.qualified_set")),
    }
}

} // verus!
