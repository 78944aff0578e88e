//! What the protocol variants share: hash commitments to shares, the powers
//! of a challenge, the parameter rule, and the list of shares that pass a
//! check.

use crate::field::{lemma_small_is_reduced, order};
use crate::scalar::{all_canonical, scalar_of, scalar_values, Scalar};
use crate::transcript::{blake3_xof, zeroed, Transcript};
use crate::utils::{
    challenge, compute_d_from_hash_commitments, compute_d_from_point_commitments,
    compute_d_powers, concat_digests, concat_encodings, is_power_list,
};
use crate::ristretto::{
    all_valid, fold_points, identity_encoding, paired, point_encodings, point_fold, ristretto_add,
    ristretto_mul, CompressedRistretto, RistrettoPoint,
};
use vstd::arithmetic::power::{lemma_pow1, pow};
use vstd::prelude::*;

verus! {

/// The honest-majority rule: the index names one of the `n` parties, and
/// `t` is `(n - 1) / 2` rounded down.
pub open spec fn valid_parameters(n: usize, t: usize, index: usize) -> bool {
    1 <= index <= n && t < n && t == (n - 1) / 2
}

/// Whether `(n, t, index)` is an honest-majority parameter set.
pub fn check_parameters(n: usize, t: usize, index: usize) -> (r: bool)
    ensures
        r == valid_parameters(n, t, index),
{
    1 <= index && index <= n && t < n && t == (n - 1) / 2
}

/// The encodings of the scalars one after the other.
pub open spec fn scalar_bytes(s: Seq<Scalar>) -> Seq<u8>
    decreases s.len(),
{
    if s.len() == 0 {
        Seq::empty()
    } else {
        scalar_bytes(s.drop_last()) + s.last().bytes@
    }
}

/// The commitment to a share and a blinding value: the hash of their
/// encodings.
pub open spec fn hash_commitment(share: Seq<Scalar>, r: Scalar) -> Seq<u8> {
    blake3_xof(scalar_bytes(share) + r.bytes@)
}

/// The powers `d, d^2, .., d^k` of a challenge, reduced.
pub open spec fn challenge_powers(d: int, k: nat) -> Seq<int> {
    Seq::new(k, |i: int| pow(d, (i + 1) as nat) % order())
}

/// The indices below `n` that pass the check, in rising order.
pub open spec fn passing_indices(n: nat, ok: spec_fn(int) -> bool) -> Seq<usize>
    decreases n,
{
    if n == 0 {
        Seq::empty()
    } else if ok(n - 1) {
        passing_indices((n - 1) as nat, ok).push((n - 1) as usize)
    } else {
        passing_indices((n - 1) as nat, ok)
    }
}

/// What `passing_indices` holds: every index that passes and no other, each
/// once.
pub proof fn lemma_passing_indices(n: nat, ok: spec_fn(int) -> bool)
    requires
        n <= usize::MAX,
    ensures
        passing_indices(n, ok).len() <= n,
        passing_indices(n, ok).no_duplicates(),
        forall|q: int|
            0 <= q < passing_indices(n, ok).len() ==> (#[trigger] passing_indices(n, ok)[q]) < n
                && ok(passing_indices(n, ok)[q] as int),
        forall|i: int| 0 <= i < n && #[trigger] ok(i) ==> passing_indices(n, ok).contains(i as usize),
    decreases n,
{
    if n > 0 {
        let m = (n - 1) as nat;
        let prev = passing_indices(m, ok);
        lemma_passing_indices(m, ok);
        if ok(n - 1) {
            let cur = prev.push((n - 1) as usize);
            assert(cur[cur.len() - 1] == (n - 1) as usize);
            assert forall|i: int| 0 <= i < n && #[trigger] ok(i) implies cur.contains(i as usize) by {
                if i < n - 1 {
                    let w = choose|w: int| 0 <= w < prev.len() && prev[w] == i as usize;
                    assert(cur[w] == i as usize);
                } else {
                    assert(cur[cur.len() - 1] == i as usize);
                }
            }
        }
    }
}

/// Where every index passes, all `n` are listed.
pub proof fn lemma_all_pass(n: nat, ok: spec_fn(int) -> bool)
    requires
        n <= usize::MAX,
        forall|i: int| 0 <= i < n ==> #[trigger] ok(i),
    ensures
        passing_indices(n, ok).len() == n,
        forall|i: int| 0 <= i < n ==> #[trigger] passing_indices(n, ok)[i] == i,
    decreases n,
{
    if n > 0 {
        lemma_all_pass((n - 1) as nat, ok);
    }
}

/// Absorbs the encodings of the scalars, in order.
pub fn absorb_scalars(hasher: &mut Transcript, scalars: &[Scalar])
    ensures
        final(hasher)@ == old(hasher)@ + scalar_bytes(scalars@),
{
    let mut i: usize = 0;
    while i < scalars.len()
        invariant
            i <= scalars.len(),
            hasher@ == old(hasher)@ + scalar_bytes(scalars@.subrange(0, i as int)),
        decreases scalars.len() - i,
    {
        hasher.absorb(scalars[i].as_bytes().as_slice());
        proof {
            let next = scalars@.subrange(0, i + 1);
            assert(next.drop_last() =~= scalars@.subrange(0, i as int));
            assert(next.last() == scalars[i as int]);
            assert(hasher@ =~= old(hasher)@ + scalar_bytes(next));
        }
        i += 1;
    }
    assert(scalars@.subrange(0, i as int) =~= scalars@);
}

/// Absorbs the encodings of the group elements, in order.
pub fn absorb_points(hasher: &mut Transcript, points: &[CompressedRistretto])
    ensures
        final(hasher)@ == old(hasher)@ + concat_encodings(points@),
{
    let mut i: usize = 0;
    while i < points.len()
        invariant
            i <= points.len(),
            hasher@ == old(hasher)@ + concat_encodings(points@.subrange(0, i as int)),
        decreases points.len() - i,
    {
        hasher.absorb(points[i].as_bytes().as_slice());
        proof {
            let next = points@.subrange(0, i + 1);
            assert(next.drop_last() =~= points@.subrange(0, i as int));
            assert(next.last() == points[i as int]);
            assert(hasher@ =~= old(hasher)@ + concat_encodings(next));
        }
        i += 1;
    }
    assert(points@.subrange(0, i as int) =~= points@);
}

/// The commitment to a share and a blinding value, from a transcript that is
/// empty and is left empty; `out` receives the 64 bytes.
pub fn hash_commit(hasher: &mut Transcript, share: &[Scalar], r: &Scalar, out: &mut [u8; 64])
    requires
        old(hasher)@ == Seq::<u8>::empty(),
    ensures
        final(out)@ == hash_commitment(share@, *r),
        final(hasher)@ == Seq::<u8>::empty(),
{
    absorb_scalars(hasher, share);
    hasher.absorb(r.as_bytes().as_slice());
    assert(hasher@ =~= scalar_bytes(share@) + r.bytes@);
    hasher.squeeze(out);
    hasher.reset();
}

/// Whether two 64-byte strings are equal.
pub fn digests_equal(a: &[u8; 64], b: &[u8; 64]) -> (r: bool)
    ensures
        r == (a@ == b@),
{
    let mut i: usize = 0;
    while i < 64
        invariant
            i <= 64,
            forall|j: int| 0 <= j < i ==> a[j] == b[j],
        decreases 64 - i,
    {
        if a[i] != b[i] {
            return false;
        }
        i += 1;
    }
    assert(a@ =~= b@);
    true
}

/// The values of a list of powers of `d` are the reduced powers.
pub proof fn lemma_power_list_values(list: Seq<Scalar>, d: Scalar, k: nat)
    requires
        d.wf(),
        is_power_list(list, d, k),
    ensures
        scalar_values(list) == challenge_powers(d@, k),
        all_canonical(list),
{
    assert forall|i: int| 0 <= i < k implies scalar_values(list)[i] == challenge_powers(d@, k)[i] by {
        if i == 0 {
            lemma_pow1(d@);
            lemma_small_is_reduced(d@);
        }
    }
    assert(scalar_values(list) =~= challenge_powers(d@, k));
}

/// The challenge from 64-byte commitments and its first `k` powers; no
/// powers for `k == 0`. The transcript is left empty and `buf` cleared.
pub fn challenge_powers_from_digests(
    hasher: &mut Transcript,
    buf: &mut [u8; 64],
    commitments: &[[u8; 64]],
    k: usize,
) -> (r: Vec<Scalar>)
    ensures
        r.len() == k,
        all_canonical(r@),
        scalar_values(r@) == challenge_powers(
            challenge(old(hasher)@ + concat_digests(commitments@)),
            k as nat,
        ),
        final(hasher)@ == Seq::<u8>::empty(),
        final(buf)@ == zeroed(),
{
    let d = compute_d_from_hash_commitments(hasher, buf, commitments);
    if k >= 1 {
        let r = compute_d_powers(k, &d);
        proof {
            lemma_power_list_values(r@, d, k as nat);
        }
        r
    } else {
        let r: Vec<Scalar> = Vec::new();
        assert(scalar_values(r@) =~= challenge_powers(d@, 0));
        r
    }
}

/// The challenge from group-element commitments and its first `k` powers; no
/// powers for `k == 0`. The transcript is left empty and `buf` cleared.
pub fn challenge_powers_from_points(
    hasher: &mut Transcript,
    buf: &mut [u8; 64],
    commitments: &[CompressedRistretto],
    k: usize,
) -> (r: Vec<Scalar>)
    ensures
        r.len() == k,
        all_canonical(r@),
        scalar_values(r@) == challenge_powers(
            challenge(old(hasher)@ + concat_encodings(commitments@)),
            k as nat,
        ),
        final(hasher)@ == Seq::<u8>::empty(),
        final(buf)@ == zeroed(),
{
    let d = compute_d_from_point_commitments(hasher, buf, commitments);
    if k >= 1 {
        let r = compute_d_powers(k, &d);
        proof {
            lemma_power_list_values(r@, d, k as nat);
        }
        r
    } else {
        let r: Vec<Scalar> = Vec::new();
        assert(scalar_values(r@) =~= challenge_powers(d@, 0));
        r
    }
}

/// Two lists of shares hold the same scalars.
pub open spec fn same_rows(a: Seq<Vec<Scalar>>, b: Seq<Vec<Scalar>>) -> bool {
    &&& a.len() == b.len()
    &&& forall|i: int| 0 <= i < a.len() ==> (#[trigger] a[i])@ == b[i]@
}

/// A copy of a list of commitments.
pub fn copy_digests(v: &Vec<[u8; 64]>) -> (r: Vec<[u8; 64]>)
    ensures
        r@ == v@,
{
    let mut out: Vec<[u8; 64]> = Vec::new();
    let mut i: usize = 0;
    while i < v.len()
        invariant
            i <= v.len(),
            out@ == v@.subrange(0, i as int),
        decreases v.len() - i,
    {
        out.push(v[i]);
        assert(out@ =~= v@.subrange(0, i + 1));
        i += 1;
    }
    assert(v@.subrange(0, i as int) =~= v@);
    out
}

/// A copy of a list of scalars.
pub fn copy_scalars(v: &Vec<Scalar>) -> (r: Vec<Scalar>)
    ensures
        r@ == v@,
{
    let mut out: Vec<Scalar> = Vec::new();
    let mut i: usize = 0;
    while i < v.len()
        invariant
            i <= v.len(),
            out@ == v@.subrange(0, i as int),
        decreases v.len() - i,
    {
        out.push(v[i]);
        assert(out@ =~= v@.subrange(0, i + 1));
        i += 1;
    }
    assert(v@.subrange(0, i as int) =~= v@);
    out
}

/// A copy of a list of shares.
pub fn copy_rows(v: &Vec<Vec<Scalar>>) -> (r: Vec<Vec<Scalar>>)
    ensures
        same_rows(r@, v@),
{
    let mut out: Vec<Vec<Scalar>> = Vec::new();
    let mut i: usize = 0;
    while i < v.len()
        invariant
            i <= v.len(),
            out.len() == i,
            forall|q: int| 0 <= q < i ==> (#[trigger] out[q])@ == v[q]@,
        decreases v.len() - i,
    {
        out.push(copy_scalars(&v[i]));
        i += 1;
    }
    out
}

/// The scalar that a party expects the dealer to have committed to beside
/// its share: the value of `z` at the party's index, less the share weighted
/// by the first `k` powers of the challenge `d`.
pub open spec fn expected_blinding(z: Seq<int>, share: Seq<Scalar>, index: int, d: int, k: nat) -> Scalar {
    scalar_of(
        crate::polynomial::poly_eval(z, index) - crate::field::dot(
            scalar_values(share),
            challenge_powers(d, k),
        ),
    )
}

/// Whether a 64-byte commitment is the one to `share` and to the blinding
/// value that `z_eval` and the weights leave. The local transcript is empty
/// before and after, and the scratch buffer is cleared.
pub fn check_hash_commitment(
    commitment: &[u8; 64],
    z_eval: &Scalar,
    share: &[Scalar],
    d_vals: &[Scalar],
    l_hasher: &mut Transcript,
    l_buf: &mut [u8; 64],
) -> (r: bool)
    requires
        old(l_hasher)@ == Seq::<u8>::empty(),
    ensures
        forall|p: int| #[trigger]
            crate::field::congruent(p, z_eval@) ==> r == (commitment@ == hash_commitment(
                share@,
                scalar_of(p - crate::field::dot(scalar_values(share@), scalar_values(d_vals@))),
            )),
        final(l_hasher)@ == Seq::<u8>::empty(),
        final(l_buf)@ == zeroed(),
{
    let r_val = crate::polynomial::Polynomial::compute_r_eval(z_eval, share, d_vals);
    hash_commit(l_hasher, share, &r_val, l_buf);
    let check_bit = digests_equal(commitment, l_buf);
    crate::transcript::wipe(l_buf);
    proof {
        let dt = crate::field::dot(scalar_values(share@), scalar_values(d_vals@));
        assert forall|p: int| #[trigger] crate::field::congruent(p, z_eval@) implies check_bit == (
        commitment@ == hash_commitment(share@, scalar_of(p - dt))) by {
            crate::field::lemma_congruent_sub(p, z_eval@, dt, dt);
            crate::scalar::lemma_scalar_of(r_val, p - dt);
        }
    }
    check_bit
}

/// The sum of `share[k] * g[k]` over the positions that both have, added up
/// from the neutral element.
pub open spec fn share_combination(share: Seq<Scalar>, g: Seq<RistrettoPoint>) -> Seq<u8> {
    point_fold(
        identity_encoding(),
        scalar_values(share),
        point_encodings(g),
        paired(g.len(), share.len()),
    )
}

/// The value that is left of `z_val` when the share, weighted by the first
/// `k` powers of the challenge `d`, is taken off.
pub open spec fn blinding_value(z_val: int, share: Seq<Scalar>, d: int, k: nat) -> int {
    (z_val - crate::field::dot(scalar_values(share), challenge_powers(d, k))) % order()
}

/// The commitment to a share and a blinding value with the generators `g`
/// and `g0`: `sum_k share[k] * g[k] + r * g0`.
pub open spec fn linear_commitment(
    share: Seq<Scalar>,
    g: Seq<RistrettoPoint>,
    g0: Seq<u8>,
    r: int,
) -> Seq<u8> {
    ristretto_add(
        share_combination(share, g),
        ristretto_mul(r % order(), g0),
    )
}

/// The commitment to a share and a blinding value with the generators `g`
/// and `g0`.
pub fn linear_commit(
    share: &[Scalar],
    g: &[RistrettoPoint],
    g0: &RistrettoPoint,
    r: &Scalar,
) -> (c: RistrettoPoint)
    requires
        all_valid(g@),
        g0.wf(),
    ensures
        c.wf(),
        c@ == linear_commitment(share@, g@, g0@, r@),
{
    let sum = fold_points(RistrettoPoint::identity(), share, g);
    sum.add(&g0.mul(r))
}

/// What is left of a value of `z` when the share weighted by the powers of
/// the challenge is taken off, for the powers in `d_vals`.
pub fn blinding_of(z_eval: &Scalar, share: &[Scalar], d_vals: &[Scalar]) -> (r: Scalar)
    ensures
        r.wf(),
        forall|p: int, d: int, k: nat| #[trigger]
            crate::field::congruent(p, z_eval@) && scalar_values(d_vals@) == #[trigger] challenge_powers(
                d,
                k,
            ) ==> r@ == blinding_value(p, share@, d, k),
{
    let r = crate::polynomial::Polynomial::compute_r_eval(z_eval, share, d_vals);
    proof {
        let dt = crate::field::dot(scalar_values(share@), scalar_values(d_vals@));
        assert forall|p: int, d: int, k: nat| #[trigger]
            crate::field::congruent(p, z_eval@) && scalar_values(d_vals@) == #[trigger] challenge_powers(
                d,
                k,
            ) implies r@ == blinding_value(p, share@, d, k) by {
            crate::field::lemma_congruent_sub(p, z_eval@, dt, dt);
        }
    }
    r
}

/// The coefficients of `x^j` of the polynomials, one after the other.
pub open spec fn coefficient_column(fs: Seq<crate::polynomial::Polynomial>, j: int) -> Seq<int> {
    Seq::new(fs.len(), |k: int| fs[k]@[j])
}

/// The coefficients of `x^j` of the polynomials.
pub fn coefficient_column_of(fs: &Vec<crate::polynomial::Polynomial>, j: usize) -> (r: Vec<Scalar>)
    requires
        forall|k: int| 0 <= k < fs.len() ==> j < (#[trigger] fs[k]).coefficients.len(),
    ensures
        scalar_values(r@) == coefficient_column(fs@, j as int),
{
    let mut out: Vec<Scalar> = Vec::new();
    let mut k: usize = 0;
    while k < fs.len()
        invariant
            k <= fs.len(),
            forall|q: int| 0 <= q < fs.len() ==> j < (#[trigger] fs[q]).coefficients.len(),
            out.len() == k,
            forall|q: int| 0 <= q < k ==> out[q] == fs[q].coefficients[j as int],
        decreases fs.len() - k,
    {
        out.push(fs[k].coefficients[j]);
        k += 1;
    }
    assert(scalar_values(out@) =~= coefficient_column(fs@, j as int));
    out
}

/// The powers `x^from, x^(from + 1), ..`, `len` of them, as integers.
pub open spec fn index_powers(x: int, from: nat, len: nat) -> Seq<int> {
    Seq::new(len, |j: int| pow(x, (from + j) as nat))
}

/// The sum of `x^j * c[j]` over the commitments `c`, added up from the
/// neutral element: the commitment to the value at `x` that a list of
/// commitments to coefficients gives.
pub open spec fn evaluated_commitment(c: Seq<RistrettoPoint>, x: int) -> Seq<u8> {
    point_fold(identity_encoding(), index_powers(x, 0, c.len()), point_encodings(c), c.len())
}

/// The sum of `x^j * c[j]` over the commitments after the first, added to
/// the first.
pub open spec fn evaluated_commitment_from_first(c: Seq<RistrettoPoint>, x: int) -> Seq<u8> {
    point_fold(
        c[0]@,
        index_powers(x, 1, (c.len() - 1) as nat),
        point_encodings(c.subrange(1, c.len() as int)),
        (c.len() - 1) as nat,
    )
}

/// The commitment to the value at `x` that commitments to coefficients give.
pub fn evaluate_commitment(c: &Vec<RistrettoPoint>, x: usize) -> (r: RistrettoPoint)
    requires
        all_valid(c@),
    ensures
        r.wf(),
        r@ == evaluated_commitment(c@, x as int),
{
    let powers = crate::polynomial::powers_of(x, c.len());
    proof {
        crate::ristretto::lemma_point_fold_congruent(
            identity_encoding(),
            scalar_values(powers@),
            index_powers(x as int, 0, c@.len()),
            point_encodings(c@),
            c@.len(),
        );
    }
    fold_points(RistrettoPoint::identity(), powers.as_slice(), c.as_slice())
}

/// As `evaluate_commitment`, with the first commitment taken as it is and
/// the others added to it.
pub fn evaluate_commitment_from_first(c: &Vec<RistrettoPoint>, x: usize) -> (r: RistrettoPoint)
    requires
        all_valid(c@),
        c.len() >= 1,
    ensures
        r.wf(),
        r@ == evaluated_commitment_from_first(c@, x as int),
{
    let powers = crate::polynomial::powers_of(x, c.len());
    let mut tail_powers: Vec<Scalar> = Vec::new();
    let mut tail: Vec<RistrettoPoint> = Vec::new();
    let mut j: usize = 1;
    while j < c.len()
        invariant
            1 <= j <= c.len(),
            powers.len() == c.len(),
            all_valid(c@),
            all_valid(tail@),
            tail.len() == j - 1,
            tail_powers.len() == j - 1,
            forall|q: int| 0 <= q < j - 1 ==> tail[q] == c[q + 1],
            forall|q: int| 0 <= q < j - 1 ==> tail_powers[q] == powers[q + 1],
        decreases c.len() - j,
    {
        assert(c@[j as int].wf());
        tail.push(c[j]);
        tail_powers.push(powers[j]);
        j += 1;
    }
    proof {
        assert(tail@ =~= c@.subrange(1, c@.len() as int));
        assert forall|q: int| 0 <= q < tail_powers@.len() implies crate::field::congruent(
            #[trigger] scalar_values(tail_powers@)[q],
            index_powers(x as int, 1, (c@.len() - 1) as nat)[q],
        ) by {
            assert(tail_powers[q] == powers[q + 1]);
        }
        crate::ristretto::lemma_point_fold_congruent(
            c[0]@,
            scalar_values(tail_powers@),
            index_powers(x as int, 1, (c@.len() - 1) as nat),
            point_encodings(tail@),
            (c@.len() - 1) as nat,
        );
        assert(c@[0].wf());
    }
    fold_points(c[0], tail_powers.as_slice(), tail.as_slice())
}

} // verus!
