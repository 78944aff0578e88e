//! Challenges from commitments, Lagrange coefficients, and decoding of group
//! elements.

use crate::error::Error;
use crate::field::{
    congruent, inv_mod, invertible, is_inverse, lemma_inv_mod_is, lemma_inverse_congruent,
    lemma_pow_succ, lemma_reduced, lemma_small_is_reduced, lemma_small_nonzero, lemma_step_mul,
    order,
};
use crate::field::dot;
use crate::lagrange::{basis, separated, values_at};
use crate::ristretto::{ristretto_decodes, CompressedRistretto, RistrettoPoint};
use crate::scalar::{all_canonical, le_value, Scalar};
use crate::transcript::{blake3_xof, wipe, zeroed, Transcript};
use vstd::arithmetic::power::{lemma_pow1, pow};
use vstd::prelude::*;

verus! {

/// The 64-byte commitments one after the other.
pub open spec fn concat_digests(c: Seq<[u8; 64]>) -> Seq<u8>
    decreases c.len(),
{
    if c.len() == 0 {
        Seq::empty()
    } else {
        concat_digests(c.drop_last()) + c.last()@
    }
}

/// The 32-byte encodings of the commitments one after the other.
pub open spec fn concat_encodings(c: Seq<CompressedRistretto>) -> Seq<u8>
    decreases c.len(),
{
    if c.len() == 0 {
        Seq::empty()
    } else {
        concat_encodings(c.drop_last()) + c.last()@
    }
}

/// The challenge for a transcript that has absorbed `input`: its 64 output
/// bytes as a little-endian integer, reduced modulo the group order.
pub open spec fn challenge(input: Seq<u8>) -> int {
    le_value(blake3_xof(input)) as int % order()
}

/// The factor that the node `j` gives to the Lagrange coefficient of node `i`.
pub open spec fn lagrange_factor(i: int, j: int) -> int {
    if i == j {
        1
    } else {
        j * inv_mod(j - i)
    }
}

/// The product of the factors of the first `k` nodes for the node `i`.
pub open spec fn lagrange_product(i: int, nodes: Seq<int>, k: nat) -> int
    decreases k,
{
    if k == 0 {
        1
    } else {
        lagrange_product(i, nodes, (k - 1) as nat) * lagrange_factor(i, nodes[k - 1])
    }
}

/// The nodes as integers.
pub open spec fn node_values(nodes: Seq<usize>) -> Seq<int> {
    Seq::new(nodes.len(), |q: int| nodes[q] as int)
}

/// The nodes `1, 2, .., len`.
pub open spec fn first_nodes(len: nat) -> Seq<int> {
    Seq::new(len, |q: int| q + 1)
}

/// In place, over the positions that both have: `a[i] <- op(a[i], b[i])`.
pub fn pointwise_op_in_place<F: Fn(Scalar, Scalar) -> Scalar>(
    op: &F,
    a: &mut Vec<Scalar>,
    b: &Vec<Scalar>,
)
    requires
        forall|i: int|
            0 <= i < old(a).len() && i < b.len() ==> call_requires(op, (old(a)[i], b[i])),
    ensures
        final(a).len() == old(a).len(),
        forall|i: int|
            0 <= i < old(a).len() && i < b.len() ==> call_ensures(
                op,
                (old(a)[i], b[i]),
                #[trigger] final(a)[i],
            ),
        forall|i: int| b.len() <= i < old(a).len() ==> final(a)[i] == old(a)[i],
{
    let m = if a.len() <= b.len() {
        a.len()
    } else {
        b.len()
    };
    let mut i: usize = 0;
    while i < m
        invariant
            i <= m,
            m <= a.len(),
            m <= b.len(),
            m == a.len() || m == b.len(),
            a.len() == old(a).len(),
            forall|j: int|
                0 <= j < old(a).len() && j < b.len() ==> call_requires(op, (old(a)[j], b[j])),
            forall|j: int| 0 <= j < i ==> call_ensures(op, (old(a)[j], b[j]), #[trigger] a[j]),
            forall|j: int| i <= j < a.len() ==> a[j] == old(a)[j],
        decreases m - i,
    {
        let v = op(a[i], b[i]);
        a.set(i, v);
        i += 1;
    }
}

/// The challenge from 64-byte commitments: absorbs them in order, squeezes,
/// resets the transcript, reduces the output to a scalar and clears `buf`.
pub fn compute_d_from_hash_commitments(
    hasher: &mut Transcript,
    buf: &mut [u8; 64],
    commitments: &[[u8; 64]],
) -> (d: Scalar)
    ensures
        d.wf(),
        d@ == challenge(old(hasher)@ + concat_digests(commitments@)),
        final(hasher)@ == Seq::<u8>::empty(),
        final(buf)@ == zeroed(),
{
    let mut i: usize = 0;
    while i < commitments.len()
        invariant
            i <= commitments.len(),
            hasher@ == old(hasher)@ + concat_digests(commitments@.subrange(0, i as int)),
        decreases commitments.len() - i,
    {
        hasher.absorb(commitments[i].as_slice());
        proof {
            let next = commitments@.subrange(0, i + 1);
            assert(next.drop_last() =~= commitments@.subrange(0, i as int));
            assert(next.last() == commitments[i as int]);
            assert(hasher@ =~= old(hasher)@ + concat_digests(next));
        }
        i += 1;
    }
    assert(commitments@.subrange(0, i as int) =~= commitments@);
    hasher.squeeze(buf);
    hasher.reset();
    let d = Scalar::from_bytes_mod_order_wide(buf);
    wipe(buf);
    d
}

/// The challenge from group-element commitments: as
/// `compute_d_from_hash_commitments`, absorbing the 32-byte encodings.
pub fn compute_d_from_point_commitments(
    hasher: &mut Transcript,
    buf: &mut [u8; 64],
    commitments: &[CompressedRistretto],
) -> (d: Scalar)
    ensures
        d.wf(),
        d@ == challenge(old(hasher)@ + concat_encodings(commitments@)),
        final(hasher)@ == Seq::<u8>::empty(),
        final(buf)@ == zeroed(),
{
    let mut i: usize = 0;
    while i < commitments.len()
        invariant
            i <= commitments.len(),
            hasher@ == old(hasher)@ + concat_encodings(commitments@.subrange(0, i as int)),
        decreases commitments.len() - i,
    {
        hasher.absorb(commitments[i].as_bytes().as_slice());
        proof {
            let next = commitments@.subrange(0, i + 1);
            assert(next.drop_last() =~= commitments@.subrange(0, i as int));
            assert(next.last() == commitments[i as int]);
            assert(hasher@ =~= old(hasher)@ + concat_encodings(next));
        }
        i += 1;
    }
    assert(commitments@.subrange(0, i as int) =~= commitments@);
    hasher.squeeze(buf);
    hasher.reset();
    let d = Scalar::from_bytes_mod_order_wide(buf);
    wipe(buf);
    d
}

/// `result` is `d, d^2, .., d^k`: the first entry is `d` itself, the others
/// are canonical.
pub open spec fn is_power_list(result: Seq<Scalar>, d: Scalar, k: nat) -> bool {
    &&& result.len() == k
    &&& k >= 1 ==> result[0] == d
    &&& forall|i: int|
        1 <= i < k ==> (#[trigger] result[i]).wf() && result[i]@ == pow(d@, (i + 1) as nat)
            % order()
}

/// The powers `d, d^2, .., d^k`, by `k - 1` multiplications.
pub fn compute_d_powers(k: usize, d: &Scalar) -> (r: Vec<Scalar>)
    requires
        k >= 1,
    ensures
        is_power_list(r@, *d, k as nat),
{
    let mut d_vals: Vec<Scalar> = Vec::new();
    d_vals.push(*d);
    proof {
        lemma_pow1(d@);
    }
    let mut i: usize = 1;
    while i < k
        invariant
            1 <= i <= k,
            d_vals.len() == i,
            d_vals[0] == *d,
            congruent(d_vals[i - 1]@, pow(d@, i as nat)),
            forall|q: int|
                1 <= q < i ==> (#[trigger] d_vals[q]).wf() && d_vals[q]@ == pow(
                    d@,
                    (q + 1) as nat,
                ) % order(),
        decreases k - i,
    {
        let next = d.mul(&d_vals[i - 1]);
        proof {
            lemma_step_mul(d@, d@, d_vals[i - 1]@, pow(d@, i as nat));
            lemma_pow_succ(d@, i as nat);
            lemma_small_is_reduced(next@);
        }
        d_vals.push(next);
        i += 1;
    }
    d_vals
}

/// The powers of the challenge from 64-byte commitments.
pub fn compute_d_powers_from_hash_commitments(
    hasher: &mut Transcript,
    buf: &mut [u8; 64],
    commitments: &[[u8; 64]],
    k: usize,
) -> (r: Vec<Scalar>)
    requires
        k >= 1,
    ensures
        r.len() == k,
        all_canonical(r@),
        r[0]@ == challenge(old(hasher)@ + concat_digests(commitments@)),
        is_power_list(r@, r[0], k as nat),
        final(hasher)@ == Seq::<u8>::empty(),
        final(buf)@ == zeroed(),
{
    let d = compute_d_from_hash_commitments(hasher, buf, commitments);
    compute_d_powers(k, &d)
}

/// The powers of the challenge from group-element commitments.
pub fn compute_d_powers_from_point_commitments(
    hasher: &mut Transcript,
    buf: &mut [u8; 64],
    commitments: &[CompressedRistretto],
    k: usize,
) -> (r: Vec<Scalar>)
    requires
        k >= 1,
    ensures
        r.len() == k,
        all_canonical(r@),
        r[0]@ == challenge(old(hasher)@ + concat_encodings(commitments@)),
        is_power_list(r@, r[0], k as nat),
        final(hasher)@ == Seq::<u8>::empty(),
        final(buf)@ == zeroed(),
{
    let d = compute_d_from_point_commitments(hasher, buf, commitments);
    compute_d_powers(k, &d)
}

/// The Lagrange coefficient at zero of the node `i` among the nodes of
/// `qualified_set`: the product over the other nodes `j` of `j / (j - i)`.
pub fn compute_lagrange_basis(i: usize, qualified_set: &Vec<usize>) -> (r: Scalar)
    ensures
        r.wf(),
        r@ == lagrange_product(i as int, node_values(qualified_set@), qualified_set@.len())
            % order(),
        forall|k: int|
            0 <= k < qualified_set.len() && qualified_set[k] != i ==> invertible(
                #[trigger] qualified_set[k] - i,
            ),
{
    let zq_i = Scalar::from_u64(i as u64);
    let mut acc = Scalar::one();
    let mut k: usize = 0;
    let ghost nodes = node_values(qualified_set@);
    while k < qualified_set.len()
        invariant
            k <= qualified_set.len(),
            nodes == node_values(qualified_set@),
            zq_i@ == i,
            acc.wf(),
            congruent(acc@, lagrange_product(i as int, nodes, k as nat)),
            forall|q: int|
                0 <= q < k && qualified_set[q] != i ==> invertible(#[trigger] qualified_set[q] - i),
        decreases qualified_set.len() - k,
    {
        let j = qualified_set[k];
        assert(nodes[k as int] == j);
        if i != j {
            let zq_j = Scalar::from_u64(j as u64);
            let diff = zq_j.sub(&zq_i);
            let inv = diff.invert();
            let factor = zq_j.mul(&inv);
            let next = acc.mul(&factor);
            proof {
                lemma_small_nonzero(j - i);
                lemma_reduced(j - i);
                lemma_small_is_reduced(diff@);
                lemma_inverse_congruent(diff@, j - i, inv@);
                lemma_inv_mod_is(j - i, inv@);
                assert(is_inverse(j - i, inv@));
                lemma_reduced(j * inv_mod(j - i));
                lemma_step_mul(
                    acc@,
                    lagrange_product(i as int, nodes, k as nat),
                    factor@,
                    lagrange_factor(i as int, j as int),
                );
            }
            acc = next;
        } else {
            assert(lagrange_product(i as int, nodes, (k + 1) as nat) == lagrange_product(
                i as int,
                nodes,
                k as nat,
            ) * 1);
        }
        k += 1;
    }
    proof {
        lemma_small_is_reduced(acc@);
    }
    acc
}

/// The Lagrange coefficients at zero of all the nodes of `qualified_set`.
pub fn compute_lagrange_bases(qualified_set: &Vec<usize>) -> (r: Vec<Scalar>)
    ensures
        r.len() == qualified_set.len(),
        all_canonical(r@),
        forall|q: int|
            0 <= q < r.len() ==> (#[trigger] r[q])@ == basis(node_values(qualified_set@), q)
                % order(),
        qualified_set@.no_duplicates() ==> separated(node_values(qualified_set@)),
        qualified_set@.no_duplicates() ==> forall|f: Seq<int>|
            f.len() <= qualified_set@.len() ==> congruent(
                dot(
                    crate::scalar::scalar_values(r@),
                    #[trigger] values_at(f, node_values(qualified_set@)),
                ),
                crate::polynomial::poly_eval(f, 0),
            ),
{
    let mut out: Vec<Scalar> = Vec::new();
    let mut k: usize = 0;
    while k < qualified_set.len()
        invariant
            k <= qualified_set.len(),
            out.len() == k,
            all_canonical(out@),
            forall|q: int|
                0 <= q < k ==> (#[trigger] out[q])@ == basis(node_values(qualified_set@), q)
                    % order(),
            forall|a: int, b: int|
                0 <= a < k && 0 <= b < qualified_set.len() && qualified_set[b] != qualified_set[a]
                    ==> invertible(#[trigger] qualified_set[b] - #[trigger] qualified_set[a]),
        decreases qualified_set.len() - k,
    {
        out.push(compute_lagrange_basis(qualified_set[k], qualified_set));
        assert(node_values(qualified_set@)[k as int] == qualified_set[k as int]);
        k += 1;
    }
    proof {
        if qualified_set@.no_duplicates() {
            let xs = node_values(qualified_set@);
            assert forall|a: int, b: int|
                0 <= a < xs.len() && 0 <= b < xs.len() && a != b implies xs[a] != xs[b]
                && invertible(#[trigger] xs[b] - #[trigger] xs[a]) by {
                assert(qualified_set@[a] != qualified_set@[b]);
                assert(invertible(qualified_set[b] - qualified_set[a]));
            }
            let ls = crate::scalar::scalar_values(out@);
            assert forall|a: int| 0 <= a < xs.len() implies congruent(
                #[trigger] ls[a],
                basis(xs, a),
            ) by {
                assert(ls[a] == out[a]@);
                lemma_reduced(basis(xs, a));
            }
            assert forall|f: Seq<int>| f.len() <= qualified_set@.len() implies congruent(
                dot(ls, #[trigger] values_at(f, xs)),
                crate::polynomial::poly_eval(f, 0),
            ) by {
                crate::lagrange::lemma_reconstruction(xs, f, ls, values_at(f, xs));
            }
        }
    }
    out
}

/// For each `i` of `1, .., n`, the product over the nodes `j` of
/// `1, .., t + 1` other than `i` of `j / (j - i)`.
pub fn precompute_lambda(n: usize, t: usize) -> (r: Vec<Scalar>)
    requires
        t < usize::MAX,
    ensures
        r.len() == n,
        all_canonical(r@),
        forall|q: int|
            0 <= q < n ==> (#[trigger] r[q])@ == lagrange_product(
                q + 1,
                first_nodes((t + 1) as nat),
                (t + 1) as nat,
            ) % order(),
{
    let mut nodes: Vec<usize> = Vec::new();
    let mut j: usize = 0;
    while j <= t
        invariant
            j <= t + 1,
            t < usize::MAX,
            nodes.len() == j,
            forall|q: int| 0 <= q < j ==> nodes[q] == q + 1,
        decreases t + 1 - j,
    {
        nodes.push(j + 1);
        j += 1;
    }
    assert(node_values(nodes@) =~= first_nodes((t + 1) as nat));
    let mut out: Vec<Scalar> = Vec::new();
    let mut i: usize = 0;
    while i < n
        invariant
            i <= n,
            out.len() == i,
            nodes.len() == t + 1,
            node_values(nodes@) == first_nodes((t + 1) as nat),
            all_canonical(out@),
            forall|q: int|
                0 <= q < i ==> (#[trigger] out[q])@ == lagrange_product(
                    q + 1,
                    first_nodes((t + 1) as nat),
                    (t + 1) as nat,
                ) % order(),
        decreases n - i,
    {
        out.push(compute_lagrange_basis(i + 1, &nodes));
        i += 1;
    }
    out
}

/// The group element that the bytes encode, or the error that names them.
pub fn decompress_ristretto_point(compressed_point: CompressedRistretto) -> (r: Result<
    RistrettoPoint,
    Error,
>)
    ensures
        ristretto_decodes(compressed_point@) ==> r is Ok,
        !ristretto_decodes(compressed_point@) ==> r == Err::<RistrettoPoint, Error>(
            Error::PointDecompressionError(compressed_point.bytes),
        ),
        r matches Ok(p) ==> p.wf() && p@ == compressed_point@,
{
    match compressed_point.decompress() {
        Some(decompressed_point) => Ok(decompressed_point),
        None => Err(Error::PointDecompressionError(compressed_point.bytes)),
    }
}

/// The group elements of the encodings `c`, in order.
pub open spec fn decoded(c: Seq<CompressedRistretto>, points: Seq<RistrettoPoint>) -> bool {
    &&& points.len() == c.len()
    &&& forall|i: int| 0 <= i < c.len() ==> (#[trigger] points[i]).wf() && points[i]@ == c[i]@
}

/// The position of the first entry that is no encoding, or the length.
pub open spec fn first_invalid(c: Seq<CompressedRistretto>) -> int
    decreases c.len(),
{
    if c.len() == 0 {
        0
    } else if first_invalid(c.drop_last()) < c.len() - 1 {
        first_invalid(c.drop_last())
    } else if ristretto_decodes(c.last()@) {
        c.len() as int
    } else {
        c.len() - 1
    }
}

/// The group elements that the entries encode; fails with the first entry
/// that encodes none.
pub fn batch_decompress_ristretto_points(compressed_points: &[CompressedRistretto]) -> (r: Result<
    Vec<RistrettoPoint>,
    Error,
>)
    ensures
        first_invalid(compressed_points@) == compressed_points@.len() ==> r is Ok,
        first_invalid(compressed_points@) < compressed_points@.len() ==> r == Err::<
            Vec<RistrettoPoint>,
            Error,
        >(
            Error::PointDecompressionError(
                compressed_points[first_invalid(compressed_points@)].bytes,
            ),
        ),
        r matches Ok(points) ==> decoded(compressed_points@, points@),
        0 <= first_invalid(compressed_points@) <= compressed_points@.len(),
        forall|i: int|
            0 <= i < first_invalid(compressed_points@) ==> ristretto_decodes(
                #[trigger] compressed_points[i]@,
            ),
        first_invalid(compressed_points@) < compressed_points@.len() ==> !ristretto_decodes(
            compressed_points[first_invalid(compressed_points@)]@,
        ),
{
    let mut out: Vec<RistrettoPoint> = Vec::new();
    let mut i: usize = 0;
    while i < compressed_points.len()
        invariant
            i <= compressed_points.len(),
            first_invalid(compressed_points@.subrange(0, i as int)) == i,
            decoded(compressed_points@.subrange(0, i as int), out@),
        decreases compressed_points.len() - i,
    {
        let ghost before = compressed_points@.subrange(0, i as int);
        let ghost next = compressed_points@.subrange(0, i + 1);
        proof {
            assert(next.drop_last() =~= before);
            assert(next.last() == compressed_points[i as int]);
        }
        match decompress_ristretto_point(compressed_points[i]) {
            Ok(p) => {
                out.push(p);
            },
            Err(e) => {
                proof {
                    lemma_first_invalid_prefix(compressed_points@, i + 1);
                    lemma_first_invalid_bounds(compressed_points@);
                }
                return Err(e);
            },
        }
        i += 1;
    }
    assert(compressed_points@.subrange(0, i as int) =~= compressed_points@);
    proof {
        lemma_first_invalid_bounds(compressed_points@);
    }
    Ok(out)
}

/// An entry that is no encoding stays the first one in every longer sequence.
pub proof fn lemma_first_invalid_prefix(c: Seq<CompressedRistretto>, k: int)
    requires
        0 <= k <= c.len(),
        first_invalid(c.subrange(0, k)) < k,
    ensures
        first_invalid(c) == first_invalid(c.subrange(0, k)),
    decreases c.len() - k,
{
    if k < c.len() {
        let longer = c.subrange(0, k + 1);
        assert(longer.drop_last() =~= c.subrange(0, k));
        lemma_first_invalid_prefix(c, k + 1);
    } else {
        assert(c.subrange(0, k) =~= c);
    }
}

/// `first_invalid` is a position or the length, and what lies before it can be
/// decoded.
pub proof fn lemma_first_invalid_bounds(c: Seq<CompressedRistretto>)
    ensures
        0 <= first_invalid(c) <= c.len(),
        forall|i: int| 0 <= i < first_invalid(c) ==> ristretto_decodes(#[trigger] c[i]@),
        first_invalid(c) < c.len() ==> !ristretto_decodes(c[first_invalid(c)]@),
    decreases c.len(),
{
    if c.len() > 0 {
        lemma_first_invalid_bounds(c.drop_last());
        assert forall|i: int| 0 <= i < first_invalid(c) implies ristretto_decodes(
            #[trigger] c[i]@,
        ) by {
            if i < c.len() - 1 {
                assert(c.drop_last()[i] == c[i]);
            }
        }
    }
}

/// The position of the first row with an entry that is no encoding, or the
/// number of rows.
pub open spec fn first_invalid_row(rows: Seq<Vec<CompressedRistretto>>) -> int
    decreases rows.len(),
{
    if rows.len() == 0 {
        0
    } else if first_invalid_row(rows.drop_last()) < rows.len() - 1 {
        first_invalid_row(rows.drop_last())
    } else if first_invalid(rows.last()@) == rows.last()@.len() {
        rows.len() as int
    } else {
        rows.len() - 1
    }
}

/// A row that cannot be decoded stays the first one in every longer sequence.
pub proof fn lemma_first_invalid_row_prefix(rows: Seq<Vec<CompressedRistretto>>, k: int)
    requires
        0 <= k <= rows.len(),
        first_invalid_row(rows.subrange(0, k)) < k,
    ensures
        first_invalid_row(rows) == first_invalid_row(rows.subrange(0, k)),
    decreases rows.len() - k,
{
    if k < rows.len() {
        let longer = rows.subrange(0, k + 1);
        assert(longer.drop_last() =~= rows.subrange(0, k));
        lemma_first_invalid_row_prefix(rows, k + 1);
    } else {
        assert(rows.subrange(0, k) =~= rows);
    }
}

/// Row by row, the group elements that the entries encode; fails with the
/// first entry of the first row that encodes none.
pub fn batch_decompress_batched_ristretto_points(
    batch_compressed_points: &Vec<Vec<CompressedRistretto>>,
) -> (r: Result<Vec<Vec<RistrettoPoint>>, Error>)
    ensures
        0 <= first_invalid_row(batch_compressed_points@) <= batch_compressed_points@.len(),
        first_invalid_row(batch_compressed_points@) == batch_compressed_points@.len() ==> r is Ok,
        first_invalid_row(batch_compressed_points@) < batch_compressed_points@.len() ==> {
            let row = batch_compressed_points[first_invalid_row(batch_compressed_points@)]@;
            &&& 0 <= first_invalid(row) < row.len()
            &&& r == Err::<Vec<Vec<RistrettoPoint>>, Error>(
                Error::PointDecompressionError(row[first_invalid(row)].bytes),
            )
        },
        r matches Ok(points) ==> {
            &&& points.len() == batch_compressed_points.len()
            &&& forall|i: int|
                0 <= i < points.len() ==> decoded(
                    batch_compressed_points[i]@,
                    (#[trigger] points[i])@,
                )
        },
{
    let mut out: Vec<Vec<RistrettoPoint>> = Vec::new();
    let mut i: usize = 0;
    while i < batch_compressed_points.len()
        invariant
            i <= batch_compressed_points.len(),
            first_invalid_row(batch_compressed_points@.subrange(0, i as int)) == i,
            out.len() == i,
            forall|q: int|
                0 <= q < i ==> decoded(batch_compressed_points[q]@, (#[trigger] out[q])@),
        decreases batch_compressed_points.len() - i,
    {
        let ghost before = batch_compressed_points@.subrange(0, i as int);
        let ghost next = batch_compressed_points@.subrange(0, i + 1);
        proof {
            assert(next.drop_last() =~= before);
            assert(next.last() == batch_compressed_points[i as int]);
        }
        match batch_decompress_ristretto_points(batch_compressed_points[i].as_slice()) {
            Ok(points) => {
                out.push(points);
            },
            Err(e) => {
                proof {
                    lemma_first_invalid_row_prefix(batch_compressed_points@, i + 1);
                }
                return Err(e);
            },
        }
        i += 1;
    }
    assert(batch_compressed_points@.subrange(0, i as int) =~= batch_compressed_points@);
    Ok(out)
}

/// The public keys of all `n` parties in order: those of the others,
/// decoded, with the party's own key put at its place `own_index - 1`.
pub fn ingest_public_keys(
    n: usize,
    own_public_key: &RistrettoPoint,
    own_index: usize,
    public_keys: &[CompressedRistretto],
) -> (r: Result<Vec<RistrettoPoint>, Error>)
    requires
        1 <= own_index <= n,
    ensures
        public_keys.len() != n - 1 ==> r == Err::<Vec<RistrettoPoint>, Error>(
            Error::CountMismatch(n, "parties", public_keys.len(), "public_keys"),
        ),
        public_keys.len() == n - 1 && first_invalid(public_keys@) < public_keys@.len() ==> r
            == Err::<Vec<RistrettoPoint>, Error>(
            Error::PointDecompressionError(public_keys[first_invalid(public_keys@)].bytes),
        ),
        public_keys.len() == n - 1 && first_invalid(public_keys@) == public_keys@.len() ==> r
            is Ok,
        r matches Ok(pks) ==> {
            &&& pks.len() == n
            &&& pks[own_index - 1] == *own_public_key
            &&& forall|i: int|
                0 <= i < own_index - 1 ==> (#[trigger] pks[i]).wf() && pks[i]@ == public_keys[i]@
            &&& forall|i: int|
                own_index <= i < n ==> (#[trigger] pks[i]).wf() && pks[i]@ == public_keys[i - 1]@
        },
{
    if public_keys.len() == n - 1 {
        match batch_decompress_ristretto_points(public_keys) {
            Ok(mut pks) => {
                let ghost others = pks@;
                pks.insert(own_index - 1, *own_public_key);
                proof {
                    assert forall|i: int| own_index <= i < n implies (#[trigger] pks[i]).wf()
                        && pks[i]@ == public_keys[i - 1]@ by {
                        assert(pks[i] == others[i - 1]);
                    }
                    assert forall|i: int| 0 <= i < own_index - 1 implies (#[trigger] pks[i]).wf()
                        && pks[i]@ == public_keys[i]@ by {
                        assert(pks[i] == others[i]);
                    }
                }
                Ok(pks)
            },
            Err(x) => Err(x),
        }
    } else {
        Err(Error::CountMismatch(n, "parties", public_keys.len(), "public_keys"))
    }
}

/// The challenge is determined by the commitments. Two canonical scalars
/// that are each the challenge of a fresh transcript for the same 64-byte
/// commitments are the same scalar, byte by byte.
pub proof fn lemma_hash_challenge_determined(
    first: Scalar,
    second: Scalar,
    commitments: Seq<[u8; 64]>,
)
    requires
        first.wf(),
        second.wf(),
        first@ == challenge(Seq::<u8>::empty() + concat_digests(commitments)),
        second@ == challenge(Seq::<u8>::empty() + concat_digests(commitments)),
    ensures
        first == second,
        first.bytes@ == second.bytes@,
{
    crate::scalar::lemma_same_value_same_scalar(first, second);
}

/// As `lemma_hash_challenge_determined`, for group-element commitments.
pub proof fn lemma_point_challenge_determined(
    first: Scalar,
    second: Scalar,
    commitments: Seq<CompressedRistretto>,
)
    requires
        first.wf(),
        second.wf(),
        first@ == challenge(Seq::<u8>::empty() + concat_encodings(commitments)),
        second@ == challenge(Seq::<u8>::empty() + concat_encodings(commitments)),
    ensures
        first == second,
        first.bytes@ == second.bytes@,
{
    crate::scalar::lemma_same_value_same_scalar(first, second);
}

} // verus!
