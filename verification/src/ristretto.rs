//! Elements of the Ristretto group, held by their canonical 32-byte encoding.
//!
//! The group law itself is computed by `curve25519_dalek`; contracts speak of
//! its results by name.

use crate::field::order;
use crate::scalar::{bytes_equal, Scalar};
use vstd::prelude::*;

verus! {

/// Whether `CompressedRistretto::decompress` accepts the encoding: whether it
/// is the canonical encoding of a group element.
pub uninterp spec fn ristretto_decodes(encoding: Seq<u8>) -> bool;

/// The encoding of the sum of the two encoded group elements.
pub uninterp spec fn ristretto_add(a: Seq<u8>, b: Seq<u8>) -> Seq<u8>;

/// The encoding of the difference of the two encoded group elements.
pub uninterp spec fn ristretto_sub(a: Seq<u8>, b: Seq<u8>) -> Seq<u8>;

/// The encoding of the encoded group element multiplied by a reduced scalar.
pub uninterp spec fn ristretto_mul(s: int, p: Seq<u8>) -> Seq<u8>;

/// The encoding of the Ristretto basepoint multiplied by a reduced scalar.
pub uninterp spec fn ristretto_mul_base(s: int) -> Seq<u8>;

/// The encoding of the group element that 64 bytes are mapped to.
pub uninterp spec fn ristretto_from_uniform(bytes: Seq<u8>) -> Seq<u8>;

/// The encoding of the neutral element: 32 zero bytes.
pub open spec fn identity_encoding() -> Seq<u8> {
    Seq::new(32, |i: int| 0u8)
}

/// A byte string that claims to encode a group element.
#[derive(Clone, Copy, Debug, PartialEq, Eq)]
pub struct CompressedRistretto {
    pub bytes: [u8; 32],
}

/// A group element, by its canonical encoding.
#[derive(Clone, Copy, Debug, PartialEq, Eq)]
pub struct RistrettoPoint {
    pub bytes: [u8; 32],
}

impl View for CompressedRistretto {
    type V = Seq<u8>;

    open spec fn view(&self) -> Seq<u8> {
        self.bytes@
    }
}

impl View for RistrettoPoint {
    type V = Seq<u8>;

    open spec fn view(&self) -> Seq<u8> {
        self.bytes@
    }
}

/// The encodings of a sequence of group elements.
pub open spec fn point_encodings(s: Seq<RistrettoPoint>) -> Seq<Seq<u8>> {
    Seq::new(s.len(), |i: int| s[i]@)
}

/// Every element of the sequence is a valid group element.
pub open spec fn all_valid(s: Seq<RistrettoPoint>) -> bool {
    forall|i: int| 0 <= i < s.len() ==> (#[trigger] s[i]).wf()
}

/// `CompressedRistretto::decompress`, followed by `RistrettoPoint::compress`:
/// `None` exactly where the bytes are no canonical encoding, and else the
/// group element, whose encoding is the bytes given.
#[verifier::external_body]
fn dalek_decompress(c: &CompressedRistretto) -> (r: Option<RistrettoPoint>)
    ensures
        r.is_some() == ristretto_decodes(c@),
        r matches Some(p) ==> p.wf() && p@ == c@,
{
    match curve25519_dalek::ristretto::CompressedRistretto(c.bytes).decompress() {
        Some(p) => Some(RistrettoPoint { bytes: p.compress().to_bytes() }),
        None => None,
    }
}

/// Addition of `curve25519_dalek` Ristretto points (`Add`).
#[verifier::external_body]
fn dalek_point_add(a: &RistrettoPoint, b: &RistrettoPoint) -> (r: RistrettoPoint)
    requires
        a.wf(),
        b.wf(),
    ensures
        r.wf(),
        r@ == ristretto_add(a@, b@),
{
    let x = curve25519_dalek::ristretto::CompressedRistretto(a.bytes).decompress().unwrap();
    let y = curve25519_dalek::ristretto::CompressedRistretto(b.bytes).decompress().unwrap();
    RistrettoPoint { bytes: (x + y).compress().to_bytes() }
}

/// Subtraction of `curve25519_dalek` Ristretto points (`Sub`).
#[verifier::external_body]
fn dalek_point_sub(a: &RistrettoPoint, b: &RistrettoPoint) -> (r: RistrettoPoint)
    requires
        a.wf(),
        b.wf(),
    ensures
        r.wf(),
        r@ == ristretto_sub(a@, b@),
{
    let x = curve25519_dalek::ristretto::CompressedRistretto(a.bytes).decompress().unwrap();
    let y = curve25519_dalek::ristretto::CompressedRistretto(b.bytes).decompress().unwrap();
    RistrettoPoint { bytes: (x - y).compress().to_bytes() }
}

/// Multiplication of a `curve25519_dalek` Ristretto point by a scalar, the
/// scalar reduced first: `RistrettoBasepointTable::create` for the point, and
/// the table's `Mul` with the scalar. The table works on the serial
/// arithmetic alone, which keeps a build without optimisation usable; the
/// product is the one that the point's own `Mul` gives.
#[verifier::external_body]
fn dalek_point_mul(p: &RistrettoPoint, s: &Scalar) -> (r: RistrettoPoint)
    requires
        p.wf(),
    ensures
        r.wf(),
        r@ == ristretto_mul(s@ % order(), p@),
{
    let x = curve25519_dalek::ristretto::CompressedRistretto(p.bytes).decompress().unwrap();
    let k = curve25519_dalek::scalar::Scalar::from_bytes_mod_order(s.bytes);
    let table = curve25519_dalek::ristretto::RistrettoBasepointTable::create(&x);
    RistrettoPoint { bytes: (&table * &k).compress().to_bytes() }
}

/// `RistrettoPoint::mul_base`, the scalar reduced first.
#[verifier::external_body]
fn dalek_mul_base(s: &Scalar) -> (r: RistrettoPoint)
    ensures
        r.wf(),
        r@ == ristretto_mul_base(s@ % order()),
{
    let k = curve25519_dalek::scalar::Scalar::from_bytes_mod_order(s.bytes);
    RistrettoPoint {
        bytes: curve25519_dalek::ristretto::RistrettoPoint::mul_base(&k).compress().to_bytes(),
    }
}

/// `RistrettoPoint::from_uniform_bytes`.
#[verifier::external_body]
fn dalek_from_uniform_bytes(bytes: &[u8; 64]) -> (r: RistrettoPoint)
    ensures
        r.wf(),
        r@ == ristretto_from_uniform(bytes@),
{
    RistrettoPoint {
        bytes: curve25519_dalek::ristretto::RistrettoPoint::from_uniform_bytes(bytes)
            .compress()
            .to_bytes(),
    }
}

/// The neutral element of `curve25519_dalek` (`Identity`), whose encoding is
/// 32 zero bytes.
#[verifier::external_body]
fn dalek_identity() -> (r: RistrettoPoint)
    ensures
        r.wf(),
        r@ == identity_encoding(),
{
    let p: curve25519_dalek::ristretto::RistrettoPoint = curve25519_dalek::traits::Identity::identity();
    RistrettoPoint { bytes: p.compress().to_bytes() }
}

impl CompressedRistretto {
    /// The group element that the bytes encode, if they encode one.
    pub fn decompress(&self) -> (r: Option<RistrettoPoint>)
        ensures
            r.is_some() == ristretto_decodes(self@),
            r matches Some(p) ==> p.wf() && p@ == self@,
    {
        dalek_decompress(self)
    }

    /// The bytes of the encoding.
    pub fn as_bytes(&self) -> (r: &[u8; 32])
        ensures
            r@ == self@,
    {
        &self.bytes
    }

    /// The encoding of the neutral element.
    pub fn identity() -> (r: CompressedRistretto)
        ensures
            r@ == identity_encoding(),
    {
        let r = CompressedRistretto { bytes: [0u8; 32] };
        assert(r@ =~= identity_encoding());
        r
    }

    /// Whether two encodings are the same bytes.
    pub fn equals(&self, other: &CompressedRistretto) -> (r: bool)
        ensures
            r == (self@ == other@),
    {
        bytes_equal(&self.bytes, &other.bytes)
    }
}

impl RistrettoPoint {
    /// The bytes are the canonical encoding of a group element.
    pub open spec fn wf(&self) -> bool {
        ristretto_decodes(self@)
    }

    /// The canonical encoding.
    pub fn compress(&self) -> (r: CompressedRistretto)
        ensures
            r@ == self@,
    {
        CompressedRistretto { bytes: self.bytes }
    }

    /// The neutral element.
    pub fn identity() -> (r: RistrettoPoint)
        ensures
            r.wf(),
            r@ == identity_encoding(),
    {
        dalek_identity()
    }

    /// The basepoint multiplied by `s`.
    pub fn mul_base(s: &Scalar) -> (r: RistrettoPoint)
        ensures
            r.wf(),
            r@ == ristretto_mul_base(s@ % order()),
    {
        dalek_mul_base(s)
    }

    /// The group element that 64 bytes are mapped to.
    pub fn from_uniform_bytes(bytes: &[u8; 64]) -> (r: RistrettoPoint)
        ensures
            r.wf(),
            r@ == ristretto_from_uniform(bytes@),
    {
        dalek_from_uniform_bytes(bytes)
    }

    pub fn add(&self, other: &RistrettoPoint) -> (r: RistrettoPoint)
        requires
            self.wf(),
            other.wf(),
        ensures
            r.wf(),
            r@ == ristretto_add(self@, other@),
    {
        dalek_point_add(self, other)
    }

    pub fn sub(&self, other: &RistrettoPoint) -> (r: RistrettoPoint)
        requires
            self.wf(),
            other.wf(),
        ensures
            r.wf(),
            r@ == ristretto_sub(self@, other@),
    {
        dalek_point_sub(self, other)
    }

    /// The element multiplied by `s`.
    pub fn mul(&self, s: &Scalar) -> (r: RistrettoPoint)
        requires
            self.wf(),
        ensures
            r.wf(),
            r@ == ristretto_mul(s@ % order(), self@),
    {
        dalek_point_mul(self, s)
    }

    /// Whether two group elements are the same: whether their canonical
    /// encodings are.
    pub fn equals(&self, other: &RistrettoPoint) -> (r: bool)
        ensures
            r == (self@ == other@),
    {
        bytes_equal(&self.bytes, &other.bytes)
    }
}

/// `start` with `scalars[i] * points[i]` added for each of the first `m`
/// positions, in order.
pub open spec fn point_fold(start: Seq<u8>, scalars: Seq<int>, points: Seq<Seq<u8>>, m: nat) -> Seq<
    u8,
>
    decreases m,
{
    if m == 0 {
        start
    } else {
        ristretto_add(
            point_fold(start, scalars, points, (m - 1) as nat),
            ristretto_mul(scalars[m - 1] % order(), points[m - 1]),
        )
    }
}

/// The number of positions that a list of scalars and a list of points both
/// have.
pub open spec fn paired(a: nat, b: nat) -> nat {
    if a <= b {
        a
    } else {
        b
    }
}

/// `start` with `scalars[i] * points[i]` added for each position that both
/// lists have, in order.
pub fn fold_points(start: RistrettoPoint, scalars: &[Scalar], points: &[RistrettoPoint]) -> (r:
    RistrettoPoint)
    requires
        start.wf(),
        all_valid(points@),
    ensures
        r.wf(),
        r@ == point_fold(
            start@,
            crate::scalar::scalar_values(scalars@),
            point_encodings(points@),
            paired(points@.len(), scalars@.len()),
        ),
{
    let m = if points.len() <= scalars.len() {
        points.len()
    } else {
        scalars.len()
    };
    let mut acc = start;
    let mut i: usize = 0;
    let ghost ls = crate::scalar::scalar_values(scalars@);
    let ghost ps = point_encodings(points@);
    while i < m
        invariant
            i <= m,
            m <= points.len(),
            m <= scalars.len(),
            all_valid(points@),
            ls == crate::scalar::scalar_values(scalars@),
            ps == point_encodings(points@),
            acc.wf(),
            acc@ == point_fold(start@, ls, ps, i as nat),
        decreases m - i,
    {
        assert(points[i as int].wf());
        let term = points[i].mul(&scalars[i]);
        assert(ls[i as int] == scalars[i as int]@);
        assert(ps[i as int] == points[i as int]@);
        acc = acc.add(&term);
        i += 1;
    }
    acc
}

/// A fold depends on the scalars only through what they stand for.
pub proof fn lemma_point_fold_congruent(
    start: Seq<u8>,
    a: Seq<int>,
    b: Seq<int>,
    points: Seq<Seq<u8>>,
    m: nat,
)
    requires
        m <= a.len(),
        m <= b.len(),
        forall|i: int| 0 <= i < m ==> crate::field::congruent(#[trigger] a[i], b[i]),
    ensures
        point_fold(start, a, points, m) == point_fold(start, b, points, m),
    decreases m,
{
    if m > 0 {
        lemma_point_fold_congruent(start, a, b, points, (m - 1) as nat);
        assert(crate::field::congruent(a[m - 1], b[m - 1]));
    }
}

/// A copy of a list of group elements.
pub fn copy_points(v: &Vec<RistrettoPoint>) -> (r: Vec<RistrettoPoint>)
    ensures
        r@ == v@,
{
    let mut out: Vec<RistrettoPoint> = Vec::new();
    let mut i: usize = 0;
    while i < v.len()
        invariant
            i <= v.len(),
            out@ == v@.subrange(0, i as int),
        decreases v.len() - i,
    {
        out.push(v[i]);
        assert(out@ =~= v@.subrange(0, i + 1));
        i += 1;
    }
    assert(v@.subrange(0, i as int) =~= v@);
    out
}

/// A copy of a list of encodings.
pub fn copy_encodings(v: &Vec<CompressedRistretto>) -> (r: Vec<CompressedRistretto>)
    ensures
        r@ == v@,
{
    let mut out: Vec<CompressedRistretto> = Vec::new();
    let mut i: usize = 0;
    while i < v.len()
        invariant
            i <= v.len(),
            out@ == v@.subrange(0, i as int),
        decreases v.len() - i,
    {
        out.push(v[i]);
        assert(out@ =~= v@.subrange(0, i + 1));
        i += 1;
    }
    assert(v@.subrange(0, i as int) =~= v@);
    out
}

} // verus!
