//! Elements of the scalar field, held as 32 little-endian bytes.

use crate::field::{inv_mod, is_inverse, lemma_inv_mod_is, order};
use vstd::prelude::*;

verus! {

/// The number that a little-endian byte string stands for.
pub open spec fn le_value(bytes: Seq<u8>) -> nat
    decreases bytes.len(),
{
    if bytes.len() == 0 {
        0
    } else {
        (bytes[0] as nat) + 256 * le_value(bytes.drop_first())
    }
}

/// Two byte strings of one length that stand for the same number are equal.
pub proof fn lemma_le_value_injective(a: Seq<u8>, b: Seq<u8>)
    requires
        a.len() == b.len(),
        le_value(a) == le_value(b),
    ensures
        a == b,
    decreases a.len(),
{
    if a.len() > 0 {
        let ra = le_value(a.drop_first());
        let rb = le_value(b.drop_first());
        assert(a[0] as nat + 256 * ra == b[0] as nat + 256 * rb);
        assert(a[0] == b[0]);
        lemma_le_value_injective(a.drop_first(), b.drop_first());
        assert(a =~= seq![a[0]] + a.drop_first());
        assert(b =~= seq![b[0]] + b.drop_first());
    } else {
        assert(a =~= b);
    }
}

/// Whether two 32-byte strings are equal.
pub fn bytes_equal(a: &[u8; 32], b: &[u8; 32]) -> (r: bool)
    ensures
        r == (a@ == b@),
{
    let mut i: usize = 0;
    while i < 32
        invariant
            i <= 32,
            forall|j: int| 0 <= j < i ==> a[j] == b[j],
        decreases 32 - i,
    {
        if a[i] != b[i] {
            return false;
        }
        i += 1;
    }
    assert(a@ =~= b@);
    true
}

/// A scalar: an integer modulo the group order.
#[derive(Clone, Copy, Debug, PartialEq, Eq)]
pub struct Scalar {
    pub bytes: [u8; 32],
}

impl View for Scalar {
    type V = int;

    /// The integer that the bytes encode.
    open spec fn view(&self) -> int {
        le_value(self.bytes@) as int
    }
}

/// The values of a sequence of scalars.
pub open spec fn scalar_values(s: Seq<Scalar>) -> Seq<int> {
    Seq::new(s.len(), |i: int| s[i]@)
}

/// Every scalar of the sequence is in canonical form.
pub open spec fn all_canonical(s: Seq<Scalar>) -> bool {
    forall|i: int| 0 <= i < s.len() ==> (#[trigger] s[i]).wf()
}

/// `curve25519_dalek::scalar::Scalar::from(u64)`: the scalar with the value of
/// the integer, in canonical form.
#[verifier::external_body]
fn dalek_from_u64(x: u64) -> (r: Scalar)
    ensures
        r.wf(),
        r@ == x,
{
    Scalar { bytes: curve25519_dalek::scalar::Scalar::from(x).to_bytes() }
}

/// `Scalar::from_bytes_mod_order`: the 256-bit little-endian integer, reduced
/// modulo the group order.
#[verifier::external_body]
fn dalek_from_bytes_mod_order(bytes: &[u8; 32]) -> (r: Scalar)
    ensures
        r.wf(),
        r@ == le_value(bytes@) as int % order(),
{
    Scalar { bytes: curve25519_dalek::scalar::Scalar::from_bytes_mod_order(*bytes).to_bytes() }
}

/// `Scalar::from_bytes_mod_order_wide`: the 512-bit little-endian integer,
/// reduced modulo the group order.
#[verifier::external_body]
fn dalek_from_bytes_mod_order_wide(bytes: &[u8; 64]) -> (r: Scalar)
    ensures
        r.wf(),
        r@ == le_value(bytes@) as int % order(),
{
    Scalar { bytes: curve25519_dalek::scalar::Scalar::from_bytes_mod_order_wide(bytes).to_bytes() }
}

/// Addition of `curve25519_dalek` scalars (`Add`), on the reduced operands:
/// the sum modulo the group order.
#[verifier::external_body]
fn dalek_add(a: &Scalar, b: &Scalar) -> (r: Scalar)
    ensures
        r.wf(),
        r@ == (a@ + b@) % order(),
{
    let x = curve25519_dalek::scalar::Scalar::from_bytes_mod_order(a.bytes);
    let y = curve25519_dalek::scalar::Scalar::from_bytes_mod_order(b.bytes);
    Scalar { bytes: (x + y).to_bytes() }
}

/// Subtraction of `curve25519_dalek` scalars (`Sub`), on the reduced operands:
/// the difference modulo the group order.
#[verifier::external_body]
fn dalek_sub(a: &Scalar, b: &Scalar) -> (r: Scalar)
    ensures
        r.wf(),
        r@ == (a@ - b@) % order(),
{
    let x = curve25519_dalek::scalar::Scalar::from_bytes_mod_order(a.bytes);
    let y = curve25519_dalek::scalar::Scalar::from_bytes_mod_order(b.bytes);
    Scalar { bytes: (x - y).to_bytes() }
}

/// Multiplication of `curve25519_dalek` scalars (`Mul`), on the reduced
/// operands: the product modulo the group order.
#[verifier::external_body]
fn dalek_mul(a: &Scalar, b: &Scalar) -> (r: Scalar)
    ensures
        r.wf(),
        r@ == (a@ * b@) % order(),
{
    let x = curve25519_dalek::scalar::Scalar::from_bytes_mod_order(a.bytes);
    let y = curve25519_dalek::scalar::Scalar::from_bytes_mod_order(b.bytes);
    Scalar { bytes: (x * y).to_bytes() }
}

/// `Scalar::invert`, on the reduced operand: for a nonzero element its
/// multiplicative inverse, and zero for zero (the inversion is a fixed power).
#[verifier::external_body]
fn dalek_invert(a: &Scalar) -> (r: Scalar)
    ensures
        r.wf(),
        a@ % order() != 0 ==> is_inverse(a@, r@),
        a@ % order() == 0 ==> r@ == 0,
{
    let x = curve25519_dalek::scalar::Scalar::from_bytes_mod_order(a.bytes);
    Scalar { bytes: x.invert().to_bytes() }
}

impl Scalar {
    /// The value is the canonical representative, below the group order.
    pub open spec fn wf(&self) -> bool {
        self@ < order()
    }

    /// The scalar with the value of `x`.
    pub fn from_u64(x: u64) -> (r: Scalar)
        ensures
            r.wf(),
            r@ == x,
    {
        dalek_from_u64(x)
    }

    /// The additive identity.
    pub fn zero() -> (r: Scalar)
        ensures
            r.wf(),
            r@ == 0,
    {
        dalek_from_u64(0)
    }

    /// The multiplicative identity.
    pub fn one() -> (r: Scalar)
        ensures
            r.wf(),
            r@ == 1,
    {
        dalek_from_u64(1)
    }

    /// The canonical scalar for a 256-bit little-endian integer.
    pub fn from_bytes_mod_order(bytes: &[u8; 32]) -> (r: Scalar)
        ensures
            r.wf(),
            r@ == le_value(bytes@) as int % order(),
    {
        dalek_from_bytes_mod_order(bytes)
    }

    /// The canonical scalar for a 512-bit little-endian integer.
    pub fn from_bytes_mod_order_wide(bytes: &[u8; 64]) -> (r: Scalar)
        ensures
            r.wf(),
            r@ == le_value(bytes@) as int % order(),
    {
        dalek_from_bytes_mod_order_wide(bytes)
    }

    /// The encoding of zero: 32 zero bytes.
    pub open spec fn zero_bytes() -> Seq<u8> {
        Seq::new(32, |i: int| 0u8)
    }

    /// Whether the scalar is the canonical zero.
    pub fn is_zero(&self) -> (r: bool)
        ensures
            r == (self.bytes@ == Scalar::zero_bytes()),
    {
        let zeros = [0u8; 32];
        assert(zeros@ =~= Scalar::zero_bytes());
        bytes_equal(&self.bytes, &zeros)
    }

    /// The bytes of the encoding.
    pub fn as_bytes(&self) -> (r: &[u8; 32])
        ensures
            r@ == self.bytes@,
    {
        &self.bytes
    }

    pub fn add(&self, other: &Scalar) -> (r: Scalar)
        ensures
            r.wf(),
            r@ == (self@ + other@) % order(),
    {
        dalek_add(self, other)
    }

    pub fn sub(&self, other: &Scalar) -> (r: Scalar)
        ensures
            r.wf(),
            r@ == (self@ - other@) % order(),
    {
        dalek_sub(self, other)
    }

    pub fn mul(&self, other: &Scalar) -> (r: Scalar)
        ensures
            r.wf(),
            r@ == (self@ * other@) % order(),
    {
        dalek_mul(self, other)
    }

    /// The multiplicative inverse; zero for zero.
    pub fn invert(&self) -> (r: Scalar)
        ensures
            r.wf(),
            r@ == inv_mod(self@),
            self@ % order() != 0 ==> is_inverse(self@, r@),
    {
        let r = dalek_invert(self);
        proof {
            if self@ % order() != 0 {
                lemma_inv_mod_is(self@, r@);
            }
        }
        r
    }

    /// Whether two scalars have the same encoding. For canonical scalars this
    /// is equality of their values.
    pub fn equals(&self, other: &Scalar) -> (r: bool)
        ensures
            r == (self.bytes@ == other.bytes@),
            self.wf() && other.wf() ==> r == (self@ == other@),
    {
        let same = bytes_equal(&self.bytes, &other.bytes);
        proof {
            if self@ == other@ {
                lemma_le_value_injective(self.bytes@, other.bytes@);
            }
        }
        same
    }
}

/// Two canonical scalars with one value have one encoding.
pub proof fn lemma_same_value_same_scalar(a: Scalar, b: Scalar)
    requires
        a@ == b@,
    ensures
        a == b,
{
    lemma_le_value_injective(a.bytes@, b.bytes@);
    assert(a.bytes =~= b.bytes);
}

/// The canonical scalar with the value `w`, for `w` below the group order.
pub open spec fn canonical_scalar(w: int) -> Scalar {
    choose|s: Scalar| s.wf() && s@ == w
}

/// The canonical scalar that stands for the integer `v`.
pub open spec fn scalar_of(v: int) -> Scalar {
    canonical_scalar(v % order())
}

/// A canonical scalar is the canonical scalar of everything that it stands
/// for.
pub proof fn lemma_scalar_of(s: Scalar, v: int)
    requires
        s.wf(),
        s@ == v % order(),
    ensures
        scalar_of(v) == s,
{
    let w = v % order();
    let c = canonical_scalar(w);
    assert(s.wf() && s@ == w);
    assert(c.wf() && c@ == w);
    lemma_same_value_same_scalar(c, s);
}

} // verus!
