//! Arithmetic modulo the group order: the functions that contracts are stated
//! with, and lemmas about them.
//!
//! Contracts in this crate state a scalar result as an integer expression
//! reduced once by `order()`. The lemmas here move reductions in and out of
//! sums, differences and products.

use vstd::arithmetic::div_mod::*;
use vstd::arithmetic::mul::*;
use vstd::arithmetic::power::*;
use vstd::prelude::*;

verus! {

/// The order of the Ristretto group: the prime 2^252 + 27742317777372353535851937790883648493.
pub open spec fn order() -> int {
    7237005577332262213973186563042994240857116359379907606001950938285454250989int
}

/// `a` and `b` stand for the same field element.
pub open spec fn congruent(a: int, b: int) -> bool {
    a % order() == b % order()
}

/// `r` is a multiplicative inverse of `a` modulo the group order.
pub open spec fn is_inverse(a: int, r: int) -> bool {
    (a * r) % order() == 1
}

/// The inverse of `a` modulo the group order, as a canonical representative;
/// zero where `a` is a multiple of the order.
pub open spec fn inv_mod(a: int) -> int {
    if a % order() == 0 {
        0
    } else {
        choose|r: int| 0 <= r < order() && is_inverse(a, r)
    }
}

/// The sum of `a[i] * b[i]` over the first `k` positions.
pub open spec fn dot_upto(a: Seq<int>, b: Seq<int>, k: nat) -> int
    decreases k,
{
    if k == 0 {
        0
    } else {
        dot_upto(a, b, (k - 1) as nat) + a[k - 1] * b[k - 1]
    }
}

/// The sum of `a[i] * b[i]` over the positions that both sequences have.
pub open spec fn dot(a: Seq<int>, b: Seq<int>) -> int {
    dot_upto(a, b, if a.len() <= b.len() { a.len() } else { b.len() })
}

pub proof fn lemma_reduced(a: int)
    ensures
        0 <= a % order() < order(),
        congruent(a % order(), a),
{
    lemma_mod_twice(a, order());
    lemma_mod_bound(a, order());
}

pub proof fn lemma_small_is_reduced(a: int)
    requires
        0 <= a < order(),
    ensures
        a % order() == a,
{
    lemma_small_mod(a as nat, order() as nat);
}

pub proof fn lemma_congruent_add(a: int, b: int, c: int, d: int)
    requires
        congruent(a, b),
        congruent(c, d),
    ensures
        congruent(a + c, b + d),
{
    lemma_add_mod_noop(a, c, order());
    lemma_add_mod_noop(b, d, order());
}

pub proof fn lemma_congruent_sub(a: int, b: int, c: int, d: int)
    requires
        congruent(a, b),
        congruent(c, d),
    ensures
        congruent(a - c, b - d),
{
    lemma_sub_mod_noop(a, c, order());
    lemma_sub_mod_noop(b, d, order());
}

pub proof fn lemma_congruent_mul(a: int, b: int, c: int, d: int)
    requires
        congruent(a, b),
        congruent(c, d),
    ensures
        congruent(a * c, b * d),
{
    lemma_mul_mod_noop(a, c, order());
    lemma_mul_mod_noop(b, d, order());
}

/// A field element has at most one inverse.
pub proof fn lemma_inverse_unique(a: int, r: int, s: int)
    requires
        is_inverse(a, r),
        is_inverse(a, s),
    ensures
        congruent(r, s),
{
    // r == r * (a * s) == (r * a) * s == s, all modulo the order.
    lemma_congruent_mul(r, r, a * s, 1);
    lemma_congruent_mul(a * r, 1, s, s);
    assert(r * (a * s) == (a * r) * s) by (nonlinear_arith);
    assert(r * 1 == r);
    assert(1 * s == s);
}

/// Whatever inverse is at hand, it is `inv_mod` once reduced.
pub proof fn lemma_inv_mod_is(a: int, r: int)
    requires
        0 <= r < order(),
        is_inverse(a, r),
    ensures
        inv_mod(a) == r,
        is_inverse(a, inv_mod(a)),
{
    assert(a % order() != 0) by {
        if a % order() == 0 {
            lemma_mul_mod_noop_left(a, r, order());
            assert((0 * r) % order() == 0);
        }
    }
    let c = choose|c: int| 0 <= c < order() && is_inverse(a, c);
    lemma_inverse_unique(a, r, c);
    lemma_small_is_reduced(r);
    lemma_small_is_reduced(c);
}

/// One step of a running sum of products: adding the reduced product of `c`
/// and `p` to `acc` keeps the sum congruent to `s + c * q`.
pub proof fn lemma_step_add_mul(acc: int, s: int, c: int, p: int, q: int)
    requires
        congruent(acc, s),
        congruent(p, q),
    ensures
        congruent((acc + (c * p) % order()) % order(), s + c * q),
{
    lemma_reduced(c * p);
    lemma_congruent_mul(c, c, p, q);
    lemma_congruent_add(acc, s, (c * p) % order(), c * q);
    lemma_reduced(acc + (c * p) % order());
}

/// A reduced product stands for the product of what its factors stand for.
pub proof fn lemma_step_mul(a: int, b: int, c: int, d: int)
    requires
        congruent(a, b),
        congruent(c, d),
    ensures
        congruent((a * c) % order(), b * d),
{
    lemma_reduced(a * c);
    lemma_congruent_mul(a, b, c, d);
}

/// The next power is the base times the power.
pub proof fn lemma_pow_succ(x: int, j: nat)
    ensures
        pow(x, j + 1) == x * pow(x, j),
{
    reveal(pow);
}

/// A nonzero integer strictly between minus the order and the order is no
/// multiple of the order.
pub proof fn lemma_small_nonzero(d: int)
    requires
        d != 0,
        -order() < d < order(),
    ensures
        d % order() != 0,
{
    if d > 0 {
        lemma_small_is_reduced(d);
    } else {
        lemma_small_is_reduced(d + order());
        lemma_mod_add_multiples_vanish(d, order());
    }
}

/// An inverse of a residue is an inverse of everything congruent to it.
pub proof fn lemma_inverse_congruent(a: int, b: int, r: int)
    requires
        congruent(a, b),
        is_inverse(a, r),
    ensures
        is_inverse(b, r),
{
    lemma_congruent_mul(a, b, r, r);
}

/// `a` has a multiplicative inverse modulo the group order. Every integer
/// that is no multiple of the order has one, the order being prime; the
/// library learns it of a given integer from an inversion that was computed.
pub open spec fn invertible(a: int) -> bool {
    exists|r: int| is_inverse(a, r)
}

/// Where an inverse exists, `inv_mod` is one.
pub proof fn lemma_inv_mod_inverts(a: int)
    requires
        invertible(a),
    ensures
        is_inverse(a, inv_mod(a)),
        0 <= inv_mod(a) < order(),
{
    let r = choose|r: int| is_inverse(a, r);
    lemma_reduced(r);
    lemma_congruent_mul(a, a, r % order(), r);
    lemma_inv_mod_is(a, r % order());
}

/// A factor that has an inverse can be cancelled from a congruence.
pub proof fn lemma_cancel(d: int, u: int, v: int)
    requires
        invertible(d),
        congruent(d * u, d * v),
    ensures
        congruent(u, v),
{
    lemma_inv_mod_inverts(d);
    let r = inv_mod(d);
    lemma_congruent_mul(r, r, d * u, d * v);
    assert(r * (d * u) == (d * r) * u) by (nonlinear_arith);
    assert(r * (d * v) == (d * r) * v) by (nonlinear_arith);
    lemma_congruent_mul(d * r, 1, u, u);
    lemma_congruent_mul(d * r, 1, v, v);
    assert(1 * u == u);
    assert(1 * v == v);
}

} // verus!
