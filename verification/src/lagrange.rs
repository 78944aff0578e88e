//! Lagrange interpolation at zero: the coefficients that
//! `compute_lagrange_bases` returns recover the constant term of every
//! polynomial of fitting degree from its values at the nodes.

use crate::field::{
    congruent, dot, dot_upto, inv_mod, invertible, lemma_cancel, lemma_congruent_add,
    lemma_congruent_mul, lemma_congruent_sub, lemma_inv_mod_inverts, lemma_pow_succ,
};
use crate::polynomial::{eval_upto, poly_eval};
use crate::utils::{lagrange_factor, lagrange_product};
use vstd::arithmetic::power::{lemma_pow0, pow};
use vstd::prelude::*;

verus! {

/// The nodes are pairwise different, and their differences have inverses.
pub open spec fn separated(xs: Seq<int>) -> bool {
    forall|a: int, b: int|
        0 <= a < xs.len() && 0 <= b < xs.len() && a != b ==> xs[a] != xs[b] && invertible(
            #[trigger] xs[b] - #[trigger] xs[a],
        )
}

/// The Lagrange coefficient at zero of the node at position `a`, as an
/// integer product that is not reduced.
pub open spec fn basis(xs: Seq<int>, a: int) -> int {
    lagrange_product(xs[a], xs, xs.len())
}

/// The sum of the first `k` Lagrange coefficients.
pub open spec fn basis_sum(xs: Seq<int>, k: nat) -> int
    decreases k,
{
    if k == 0 {
        0
    } else {
        basis_sum(xs, (k - 1) as nat) + basis(xs, k - 1)
    }
}

/// The sum over the first `k` nodes of the coefficient times the `m`-th
/// power of the node.
pub open spec fn power_sum(xs: Seq<int>, m: nat, k: nat) -> int
    decreases k,
{
    if k == 0 {
        0
    } else {
        power_sum(xs, m, (k - 1) as nat) + basis(xs, k - 1) * pow(xs[k - 1], m)
    }
}

/// The sum over the first `k` nodes of the coefficient times the value at
/// the node of the first `len` terms of the polynomial `c`.
pub open spec fn interpolated(xs: Seq<int>, c: Seq<int>, len: nat, k: nat) -> int
    decreases k,
{
    if k == 0 {
        0
    } else {
        interpolated(xs, c, len, (k - 1) as nat) + basis(xs, k - 1) * eval_upto(
            c,
            xs[k - 1],
            len,
        )
    }
}

proof fn lemma_product_prefix(i: int, xs: Seq<int>, ys: Seq<int>, k: nat)
    requires
        k <= xs.len(),
        k <= ys.len(),
        forall|q: int| 0 <= q < k ==> xs[q] == ys[q],
    ensures
        lagrange_product(i, xs, k) == lagrange_product(i, ys, k),
    decreases k,
{
    if k > 0 {
        lemma_product_prefix(i, xs, ys, (k - 1) as nat);
    }
}

proof fn lemma_product_first(i: int, xs: Seq<int>, k: nat)
    requires
        1 <= k <= xs.len(),
    ensures
        lagrange_product(i, xs, k) == lagrange_factor(i, xs[0]) * lagrange_product(
            i,
            xs.drop_first(),
            (k - 1) as nat,
        ),
    decreases k,
{
    let rest = xs.drop_first();
    let f0 = lagrange_factor(i, xs[0]);
    if k == 1 {
        assert(lagrange_product(i, xs, 0) == 1);
        assert(lagrange_product(i, rest, 0) == 1);
        assert(lagrange_product(i, xs, 1) == 1 * f0);
    } else {
        lemma_product_first(i, xs, (k - 1) as nat);
        let inner = lagrange_product(i, rest, (k - 2) as nat);
        let fk = lagrange_factor(i, xs[k - 1]);
        assert(rest[k - 2] == xs[k - 1]);
        assert(lagrange_product(i, rest, (k - 1) as nat) == inner * fk);
        assert(lagrange_product(i, xs, k) == (f0 * inner) * fk);
        assert((f0 * inner) * fk == f0 * (inner * fk)) by (nonlinear_arith);
    }
}

/// The factor of a node times the difference that it divides by is the node.
proof fn lemma_factor_times_difference(i: int, j: int)
    requires
        i != j,
        invertible(j - i),
    ensures
        congruent(lagrange_factor(i, j) * (j - i), j),
{
    lemma_inv_mod_inverts(j - i);
    let r = inv_mod(j - i);
    assert((j * r) * (j - i) == j * ((j - i) * r)) by (nonlinear_arith);
    lemma_congruent_mul(j, j, (j - i) * r, 1);
    assert(j * 1 == j);
}

/// Taking the last node away: the coefficient of an earlier node, times its
/// distance to the last node, is the last node times the coefficient that it
/// has without the last node.
proof fn lemma_drop_last(xs: Seq<int>, a: int)
    requires
        xs.len() >= 2,
        0 <= a < xs.len() - 1,
        separated(xs),
    ensures
        congruent(basis(xs, a) * (xs.last() - xs[a]), xs.last() * basis(xs.drop_last(), a)),
{
    let t = (xs.len() - 1) as nat;
    let init = xs.drop_last();
    lemma_product_prefix(xs[a], xs, init, t);
    let b = basis(init, a);
    let f = lagrange_factor(xs[a], xs[t as int]);
    assert(init[a] == xs[a]);
    assert(basis(xs, a) == b * f);
    assert(invertible(xs[t as int] - xs[a]));
    lemma_factor_times_difference(xs[a], xs[t as int]);
    let d = xs[t as int] - xs[a];
    assert((b * f) * d == b * (f * d)) by (nonlinear_arith);
    lemma_congruent_mul(b, b, f * d, xs[t as int]);
    assert(b * xs[t as int] == xs[t as int] * b) by (nonlinear_arith);
}

/// Taking the first node away: the coefficient of a later node, times its
/// distance to the first node, is the first node times the coefficient that
/// it has without the first node.
proof fn lemma_drop_first(xs: Seq<int>, a: int)
    requires
        xs.len() >= 2,
        1 <= a < xs.len(),
        separated(xs),
    ensures
        congruent(basis(xs, a) * (xs[0] - xs[a]), xs[0] * basis(xs.drop_first(), a - 1)),
{
    let rest = xs.drop_first();
    lemma_product_first(xs[a], xs, xs.len());
    let b = basis(rest, a - 1);
    let f = lagrange_factor(xs[a], xs[0]);
    assert(rest[a - 1] == xs[a]);
    assert(basis(xs, a) == f * b);
    assert(invertible(xs[0] - xs[a]));
    lemma_factor_times_difference(xs[a], xs[0]);
    let d = xs[0] - xs[a];
    assert((f * b) * d == b * (f * d)) by (nonlinear_arith);
    lemma_congruent_mul(b, b, f * d, xs[0]);
    assert(b * xs[0] == xs[0] * b) by (nonlinear_arith);
}

proof fn lemma_separated_parts(xs: Seq<int>)
    requires
        xs.len() >= 1,
        separated(xs),
    ensures
        separated(xs.drop_last()),
        separated(xs.drop_first()),
{
    let init = xs.drop_last();
    let rest = xs.drop_first();
    assert forall|a: int, b: int|
        0 <= a < init.len() && 0 <= b < init.len() && a != b implies init[a] != init[b]
        && invertible(#[trigger] init[b] - #[trigger] init[a]) by {
        assert(init[a] == xs[a] && init[b] == xs[b]);
        assert(invertible(xs[b] - xs[a]));
    }
    assert forall|a: int, b: int|
        0 <= a < rest.len() && 0 <= b < rest.len() && a != b implies rest[a] != rest[b]
        && invertible(#[trigger] rest[b] - #[trigger] rest[a]) by {
        assert(rest[a] == xs[a + 1] && rest[b] == xs[b + 1]);
        assert(invertible(xs[b + 1] - xs[a + 1]));
    }
}

/// The number of the first `k` positions that lie before the last one.
spec fn before_last(k: nat, n: nat) -> nat {
    if k < n {
        k
    } else {
        (n - 1) as nat
    }
}

/// The number of the first `k` positions that lie after the first one.
spec fn after_first(k: nat) -> nat {
    if k == 0 {
        0
    } else {
        (k - 1) as nat
    }
}

/// The recurrence that removes the last node or the first, summed over the
/// first `k` coefficients.
proof fn lemma_sum_recurrence(xs: Seq<int>, k: nat)
    requires
        xs.len() >= 2,
        k <= xs.len(),
        separated(xs),
    ensures
        congruent(
            (xs.last() - xs[0]) * basis_sum(xs, k),
            xs.last() * basis_sum(xs.drop_last(), before_last(k, xs.len())) - xs[0] * basis_sum(
                xs.drop_first(),
                after_first(k),
            ),
        ),
    decreases k,
{
    let n = xs.len();
    let t = (n - 1) as int;
    let init = xs.drop_last();
    let rest = xs.drop_first();
    let xt = xs.last();
    let x0 = xs[0];
    if k > 0 {
        let a = (k - 1) as int;
        let j = (k - 1) as nat;
        lemma_sum_recurrence(xs, j);
        let la = basis(xs, a);
        let s = basis_sum(xs, j);
        let p = basis_sum(init, before_last(j, n));
        let q = basis_sum(rest, after_first(j));
        // What the coefficient at position `a` adds on either side.
        let up = if a < t {
            xt * basis(init, a)
        } else {
            0
        };
        let down = if a >= 1 {
            x0 * basis(rest, a - 1)
        } else {
            0
        };
        assert(congruent(la * (xt - xs[a]), up)) by {
            if a < t {
                lemma_drop_last(xs, a);
            } else {
                assert(la * (xt - xs[a]) == 0) by (nonlinear_arith)
                    requires
                        xt - xs[a] == 0,
                ;
            }
        }
        assert(congruent(la * (x0 - xs[a]), down)) by {
            if a >= 1 {
                lemma_drop_first(xs, a);
            } else {
                assert(la * (x0 - xs[a]) == 0) by (nonlinear_arith)
                    requires
                        x0 - xs[a] == 0,
                ;
            }
        }
        lemma_congruent_sub(la * (xt - xs[a]), up, la * (x0 - xs[a]), down);
        assert(la * (xt - xs[a]) - la * (x0 - xs[a]) == (xt - x0) * la) by (nonlinear_arith);
        lemma_congruent_add((xt - x0) * s, xt * p - x0 * q, (xt - x0) * la, up - down);
        assert((xt - x0) * s + (xt - x0) * la == (xt - x0) * (s + la)) by (nonlinear_arith);
        // The sums on the right grow by the same terms.
        let p_next = basis_sum(init, before_last(k, n));
        let q_next = basis_sum(rest, after_first(k));
        assert(xt * p_next == xt * p + up) by {
            if a < t {
                assert(p_next == p + basis(init, a));
                assert(xt * (p + basis(init, a)) == xt * p + xt * basis(init, a))
                    by (nonlinear_arith);
            }
        }
        assert(x0 * q_next == x0 * q + down) by {
            if a >= 1 {
                assert(q_next == q + basis(rest, a - 1));
                assert(x0 * (q + basis(rest, a - 1)) == x0 * q + x0 * basis(rest, a - 1))
                    by (nonlinear_arith);
            }
        }
    } else {
        assert((xt - x0) * 0 == 0);
        assert(xt * 0 - x0 * 0 == 0);
    }
}

/// The Lagrange coefficients at zero add up to one.
pub proof fn lemma_basis_sum_one(xs: Seq<int>)
    requires
        xs.len() >= 1,
        separated(xs),
    ensures
        congruent(basis_sum(xs, xs.len()), 1),
    decreases xs.len(),
{
    let n = xs.len();
    if n == 1 {
        assert(lagrange_product(xs[0], xs, 0) == 1);
        assert(basis(xs, 0) == 1 * lagrange_factor(xs[0], xs[0]));
        assert(basis_sum(xs, 0) == 0);
        assert(basis_sum(xs, 1) == 0 + basis(xs, 0));
    } else {
        let init = xs.drop_last();
        let rest = xs.drop_first();
        let xt = xs.last();
        let x0 = xs[0];
        lemma_separated_parts(xs);
        lemma_basis_sum_one(init);
        lemma_basis_sum_one(rest);
        lemma_sum_recurrence(xs, n);
        let p = basis_sum(init, init.len());
        let q = basis_sum(rest, rest.len());
        lemma_congruent_mul(xt, xt, p, 1);
        lemma_congruent_mul(x0, x0, q, 1);
        lemma_congruent_sub(xt * p, xt * 1, x0 * q, x0 * 1);
        assert(xt * 1 - x0 * 1 == (xt - x0) * 1) by (nonlinear_arith);
        assert(invertible(xs[n - 1] - xs[0]));
        lemma_cancel(xt - x0, basis_sum(xs, n), 1);
    }
}

/// With no power the sum is the sum of the coefficients.
proof fn lemma_power_sum_zero(xs: Seq<int>, k: nat)
    ensures
        power_sum(xs, 0, k) == basis_sum(xs, k),
    decreases k,
{
    if k > 0 {
        lemma_power_sum_zero(xs, (k - 1) as nat);
        lemma_pow0(xs[k - 1]);
        assert(basis(xs, k - 1) * 1 == basis(xs, k - 1));
    }
}

/// One power more: the sum with `m` powers is the last node times the
/// difference of the sums with `m - 1` powers, with and without that node.
proof fn lemma_power_shift(xs: Seq<int>, m: nat, k: nat)
    requires
        xs.len() >= 2,
        k <= xs.len(),
        m >= 1,
        separated(xs),
    ensures
        congruent(
            power_sum(xs, m, k),
            xs.last() * (power_sum(xs, (m - 1) as nat, k) - power_sum(
                xs.drop_last(),
                (m - 1) as nat,
                before_last(k, xs.len()),
            )),
        ),
    decreases k,
{
    let n = xs.len();
    let t = (n - 1) as int;
    let init = xs.drop_last();
    let xt = xs.last();
    let m1 = (m - 1) as nat;
    if k > 0 {
        let a = (k - 1) as int;
        let j = (k - 1) as nat;
        lemma_power_shift(xs, m, j);
        let la = basis(xs, a);
        let xa = xs[a];
        let h = pow(xa, m1);
        lemma_pow_succ(xa, m1);
        let lower = if a < t {
            basis(init, a)
        } else {
            0
        };
        // la * xa == xt * la - la * (xt - xa), and the last product is xt * lower.
        assert(congruent(la * (xt - xa), xt * lower)) by {
            if a < t {
                lemma_drop_last(xs, a);
            } else {
                assert(la * (xt - xa) == 0) by (nonlinear_arith)
                    requires
                        xt - xa == 0,
                ;
                assert(xt * 0 == 0);
            }
        }
        lemma_congruent_sub(xt * la, xt * la, la * (xt - xa), xt * lower);
        assert(xt * la - la * (xt - xa) == la * xa) by (nonlinear_arith);
        lemma_congruent_mul(la * xa, xt * la - xt * lower, h, h);
        assert((la * xa) * h == la * (xa * h)) by (nonlinear_arith);
        assert((xt * la - xt * lower) * h == xt * (la * h - lower * h)) by (nonlinear_arith);
        let s = power_sum(xs, m, j);
        let u = power_sum(xs, m1, j);
        let v = power_sum(init, m1, before_last(j, n));
        lemma_congruent_add(s, xt * (u - v), la * (xa * h), xt * (la * h - lower * h));
        assert(xt * (u - v) + xt * (la * h - lower * h) == xt * ((u + la * h) - (v + lower * h)))
            by (nonlinear_arith);
        let v2 = power_sum(init, m1, before_last(k, n));
        assert(v2 == v + lower * h) by {
            if a < t {
                assert(init[a] == xa);
            } else {
                assert(0 * h == 0);
            }
        }
    } else {
        assert(xt * (0 - 0) == 0);
    }
}

/// The weighted power sums: the coefficients give one to the constant and
/// nothing to any power below the number of nodes.
pub proof fn lemma_power_sum(xs: Seq<int>, m: nat)
    requires
        m < xs.len(),
        separated(xs),
    ensures
        congruent(
            power_sum(xs, m, xs.len()),
            if m == 0 {
                1
            } else {
                0
            },
        ),
    decreases xs.len(), m,
{
    let n = xs.len();
    if m == 0 {
        lemma_power_sum_zero(xs, n);
        lemma_basis_sum_one(xs);
    } else {
        let init = xs.drop_last();
        let m1 = (m - 1) as nat;
        lemma_separated_parts(xs);
        lemma_power_sum(xs, m1);
        lemma_power_sum(init, m1);
        lemma_power_shift(xs, m, n);
        let u = power_sum(xs, m1, n);
        let v = power_sum(init, m1, init.len());
        let e: int = if m1 == 0 {
            1
        } else {
            0
        };
        lemma_congruent_sub(u, e, v, e);
        lemma_congruent_mul(xs.last(), xs.last(), u - v, 0);
        assert(xs.last() * 0 == 0);
    }
}

/// One term more of the polynomial adds its coefficient times a power sum.
proof fn lemma_interpolated_step(xs: Seq<int>, c: Seq<int>, len: nat, k: nat)
    requires
        len >= 1,
    ensures
        interpolated(xs, c, len, k) == interpolated(xs, c, (len - 1) as nat, k) + c[len - 1]
            * power_sum(xs, (len - 1) as nat, k),
    decreases k,
{
    if k > 0 {
        let j = (k - 1) as nat;
        let l1 = (len - 1) as nat;
        lemma_interpolated_step(xs, c, len, j);
        let b = basis(xs, k - 1);
        let e = eval_upto(c, xs[k - 1], l1);
        let cc = c[len - 1];
        let p = pow(xs[k - 1], l1);
        let ps = power_sum(xs, l1, j);
        assert(b * (e + cc * p) == b * e + cc * (b * p)) by (nonlinear_arith);
        assert(cc * (ps + b * p) == cc * ps + cc * (b * p)) by (nonlinear_arith);
    } else {
        assert(c[len - 1] * 0 == 0);
    }
}

proof fn lemma_interpolated_nothing(xs: Seq<int>, c: Seq<int>, k: nat)
    ensures
        interpolated(xs, c, 0, k) == 0,
    decreases k,
{
    if k > 0 {
        lemma_interpolated_nothing(xs, c, (k - 1) as nat);
        assert(basis(xs, k - 1) * 0 == 0);
    }
}

/// The values of the polynomial `f` at the nodes.
pub open spec fn values_at(f: Seq<int>, xs: Seq<int>) -> Seq<int> {
    Seq::new(xs.len(), |a: int| poly_eval(f, xs[a]))
}

/// The first `len` terms of a polynomial, interpolated from all the nodes,
/// give its constant term.
proof fn lemma_interpolated_terms(xs: Seq<int>, c: Seq<int>, len: nat)
    requires
        len <= c.len(),
        len <= xs.len(),
        separated(xs),
    ensures
        congruent(
            interpolated(xs, c, len, xs.len()),
            if len == 0 {
                0
            } else {
                c[0]
            },
        ),
    decreases len,
{
    if len == 0 {
        lemma_interpolated_nothing(xs, c, xs.len());
    } else {
        let l1 = (len - 1) as nat;
        lemma_interpolated_terms(xs, c, l1);
        lemma_interpolated_step(xs, c, len, xs.len());
        lemma_power_sum(xs, l1);
        let e: int = if l1 == 0 {
            1
        } else {
            0
        };
        lemma_congruent_mul(c[len - 1], c[len - 1], power_sum(xs, l1, xs.len()), e);
        let prev: int = if l1 == 0 {
            0
        } else {
            c[0]
        };
        lemma_congruent_add(
            interpolated(xs, c, l1, xs.len()),
            prev,
            c[len - 1] * power_sum(xs, l1, xs.len()),
            c[len - 1] * e,
        );
        assert(c[len - 1] * e == if l1 == 0 {
            c[0]
        } else {
            0
        }) by (nonlinear_arith)
            requires
                e == (if l1 == 0 {
                    1int
                } else {
                    0int
                }),
                l1 == 0 ==> c[len - 1] == c[0],
        ;
    }
}

/// The value of a polynomial at zero is its constant term.
pub proof fn lemma_eval_at_zero(c: Seq<int>, len: nat)
    requires
        len <= c.len(),
    ensures
        eval_upto(c, 0, len) == if len == 0 {
            0
        } else {
            c[0]
        },
    decreases len,
{
    if len > 0 {
        let l1 = (len - 1) as nat;
        lemma_eval_at_zero(c, l1);
        if l1 == 0 {
            lemma_pow0(0);
            assert(c[0] * 1 == c[0]);
        } else {
            lemma_pow_succ(0, (l1 - 1) as nat);
            assert(0 * pow(0, (l1 - 1) as nat) == 0);
            assert(c[len - 1] * 0 == 0);
        }
    }
}

/// Lagrange interpolation at zero. For nodes that are pairwise different
/// with invertible differences, and a polynomial with no more coefficients
/// than there are nodes, the sum over the nodes of the Lagrange coefficient
/// times the value of the polynomial at the node is the value at zero.
pub proof fn lemma_interpolation_at_zero(xs: Seq<int>, c: Seq<int>)
    requires
        c.len() <= xs.len(),
        separated(xs),
    ensures
        congruent(interpolated(xs, c, c.len(), xs.len()), poly_eval(c, 0)),
{
    lemma_interpolated_terms(xs, c, c.len());
    lemma_eval_at_zero(c, c.len());
}

/// The interpolated sum is the dot product of the coefficients and the
/// values.
proof fn lemma_interpolated_is_dot(xs: Seq<int>, c: Seq<int>, lambdas: Seq<int>, vals: Seq<int>, k: nat)
    requires
        k <= xs.len(),
        k <= lambdas.len(),
        k <= vals.len(),
        forall|a: int| 0 <= a < k ==> congruent(#[trigger] lambdas[a], basis(xs, a)),
        forall|a: int| 0 <= a < k ==> congruent(#[trigger] vals[a], poly_eval(c, xs[a])),
    ensures
        congruent(dot_upto(lambdas, vals, k), interpolated(xs, c, c.len(), k)),
    decreases k,
{
    if k > 0 {
        let j = (k - 1) as nat;
        lemma_interpolated_is_dot(xs, c, lambdas, vals, j);
        lemma_congruent_mul(lambdas[k - 1], basis(xs, k - 1), vals[k - 1], poly_eval(c, xs[k - 1]));
        lemma_congruent_add(
            dot_upto(lambdas, vals, j),
            interpolated(xs, c, c.len(), j),
            lambdas[k - 1] * vals[k - 1],
            basis(xs, k - 1) * poly_eval(c, xs[k - 1]),
        );
    }
}

/// Reconstruction. Where `lambdas` are the Lagrange coefficients of the nodes
/// `xs` and `vals` the values at the nodes of a polynomial with no more
/// coefficients than there are nodes, their dot product is the value of the
/// polynomial at zero: its constant term.
pub proof fn lemma_reconstruction(xs: Seq<int>, c: Seq<int>, lambdas: Seq<int>, vals: Seq<int>)
    requires
        c.len() <= xs.len(),
        separated(xs),
        lambdas.len() == xs.len(),
        vals.len() == xs.len(),
        forall|a: int| 0 <= a < xs.len() ==> congruent(#[trigger] lambdas[a], basis(xs, a)),
        forall|a: int| 0 <= a < xs.len() ==> congruent(#[trigger] vals[a], poly_eval(c, xs[a])),
    ensures
        congruent(dot(lambdas, vals), poly_eval(c, 0)),
        c.len() >= 1 ==> congruent(dot(lambdas, vals), c[0]),
{
    lemma_interpolated_is_dot(xs, c, lambdas, vals, xs.len());
    lemma_interpolation_at_zero(xs, c);
    lemma_eval_at_zero(c, c.len());
}

/// Reconstruction from a qualified set. Where the shares of the set are the
/// values of a polynomial `f` at the indices of their parties, the indices
/// are separated, there are at least as many as `f` has coefficients, and
/// `lambdas` are their Lagrange coefficients, the weighted sum of the shares
/// is the constant term of `f`: the secret.
pub proof fn lemma_shares_reconstruct(
    indices: Seq<usize>,
    lambdas: Seq<int>,
    shares: Seq<int>,
    f: Seq<int>,
)
    requires
        1 <= f.len() <= indices.len(),
        separated(crate::utils::node_values(indices)),
        lambdas.len() == indices.len(),
        shares.len() == indices.len(),
        forall|a: int|
            0 <= a < indices.len() ==> congruent(
                #[trigger] lambdas[a],
                basis(crate::utils::node_values(indices), a),
            ),
        forall|a: int|
            0 <= a < indices.len() ==> congruent(
                #[trigger] shares[a],
                poly_eval(f, indices[a] as int),
            ),
    ensures
        congruent(dot(lambdas, shares), f[0]),
{
    let xs = crate::utils::node_values(indices);
    assert forall|a: int| 0 <= a < xs.len() implies congruent(
        #[trigger] shares[a],
        poly_eval(f, xs[a]),
    ) by {
        assert(xs[a] == indices[a] as int);
    }
    lemma_reconstruction(xs, f, lambdas, shares);
}

} // verus!
