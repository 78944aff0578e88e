//! The fused operation under any weights: what `z = r + sum_k d_k * f_k`
//! means for a sum of coefficients times weights, of which the value of a
//! polynomial at a point and the product with a row of a table are both
//! cases. The lemmas here carry the acceptance of an honest dealer's shares.

use crate::field::{
    congruent, dot, dot_upto, lemma_congruent_add, lemma_congruent_mul, lemma_congruent_sub,
};
use crate::polynomial::{column_dot, eval_upto, is_fused};
use vstd::arithmetic::power::pow;
use vstd::prelude::*;

verus! {

/// The sum over the first `m` polynomials of `ds[k]` times the weighted sum
/// of the first `len` coefficients of `fs[k]`.
pub open spec fn dot_combination(
    fs: Seq<Seq<int>>,
    ds: Seq<int>,
    w: Seq<int>,
    len: nat,
    m: nat,
) -> int
    decreases m,
{
    if m == 0 {
        0
    } else {
        dot_combination(fs, ds, w, len, (m - 1) as nat) + ds[m - 1] * dot_upto(fs[m - 1], w, len)
    }
}

/// One coefficient more adds the column of that coefficient times its weight.
proof fn lemma_combination_step(fs: Seq<Seq<int>>, ds: Seq<int>, w: Seq<int>, len: nat, m: nat)
    requires
        len >= 1,
    ensures
        dot_combination(fs, ds, w, len, m) == dot_combination(fs, ds, w, (len - 1) as nat, m)
            + column_dot(fs, ds, len - 1, m) * w[len - 1],
    decreases m,
{
    if m > 0 {
        let m1 = (m - 1) as nat;
        let l1 = (len - 1) as nat;
        lemma_combination_step(fs, ds, w, len, m1);
        let d = ds[m - 1];
        let a = fs[m - 1][len - 1];
        let wl = w[len - 1];
        let prev = dot_upto(fs[m - 1], w, l1);
        let cd = column_dot(fs, ds, len - 1, m1);
        assert(d * (prev + a * wl) == d * prev + (a * d) * wl) by (nonlinear_arith);
        assert((cd + a * d) * wl == cd * wl + (a * d) * wl) by (nonlinear_arith);
    } else {
        assert(0 * w[len - 1] == 0);
    }
}

/// The fused identity under any weights: where `z` is `r` after the fused
/// operation with the polynomials `fs` and the factors `ds`, the weighted
/// sum of the first `len` coefficients of `z` is that of `r` plus the
/// weighted sums of the `fs`, each times its factor.
pub proof fn lemma_fused_dot(
    z: Seq<int>,
    r: Seq<int>,
    fs: Seq<Seq<int>>,
    ds: Seq<int>,
    w: Seq<int>,
    len: nat,
)
    requires
        is_fused(z, r, fs, ds),
        len <= z.len(),
    ensures
        congruent(
            dot_upto(z, w, len),
            dot_upto(r, w, len) + dot_combination(fs, ds, w, len, fs.len()),
        ),
    decreases len,
{
    if len > 0 {
        let l1 = (len - 1) as nat;
        lemma_fused_dot(z, r, fs, ds, w, l1);
        lemma_combination_step(fs, ds, w, len, fs.len());
        let cd = column_dot(fs, ds, l1 as int, fs.len());
        let wl = w[l1 as int];
        lemma_congruent_mul(z[l1 as int], r[l1 as int] + cd, wl, wl);
        assert((r[l1 as int] + cd) * wl == r[l1 as int] * wl + cd * wl) by (nonlinear_arith);
        lemma_congruent_add(
            dot_upto(z, w, l1),
            dot_upto(r, w, l1) + dot_combination(fs, ds, w, l1, fs.len()),
            z[l1 as int] * wl,
            r[l1 as int] * wl + cd * wl,
        );
    } else {
        lemma_combination_of_nothing(fs, ds, w, fs.len());
    }
}

proof fn lemma_combination_of_nothing(fs: Seq<Seq<int>>, ds: Seq<int>, w: Seq<int>, m: nat)
    ensures
        dot_combination(fs, ds, w, 0, m) == 0,
    decreases m,
{
    if m > 0 {
        lemma_combination_of_nothing(fs, ds, w, (m - 1) as nat);
        assert(ds[m - 1] * 0 == 0);
    }
}

/// The dot product of shares and factors is the combination of the weighted
/// sums that the shares stand for.
pub proof fn lemma_dot_of_shares(
    shares: Seq<int>,
    fs: Seq<Seq<int>>,
    ds: Seq<int>,
    w: Seq<int>,
    len: nat,
    m: nat,
)
    requires
        m <= shares.len(),
        m <= ds.len(),
        forall|k: int| 0 <= k < m ==> congruent(#[trigger] shares[k], dot_upto(fs[k], w, len)),
    ensures
        congruent(dot_upto(shares, ds, m), dot_combination(fs, ds, w, len, m)),
    decreases m,
{
    if m > 0 {
        let k = (m - 1) as int;
        lemma_dot_of_shares(shares, fs, ds, w, len, (m - 1) as nat);
        lemma_congruent_mul(shares[k], dot_upto(fs[k], w, len), ds[k], ds[k]);
        assert(dot_upto(fs[k], w, len) * ds[k] == ds[k] * dot_upto(fs[k], w, len))
            by (nonlinear_arith);
        lemma_congruent_add(
            dot_upto(shares, ds, (m - 1) as nat),
            dot_combination(fs, ds, w, len, (m - 1) as nat),
            shares[k] * ds[k],
            ds[k] * dot_upto(fs[k], w, len),
        );
    }
}

/// The fused operation is undone under any weights. Where `z` is `r` after
/// the fused operation with polynomials of the length of `r`, and `shares`
/// stand for the weighted sums of the polynomials, the weighted sum of `z`
/// less the shares times their factors is the weighted sum of `r`.
pub proof fn lemma_unfused_dot(
    z: Seq<int>,
    r: Seq<int>,
    fs: Seq<Seq<int>>,
    ds: Seq<int>,
    w: Seq<int>,
    shares: Seq<int>,
)
    requires
        is_fused(z, r, fs, ds),
        fs.len() == ds.len(),
        shares.len() == fs.len(),
        forall|k: int| 0 <= k < fs.len() ==> (#[trigger] fs[k]).len() == r.len(),
        forall|k: int| 0 <= k < fs.len() ==> congruent(#[trigger] shares[k], dot(fs[k], w)),
    ensures
        congruent(dot(z, w) - dot(shares, ds), dot(r, w)),
{
    let len: nat = if z.len() <= w.len() {
        z.len()
    } else {
        w.len()
    };
    lemma_fused_dot(z, r, fs, ds, w, len);
    assert forall|k: int| 0 <= k < fs.len() implies congruent(
        #[trigger] shares[k],
        dot_upto(fs[k], w, len),
    ) by {
        assert(fs[k].len() == z.len());
    }
    lemma_dot_of_shares(shares, fs, ds, w, len, fs.len());
    lemma_congruent_sub(
        dot_upto(z, w, len),
        dot_upto(r, w, len) + dot_combination(fs, ds, w, len, fs.len()),
        dot(shares, ds),
        dot_combination(fs, ds, w, len, fs.len()),
    );
}

/// Where `z[j] = f[j] * d + r[j]` on the first `len` coefficients, the value
/// of those terms of `z` at `x` is `d` times that of `f` plus that of `r`.
pub proof fn lemma_scaled_sum_eval(z: Seq<int>, f: Seq<int>, r: Seq<int>, d: int, x: int, len: nat)
    requires
        forall|j: int| 0 <= j < len ==> congruent(#[trigger] z[j], f[j] * d + r[j]),
    ensures
        congruent(eval_upto(z, x, len), d * eval_upto(f, x, len) + eval_upto(r, x, len)),
    decreases len,
{
    if len > 0 {
        let l1 = (len - 1) as nat;
        lemma_scaled_sum_eval(z, f, r, d, x, l1);
        let p = pow(x, l1);
        let j = l1 as int;
        lemma_congruent_mul(z[j], f[j] * d + r[j], p, p);
        lemma_congruent_add(
            eval_upto(z, x, l1),
            d * eval_upto(f, x, l1) + eval_upto(r, x, l1),
            z[j] * p,
            (f[j] * d + r[j]) * p,
        );
        let ef = eval_upto(f, x, l1);
        let er = eval_upto(r, x, l1);
        assert(d * ef + er + (f[j] * d + r[j]) * p == d * (ef + f[j] * p) + (er + r[j] * p))
            by (nonlinear_arith);
    } else {
        assert(d * 0 + 0 == 0);
    }
}

} // verus!
