//! Polynomials over the scalar field, by their coefficients.

use crate::error::Error;
use crate::field::{
    congruent, dot, dot_upto, lemma_congruent_add, lemma_congruent_mul, lemma_congruent_sub,
    lemma_pow_succ, lemma_reduced, lemma_small_is_reduced, lemma_step_add_mul, lemma_step_mul,
    order,
};
use crate::random::{random_scalar, random_scalars, thread_random_scalar};
use crate::utils::pointwise_op_in_place;
use crate::ristretto::{all_valid, ristretto_mul, CompressedRistretto, RistrettoPoint};
use crate::scalar::{all_canonical, scalar_values, Scalar};
use rand::{CryptoRng, RngCore};
use vstd::arithmetic::power::{lemma_pow0, pow};
use vstd::prelude::*;

verus! {

/// The sum of `c[j] * x^j` over the first `k` coefficients.
pub open spec fn eval_upto(c: Seq<int>, x: int, k: nat) -> int
    decreases k,
{
    if k == 0 {
        0
    } else {
        eval_upto(c, x, (k - 1) as nat) + c[k - 1] * pow(x, (k - 1) as nat)
    }
}

/// The value at `x` of the polynomial with coefficients `c`, as an integer.
pub open spec fn poly_eval(c: Seq<int>, x: int) -> int {
    eval_upto(c, x, c.len())
}

/// The number of positions that two sequences both have.
pub open spec fn common_len(a: Seq<int>, b: Seq<int>) -> nat {
    if a.len() <= b.len() {
        a.len()
    } else {
        b.len()
    }
}

/// The first `len` entries of `row` are the powers of `x`, from `x^0` on.
pub open spec fn is_power_row(row: Seq<Scalar>, x: int, len: nat) -> bool {
    &&& row.len() >= len
    &&& forall|j: int| 0 <= j < len ==> congruent((#[trigger] row[j])@, pow(x, j as nat))
}

/// The table has one row for each of `1, .., n`: `table[i - 1]` holds the
/// powers of `i` up to `i^t`.
pub open spec fn is_power_table(table: Seq<Vec<Scalar>>, n: nat, t: nat) -> bool {
    &&& table.len() == n
    &&& forall|i: int| 0 <= i < n ==> is_power_row((#[trigger] table[i])@, i + 1, t + 1)
}

/// The coefficient vectors of a sequence of polynomials.
pub open spec fn poly_views(ps: Seq<Polynomial>) -> Seq<Seq<int>> {
    Seq::new(ps.len(), |k: int| ps[k]@)
}

/// The sum of `fs[k][j] * ds[k]` over the first `m` polynomials: what the
/// fused operation adds to coefficient `j`.
pub open spec fn column_dot(fs: Seq<Seq<int>>, ds: Seq<int>, j: int, m: nat) -> int
    decreases m,
{
    if m == 0 {
        0
    } else {
        column_dot(fs, ds, j, (m - 1) as nat) + fs[m - 1][j] * ds[m - 1]
    }
}

/// The sum of `ds[k] * fs[k](x)` over the first `m` polynomials.
pub open spec fn eval_combination(fs: Seq<Seq<int>>, ds: Seq<int>, x: int, m: nat) -> int
    decreases m,
{
    if m == 0 {
        0
    } else {
        eval_combination(fs, ds, x, (m - 1) as nat) + ds[m - 1] * poly_eval(fs[m - 1], x)
    }
}

/// `z` is `r` after the fused operation with `fs` and `ds`: coefficient by
/// coefficient, `z[j] = r[j] + sum_k fs[k][j] * ds[k]` in the field.
pub open spec fn is_fused(z: Seq<int>, r: Seq<int>, fs: Seq<Seq<int>>, ds: Seq<int>) -> bool {
    &&& z.len() == r.len()
    &&& forall|j: int|
        0 <= j < z.len() ==> congruent(#[trigger] z[j], r[j] + column_dot(fs, ds, j, fs.len()))
}

/// A row of powers turns a dot product into an evaluation.
pub proof fn lemma_dot_power_row(c: Seq<int>, row: Seq<Scalar>, x: int, k: nat)
    requires
        k <= c.len(),
        is_power_row(row, x, k),
    ensures
        congruent(dot_upto(c, scalar_values(row), k), eval_upto(c, x, k)),
    decreases k,
{
    if k > 0 {
        let m = (k - 1) as nat;
        lemma_dot_power_row(c, row, x, m);
        assert(scalar_values(row)[k - 1] == row[k - 1]@);
        lemma_congruent_mul(c[k - 1], c[k - 1], row[k - 1]@, pow(x, m));
        lemma_congruent_add(
            dot_upto(c, scalar_values(row), m),
            eval_upto(c, x, m),
            c[k - 1] * row[k - 1]@,
            c[k - 1] * pow(x, m),
        );
    }
}

/// The fused identity on the first `k` coefficients.
proof fn lemma_fused_upto(z: Seq<int>, r: Seq<int>, fs: Seq<Seq<int>>, ds: Seq<int>, x: int, k: nat)
    requires
        is_fused(z, r, fs, ds),
        k <= z.len(),
        fs.len() == ds.len(),
    ensures
        congruent(eval_upto(z, x, k), eval_upto(r, x, k) + columns_eval(fs, ds, x, k)),
    decreases k,
{
    if k > 0 {
        let m = (k - 1) as nat;
        lemma_fused_upto(z, r, fs, ds, x, m);
        let cd = column_dot(fs, ds, m as int, fs.len());
        lemma_congruent_mul(z[m as int], r[m as int] + cd, pow(x, m), pow(x, m));
        lemma_congruent_add(
            eval_upto(z, x, m),
            eval_upto(r, x, m) + columns_eval(fs, ds, x, m),
            z[m as int] * pow(x, m),
            (r[m as int] + cd) * pow(x, m),
        );
        assert((r[m as int] + cd) * pow(x, m) == r[m as int] * pow(x, m) + cd * pow(x, m))
            by (nonlinear_arith);
    }
}

/// The sum over the first `k` coefficient positions of what the fused
/// operation adds there, each times its power of `x`.
pub open spec fn columns_eval(fs: Seq<Seq<int>>, ds: Seq<int>, x: int, k: nat) -> int
    decreases k,
{
    if k == 0 {
        0
    } else {
        columns_eval(fs, ds, x, (k - 1) as nat) + column_dot(fs, ds, k - 1, fs.len()) * pow(
            x,
            (k - 1) as nat,
        )
    }
}

/// The sum over the first `m` polynomials of `ds[k]` times the value of the
/// first `len` terms of `fs[k]`.
pub open spec fn eval_combination_upto(
    fs: Seq<Seq<int>>,
    ds: Seq<int>,
    x: int,
    len: nat,
    m: nat,
) -> int
    decreases m,
{
    if m == 0 {
        0
    } else {
        eval_combination_upto(fs, ds, x, len, (m - 1) as nat) + ds[m - 1] * eval_upto(
            fs[m - 1],
            x,
            len,
        )
    }
}

/// Summing by coefficient and then by polynomial is summing by polynomial and
/// then by coefficient.
proof fn lemma_exchange(fs: Seq<Seq<int>>, ds: Seq<int>, x: int, k: nat, m: nat)
    ensures
        columns_eval_upto(fs, ds, x, k, m) == eval_combination_upto(fs, ds, x, k, m),
    decreases k, m,
{
    if k == 0 {
        lemma_combination_of_nothing(fs, ds, x, m);
    } else if m == 0 {
        lemma_columns_of_nothing(fs, ds, x, k);
    } else {
        let k1 = (k - 1) as nat;
        let m1 = (m - 1) as nat;
        lemma_exchange(fs, ds, x, k1, m);
        lemma_exchange(fs, ds, x, k, m1);
        lemma_exchange(fs, ds, x, k1, m1);
        let a = fs[m1 as int][k1 as int];
        let d = ds[m1 as int];
        let p = pow(x, k1);
        let cd = column_dot(fs, ds, k1 as int, m1);
        let ev = eval_upto(fs[m1 as int], x, k1);
        assert((cd + a * d) * p == cd * p + d * (a * p)) by (nonlinear_arith);
        assert(d * (ev + a * p) == d * ev + d * (a * p)) by (nonlinear_arith);
    }
}

/// As `columns_eval`, over the first `m` polynomials only.
pub open spec fn columns_eval_upto(fs: Seq<Seq<int>>, ds: Seq<int>, x: int, k: nat, m: nat) -> int
    decreases k,
{
    if k == 0 {
        0
    } else {
        columns_eval_upto(fs, ds, x, (k - 1) as nat, m) + column_dot(fs, ds, k - 1, m) * pow(
            x,
            (k - 1) as nat,
        )
    }
}

proof fn lemma_combination_of_nothing(fs: Seq<Seq<int>>, ds: Seq<int>, x: int, m: nat)
    ensures
        eval_combination_upto(fs, ds, x, 0, m) == 0,
    decreases m,
{
    if m > 0 {
        lemma_combination_of_nothing(fs, ds, x, (m - 1) as nat);
    }
}

proof fn lemma_columns_of_nothing(fs: Seq<Seq<int>>, ds: Seq<int>, x: int, k: nat)
    ensures
        columns_eval_upto(fs, ds, x, k, 0) == 0,
    decreases k,
{
    if k > 0 {
        lemma_columns_of_nothing(fs, ds, x, (k - 1) as nat);
    }
}

proof fn lemma_columns_eval_is_upto(fs: Seq<Seq<int>>, ds: Seq<int>, x: int, k: nat)
    ensures
        columns_eval(fs, ds, x, k) == columns_eval_upto(fs, ds, x, k, fs.len()),
    decreases k,
{
    if k > 0 {
        lemma_columns_eval_is_upto(fs, ds, x, (k - 1) as nat);
    }
}

proof fn lemma_combination_is_upto(fs: Seq<Seq<int>>, ds: Seq<int>, x: int, len: nat, m: nat)
    requires
        m <= fs.len(),
        forall|k: int| 0 <= k < m ==> (#[trigger] fs[k]).len() == len,
    ensures
        eval_combination(fs, ds, x, m) == eval_combination_upto(fs, ds, x, len, m),
    decreases m,
{
    if m > 0 {
        lemma_combination_is_upto(fs, ds, x, len, (m - 1) as nat);
    }
}

/// The fused identity: where `z` is `r` after the fused operation with
/// polynomials `fs` of the length of `r` and weights `ds`, then at every `x`
/// the value of `z` is the value of `r` plus the weighted values of the `fs`.
pub proof fn lemma_fused_identity(
    z: Seq<int>,
    r: Seq<int>,
    fs: Seq<Seq<int>>,
    ds: Seq<int>,
    x: int,
)
    requires
        is_fused(z, r, fs, ds),
        fs.len() == ds.len(),
        forall|k: int| 0 <= k < fs.len() ==> (#[trigger] fs[k]).len() == r.len(),
    ensures
        congruent(poly_eval(z, x), poly_eval(r, x) + eval_combination(fs, ds, x, fs.len())),
{
    lemma_fused_upto(z, r, fs, ds, x, z.len());
    lemma_columns_eval_is_upto(fs, ds, x, z.len());
    lemma_exchange(fs, ds, x, z.len(), fs.len());
    lemma_combination_is_upto(fs, ds, x, r.len(), fs.len());
}

/// A polynomial: `coefficients[j]` belongs to `x^j`.
#[derive(Debug, PartialEq, Eq)]
pub struct Polynomial {
    pub coefficients: Vec<Scalar>,
}

impl View for Polynomial {
    type V = Seq<int>;

    /// The values of the coefficients, constant term first.
    open spec fn view(&self) -> Seq<int> {
        scalar_values(self.coefficients@)
    }
}

impl Clone for Polynomial {
    fn clone(&self) -> (r: Self)
        ensures
            r.coefficients@ == self.coefficients@,
    {
        let mut coefficients: Vec<Scalar> = Vec::new();
        let mut i: usize = 0;
        while i < self.coefficients.len()
            invariant
                i <= self.coefficients.len(),
                coefficients@ == self.coefficients@.subrange(0, i as int),
            decreases self.coefficients.len() - i,
        {
            coefficients.push(self.coefficients[i]);
            assert(coefficients@ =~= self.coefficients@.subrange(0, i + 1));
            i += 1;
        }
        assert(coefficients@ =~= self.coefficients@);
        Polynomial { coefficients }
    }
}

/// The powers `x^0, x^1, ..` of `x`, `len` of them.
pub fn powers_of(x: usize, len: usize) -> (r: Vec<Scalar>)
    ensures
        r.len() == len,
        all_canonical(r@),
        is_power_row(r@, x as int, len as nat),
{
    let xs = Scalar::from_u64(x as u64);
    let mut out: Vec<Scalar> = Vec::new();
    let mut xp = Scalar::one();
    let mut j: usize = 0;
    proof {
        lemma_pow0(x as int);
    }
    while j < len
        invariant
            j <= len,
            xs@ == x,
            xp.wf(),
            out.len() == j,
            all_canonical(out@),
            congruent(xp@, pow(x as int, j as nat)),
            forall|i: int| 0 <= i < j ==> congruent((#[trigger] out@[i])@, pow(x as int, i as nat)),
        decreases len - j,
    {
        out.push(xp);
        let next = xs.mul(&xp);
        proof {
            lemma_step_mul(xs@, x as int, xp@, pow(x as int, j as nat));
            lemma_pow_succ(x as int, j as nat);
        }
        xp = next;
        j += 1;
    }
    out
}

/// The sum of the products `a[i] * b[i]`, over the positions that both have.
pub fn inner_product(a: &[Scalar], b: &[Scalar]) -> (r: Scalar)
    ensures
        r.wf(),
        r@ == dot(scalar_values(a@), scalar_values(b@)) % order(),
{
    let n = if a.len() <= b.len() {
        a.len()
    } else {
        b.len()
    };
    let mut acc = Scalar::zero();
    let mut i: usize = 0;
    let ghost va = scalar_values(a@);
    let ghost vb = scalar_values(b@);
    while i < n
        invariant
            i <= n,
            n <= a.len(),
            n <= b.len(),
            va == scalar_values(a@),
            vb == scalar_values(b@),
            acc.wf(),
            congruent(acc@, dot_upto(va, vb, i as nat)),
        decreases n - i,
    {
        let term = a[i].mul(&b[i]);
        let next = acc.add(&term);
        proof {
            lemma_step_add_mul(acc@, dot_upto(va, vb, i as nat), a[i as int]@, b[i as int]@, b[i as int]@);
            assert(va[i as int] == a[i as int]@);
            assert(vb[i as int] == b[i as int]@);
            lemma_small_is_reduced(next@);
        }
        acc = next;
        i += 1;
    }
    proof {
        lemma_small_is_reduced(acc@);
    }
    acc
}

/// The dot product of evaluations and weights is the weighted sum of the
/// polynomials' values.
pub proof fn lemma_dot_of_evaluations(
    f_vals: Seq<int>,
    fs: Seq<Seq<int>>,
    ds: Seq<int>,
    x: int,
    m: nat,
)
    requires
        m <= f_vals.len(),
        m <= fs.len(),
        m <= ds.len(),
        forall|k: int| 0 <= k < m ==> congruent(#[trigger] f_vals[k], poly_eval(fs[k], x)),
    ensures
        congruent(dot_upto(f_vals, ds, m), eval_combination(fs, ds, x, m)),
    decreases m,
{
    if m > 0 {
        let k = (m - 1) as nat;
        lemma_dot_of_evaluations(f_vals, fs, ds, x, k);
        lemma_congruent_mul(f_vals[k as int], poly_eval(fs[k as int], x), ds[k as int], ds[k as int]);
        assert(poly_eval(fs[k as int], x) * ds[k as int] == ds[k as int] * poly_eval(fs[k as int], x))
            by (nonlinear_arith);
        lemma_congruent_add(
            dot_upto(f_vals, ds, k),
            eval_combination(fs, ds, x, k),
            f_vals[k as int] * ds[k as int],
            ds[k as int] * poly_eval(fs[k as int], x),
        );
    }
}

/// The fused operation is undone at a point: from the value of `z` at `x`,
/// the values of the `fs` at `x` and the weights, what `compute_r_eval`
/// returns is the value of `r` at `x`.
pub proof fn lemma_unfused_value(
    z: Seq<int>,
    r: Seq<int>,
    fs: Seq<Seq<int>>,
    ds: Seq<int>,
    x: int,
    z_val: int,
    f_vals: Seq<int>,
)
    requires
        is_fused(z, r, fs, ds),
        fs.len() == ds.len(),
        f_vals.len() == fs.len(),
        forall|k: int| 0 <= k < fs.len() ==> (#[trigger] fs[k]).len() == r.len(),
        congruent(z_val, poly_eval(z, x)),
        forall|k: int| 0 <= k < fs.len() ==> congruent(#[trigger] f_vals[k], poly_eval(fs[k], x)),
    ensures
        congruent(z_val - dot(f_vals, ds), poly_eval(r, x)),
{
    lemma_fused_identity(z, r, fs, ds, x);
    lemma_dot_of_evaluations(f_vals, fs, ds, x, fs.len());
    lemma_congruent_sub(
        z_val,
        poly_eval(r, x) + eval_combination(fs, ds, x, fs.len()),
        dot(f_vals, ds),
        eval_combination(fs, ds, x, fs.len()),
    );
}

impl Polynomial {
    /// The number of coefficients: the degree plus one.
    pub fn len(&self) -> (r: usize)
        ensures
            r == self.coefficients.len(),
    {
        self.coefficients.len()
    }

    pub fn coef_ref(&self) -> (r: &Vec<Scalar>)
        ensures
            r == &self.coefficients,
    {
        &self.coefficients
    }

    /// The coefficient of `x^index`, where the polynomial has one.
    pub fn coef_at(&self, index: usize) -> (r: Option<Scalar>)
        ensures
            r == if index < self.coefficients.len() {
                Some(self.coefficients[index as int])
            } else {
                None
            },
    {
        if index < self.coefficients.len() {
            Some(self.coefficients[index])
        } else {
            None
        }
    }

    /// The coefficient of `x^index`.
    pub fn coef_at_unchecked(&self, index: usize) -> (r: &Scalar)
        requires
            index < self.coefficients.len(),
        ensures
            *r == self.coefficients[index as int],
    {
        &self.coefficients[index]
    }

    pub fn from_coefficients(coefs: Vec<Scalar>) -> (r: Self)
        ensures
            r.coefficients == coefs,
    {
        Polynomial { coefficients: coefs }
    }

    /// A polynomial of the given degree with coefficients drawn from `rng`.
    pub fn sample<R: CryptoRng + RngCore>(degree: usize, rng: &mut R) -> (r: Self)
        requires
            degree < usize::MAX,
        ensures
            r.coefficients.len() == degree + 1,
            all_canonical(r.coefficients@),
    {
        Polynomial::from_coefficients(random_scalars(rng, degree + 1))
    }

    /// As `sample`, with the constant term set to `f0`.
    pub fn sample_set_f0<R: CryptoRng + RngCore>(degree: usize, rng: &mut R, f0: &Scalar) -> (r:
        Self)
        requires
            degree < usize::MAX,
        ensures
            r.coefficients.len() == degree + 1,
            r.coefficients[0] == *f0,
            forall|j: int| 1 <= j <= degree ==> (#[trigger] r.coefficients[j]).wf(),
    {
        let mut coefs = random_scalars(rng, degree + 1);
        coefs.set(0, *f0);
        Polynomial { coefficients: coefs }
    }

    /// As `sample_set_f0`, with coefficients drawn from the thread's generator.
    pub fn thread_sample_set_f0(degree: usize, f0: &Scalar) -> (r: Self)
        requires
            degree < usize::MAX,
        ensures
            r.coefficients.len() == degree + 1,
            r.coefficients[0] == *f0,
            forall|j: int| 1 <= j <= degree ==> (#[trigger] r.coefficients[j]).wf(),
    {
        let mut coefs: Vec<Scalar> = Vec::new();
        coefs.push(*f0);
        let mut j: usize = 0;
        while j < degree
            invariant
                j <= degree,
                coefs.len() == j + 1,
                coefs[0] == *f0,
                forall|i: int| 1 <= i <= j ==> (#[trigger] coefs[i]).wf(),
            decreases degree - j,
        {
            coefs.push(thread_random_scalar());
            j += 1;
        }
        Polynomial { coefficients: coefs }
    }

    /// Two polynomials of the given degree with coefficients drawn from `rng`.
    pub fn sample_two<R: CryptoRng + RngCore>(degree: usize, rng: &mut R) -> (r: (Self, Self))
        requires
            degree < usize::MAX,
        ensures
            r.0.coefficients.len() == degree + 1,
            r.1.coefficients.len() == degree + 1,
            all_canonical(r.0.coefficients@),
            all_canonical(r.1.coefficients@),
    {
        let mut coefs_1: Vec<Scalar> = Vec::new();
        let mut coefs_2: Vec<Scalar> = Vec::new();
        let mut j: usize = 0;
        while j <= degree
            invariant
                j <= degree + 1,
                degree < usize::MAX,
                coefs_1.len() == j,
                coefs_2.len() == j,
                all_canonical(coefs_1@),
                all_canonical(coefs_2@),
            decreases degree + 1 - j,
        {
            coefs_1.push(random_scalar(rng));
            coefs_2.push(random_scalar(rng));
            j += 1;
        }
        (Polynomial { coefficients: coefs_1 }, Polynomial { coefficients: coefs_2 })
    }

    /// As `sample_two`, with the constant term of the first set to `f0`.
    pub fn sample_two_set_f0<R: CryptoRng + RngCore>(degree: usize, f0: &Scalar, rng: &mut R) -> (r:
        (Self, Self))
        requires
            degree < usize::MAX,
        ensures
            r.0.coefficients.len() == degree + 1,
            r.1.coefficients.len() == degree + 1,
            r.0.coefficients[0] == *f0,
            forall|j: int| 1 <= j <= degree ==> (#[trigger] r.0.coefficients[j]).wf(),
            all_canonical(r.1.coefficients@),
    {
        let (first, second) = Polynomial::sample_two(degree, rng);
        let mut coefs_1 = first.coefficients;
        coefs_1.set(0, *f0);
        (Polynomial { coefficients: coefs_1 }, second)
    }

    /// `n` polynomials of the given degree, with coefficients drawn from the
    /// thread's generator; `rng` is not consulted.
    pub fn sample_n<R: CryptoRng + RngCore>(n: usize, degree: usize, rng: &mut R) -> (r: Vec<Self>)
        requires
            degree < usize::MAX,
        ensures
            r.len() == n,
            forall|k: int|
                0 <= k < n ==> (#[trigger] r[k]).coefficients.len() == degree + 1 && all_canonical(
                    r[k].coefficients@,
                ),
    {
        let mut out: Vec<Polynomial> = Vec::new();
        let mut k: usize = 0;
        while k < n
            invariant
                k <= n,
                degree < usize::MAX,
                out.len() == k,
                forall|i: int|
                    0 <= i < k ==> (#[trigger] out[i]).coefficients.len() == degree + 1
                        && all_canonical(out[i].coefficients@),
            decreases n - k,
        {
            let mut coefs: Vec<Scalar> = Vec::new();
            let mut j: usize = 0;
            while j <= degree
                invariant
                    j <= degree + 1,
                    degree < usize::MAX,
                    coefs.len() == j,
                    all_canonical(coefs@),
                decreases degree + 1 - j,
            {
                coefs.push(thread_random_scalar());
                j += 1;
            }
            out.push(Polynomial { coefficients: coefs });
            k += 1;
        }
        out
    }

    /// `n` polynomials of the given degree whose constant terms are the
    /// entries of `f0_vals`, the other coefficients drawn from the thread's
    /// generator. Fails where `f0_vals` does not hold `n` values.
    pub fn sample_n_set_f0(n: usize, degree: usize, f0_vals: &Vec<Scalar>) -> (r: Result<
        Vec<Self>,
        Error,
    >)
        requires
            degree < usize::MAX,
        ensures
            f0_vals.len() != n ==> r == Err::<Vec<Self>, Error>(
                Error::CountMismatch(n, "degree", f0_vals.len(), "f0 values"),
            ),
            f0_vals.len() == n ==> r is Ok,
            r matches Ok(ps) ==> {
                &&& ps.len() == n
                &&& forall|k: int|
                    0 <= k < n ==> {
                        &&& (#[trigger] ps[k]).coefficients.len() == degree + 1
                        &&& ps[k].coefficients[0] == f0_vals[k]
                        &&& forall|j: int|
                            1 <= j <= degree ==> (#[trigger] ps[k].coefficients[j]).wf()
                    }
            },
    {
        if f0_vals.len() == n {
            let mut out: Vec<Polynomial> = Vec::new();
            let mut k: usize = 0;
            while k < n
                invariant
                    k <= n,
                    n == f0_vals.len(),
                    degree < usize::MAX,
                    out.len() == k,
                    forall|i: int|
                        0 <= i < k ==> {
                            &&& (#[trigger] out[i]).coefficients.len() == degree + 1
                            &&& out[i].coefficients[0] == f0_vals[i]
                            &&& forall|j: int|
                                1 <= j <= degree ==> (#[trigger] out[i].coefficients[j]).wf()
                        },
                decreases n - k,
            {
                out.push(Polynomial::thread_sample_set_f0(degree, &f0_vals[k]));
                k += 1;
            }
            Ok(out)
        } else {
            Err(Error::CountMismatch(n, "degree", f0_vals.len(), "f0 values"))
        }
    }

    /// The value of the polynomial at `x`.
    pub fn evaluate(&self, x: usize) -> (r: Scalar)
        ensures
            r.wf(),
            r@ == poly_eval(self@, x as int) % order(),
    {
        let x_powers = powers_of(x, self.coefficients.len());
        let r = inner_product(self.coefficients.as_slice(), x_powers.as_slice());
        proof {
            lemma_dot_power_row(self@, x_powers@, x as int, self@.len());
        }
        r
    }

    /// The value at `x`, for `x` from one on, from the row of `x_powers` for
    /// `x`, which is row `x - 1`: the sum of the products of coefficients and
    /// row entries, over the positions that both have.
    pub fn evaluate_precomp(&self, x_powers: &Vec<Vec<Scalar>>, x: usize) -> (r: Scalar)
        requires
            1 <= x <= x_powers.len(),
        ensures
            r.wf(),
            r@ == dot(self@, scalar_values(x_powers[x - 1]@)) % order(),
            is_power_row(x_powers[x - 1]@, x as int, self@.len()) ==> r@ == poly_eval(
                self@,
                x as int,
            ) % order(),
    {
        let r = inner_product(self.coefficients.as_slice(), x_powers[x - 1].as_slice());
        proof {
            if is_power_row(x_powers[x - 1]@, x as int, self@.len()) {
                lemma_dot_power_row(self@, x_powers[x - 1]@, x as int, self@.len());
            }
        }
        r
    }

    /// The values at `from, from + 1, .., to`.
    pub fn evaluate_range(&self, from: usize, to: usize) -> (r: Vec<Scalar>)
        ensures
            r.len() == (if from <= to { to - from + 1 } else { 0 }),
            all_canonical(r@),
            forall|i: int|
                from <= i <= to ==> (#[trigger] r[i - from])@ == poly_eval(self@, i) % order(),
    {
        let mut out: Vec<Scalar> = Vec::new();
        if from > to {
            return out;
        }
        let mut i: usize = from;
        loop
            invariant_except_break
                from <= i <= to,
                out.len() == i - from,
                all_canonical(out@),
                forall|q: int|
                    from <= q < i ==> (#[trigger] out[q - from])@ == poly_eval(self@, q) % order(),
            ensures
                from <= to,
                out.len() == to - from + 1,
                all_canonical(out@),
                forall|q: int|
                    from <= q <= to ==> (#[trigger] out[q - from])@ == poly_eval(self@, q)
                        % order(),
            decreases to - i,
        {
            out.push(self.evaluate(i));
            if i == to {
                break ;
            }
            i += 1;
        }
        out
    }

    /// The values at `from, .., to`, each from its row of `x_powers`: row
    /// `x - 1` for `x`.
    pub fn evaluate_range_precomp(&self, x_powers: &Vec<Vec<Scalar>>, from: usize, to: usize) -> (r:
        Vec<Scalar>)
        requires
            from <= to ==> 1 <= from && to <= x_powers.len(),
        ensures
            r.len() == (if from <= to { to - from + 1 } else { 0 }),
            all_canonical(r@),
            forall|i: int|
                from <= i <= to ==> (#[trigger] r[i - from])@ == dot(
                    self@,
                    scalar_values(x_powers[i - 1]@),
                ) % order(),
            forall|i: int|
                from <= i <= to && is_power_row(x_powers[i - 1]@, i, self@.len()) ==> (
                #[trigger] r[i - from])@ == poly_eval(self@, i) % order(),
    {
        let mut out: Vec<Scalar> = Vec::new();
        if from > to {
            return out;
        }
        let mut i: usize = from;
        loop
            invariant_except_break
                from <= i <= to,
                1 <= from,
                to <= x_powers.len(),
                out.len() == i - from,
                all_canonical(out@),
                forall|q: int|
                    from <= q < i ==> (#[trigger] out[q - from])@ == dot(
                        self@,
                        scalar_values(x_powers[q - 1]@),
                    ) % order(),
                forall|q: int|
                    from <= q < i && is_power_row(x_powers[q - 1]@, q, self@.len()) ==> (
                    #[trigger] out[q - from])@ == poly_eval(self@, q) % order(),
            ensures
                from <= to,
                out.len() == to - from + 1,
                all_canonical(out@),
                forall|q: int|
                    from <= q <= to ==> (#[trigger] out[q - from])@ == dot(
                        self@,
                        scalar_values(x_powers[q - 1]@),
                    ) % order(),
                forall|q: int|
                    from <= q <= to && is_power_row(x_powers[q - 1]@, q, self@.len()) ==> (
                    #[trigger] out[q - from])@ == poly_eval(self@, q) % order(),
            decreases to - i,
        {
            out.push(self.evaluate_precomp(x_powers, i));
            if i == to {
                break ;
            }
            i += 1;
        }
        out
    }

    /// The fused operation of proof generation: in place,
    /// `self[j] <- self[j] + sum_k f_polynomials[k][j] * d_vals[k]`.
    pub fn compute_z(&mut self, f_polynomials: &[Self], d_vals: &[Scalar])
        requires
            f_polynomials.len() == d_vals.len(),
            forall|k: int|
                0 <= k < f_polynomials.len() ==> (#[trigger] f_polynomials[k]).coefficients.len()
                    == old(self).coefficients.len(),
        ensures
            all_canonical(final(self).coefficients@),
            is_fused(
                final(self)@,
                old(self)@,
                poly_views(f_polynomials@),
                scalar_values(d_vals@),
            ),
            forall|x: int|
                congruent(
                    #[trigger] poly_eval(final(self)@, x),
                    poly_eval(old(self)@, x) + eval_combination(
                        poly_views(f_polynomials@),
                        scalar_values(d_vals@),
                        x,
                        f_polynomials@.len(),
                    ),
                ),
    {
        let n = self.coefficients.len();
        let m = f_polynomials.len();
        let ghost fs = poly_views(f_polynomials@);
        let ghost ds = scalar_values(d_vals@);
        let mut j: usize = 0;
        while j < n
            invariant
                j <= n,
                n == self.coefficients.len(),
                n == old(self).coefficients.len(),
                m == f_polynomials.len(),
                m == d_vals.len(),
                fs == poly_views(f_polynomials@),
                ds == scalar_values(d_vals@),
                forall|k: int|
                    0 <= k < m ==> (#[trigger] f_polynomials[k]).coefficients.len() == n,
                forall|i: int|
                    0 <= i < j ==> (#[trigger] self.coefficients[i]).wf() && congruent(
                        self.coefficients[i]@,
                        old(self).coefficients[i]@ + column_dot(fs, ds, i, m as nat),
                    ),
                forall|i: int| j <= i < n ==> self.coefficients[i] == old(self).coefficients[i],
            decreases n - j,
        {
            let mut acc = Scalar::zero();
            let mut k: usize = 0;
            while k < m
                invariant
                    k <= m,
                    j < n,
                    m == f_polynomials.len(),
                    m == d_vals.len(),
                    fs == poly_views(f_polynomials@),
                    ds == scalar_values(d_vals@),
                    forall|q: int|
                        0 <= q < m ==> (#[trigger] f_polynomials[q]).coefficients.len() == n,
                    acc.wf(),
                    congruent(acc@, column_dot(fs, ds, j as int, k as nat)),
                decreases m - k,
            {
                let term = f_polynomials[k].coefficients[j].mul(&d_vals[k]);
                let next = acc.add(&term);
                proof {
                    lemma_step_add_mul(
                        acc@,
                        column_dot(fs, ds, j as int, k as nat),
                        f_polynomials[k as int].coefficients[j as int]@,
                        d_vals[k as int]@,
                        d_vals[k as int]@,
                    );
                    assert(fs[k as int][j as int] == f_polynomials[k as int].coefficients[j as int]@);
                    assert(ds[k as int] == d_vals[k as int]@);
                }
                acc = next;
                k += 1;
            }
            let updated = self.coefficients[j].add(&acc);
            proof {
                lemma_congruent_add(
                    self.coefficients[j as int]@,
                    old(self).coefficients[j as int]@,
                    acc@,
                    column_dot(fs, ds, j as int, m as nat),
                );
                lemma_reduced(self.coefficients[j as int]@ + acc@);
            }
            self.coefficients.set(j, updated);
            j += 1;
        }
        proof {
            assert(final(self)@.len() == old(self)@.len());
            assert forall|i: int| 0 <= i < final(self)@.len() implies congruent(
                #[trigger] final(self)@[i],
                old(self)@[i] + column_dot(fs, ds, i, fs.len()),
            ) by {
                assert(final(self)@[i] == self.coefficients[i]@);
                assert(old(self)@[i] == old(self).coefficients[i]@);
            }
            assert forall|k: int| 0 <= k < fs.len() implies (#[trigger] fs[k]).len() == old(
                self,
            )@.len() by {
                assert(fs[k] == f_polynomials[k]@);
            }
            assert forall|x: int|
                congruent(
                    #[trigger] poly_eval(final(self)@, x),
                    poly_eval(old(self)@, x) + eval_combination(fs, ds, x, fs.len()),
                ) by {
                lemma_fused_identity(final(self)@, old(self)@, fs, ds, x);
            }
        }
    }

    /// What is left of a value of `z` when the weighted shares are taken
    /// off: `z_eval - sum_k f_evals[k] * d_vals[k]`, the sum over the
    /// positions that both have.
    pub fn compute_r_eval(z_eval: &Scalar, f_evals: &[Scalar], d_vals: &[Scalar]) -> (r: Scalar)
        ensures
            r.wf(),
            r@ == (z_eval@ - dot(scalar_values(f_evals@), scalar_values(d_vals@))) % order(),
    {
        let s = inner_product(f_evals, d_vals);
        let r = z_eval.sub(&s);
        proof {
            vstd::arithmetic::div_mod::lemma_sub_mod_noop_right(
                z_eval@,
                dot(scalar_values(f_evals@), scalar_values(d_vals@)),
                order(),
            );
        }
        r
    }

    pub fn coef_mut(&mut self) -> (r: &mut Vec<Scalar>)
        ensures
            *r == old(self).coefficients,
            final(self).coefficients == *final(r),
    {
        &mut self.coefficients
    }

    /// For each `x` of `from, .., to` a row with the value of every polynomial
    /// at `x`.
    pub fn evaluate_many_range(polynomials: &[Self], from: usize, to: usize) -> (r: Vec<
        Vec<Scalar>,
    >)
        ensures
            r.len() == (if from <= to { to - from + 1 } else { 0 }),
            forall|i: int|
                from <= i <= to ==> {
                    &&& (#[trigger] r[i - from]).len() == polynomials.len()
                    &&& all_canonical(r[i - from]@)
                    &&& forall|k: int|
                        0 <= k < polynomials.len() ==> (#[trigger] r[i - from][k])@ == poly_eval(
                            polynomials[k]@,
                            i,
                        ) % order()
                },
    {
        let mut out: Vec<Vec<Scalar>> = Vec::new();
        if from > to {
            return out;
        }
        let mut i: usize = from;
        loop
            invariant_except_break
                from <= i <= to,
                out.len() == i - from,
                forall|q: int|
                    from <= q < i ==> {
                        &&& (#[trigger] out[q - from]).len() == polynomials.len()
                        &&& all_canonical(out[q - from]@)
                        &&& forall|k: int|
                            0 <= k < polynomials.len() ==> (#[trigger] out[q - from][k])@
                                == poly_eval(polynomials[k]@, q) % order()
                    },
            ensures
                from <= to,
                out.len() == to - from + 1,
                forall|q: int|
                    from <= q <= to ==> {
                        &&& (#[trigger] out[q - from]).len() == polynomials.len()
                        &&& all_canonical(out[q - from]@)
                        &&& forall|k: int|
                            0 <= k < polynomials.len() ==> (#[trigger] out[q - from][k])@
                                == poly_eval(polynomials[k]@, q) % order()
                    },
            decreases to - i,
        {
            let mut row: Vec<Scalar> = Vec::new();
            let mut k: usize = 0;
            while k < polynomials.len()
                invariant
                    k <= polynomials.len(),
                    row.len() == k,
                    all_canonical(row@),
                    forall|q: int|
                        0 <= q < k ==> (#[trigger] row[q])@ == poly_eval(polynomials[q]@, i as int)
                            % order(),
                decreases polynomials.len() - k,
            {
                row.push(polynomials[k].evaluate(i));
                k += 1;
            }
            out.push(row);
            if i == to {
                break ;
            }
            i += 1;
        }
        out
    }

    /// As `evaluate_many_range`, each value from the row of `x_powers` for
    /// its `x`: row `x - 1`.
    pub fn evaluate_many_range_precomp(
        x_powers: &Vec<Vec<Scalar>>,
        polynomials: &[Self],
        from: usize,
        to: usize,
    ) -> (r: Vec<Vec<Scalar>>)
        requires
            from <= to ==> 1 <= from && to <= x_powers.len(),
        ensures
            r.len() == (if from <= to { to - from + 1 } else { 0 }),
            forall|i: int|
                from <= i <= to ==> {
                    &&& (#[trigger] r[i - from]).len() == polynomials.len()
                    &&& all_canonical(r[i - from]@)
                    &&& forall|k: int|
                        0 <= k < polynomials.len() ==> {
                            &&& (#[trigger] r[i - from][k])@ == dot(
                                polynomials[k]@,
                                scalar_values(x_powers[i - 1]@),
                            ) % order()
                            &&& is_power_row(x_powers[i - 1]@, i, polynomials[k]@.len()) ==> r[i
                                - from][k]@ == poly_eval(polynomials[k]@, i) % order()
                        }
                },
    {
        let mut out: Vec<Vec<Scalar>> = Vec::new();
        if from > to {
            return out;
        }
        let mut i: usize = from;
        loop
            invariant_except_break
                from <= i <= to,
                1 <= from,
                to <= x_powers.len(),
                out.len() == i - from,
                forall|q: int|
                    from <= q < i ==> {
                        &&& (#[trigger] out[q - from]).len() == polynomials.len()
                        &&& all_canonical(out[q - from]@)
                        &&& forall|k: int|
                            0 <= k < polynomials.len() ==> {
                                &&& (#[trigger] out[q - from][k])@ == dot(
                                    polynomials[k]@,
                                    scalar_values(x_powers[q - 1]@),
                                ) % order()
                                &&& is_power_row(x_powers[q - 1]@, q, polynomials[k]@.len()) ==> out[q
                                    - from][k]@ == poly_eval(polynomials[k]@, q) % order()
                            }
                    },
            ensures
                from <= to,
                out.len() == to - from + 1,
                forall|q: int|
                    from <= q <= to ==> {
                        &&& (#[trigger] out[q - from]).len() == polynomials.len()
                        &&& all_canonical(out[q - from]@)
                        &&& forall|k: int|
                            0 <= k < polynomials.len() ==> {
                                &&& (#[trigger] out[q - from][k])@ == dot(
                                    polynomials[k]@,
                                    scalar_values(x_powers[q - 1]@),
                                ) % order()
                                &&& is_power_row(x_powers[q - 1]@, q, polynomials[k]@.len()) ==> out[q
                                    - from][k]@ == poly_eval(polynomials[k]@, q) % order()
                            }
                    },
            decreases to - i,
        {
            let mut row: Vec<Scalar> = Vec::new();
            let mut k: usize = 0;
            while k < polynomials.len()
                invariant
                    k <= polynomials.len(),
                    1 <= i <= x_powers.len(),
                    row.len() == k,
                    all_canonical(row@),
                    forall|q: int|
                        0 <= q < k ==> {
                            &&& (#[trigger] row[q])@ == dot(
                                polynomials[q]@,
                                scalar_values(x_powers[i - 1]@),
                            ) % order()
                            &&& is_power_row(x_powers[i - 1]@, i as int, polynomials[q]@.len())
                                ==> row[q]@ == poly_eval(polynomials[q]@, i as int) % order()
                        },
                decreases polynomials.len() - k,
            {
                row.push(polynomials[k].evaluate_precomp(x_powers, i));
                k += 1;
            }
            out.push(row);
            if i == to {
                break ;
            }
            i += 1;
        }
        out
    }

    /// The values of two polynomials at `from, .., to`, both over the terms
    /// that both have.
    pub fn evaluate_two_range(&self, other: &Self, from: usize, to: usize) -> (r: (
        Vec<Scalar>,
        Vec<Scalar>,
    ))
        ensures
            r.0.len() == (if from <= to { to - from + 1 } else { 0 }),
            r.1.len() == r.0.len(),
            all_canonical(r.0@),
            all_canonical(r.1@),
            forall|i: int| from <= i <= to ==> (#[trigger] r.0[i - from])@ == eval_upto(
                        self@,
                        i,
                        common_len(self@, other@),
                    ) % order(),
            forall|i: int| from <= i <= to ==> (#[trigger] r.1[i - from])@ == eval_upto(
                        other@,
                        i,
                        common_len(self@, other@),
                    ) % order(),
    {
        let mut out_f: Vec<Scalar> = Vec::new();
        let mut out_r: Vec<Scalar> = Vec::new();
        if from > to {
            return (out_f, out_r);
        }
        let mut i: usize = from;
        loop
            invariant_except_break
                from <= i <= to,
                out_f.len() == i - from,
                out_r.len() == i - from,
                all_canonical(out_f@),
                all_canonical(out_r@),
                forall|q: int| from <= q < i ==> (#[trigger] out_f[q - from])@ == eval_upto(
                            self@,
                            q,
                            common_len(self@, other@),
                        ) % order(),
            forall|q: int| from <= q < i ==> (#[trigger] out_r[q - from])@ == eval_upto(
                            other@,
                            q,
                            common_len(self@, other@),
                        ) % order(),
            ensures
                from <= to,
                out_f.len() == to - from + 1,
                out_r.len() == to - from + 1,
                all_canonical(out_f@),
                all_canonical(out_r@),
                forall|q: int| from <= q <= to ==> (#[trigger] out_f[q - from])@ == eval_upto(
                            self@,
                            q,
                            common_len(self@, other@),
                        ) % order(),
            forall|q: int| from <= q <= to ==> (#[trigger] out_r[q - from])@ == eval_upto(
                            other@,
                            q,
                            common_len(self@, other@),
                        ) % order(),
            decreases to - i,
        {
            let (f_val, r_val) = self.evaluate_two(other, i);
            out_f.push(f_val);
            out_r.push(r_val);
            if i == to {
                break ;
            }
            i += 1;
        }
        (out_f, out_r)
    }

    /// The values of two polynomials at `x`, both over the terms that both
    /// have.
    pub fn evaluate_two(&self, other: &Self, x: usize) -> (r: (Scalar, Scalar))
        ensures
            r.0.wf(),
            r.1.wf(),
            r.0@ == eval_upto(self@, x as int, common_len(self@, other@)) % order(),
            r.1@ == eval_upto(other@, x as int, common_len(self@, other@)) % order(),
    {
        let m = if self.coefficients.len() <= other.coefficients.len() {
            self.coefficients.len()
        } else {
            other.coefficients.len()
        };
        let x_powers = powers_of(x, m);
        let f_val = inner_product(self.coefficients.as_slice(), x_powers.as_slice());
        let r_val = inner_product(other.coefficients.as_slice(), x_powers.as_slice());
        proof {
            lemma_dot_power_row(self@, x_powers@, x as int, m as nat);
            lemma_dot_power_row(other@, x_powers@, x as int, m as nat);
        }
        (f_val, r_val)
    }

    /// For each point, the value of the polynomial at its position counted
    /// from `x_0`, and the point multiplied by that value.
    pub fn evaluate_multiply(&self, points: &Vec<RistrettoPoint>, x_0: usize) -> (r: (
        Vec<Scalar>,
        Vec<RistrettoPoint>,
    ))
        requires
            all_valid(points@),
            points.len() + x_0 <= usize::MAX + 1,
        ensures
            r.0.len() == points.len(),
            r.1.len() == points.len(),
            all_canonical(r.0@),
            all_valid(r.1@),
            forall|i: int| 0 <= i < points.len() ==> (#[trigger] r.0[i])@ == poly_eval(self@, i + x_0) % order(),
            forall|i: int| 0 <= i < points.len() ==> (#[trigger] r.1[i])@ == ristretto_mul(r.0[i]@, points[i]@),
    {
        let mut vals: Vec<Scalar> = Vec::new();
        let mut prods: Vec<RistrettoPoint> = Vec::new();
        let mut i: usize = 0;
        while i < points.len()
            invariant
                i <= points.len(),
                points.len() + x_0 <= usize::MAX + 1,
                all_valid(points@),
                vals.len() == i,
                prods.len() == i,
                all_canonical(vals@),
                all_valid(prods@),
                forall|q: int| 0 <= q < i ==> (#[trigger] vals[q])@ == poly_eval(self@, q + x_0) % order(),
            forall|q: int| 0 <= q < i ==> (#[trigger] prods[q])@ == ristretto_mul(vals[q]@, points[q]@),
            decreases points.len() - i,
        {
            let f_val = self.evaluate(i + x_0);
            let prod = points[i].mul(&f_val);
            proof {
                lemma_small_is_reduced(f_val@);
            }
            vals.push(f_val);
            prods.push(prod);
            i += 1;
        }
        (vals, prods)
    }

    /// For the point at position `i`, counted from zero, the encodings of the
    /// point multiplied by the value of either polynomial at `i`.
    pub fn evaluate_multiply_two_ppvss(&self, other: &Self, points: &Vec<RistrettoPoint>) -> (r: (
        Vec<CompressedRistretto>,
        Vec<CompressedRistretto>,
    ))
        requires
            all_valid(points@),
        ensures
            r.0.len() == points.len(),
            r.1.len() == points.len(),
            forall|i: int| 0 <= i < points.len() ==> (#[trigger] r.0[i])@ == ristretto_mul(
                        eval_upto(self@, i, common_len(self@, other@)) % order(),
                        points[i]@,
                    ),
            forall|i: int| 0 <= i < points.len() ==> (#[trigger] r.1[i])@ == ristretto_mul(
                        eval_upto(other@, i, common_len(self@, other@)) % order(),
                        points[i]@,
                    ),
    {
        self.evaluate_multiply_two_from(other, points, 0)
    }

    /// As `evaluate_multiply_two_ppvss`, with positions counted from one.
    pub fn evaluate_multiply_two(&self, other: &Self, points: &Vec<RistrettoPoint>) -> (r: (
        Vec<CompressedRistretto>,
        Vec<CompressedRistretto>,
    ))
        requires
            all_valid(points@),
        ensures
            r.0.len() == points.len(),
            r.1.len() == points.len(),
            forall|i: int| 0 <= i < points.len() ==> (#[trigger] r.0[i])@ == ristretto_mul(
                        eval_upto(self@, i + 1, common_len(self@, other@)) % order(),
                        points[i]@,
                    ),
            forall|i: int| 0 <= i < points.len() ==> (#[trigger] r.1[i])@ == ristretto_mul(
                        eval_upto(other@, i + 1, common_len(self@, other@)) % order(),
                        points[i]@,
                    ),
    {
        self.evaluate_multiply_two_from(other, points, 1)
    }

    /// For the point at position `i`, the encodings of the point multiplied
    /// by the value of either polynomial at `i + x_0`.
    pub fn evaluate_multiply_two_from(
        &self,
        other: &Self,
        points: &Vec<RistrettoPoint>,
        x_0: usize,
    ) -> (r: (Vec<CompressedRistretto>, Vec<CompressedRistretto>))
        requires
            all_valid(points@),
            points.len() + x_0 <= usize::MAX + 1,
        ensures
            r.0.len() == points.len(),
            r.1.len() == points.len(),
            forall|i: int| 0 <= i < points.len() ==> (#[trigger] r.0[i])@ == ristretto_mul(
                        eval_upto(self@, i + x_0, common_len(self@, other@)) % order(),
                        points[i]@,
                    ),
            forall|i: int| 0 <= i < points.len() ==> (#[trigger] r.1[i])@ == ristretto_mul(
                        eval_upto(other@, i + x_0, common_len(self@, other@)) % order(),
                        points[i]@,
                    ),
    {
        let mut out_f: Vec<CompressedRistretto> = Vec::new();
        let mut out_r: Vec<CompressedRistretto> = Vec::new();
        let mut i: usize = 0;
        while i < points.len()
            invariant
                i <= points.len(),
                points.len() + x_0 <= usize::MAX + 1,
                all_valid(points@),
                out_f.len() == i,
                out_r.len() == i,
                forall|q: int| 0 <= q < i ==> (#[trigger] out_f[q])@ == ristretto_mul(
                            eval_upto(self@, q + x_0, common_len(self@, other@)) % order(),
                            points[q]@,
                        ),
            forall|q: int| 0 <= q < i ==> (#[trigger] out_r[q])@ == ristretto_mul(
                            eval_upto(other@, q + x_0, common_len(self@, other@)) % order(),
                            points[q]@,
                        ),
            decreases points.len() - i,
        {
            let (f_val, r_val) = self.evaluate_two(other, i + x_0);
            proof {
                lemma_small_is_reduced(f_val@);
                lemma_small_is_reduced(r_val@);
            }
            out_f.push(points[i].mul(&f_val).compress());
            out_r.push(points[i].mul(&r_val).compress());
            i += 1;
        }
        (out_f, out_r)
    }

    /// The sum of two polynomials, over the coefficients that both have.
    pub fn sum(&self, p: &Polynomial) -> (r: Self)
        ensures
            r@.len() == common_len(self@, p@),
            all_canonical(r.coefficients@),
            forall|j: int| 0 <= j < r@.len() ==> #[trigger] r@[j] == (self@[j] + p@[j]) % order(),
    {
        let m = if self.coefficients.len() <= p.coefficients.len() {
            self.coefficients.len()
        } else {
            p.coefficients.len()
        };
        let mut coefs: Vec<Scalar> = Vec::new();
        let mut j: usize = 0;
        while j < m
            invariant
                j <= m,
                m <= self.coefficients.len(),
                m <= p.coefficients.len(),
                coefs.len() == j,
                all_canonical(coefs@),
                forall|q: int|
                    0 <= q < j ==> (#[trigger] coefs[q])@ == (self.coefficients[q]@
                        + p.coefficients[q]@) % order(),
            decreases m - j,
        {
            coefs.push(self.coefficients[j].add(&p.coefficients[j]));
            j += 1;
        }
        let r = Polynomial { coefficients: coefs };
        assert forall|q: int| 0 <= q < r@.len() implies #[trigger] r@[q] == (self@[q] + p@[q])
            % order() by {
            assert(r@[q] == r.coefficients[q]@);
        }
        r
    }

    /// The encodings of `point` multiplied by each coefficient.
    pub fn mul_with_point_compress(&self, point: &RistrettoPoint) -> (r: Vec<CompressedRistretto>)
        requires
            point.wf(),
        ensures
            r.len() == self.coefficients.len(),
            forall|j: int|
                0 <= j < r.len() ==> (#[trigger] r[j])@ == ristretto_mul(
                    self@[j] % order(),
                    point@,
                ),
    {
        let mut out: Vec<CompressedRistretto> = Vec::new();
        let mut j: usize = 0;
        while j < self.coefficients.len()
            invariant
                j <= self.coefficients.len(),
                point.wf(),
                out.len() == j,
                forall|q: int|
                    0 <= q < j ==> (#[trigger] out[q])@ == ristretto_mul(
                        self@[q] % order(),
                        point@,
                    ),
            decreases self.coefficients.len() - j,
        {
            assert(self@[j as int] == self.coefficients[j as int]@);
            out.push(point.mul(&self.coefficients[j]).compress());
            j += 1;
        }
        out
    }

    /// In place, over the coefficients that both have:
    /// `self[j] <- self[j] * mul_val + other[j]`.
    pub fn mul_sum(&mut self, mul_val: &Scalar, other: &Self)
        ensures
            final(self)@.len() == old(self)@.len(),
            forall|j: int|
                0 <= j < common_len(old(self)@, other@) ==> (#[trigger] final(self).coefficients[j]).wf()
                    && final(self)@[j] == (old(self)@[j] * mul_val@ + other@[j]) % order(),
            forall|j: int|
                common_len(old(self)@, other@) <= j < old(self)@.len() ==> final(self).coefficients[j]
                    == old(self).coefficients[j],
    {
        let m = if self.coefficients.len() <= other.coefficients.len() {
            self.coefficients.len()
        } else {
            other.coefficients.len()
        };
        let mut j: usize = 0;
        while j < m
            invariant
                j <= m,
                m <= self.coefficients.len(),
                m <= other.coefficients.len(),
                self.coefficients.len() == old(self).coefficients.len(),
                forall|q: int|
                    0 <= q < j ==> (#[trigger] self.coefficients[q]).wf() && self.coefficients[q]@
                        == (old(self).coefficients[q]@ * mul_val@ + other.coefficients[q]@) % order(),
                forall|q: int|
                    j <= q < self.coefficients.len() ==> self.coefficients[q] == old(
                        self,
                    ).coefficients[q],
            decreases m - j,
        {
            let scaled = self.coefficients[j].mul(mul_val);
            let updated = scaled.add(&other.coefficients[j]);
            proof {
                vstd::arithmetic::div_mod::lemma_add_mod_noop(
                    old(self).coefficients[j as int]@ * mul_val@,
                    other.coefficients[j as int]@,
                    order(),
                );
                lemma_reduced(other.coefficients[j as int]@);
                lemma_congruent_add(
                    scaled@,
                    old(self).coefficients[j as int]@ * mul_val@,
                    other.coefficients[j as int]@,
                    other.coefficients[j as int]@,
                );
                lemma_reduced(old(self).coefficients[j as int]@ * mul_val@);
            }
            self.coefficients.set(j, updated);
            j += 1;
        }
        proof {
            assert forall|q: int| 0 <= q < common_len(old(self)@, other@) implies (
            #[trigger] final(self).coefficients[q]).wf() && final(self)@[q] == (old(self)@[q]
                * mul_val@ + other@[q]) % order() by {
                assert(final(self)@[q] == self.coefficients[q]@);
                assert(old(self)@[q] == old(self).coefficients[q]@);
                assert(other@[q] == other.coefficients[q]@);
            }
        }
    }

    /// The same operation as `mul_sum`.
    pub fn mul_many_sum(&mut self, mul_val: &Scalar, other: &Self)
        ensures
            final(self)@.len() == old(self)@.len(),
            forall|j: int|
                0 <= j < common_len(old(self)@, other@) ==> (#[trigger] final(self).coefficients[j]).wf()
                    && final(self)@[j] == (old(self)@[j] * mul_val@ + other@[j]) % order(),
            forall|j: int|
                common_len(old(self)@, other@) <= j < old(self)@.len() ==> final(self).coefficients[j]
                    == old(self).coefficients[j],
    {
        self.mul_sum(mul_val, other);
    }

    /// As `sample_two_set_f0`, with a third polynomial.
    pub fn sample_three_set_f0<R: CryptoRng + RngCore>(degree: usize, f0: &Scalar, rng: &mut R) -> (r:
        (Self, Self, Self))
        requires
            degree < usize::MAX,
        ensures
            r.0.coefficients.len() == degree + 1,
            r.1.coefficients.len() == degree + 1,
            r.2.coefficients.len() == degree + 1,
            r.0.coefficients[0] == *f0,
            forall|j: int| 1 <= j <= degree ==> (#[trigger] r.0.coefficients[j]).wf(),
            all_canonical(r.1.coefficients@),
            all_canonical(r.2.coefficients@),
    {
        let mut coefs_1: Vec<Scalar> = Vec::new();
        let mut coefs_2: Vec<Scalar> = Vec::new();
        let mut coefs_3: Vec<Scalar> = Vec::new();
        let mut j: usize = 0;
        while j <= degree
            invariant
                j <= degree + 1,
                degree < usize::MAX,
                coefs_1.len() == j,
                coefs_2.len() == j,
                coefs_3.len() == j,
                all_canonical(coefs_1@),
                all_canonical(coefs_2@),
                all_canonical(coefs_3@),
            decreases degree + 1 - j,
        {
            coefs_1.push(random_scalar(rng));
            coefs_2.push(random_scalar(rng));
            coefs_3.push(random_scalar(rng));
            j += 1;
        }
        coefs_1.set(0, *f0);
        (
            Polynomial { coefficients: coefs_1 },
            Polynomial { coefficients: coefs_2 },
            Polynomial { coefficients: coefs_3 },
        )
    }

    /// In place, over the coefficients that both have:
    /// `self[j] <- self[j] + p[j]`.
    pub fn sum_in_place(&mut self, p: &Polynomial)
        ensures
            final(self)@.len() == old(self)@.len(),
            forall|j: int|
                0 <= j < common_len(old(self)@, p@) ==> (#[trigger] final(self).coefficients[j]).wf()
                    && final(self)@[j] == (old(self)@[j] + p@[j]) % order(),
            forall|j: int|
                common_len(old(self)@, p@) <= j < old(self)@.len() ==> final(self).coefficients[j]
                    == old(self).coefficients[j],
    {
        let m = if self.coefficients.len() <= p.coefficients.len() {
            self.coefficients.len()
        } else {
            p.coefficients.len()
        };
        let mut j: usize = 0;
        while j < m
            invariant
                j <= m,
                m <= self.coefficients.len(),
                m <= p.coefficients.len(),
                self.coefficients.len() == old(self).coefficients.len(),
                forall|q: int|
                    0 <= q < j ==> (#[trigger] self.coefficients[q]).wf() && self.coefficients[q]@
                        == (old(self).coefficients[q]@ + p.coefficients[q]@) % order(),
                forall|q: int|
                    j <= q < self.coefficients.len() ==> self.coefficients[q] == old(
                        self,
                    ).coefficients[q],
            decreases m - j,
        {
            let updated = self.coefficients[j].add(&p.coefficients[j]);
            self.coefficients.set(j, updated);
            j += 1;
        }
        proof {
            assert forall|q: int| 0 <= q < common_len(old(self)@, p@) implies (
            #[trigger] final(self).coefficients[q]).wf() && final(self)@[q] == (old(self)@[q]
                + p@[q]) % order() by {
                assert(final(self)@[q] == self.coefficients[q]@);
                assert(old(self)@[q] == old(self).coefficients[q]@);
                assert(p@[q] == p.coefficients[q]@);
            }
        }
    }

    /// In place, over the coefficients that both have:
    /// `self[j] <- op(self[j], other[j])`.
    pub fn op_in_place<F: Fn(Scalar, Scalar) -> Scalar>(&mut self, op: &F, other: &Self)
        requires
            forall|i: int|
                0 <= i < old(self).coefficients.len() && i < other.coefficients.len()
                    ==> call_requires(op, (old(self).coefficients[i], other.coefficients[i])),
        ensures
            applied(op, old(self).coefficients@, other.coefficients@, final(self).coefficients@),
    {
        pointwise_op_in_place(op, &mut self.coefficients, &other.coefficients);
    }

    /// In place, `op_in_place` with each of the polynomials `ps` in turn.
    pub fn op_many_in_place<F: Fn(Scalar, Scalar) -> Scalar>(&mut self, op: &F, ps: &[Polynomial])
        requires
            forall|x: Scalar, y: Scalar| call_requires(op, (x, y)),
        ensures
            applied_all(
                op,
                old(self).coefficients@,
                ps@,
                0,
                ps@.len(),
                final(self).coefficients@,
            ),
    {
        self.op_many_from(op, ps, 0);
    }

    /// In place, `op_in_place` with each of the polynomials of `ps` from the
    /// position `from` on, in turn.
    pub fn op_many_from<F: Fn(Scalar, Scalar) -> Scalar>(
        &mut self,
        op: &F,
        ps: &[Polynomial],
        from: usize,
    )
        requires
            from <= ps.len(),
            forall|x: Scalar, y: Scalar| call_requires(op, (x, y)),
        ensures
            applied_all(
                op,
                old(self).coefficients@,
                ps@,
                from as nat,
                (ps@.len() - from) as nat,
                final(self).coefficients@,
            ),
    {
        let mut k: usize = from;
        let ghost mut states: Seq<Seq<Scalar>> = seq![self.coefficients@];
        while k < ps.len()
            invariant
                from <= k <= ps.len(),
                forall|x: Scalar, y: Scalar| call_requires(op, (x, y)),
                is_chain(op, old(self).coefficients@, ps@, from as nat, (k - from) as nat, states),
                states[k - from] == self.coefficients@,
            decreases ps.len() - k,
        {
            let ghost prior = states;
            pointwise_op_in_place(op, &mut self.coefficients, &ps[k].coefficients);
            proof {
                states = states.push(self.coefficients@);
                assert forall|j: int| 0 <= j < k + 1 - from implies applied(
                    op,
                    states[j],
                    ps@[from + j].coefficients@,
                    #[trigger] states[j + 1],
                ) by {
                    if j < k - from {
                        assert(states[j] == prior[j]);
                        assert(states[j + 1] == prior[j + 1]);
                    } else {
                        assert(states[j] == prior[k - from]);
                    }
                }
            }
            k += 1;
        }
    }

    /// The first polynomial with each of the others worked into it in turn
    /// by `op`.
    pub fn fold_op<F: Fn(Scalar, Scalar) -> Scalar>(op: &F, polynomials: &Vec<Self>) -> (r: Self)
        requires
            polynomials.len() >= 1,
            forall|x: Scalar, y: Scalar| call_requires(op, (x, y)),
        ensures
            applied_all(
                op,
                polynomials[0].coefficients@,
                polynomials@,
                1,
                (polynomials@.len() - 1) as nat,
                r.coefficients@,
            ),
    {
        let mut accumulator = polynomials[0].clone();
        accumulator.op_many_from(op, polynomials.as_slice(), 1);
        accumulator
    }

    /// In place, each of the polynomials worked into `self` in turn by `op`.
    pub fn fold_op_into<F: Fn(Scalar, Scalar) -> Scalar>(&mut self, op: &F, polynomials: &Vec<Self>)
        requires
            forall|x: Scalar, y: Scalar| call_requires(op, (x, y)),
        ensures
            applied_all(
                op,
                old(self).coefficients@,
                polynomials@,
                0,
                polynomials@.len(),
                final(self).coefficients@,
            ),
    {
        self.op_many_from(op, polynomials.as_slice(), 0);
    }

    /// The polynomial with the coefficients `f(self[j], x)`.
    pub fn coef_op<F: Fn(Scalar, Scalar) -> Scalar>(&self, f: &F, x: &Scalar) -> (r: Self)
        requires
            forall|j: int|
                0 <= j < self.coefficients.len() ==> call_requires(f, (self.coefficients[j], *x)),
        ensures
            r.coefficients.len() == self.coefficients.len(),
            forall|j: int|
                0 <= j < self.coefficients.len() ==> call_ensures(
                    f,
                    (self.coefficients[j], *x),
                    #[trigger] r.coefficients[j],
                ),
    {
        let mut coefs: Vec<Scalar> = Vec::new();
        let mut j: usize = 0;
        while j < self.coefficients.len()
            invariant
                j <= self.coefficients.len(),
                forall|q: int|
                    0 <= q < self.coefficients.len() ==> call_requires(
                        f,
                        (self.coefficients[q], *x),
                    ),
                coefs.len() == j,
                forall|q: int|
                    0 <= q < j ==> call_ensures(f, (self.coefficients[q], *x), #[trigger] coefs[q]),
            decreases self.coefficients.len() - j,
        {
            coefs.push(f(self.coefficients[j], *x));
            j += 1;
        }
        Polynomial { coefficients: coefs }
    }

    /// In place, `self[j] <- f(self[j], x)`.
    pub fn coef_op_in_place<F: Fn(Scalar, Scalar) -> Scalar>(&mut self, f: &F, x: &Scalar)
        requires
            forall|j: int|
                0 <= j < old(self).coefficients.len() ==> call_requires(
                    f,
                    (old(self).coefficients[j], *x),
                ),
        ensures
            final(self).coefficients.len() == old(self).coefficients.len(),
            forall|j: int|
                0 <= j < old(self).coefficients.len() ==> call_ensures(
                    f,
                    (old(self).coefficients[j], *x),
                    #[trigger] final(self).coefficients[j],
                ),
    {
        let mut j: usize = 0;
        while j < self.coefficients.len()
            invariant
                j <= self.coefficients.len(),
                self.coefficients.len() == old(self).coefficients.len(),
                forall|q: int|
                    0 <= q < old(self).coefficients.len() ==> call_requires(
                        f,
                        (old(self).coefficients[q], *x),
                    ),
                forall|q: int|
                    0 <= q < j ==> call_ensures(
                        f,
                        (old(self).coefficients[q], *x),
                        #[trigger] self.coefficients[q],
                    ),
                forall|q: int|
                    j <= q < self.coefficients.len() ==> self.coefficients[q] == old(
                        self,
                    ).coefficients[q],
            decreases self.coefficients.len() - j,
        {
            let v = f(self.coefficients[j], *x);
            self.coefficients.set(j, v);
            j += 1;
        }
    }
}

/// `after` is `before` with `op` applied to the positions that `before` and
/// `b` both have.
pub open spec fn applied<F: Fn(Scalar, Scalar) -> Scalar>(
    op: &F,
    before: Seq<Scalar>,
    b: Seq<Scalar>,
    after: Seq<Scalar>,
) -> bool {
    &&& after.len() == before.len()
    &&& forall|i: int|
        0 <= i < before.len() && i < b.len() ==> call_ensures(
            op,
            (before[i], b[i]),
            #[trigger] after[i],
        )
    &&& forall|i: int| b.len() <= i < before.len() ==> after[i] == before[i]
}

/// `states` are the coefficient lists that a chain of `k` applications of `op`
/// goes through: from `before`, with each of the `k` polynomials from
/// position `from` on, in turn.
pub open spec fn is_chain<F: Fn(Scalar, Scalar) -> Scalar>(
    op: &F,
    before: Seq<Scalar>,
    ps: Seq<Polynomial>,
    from: nat,
    k: nat,
    states: Seq<Seq<Scalar>>,
) -> bool {
    &&& states.len() == k + 1
    &&& states[0] == before
    &&& forall|j: int|
        0 <= j < k ==> applied(op, states[j], ps[from + j].coefficients@, #[trigger] states[j + 1])
}

/// `after` is `before` with `op` applied with each of the `k` polynomials
/// from position `from` on, in turn.
pub open spec fn applied_all<F: Fn(Scalar, Scalar) -> Scalar>(
    op: &F,
    before: Seq<Scalar>,
    ps: Seq<Polynomial>,
    from: nat,
    k: nat,
    after: Seq<Scalar>,
) -> bool {
    exists|states: Seq<Seq<Scalar>>| #[trigger]
        is_chain(op, before, ps, from, k, states) && states[k as int] == after
}

} // verus!
