use pvss::polynomial::Polynomial;
use pvss::random::random_scalar;
use pvss::scalar::Scalar;

fn poly(coefs: &[u64]) -> Polynomial {
    Polynomial {
        coefficients: coefs.iter().map(|c| Scalar::from_u64(*c)).collect(),
    }
}

#[test]
fn test_thing() {
    // f1(x) = 13x^3 + 2x^2 + 7x + 128
    let f1 = poly(&[128, 7, 2, 13]);

    // f2(x) = 81x^3 + 7x^2 + 153x + 32
    let f2 = poly(&[32, 153, 7, 81]);

    // r(x) = 7x^3 + 15x^2 + 81x + 2
    let r = poly(&[2, 81, 15, 7]);

    let f1_at_5 = f1.evaluate(5);
    let f2_at_5 = f2.evaluate(5);
    let r_at_5 = r.evaluate(5);

    assert_eq!(f1_at_5, Scalar::from_u64(1838));
    assert_eq!(f2_at_5, Scalar::from_u64(11097));
    assert_eq!(r_at_5, Scalar::from_u64(1657));

    let d1 = Scalar::from_u64(127);
    let d2 = Scalar::from_u64(17);

    // Proof step
    let mut r_test_z1 = r.clone();
    r_test_z1.compute_z(&[f1.clone()], &[d1]);

    let z1_at_5 = r_test_z1.evaluate(5);
    assert_eq!(z1_at_5, Scalar::from_u64(235083));

    let mut r_test_z2 = r.clone();
    r_test_z2.compute_z(&[f1.clone(), f2.clone()], &[d1, d2]);

    let z2_at_5 = r_test_z2.evaluate(5);
    assert_eq!(z2_at_5, Scalar::from_u64(423732));

    // Verification step below

    let potential_r_5_1 = Polynomial::compute_r_eval(&z1_at_5, &[f1_at_5], &[d1]);

    let potential_r_5_2 = Polynomial::compute_r_eval(&z2_at_5, &[f1_at_5, f2_at_5], &[d1, d2]);

    assert_eq!(potential_r_5_1, r_at_5);
    assert_eq!(potential_r_5_2, r_at_5);
}

#[test]
fn test_thing_big() {
    let mut rng = rand::rng();
    let polynomials = Polynomial::sample_n(3, 10, &mut rng);

    let (f1, f2, r) = (
        polynomials[0].clone(),
        polynomials[1].clone(),
        polynomials[2].clone(),
    );

    let f1_at_5 = f1.evaluate(5);
    let f2_at_5 = f2.evaluate(5);
    let r_at_5 = r.evaluate(5);

    let d1 = random_scalar(&mut rng);
    let d2 = random_scalar(&mut rng);

    // Proof step
    let mut r_test_z1 = r.clone();
    r_test_z1.compute_z(&[f1.clone()], &[d1]);

    let z1_at_5 = r_test_z1.evaluate(5);

    let mut r_test_z2 = r.clone();
    r_test_z2.compute_z(&[f1.clone(), f2.clone()], &[d1, d2]);

    let z2_at_5 = r_test_z2.evaluate(5);

    // Verification step below

    let potential_r_5_1 = Polynomial::compute_r_eval(&z1_at_5, &[f1_at_5], &[d1]);

    let potential_r_5_2 = Polynomial::compute_r_eval(&z2_at_5, &[f1_at_5, f2_at_5], &[d1, d2]);

    assert_eq!(potential_r_5_1, r_at_5);
    assert_eq!(potential_r_5_2, r_at_5);
}

#[test]
fn scalar_arithmetic_is_modular() {
    let a = Scalar::from_u64(7);
    let b = Scalar::from_u64(9);
    assert_eq!(a.add(&b), Scalar::from_u64(16));
    assert_eq!(a.mul(&b), Scalar::from_u64(63));
    assert_eq!(b.sub(&a), Scalar::from_u64(2));
    // 7 - 9 wraps to the order less two.
    let wrapped = a.sub(&b);
    assert_eq!(wrapped.add(&Scalar::from_u64(2)), Scalar::zero());
    assert_ne!(wrapped, a);
    let inv = a.invert();
    assert_eq!(inv.mul(&a), Scalar::one());
    assert_eq!(Scalar::zero().invert(), Scalar::zero());
    assert!(a.equals(&Scalar::from_u64(7)));
    assert!(!a.equals(&b));
}

#[test]
fn evaluate_range_agrees_with_evaluate() {
    let f = poly(&[5, 0, 3]);
    let vals = f.evaluate_range(2, 4);
    assert_eq!(vals.len(), 3);
    assert_eq!(vals[0], Scalar::from_u64(5 + 3 * 4));
    assert_eq!(vals[1], Scalar::from_u64(5 + 3 * 9));
    assert_eq!(vals[2], Scalar::from_u64(5 + 3 * 16));
    assert!(f.evaluate_range(3, 2).is_empty());
    assert_eq!(f.evaluate(0), Scalar::from_u64(5));
    assert_eq!(poly(&[]).evaluate(9), Scalar::zero());
}

#[test]
fn precomputed_rows_give_the_same_values() {
    let table = pvss::precompute::gen_powers(6, 2);
    assert_eq!(table.len(), 6);
    assert_eq!(table[2], vec![Scalar::from_u64(1), Scalar::from_u64(3), Scalar::from_u64(9)]);
    assert_eq!(table[0], vec![Scalar::one(), Scalar::one(), Scalar::one()]);
    assert_eq!(table[5][2], Scalar::from_u64(36));
    let f = poly(&[5, 1, 3]);
    assert_eq!(f.evaluate_range_precomp(&table, 1, 6), f.evaluate_range(1, 6));
    let g = poly(&[2, 4, 6]);
    let many = Polynomial::evaluate_many_range_precomp(&table, &[f.clone(), g.clone()], 1, 6);
    assert_eq!(many, Polynomial::evaluate_many_range(&[f.clone(), g.clone()], 1, 6));
    assert_eq!(many[1][1], Scalar::from_u64(2 + 8 + 24));
    assert_eq!(f.evaluate_precomp(&table, 4), Scalar::from_u64(5 + 4 + 48));
    assert_eq!(f.evaluate_range_precomp(&table, 6, 6), vec![Scalar::from_u64(5 + 6 + 108)]);
    assert!(f.evaluate_range_precomp(&table, 4, 3).is_empty());
    assert!(pvss::precompute::check_table(&table, 6, 2));
    assert!(!pvss::precompute::check_table(&table, 6, 3));
    assert!(!pvss::precompute::check_table(&table, 5, 2));
    assert!(!pvss::precompute::check_table(&table, 7, 2));
    assert!(pvss::precompute::gen_powers(0, 2).is_empty());
}

#[test]
fn sample_n_set_f0_counts_the_constant_terms() {
    let secrets = vec![Scalar::from_u64(42), Scalar::from_u64(7)];
    let ps = Polynomial::sample_n_set_f0(2, 4, &secrets).unwrap();
    assert_eq!(ps.len(), 2);
    assert_eq!(ps[0].len(), 5);
    assert_eq!(ps[0].coefficients[0], secrets[0]);
    assert_eq!(ps[1].coefficients[0], secrets[1]);
    let err = Polynomial::sample_n_set_f0(3, 4, &secrets).unwrap_err();
    assert_eq!(err, pvss::error::Error::CountMismatch(3, "degree", 2, "f0 values"));
}

#[test]
fn coefficient_access() {
    let f = poly(&[5, 1, 3]);
    assert_eq!(f.len(), 3);
    assert_eq!(f.coef_at(0), Some(Scalar::from_u64(5)));
    assert_eq!(f.coef_at(1), Some(Scalar::from_u64(1)));
    assert_eq!(f.coef_at(2), Some(Scalar::from_u64(3)));
    assert_eq!(f.coef_at(3), None);
    assert_eq!(Polynomial::from_coefficients(vec![]).coef_at(0), None);
    assert_eq!(*f.coef_at_unchecked(2), Scalar::from_u64(3));
    assert_eq!(f.coef_ref().len(), 3);
    let mut g = Polynomial::from_coefficients(vec![Scalar::one()]);
    g.coef_mut().push(Scalar::from_u64(2));
    assert_eq!(g.evaluate(3), Scalar::from_u64(7));
}

#[test]
fn sums_and_scaled_sums() {
    let f = poly(&[1, 2, 3]);
    let g = poly(&[10, 20]);
    assert_eq!(f.sum(&g), poly(&[11, 22]));
    let mut h = poly(&[1, 2, 3]);
    h.mul_sum(&Scalar::from_u64(5), &g);
    assert_eq!(h, poly(&[15, 30, 3]));
    let mut h2 = poly(&[1, 2, 3]);
    h2.mul_many_sum(&Scalar::from_u64(5), &g);
    assert_eq!(h2, h);
    let (a, b) = f.evaluate_two_range(&g, 1, 2);
    assert_eq!(a, vec![Scalar::from_u64(3), Scalar::from_u64(5)]);
    assert_eq!(b, vec![Scalar::from_u64(30), Scalar::from_u64(50)]);
}
