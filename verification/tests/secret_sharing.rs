use pvss::error::Error;
use pvss::precompute::gen_powers;
use pvss::random::{random_scalar, random_scalars};
use pvss::ristretto::RistrettoPoint;
use pvss::scalar::Scalar;
use pvss::secret_sharing::{
    decrypt_share, generate_encrypted_shares, generate_encrypted_shares_batched, generate_shares,
    generate_shares_batched, reconstruct_secret, reconstruct_secret_exponent, reconstruct_secrets,
    reconstruct_secrets_exponent, select_qualified_set,
};
use pvss::utils::{compute_lagrange_bases, compute_lagrange_basis, precompute_lambda};

#[test]
fn gen_shares() {
    let n = 128;
    let t = 63;
    let mut rng = rand::rng();

    let x_pows = gen_powers(n, t);
    let secret = random_scalar(&mut rng);

    let shares = generate_shares(&mut rng, n, t, &x_pows, &secret);

    let qualified_set = select_qualified_set(
        &mut rng,
        t,
        &Some(shares.1),
        &(0..n).collect::<Vec<usize>>(),
    )
    .unwrap();

    let indices: Vec<usize> = qualified_set.iter().map(|(index, _)| *index).collect();

    let lagrange_bases = compute_lagrange_bases(&indices);

    let q = Some(qualified_set);

    assert_eq!(secret, reconstruct_secret(&q, &lagrange_bases).unwrap());
}

#[test]
fn gen_shares_batch() {
    let n = 128;
    let t = 63;
    let k = 10;

    let mut rng = rand::rng();

    let x_pows = gen_powers(n, t);

    let secrets = random_scalars(&mut rng, k);
    let shares = generate_shares_batched(n, t, &x_pows, &secrets);

    let qualified_set = select_qualified_set(
        &mut rng,
        t,
        &Some(shares.1),
        &(0..n).collect::<Vec<usize>>(),
    )
    .unwrap();

    let indices: Vec<usize> = qualified_set.iter().map(|(index, _)| *index).collect();

    let lagrange_bases = compute_lagrange_bases(&indices);

    let q = Some(qualified_set);

    assert_eq!(secrets, reconstruct_secrets(&q, &lagrange_bases).unwrap())
}

#[test]
fn gen_encrypted_shares() {
    let n = 128;
    let t = 63;
    let mut rng = rand::rng();
    let x_pows = gen_powers(n, t);

    let private_keys = random_scalars(&mut rng, n);

    let public_keys: Vec<RistrettoPoint> = private_keys
        .iter()
        .map(|private_key| RistrettoPoint::mul_base(private_key))
        .collect();

    let secret = random_scalar(&mut rng);

    let (f, encrypted_shares) =
        generate_encrypted_shares(&mut rng, t, &x_pows, &public_keys, &secret);

    assert_eq!(f.coef_at_unchecked(0), &secret);

    let decrypted_shares: Vec<RistrettoPoint> = encrypted_shares
        .iter()
        .zip(private_keys.iter())
        .map(|(encrypted_share, private_key)| {
            decrypt_share(private_key, &encrypted_share.decompress().unwrap())
        })
        .collect();

    let qualified_set = select_qualified_set(
        &mut rng,
        t,
        &Some(decrypted_shares),
        &(0..n).collect::<Vec<usize>>(),
    )
    .unwrap();

    let indices: Vec<usize> = qualified_set.iter().map(|(index, _)| *index).collect();

    let lagrange_bases = compute_lagrange_bases(&indices);

    let q = Some(qualified_set);

    let secret_exp = RistrettoPoint::mul_base(&secret);

    assert_eq!(
        secret_exp,
        reconstruct_secret_exponent(&q, &lagrange_bases).unwrap()
    );
}

#[test]
fn gen_encrypted_shares_batch() {
    let n = 128;
    let t = 63;
    let k = 10;

    let mut rng = rand::rng();
    let x_pows = gen_powers(n, t);

    let private_keys = random_scalars(&mut rng, n);

    let public_keys: Vec<RistrettoPoint> = private_keys
        .iter()
        .map(|private_key| RistrettoPoint::mul_base(private_key))
        .collect();

    let secrets = random_scalars(&mut rng, k);

    let (_fk, encrypted_shares) =
        generate_encrypted_shares_batched(t, &x_pows, &public_keys, &secrets);

    let decrypted_shares: Vec<Vec<RistrettoPoint>> = encrypted_shares
        .iter()
        .zip(private_keys.iter())
        .map(|(encrypted_shares_i, private_key)| {
            encrypted_shares_i
                .iter()
                .map(|encrypted_share| {
                    decrypt_share(private_key, &encrypted_share.decompress().unwrap())
                })
                .collect()
        })
        .collect();

    let qualified_set = select_qualified_set(
        &mut rng,
        t,
        &Some(decrypted_shares),
        &(0..n).collect::<Vec<usize>>(),
    )
    .unwrap();

    let indices: Vec<usize> = qualified_set.iter().map(|(index, _)| *index).collect();

    let lagrange_bases = compute_lagrange_bases(&indices);

    let q = Some(qualified_set);

    let secret_exps: Vec<RistrettoPoint> = secrets
        .iter()
        .map(|secret| RistrettoPoint::mul_base(secret))
        .collect();

    assert_eq!(
        secret_exps,
        reconstruct_secrets_exponent(&q, &lagrange_bases).unwrap()
    );
}

#[test]
fn lagrange_bases_recover_the_constant_term() {
    // f(x) = 42 + 5x + 9x^2 at the nodes 2, 5, 7.
    let f = |x: u64| Scalar::from_u64(42 + 5 * x + 9 * x * x);
    let nodes = vec![2usize, 5, 7];
    let lambdas = compute_lagrange_bases(&nodes);
    let mut acc = Scalar::zero();
    for (l, x) in lambdas.iter().zip(nodes.iter()) {
        acc = acc.add(&l.mul(&f(*x as u64)));
    }
    assert_eq!(acc, Scalar::from_u64(42));
    // The coefficients add up to one.
    let sum = lambdas[0].add(&lambdas[1]).add(&lambdas[2]);
    assert_eq!(sum, Scalar::one());
    // For the nodes 1 and 2 the coefficients are 2 and -1.
    let two = compute_lagrange_bases(&vec![1, 2]);
    assert_eq!(two[0], Scalar::from_u64(2));
    assert_eq!(two[1].add(&Scalar::one()), Scalar::zero());
    assert_eq!(compute_lagrange_basis(1, &vec![1, 2]), Scalar::from_u64(2));
    let pre = precompute_lambda(3, 1);
    assert_eq!(pre[0], two[0]);
    assert_eq!(pre[1], two[1]);
    // Node 3 is outside of {1, 2}: (1 / (1 - 3)) * (2 / (2 - 3)) = 1.
    assert_eq!(pre[2], Scalar::one());
}

#[test]
fn select_qualified_set_reports_what_is_missing() {
    let mut rng = rand::rng();
    let shares: Option<Vec<Scalar>> = Some((0..16).map(Scalar::from_u64).collect());
    // Only t shares are validated.
    let validated: Vec<usize> = (0..7).collect();
    assert_eq!(
        select_qualified_set(&mut rng, 7, &shares, &validated).unwrap_err(),
        Error::InsufficientShares(7, 7)
    );
    let none: Option<Vec<Scalar>> = None;
    assert_eq!(
        select_qualified_set(&mut rng, 7, &none, &validated).unwrap_err(),
        Error::UninitializedValue("party.{shares || decrypted_shares}")
    );
    let validated: Vec<usize> = (4..13).collect();
    let q = select_qualified_set(&mut rng, 7, &shares, &validated).unwrap();
    assert_eq!(q.len(), 8);
    let mut seen: Vec<usize> = q.iter().map(|(i, _)| *i).collect();
    for (i, s) in &q {
        assert!(*i >= 5 && *i <= 13);
        assert_eq!(*s, Scalar::from_u64(*i as u64 - 1));
    }
    seen.sort();
    seen.dedup();
    assert_eq!(seen.len(), 8);
}

#[test]
fn reconstruction_without_a_qualified_set_fails() {
    let lambdas = vec![Scalar::one()];
    assert_eq!(
        reconstruct_secrets(&None, &lambdas).unwrap_err(),
        Error::UninitializedValue("party.qualified_set")
    );
    assert_eq!(
        reconstruct_secret(&None, &lambdas).unwrap_err(),
        Error::UninitializedValue("party.qualified_set")
    );
    assert_eq!(
        reconstruct_secret_exponent(&None, &lambdas).unwrap_err(),
        Error::UninitializedValue("party.qualified_set")
    );
    assert_eq!(
        reconstruct_secrets_exponent(&None, &lambdas).unwrap_err(),
        Error::UninitializedValue("party.qualified_set")
    );
    let q = Some(vec![(1usize, Scalar::from_u64(3)), (2usize, Scalar::from_u64(4))]);
    let lambdas = vec![Scalar::from_u64(2), Scalar::from_u64(5)];
    assert_eq!(reconstruct_secret(&q, &lambdas).unwrap(), Scalar::from_u64(26));
}
