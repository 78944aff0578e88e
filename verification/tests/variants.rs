use pvss::error::{Error, ProofDefect};
use pvss::polynomial::Polynomial;
use pvss::precompute::gen_powers;
use pvss::random::{random_point, random_points, random_scalar, random_scalars};
use pvss::ristretto::{CompressedRistretto, RistrettoPoint};
use pvss::scalar::Scalar;
use pvss::secret_sharing::{reconstruct_secrets, select_qualified_set};
use pvss::transcript::Transcript;
use pvss::utils::{compute_lagrange_bases, ingest_public_keys};
use rand_chacha::rand_core::SeedableRng;
use rand_chacha::ChaCha20Rng;

#[test]
fn b_feldman_end_to_end() {
    const N: usize = 16;
    const T: usize = 7;
    const K: usize = 3;

    let mut rng = rand::rng();

    let generator: RistrettoPoint = random_point(&mut rng);
    let g: Vec<RistrettoPoint> = random_points(&mut rng, K);

    let xpows = gen_powers(N, T);

    let mut parties = pvss::b_feldman::party::generate_parties(&generator, &g, &mut rng, N, T);

    let public_keys: Vec<CompressedRistretto> =
        parties.iter().map(|party| party.public_key.0).collect();

    let mut dealer = pvss::b_feldman::dealer::Dealer::new(g, N, T, &public_keys).unwrap();

    for party in &mut parties {
        let public_keys: Vec<CompressedRistretto> = public_keys
            .iter()
            .filter(|pk| &party.public_key.0 != *pk)
            .copied()
            .collect();

        party.public_keys = Some(
            ingest_public_keys(N, &party.public_key.1, party.index, &public_keys).unwrap(),
        );
    }

    let secrets = random_scalars(&mut rng, K);

    let (shares, c_vals) = dealer.deal_secret(&xpows, &secrets);

    for p in &mut parties {
        p.ingest_dealer_proof(&c_vals).unwrap();

        p.ingest_share(&shares[p.index - 1]);
        assert!(
            p.verify_share().unwrap(),
            "individual share verification failure"
        );
        println!("pass own share: {}", p.index);

        p.ingest_shares(&shares).unwrap();

        assert!(p.verify_shares().unwrap(), "share verification failure");

        p.qualified_set =
            Some(select_qualified_set(&mut rng, p.t, &p.shares, &p.validated_shares).unwrap());

        let indices: Vec<usize> = p
            .qualified_set
            .as_ref()
            .unwrap()
            .iter()
            .map(|(index, _)| *index)
            .collect();

        let lagrange_bases = compute_lagrange_bases(&indices);

        let sec = reconstruct_secrets(&p.qualified_set, &lagrange_bases).unwrap();

        assert!(secrets == sec, "Invalid Reconstructed Secret");
    }
}

#[test]
fn b_feldman_rejects_a_changed_share() {
    let mut rng = ChaCha20Rng::seed_from_u64(61);
    let generator = random_point(&mut rng);
    let g = random_points(&mut rng, 2);
    let xpows = gen_powers(4, 1);
    let mut parties = pvss::b_feldman::party::generate_parties(&generator, &g, &mut rng, 4, 1);
    let public_keys: Vec<CompressedRistretto> = parties.iter().map(|p| p.public_key.0).collect();
    let mut dealer = pvss::b_feldman::dealer::Dealer::new(g, 4, 1, &public_keys).unwrap();
    let secrets = vec![Scalar::from_u64(42), Scalar::from_u64(7)];
    let (mut shares, c_vals) = dealer.deal_secret(&xpows, &secrets);
    assert_eq!(c_vals.len(), 2);
    shares[2][0] = shares[2][0].add(&Scalar::one());
    let p = &mut parties[0];
    assert_eq!(p.verify_share().unwrap_err(), Error::UninitializedValue("party.dealer_proof"));
    assert_eq!(
        p.ingest_dealer_proof(&c_vals[..1].to_vec()).unwrap_err(),
        Error::InvalidProof(ProofDefect::CommitmentCount { len: 1, expected: 2 })
    );
    p.ingest_dealer_proof(&c_vals).unwrap();
    assert_eq!(p.verify_share().unwrap_err(), Error::UninitializedValue("party.share"));
    p.ingest_share(&shares[0]);
    assert!(p.verify_share().unwrap());
    assert_eq!(
        p.ingest_shares(&shares[..3].to_vec()).unwrap_err(),
        Error::CountMismatch(4, "parties", 3, "ingestable shares")
    );
    p.ingest_shares(&shares).unwrap();
    assert!(p.verify_shares().unwrap());
    assert_eq!(p.validated_shares, vec![0, 1, 3]);
}

#[test]
fn b_pedersen_end_to_end() {
    const N: usize = 16;
    const T: usize = 7;
    const K: usize = 3;

    let mut rng = rand::rng();

    let generator: RistrettoPoint = random_point(&mut rng);
    let g: Vec<RistrettoPoint> = random_points(&mut rng, K);

    let g0: RistrettoPoint = random_point(&mut rng);

    let xpows = gen_powers(N, T);

    let mut parties = pvss::b_pedersen::party::generate_parties(&generator, &g, &g0, &mut rng, N, T);

    let public_keys: Vec<CompressedRistretto> =
        parties.iter().map(|party| party.public_key.0).collect();

    let mut dealer = pvss::b_pedersen::dealer::Dealer::new(g, g0, N, T, &public_keys).unwrap();

    for party in &mut parties {
        let public_keys: Vec<CompressedRistretto> = public_keys
            .iter()
            .filter(|pk| &party.public_key.0 != *pk)
            .copied()
            .collect();

        party.public_keys = Some(
            ingest_public_keys(N, &party.public_key.1, party.index, &public_keys).unwrap(),
        );
    }

    let secrets = random_scalars(&mut rng, K);

    let (shares, (r_evals, c_vals)) = dealer.deal_secret(&mut rng, &xpows, &secrets);

    for p in &mut parties {
        p.ingest_dealer_proof(&c_vals).unwrap();

        p.ingest_share((&shares[p.index - 1], &r_evals[p.index - 1]));
        assert!(
            p.verify_share().unwrap(),
            "individual share verification failure"
        );
        println!("pass own share: {}", p.index);

        p.ingest_shares((&shares, &r_evals)).unwrap();

        assert!(p.verify_shares().unwrap(), "share verification failure");

        let party_shares = p
            .shares
            .as_ref()
            .unwrap()
            .iter()
            .map(|(p_share, _)| p_share.clone())
            .collect();

        p.qualified_set = Some(
            select_qualified_set(&mut rng, p.t, &Some(party_shares), &p.validated_shares)
                .unwrap(),
        );

        let indices: Vec<usize> = p
            .qualified_set
            .as_ref()
            .unwrap()
            .iter()
            .map(|(index, _)| *index)
            .collect();

        let lagrange_bases = compute_lagrange_bases(&indices);

        let sec = reconstruct_secrets(&p.qualified_set, &lagrange_bases).unwrap();

        assert!(secrets == sec, "Invalid Reconstructed Secret");
    }
}

#[test]
fn b_pedersen_small_session() {
    let mut rng = ChaCha20Rng::seed_from_u64(62);
    let generator = random_point(&mut rng);
    let g = random_points(&mut rng, 2);
    let g0 = random_point(&mut rng);
    let xpows = gen_powers(4, 1);
    let mut parties = pvss::b_pedersen::party::generate_parties(&generator, &g, &g0, &mut rng, 4, 1);
    let public_keys: Vec<CompressedRistretto> = parties.iter().map(|p| p.public_key.0).collect();
    let mut dealer = pvss::b_pedersen::dealer::Dealer::new(g, g0, 4, 1, &public_keys).unwrap();
    let secrets = vec![Scalar::from_u64(42), Scalar::from_u64(7)];
    let (shares, (mut r_evals, c_vals)) = dealer.deal_secret(&mut rng, &xpows, &secrets);
    r_evals[1] = r_evals[1].add(&Scalar::one());
    let p = &mut parties[2];
    p.ingest_dealer_proof(&c_vals).unwrap();
    p.ingest_share((&shares[2], &r_evals[2]));
    assert!(p.verify_share().unwrap());
    p.ingest_shares((&shares, &r_evals)).unwrap();
    assert!(p.verify_shares().unwrap());
    assert_eq!(p.validated_shares, vec![0, 2, 3]);
    p.select_qualified_set(&mut rng).unwrap();
    let indices: Vec<usize> = p.qualified_set.as_ref().unwrap().iter().map(|(i, _)| *i).collect();
    assert!(!indices.contains(&2));
    let lambdas = compute_lagrange_bases(&indices);
    assert_eq!(p.reconstruct_secrets(&lambdas).unwrap(), secrets);
}

#[test]
fn b_pi_f_session() {
    const N: usize = 8;
    const T: usize = 3;
    let mut rng = ChaCha20Rng::seed_from_u64(63);
    let mut hasher = Transcript::new();
    let mut buf = [0u8; 64];
    let generator = random_point(&mut rng);
    let g = random_points(&mut rng, 2);
    let g0 = random_point(&mut rng);
    let xpows = gen_powers(N, T);
    let mut parties = pvss::b_pi_f::party::generate_parties(&generator, &g, &g0, &mut rng, N, T);
    let public_keys: Vec<CompressedRistretto> = parties.iter().map(|p| p.public_key.0).collect();
    let mut dealer = pvss::b_pi_f::dealer::Dealer::new(g, g0, N, T, &public_keys).unwrap();
    let secrets = vec![Scalar::from_u64(42), Scalar::from_u64(7)];
    let (mut shares, (c_vals, z)) =
        dealer.deal_secret(&mut rng, &mut hasher, &mut buf, &xpows, &secrets);
    assert_eq!(buf, [0u8; 64]);
    assert_eq!(c_vals.len(), N);
    for p in parties.iter_mut().take(2) {
        p.ingest_dealer_proof((&c_vals, &z)).unwrap();
        p.ingest_share(&shares[p.index - 1]);
        assert!(p.verify_share(&mut hasher, &mut buf, &xpows).unwrap());
        p.ingest_shares(&shares).unwrap();
        assert!(p.verify_shares(&mut hasher, &mut buf, &xpows).unwrap());
        assert_eq!(p.validated_shares, (0..N).collect::<Vec<usize>>());
        p.qualified_set =
            Some(select_qualified_set(&mut rng, p.t, &p.shares, &p.validated_shares).unwrap());
        let indices: Vec<usize> =
            p.qualified_set.as_ref().unwrap().iter().map(|(i, _)| *i).collect();
        let lambdas = compute_lagrange_bases(&indices);
        assert_eq!(reconstruct_secrets(&p.qualified_set, &lambdas).unwrap(), secrets);
    }
    shares[5][1] = shares[5][1].add(&Scalar::one());
    let p = &mut parties[2];
    p.ingest_dealer_proof((&c_vals, &z)).unwrap();
    p.ingest_shares(&shares).unwrap();
    assert!(p.verify_shares(&mut hasher, &mut buf, &xpows).unwrap());
    assert_eq!(p.validated_shares, vec![0, 1, 2, 3, 4, 6, 7]);
    let mut bad = c_vals.clone();
    bad[1] = CompressedRistretto { bytes: [0xff; 32] };
    assert_eq!(
        parties[3].ingest_dealer_proof((&bad, &z)).unwrap_err(),
        Error::PointDecompressionError([0xff; 32])
    );
}

#[test]
fn b_pi_p_plus_session() {
    const N: usize = 8;
    const T: usize = 3;
    let mut rng = ChaCha20Rng::seed_from_u64(64);
    let mut hasher = Transcript::new();
    let mut buf = [0u8; 64];
    let generator = random_point(&mut rng);
    let g1 = random_point(&mut rng);
    let g2 = random_point(&mut rng);
    let xpows = gen_powers(N, T);
    let mut parties = pvss::b_pi_p_plus::party::generate_parties(&generator, &g1, &g2, &mut rng, N, T);
    let public_keys: Vec<CompressedRistretto> = parties.iter().map(|p| p.public_key.0).collect();
    let mut dealer = pvss::b_pi_p_plus::dealer::Dealer::new(g1, g2, N, T, &public_keys).unwrap();
    let secrets = vec![Scalar::from_u64(42), Scalar::from_u64(7), Scalar::from_u64(99)];
    let (mut shares, (gammas, c_vals, z)) =
        dealer.deal_secret(&mut rng, &mut hasher, &mut buf, &xpows, &secrets);
    assert_eq!(buf, [0u8; 64]);
    for p in parties.iter_mut().take(2) {
        p.ingest_dealer_proof((&c_vals, &z)).unwrap();
        p.ingest_share((&shares[p.index - 1], &gammas[p.index - 1]));
        assert!(p.verify_share(&mut hasher, &mut buf, &xpows).unwrap());
        p.ingest_shares((&shares, &gammas)).unwrap();
        assert!(p.verify_shares(&mut hasher, &mut buf, &xpows).unwrap());
        assert_eq!(p.validated_shares, (0..N).collect::<Vec<usize>>());
        let party_shares: Vec<Vec<Scalar>> =
            p.shares.as_ref().unwrap().iter().map(|(s, _)| s.clone()).collect();
        p.qualified_set = Some(
            select_qualified_set(&mut rng, p.t, &Some(party_shares), &p.validated_shares).unwrap(),
        );
        let indices: Vec<usize> =
            p.qualified_set.as_ref().unwrap().iter().map(|(i, _)| *i).collect();
        let lambdas = compute_lagrange_bases(&indices);
        assert_eq!(reconstruct_secrets(&p.qualified_set, &lambdas).unwrap(), secrets);
    }
    shares[0][2] = shares[0][2].add(&Scalar::one());
    let p = &mut parties[2];
    p.ingest_dealer_proof((&c_vals, &z)).unwrap();
    p.ingest_shares((&shares, &gammas)).unwrap();
    assert!(p.verify_shares(&mut hasher, &mut buf, &xpows).unwrap());
    assert_eq!(p.validated_shares, vec![1, 2, 3, 4, 5, 6, 7]);
    assert_eq!(
        p.ingest_shares((&shares, &gammas[..7].to_vec())).unwrap_err(),
        Error::CountMismatch(8, "parties", 8, "ingestable shares")
    );
}

#[test]
fn pi_la_session() {
    const N: usize = 16;
    const T: usize = 7;
    let mut rng = ChaCha20Rng::seed_from_u64(65);
    let mut hasher = Transcript::new();
    let mut buf = [0u8; 64];
    let g = random_point(&mut rng);
    let xpows = gen_powers(N, T);
    let mut parties = pvss::pi_la::party::generate_parties(&g, &mut rng, N, T);
    let public_keys: Vec<CompressedRistretto> = parties.iter().map(|p| p.public_key.0).collect();
    let mut dealer = pvss::pi_la::dealer::Dealer::new(N, T, &public_keys).unwrap();
    let secret = random_scalar(&mut rng);
    let (mut shares, (c_vals, z)) =
        dealer.deal_secret(&mut rng, &mut hasher, &mut buf, &xpows, &secret);
    for p in &mut parties {
        p.ingest_dealer_proof((&c_vals, &z)).unwrap();
        p.ingest_share(&shares[p.index - 1]);
        assert!(p.verify_share(&mut hasher, &mut buf, &xpows).unwrap(), "share verification failure");
        p.ingest_shares(&shares).unwrap();
        assert!(
            p.verify_shares(&mut hasher, &mut buf, &xpows).unwrap(),
            "others share verification failure"
        );
        p.qualified_set =
            Some(select_qualified_set(&mut rng, p.t, &p.shares, &p.validated_shares).unwrap());
        let indices: Vec<usize> =
            p.qualified_set.as_ref().unwrap().iter().map(|(i, _)| *i).collect();
        let lagrange_bases = compute_lagrange_bases(&indices);
        let sec = pvss::secret_sharing::reconstruct_secret(&p.qualified_set, &lagrange_bases).unwrap();
        assert!(secret == sec, "Invalid Reconstructed Secret");
    }
    shares[9] = shares[9].add(&Scalar::one());
    let p = &mut parties[0];
    p.ingest_shares(&shares).unwrap();
    assert!(p.verify_shares(&mut hasher, &mut buf, &xpows).unwrap());
    assert_eq!(p.validated_shares.len(), 15);
    assert!(!p.validated_shares.contains(&9));
    p.select_qualified_set(&mut rng).unwrap();
    let indices: Vec<usize> = p.qualified_set.as_ref().unwrap().iter().map(|(i, _)| *i).collect();
    let lambdas = compute_lagrange_bases(&indices);
    assert_eq!(p.reconstruct_secret(&lambdas).unwrap(), secret);
}

#[test]
fn pi_p_session() {
    const N: usize = 8;
    const T: usize = 3;
    let mut rng = ChaCha20Rng::seed_from_u64(66);
    let mut hasher = Transcript::new();
    let mut buf = [0u8; 64];
    let generator = random_point(&mut rng);
    let g1 = random_point(&mut rng);
    let g2 = random_point(&mut rng);
    let g3 = random_point(&mut rng);
    let mut parties = pvss::pi_p::utils::generate_parties(&generator, &g1, &g2, &g3, &mut rng, N, T);
    let public_keys: Vec<CompressedRistretto> = parties.iter().map(|p| p.public_key.0).collect();
    let mut dealer = pvss::pi_p::dealer::Dealer::new(g1, g2, g3, N, T, &public_keys).unwrap();
    for party in &mut parties {
        let others: Vec<CompressedRistretto> =
            public_keys.iter().filter(|pk| &party.public_key.0 != *pk).copied().collect();
        party.ingest_public_keys(&others).unwrap();
    }
    let secret = random_scalar(&mut rng);
    let ((mut f_evals, gammas), (c_vals, z)) =
        dealer.deal_secret(&mut rng, &mut hasher, &mut buf, &secret).unwrap();
    assert_eq!(dealer.publish_f0(), secret);
    for p in parties.iter_mut().take(3) {
        p.ingest_share((&f_evals[p.index - 1], &gammas[p.index - 1]));
        p.ingest_dealer_proof((&c_vals, &z)).unwrap();
        assert!(p.verify_share(&mut hasher, &mut buf).unwrap(), "own share verification failure");
        p.ingest_shares(&(f_evals.clone(), gammas.clone())).unwrap();
        assert!(
            p.verify_shares(&mut hasher, &mut buf).unwrap(),
            "others share verification failure"
        );
        p.select_qualified_set(&mut rng).unwrap();
        let indices: Vec<usize> =
            p.qualified_set.as_ref().unwrap().iter().map(|(i, _)| *i).collect();
        let lambdas = compute_lagrange_bases(&indices);
        let sec = p.reconstruct_secret(&lambdas).unwrap();
        assert!(secret == sec, "Invalid Reconstructed Secret");
    }
    f_evals[4] = f_evals[4].add(&Scalar::one());
    let p = &mut parties[7];
    p.ingest_dealer_proof((&c_vals, &z)).unwrap();
    p.ingest_shares(&(f_evals, gammas)).unwrap();
    assert!(p.verify_shares(&mut hasher, &mut buf).unwrap());
    assert_eq!(p.validated_shares, vec![0, 1, 2, 3, 5, 6, 7]);
    let keys = pvss::pi_p::utils::generate_public_keys(&generator, &mut rng, 3);
    assert_eq!(keys.len(), 3);
    assert!(keys.iter().all(|k| k.decompress().is_some()));
}

#[test]
fn pi_f_dealer_commits_to_shares() {
    const N: usize = 4;
    const T: usize = 1;
    let mut rng = ChaCha20Rng::seed_from_u64(67);
    let mut hasher = Transcript::new();
    let mut buf = [0u8; 64];
    let g1 = random_point(&mut rng);
    let g2 = random_point(&mut rng);
    let xpows = gen_powers(N, T);
    let public_keys: Vec<CompressedRistretto> =
        random_points(&mut rng, N).iter().map(|p| p.compress()).collect();
    let mut dealer = pvss::pi_f::dealer::Dealer::new(g1, g2, N, T, &public_keys).unwrap();
    assert_eq!(dealer.t(), 1);
    let secret = Scalar::from_u64(42);
    let (shares, (c_vals, z)) = dealer.deal_secret(&mut rng, &mut hasher, &mut buf, &xpows, &secret);
    assert_eq!(shares.len(), N);
    assert_eq!(c_vals.len(), N);
    assert_eq!(z.len(), T + 1);
    // The commitments give the challenge, and z(i) - d * f(i) opens each of them.
    let d = pvss::utils::compute_d_from_point_commitments(&mut hasher, &mut buf, &c_vals);
    for i in 0..N {
        let r_i = Polynomial::compute_r_eval(&z.evaluate(i + 1), &[shares[i]], &[d]);
        let c = g1.mul(&shares[i]).add(&g2.mul(&r_i));
        assert_eq!(c.compress(), c_vals[i]);
    }
    // Two shares give the secret back.
    let lambdas = compute_lagrange_bases(&vec![2, 4]);
    let sec = lambdas[0].mul(&shares[1]).add(&lambdas[1].mul(&shares[3]));
    assert_eq!(sec, secret);
}

#[test]
fn public_verifiability_from_public_data_alone() {
    const N: usize = 8;
    const T: usize = 3;
    let mut rng = ChaCha20Rng::seed_from_u64(68);
    let mut hasher = Transcript::new();
    let mut buf = [0u8; 64];
    let xpows = gen_powers(N, T);
    let public_points = random_points(&mut rng, N);
    let public_keys: Vec<CompressedRistretto> = public_points.iter().map(|p| p.compress()).collect();
    let mut dealer = pvss::pi_s::dealer::Dealer::new(N, T, &public_keys).unwrap();
    let secret = Scalar::from_u64(42);
    let (enc, (d, z)) = dealer.deal_secret(&mut rng, &mut hasher, &mut buf, &xpows, &secret);
    let decoded: Vec<RistrettoPoint> = enc.iter().map(|c| c.decompress().unwrap()).collect();
    let okay = pvss::pi_p::utils::verify_encrypted_shares_standalone(
        &(enc.clone(), decoded.clone()),
        &public_points,
        (&d, &z),
        &mut hasher,
        &mut buf,
    )
    .unwrap();
    assert!(okay);
    assert_eq!(buf, [0u8; 64]);
    // Any single changed encrypted share is rejected.
    for i in 0..N {
        let mut changed = enc.clone();
        changed[i] = public_keys[i];
        let decoded: Vec<RistrettoPoint> = changed.iter().map(|c| c.decompress().unwrap()).collect();
        let okay = pvss::pi_p::utils::verify_encrypted_shares_standalone(
            &(changed, decoded),
            &public_points,
            (&d, &z),
            &mut hasher,
            &mut buf,
        )
        .unwrap();
        assert!(!okay);
    }
    assert_eq!(
        pvss::pi_p::utils::verify_encrypted_shares_standalone(
            &(enc.clone(), decoded[..7].to_vec()),
            &public_points,
            (&d, &z),
            &mut hasher,
            &mut buf,
        )
        .unwrap_err(),
        Error::CountMismatch(8, "encrypted_shares.0", 7, "encrypted_shares.1")
    );
    assert_eq!(
        pvss::pi_p::utils::verify_encrypted_shares_standalone(
            &(enc, decoded),
            &public_points[..7].to_vec(),
            (&d, &z),
            &mut hasher,
            &mut buf,
        )
        .unwrap_err(),
        Error::CountMismatch(7, "public_keys", 8, "encrypted_shares")
    );
}

