use pvss::b_pi_s::dealer::Dealer;
use pvss::b_pi_s::party::generate_parties;
use pvss::error::{Error, ProofDefect};
use pvss::polynomial::Polynomial;
use pvss::precompute::gen_powers;
use pvss::random::{random_point, random_scalars};
use pvss::ristretto::{CompressedRistretto, RistrettoPoint};
use pvss::scalar::Scalar;
use pvss::transcript::Transcript;
use pvss::utils::compute_lagrange_bases;
use rand_chacha::rand_core::SeedableRng;
use rand_chacha::ChaCha20Rng;

// A session of sixteen parties with threshold seven and three secrets. Every
// party runs the same checks; one test runs them for eight parties, to keep each
// test short, and the two tests together run them for all.
fn end_to_end(first: usize) {
    const N: usize = 16;
    const T: usize = 7;
    const K: usize = 3;

    let mut rng = rand::rng();
    let mut hasher = Transcript::new();
    let mut buf = [0u8; 64];

    let g: RistrettoPoint = random_point(&mut rng);

    let xpows = gen_powers(N, T);

    let mut parties = generate_parties(&g, &mut rng, N, T);

    let public_keys: Vec<CompressedRistretto> =
        parties.iter().map(|party| party.public_key.0).collect();

    let mut dealer = Dealer::new(N, T, &public_keys).unwrap();

    for party in &mut parties {
        let public_keys: Vec<CompressedRistretto> = public_keys
            .iter()
            .filter(|pk| &party.public_key.0 != *pk)
            .copied()
            .collect();

        party.ingest_public_keys(&public_keys).unwrap();
    }

    let secrets = random_scalars(&mut rng, K);

    let (shares, (c_vals, z)) =
        dealer.deal_secrets(&mut rng, &mut hasher, &mut buf, &xpows, &secrets);

    for p in &mut parties {
        p.ingest_dealer_proof((&c_vals, &z)).unwrap();

        p.ingest_encrypted_shares(&shares).unwrap();
    }

    for p in &mut parties[first - 1..first + 7] {
        let verif_result = p
            .verify_encrypted_shares(&mut hasher, &mut buf, &xpows)
            .unwrap();

        assert!(verif_result, "share verification failure");
    }

    let (decrypted_shares, share_proofs): (
        Vec<Vec<CompressedRistretto>>,
        Vec<Vec<(Scalar, Scalar)>>,
    ) = parties
        .iter_mut()
        .map(|p| {
            p.decrypt_shares().unwrap();
            p.dleq_share(&g, &mut rng, &mut hasher, &mut buf).unwrap();

            (
                p.decrypted_share
                    .clone()
                    .unwrap()
                    .iter()
                    .map(|ds| ds.compress())
                    .collect(),
                p.share_proof.clone().unwrap(),
            )
        })
        .collect();

    for p in &mut parties[first - 1..first + 7] {
        let (mut decrypted_shares, mut share_proofs) =
            (decrypted_shares.clone(), share_proofs.clone());

        decrypted_shares.remove(p.index - 1);
        share_proofs.remove(p.index - 1);
        p.ingest_decrypted_shares_and_proofs(&decrypted_shares, share_proofs)
            .unwrap();

        assert!(p.verify_decrypted_shares(&g).unwrap());
        assert_eq!(p.validated_shares, (0..N).collect::<Vec<usize>>());

        p.select_qualified_set(&mut rng).unwrap();

        let indices: Vec<usize> = p
            .qualified_set
            .as_ref()
            .unwrap()
            .iter()
            .map(|(index, _)| *index)
            .collect();

        let lagrange_bases = compute_lagrange_bases(&indices);

        let sec = p.reconstruct_secrets(&lagrange_bases).unwrap();
        sec.iter()
            .zip(secrets.iter())
            .for_each(|(secret, dealer_secret)| assert_eq!(g.mul(dealer_secret), *secret));
    }
}

#[test]
fn b_pi_s_end_to_end() {
    end_to_end(1);
}

#[test]
fn b_pi_s_end_to_end_parties_9_to_16() {
    end_to_end(9);
}

#[test]
fn b_pi_s_rejects_a_changed_share_and_a_forged_decryption() {
    const N: usize = 4;
    const T: usize = 1;
    let mut rng = ChaCha20Rng::seed_from_u64(41);
    let mut hasher = Transcript::new();
    let mut buf = [0u8; 64];
    let g = random_point(&mut rng);
    let xpows = gen_powers(N, T);
    let mut parties = generate_parties(&g, &mut rng, N, T);
    let public_keys: Vec<CompressedRistretto> = parties.iter().map(|p| p.public_key.0).collect();
    let mut dealer = Dealer::new(N, T, &public_keys).unwrap();
    for party in &mut parties {
        let others: Vec<CompressedRistretto> =
            public_keys.iter().filter(|pk| &party.public_key.0 != *pk).copied().collect();
        party.ingest_public_keys(&others).unwrap();
    }
    let secrets = vec![Scalar::from_u64(42), Scalar::from_u64(7)];
    let (shares, (d, z)) = dealer.deal_secrets(&mut rng, &mut hasher, &mut buf, &xpows, &secrets);
    assert_eq!(buf, [0u8; 64]);

    // Every check of the honest dealing passes.
    parties[0].ingest_dealer_proof((&d, &z)).unwrap();
    parties[0].ingest_encrypted_shares(&shares).unwrap();
    assert!(parties[0].verify_encrypted_shares(&mut hasher, &mut buf, &xpows).unwrap());

    // A changed encrypted share is rejected.
    let mut changed = shares.clone();
    changed[2][1] = changed[2][0];
    parties[1].ingest_dealer_proof((&d, &z)).unwrap();
    parties[1].ingest_encrypted_shares(&changed).unwrap();
    assert!(!parties[1].verify_encrypted_shares(&mut hasher, &mut buf, &xpows).unwrap());

    // A changed polynomial is rejected.
    let mut z_bad = z.clone();
    z_bad.coefficients[1] = z_bad.coefficients[1].add(&Scalar::one());
    parties[2].ingest_dealer_proof((&d, &z_bad)).unwrap();
    parties[2].ingest_encrypted_shares(&shares).unwrap();
    assert!(!parties[2].verify_encrypted_shares(&mut hasher, &mut buf, &xpows).unwrap());

    // Decryption, proofs, and a forged decrypted share.
    for p in &mut parties {
        p.ingest_encrypted_shares(&shares).unwrap();
        p.decrypt_shares().unwrap();
        p.dleq_share(&g, &mut rng, &mut hasher, &mut buf).unwrap();
    }
    let expected = parties[0].encrypted_share.as_ref().unwrap()[0].mul(&parties[0].private_key.invert());
    assert_eq!(parties[0].decrypted_share.as_ref().unwrap()[0], expected);
    let mut dec: Vec<Vec<CompressedRistretto>> = parties
        .iter()
        .map(|p| p.decrypted_share.as_ref().unwrap().iter().map(|x| x.compress()).collect())
        .collect();
    let mut proofs: Vec<Vec<(Scalar, Scalar)>> =
        parties.iter().map(|p| p.share_proof.clone().unwrap()).collect();
    dec[3][0] = dec[3][1];
    dec.remove(0);
    proofs.remove(0);
    let p = &mut parties[0];
    p.ingest_decrypted_shares_and_proofs(&dec, proofs).unwrap();
    assert!(p.verify_decrypted_shares(&g).unwrap());
    assert_eq!(p.validated_shares, vec![0, 1, 2]);
    p.select_qualified_set(&mut rng).unwrap();
    let indices: Vec<usize> = p.qualified_set.as_ref().unwrap().iter().map(|(i, _)| *i).collect();
    assert!(!indices.contains(&4));
    let lambdas = compute_lagrange_bases(&indices);
    let sec = p.reconstruct_secrets(&lambdas).unwrap();
    assert_eq!(sec, vec![g.mul(&Scalar::from_u64(42)), g.mul(&Scalar::from_u64(7))]);
}

#[test]
fn b_pi_s_reports_what_is_missing() {
    let mut rng = ChaCha20Rng::seed_from_u64(42);
    let mut hasher = Transcript::new();
    let mut buf = [0u8; 64];
    let g = random_point(&mut rng);
    let xpows = gen_powers(4, 1);
    let mut parties = generate_parties(&g, &mut rng, 4, 1);
    let p = &mut parties[1];
    assert_eq!(
        p.verify_encrypted_shares(&mut hasher, &mut buf, &xpows).unwrap_err(),
        Error::UninitializedValue("party.dealer_proof")
    );
    let z = Polynomial { coefficients: vec![Scalar::one(); 3] };
    assert_eq!(
        p.ingest_dealer_proof((&Scalar::one(), &z)).unwrap_err(),
        Error::InvalidProof(ProofDefect::PolynomialLength { len: 3, t: 1 })
    );
    let z = Polynomial { coefficients: vec![Scalar::one(); 2] };
    p.ingest_dealer_proof((&Scalar::one(), &z)).unwrap();
    assert_eq!(
        p.verify_encrypted_shares(&mut hasher, &mut buf, &xpows).unwrap_err(),
        Error::UninitializedValue("party.{encrypted_shares, public_keys}")
    );
    assert_eq!(p.decrypt_shares().unwrap_err(), Error::UninitializedValue("party.encrypted_share"));
    assert_eq!(
        p.dleq_share(&g, &mut rng, &mut hasher, &mut buf).unwrap_err(),
        Error::UninitializedValue("party.{decrypted_share, encrypted_shares}")
    );
    assert_eq!(
        p.verify_decrypted_shares(&g).unwrap_err(),
        Error::UninitializedValue("party.{public_keys, encrypted_shares}")
    );
    assert_eq!(
        p.select_qualified_set(&mut rng).unwrap_err(),
        Error::UninitializedValue("party.decrypted_shares")
    );
    assert_eq!(
        p.reconstruct_secrets(&vec![Scalar::one()]).unwrap_err(),
        Error::UninitializedValue("party.qualified_set")
    );
    let row = vec![g.compress()];
    assert_eq!(
        p.ingest_encrypted_shares(&vec![row.clone(); 3]).unwrap_err(),
        Error::CountMismatch(4, "parties", 3, "encrypted shares")
    );
    let bad = vec![CompressedRistretto { bytes: [0xff; 32] }];
    assert_eq!(
        p.ingest_encrypted_shares(&vec![row.clone(), row.clone(), bad, row.clone()]).unwrap_err(),
        Error::PointDecompressionError([0xff; 32])
    );
    assert_eq!(
        p.ingest_decrypted_shares_and_proofs(&vec![row.clone(); 2], vec![]).unwrap_err(),
        Error::CountMismatch(4, "parties", 2, "decrypted shares")
    );
    assert_eq!(
        p.ingest_decrypted_shares_and_proofs(&vec![row.clone(); 3], vec![]).unwrap_err(),
        Error::CountMismatch(4, "parties", 0, "proofs")
    );
    assert_eq!(
        p.ingest_decrypted_shares_and_proofs(&vec![row.clone(); 3], vec![vec![]; 3]).unwrap_err(),
        Error::UninitializedValue("party.{decrypted_share, share_proof}")
    );
    p.ingest_share(&vec![Scalar::one()]);
    assert_eq!(p.share, Some(vec![Scalar::one()]));
}
