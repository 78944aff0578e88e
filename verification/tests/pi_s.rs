use pvss::error::{Error, ProofDefect};
use pvss::pi_s::dealer::Dealer;
use pvss::pi_s::party::generate_parties;
use pvss::polynomial::Polynomial;
use pvss::precompute::gen_powers;
use pvss::random::random_scalar;
use pvss::ristretto::{CompressedRistretto, RistrettoPoint};
use pvss::scalar::Scalar;
use pvss::transcript::Transcript;
use pvss::utils::compute_lagrange_bases;
use rand_chacha::rand_core::SeedableRng;
use rand_chacha::ChaCha20Rng;

#[test]
fn pi_s_small_session_with_tampering() {
    const N: usize = 4;
    const T: usize = 1;
    let mut rng = ChaCha20Rng::seed_from_u64(51);
    let mut hasher = Transcript::new();
    let mut buf = [0u8; 64];
    let g = RistrettoPoint::mul_base(&random_scalar(&mut rng));
    let xpows = gen_powers(N, T);
    let mut parties = generate_parties(&g, &mut rng, N, T);
    let public_keys: Vec<CompressedRistretto> = parties.iter().map(|p| p.public_key.0).collect();
    let mut dealer = Dealer::new(N, T, &public_keys).unwrap();
    for party in &mut parties {
        let others: Vec<CompressedRistretto> =
            public_keys.iter().filter(|pk| &party.public_key.0 != *pk).copied().collect();
        party.ingest_public_keys(&others).unwrap();
    }
    let secret = Scalar::from_u64(42);
    let (enc, (d, z)) = dealer.deal_secret(&mut rng, &mut hasher, &mut buf, &xpows, &secret);
    assert_eq!(dealer.secret, Some(secret));
    assert_eq!(buf, [0u8; 64]);

    parties[0].ingest_encrypted_shares(&enc).unwrap();
    parties[0].ingest_dealer_proof(d, z.clone()).unwrap();
    assert!(parties[0].verify_encrypted_shares(&mut hasher, &mut buf, &xpows).unwrap());

    let mut changed = enc.clone();
    changed[1] = changed[0];
    parties[1].ingest_encrypted_shares(&changed).unwrap();
    parties[1].ingest_dealer_proof(d, z.clone()).unwrap();
    assert!(!parties[1].verify_encrypted_shares(&mut hasher, &mut buf, &xpows).unwrap());

    assert_eq!(
        parties[2].ingest_dealer_proof(Scalar::zero(), z.clone()).unwrap_err(),
        Error::InvalidProof(ProofDefect::ZeroChallenge)
    );
    assert_eq!(
        parties[2]
            .ingest_dealer_proof(d, Polynomial { coefficients: vec![Scalar::one()] })
            .unwrap_err(),
        Error::InvalidProof(ProofDefect::PolynomialLength { len: 1, t: 1 })
    );
    assert_eq!(
        parties[2].verify_encrypted_shares(&mut hasher, &mut buf, &xpows).unwrap_err(),
        Error::UninitializedValue("party.dealer_proof")
    );
    assert_eq!(
        parties[2].decrypt_share().unwrap_err(),
        Error::UninitializedValue("party.encrypted_share")
    );

    for p in &mut parties {
        p.ingest_encrypted_shares(&enc).unwrap();
        p.decrypt_share().unwrap();
        p.dleq_share(&g, &mut rng, &mut hasher, &mut buf).unwrap();
    }
    let mut dec: Vec<CompressedRistretto> =
        parties.iter().map(|p| p.decrypted_share.unwrap().compress()).collect();
    let mut proofs: Vec<(Scalar, Scalar)> = parties.iter().map(|p| p.share_proof.unwrap()).collect();
    // The decrypted share of party 3 is replaced.
    dec[2] = dec[1];
    dec.remove(0);
    proofs.remove(0);
    let p = &mut parties[0];
    assert_eq!(
        p.ingest_decrypted_shares_and_proofs(&dec[..2], proofs.clone()).unwrap_err(),
        Error::CountMismatch(4, "parties", 2, "decrypted shares")
    );
    p.ingest_decrypted_shares_and_proofs(&dec, proofs).unwrap();
    assert!(p.verify_decrypted_shares(&g).unwrap());
    assert_eq!(p.validated_shares, vec![0, 1, 3]);
    p.select_qualified_set(&mut rng).unwrap();
    let indices: Vec<usize> = p.qualified_set.as_ref().unwrap().iter().map(|(i, _)| *i).collect();
    let lambdas = compute_lagrange_bases(&indices);
    assert_eq!(p.reconstruct_secret(&lambdas).unwrap(), g.mul(&secret));
}
