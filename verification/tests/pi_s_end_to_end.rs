use pvss::pi_s::dealer::Dealer;
use pvss::pi_s::party::generate_parties;
use pvss::precompute::gen_powers;
use pvss::random::random_scalar;
use pvss::ristretto::{CompressedRistretto, RistrettoPoint};
use pvss::scalar::Scalar;
use pvss::transcript::Transcript;
use pvss::utils::compute_lagrange_bases;

// A session of 32 parties with threshold 15. Every party runs the same
// checks; one test runs them for `count` parties from `first` on, to keep
// each test short, and the tests together run them for all.
fn end_to_end(first: usize, count: usize) {
    const N: usize = 32;
    const T: usize = 15;

    let mut rng = rand::rng();
    let mut hasher = Transcript::new();
    let mut buf = [0u8; 64];

    let g: RistrettoPoint = RistrettoPoint::mul_base(&random_scalar(&mut rng));
    let xpows = gen_powers(N, T);

    let mut parties = generate_parties(&g, &mut rng, N, T);

    let public_keys: Vec<CompressedRistretto> =
        parties.iter().map(|party| party.public_key.0).collect();

    let mut dealer = Dealer::new(N, T, &public_keys).unwrap();

    for party in &mut parties {
        let public_keys: Vec<CompressedRistretto> = public_keys
            .iter()
            .filter(|pk| &party.public_key.0 != *pk)
            .copied()
            .collect();

        party.ingest_public_keys(&public_keys).unwrap();
    }

    let secret = random_scalar(&mut rng);
    let (encrypted_shares, (d, z)) =
        dealer.deal_secret(&mut rng, &mut hasher, &mut buf, &xpows, &secret);

    for p in &mut parties {
        p.ingest_encrypted_shares(&encrypted_shares).unwrap();
        p.ingest_dealer_proof(d, z.clone()).unwrap();
    }

    for p in &mut parties[first - 1..first - 1 + count] {
        let res = p.verify_encrypted_shares(&mut hasher, &mut buf, &xpows).unwrap();

        assert!(res, "encrypted share verification failure");
    }

    let (decrypted_shares, share_proofs): (Vec<CompressedRistretto>, Vec<(Scalar, Scalar)>) =
        parties
            .iter_mut()
            .map(|p| {
                p.decrypt_share().unwrap();
                p.dleq_share(&g, &mut rng, &mut hasher, &mut buf).unwrap();

                (
                    p.decrypted_share.unwrap().compress(),
                    p.share_proof.unwrap(),
                )
            })
            .collect();

    let mut reconstructed_secrets: Vec<RistrettoPoint> = vec![];
    for p in &mut parties[first - 1..first - 1 + count] {
        let (mut decrypted_shares, mut share_proofs) =
            (decrypted_shares.clone(), share_proofs.clone());

        decrypted_shares.remove(p.index - 1);
        share_proofs.remove(p.index - 1);
        p.ingest_decrypted_shares_and_proofs(&decrypted_shares, share_proofs)
            .unwrap();

        assert!(p.verify_decrypted_shares(&g).unwrap());

        p.select_qualified_set(&mut rng).unwrap();

        let indices: Vec<usize> = p
            .qualified_set
            .as_ref()
            .unwrap()
            .iter()
            .map(|(index, _)| *index)
            .collect();

        let lagrange_bases = compute_lagrange_bases(&indices);

        reconstructed_secrets.push(p.reconstruct_secret(&lagrange_bases).unwrap());
    }
    reconstructed_secrets
        .iter()
        .for_each(|secret| assert_eq!(g.mul(&dealer.secret.unwrap()), *secret));
}

#[test]
fn pi_s_end_to_end() {
    end_to_end(1, 8);
}

#[test]
fn pi_s_end_to_end_parties_9_to_16() {
    end_to_end(9, 8);
}

#[test]
fn pi_s_end_to_end_parties_17_to_24() {
    end_to_end(17, 8);
}

#[test]
fn pi_s_end_to_end_parties_25_to_32() {
    end_to_end(25, 8);
}
