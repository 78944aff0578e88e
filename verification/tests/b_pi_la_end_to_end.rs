use pvss::b_pi_la::dealer::Dealer;
use pvss::b_pi_la::party::generate_parties;
use pvss::precompute::gen_powers;
use pvss::random::{random_point, random_scalars};
use pvss::ristretto::{CompressedRistretto, RistrettoPoint};
use pvss::secret_sharing::{reconstruct_secrets, select_qualified_set};
use pvss::transcript::Transcript;
use pvss::utils::{compute_lagrange_bases, ingest_public_keys};

// A session of 128 parties with threshold 63 and three secrets. Every party
// runs the same checks; one test runs them for sixteen parties, to keep each
// test short, and the eight tests together run them for all.
fn end_to_end(first: usize) {
    const N: usize = 128;
    const T: usize = 63;
    const K: usize = 3;

    let mut rng = rand::rng();
    let mut hasher = Transcript::new();
    let mut buf = [0u8; 64];

    let g: RistrettoPoint = random_point(&mut rng);

    let _xpows = gen_powers(N, T);

    let mut parties = generate_parties(&g, &mut rng, N, T);

    let public_keys: Vec<CompressedRistretto> =
        parties.iter().map(|party| party.public_key.0).collect();

    let mut dealer = Dealer::new(N, T, &public_keys).unwrap();

    for party in &mut parties {
        let public_keys: Vec<CompressedRistretto> = public_keys
            .iter()
            .filter(|pk| &party.public_key.0 != *pk)
            .copied()
            .collect();

        party.public_keys = Some(
            ingest_public_keys(N, &party.public_key.1, party.index, &public_keys).unwrap(),
        );
    }

    let secrets = random_scalars(&mut rng, K);

    let (shares, (c_vals, z)) = dealer.deal_secrets_v2(&mut rng, &mut hasher, &mut buf, &secrets);

    for p in &mut parties[first - 1..first + 15] {
        p.ingest_dealer_proof((&c_vals, &z)).unwrap();

        p.ingest_share(&shares[p.index - 1]);

        assert!(
            p.verify_share(&mut hasher, &mut buf).unwrap(),
            "share verification failure"
        );

        p.ingest_shares(&shares).unwrap();

        let verif_result = p.verify_shares(&mut hasher, &mut buf).unwrap();

        assert!(verif_result, "share verification failure");

        p.qualified_set =
            Some(select_qualified_set(&mut rng, p.t, &p.shares, &p.validated_shares).unwrap());

        let indices: Vec<usize> = p
            .qualified_set
            .as_ref()
            .unwrap()
            .iter()
            .map(|(index, _)| *index)
            .collect();

        let lagrange_bases = compute_lagrange_bases(&indices);

        let sec = reconstruct_secrets(&p.qualified_set, &lagrange_bases).unwrap();

        assert!(secrets == sec, "Invalid Reconstructed Secret");
    }
}

#[test]
fn lib_end_to_end() {
    end_to_end(1);
}

#[test]
fn lib_end_to_end_parties_17_to_32() {
    end_to_end(17);
}

#[test]
fn lib_end_to_end_parties_33_to_48() {
    end_to_end(33);
}

#[test]
fn lib_end_to_end_parties_49_to_64() {
    end_to_end(49);
}

#[test]
fn lib_end_to_end_parties_65_to_80() {
    end_to_end(65);
}

#[test]
fn lib_end_to_end_parties_81_to_96() {
    end_to_end(81);
}

#[test]
fn lib_end_to_end_parties_97_to_112() {
    end_to_end(97);
}

#[test]
fn lib_end_to_end_parties_113_to_128() {
    end_to_end(113);
}
