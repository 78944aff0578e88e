use pvss::random::{random_point, random_scalar};
use pvss::ristretto::{CompressedRistretto, RistrettoPoint};
use pvss::transcript::Transcript;
use pvss::utils::compute_lagrange_bases;
use rand_chacha::rand_core::SeedableRng;
use rand_chacha::ChaCha20Rng;

// A session of 128 parties with threshold 63. Every party runs the same
// checks; one test runs them for `count` parties from `first` on, to keep
// each test short, and the tests together run them for all.
fn end_to_end(first: usize, count: usize) {
    const N: usize = 128;
    const T: usize = 63;

    let mut rng = ChaCha20Rng::from_rng(&mut rand::rng());
    let mut hasher = Transcript::new();
    let mut buf = [0u8; 64];

    let generator: RistrettoPoint = random_point(&mut rng);
    let g1: RistrettoPoint = random_point(&mut rng);
    let g2: RistrettoPoint = random_point(&mut rng);
    let g3: RistrettoPoint = random_point(&mut rng);

    let mut parties =
        pvss::pi_p::utils::generate_parties(&generator, &g1, &g2, &g3, &mut rng, N, T);

    let public_keys: Vec<CompressedRistretto> =
        parties.iter().map(|party| party.public_key.0).collect();

    let mut dealer = pvss::pi_p::dealer::Dealer::new(g1, g2, g3, N, T, &public_keys).unwrap();

    for party in &mut parties {
        let public_keys: Vec<CompressedRistretto> = public_keys
            .iter()
            .filter(|pk| &party.public_key.0 != *pk)
            .copied()
            .collect();

        party.ingest_public_keys(&public_keys).unwrap();
    }

    let secret = random_scalar(&mut rng);
    println!("Secret: {:?}", secret);

    let (shares, (c_vals, z)) =
        dealer.deal_secret(&mut rng, &mut hasher, &mut buf, &secret).unwrap();

    for p in &mut parties[first - 1..first - 1 + count] {
        p.ingest_share((&shares.0[p.index - 1], &shares.1[p.index - 1]));
        p.ingest_dealer_proof((&c_vals, &z)).unwrap();

        let res = p.verify_share(&mut hasher, &mut buf).unwrap();

        assert!(res, "own share verification failure");

        p.ingest_shares(&shares).unwrap();

        assert!(
            p.verify_shares(&mut hasher, &mut buf).unwrap(),
            "others share verification failure"
        );
        p.select_qualified_set(&mut rng).unwrap();
        let indices: Vec<usize> =
            p.qualified_set.as_ref().unwrap().iter().map(|(index, _)| *index).collect();
        let lambdas = compute_lagrange_bases(&indices);
        let sec = p.reconstruct_secret(&lambdas).unwrap();
        println!("{:?}", sec);

        assert!(secret == sec, "Invalid Reconstructed Secret");
    }
}

#[test]
fn pi_p_end_to_end() {
    end_to_end(1, 4);
}

#[test]
fn pi_p_end_to_end_parties_5_to_8() {
    end_to_end(5, 4);
}

#[test]
fn pi_p_end_to_end_parties_9_to_12() {
    end_to_end(9, 4);
}

#[test]
fn pi_p_end_to_end_parties_13_to_16() {
    end_to_end(13, 4);
}

#[test]
fn pi_p_end_to_end_parties_17_to_20() {
    end_to_end(17, 4);
}

#[test]
fn pi_p_end_to_end_parties_21_to_24() {
    end_to_end(21, 4);
}

#[test]
fn pi_p_end_to_end_parties_25_to_28() {
    end_to_end(25, 4);
}

#[test]
fn pi_p_end_to_end_parties_29_to_32() {
    end_to_end(29, 4);
}

#[test]
fn pi_p_end_to_end_parties_33_to_36() {
    end_to_end(33, 4);
}

#[test]
fn pi_p_end_to_end_parties_37_to_40() {
    end_to_end(37, 4);
}

#[test]
fn pi_p_end_to_end_parties_41_to_44() {
    end_to_end(41, 4);
}

#[test]
fn pi_p_end_to_end_parties_45_to_48() {
    end_to_end(45, 4);
}

#[test]
fn pi_p_end_to_end_parties_49_to_52() {
    end_to_end(49, 4);
}

#[test]
fn pi_p_end_to_end_parties_53_to_56() {
    end_to_end(53, 4);
}

#[test]
fn pi_p_end_to_end_parties_57_to_60() {
    end_to_end(57, 4);
}

#[test]
fn pi_p_end_to_end_parties_61_to_64() {
    end_to_end(61, 4);
}

#[test]
fn pi_p_end_to_end_parties_65_to_68() {
    end_to_end(65, 4);
}

#[test]
fn pi_p_end_to_end_parties_69_to_72() {
    end_to_end(69, 4);
}

#[test]
fn pi_p_end_to_end_parties_73_to_76() {
    end_to_end(73, 4);
}

#[test]
fn pi_p_end_to_end_parties_77_to_80() {
    end_to_end(77, 4);
}

#[test]
fn pi_p_end_to_end_parties_81_to_84() {
    end_to_end(81, 4);
}

#[test]
fn pi_p_end_to_end_parties_85_to_88() {
    end_to_end(85, 4);
}

#[test]
fn pi_p_end_to_end_parties_89_to_92() {
    end_to_end(89, 4);
}

#[test]
fn pi_p_end_to_end_parties_93_to_96() {
    end_to_end(93, 4);
}

#[test]
fn pi_p_end_to_end_parties_97_to_100() {
    end_to_end(97, 4);
}

#[test]
fn pi_p_end_to_end_parties_101_to_104() {
    end_to_end(101, 4);
}

#[test]
fn pi_p_end_to_end_parties_105_to_108() {
    end_to_end(105, 4);
}

#[test]
fn pi_p_end_to_end_parties_109_to_112() {
    end_to_end(109, 4);
}

#[test]
fn pi_p_end_to_end_parties_113_to_116() {
    end_to_end(113, 4);
}

#[test]
fn pi_p_end_to_end_parties_117_to_120() {
    end_to_end(117, 4);
}

#[test]
fn pi_p_end_to_end_parties_121_to_124() {
    end_to_end(121, 4);
}

#[test]
fn pi_p_end_to_end_parties_125_to_128() {
    end_to_end(125, 4);
}
