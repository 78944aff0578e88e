use pvss::b_pi_la::dealer::Dealer;
use pvss::b_pi_la::party::{generate_parties, Party};
use pvss::error::{Error, ProofDefect};
use pvss::polynomial::Polynomial;
use pvss::random::{random_point, random_scalars};
use pvss::ristretto::CompressedRistretto;
use pvss::scalar::Scalar;
use pvss::secret_sharing::select_qualified_set;
use pvss::transcript::Transcript;
use pvss::utils::compute_lagrange_bases;
use rand_chacha::rand_core::SeedableRng;
use rand_chacha::ChaCha20Rng;

#[test]
fn test_proof() {
    const N: usize = 8;
    const T: usize = 3;
    const K: usize = 1;

    let mut rng = rand::rng();
    let mut hasher = Transcript::new();
    let mut buf = [0u8; 64];
    let mut c_buf = vec![[0u8; 64]; N];

    // begin deal secret
    let secrets = random_scalars(&mut rng, K);

    // This contains k*f polynomials
    let f_polynomials = Polynomial::sample_n_set_f0(K, T, &secrets).unwrap();

    let f_evals = Polynomial::evaluate_many_range(&f_polynomials, 1, N);

    // end deal_secret

    // begin proof

    let r = Polynomial::sample(T, &mut rng);

    println!("t: {}", T);
    println!("{}", r.coef_ref().len());
    println!("{}", f_polynomials[0].coef_ref().len());
    let r_evals = Polynomial::evaluate_range(&r, 1, N);

    println!("{}", r_evals.len());
    println!("{}", f_evals.len());
    for i in 0..N {
        assert_eq!(r_evals[i], r.evaluate(i + 1));
        assert_eq!(f_evals[i][0], f_polynomials[0].evaluate(i + 1));
    }

    println!("{:?}\n\n\n----------", r_evals);
    println!("{:?}\n\n\n----------", f_evals);

    let mut l_hasher = Transcript::new();

    c_buf
        .iter_mut()
        .zip(f_evals.iter().enumerate().zip(r_evals.iter()))
        .for_each(|(l_buf, ((i, fi), ri))| {
            fi.iter().enumerate().for_each(|(k, fi_k)| {
                println!("f_{}_{}: {:?}", i, k, fi_k);
                l_hasher.absorb(fi_k.as_bytes());
            });
            l_hasher.absorb(ri.as_bytes());

            println!("r_{}: {:?}", i, ri);

            l_hasher.squeeze(l_buf);
            l_hasher.reset();
        });

    let flat_vec: Vec<u8> = c_buf.clone().into_iter().flatten().collect();

    hasher.absorb(&flat_vec);
    hasher.squeeze(&mut buf);

    let d = Scalar::from_bytes_mod_order_wide(&buf);
    pvss::transcript::wipe(&mut buf);
    hasher.reset();

    let mut d_vals = Vec::with_capacity(K);
    // [d^1,
    d_vals.push(d);
    // d^2, d^3, ... d^k]
    for i in 1..K {
        d_vals.push(d_vals[i - 1].mul(&d));
    }

    println!("dvals: {:?}", d_vals);

    // z = r + ( ∑ d_j * f_j )
    let mut z = r.clone();
    z.compute_z(&f_polynomials, &d_vals);

    println!("z: {:?}", z.coef_ref());
    println!("-----ok-----");

    // end generate proof

    // begin verification

    let z_evals = Polynomial::evaluate_range(&z, 1, N);
    let shares = f_evals.clone();
    let cvals = c_buf;

    let validated_shares: Vec<usize> = (0..N)
        .map(|i| {
            let mut l_buf = [0u8; 64];

            let r_val = Polynomial::compute_r_eval(&z_evals[i], &shares[i], &d_vals);

            shares[i].iter().for_each(|fi_k| {
                l_hasher.absorb(fi_k.as_bytes());
            });

            l_hasher.absorb(r_val.as_bytes());

            l_hasher.squeeze(&mut l_buf);
            l_hasher.reset();

            let check_bit = cvals[i] == l_buf;
            pvss::transcript::wipe(&mut l_buf);
            if check_bit {
                println!("pap");
                Some(i)
            } else {
                None
            }
        })
        .filter(Option::is_some)
        .map(|res| res.unwrap())
        .collect();
    assert!(validated_shares.len() > T);
}

struct Session {
    parties: Vec<Party>,
    shares: Vec<Vec<Scalar>>,
    c_vals: Vec<[u8; 64]>,
    z: Polynomial,
}

fn deal(seed: u64, n: usize, t: usize, secrets: &[u64]) -> Session {
    let mut rng = ChaCha20Rng::seed_from_u64(seed);
    let mut hasher = Transcript::new();
    let mut buf = [0u8; 64];
    let g = random_point(&mut rng);
    let parties = generate_parties(&g, &mut rng, n, t);
    let public_keys: Vec<CompressedRistretto> = parties.iter().map(|p| p.public_key.0).collect();
    let mut dealer = Dealer::new(n, t, &public_keys).unwrap();
    assert_eq!(dealer.t(), t);
    assert_eq!(*dealer.get_pk0(), parties[0].public_key.1);
    let secrets: Vec<Scalar> = secrets.iter().map(|s| Scalar::from_u64(*s)).collect();
    let (shares, (c_vals, z)) = dealer.deal_secrets_v2(&mut rng, &mut hasher, &mut buf, &secrets);
    assert_eq!(buf, [0u8; 64]);
    Session { parties, shares, c_vals, z }
}

fn reconstruct_from(p: &mut Party, qualified: &[usize]) -> Vec<Scalar> {
    let shares = p.shares.as_ref().unwrap();
    p.qualified_set = Some(qualified.iter().map(|i| (*i, shares[*i - 1].clone())).collect());
    let lambdas = compute_lagrange_bases(&qualified.to_vec());
    p.reconstruct_secrets(&lambdas).unwrap()
}

#[test]
fn small_honest_session() {
    let Session { mut parties, shares, c_vals, z } = deal(1, 16, 7, &[42]);
    let mut hasher = Transcript::new();
    let mut buf = [0u8; 64];
    for p in &mut parties {
        p.ingest_dealer_proof((&c_vals, &z)).unwrap();
        p.ingest_share(&shares[p.index - 1]);
        assert!(p.verify_share(&mut hasher, &mut buf).unwrap());
        assert_eq!(buf, [0u8; 64]);
        p.ingest_shares(&shares).unwrap();
        assert!(p.verify_shares(&mut hasher, &mut buf).unwrap());
        assert_eq!(p.validated_shares, (0..16).collect::<Vec<usize>>());
        let sec = reconstruct_from(p, &[1, 2, 3, 4, 5, 6, 7, 8]);
        assert_eq!(sec, vec![Scalar::from_u64(42)]);
    }
}

#[test]
fn batched_session() {
    let Session { mut parties, shares, c_vals, z } = deal(2, 16, 7, &[42, 7, 99]);
    let mut rng = ChaCha20Rng::seed_from_u64(22);
    let mut hasher = Transcript::new();
    let mut buf = [0u8; 64];
    for p in &mut parties {
        p.ingest_dealer_proof((&c_vals, &z)).unwrap();
        p.ingest_shares(&shares).unwrap();
        assert!(p.verify_shares(&mut hasher, &mut buf).unwrap());
        p.select_qualified_set(&mut rng).unwrap();
        let indices: Vec<usize> =
            p.qualified_set.as_ref().unwrap().iter().map(|(i, _)| *i).collect();
        assert_eq!(indices.len(), 8);
        let lambdas = compute_lagrange_bases(&indices);
        let sec = p.reconstruct_secrets(&lambdas).unwrap();
        assert_eq!(sec, vec![Scalar::from_u64(42), Scalar::from_u64(7), Scalar::from_u64(99)]);
    }
}

#[test]
fn corrupted_share_is_left_out() {
    let Session { mut parties, mut shares, c_vals, z } = deal(3, 16, 7, &[42, 7, 99]);
    shares[3][1] = shares[3][1].add(&Scalar::one());
    let mut rng = ChaCha20Rng::seed_from_u64(33);
    let mut hasher = Transcript::new();
    let mut buf = [0u8; 64];
    for p in &mut parties {
        p.ingest_dealer_proof((&c_vals, &z)).unwrap();
        p.ingest_share(&shares[p.index - 1]);
        assert_eq!(p.verify_share(&mut hasher, &mut buf).unwrap(), p.index != 4);
        p.ingest_shares(&shares).unwrap();
        assert!(p.verify_shares(&mut hasher, &mut buf).unwrap());
        assert_eq!(p.validated_shares.len(), 15);
        assert!(!p.validated_shares.contains(&3));
        p.select_qualified_set(&mut rng).unwrap();
        let indices: Vec<usize> =
            p.qualified_set.as_ref().unwrap().iter().map(|(i, _)| *i).collect();
        assert!(!indices.contains(&4));
        let lambdas = compute_lagrange_bases(&indices);
        let sec = p.reconstruct_secrets(&lambdas).unwrap();
        assert_eq!(sec, vec![Scalar::from_u64(42), Scalar::from_u64(7), Scalar::from_u64(99)]);
    }
}

#[test]
fn corrupted_commitment_changes_the_challenge() {
    let Session { mut parties, shares, mut c_vals, z } = deal(4, 16, 7, &[42, 7, 99]);
    c_vals[5][0] ^= 1;
    let mut hasher = Transcript::new();
    let mut buf = [0u8; 64];
    for p in &mut parties {
        p.ingest_dealer_proof((&c_vals, &z)).unwrap();
        p.ingest_shares(&shares).unwrap();
        p.verify_shares(&mut hasher, &mut buf).unwrap();
        assert!(p.validated_shares.len() <= 15);
        assert!(!p.validated_shares.contains(&5));
    }
}

#[test]
fn tampered_polynomial_is_detected() {
    let Session { mut parties, shares, c_vals, mut z } = deal(5, 16, 7, &[42]);
    z.coefficients[2] = z.coefficients[2].add(&Scalar::one());
    let mut hasher = Transcript::new();
    let mut buf = [0u8; 64];
    let mut rejected = 0;
    for p in &mut parties {
        p.ingest_dealer_proof((&c_vals, &z)).unwrap();
        p.ingest_share(&shares[p.index - 1]);
        if !p.verify_share(&mut hasher, &mut buf).unwrap() {
            rejected += 1;
        }
    }
    assert!(rejected >= 1);
}

#[test]
fn insufficient_validated_shares() {
    let Session { mut parties, mut shares, c_vals, z } = deal(6, 16, 7, &[42]);
    // Only t shares stay as they were dealt.
    for i in 7..16 {
        shares[i][0] = shares[i][0].add(&Scalar::one());
    }
    let mut rng = ChaCha20Rng::seed_from_u64(66);
    let mut hasher = Transcript::new();
    let mut buf = [0u8; 64];
    let p = &mut parties[0];
    p.ingest_dealer_proof((&c_vals, &z)).unwrap();
    p.ingest_shares(&shares).unwrap();
    assert!(!p.verify_shares(&mut hasher, &mut buf).unwrap());
    assert_eq!(p.validated_shares, (0..7).collect::<Vec<usize>>());
    assert_eq!(p.select_qualified_set(&mut rng).unwrap_err(), Error::InsufficientShares(7, 7));
    assert_eq!(
        select_qualified_set(&mut rng, p.t, &p.shares, &p.validated_shares).unwrap_err(),
        Error::InsufficientShares(7, 7)
    );
}

#[test]
fn invalid_parameter_set() {
    let mut rng = ChaCha20Rng::seed_from_u64(7);
    let g = random_point(&mut rng);
    assert_eq!(Party::new(&g, &mut rng, 10, 3, 1).unwrap_err(), Error::InvalidParameterSet(10, 3, 1));
    assert_eq!(Party::new(&g, &mut rng, 10, 4, 0).unwrap_err(), Error::InvalidParameterSet(10, 4, 0));
    assert_eq!(
        Party::new(&g, &mut rng, 10, 4, 11).unwrap_err(),
        Error::InvalidParameterSet(10, 4, 11)
    );
    assert_eq!(Party::new(&g, &mut rng, 0, 0, 0).unwrap_err(), Error::InvalidParameterSet(0, 0, 0));
    for index in 1..=10 {
        let p = Party::new(&g, &mut rng, 10, 4, index).unwrap();
        assert_eq!((p.n, p.t, p.index), (10, 4, index));
        assert_eq!(p.public_key.1, g.mul(&p.private_key));
        assert_eq!(p.public_key.0, p.public_key.1.compress());
    }
    assert!(Party::new(&g, &mut rng, 9, 4, 9).is_ok());
    assert!(Party::new(&g, &mut rng, 9, 3, 9).is_err());
}

#[test]
fn operations_before_their_prerequisites() {
    let mut rng = ChaCha20Rng::seed_from_u64(8);
    let g = random_point(&mut rng);
    let mut hasher = Transcript::new();
    let mut buf = [0u8; 64];
    let mut p = Party::new(&g, &mut rng, 4, 1, 2).unwrap();
    assert_eq!(
        p.verify_share(&mut hasher, &mut buf).unwrap_err(),
        Error::UninitializedValue("party.dealer_proof")
    );
    assert_eq!(
        p.verify_shares(&mut hasher, &mut buf).unwrap_err(),
        Error::UninitializedValue("party.dealer_proof")
    );
    assert_eq!(
        p.select_qualified_set(&mut rng).unwrap_err(),
        Error::UninitializedValue("party.decrypted_shares")
    );
    assert_eq!(
        p.reconstruct_secrets(&vec![Scalar::one()]).unwrap_err(),
        Error::UninitializedValue("party.qualified_set")
    );
    let z = Polynomial { coefficients: vec![Scalar::one(); 3] };
    let c = vec![[0u8; 64]; 4];
    assert_eq!(
        p.ingest_dealer_proof((&c, &z)).unwrap_err(),
        Error::InvalidProof(ProofDefect::PolynomialLength { len: 3, t: 1 })
    );
    let z = Polynomial { coefficients: vec![Scalar::one(); 2] };
    let short = vec![[0u8; 64]; 3];
    assert_eq!(
        p.ingest_dealer_proof((&short, &z)).unwrap_err(),
        Error::InvalidProof(ProofDefect::CommitmentCount { len: 3, expected: 4 })
    );
    p.ingest_dealer_proof((&c, &z)).unwrap();
    assert_eq!(
        p.verify_share(&mut hasher, &mut buf).unwrap_err(),
        Error::UninitializedValue("party.share")
    );
    assert_eq!(
        p.verify_shares(&mut hasher, &mut buf).unwrap_err(),
        Error::UninitializedValue("party.share")
    );
    assert_eq!(
        p.ingest_shares(&vec![vec![Scalar::one()]; 3]).unwrap_err(),
        Error::CountMismatch(4, "parties", 3, "ingestable shares")
    );
}

#[test]
fn public_keys_are_counted_and_decoded() {
    let mut rng = ChaCha20Rng::seed_from_u64(9);
    let g = random_point(&mut rng);
    let mut parties = generate_parties(&g, &mut rng, 4, 1);
    let all: Vec<CompressedRistretto> = parties.iter().map(|p| p.public_key.0).collect();
    assert_eq!(
        Dealer::new(5, 1, &all).err().unwrap(),
        Error::CountMismatch(5, "parties", 4, "public keys")
    );
    let others: Vec<CompressedRistretto> = vec![all[0], all[2], all[3]];
    assert_eq!(
        parties[1].ingest_public_keys(&all).unwrap_err(),
        Error::CountMismatch(4, "parties", 4, "public_keys")
    );
    parties[1].ingest_public_keys(&others).unwrap();
    let held: Vec<CompressedRistretto> =
        parties[1].public_keys.as_ref().unwrap().iter().map(|p| p.compress()).collect();
    assert_eq!(held, all);
    // An encoding with every bit set is no group element.
    let bad = CompressedRistretto { bytes: [0xff; 32] };
    let with_bad = vec![all[0], bad, all[3]];
    assert_eq!(
        parties[1].ingest_public_keys(&with_bad).unwrap_err(),
        Error::PointDecompressionError([0xff; 32])
    );
    assert_eq!(
        Dealer::new(3, 1, &with_bad).err().unwrap(),
        Error::PointDecompressionError([0xff; 32])
    );
}
