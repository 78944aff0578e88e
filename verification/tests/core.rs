use pvss::commit::{challenge_powers_from_digests, check_parameters, hash_commit};
use pvss::error::Error;
use pvss::polynomial::Polynomial;
use pvss::random::{random_point, random_points, random_scalar, random_scalars};
use pvss::ristretto::{CompressedRistretto, RistrettoPoint};
use pvss::scalar::Scalar;
use pvss::transcript::{digest, wipe, Transcript};
use pvss::utils::{
    batch_decompress_batched_ristretto_points, batch_decompress_ristretto_points,
    compute_d_from_hash_commitments, compute_d_from_point_commitments, compute_d_powers,
    compute_d_powers_from_hash_commitments, compute_d_powers_from_point_commitments,
    decompress_ristretto_point, ingest_public_keys, pointwise_op_in_place,
};
use rand::RngCore;
use rand_chacha::rand_core::SeedableRng;
use rand_chacha::ChaCha20Rng;

#[test]
fn test_rand() {
    let mut rng = rand::rng();
    let n = 10;

    let mut bytes = vec![0u8; 64 * n];
    rng.fill_bytes(&mut bytes);

    let v: Vec<Scalar> = bytes
        .chunks_exact(64)
        .map(|chunk| {
            let mut wide = [0u8; 64];
            wide.copy_from_slice(chunk);
            Scalar::from_bytes_mod_order_wide(&wide)
        })
        .collect();

    println!("{:?}", v);
    assert_eq!(v.len(), n);
}

#[test]
fn samples_differ_and_are_canonical() {
    let mut rng = ChaCha20Rng::seed_from_u64(1);
    let a = random_scalar(&mut rng);
    let b = random_scalar(&mut rng);
    assert_ne!(a, b);
    // A canonical scalar is left as it is by a reduction.
    assert_eq!(Scalar::from_bytes_mod_order(&a.bytes), a);
    assert_eq!(random_scalars(&mut rng, 5).len(), 5);
    let p = random_point(&mut rng);
    assert_eq!(p.compress().decompress(), Some(p));
    assert_eq!(random_points(&mut rng, 3).len(), 3);
    // The same seed gives the same samples.
    let mut again = ChaCha20Rng::seed_from_u64(1);
    assert_eq!(random_scalar(&mut again), a);
}

#[test]
fn wide_reduction_and_encodings() {
    let mut wide = [0u8; 64];
    wide[0] = 5;
    assert_eq!(Scalar::from_bytes_mod_order_wide(&wide), Scalar::from_u64(5));
    // 2^256 is 16 * 2^252; the order is 2^252 + c, so 2^256 = -16 c modulo the order.
    let mut top = [0u8; 64];
    top[32] = 1;
    let c = {
        // c = 27742317777372353535851937790883648493 as little-endian bytes.
        let mut bytes = [0u8; 32];
        let le = 27742317777372353535851937790883648493u128.to_le_bytes();
        bytes[..16].copy_from_slice(&le);
        Scalar { bytes }
    };
    let sixteen_c = c.mul(&Scalar::from_u64(16));
    assert_eq!(Scalar::from_bytes_mod_order_wide(&top).add(&sixteen_c), Scalar::zero());
    // Bytes above the order are reduced.
    assert_eq!(Scalar::from_bytes_mod_order(&[0xff; 32]).bytes[31] >> 5, 0);
    assert_eq!(Scalar::from_u64(258).as_bytes()[..3], [2, 1, 0]);
    assert!(Scalar::zero().is_zero());
    assert!(!Scalar::one().is_zero());
}

#[test]
fn group_operations_agree() {
    let mut rng = ChaCha20Rng::seed_from_u64(2);
    let p = random_point(&mut rng);
    let q = random_point(&mut rng);
    let two = Scalar::from_u64(2);
    assert_eq!(p.add(&p), p.mul(&two));
    assert_eq!(p.add(&q).sub(&q), p);
    assert_eq!(p.add(&RistrettoPoint::identity()), p);
    assert_eq!(p.mul(&Scalar::zero()), RistrettoPoint::identity());
    assert_eq!(RistrettoPoint::identity().compress(), CompressedRistretto::identity());
    assert_eq!(CompressedRistretto::identity().bytes, [0u8; 32]);
    assert!(p.equals(&p) && !p.equals(&q));
    assert!(p.compress().equals(&p.compress()));
    let base = RistrettoPoint::mul_base(&Scalar::one());
    assert_eq!(RistrettoPoint::mul_base(&Scalar::from_u64(3)), base.mul(&Scalar::from_u64(3)));
    let mut wide = [7u8; 64];
    let a = RistrettoPoint::from_uniform_bytes(&wide);
    wide[0] = 8;
    assert_ne!(a, RistrettoPoint::from_uniform_bytes(&wide));
}

#[test]
fn decoding_names_the_first_bad_entry() {
    let mut rng = ChaCha20Rng::seed_from_u64(3);
    let good = random_point(&mut rng).compress();
    let bad1 = CompressedRistretto { bytes: [0xff; 32] };
    let bad2 = CompressedRistretto { bytes: [0xfe; 32] };
    assert_eq!(decompress_ristretto_point(good).unwrap().compress(), good);
    assert_eq!(
        decompress_ristretto_point(bad1).unwrap_err(),
        Error::PointDecompressionError([0xff; 32])
    );
    assert_eq!(batch_decompress_ristretto_points(&[good, good]).unwrap().len(), 2);
    assert_eq!(
        batch_decompress_ristretto_points(&[good, bad2, bad1]).unwrap_err(),
        Error::PointDecompressionError([0xfe; 32])
    );
    assert_eq!(
        batch_decompress_batched_ristretto_points(&vec![vec![good], vec![], vec![good, bad1]])
            .unwrap_err(),
        Error::PointDecompressionError([0xff; 32])
    );
    let rows = batch_decompress_batched_ristretto_points(&vec![vec![good], vec![]]).unwrap();
    assert_eq!((rows[0].len(), rows[1].len()), (1, 0));
    let own = random_point(&mut rng);
    let other = random_point(&mut rng);
    let pks = ingest_public_keys(3, &own, 2, &[good, other.compress()]).unwrap();
    assert_eq!(pks[1], own);
    assert_eq!(pks[0].compress(), good);
    assert_eq!(pks[2], other);
    assert_eq!(
        ingest_public_keys(3, &own, 2, &[good]).unwrap_err(),
        Error::CountMismatch(3, "parties", 1, "public_keys")
    );
}

#[test]
fn transcript_is_deterministic_and_reset() {
    let commitments = vec![[1u8; 64], [2u8; 64], [3u8; 64]];
    let mut buf = [9u8; 64];
    let mut h1 = Transcript::new();
    let d1 = compute_d_from_hash_commitments(&mut h1, &mut buf, &commitments);
    assert_eq!(buf, [0u8; 64]);
    let mut h2 = Transcript::new();
    let d2 = compute_d_from_hash_commitments(&mut h2, &mut buf, &commitments);
    assert_eq!(d1, d2);
    // The transcript was reset: a second derivation gives the same challenge.
    assert_eq!(compute_d_from_hash_commitments(&mut h1, &mut buf, &commitments), d1);
    // The order of the commitments is part of the challenge.
    let swapped = vec![[2u8; 64], [1u8; 64], [3u8; 64]];
    assert_ne!(compute_d_from_hash_commitments(&mut h1, &mut buf, &swapped), d1);
    // The challenge is the reduced output for the concatenated commitments.
    let flat: Vec<u8> = commitments.iter().flatten().copied().collect();
    let out = digest(&flat);
    assert_eq!(Scalar::from_bytes_mod_order_wide(&out), d1);
    // What was absorbed before counts.
    let mut h3 = Transcript::new();
    h3.absorb(&[1u8; 64]);
    assert_eq!(compute_d_from_hash_commitments(&mut h3, &mut buf, &commitments[1..]), d1);
    // The digest is that of BLAKE3.
    let expected_empty = [
        0xaf, 0x13, 0x49, 0xb9, 0xf5, 0xf9, 0xa1, 0xa6, 0xa0, 0x40, 0x4d, 0xea, 0x36, 0xdc, 0xc9,
        0x49, 0x9b, 0xcb, 0x25, 0xc9, 0xad, 0xc1, 0x12, 0xb7, 0xcc, 0x9a, 0x93, 0xca, 0xe4, 0x1f,
        0x32, 0x62,
    ];
    assert_eq!(digest(&[])[..32], expected_empty);
    let mut scratch = [5u8; 64];
    wipe(&mut scratch);
    assert_eq!(scratch, [0u8; 64]);
}

#[test]
fn point_transcript_and_powers() {
    let mut rng = ChaCha20Rng::seed_from_u64(4);
    let points: Vec<CompressedRistretto> =
        random_points(&mut rng, 3).iter().map(|p| p.compress()).collect();
    let mut buf = [0u8; 64];
    let mut h = Transcript::new();
    let d = compute_d_from_point_commitments(&mut h, &mut buf, &points);
    let flat: Vec<u8> = points.iter().flat_map(|p| p.bytes).collect();
    assert_eq!(Scalar::from_bytes_mod_order_wide(&digest(&flat)), d);
    let powers = compute_d_powers_from_point_commitments(&mut h, &mut buf, &points, 3);
    assert_eq!(powers, vec![d, d.mul(&d), d.mul(&d).mul(&d)]);
    assert_eq!(compute_d_powers(1, &d), vec![d]);
    let three = Scalar::from_u64(3);
    assert_eq!(
        compute_d_powers(4, &three),
        vec![Scalar::from_u64(3), Scalar::from_u64(9), Scalar::from_u64(27), Scalar::from_u64(81)]
    );
    let digests = vec![[7u8; 64]; 2];
    let from_hashes = compute_d_powers_from_hash_commitments(&mut h, &mut buf, &digests, 2);
    let d2 = compute_d_from_hash_commitments(&mut h, &mut buf, &digests);
    assert_eq!(from_hashes, vec![d2, d2.mul(&d2)]);
    assert!(challenge_powers_from_digests(&mut h, &mut buf, &digests, 0).is_empty());
    assert_eq!(challenge_powers_from_digests(&mut h, &mut buf, &digests, 2), from_hashes);
}

#[test]
fn hash_commitment_is_the_hash_of_the_encodings() {
    let share = vec![Scalar::from_u64(1), Scalar::from_u64(2)];
    let r = Scalar::from_u64(3);
    let mut h = Transcript::new();
    let mut out = [0u8; 64];
    hash_commit(&mut h, &share, &r, &mut out);
    let mut input = Vec::new();
    for s in share.iter().chain([r].iter()) {
        input.extend_from_slice(&s.bytes);
    }
    assert_eq!(out, digest(&input));
    assert!(check_parameters(16, 7, 16));
    assert!(!check_parameters(16, 8, 1));
    assert!(!check_parameters(16, 7, 0));
    assert!(check_parameters(1, 0, 1));
}

#[test]
fn pointwise_operations() {
    let plus = |a: Scalar, b: Scalar| a.add(&b);
    let times = |a: Scalar, b: Scalar| a.mul(&b);
    let s = |v: &[u64]| v.iter().map(|x| Scalar::from_u64(*x)).collect::<Vec<Scalar>>();
    let p = |v: &[u64]| Polynomial { coefficients: s(v) };
    let mut a = s(&[1, 2, 3]);
    pointwise_op_in_place(&plus, &mut a, &s(&[10, 20]));
    assert_eq!(a, s(&[11, 22, 3]));
    let mut f = p(&[1, 2, 3]);
    f.op_in_place(&times, &p(&[2, 2, 2]));
    assert_eq!(f, p(&[2, 4, 6]));
    f.op_many_in_place(&plus, &[p(&[1, 1, 1]), p(&[1, 0, 0])]);
    assert_eq!(f, p(&[4, 5, 7]));
    assert_eq!(Polynomial::fold_op(&plus, &vec![p(&[1, 2]), p(&[3, 4]), p(&[5, 6])]), p(&[9, 12]));
    f.fold_op_into(&times, &vec![p(&[2, 2, 2]), p(&[1, 3, 1])]);
    assert_eq!(f, p(&[8, 30, 14]));
    assert_eq!(f.coef_op(&plus, &Scalar::from_u64(1)), p(&[9, 31, 15]));
    f.coef_op_in_place(&times, &Scalar::from_u64(2));
    assert_eq!(f, p(&[16, 60, 28]));
    f.sum_in_place(&p(&[1, 1]));
    assert_eq!(f, p(&[17, 61, 28]));
    let mut rng = ChaCha20Rng::seed_from_u64(5);
    let (x, y, z) = Polynomial::sample_three_set_f0(4, &Scalar::from_u64(42), &mut rng);
    assert_eq!((x.len(), y.len(), z.len()), (5, 5, 5));
    assert_eq!(x.coefficients[0], Scalar::from_u64(42));
    let (x, y) = Polynomial::sample_two_set_f0(4, &Scalar::from_u64(42), &mut rng);
    assert_eq!((x.len(), y.len(), x.coefficients[0]), (5, 5, Scalar::from_u64(42)));
    let (x, y) = Polynomial::sample_two(2, &mut rng);
    assert_eq!((x.len(), y.len()), (3, 3));
    assert_eq!(Polynomial::sample(6, &mut rng).len(), 7);
    let q = Polynomial::sample_set_f0(6, &mut rng, &Scalar::from_u64(9));
    assert_eq!((q.len(), q.evaluate(0)), (7, Scalar::from_u64(9)));
}

#[test]
fn evaluation_into_the_group() {
    let mut rng = ChaCha20Rng::seed_from_u64(6);
    let points = random_points(&mut rng, 3);
    let s = |v: &[u64]| Polynomial {
        coefficients: v.iter().map(|x| Scalar::from_u64(*x)).collect(),
    };
    let f = s(&[5, 1]);
    let r = s(&[2, 3]);
    let (vals, prods) = f.evaluate_multiply(&points, 1);
    assert_eq!(vals, vec![Scalar::from_u64(6), Scalar::from_u64(7), Scalar::from_u64(8)]);
    assert_eq!(prods[2], points[2].mul(&Scalar::from_u64(8)));
    let (a, b) = f.evaluate_multiply_two(&r, &points);
    assert_eq!(a[1], points[1].mul(&Scalar::from_u64(7)).compress());
    assert_eq!(b[1], points[1].mul(&Scalar::from_u64(8)).compress());
    let (a, b) = f.evaluate_multiply_two_ppvss(&r, &points);
    assert_eq!(a[0], points[0].mul(&Scalar::from_u64(5)).compress());
    assert_eq!(b[2], points[2].mul(&Scalar::from_u64(8)).compress());
    let c = f.mul_with_point_compress(&points[0]);
    assert_eq!(c, vec![points[0].mul(&Scalar::from_u64(5)).compress(), points[0].compress()]);
    assert_eq!(f.evaluate_two(&r, 2), (Scalar::from_u64(7), Scalar::from_u64(8)));
}

#[test]
fn the_shuffle_changes_the_order() {
    let mut rng = ChaCha20Rng::seed_from_u64(7);
    let shares: Option<Vec<Scalar>> = Some((0..16).map(Scalar::from_u64).collect());
    let validated: Vec<usize> = (0..16).collect();
    let q = pvss::secret_sharing::select_qualified_set(&mut rng, 7, &shares, &validated).unwrap();
    let indices: Vec<usize> = q.iter().map(|(i, _)| *i).collect();
    assert_ne!(indices, (1..=8).collect::<Vec<usize>>());
    let again = pvss::secret_sharing::take_qualified(7, shares.as_ref().unwrap(), &validated);
    assert_eq!(again.iter().map(|(i, _)| *i).collect::<Vec<usize>>(), (1..=8).collect::<Vec<usize>>());
    assert_eq!(again[3].1, Scalar::from_u64(3));
}

#[test]
fn the_thread_generator_gives_fresh_scalars() {
    let a = pvss::random::thread_random_scalar();
    let b = pvss::random::thread_random_scalar();
    assert_ne!(a, b);
    let f = Polynomial::thread_sample_set_f0(3, &Scalar::from_u64(5));
    assert_eq!((f.len(), f.coefficients[0]), (4, Scalar::from_u64(5)));
    assert_ne!(f.coefficients[1], f.coefficients[2]);
}

#[test]
fn stored_tables_are_handed_out() {
    let row = vec![vec![Scalar::from_u64(77)]];
    let table = pvss::precompute::XPowTable {
        n16_t7: row.clone(),
        n32_t15: vec![],
        n64_t31: vec![],
        n128_t63: vec![],
        n256_t127: vec![],
        n512_t255: vec![],
        n1024_t511: vec![],
        n2048_t1023: vec![],
        n4096_t2047: vec![],
    };
    assert_eq!(pvss::precompute::XPowTable::from_params(table, 16, 7), row);
    let table = pvss::precompute::XPowTable {
        n16_t7: row,
        n32_t15: vec![],
        n64_t31: vec![],
        n128_t63: vec![],
        n256_t127: vec![],
        n512_t255: vec![],
        n1024_t511: vec![],
        n2048_t1023: vec![],
        n4096_t2047: vec![],
    };
    let computed = pvss::precompute::XPowTable::from_params(table, 3, 1);
    assert_eq!(computed, pvss::precompute::gen_powers(3, 1));
    assert_eq!(computed.len(), 3);
    assert_eq!(computed[1], vec![Scalar::one(), Scalar::from_u64(2)]);
}
