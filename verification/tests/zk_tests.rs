use pasta_curves::group::ff::PrimeField;
use pasta_curves::group::{Curve, CurveAffine};
use pasta_curves::pallas;
use threshold_mta::arith::pow_and_mod;
use threshold_mta::rng::generate_random_u128_in_range;
use threshold_mta::zk::{zk_transcript, PrepareZk, ZkVerify};

#[test]
fn zk_verify_test() {
    let n = 3517;
    let tau = n + 1;
    let secret = generate_random_u128_in_range(1, u8::MAX as u128);

    let range_q = generate_random_u128_in_range(1, u16::MAX as u128);
    let r = generate_random_u128_in_range(1, range_q * range_q * range_q * n);

    let w1 = pow_and_mod(tau, secret, n * n);
    let w2 = pow_and_mod(r, n, n * n);
    let w = (w1 * w2) % (n * n);

    let prover_side = PrepareZk { n, secret, r };

    let ([u1, y], [z, u2, u3, e, s1, s2, s3, h1, h2]) = prover_side.prepare_zk_verify().unwrap();

    let verifier_side = ZkVerify { n, cipher: w, u1, y, z, u2, u3, e, s1, s2, s3, h1, h2 };

    let result = verifier_side.zk_verify();

    assert_eq!(result, true);
}

#[test]
fn zk_flipped_responses_are_rejected() {
    let n = 3517;
    let tau = n + 1;
    let secret = generate_random_u128_in_range(1, u8::MAX as u128);
    let range_q = generate_random_u128_in_range(1, u16::MAX as u128);
    let r = generate_random_u128_in_range(1, range_q * range_q * range_q * n);

    let w1 = pow_and_mod(tau, secret, n * n);
    let w2 = pow_and_mod(r, n, n * n);
    let w = (w1 * w2) % (n * n);

    let ([u1, y], [z, u2, u3, e, s1, s2, s3, h1, h2]) =
        PrepareZk { n, secret, r }.prepare_zk_verify().unwrap();

    let flipped_s1 = ZkVerify { n, cipher: w, u1, y, z, u2, u3, e, s1: s1 + 1, s2, s3, h1, h2 };
    assert_eq!(flipped_s1.zk_verify(), false);

    let flipped_s2 = ZkVerify { n, cipher: w, u1, y, z, u2, u3, e, s1, s2: s2 + 1, s3, h1, h2 };
    assert_eq!(flipped_s2.zk_verify(), false);

    let flipped_s3 = ZkVerify { n, cipher: w, u1, y, z, u2, u3, e, s1, s2, s3: s3 + 1, h1, h2 };
    assert_eq!(flipped_s3.zk_verify(), false);
}

#[test]
fn zk_transcript_exact_values() {
    let res = zk_transcript(6, 2, 3, 2, 3, 1, 2, 1, 2).unwrap();
    let (points, nums) = res;
    // z = (2^2 mod 6) * (3^1 mod 6) mod 6 = 12 mod 6
    // u2 = (7^1 mod 36) * (2^6 mod 36) mod 36 = 7 * 28 mod 36
    // u3 = (2^1 mod 6) * (3^3 mod 6) mod 6 = 2 * 3 mod 6
    // s1 = 2*2 + 1, s2 = (3^2 mod 36) * 2, s3 = 2*1 + 3
    assert_eq!(nums, [0, 16, 0, 2, 5, 18, 5, 2, 3]);
    let generator = pallas::Affine::generator();
    assert_eq!(points[0], (generator * pallas::Scalar::from_u128(1)).to_affine());
    assert_eq!(points[1], (generator * pallas::Scalar::from_u128(2)).to_affine());
}
