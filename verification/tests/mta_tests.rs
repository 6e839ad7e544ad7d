use pasta_curves::group::ff::PrimeField;
use pasta_curves::group::{Curve, CurveAffine};
use pasta_curves::pallas;
use threshold_mta::mta::make_commitment;
use threshold_mta::CoreError;

#[test]
fn make_commitment_text() {
    //k * r should < n , because it will mod n
    let allice_selfk = 564;
    let allice_selfr = 345;
    let allice_mta_pri_p = 37057;
    let allice_mta_pri_q = 55021;
    let allice_mta_pub_n = allice_mta_pri_p * allice_mta_pri_q;
    if (allice_selfk * allice_selfr) >= allice_mta_pub_n {
        panic!("k * r should < n , because it will mod n");
    }
    assert!((allice_selfk * allice_selfr) < allice_mta_pub_n);

    let bob_selfk = 687;
    let bob_selfr = 466;
    let bob_mta_pri_p = 45497;
    let bob_mta_pri_q = 61363;
    let bob_mta_pub_n = bob_mta_pri_p * bob_mta_pri_q;
    if (bob_selfk * bob_selfr) >= bob_mta_pub_n {
        panic!("k * r should < n , because it will mod n");
    }
    assert!((bob_selfk * bob_selfr) < bob_mta_pub_n);

    let chris_selfk = 745;
    let chris_selfr = 531;
    let chris_mta_pri_p = 58237;
    let chris_mta_pri_q = 50129;
    let chris_mta_pub_n = chris_mta_pri_p * chris_mta_pri_q;
    if (chris_selfk * chris_selfr) >= chris_mta_pub_n {
        panic!("k * r should < n , because it will mod n");
    }
    assert!((chris_selfk * chris_selfr) < chris_mta_pub_n);

    let selfk_vec = vec![allice_selfk, bob_selfk, chris_selfk];
    let selfr_vec = vec![allice_selfr, bob_selfr, chris_selfr];
    let mta_pub_n_vec = vec![allice_mta_pub_n, bob_mta_pub_n, chris_mta_pub_n];
    let mta_pri_p_vec = vec![allice_mta_pri_p, bob_mta_pri_p, chris_mta_pri_p];
    let mta_pri_q_vec = vec![allice_mta_pri_q, bob_mta_pri_q, chris_mta_pri_q];

    let (sharding_commitment, _) = make_commitment(
        selfk_vec,
        selfr_vec,
        mta_pub_n_vec,
        mta_pri_p_vec,
        mta_pri_q_vec,
    )
        .unwrap();

    let v1 = allice_selfk + bob_selfk + chris_selfk;
    let v2 = allice_selfr + bob_selfr + chris_selfr;
    let v3 = v1 * v2;
    let mut v4 = pallas::Scalar::zero();
    for i in &sharding_commitment {
        v4 = v4 + i;
    }
    let v5 = pallas::Scalar::from_u128(v3);
    assert_eq!(v5, v4)
}

#[test]
fn commitment_verify_points_publish_the_nonces() {
    let p = 37057u128;
    let q = 55021u128;
    let n = p * q;
    let (_, points) = make_commitment(
        vec![2, 3, 4],
        vec![5, 6, 7],
        vec![n, n, n],
        vec![p, p, p],
        vec![q, q, q],
    )
        .unwrap();
    let generator = pallas::Affine::generator();
    for (i, r) in [5u128, 6, 7].iter().enumerate() {
        let expected = (generator * pallas::Scalar::from_u128(*r)).to_affine();
        assert_eq!(points[i], expected);
    }
}

#[test]
fn oversized_products_are_rejected_before_any_work() {
    let p = 37057u128;
    let q = 55021u128;
    let n = p * q;
    let res = make_commitment(
        vec![n - 1, 3],
        vec![2, 4],
        vec![n, n],
        vec![p, p],
        vec![q, q],
    );
    assert_eq!(res, Err(CoreError::ProductExceedsModulus));
}
