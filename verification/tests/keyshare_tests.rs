use pasta_curves::group::ff::PrimeField;
use pasta_curves::group::{Curve, CurveAffine};
use pasta_curves::pallas;
use threshold_mta::keyshare::{CalculatePriKey, CalculatePubKey, CollectOutputKeyShare, Input};
use threshold_mta::rng::generate_random_u128_in_range;
use threshold_mta::CoreError;

#[test]
fn key_generate_test() {
    let key_share1 = generate_random_u128_in_range(1, u64::MAX as u128);
    let key_share2 = generate_random_u128_in_range(1, u64::MAX as u128);
    let key_share3 = generate_random_u128_in_range(1, u64::MAX as u128);
    let key_share4 = generate_random_u128_in_range(1, u64::MAX as u128);
    let key_share5 = generate_random_u128_in_range(1, u64::MAX as u128);
    let input1 = Input { key_share: key_share1, rand_num: 379278, output_max: 5, output_min: 3 };
    let result1 = input1.output_key_share().unwrap();

    let input2 = Input { key_share: key_share2, rand_num: 4812738974, output_max: 5, output_min: 3 };
    let result2 = input2.output_key_share().unwrap();

    let input3 = Input { key_share: key_share3, rand_num: 43217, output_max: 5, output_min: 3 };
    let result3 = input3.output_key_share().unwrap();

    let input4 = Input { key_share: key_share4, rand_num: 745, output_max: 5, output_min: 3 };
    let result4 = input4.output_key_share().unwrap();

    let input5 = Input { key_share: key_share5, rand_num: 542, output_max: 5, output_min: 3 };
    let result5 = input5.output_key_share().unwrap();

    let mut user_vec = Vec::new();
    user_vec.extend(result1);
    user_vec.extend(result2);
    user_vec.extend(result3);
    user_vec.extend(result4);
    user_vec.extend(result5);

    let user1 = CollectOutputKeyShare { key_share: user_vec.clone(), member: 5, self_num: 1 };
    let (_user1_prikey_share, user1_pubket_share) = user1.collect().unwrap();

    let user2 = CollectOutputKeyShare { key_share: user_vec.clone(), member: 5, self_num: 2 };
    let (_user2_prikey_share, user2_pubket_share) = user2.collect().unwrap();

    let user3 = CollectOutputKeyShare { key_share: user_vec.clone(), member: 5, self_num: 3 };
    let (_user3_prikey_share, user3_pubket_share) = user3.collect().unwrap();

    let pub_key = CalculatePubKey {
        degree: 3,
        coefficient: vec![1, 2, 3],
        pub_key: vec![user1_pubket_share, user2_pubket_share, user3_pubket_share],
    };
    let result = pub_key.calculate().unwrap();
    let prik = key_share1 + key_share2 + key_share3 + key_share4 + key_share5;
    let check = pallas::Scalar::from_u128(prik);
    let generator = pallas::Affine::generator();
    let check2 = (generator * check).to_affine();
    let ans = result == check2;

    assert_eq!(ans, true)
}

#[test]
fn sub_shares_follow_the_expansion() {
    let input = Input { key_share: 100, rand_num: 3, output_max: 4, output_min: 3 };
    let shares = input.output_key_share().unwrap();
    // share for player i+1 is 100 + ((i+1)*3) + ((i+1)*3)^2
    assert_eq!(shares, vec![100 + 3 + 9, 100 + 6 + 36, 100 + 9 + 81, 100 + 12 + 144]);

    let flat = Input { key_share: 7, rand_num: 0, output_max: 2, output_min: 1 }
        .output_key_share()
        .unwrap();
    assert_eq!(flat, vec![7, 7]);
}

#[test]
fn sub_share_overflow_is_reported() {
    let input = Input { key_share: 1, rand_num: u128::MAX / 2, output_max: 3, output_min: 3 };
    assert_eq!(input.output_key_share(), Err(CoreError::Overflow));
}

#[test]
fn collect_picks_every_fifth_position() {
    // three dealers, member count 3: player 2 takes positions 2, 5, 8
    let shares = vec![10u128, 11, 12, 20, 21, 22, 30, 31, 32];
    let user = CollectOutputKeyShare { key_share: shares, member: 3, self_num: 2 };
    let (sum, point) = user.collect().unwrap();
    assert_eq!(sum, 11 + 21 + 31);
    let generator = pallas::Affine::generator();
    let expected = (generator * pallas::Scalar::from_u128(sum)).to_affine();
    assert_eq!(point, expected);
}

#[test]
fn private_share_reconstruction_matches_the_secrets() {
    // three dealers expand their secrets; the three interpolated private
    // shares must sum to the sum of the secrets
    let secrets: [u128; 3] = [424_242, 777, 31_415_926];
    let blinds: [u128; 3] = [1000, 20_000, 321];
    let mut flat: Vec<u128> = Vec::new();
    for d in 0..3 {
        let out = Input {
            key_share: secrets[d],
            rand_num: blinds[d],
            output_max: 3,
            output_min: 3,
        }
            .output_key_share()
            .unwrap();
        flat.extend(out);
    }
    let mut finals = Vec::new();
    for me in 1..=3u128 {
        let (raw, _) = CollectOutputKeyShare { key_share: flat.clone(), member: 3, self_num: me }
            .collect()
            .unwrap();
        let others: Vec<u128> = (1..=3).filter(|c| *c != me).collect();
        let fin = CalculatePriKey { self_coefficient: me, coefficient: others, pri_key: raw }
            .calculate()
            .unwrap();
        finals.push(fin);
    }
    let total = finals[0] + finals[1] + finals[2];
    let expected = pallas::Scalar::from_u128(secrets[0] + secrets[1] + secrets[2]);
    assert_eq!(total, expected);
}

#[test]
fn repeated_interpolation_nodes_are_rejected() {
    let pk = (pallas::Affine::generator() * pallas::Scalar::from_u128(5)).to_affine();
    let calc = CalculatePubKey { degree: 2, coefficient: vec![4, 4], pub_key: vec![pk, pk] };
    assert_eq!(calc.calculate(), Err(CoreError::NoInverse));

    let calc2 = CalculatePriKey { self_coefficient: 2, coefficient: vec![2, 3], pri_key: 9 };
    assert_eq!(calc2.calculate(), Err(CoreError::NoInverse));
}
