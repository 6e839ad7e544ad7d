use pasta_curves::group::ff::PrimeField;
use pasta_curves::group::{Curve, CurveAffine};
use pasta_curves::pallas;
use threshold_mta::keyshare::{CalculatePriKey, CalculatePubKey, CollectOutputKeyShare, Input};
use threshold_mta::rng::{generate_random_u128_in_range, hash_message_to_u64};
use threshold_mta::signature::{pre_compute, Eddsa, MakeSignature, MakeSignature2};

#[test]
fn make_signature_text() {
    let ap = 37057;
    let bp = 45497;
    let cp = 58237;

    let aq = 55021;
    let bq = 61363;
    let cq = 50129;

    let an = ap * aq;
    let bn = bp * bq;
    let cn = cp * cq;

    let ak = generate_random_u128_in_range(1, u8::MAX as u128);
    let bk = generate_random_u128_in_range(1, u8::MAX as u128);
    let ck = generate_random_u128_in_range(1, u8::MAX as u128);

    let aw = generate_random_u128_in_range(1, u8::MAX as u128);
    let bw = generate_random_u128_in_range(1, u8::MAX as u128);
    let cw = generate_random_u128_in_range(1, u8::MAX as u128);

    let message = generate_random_u128_in_range(1, u64::MAX as u128);
    let r = generate_random_u128_in_range(1, u64::MAX as u128);
    let r2 = pallas::Scalar::from_u128(r);

    let instence = MakeSignature {
        selfk: vec![ak, bk, ck],
        mta_pub_n: vec![an, bn, cn],
        selfw: vec![aw, bw, cw],
        pri_p: vec![ap, bp, cp],
        pri_q: vec![aq, bq, cq],
        message,
        r: r2,
    };

    let result = instence.make_signature().unwrap();
    let mut ans = pallas::Scalar::zero();
    for i in &result {
        ans = ans + i;
    }
    let check = message * (ak + bk + ck) + r * (ak + bk + ck) * (aw + bw + cw);
    let check2 = pallas::Scalar::from_u128(check);
    assert_eq!(check2, ans);
}

#[test]
fn single_party_signature_formula() {
    let sig = MakeSignature2 {
        message: pallas::Scalar::from_u128(1000),
        k: 7,
        r: pallas::Scalar::from_u128(20),
        w: pallas::Scalar::from_u128(3),
    }
        .make_signature2();
    // k * (message + w*r) == 7 * (1000 + 60)
    assert_eq!(sig, pallas::Scalar::from_u128(7 * 1060));
}

#[test]
fn eddsa_test() {
    //there are 5 player join teh key generation
    let player1 = generate_random_u128_in_range(1, u64::MAX as u128);
    let player2 = generate_random_u128_in_range(1, u64::MAX as u128);
    let player3 = generate_random_u128_in_range(1, u64::MAX as u128);
    let player4 = generate_random_u128_in_range(1, u64::MAX as u128);
    let player5 = generate_random_u128_in_range(1, u64::MAX as u128);

    let input1 = Input { key_share: player1, rand_num: 379278, output_max: 5, output_min: 3 };
    let result1 = input1.output_key_share().unwrap();

    let input2 = Input { key_share: player2, rand_num: 4812738974, output_max: 5, output_min: 3 };
    let result2 = input2.output_key_share().unwrap();

    let input3 = Input { key_share: player3, rand_num: 43217, output_max: 5, output_min: 3 };
    let result3 = input3.output_key_share().unwrap();

    let input4 = Input { key_share: player4, rand_num: 12343432, output_max: 5, output_min: 3 };
    let result4 = input4.output_key_share().unwrap();

    let input5 = Input { key_share: player5, rand_num: 1234546, output_max: 5, output_min: 3 };
    let result5 = input5.output_key_share().unwrap();

    let mut user_vec = Vec::new();
    user_vec.extend(result1);
    user_vec.extend(result2);
    user_vec.extend(result3);
    user_vec.extend(result4);
    user_vec.extend(result5);

    let user1 = CollectOutputKeyShare { key_share: user_vec.clone(), member: 5, self_num: 1 };
    let (user1_prikey_share_a, user1_pubkey_share) = user1.collect().unwrap();
    let calculate_user1_prikey_share =
        CalculatePriKey { self_coefficient: 1, coefficient: vec![2, 3], pri_key: user1_prikey_share_a };
    let user1_prikey_share = calculate_user1_prikey_share.calculate().unwrap();

    let user2 = CollectOutputKeyShare { key_share: user_vec.clone(), member: 5, self_num: 2 };
    let (user2_prikey_share_a, user2_pubkey_share) = user2.collect().unwrap();
    let calculate_user2_prikey_share =
        CalculatePriKey { self_coefficient: 2, coefficient: vec![1, 3], pri_key: user2_prikey_share_a };
    let user2_prikey_share = calculate_user2_prikey_share.calculate().unwrap();

    let user3 = CollectOutputKeyShare { key_share: user_vec.clone(), member: 5, self_num: 3 };
    let (user3_prikey_share_a, user3_pubkey_share) = user3.collect().unwrap();
    let calculate_user3_prikey_share =
        CalculatePriKey { self_coefficient: 3, coefficient: vec![1, 2], pri_key: user3_prikey_share_a };
    let user3_prikey_share = calculate_user3_prikey_share.calculate().unwrap();

    let pub_key_calaulate = CalculatePubKey {
        degree: 3,
        coefficient: vec![1, 2, 3],
        pub_key: vec![user1_pubkey_share, user2_pubkey_share, user3_pubkey_share],
    };
    //they make the public key
    let pub_key = pub_key_calaulate.calculate().unwrap();
    //message is the thing they want to vote
    let message = generate_random_u128_in_range(1, u64::MAX as u128);
    let generator = pallas::Affine::generator();

    let (r1, s1) = pre_compute(user1_prikey_share, pallas::Scalar::from_u128(generate_random_u128_in_range(1, u128::MAX)), message);
    let user1_pubkey = (generator * user1_prikey_share).to_affine();

    let (r2, s2) = pre_compute(user2_prikey_share, pallas::Scalar::from_u128(generate_random_u128_in_range(1, u128::MAX)), message);
    let user2_pubkey = (generator * user2_prikey_share).to_affine();

    let (r3, s3) = pre_compute(user3_prikey_share, pallas::Scalar::from_u128(generate_random_u128_in_range(1, u128::MAX)), message);
    let user3_pubkey = (generator * user3_prikey_share).to_affine();

    let challange = hash_message_to_u64(message) as u128;
    //this is just for make sure the user1_prikey_share add together is as our expect
    //it doesn't exist in the real project
    let check1 = player1 + player2 + player3 + player4 + player5;
    let check2 = user1_prikey_share + user2_prikey_share + user3_prikey_share;
    let check3 = pallas::Scalar::from_u128(check1);
    let pri_key_equal = check2 == check3;
    assert_eq!(pri_key_equal, true);

    //here we use eddsa to verify singal signature from user1 to user3
    let e = pallas::Scalar::from_u128(challange);
    let check_user1 = Eddsa { response: s1, commitment: r1, pub_key: user1_pubkey, e }.eddsa();
    assert!(check_user1, "User1 had been hack");

    let check_user2 = Eddsa { response: s2, commitment: r2, pub_key: user2_pubkey, e }.eddsa();
    assert!(check_user2, "User2 had been hack");

    let check_user3 = Eddsa { response: s3, commitment: r3, pub_key: user3_pubkey, e }.eddsa();
    assert!(check_user3, "User3 had been hack");

    let submitted = ((user1_pubkey + user2_pubkey) + user3_pubkey).to_affine();
    assert_eq!(pub_key, submitted, "public key isn't right");

    let group_response = s1 + s2 + s3;
    let group_commitment = ((r1 + r2) + r3).to_affine();
    let group_check = Eddsa {
        response: group_response,
        commitment: group_commitment,
        pub_key,
        e,
    }
        .eddsa();
    assert_eq!(group_check, true)
}

#[test]
fn group_eddsa_test() {
    //there are 5 player join teh key generation
    let player1 = generate_random_u128_in_range(1, u64::MAX as u128);
    let player2 = generate_random_u128_in_range(1, u64::MAX as u128);
    let player3 = generate_random_u128_in_range(1, u64::MAX as u128);
    let player4 = generate_random_u128_in_range(1, u64::MAX as u128);
    let player5 = generate_random_u128_in_range(1, u64::MAX as u128);

    let input1 = Input { key_share: player1, rand_num: 379278, output_max: 5, output_min: 3 };
    let result1 = input1.output_key_share().unwrap();
    let input2 = Input { key_share: player2, rand_num: 4812738974, output_max: 5, output_min: 3 };
    let result2 = input2.output_key_share().unwrap();
    let input3 = Input { key_share: player3, rand_num: 43217, output_max: 5, output_min: 3 };
    let result3 = input3.output_key_share().unwrap();
    let input4 = Input { key_share: player4, rand_num: 12343432, output_max: 5, output_min: 3 };
    let result4 = input4.output_key_share().unwrap();
    let input5 = Input { key_share: player5, rand_num: 1234546, output_max: 5, output_min: 3 };
    let result5 = input5.output_key_share().unwrap();

    let mut user_vec = Vec::new();
    user_vec.extend(result1);
    user_vec.extend(result2);
    user_vec.extend(result3);
    user_vec.extend(result4);
    user_vec.extend(result5);

    let user1 = CollectOutputKeyShare { key_share: user_vec.clone(), member: 5, self_num: 1 };
    let (user1_prikey_share_a, user1_pubket_share) = user1.collect().unwrap();
    let calculate_user1_prikey_share =
        CalculatePriKey { self_coefficient: 1, coefficient: vec![2, 3], pri_key: user1_prikey_share_a };
    let user1_prikey_share = calculate_user1_prikey_share.calculate().unwrap();

    let user2 = CollectOutputKeyShare { key_share: user_vec.clone(), member: 5, self_num: 2 };
    let (user2_prikey_share_a, user2_pubket_share) = user2.collect().unwrap();
    let calculate_user2_prikey_share =
        CalculatePriKey { self_coefficient: 2, coefficient: vec![1, 3], pri_key: user2_prikey_share_a };
    let user2_prikey_share = calculate_user2_prikey_share.calculate().unwrap();

    let user3 = CollectOutputKeyShare { key_share: user_vec.clone(), member: 5, self_num: 3 };
    let (user3_prikey_share_a, user3_pubket_share) = user3.collect().unwrap();
    let calculate_user3_prikey_share =
        CalculatePriKey { self_coefficient: 3, coefficient: vec![1, 2], pri_key: user3_prikey_share_a };
    let user3_prikey_share = calculate_user3_prikey_share.calculate().unwrap();

    let pub_key_calaulate = CalculatePubKey {
        degree: 3,
        coefficient: vec![1, 2, 3],
        pub_key: vec![user1_pubket_share, user2_pubket_share, user3_pubket_share],
    };
    //they make the public key
    let pub_key = pub_key_calaulate.calculate().unwrap();
    //message is the thing they want to vote
    let message = generate_random_u128_in_range(1, u64::MAX as u128);

    let (r1, s1) = pre_compute(user1_prikey_share, pallas::Scalar::from_u128(generate_random_u128_in_range(1, u128::MAX)), message);
    let (r2, s2) = pre_compute(user2_prikey_share, pallas::Scalar::from_u128(generate_random_u128_in_range(1, u128::MAX)), message);
    let (r3, s3) = pre_compute(user3_prikey_share, pallas::Scalar::from_u128(generate_random_u128_in_range(1, u128::MAX)), message);

    let commitment = (((r1 + r2).to_affine()) + r3).to_affine();
    let response = (s1 + s2) + s3;
    let challange = hash_message_to_u64(message) as u128;
    //this is just for make sure the user1_prikey_share add together is as our expect
    let check1 = player1 + player2 + player3 + player4 + player5;
    let check2 = user1_prikey_share + user2_prikey_share + user3_prikey_share;
    let check3 = pallas::Scalar::from_u128(check1);
    let pri_key_equal = check2 == check3;
    assert_eq!(pri_key_equal, true);

    //here we use eddsa to verify signature
    let result = Eddsa {
        response,
        commitment,
        pub_key,
        e: pallas::Scalar::from_u128(challange),
    }
        .eddsa();
    assert_eq!(result, true)
}
