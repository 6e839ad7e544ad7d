use threshold_mta::paillier::{paillier_key_valid, Decrypt, Encrypt, EncryptAddMut};
use threshold_mta::CoreError;

const P: u128 = 37057;
const Q: u128 = 55021;
const N: u128 = P * Q;

#[test]
fn paillier_round_trip() {
    let m = 123_456_789u128;
    let r = 987_654_321u128;
    let cipher = Encrypt { mta_pub_n: N, rand: r, message: m }.encrypt().unwrap();
    let plain = Decrypt { pri_p: P, pri_q: Q, cipher }.decrypt().unwrap();
    assert_eq!(plain, m);
}

#[test]
fn paillier_round_trip_zero_message() {
    let cipher = Encrypt { mta_pub_n: N, rand: 4242, message: 0 }.encrypt().unwrap();
    let plain = Decrypt { pri_p: P, pri_q: Q, cipher }.decrypt().unwrap();
    assert_eq!(plain, 0);
}

#[test]
fn homomorphic_rescale_and_mask() {
    let m = 55_555u128;
    let cipher = Encrypt { mta_pub_n: N, rand: 424_242, message: m }.encrypt().unwrap();
    let masked = EncryptAddMut {
        mta_pub_n: N,
        cipher,
        add_num: 5555,
        mut_num: 777,
        rand: 999_983,
    }
        .mut_and_add();
    let plain = Decrypt { pri_p: P, pri_q: Q, cipher: masked }.decrypt().unwrap();
    assert_eq!(plain, (m * 777 + 5555) % N);
}

#[test]
fn rescale_and_mask_compose_like_the_separate_steps() {
    let m = 1234u128;
    let cipher = Encrypt { mta_pub_n: N, rand: 777_777, message: m }.encrypt().unwrap();
    let step = EncryptAddMut { mta_pub_n: N, cipher, add_num: 99, mut_num: 321, rand: 1311 };
    let scaled = step.encrypt_mut();
    let both = EncryptAddMut { mta_pub_n: N, cipher: scaled, add_num: 99, mut_num: 321, rand: 1311 }
        .encrypt_add();
    assert_eq!(both, step.mut_and_add());
}

#[test]
fn encrypt_rejects_bad_randomizer_and_message() {
    assert_eq!(
        Encrypt { mta_pub_n: N, rand: 0, message: 5 }.encrypt(),
        Err(CoreError::RandomizerOutOfRange)
    );
    assert_eq!(
        Encrypt { mta_pub_n: N, rand: N, message: 5 }.encrypt(),
        Err(CoreError::RandomizerOutOfRange)
    );
    assert_eq!(
        Encrypt { mta_pub_n: N, rand: N + 7, message: 5 }.encrypt(),
        Err(CoreError::RandomizerOutOfRange)
    );
    assert_eq!(
        Encrypt { mta_pub_n: N, rand: 5, message: N }.encrypt(),
        Err(CoreError::MessageOutOfRange)
    );
}

#[test]
fn decrypt_rejects_invalid_keys_and_zero_ciphertexts() {
    // gcd(21, 2*6) == 3: the key invariant fails and no inverse exists
    assert_eq!(
        Decrypt { pri_p: 3, pri_q: 7, cipher: 5 }.decrypt(),
        Err(CoreError::InvalidKey)
    );
    assert_eq!(
        Decrypt { pri_p: P, pri_q: Q, cipher: 0 }.decrypt(),
        Err(CoreError::MalformedCiphertext)
    );
}

#[test]
fn key_invariant_check() {
    assert!(paillier_key_valid(P, Q));
    assert!(!paillier_key_valid(3, 7));
}

#[test]
fn mta_two_party_additive_shares() {
    // A holds k, B holds its multiplicative share and a mask
    let k = 564u128;
    let share = 466u128;
    let mask = 777_777u128;
    let cipher = Encrypt { mta_pub_n: N, rand: 12_345, message: k }.encrypt().unwrap();
    let masked = EncryptAddMut {
        mta_pub_n: N,
        cipher,
        add_num: mask,
        mut_num: share,
        rand: 55_667,
    }
        .mut_and_add();
    let decrypted = Decrypt { pri_p: P, pri_q: Q, cipher: masked }.decrypt().unwrap();
    // the decrypted value is exactly k*share + mask, and removing the mask
    // recovers the product
    assert_eq!(decrypted, k * share + mask);
    assert_eq!((decrypted - mask) % N, k * share);
}

#[test]
fn mta_product_just_under_the_modulus_round_trips() {
    let k = 1u128;
    let share = N - 1;
    let mask = 1u128;
    let cipher = Encrypt { mta_pub_n: N, rand: 31_337, message: k }.encrypt().unwrap();
    let masked = EncryptAddMut {
        mta_pub_n: N,
        cipher,
        add_num: mask,
        mut_num: share,
        rand: 90_001,
    }
        .mut_and_add();
    let decrypted = Decrypt { pri_p: P, pri_q: Q, cipher: masked }.decrypt().unwrap();
    // k*share + mask == n wraps to 0; subtracting the mask modulo n still
    // recovers k*share
    assert_eq!(decrypted, 0);
    assert_eq!((decrypted + N - mask % N) % N, k * share);
}
