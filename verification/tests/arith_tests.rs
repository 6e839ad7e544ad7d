use threshold_mta::arith::{find_mod_inverse, invmod, pow_and_mod};
use threshold_mta::rng::{generate_random_u128_in_range, rand_prime};
use threshold_mta::CoreError;

#[test]
fn pow_and_mod_exact_values() {
    assert_eq!(pow_and_mod(3, 4, 100), 81);
    assert_eq!(pow_and_mod(2, 10, 1000), 24);
    assert_eq!(pow_and_mod(7, 0, 13), 1);
    assert_eq!(pow_and_mod(0, 5, 13), 0);
    assert_eq!(pow_and_mod(10, 1, 7), 3);
    // a cube against a modulus near the cap
    let m = 0x1_0000_0000_0000_0000u128;
    let b = 1_234_567_891u128;
    assert_eq!(pow_and_mod(b, 3, m), b * b % m * b % m);
}

#[test]
fn invmod_finds_canonical_inverses() {
    assert_eq!(invmod(3, 7), Ok(5));
    assert_eq!(invmod(1, 7), Ok(1));
    // an inverse modulo a composite
    assert_eq!(invmod(7, 15), Ok(13));
    // values above the modulus are reduced first
    assert_eq!(invmod(10, 7), Ok(5));
}

#[test]
fn invmod_rejects_zero_and_shared_factors() {
    assert_eq!(invmod(0, 7), Err(CoreError::NoInverse));
    assert_eq!(invmod(4, 8), Err(CoreError::NoInverse));
    assert_eq!(invmod(6, 21), Err(CoreError::NoInverse));
    assert_eq!(invmod(5, 1), Err(CoreError::NoInverse));
}

#[test]
fn find_mod_inverse_matches_invmod() {
    assert_eq!(find_mod_inverse(3, 7), 5);
    assert_eq!(find_mod_inverse(1, 7), 1);
    assert_eq!(find_mod_inverse(4, 8), 0);
    assert_eq!(find_mod_inverse(0, 11), 0);
}

#[test]
fn random_range_is_respected() {
    for _ in 0..50 {
        let v = generate_random_u128_in_range(10, 20);
        assert!(10 <= v && v <= 20);
    }
    assert_eq!(generate_random_u128_in_range(42, 42), 42);
}

#[test]
fn rand_prime_has_expected_shape() {
    for _ in 0..20 {
        let v = rand_prime();
        let mut found = false;
        let mut k = 1u32;
        while k <= 15 {
            if v == 65536 - (1u128 << k) + 1 {
                found = true;
            }
            k += 1;
        }
        assert!(found);
    }
}
