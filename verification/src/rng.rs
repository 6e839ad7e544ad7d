//! Randomness, drawn through the `rand` crate.
//!
//! Nothing is promised of a random value beyond its range; every function of
//! the library that consumes one states what holds whatever came back.

use vstd::prelude::*;

verus! {

/// Relies on `rand::Rng::gen_range` over an inclusive range: a value between
/// the two bounds.  The range must be non-empty.
#[verifier::external_body]
pub fn generate_random_u128_in_range(min: u128, max: u128) -> (r: u128)
    requires
        min <= max,
    ensures
        min <= r <= max,
{
    let mut rng = rand::thread_rng();
    rand::Rng::gen_range(&mut rng, min..=max)
}

/// A randomly chosen modulus candidate of the shape `2^16 - 2^k + 1` for
/// some `k` between 1 and 15.
pub fn rand_prime() -> (r: u128)
    ensures
        exists|k: u128| 1 <= k <= 15 && r == 65536 - (1u128 << k) + 1,
{
    let rand = generate_random_u128_in_range(1, 15);
    let a: u128 = 1 << 16;
    proof {
        assert((1u128 << 16) == 65536) by (bit_vector);
        assert(rand <= 15 ==> (1u128 << rand) <= 32768 && (1u128 << rand) >= 1) by (bit_vector);
    }
    let b: u128 = 1 << rand;
    let prime = a - b + 1;
    proof {
        assert(1 <= rand <= 15 && prime == 65536 - (1u128 << rand) + 1);
    }
    prime
}

/// Relies on `std::hash`'s default hasher: a 64-bit digest of the message,
/// used as a non-interactive challenge.  Nothing is promised of its value.
#[verifier::external_body]
pub fn hash_message_to_u64(message: u128) -> u64 {
    let mut hasher = std::collections::hash_map::DefaultHasher::new();
    std::hash::Hasher::write_u128(&mut hasher, message);
    std::hash::Hasher::finish(&hasher)
}

} // verus!
