//! A sigma protocol binding a Paillier ciphertext to a curve commitment of
//! the same secret.
//!
//! The prover publishes commitments `u1` (on the curve), `u2` (modulo `n^2`)
//! and `u3` (a Pedersen-style commitment modulo `n` under the bases `h1`,
//! `h2`), and answers a challenge `e` with the responses `s1`, `s2`, `s3`.
//! The verifier checks three equations at once; any single failure rejects
//! the proof.

use vstd::prelude::*;

verus! {

use vstd::arithmetic::mul::lemma_mul_inequality;
use vstd::arithmetic::div_mod::{
    lemma_mod_bound, lemma_mod_twice, lemma_mul_mod_noop_general, lemma_small_mod,
};
use vstd::arithmetic::power::{
    lemma_pow0, lemma_pow_adds, lemma_pow_distributes, lemma_pow_mod_noop, lemma_pow_multiplies,
    pow,
};

use pasta_curves::pallas;

use crate::arith::{find_mod_inverse, has_mod_inv, mod_inv, pow_and_mod, pow_mod, MAX_MODULUS};
use crate::curve::{
    point_add, point_eq, point_generator, point_log, point_mul, scalar_from_u128, scalar_int,
    scalar_neg, scalar_order,
};
use crate::paillier::MAX_PAILLIER_N;
use crate::rng::generate_random_u128_in_range;
use crate::CoreError;

/// The curve-side equation: `s1 * G - e * y == u1`.
pub open spec fn zk_eq1(u1: pallas::Affine, y: pallas::Affine, e: int, s1: int) -> bool {
    ((s1 % scalar_order()) + (point_log(y) * ((scalar_order() - e) % scalar_order()))
        % scalar_order()) % scalar_order() == point_log(u1)
}

/// The Paillier-side equation: `(n+1)^s1 * s2^n * w^(-e) == u2 (mod n^2)`,
/// demanding that the ciphertext be invertible.
pub open spec fn zk_eq2(n: nat, w: nat, e: nat, s1: nat, s2: nat, u2: nat) -> bool {
    let n2 = (n * n) as nat;
    has_mod_inv((w as int) % (n2 as int), n2 as int) && u2 as int == (pow_mod(
        mod_inv((w as int) % (n2 as int), n2 as int) as nat,
        e,
        n2,
    ) * ((pow_mod((n + 1) as nat, s1, n2) * pow_mod(s2, n, n2)) % (n2 as int))) % (n2 as int)
}

/// The Pedersen-side equation:
/// `h1^s1 * h2^s3 * (z mod n)^(n-(e+1)) == u3 (mod n)`.
pub open spec fn zk_eq3(n: nat, z: nat, e: nat, s1: nat, s3: nat, h1: nat, h2: nat, u3: nat) -> bool {
    u3 as int == (pow_mod((z % n) as nat, (n - (e + 1)) as nat, n) * ((pow_mod(h1, s1, n) * pow_mod(
        h2,
        s3,
        n,
    )) % (n as int))) % (n as int)
}

/// `pow_mod` agrees with `pow(..) % m` for every exponent once `m >= 2`.
proof fn lemma_pow_mod_is_pow(x: nat, eexp: nat, m: nat)
    requires
        2 <= m,
    ensures
        pow_mod(x, eexp, m) == pow(x as int, eexp) % (m as int),
{
    if eexp == 0 {
        lemma_pow0(x as int);
        lemma_small_mod(1, m);
    }
}

/// Congruent factors give congruent products.
proof fn lemma_mul_congruent(a: int, b: int, c: int, d: int, m: int)
    requires
        1 <= m,
        a % m == b % m,
        c % m == d % m,
    ensures
        (a * c) % m == (b * d) % m,
{
    lemma_mul_mod_noop_general(a, c, m);
    lemma_mul_mod_noop_general(b, d, m);
    assert(((a % m) * (c % m)) % m == ((b % m) * (d % m)) % m);
}

/// Completeness of the curve-side equation: with `s1 = e*secret + a`,
/// `s1 * G - e * y` lands back on `u1 = a * G`.
pub proof fn lemma_zk_eq1_complete(
    u1: pallas::Affine,
    y: pallas::Affine,
    n: nat,
    secret: nat,
    a: nat,
    e: nat,
    s1: nat,
)
    requires
        1 <= e,
        (e as int) < scalar_order(),
        a < scalar_order(),
        secret < scalar_order(),
        point_log(u1) == a as int % scalar_order(),
        point_log(y) == secret as int % scalar_order(),
        s1 == e * secret + a,
    ensures
        zk_eq1(u1, y, e as int, s1 as int),
{
    let q = scalar_order();
    lemma_small_mod(a, q as nat);
    lemma_small_mod(secret, q as nat);
    lemma_small_mod((q - e) as nat, q as nat);
    assert(point_log(y) == secret as int);
    let t = (secret as int * ((q - e) as int % q)) % q;
    assert(t == (secret as int * (q - e)) % q);
    assert(((s1 as int % q) + t) % q == (s1 as int + secret * (q - e)) % q) by {
        crate::arith::lemma_mod_addl(s1 as int, t, q);
        vstd::arithmetic::div_mod::lemma_add_mod_noop_right(s1 as int, secret * (q - e), q);
    };
    assert(s1 as int + secret * (q - e) == a + q * secret) by (nonlinear_arith)
        requires s1 == e * secret + a;
    vstd::arithmetic::div_mod::lemma_mod_multiples_vanish(secret as int, a as int, q);
    assert((a as int + q * secret) % q == a as int % q);
}

/// Completeness of the Paillier-side equation: an honestly built `u2`,
/// `s1`, `s2` pass it for any ciphertext of the stated shape that has an
/// inverse.
pub proof fn lemma_zk_eq2_complete(
    n: nat,
    secret: nat,
    r: nat,
    a: nat,
    b: nat,
    e: nat,
    s1: nat,
    s2: nat,
    u2: nat,
    w: nat,
)
    requires
        2 <= n,
        s1 == e * secret + a,
        s2 == pow_mod(r, e, n * n) * b,
        u2 as int == (pow_mod((n + 1) as nat, a, n * n) * pow_mod(b, n, n * n)) % ((n * n) as int),
        w as int == (pow_mod((n + 1) as nat, secret, n * n) * pow_mod(r, n, n * n)) % ((n
            * n) as int),
        has_mod_inv(w as int, (n * n) as int),
    ensures
        zk_eq2(n, w, e, s1, s2, u2),
{
    assert(4 <= n * n) by (nonlinear_arith)
        requires 2 <= n;
    let m = (n * n) as int;
    let g = n as int + 1;
    let gs = pow(g, secret);
    let gr = pow(r as int, n);
    let ga = pow(g, a);
    let gb = pow(b as int, n);
    lemma_pow_mod_is_pow((n + 1) as nat, secret, n * n);
    lemma_pow_mod_is_pow(r, n, n * n);
    lemma_pow_mod_is_pow((n + 1) as nat, a, n * n);
    lemma_pow_mod_is_pow(b, n, n * n);
    lemma_pow_mod_is_pow(r, e, n * n);
    lemma_pow_mod_is_pow((n + 1) as nat, s1, n * n);
    lemma_pow_mod_is_pow(s2, n, n * n);
    // w and u2 are the residues of gs * gr and ga * gb
    lemma_mul_mod_noop_general(gs, gr, m);
    assert(w as int == (gs * gr) % m);
    lemma_mul_mod_noop_general(ga, gb, m);
    assert(u2 as int == (ga * gb) % m);
    lemma_mod_bound(gs * gr, m);
    lemma_small_mod(w, (n * n) as nat);
    let wi = mod_inv(w as int, m);
    assert(0 <= wi < m && (wi * w) % m == 1) by {
        let x = choose|x: int| 0 <= x < m && #[trigger] ((x * w as int) % m) == 1;
        assert((x * w as int) % m == 1);
    };
    lemma_pow_mod_is_pow(wi as nat, e, n * n);
    assert(wi as nat as int == wi);
    let p1 = pow(g, s1);
    let p2 = pow(s2 as int, n);
    let p3 = pow(wi, e);
    // the right-hand side of the equation is (p3 * (p1 * p2)) % m
    lemma_mul_mod_noop_general(p1, p2, m);
    assert((pow_mod((n + 1) as nat, s1, n * n) * pow_mod(s2, n, n * n)) % m == (p1 * p2) % m);
    let rhs = (pow_mod(wi as nat, e, n * n) * (((p1 % m) * (p2 % m)) % m)) % m;
    assert(rhs == (p3 * (p1 * p2)) % m) by {
        lemma_mod_twice(p3, m);
        lemma_mod_twice(p1 * p2, m);
        lemma_mul_congruent(p3 % m, p3, (p1 * p2) % m, p1 * p2, m);
    };
    // p1 == pow(gs, e) * ga
    lemma_pow_adds(g, e * secret, a);
    lemma_pow_multiplies(g, secret, e);
    assert(secret * e == e * secret) by (nonlinear_arith);
    assert(p1 == pow(gs, e) * ga);
    // p2 ≡ pow(gr, e) * gb  (mod m)
    let re = pow(r as int, e);
    lemma_mod_bound(re, m);
    assert(s2 as int == (re % m) * b);
    lemma_pow_distributes(re % m, b as int, n);
    assert(p2 == pow(re % m, n) * gb);
    lemma_pow_mod_noop(re, n, m);
    assert(pow(re % m, n) % m == pow(re, n) % m);
    lemma_pow_multiplies(r as int, e, n);
    lemma_pow_multiplies(r as int, n, e);
    assert(e * n == n * e) by (nonlinear_arith);
    assert(pow(re, n) == pow(gr, e));
    assert(p2 % m == (pow(gr, e) * gb) % m) by {
        lemma_mul_congruent(pow(re % m, n), pow(re, n), gb, gb, m);
    };
    // hence p1 * p2 ≡ (pow(gs,e) * ga) * (pow(gr,e) * gb)  (mod m)
    assert((p1 * p2) % m == ((pow(gs, e) * ga) * (pow(gr, e) * gb)) % m) by {
        lemma_mul_congruent(p1, pow(gs, e) * ga, p2, pow(gr, e) * gb, m);
    };
    assert(rhs == (p3 * ((pow(gs, e) * ga) * (pow(gr, e) * gb))) % m) by {
        lemma_mul_congruent(p3, p3, p1 * p2, (pow(gs, e) * ga) * (pow(gr, e) * gb), m);
    };
    // regroup so the inverse cancels the ciphertext
    let cancel = p3 * pow(gs, e) * pow(gr, e);
    assert(p3 * ((pow(gs, e) * ga) * (pow(gr, e) * gb)) == cancel * (ga * gb)) by (nonlinear_arith)
        requires cancel == p3 * pow(gs, e) * pow(gr, e);
    lemma_pow_distributes(wi, gs, e);
    lemma_pow_distributes(wi * gs, gr, e);
    assert(cancel == pow(wi * gs * gr, e)) by {
        assert(pow(wi * gs, e) == pow(wi, e) * pow(gs, e));
        assert(pow((wi * gs) * gr, e) == pow(wi * gs, e) * pow(gr, e));
        assert(pow(wi, e) * pow(gs, e) * pow(gr, e) == (pow(wi, e) * pow(gs, e)) * pow(gr, e));
    };
    // (wi * gs * gr) ≡ wi * w ≡ 1  (mod m)
    assert((wi * gs * gr) % m == 1) by {
        assert(wi * gs * gr == wi * (gs * gr)) by (nonlinear_arith);
        lemma_mul_congruent(wi, wi, gs * gr, w as int, m);
        lemma_small_mod(1, (n * n) as nat);
        lemma_mod_bound(wi * (gs * gr), m);
    };
    assert(pow(wi * gs * gr, e) % m == 1) by {
        lemma_pow_mod_noop(wi * gs * gr, e, m);
        vstd::arithmetic::power::lemma1_pow(e);
        lemma_small_mod(1, (n * n) as nat);
    };
    assert(rhs == (1 * (ga * gb)) % m) by {
        assert((cancel * (ga * gb)) % m == (1 * (ga * gb)) % m) by {
            lemma_small_mod(1, (n * n) as nat);
            lemma_mul_congruent(cancel, 1, ga * gb, ga * gb, m);
        };
    };
}

/// Completeness of the Pedersen-side equation, under the order condition
/// `z^(n-1) ≡ 1 (mod n)` that the scheme relies on (it holds when `n` is
/// prime, by Fermat's little theorem; for a composite modulus the check can
/// reject an honest transcript).
pub proof fn lemma_zk_eq3_complete(
    n: nat,
    secret: nat,
    r: nat,
    p: nat,
    h1: nat,
    h2: nat,
    a: nat,
    e: nat,
    s1: nat,
    s3: nat,
    z: nat,
    u3: nat,
)
    requires
        2 <= n,
        1 <= e,
        e + 1 <= n,
        s1 == e * secret + a,
        s3 == e * p + r,
        z as int == (pow_mod(h1, secret, n) * pow_mod(h2, p, n)) % (n as int),
        u3 as int == (pow_mod(h1, a, n) * pow_mod(h2, r, n)) % (n as int),
        pow(z as int, (n - 1) as nat) % (n as int) == 1,
    ensures
        zk_eq3(n, z, e, s1, s3, h1, h2, u3),
{
    let m = n as int;
    let hs = pow(h1 as int, secret);
    let hp = pow(h2 as int, p);
    let ha = pow(h1 as int, a);
    let hr = pow(h2 as int, r);
    lemma_pow_mod_is_pow(h1, secret, n);
    lemma_pow_mod_is_pow(h2, p, n);
    lemma_pow_mod_is_pow(h1, a, n);
    lemma_pow_mod_is_pow(h2, r, n);
    lemma_pow_mod_is_pow(h1, s1, n);
    lemma_pow_mod_is_pow(h2, s3, n);
    let z0 = hs * hp;
    lemma_mul_mod_noop_general(hs, hp, m);
    assert(z as int == z0 % m);
    lemma_mod_bound(z0, m);
    lemma_small_mod(z, n);
    lemma_mul_mod_noop_general(ha, hr, m);
    assert(u3 as int == (ha * hr) % m);
    let ee = (n - (e + 1)) as nat;
    lemma_pow_mod_is_pow((z % n) as nat, ee, n);
    let p6 = pow(h1 as int, s1);
    let p7 = pow(h2 as int, s3);
    let p8 = pow(z as int, ee);
    // the right-hand side of the equation is (p8 * (p6 * p7)) % m
    lemma_mul_mod_noop_general(p6, p7, m);
    let rhs = ((p8 % m) * (((p6 % m) * (p7 % m)) % m)) % m;
    assert(rhs == (p8 * (p6 * p7)) % m) by {
        lemma_mod_twice(p8, m);
        lemma_mod_twice(p6 * p7, m);
        lemma_mul_congruent(p8 % m, p8, (p6 * p7) % m, p6 * p7, m);
    };
    // p6 == pow(hs, e) * ha and p7 == pow(hp, e) * hr
    lemma_pow_adds(h1 as int, e * secret, a);
    lemma_pow_multiplies(h1 as int, secret, e);
    assert(secret * e == e * secret) by (nonlinear_arith);
    assert(p6 == pow(hs, e) * ha);
    lemma_pow_adds(h2 as int, e * p, r);
    lemma_pow_multiplies(h2 as int, p, e);
    assert(p * e == e * p) by (nonlinear_arith);
    assert(p7 == pow(hp, e) * hr);
    // p8 ≡ pow(z0, n - e - 1)  (mod m)
    lemma_pow_mod_noop(z0, ee, m);
    assert(p8 % m == pow(z0, ee) % m);
    // assemble and cancel with z0^(n-1)
    assert((p6 * p7) % m == ((pow(hs, e) * ha) * (pow(hp, e) * hr)) % m);
    assert(rhs == (pow(z0, ee) * ((pow(hs, e) * ha) * (pow(hp, e) * hr))) % m) by {
        lemma_mul_congruent(p8, pow(z0, ee), p6 * p7, (pow(hs, e) * ha) * (pow(hp, e) * hr), m);
    };
    lemma_pow_distributes(hs, hp, e);
    assert(pow(z0, e) == pow(hs, e) * pow(hp, e));
    lemma_pow_adds(z0, ee, e);
    assert(pow(z0, (n - 1) as nat) == pow(z0, ee) * pow(z0, e));
    let big = pow(z0, (n - 1) as nat) * (ha * hr);
    assert(pow(z0, ee) * ((pow(hs, e) * ha) * (pow(hp, e) * hr)) == big) by (nonlinear_arith)
        requires
            pow(z0, (n - 1) as nat) == pow(z0, ee) * pow(z0, e),
            pow(z0, e) == pow(hs, e) * pow(hp, e),
            big == pow(z0, (n - 1) as nat) * (ha * hr),
    ;
    // z0^(n-1) ≡ z^(n-1) ≡ 1  (mod m)
    lemma_pow_mod_noop(z0, (n - 1) as nat, m);
    assert(pow(z0, (n - 1) as nat) % m == 1);
    assert(rhs == (1 * (ha * hr)) % m) by {
        lemma_small_mod(1, n);
        lemma_mul_congruent(pow(z0, (n - 1) as nat), 1, ha * hr, ha * hr, m);
    };
}

/// Soundness-of-acceptance for an honest prover: a transcript built by
/// `zk_transcript` on a ciphertext of the committed secret passes all three
/// checks of `zk_verify`, provided the ciphertext is invertible and the
/// Pedersen commitment satisfies the order condition `z^(n-1) ≡ 1 (mod n)`
/// (true for a prime modulus; a composite modulus can fail it, and the
/// verifier then rejects even an honest transcript).
pub proof fn lemma_zk_completeness(
    n: nat,
    secret: nat,
    r: nat,
    h1: nat,
    h2: nat,
    a: nat,
    b: nat,
    p: nat,
    e: nat,
    u1: pallas::Affine,
    y: pallas::Affine,
    z: nat,
    u2: nat,
    u3: nat,
    s1: nat,
    s2: nat,
    s3: nat,
    w: nat,
)
    requires
        2 <= n,
        1 <= e,
        e + 1 <= n,
        (n as int) < scalar_order(),
        a < scalar_order(),
        secret < scalar_order(),
        point_log(u1) == a as int % scalar_order(),
        point_log(y) == secret as int % scalar_order(),
        s1 == e * secret + a,
        s2 == pow_mod(r, e, n * n) * b,
        s3 == e * p + r,
        z as int == (pow_mod(h1, secret, n) * pow_mod(h2, p, n)) % (n as int),
        u2 as int == (pow_mod((n + 1) as nat, a, n * n) * pow_mod(b, n, n * n)) % ((n * n) as int),
        u3 as int == (pow_mod(h1, a, n) * pow_mod(h2, r, n)) % (n as int),
        w as int == (pow_mod((n + 1) as nat, secret, n * n) * pow_mod(r, n, n * n)) % ((n
            * n) as int),
        has_mod_inv(w as int, (n * n) as int),
        pow(z as int, (n - 1) as nat) % (n as int) == 1,
    ensures
        zk_eq1(u1, y, e as int, s1 as int),
        zk_eq2(n, w, e, s1, s2, u2),
        zk_eq3(n, z, e, s1, s3, h1, h2, u3),
{
    lemma_zk_eq1_complete(u1, y, n, secret, a, e, s1);
    lemma_zk_eq2_complete(n, secret, r, a, b, e, s1, s2, u2, w);
    lemma_zk_eq3_complete(n, secret, r, p, h1, h2, a, e, s1, s3, z, u3);
}

/// The prover's secret state: its public modulus, the committed secret, and
/// the Paillier randomizer of the ciphertext being proven.
pub struct PrepareZk {
    pub n: u128,
    pub secret: u128,
    pub r: u128,
}

/// The relations an honestly built transcript satisfies, over the secret
/// state and the sampled values: the logarithms of the two commitment
/// points, the three residue commitments, the challenge, and the three
/// responses.
pub open spec fn zk_transcript_rel(
    n: nat,
    secret: nat,
    r: nat,
    h1: nat,
    h2: nat,
    a: nat,
    b: nat,
    p: nat,
    e: nat,
    pts: Seq<pallas::Affine>,
    nums: Seq<u128>,
) -> bool {
    let n2 = (n * n) as nat;
    &&& pts.len() == 2
    &&& nums.len() == 9
    &&& point_log(pts[0]) == a as int % scalar_order()
    &&& point_log(pts[1]) == secret as int % scalar_order()
    &&& nums[0] as int == (pow_mod(h1, secret, n) * pow_mod(h2, p, n)) % (n as int)
    &&& nums[1] as int == (pow_mod((n + 1) as nat, a, n2) * pow_mod(b, n, n2)) % (n2 as int)
    &&& nums[2] as int == (pow_mod(h1, a, n) * pow_mod(h2, r, n)) % (n as int)
    &&& nums[3] == e
    &&& nums[4] as int == e * secret + a
    &&& nums[5] as int == pow_mod(r, e, n2) * b
    &&& nums[6] as int == e * p + r
    &&& nums[7] == h1
    &&& nums[8] == h2
}

/// A response of the sigma protocol would exceed the integer width for
/// these sampled values.
pub open spec fn zk_response_overflow(secret: nat, r: nat, a: nat, p: nat, e: nat) -> bool {
    e * secret + a > u128::MAX || e * p + r > u128::MAX
}

/// The deterministic half of the prover: builds the whole transcript from
/// the secret state, the Pedersen bases and the sampled values.
pub fn zk_transcript(
    n: u128,
    secret: u128,
    r: u128,
    h1: u128,
    h2: u128,
    a: u128,
    b: u128,
    p: u128,
    e: u128,
) -> (res: Result<([pallas::Affine; 2], [u128; 9]), CoreError>)
    requires
        2 <= n <= MAX_PAILLIER_N,
        b <= n,
    ensures
        match res {
            Ok(t) => zk_transcript_rel(
                n as nat,
                secret as nat,
                r as nat,
                h1 as nat,
                h2 as nat,
                a as nat,
                b as nat,
                p as nat,
                e as nat,
                t.0@,
                t.1@,
            ),
            Err(err) => err == CoreError::Overflow && zk_response_overflow(
                secret as nat,
                r as nat,
                a as nat,
                p as nat,
                e as nat,
            ),
        },
{
    let generator = point_generator();
    let yfq = scalar_from_u128(secret);
    let y = point_mul(&generator, &yfq);
    let afq = scalar_from_u128(a);
    let u1 = point_mul(&generator, &afq);
    proof {
        lemma_n2_cap(n as int);
    }
    let n2 = n * n;
    let z1 = pow_and_mod(h1, secret, n);
    let z2 = pow_and_mod(h2, p, n);
    proof {
        lemma_residue_product_fits(z1 as int, z2 as int, n as int);
    }
    let z = (z1 * z2) % n;
    let u21 = pow_and_mod(n + 1, a, n2);
    let u22 = pow_and_mod(b, n, n2);
    proof {
        lemma_residue_product_fits(u21 as int, u22 as int, n2 as int);
    }
    let u2 = (u21 * u22) % n2;
    let u31 = pow_and_mod(h1, a, n);
    let u32 = pow_and_mod(h2, r, n);
    proof {
        lemma_residue_product_fits(u31 as int, u32 as int, n as int);
    }
    let u3 = (u31 * u32) % n;
    // responses; the products are bounded, the sums are checked
    if e != 0 && secret > u128::MAX / e {
        proof {
            crate::arith::lemma_mul_overflow_check(secret as int, e as int);
            lemma_commute(e as int, secret as int);
        }
        return Err(CoreError::Overflow);
    }
    proof {
        if e != 0 {
            crate::arith::lemma_mul_overflow_check(secret as int, e as int);
        }
        lemma_commute(e as int, secret as int);
    }
    let es = e * secret;
    if es > u128::MAX - a {
        return Err(CoreError::Overflow);
    }
    let s1 = es + a;
    let s20 = pow_and_mod(r, e, n2);
    proof {
        lemma_s2_fits(s20 as int, b as int, n as int);
    }
    let s2 = s20 * b;
    if e != 0 && p > u128::MAX / e {
        proof {
            crate::arith::lemma_mul_overflow_check(p as int, e as int);
            lemma_commute(e as int, p as int);
        }
        return Err(CoreError::Overflow);
    }
    proof {
        if e != 0 {
            crate::arith::lemma_mul_overflow_check(p as int, e as int);
        }
        lemma_commute(e as int, p as int);
    }
    let ep = e * p;
    if ep > u128::MAX - r {
        return Err(CoreError::Overflow);
    }
    let s3 = ep + r;
    proof {
        lemma_small_mod(a as nat, scalar_order() as nat);
        lemma_small_mod(secret as nat, scalar_order() as nat);
    }
    Ok(([u1, y], [z, u2, u3, e, s1, s2, s3, h1, h2]))
}

/// `e * x == x * e`.
proof fn lemma_commute(e: int, x: int)
    ensures
        e * x == x * e,
{
    vstd::arithmetic::mul::lemma_mul_is_commutative(e, x);
}

/// The working modulus stays within the exponentiation cap.
proof fn lemma_n2_cap(n: int)
    requires
        2 <= n <= MAX_PAILLIER_N,
    ensures
        4 <= n * n <= MAX_MODULUS,
{
    assert(4 <= n * n && n * n <= 0x1_0000_0000_0000_0000) by (nonlinear_arith)
        requires 2 <= n <= 0x1_0000_0000;
}

/// Two residues (or ones) below a capped modulus multiply inside `u128`.
proof fn lemma_residue_product_fits(v1: int, v2: int, m: int)
    requires
        2 <= m <= MAX_MODULUS,
        0 <= v1,
        0 <= v2,
        v1 < m || v1 == 1,
        v2 < m || v2 == 1,
    ensures
        v1 * v2 <= u128::MAX,
{
    assert(v1 * v2 < 0x1_0000_0000_0000_0000_0000_0000_0000_0000) by (nonlinear_arith)
        requires 0 <= v1 < 0x1_0000_0000_0000_0000 && 0 <= v2 < 0x1_0000_0000_0000_0000;
}

/// `s2 = (r^e mod n^2) * b` with `b <= n` fits in `u128`.
proof fn lemma_s2_fits(s20: int, b: int, n: int)
    requires
        2 <= n <= MAX_PAILLIER_N,
        0 <= s20,
        s20 < n * n || s20 == 1,
        0 <= b <= n,
    ensures
        s20 * b <= u128::MAX,
{
    assert(s20 * b < 0x1_0000_0000_0000_0000_0000_0000_0000_0000) by (nonlinear_arith)
        requires
            0 <= s20 && 0 <= b && b <= n && n <= 0x1_0000_0000 && (s20 < n * n || s20 == 1),
    ;
}

impl PrepareZk {
    /// Samples the Pedersen bases, the blinding values and the challenge,
    /// and builds the transcript: commitments `(u1, y)` and the numbers
    /// `(z, u2, u3, e, s1, s2, s3, h1, h2)`, tied to the sampled values by
    /// the transcript relations.  `Overflow` is returned exactly when a
    /// response for the sampled values would exceed the integer width.
    pub fn prepare_zk_verify(&self) -> (res: Result<([pallas::Affine; 2], [u128; 9]), CoreError>)
        requires
            2 <= self.n <= MAX_PAILLIER_N,
        ensures
            match res {
                Ok(t) => exists|h1: nat, h2: nat, a: nat, b: nat, p: nat, e: nat|
                    #![trigger zk_transcript_rel(self.n as nat, self.secret as nat, self.r as nat, h1, h2, a, b, p, e, t.0@, t.1@)]
                    1 <= h1 <= 0xffff_ffff_ffff_ffff && 1 <= h2 <= 0xffff_ffff_ffff_ffff && 1 <= a
                        <= 65535 && 1 <= b <= self.n && 1 <= p <= 65535 * (self.n as nat) && 1 <= e
                        <= 255 && zk_transcript_rel(
                        self.n as nat,
                        self.secret as nat,
                        self.r as nat,
                        h1,
                        h2,
                        a,
                        b,
                        p,
                        e,
                        t.0@,
                        t.1@,
                    ),
                Err(err) => err == CoreError::Overflow && exists|a: nat, p: nat, e: nat|
                    #![trigger zk_response_overflow(self.secret as nat, self.r as nat, a, p, e)]
                    1 <= a <= 65535 && 1 <= p <= 65535 * (self.n as nat) && 1 <= e <= 255
                        && zk_response_overflow(self.secret as nat, self.r as nat, a, p, e),
            },
    {
        let range_q = generate_random_u128_in_range(1, 65535);
        let h1 = generate_random_u128_in_range(1, 0xffff_ffff_ffff_ffff);
        let h2 = generate_random_u128_in_range(1, 0xffff_ffff_ffff_ffff);
        let a = generate_random_u128_in_range(1, range_q);
        let b = generate_random_u128_in_range(1, self.n);
        proof {
            assert(2 <= range_q as int * self.n as int <= 0x1_0000_0000_0000_0000)
                by (nonlinear_arith)
                requires 1 <= range_q <= 65535 && 2 <= self.n <= 0x1_0000_0000;
        }
        let p = generate_random_u128_in_range(1, range_q * self.n);
        let e = generate_random_u128_in_range(1, 255);
        proof {
            lemma_mul_inequality(range_q as int, 65535, self.n as int);
        }
        zk_transcript(self.n, self.secret, self.r, h1, h2, a, b, p, e)
    }
}

/// The verifier's view: the public modulus, the ciphertext, and the
/// transcript to check.
pub struct ZkVerify {
    pub n: u128,
    pub cipher: u128,
    pub u1: pallas::Affine,
    pub y: pallas::Affine,
    pub z: u128,
    pub u2: u128,
    pub u3: u128,
    pub e: u128,
    pub s1: u128,
    pub s2: u128,
    pub s3: u128,
    pub h1: u128,
    pub h2: u128,
}

impl ZkVerify {
    /// Checks the three equations of the protocol; all must hold.  A
    /// ciphertext with no inverse modulo `n^2` is a verification failure,
    /// not a panic.
    pub fn zk_verify(&self) -> (res: bool)
        requires
            2 <= self.n <= MAX_PAILLIER_N,
            self.e + 1 <= self.n,
        ensures
            res == (zk_eq1(self.u1, self.y, self.e as int, self.s1 as int) && zk_eq2(
                self.n as nat,
                self.cipher as nat,
                self.e as nat,
                self.s1 as nat,
                self.s2 as nat,
                self.u2 as nat,
            ) && zk_eq3(
                self.n as nat,
                self.z as nat,
                self.e as nat,
                self.s1 as nat,
                self.s3 as nat,
                self.h1 as nat,
                self.h2 as nat,
                self.u3 as nat,
            )),
    {
        let n = self.n;
        proof {
            lemma_n2_cap(n as int);
        }
        let n2 = n * n;
        let generator = point_generator();
        // curve-side equation
        let e_neg = scalar_neg(&scalar_from_u128(self.e));
        let s1fq = scalar_from_u128(self.s1);
        let s1g = point_mul(&generator, &s1fq);
        let ye_neg = point_mul(&self.y, &e_neg);
        let s1g_plus_ye_neg = point_add(&s1g, &ye_neg);
        let result1 = point_eq(&s1g_plus_ye_neg, &self.u1);
        // Paillier-side equation
        let wm = self.cipher % n2;
        let w_inv = find_mod_inverse(wm, n2);
        proof {
            lemma_residue_product_fits(wm as int, w_inv as int, n2 as int);
        }
        let check = (wm * w_inv) % n2;
        if check != 1 {
            proof {
                if has_mod_inv(wm as int, n2 as int) {
                    vstd::arithmetic::mul::lemma_mul_is_commutative(wm as int, w_inv as int);
                }
            }
            return false;
        }
        proof {
            if !has_mod_inv(wm as int, n2 as int) {
                assert(w_inv == 0);
                assert((wm as int * 0) % (n2 as int) == 0) by {
                    lemma_small_mod(0, n2 as nat);
                };
            }
            vstd::arithmetic::mul::lemma_mul_is_commutative(wm as int, w_inv as int);
            crate::arith::lemma_mod_inv_unique(wm as int, n2 as int, w_inv as int);
        }
        let v1 = pow_and_mod(n + 1, self.s1, n2);
        let v2 = pow_and_mod(self.s2, n, n2);
        let v3 = pow_and_mod(w_inv, self.e, n2);
        proof {
            lemma_residue_product_fits(v1 as int, v2 as int, n2 as int);
        }
        let v4 = (v1 * v2) % n2;
        proof {
            lemma_residue_product_fits(v3 as int, v4 as int, n2 as int);
        }
        let v5 = (v3 * v4) % n2;
        let result2 = self.u2 == v5;
        // Pedersen-side equation
        let z2 = self.z % n;
        let v6 = pow_and_mod(self.h1, self.s1, n);
        let v7 = pow_and_mod(self.h2, self.s3, n);
        let neg_e3 = n - (self.e + 1);
        let v8 = pow_and_mod(z2, neg_e3, n);
        proof {
            lemma_residue_product_fits(v6 as int, v7 as int, n as int);
        }
        let v9 = (v6 * v7) % n;
        proof {
            lemma_residue_product_fits(v8 as int, v9 as int, n as int);
        }
        let v = (v8 * v9) % n;
        let result3 = self.u3 == v;
        result1 && result2 && result3
    }
}

} // verus!
