//! Fixed-width modular arithmetic: exponentiation and modular inverses.
//!
//! Everything above in the crate reduces to these operations.  All values are
//! `u128`; moduli are capped so that a product of two reduced operands still
//! fits in the accumulator width.

use vstd::prelude::*;

verus! {

use vstd::arithmetic::div_mod::{
    lemma_fundamental_div_mod, lemma_mod_bound, lemma_mod_twice, lemma_mul_mod_noop_general,
    lemma_small_mod,
};
use vstd::arithmetic::mul::{
    lemma_mul_inequality, lemma_mul_is_commutative, lemma_mul_is_distributive_add,
    lemma_mul_is_distributive_sub, lemma_mul_nonnegative, lemma_mul_upper_bound,
};
use vstd::arithmetic::power::{
    lemma_pow1, lemma_pow_adds, lemma_pow_mod_noop, lemma_pow_multiplies, pow,
};

use crate::CoreError;

/// The largest modulus the exponentiation routine accepts: with a modulus of
/// at most 2^64, a product of two reduced residues fits in a `u128`.
pub const MAX_MODULUS: u128 = 0x1_0000_0000_0000_0000;

/// `base^exponent mod modulus`, with the zero exponent mapped to 1
/// regardless of the modulus; what `pow_and_mod` computes.
pub open spec fn pow_mod(base: nat, exponent: nat, modulus: nat) -> int {
    if exponent == 0 {
        1
    } else {
        pow(base as int, exponent) % (modulus as int)
    }
}

/// Square-and-multiply exponentiation: `base^exponent mod modulus`, with the
/// zero exponent special-cased to 1 regardless of the modulus.
pub fn pow_and_mod(base: u128, exponent: u128, modulus: u128) -> (r: u128)
    requires
        1 <= modulus <= MAX_MODULUS,
    ensures
        r as int == pow_mod(base as nat, exponent as nat, modulus as nat),
        exponent == 0 ==> r == 1,
        exponent > 0 ==> r as int == pow(base as int, exponent as nat) % (modulus as int),
        exponent > 0 ==> r < modulus,
{
    if exponent == 0 {
        return 1;
    }
    let mut b: u128 = base % modulus;
    let mut e: u128 = exponent;
    let mut acc: u128 = 1;
    proof {
        lemma_pow_mod_noop(base as int, exponent as nat, modulus as int);
    }
    while e > 0
        invariant
            1 <= modulus <= MAX_MODULUS,
            b < modulus,
            acc < modulus || (acc == 1 && e > 0),
            (acc as int * pow(b as int, e as nat)) % (modulus as int) == pow(
                base as int,
                exponent as nat,
            ) % (modulus as int),
        decreases e,
    {
        let ghost m = modulus as int;
        let ghost a0 = acc as int;
        let ghost b0 = b as int;
        let ghost e0 = e as nat;
        if e % 2 == 1 {
            proof {
                lemma_mul_upper_bound(
                    acc as int,
                    MAX_MODULUS as int,
                    b as int,
                    MAX_MODULUS as int - 1,
                );
            }
            acc = (acc * b) % modulus;
            proof {
                // pow(b0, e0) == b0 * pow(b0, e0 - 1)
                lemma_pow1(b0);
                lemma_pow_adds(b0, 1, (e0 - 1) as nat);
                assert(pow(b0, e0) == b0 * pow(b0, (e0 - 1) as nat));
                // fold the new acc reduction back under the mod
                lemma_mul_mod_noop_general(a0 * b0, pow(b0, (e0 - 1) as nat), m);
                assert((a0 * b0) % m == acc as int);
                assert(((a0 * b0) % m * pow(b0, (e0 - 1) as nat)) % m == ((a0 * b0) * pow(
                    b0,
                    (e0 - 1) as nat,
                )) % m);
                assert((a0 * b0) * pow(b0, (e0 - 1) as nat) == a0 * (b0 * pow(
                    b0,
                    (e0 - 1) as nat,
                ))) by (nonlinear_arith);
                assert((acc as int * pow(b0, (e0 - 1) as nat)) % m == (a0 * pow(b0, e0)) % m);
            }
        } else {
            proof {
                assert(e0 == 2 * (e0 / 2)) by (nonlinear_arith)
                    requires e0 % 2 == 0 && e0 > 0;
            }
        }
        let ghost a1 = acc as int;
        let ghost ehalf = (e0 / 2) as nat;
        proof {
            // after stripping the low bit: acc * pow(b0, 2*ehalf) is the target
            assert((a1 * pow(b0, (2 * ehalf) as nat)) % m == pow(base as int, exponent as nat)
                % m);
        }
        e = e / 2;
        if e > 0 {
            proof {
                lemma_mul_upper_bound(
                    b as int,
                    MAX_MODULUS as int - 1,
                    b as int,
                    MAX_MODULUS as int - 1,
                );
            }
            b = (b * b) % modulus;
            proof {
                lemma_pow_multiplies(b0, 2, ehalf);
                assert(pow(b0, 2) == b0 * b0) by {
                    lemma_pow1(b0);
                    lemma_pow_adds(b0, 1, 1);
                };
                lemma_pow_mod_noop(b0 * b0, ehalf, m);
                assert(pow(b as int, ehalf) % m == pow(b0 * b0, ehalf) % m);
                lemma_mul_mod_noop_general(a1, pow(b as int, ehalf), m);
                lemma_mul_mod_noop_general(a1, pow(b0 * b0, ehalf), m);
                assert((a1 * pow(b as int, ehalf)) % m == (a1 * pow(b0 * b0, ehalf)) % m);
            }
        }
    }
    proof {
        vstd::arithmetic::power::lemma_pow0(b as int);
        lemma_small_mod(acc as nat, modulus as nat);
    }
    acc
}

/// `d` divides `x` (both nonnegative, `d` positive).
pub open spec fn divides(d: int, x: int) -> bool {
    x % d == 0
}

/// `a` has an inverse modulo `p`.
pub open spec fn has_mod_inv(a: int, p: int) -> bool {
    exists|x: int| 0 <= x < p && #[trigger] ((x * a) % p) == 1
}

/// The canonical inverse of `a` modulo `p`, meaningful when `has_mod_inv`
/// holds.
pub open spec fn mod_inv(a: int, p: int) -> int {
    choose|x: int| 0 <= x < p && #[trigger] ((x * a) % p) == 1
}

/// Inverses modulo `p` are unique below `p`; pins `mod_inv` to any witness.
pub proof fn lemma_mod_inv_unique(a: int, p: int, x: int)
    requires
        1 <= p,
        0 <= x < p,
        (x * a) % p == 1,
    ensures
        has_mod_inv(a, p),
        mod_inv(a, p) == x,
{
    assert(has_mod_inv(a, p));
    let y = mod_inv(a, p);
    assert(0 <= y < p && (y * a) % p == 1);
    // y == y * (x*a mod p) == (y*a mod p) * x == x  (mod p)
    lemma_mul_mod_noop_general(y, x * a, p);
    assert((y * ((x * a) % p)) % p == (y * (x * a)) % p);
    lemma_small_mod(y as nat, p as nat);
    assert(y * 1 == y);
    assert((y * (x * a)) % p == y % p);
    assert(y * (x * a) == (y * a) * x) by (nonlinear_arith);
    lemma_mul_mod_noop_general(y * a, x, p);
    assert((((y * a) % p) * x) % p == ((y * a) * x) % p);
    assert((1 * x) % p == y % p);
    lemma_small_mod(x as nat, p as nat);
    lemma_small_mod(y as nat, p as nat);
}

/// If some `g >= 2` divides both `a` and `p`, nothing multiplies with `a` to
/// 1 modulo `p`.
proof fn lemma_common_divisor_no_inverse(a: int, p: int, g: int)
    requires
        1 <= p,
        0 <= a,
        2 <= g,
        divides(g, a),
        divides(g, p),
    ensures
        forall|x: int| 0 <= x < p ==> #[trigger] ((x * a) % p) != 1,
{
    assert forall|x: int| 0 <= x < p implies #[trigger] ((x * a) % p) != 1 by {
        if (x * a) % p == 1 {
            lemma_mul_nonnegative(x, a);
            lemma_fundamental_div_mod(x * a, p);
            let q = (x * a) / p;
            assert(x * a == p * q + 1);
            lemma_fundamental_div_mod(a, g);
            lemma_fundamental_div_mod(p, g);
            let a1 = a / g;
            let p1 = p / g;
            assert(a == g * a1);
            assert(p == g * p1);
            assert(x * (g * a1) == (g * p1) * q + 1);
            assert(x * (g * a1) == g * (x * a1)) by (nonlinear_arith);
            assert((g * p1) * q == g * (p1 * q)) by (nonlinear_arith);
            assert(g * (x * a1) - g * (p1 * q) == 1);
            assert(g * (x * a1 - p1 * q) == 1) by {
                lemma_mul_is_distributive_sub(g, x * a1, p1 * q);
            };
            let d = x * a1 - p1 * q;
            assert(g * d == 1);
            assert(false) by (nonlinear_arith)
                requires g >= 2 && g * d == 1;
        }
    }
}

/// Extended-Euclid step for the coefficient chain: from `s0*a ≡ r0` and
/// `s1*a ≡ r1 (mod p)` derive the congruence for `r0 - q*r1`.
proof fn lemma_euclid_coeff_step(a: int, p: int, s0: int, s1: int, r0: int, r1: int, q: int, t: int)
    requires
        1 <= p,
        0 <= a,
        0 <= s0 < p,
        0 <= s1 < p,
        0 <= r0,
        0 <= r1,
        0 <= q,
        (s0 * a) % p == r0 % p,
        (s1 * a) % p == r1 % p,
        t == (s1 * q) % p,
    ensures
        (((s0 + (p - t)) % p) * a) % p == (r0 - q * r1) % p,
{
    let s2 = (s0 + (p - t)) % p;
    lemma_mod_bound(s1 * q, p);
    lemma_mul_mod_noop_general(s0 + (p - t), a, p);
    assert((s2 * a) % p == ((s0 + (p - t)) * a) % p);
    assert((s0 + (p - t)) * a == s0 * a + (p - t) * a) by {
        lemma_mul_is_distributive_add(a, s0, p - t);
        lemma_mul_is_commutative(s0 + (p - t), a);
        lemma_mul_is_commutative(s0, a);
        lemma_mul_is_commutative(p - t, a);
    };
    // (p - t) * a ≡ -t*a ≡ -(s1*q)*a (mod p)
    assert(((s0 + (p - t)) * a) % p == (s0 * a + (p - t) * a) % p);
    // Work with the linear combination directly.
    assert((s0 * a + (p - t) * a) % p == (s0 * a - t * a + p * a) % p) by {
        assert((p - t) * a == p * a - t * a) by {
            lemma_mul_is_distributive_sub(a, p, t);
            lemma_mul_is_commutative(p - t, a);
            lemma_mul_is_commutative(p, a);
            lemma_mul_is_commutative(t, a);
        };
    };
    lemma_mod_multiple_vanish(s0 * a - t * a, a, p);
    assert((s0 * a - t * a + p * a) % p == (s0 * a - t * a) % p);
    // t*a ≡ s1*q*a (mod p), so s0*a - t*a ≡ s0*a - s1*q*a ≡ r0 - q*r1.
    assert((s0 * a - t * a) % p == (s0 * a - (s1 * q) * a) % p) by {
        lemma_sub_mod_noop_pair(s0 * a, t, (s1 * q), a, p);
    };
    assert(s0 * a - (s1 * q) * a == s0 * a - q * (s1 * a)) by (nonlinear_arith);
    assert((s0 * a - q * (s1 * a)) % p == (r0 - q * r1) % p) by {
        lemma_linear_combo_mod(s0 * a, r0, s1 * a, r1, q, p);
    };
}

/// Adding `k*p` leaves a residue unchanged.
pub proof fn lemma_mod_multiple_vanish(x: int, k: int, p: int)
    requires
        1 <= p,
    ensures
        (x + p * k) % p == x % p,
{
    vstd::arithmetic::div_mod::lemma_mod_multiples_vanish(k, x, p);
}

/// Replacing `t = (u % p)` by `u` inside a subtracted product keeps the
/// residue: `x - t*a ≡ x - u*a (mod p)`.
proof fn lemma_sub_mod_noop_pair(x: int, t: int, u: int, a: int, p: int)
    requires
        1 <= p,
        t == u % p,
    ensures
        (x - t * a) % p == (x - u * a) % p,
{
    lemma_fundamental_div_mod(u, p);
    let q = u / p;
    assert(u == p * q + t);
    assert(u * a == (p * q) * a + t * a) by {
        lemma_mul_is_distributive_add(a, p * q, t);
        lemma_mul_is_commutative(p * q + t, a);
        lemma_mul_is_commutative(p * q, a);
        lemma_mul_is_commutative(t, a);
    };
    assert(x - u * a == x - t * a - (p * q) * a);
    assert((p * q) * a == p * (q * a)) by (nonlinear_arith);
    lemma_mod_multiple_vanish(x - t * a, -(q * a), p);
    assert((x - t * a + p * (-(q * a))) % p == (x - t * a) % p);
    assert(x - t * a + p * (-(q * a)) == x - t * a - p * (q * a)) by (nonlinear_arith);
}

/// If `u ≡ r0` and `v ≡ r1 (mod p)` then `u - q*v ≡ r0 - q*r1 (mod p)`.
proof fn lemma_linear_combo_mod(u: int, r0: int, v: int, r1: int, q: int, p: int)
    requires
        1 <= p,
        u % p == r0 % p,
        v % p == r1 % p,
    ensures
        (u - q * v) % p == (r0 - q * r1) % p,
{
    lemma_fundamental_div_mod(u, p);
    lemma_fundamental_div_mod(r0, p);
    lemma_fundamental_div_mod(v, p);
    lemma_fundamental_div_mod(r1, p);
    let qu = u / p;
    let qr0 = r0 / p;
    let qv = v / p;
    let qr1 = r1 / p;
    assert(u - r0 == p * qu - p * qr0);
    assert(v - r1 == p * qv - p * qr1);
    assert(u - q * v - (r0 - q * r1) == (u - r0) - q * (v - r1)) by (nonlinear_arith);
    assert((u - r0) - q * (v - r1) == p * (qu - qr0 - q * (qv - qr1))) by (nonlinear_arith)
        requires u - r0 == p * qu - p * qr0 && v - r1 == p * qv - p * qr1;
    let k = qu - qr0 - q * (qv - qr1);
    assert(u - q * v == (r0 - q * r1) + p * k);
    lemma_mod_multiple_vanish(r0 - q * r1, k, p);
}

/// Modular inverse of `a` modulo `p` by the extended Euclidean algorithm.
///
/// Returns the unique `d` in `(0, p)` with `(d * a) % p == 1` exactly when
/// such a value exists; `a == 0`, or a common divisor of `a` and `p` above 1,
/// or `p == 1` leave no inverse and are reported as `NoInverse`.
pub fn invmod(a: u128, p: u128) -> (r: Result<u128, CoreError>)
    requires
        1 <= p <= MAX_MODULUS,
    ensures
        match r {
            Ok(d) => d < p && (d as int * a as int) % (p as int) == 1 && has_mod_inv(
                a as int,
                p as int,
            ) && d as int == mod_inv(a as int, p as int),
            Err(e) => e == CoreError::NoInverse && (forall|x: int|
                0 <= x < p ==> #[trigger] ((x * a as int) % (p as int)) != 1),
        },
{
    let ghost pp = p as int;
    let ghost aa = a as int;
    if p == 1 {
        proof {
            assert forall|x: int| 0 <= x < pp implies #[trigger] ((x * aa) % pp) != 1 by {
                lemma_mod_bound(x * aa, 1);
            }
        }
        return Err(CoreError::NoInverse);
    }
    let a0 = a % p;
    let ghost aa0 = a0 as int;
    // Euclid on (p, a % p), with s-coefficients tracked modulo p so that
    // s * a ≡ r (mod p) at every step.
    let mut r0: u128 = p;
    let mut r1: u128 = a0;
    let mut s0: u128 = 0;
    let mut s1: u128 = 1;
    proof {
        lemma_mod_bound(aa, pp);
        assert((0 * aa0) % pp == 0) by {
            lemma_small_mod(0, pp as nat);
        };
        assert(pp % pp == 0) by {
            vstd::arithmetic::div_mod::lemma_mod_self_0(pp);
        };
        assert((1 * aa0) % pp == aa0 % pp) by {
            lemma_small_mod(aa0 as nat, pp as nat);
        };
    }
    while r1 != 0
        invariant
            2 <= p <= MAX_MODULUS,
            pp == p as int,
            aa0 == a0 as int,
            a0 < p,
            1 <= r0,
            r1 < r0,
            r0 <= p,
            s0 < p,
            s1 < p,
            (s0 as int * aa0) % pp == r0 as int % pp,
            (s1 as int * aa0) % pp == r1 as int % pp,
            forall|d: int|
                1 <= d && divides(d, r0 as int) && divides(d, r1 as int) ==> #[trigger] divides(
                    d,
                    pp,
                ) && divides(d, aa0),
        decreases r1,
    {
        let q = r0 / r1;
        let r2 = r0 % r1;
        proof {
            lemma_mod_bound(q as int, pp);
            lemma_mul_upper_bound(
                s1 as int,
                MAX_MODULUS as int - 1,
                (q as int) % pp,
                MAX_MODULUS as int - 1,
            );
        }
        let t = (s1 * (q % p)) % p;
        let s2 = (s0 + (p - t)) % p;
        proof {
            let qq = q as int;
            lemma_mod_bound(s1 as int * (qq % pp), pp);
            // t == (s1 * q) % p even though q was reduced first
            lemma_mul_mod_noop_general(qq, s1 as int, pp);
            assert((s1 as int * (qq % pp)) % pp == (s1 as int * qq) % pp) by {
                lemma_mul_is_commutative(s1 as int, qq % pp);
                lemma_mul_is_commutative(s1 as int, qq);
                lemma_mul_mod_noop_general(s1 as int, qq, pp);
            };
            lemma_euclid_coeff_step(
                aa0,
                pp,
                s0 as int,
                s1 as int,
                r0 as int,
                r1 as int,
                qq,
                t as int,
            );
            lemma_fundamental_div_mod(r0 as int, r1 as int);
            assert(r2 as int == r0 as int - qq * r1 as int);
            // divisor preservation: d | r1 and d | r2 imply d | r0
            assert forall|d: int|
                1 <= d && divides(d, r1 as int) && divides(d, r2 as int) implies #[trigger] divides(
                d,
                pp,
            ) && divides(d, aa0) by {
                assert(r0 as int == r1 as int * qq + r2 as int);
                lemma_fundamental_div_mod(r1 as int, d);
                lemma_fundamental_div_mod(r2 as int, d);
                let k1 = r1 as int / d;
                let k2 = r2 as int / d;
                assert(r0 as int == (d * k1) * qq + d * k2);
                assert((d * k1) * qq + d * k2 == d * (k1 * qq + k2)) by (nonlinear_arith);
                lemma_mod_multiple_vanish(0, k1 * qq + k2, d);
                assert((0 + d * (k1 * qq + k2)) % d == 0int % d);
                lemma_small_mod(0, d as nat);
                assert(divides(d, r0 as int));
            }
        }
        r0 = r1;
        r1 = r2;
        s0 = s1;
        s1 = s2;
    }
    // r0 is now a common divisor of p and a0 satisfying s0 * a0 ≡ r0 (mod p).
    if r0 == 1 {
        proof {
            assert((s0 as int * aa0) % pp == 1) by {
                lemma_small_mod(1, pp as nat);
            };
            lemma_mul_mod_noop_general(s0 as int, aa, pp);
            lemma_mul_mod_noop_general(s0 as int, aa0, pp);
            assert((s0 as int * (aa % pp)) % pp == (s0 as int * aa) % pp);
            lemma_mod_inv_unique(aa, pp, s0 as int);
        }
        if s0 == 0 {
            // unreachable: 0 * a ≡ 0 ≠ 1; kept so the exec path is total
            proof {
                assert((0 * aa0) % pp == 0) by {
                    lemma_small_mod(0, pp as nat);
                };
            }
            return Err(CoreError::NoInverse);
        }
        Ok(s0)
    } else {
        proof {
            let g = r0 as int;
            assert(divides(g, r0 as int)) by {
                vstd::arithmetic::div_mod::lemma_mod_self_0(g);
            };
            assert(divides(g, r1 as int)) by {
                lemma_small_mod(0, g as nat);
            };
            assert(divides(g, pp) && divides(g, aa0));
            lemma_common_divisor_no_inverse(aa0, pp, g);
            // transfer from a % p back to a
            assert forall|x: int| 0 <= x < pp implies #[trigger] ((x * aa) % pp) != 1 by {
                lemma_mul_mod_noop_general(x, aa, pp);
                lemma_mul_mod_noop_general(x, aa0, pp);
                assert((x * aa) % pp == (x * aa0) % pp);
            }
        }
        Err(CoreError::NoInverse)
    }
}

/// Modular inverse with the search-style interface of the verifier side:
/// the canonical inverse of `x` modulo `modulus`, or 0 when none exists.
pub fn find_mod_inverse(x: u128, modulus: u128) -> (r: u128)
    requires
        1 <= modulus <= MAX_MODULUS,
    ensures
        has_mod_inv(x as int, modulus as int) ==> 0 < r < modulus && (r as int * x as int) % (
        modulus as int) == 1,
        !has_mod_inv(x as int, modulus as int) ==> r == 0,
{
    match invmod(x, modulus) {
        Ok(d) => {
            proof {
                if d == 0 {
                    lemma_small_mod(0, modulus as nat);
                    assert((0 * x as int) % (modulus as int) == 0);
                }
            }
            d
        },
        Err(_) => 0,
    }
}

/// Reducing the left summand first does not change a sum's residue.
pub proof fn lemma_mod_addl(x: int, y: int, m: int)
    requires
        1 <= m,
    ensures
        ((x % m) + y) % m == (x + y) % m,
{
    lemma_fundamental_div_mod(x, m);
    let q = x / m;
    assert(x % m + y == (x + y) + m * (-q)) by (nonlinear_arith)
        requires x == m * q + x % m;
    lemma_mod_multiple_vanish(x + y, -q, m);
}

/// Reducing the minuend first does not change a difference's residue.
pub proof fn lemma_mod_subl(x: int, y: int, m: int)
    requires
        1 <= m,
    ensures
        ((x % m) - y) % m == (x - y) % m,
{
    lemma_fundamental_div_mod(x, m);
    let q = x / m;
    assert(x % m - y == (x - y) + m * (-q)) by (nonlinear_arith)
        requires x == m * q + x % m;
    lemma_mod_multiple_vanish(x - y, -q, m);
}

/// Three residues add under one final reduction.
pub proof fn lemma_mod_add3(x: int, y: int, z: int, m: int)
    requires
        1 <= m,
    ensures
        ((x % m) + (y % m) + (z % m)) % m == (x + y + z) % m,
{
    lemma_mod_addl(x, (y % m) + (z % m), m);
    lemma_mod_addl(y, z % m, m);
    assert((x + ((y % m) + (z % m))) % m == (x + (y + (z % m))) % m) by {
        lemma_mod_addl(y, z % m, m);
        lemma_mod_plus_congruent(x, (y % m) + (z % m), y + (z % m), m);
    };
    assert((x + (y + (z % m))) % m == (x + (y + z)) % m) by {
        lemma_mod_addl(z, 0, m);
        lemma_mod_twice(z, m);
        lemma_mod_plus_congruent(x + y, z % m, z, m);
    };
}

/// Congruent summands give congruent sums.
proof fn lemma_mod_plus_congruent(x: int, a: int, b: int, m: int)
    requires
        1 <= m,
        a % m == b % m,
    ensures
        (x + a) % m == (x + b) % m,
{
    lemma_fundamental_div_mod(a, m);
    lemma_fundamental_div_mod(b, m);
    let qa = a / m;
    let qb = b / m;
    assert(x + a == (x + b) + m * (qa - qb)) by (nonlinear_arith)
        requires a == m * qa + a % m && b == m * qb + b % m && a % m == b % m;
    lemma_mod_multiple_vanish(x + b, qa - qb, m);
}

/// A comparison against `u128::MAX / b` decides exactly whether a product
/// fits in a `u128`.
pub proof fn lemma_mul_overflow_check(a: int, b: int)
    requires
        0 <= a,
        1 <= b,
    ensures
        a <= u128::MAX as int / b <==> a * b <= u128::MAX as int,
{
    let m = u128::MAX as int;
    lemma_fundamental_div_mod(m, b);
    if a <= m / b {
        lemma_mul_inequality(a, m / b, b);
        assert((m / b) * b <= m) by (nonlinear_arith)
            requires m == b * (m / b) + m % b && 0 <= m % b;
    }
    if a * b <= m {
        assert(a == (a * b) / b) by {
            vstd::arithmetic::div_mod::lemma_div_multiples_vanish(a, b);
            assert(b * a == a * b) by (nonlinear_arith);
        };
        vstd::arithmetic::div_mod::lemma_div_is_ordered(a * b, m, b);
    }
}

/// Euclid's greatest common divisor, as a specification.
pub open spec fn gcd_nat(a: nat, b: nat) -> nat
    decreases b,
{
    if b == 0 {
        a
    } else {
        gcd_nat(b, a % b)
    }
}

/// Least common multiple of two positive naturals, as a specification.
pub open spec fn lcm_nat(a: nat, b: nat) -> nat {
    ((a * b) as nat / gcd_nat(a, b)) as nat
}

/// Relies on `num_integer::gcd`: Stein's algorithm computes the greatest
/// common divisor, the same function as the Euclidean recursion `gcd_nat`.
#[verifier::external_body]
pub fn gcd_u128(a: u128, b: u128) -> (r: u128)
    ensures
        r as nat == gcd_nat(a as nat, b as nat),
{
    num_integer::gcd(a, b)
}

/// Relies on `num_integer::lcm`: for positive `a`, `b` it returns
/// `a * (b / gcd(a, b))`, which equals `a * b / gcd(a, b)` because the
/// divisor divides `b`; positive since both factors are.
#[verifier::external_body]
pub fn lcm_u128(a: u128, b: u128) -> (r: u128)
    requires
        1 <= a,
        1 <= b,
        a * b <= u128::MAX,
    ensures
        r as nat == lcm_nat(a as nat, b as nat),
        1 <= r,
        r as int <= a as int * b as int,
{
    num_integer::lcm(a, b)
}

} // verus!
