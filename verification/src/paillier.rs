//! The Paillier additively-homomorphic cryptosystem over fixed-width
//! integers.
//!
//! A key pair is a modulus pair `(p, q)` with public modulus `n = p*q`;
//! ciphertexts are residues modulo `n^2`.  Encryption, the homomorphic
//! rescale-and-mask operation, and decryption follow the textbook formulas
//! exactly, and each executable function's contract states the formula it
//! computes over mathematical exponentiation.

use vstd::prelude::*;

verus! {

use vstd::arithmetic::div_mod::{
    lemma_mod_bound, lemma_mul_mod_noop_general, lemma_small_mod,
};
use vstd::arithmetic::mul::{lemma_mul_inequality, lemma_mul_upper_bound};
use vstd::arithmetic::power::{
    lemma_pow0, lemma_pow_adds, lemma_pow_distributes, lemma_pow_mod_noop, lemma_pow_multiplies,
    pow,
};

use crate::arith::{
    gcd_nat, gcd_u128, has_mod_inv, invmod, lcm_nat, lcm_u128, mod_inv, pow_and_mod, pow_mod,
    MAX_MODULUS,
};
use crate::CoreError;

/// The largest Paillier public modulus accepted: with `n` at most 2^32 the
/// working modulus `n^2` stays within what `pow_and_mod` accepts.
pub const MAX_PAILLIER_N: u128 = 0x1_0000_0000;

/// A fresh Paillier encryption: `(n+1)^message * r^n mod n^2`.
pub open spec fn paillier_enc(n: nat, r: nat, m: nat) -> int {
    (pow(n as int + 1, m) * pow(r as int, n)) % ((n * n) as int)
}

/// The homomorphic rescale-and-mask of a ciphertext: the ciphertext is
/// raised to `mu` (scaling the plaintext), then masked with a fresh
/// encryption of `ad` under randomizer `r2`.
pub open spec fn paillier_mut_add(n: nat, c: nat, mu: nat, ad: nat, r2: nat) -> int {
    (pow(c as int, mu) * pow(n as int + 1, ad) * pow(r2 as int, n)) % ((n * n) as int)
}

/// The additive-mask half alone: `c * (n+1)^ad * r2^n mod n^2`.
pub open spec fn paillier_add(n: nat, c: nat, ad: nat, r2: nat) -> int {
    (c * pow(n as int + 1, ad) * pow(r2 as int, n)) % ((n * n) as int)
}

/// The Carmichael-style exponent the decryption uses.
pub open spec fn paillier_lambda(p: nat, q: nat) -> nat {
    lcm_nat((p - 1) as nat, (q - 1) as nat)
}

/// Paillier's `L` function: `(x - 1) / n` on residues `x ≡ 1 (mod n)`.
pub open spec fn paillier_l(x: int, n: nat) -> int {
    (x - 1) / (n as int)
}

/// `(n+1)^lambda mod n^2`, the key-dependent constant of decryption.
pub open spec fn paillier_gs(p: nat, q: nat) -> int {
    pow((p * q + 1) as int, paillier_lambda(p, q)) % (((p * q) * (p * q)) as int)
}

/// `cipher^lambda mod n^2`.
pub open spec fn paillier_cs(p: nat, q: nat, c: nat) -> int {
    pow(c as int, paillier_lambda(p, q)) % (((p * q) * (p * q)) as int)
}

/// The decrypted plaintext:
/// `L(cipher^lambda) * L((n+1)^lambda)^(-1) mod n`.
pub open spec fn paillier_dec(p: nat, q: nat, c: nat) -> int {
    let n = (p * q) as int;
    (paillier_l(paillier_cs(p, q, c), p * q) * mod_inv(
        paillier_l(paillier_gs(p, q), p * q),
        n,
    )) % n
}

/// The key invariant of the cryptosystem: the public modulus must be
/// coprime to `(p-1)*(q-1)`, else decryption has no inverse to apply.  A
/// modulus pair violating this must be rejected before use.
pub fn paillier_key_valid(p: u128, q: u128) -> (r: bool)
    requires
        2 <= p,
        2 <= q,
        p * q <= MAX_PAILLIER_N,
    ensures
        r == (gcd_nat((p * q) as nat, ((p - 1) * (q - 1)) as nat) == 1),
{
    proof {
        lemma_mul_upper_bound(p as int - 1, p as int, q as int - 1, q as int);
        lemma_mul_inequality(1, p as int - 1, q as int - 1);
    }
    let n = p * q;
    let phi = (p - 1) * (q - 1);
    gcd_u128(n, phi) == 1
}

/// The key-only failure of decryption: the decryption constant is zero or
/// has no inverse modulo the public modulus.  A function of the modulus pair
/// alone, independent of any ciphertext or randomness.
pub open spec fn paillier_key_broken(p: nat, q: nat) -> bool {
    paillier_gs(p, q) == 0 || !has_mod_inv(
        paillier_l(paillier_gs(p, q), p * q),
        (p * q) as int,
    )
}

/// Whether decryption under `(p, q)` accepts the ciphertext `c`: the key
/// constant is nonzero and invertible, and the ciphertext power is nonzero.
pub open spec fn paillier_dec_ok(p: nat, q: nat, c: nat) -> bool {
    paillier_gs(p, q) >= 1 && has_mod_inv(
        paillier_l(paillier_gs(p, q), p * q),
        (p * q) as int,
    ) && paillier_cs(p, q, c) >= 1
}

/// One party's encryption request: public modulus, randomizer, plaintext.
pub struct Encrypt {
    pub mta_pub_n: u128,
    pub rand: u128,
    pub message: u128,
}

impl Encrypt {
    /// Encrypts `message` under `mta_pub_n` with randomizer `rand`:
    /// `(n+1)^message * rand^n mod n^2`.  A randomizer outside `(0, n)` or a
    /// plaintext not below `n` is rejected before any arithmetic.
    pub fn encrypt(self) -> (r: Result<u128, CoreError>)
        requires
            self.mta_pub_n <= MAX_PAILLIER_N,
        ensures
            match r {
                Ok(c) => 0 < self.rand < self.mta_pub_n && self.message < self.mta_pub_n && c
                    as int == paillier_enc(
                    self.mta_pub_n as nat,
                    self.rand as nat,
                    self.message as nat,
                ) && c < self.mta_pub_n * self.mta_pub_n,
                Err(e) => (self.rand == 0 || self.rand >= self.mta_pub_n || self.message
                    >= self.mta_pub_n) && e == (if self.rand == 0 || self.rand >= self.mta_pub_n {
                    CoreError::RandomizerOutOfRange
                } else {
                    CoreError::MessageOutOfRange
                }),
            },
    {
        let n = self.mta_pub_n;
        if self.rand == 0 || self.rand >= n {
            return Err(CoreError::RandomizerOutOfRange);
        }
        if self.message >= n {
            return Err(CoreError::MessageOutOfRange);
        }
        proof {
            lemma_n2_bounds(n as int);
        }
        let n2 = n * n;
        let x = pow_and_mod(self.rand, n, n2);
        let y = pow_and_mod(n + 1, self.message, n2);
        proof {
            lemma_value_bounds(y as int, x as int, n2 as int);
        }
        let c = (y * x) % n2;
        proof {
            let nn = n as int;
            let m2 = n2 as int;
            let a = pow(nn + 1, self.message as nat);
            let b = pow(self.rand as int, n as nat);
            if self.message == 0 {
                lemma_pow0(nn + 1);
                lemma_mod_bound(b, m2);
                lemma_small_mod(x as nat, n2 as nat);
                lemma_mul_mod_noop_general(a, b, m2);
            } else {
                lemma_mul_mod_noop_general(a, b, m2);
            }
        }
        Ok(c)
    }
}

/// The mask-and-rescale request of the MtA responder: the received
/// ciphertext, the multiplicative share `mut_num`, the additive mask
/// `add_num`, and a fresh randomizer.
pub struct EncryptAddMut {
    pub mta_pub_n: u128,
    pub cipher: u128,
    pub add_num: u128,
    pub mut_num: u128,
    pub rand: u128,
}

impl EncryptAddMut {
    /// Scalar multiplication alone: `cipher^mut_num mod n^2`.
    pub fn encrypt_mut(&self) -> (r: u128)
        requires
            2 <= self.mta_pub_n <= MAX_PAILLIER_N,
        ensures
            r as int == pow_mod(
                self.cipher as nat,
                self.mut_num as nat,
                (self.mta_pub_n * self.mta_pub_n) as nat,
            ),
    {
        let n = self.mta_pub_n;
        proof {
            lemma_n2_bounds(n as int);
        }
        let n2 = n * n;
        pow_and_mod(self.cipher, self.mut_num, n2)
    }

    /// Additive mask alone: `(n+1)^add_num * rand^n * cipher mod n^2`.
    pub fn encrypt_add(&self) -> (r: u128)
        requires
            2 <= self.mta_pub_n <= MAX_PAILLIER_N,
        ensures
            r as int == paillier_add(
                self.mta_pub_n as nat,
                self.cipher as nat,
                self.add_num as nat,
                self.rand as nat,
            ),
    {
        let n = self.mta_pub_n;
        proof {
            lemma_n2_bounds(n as int);
        }
        let n2 = n * n;
        let value1 = pow_and_mod(n + 1, self.add_num, n2);
        let value2 = pow_and_mod(self.rand, n, n2);
        proof {
            lemma_value_bounds(value1 as int, value2 as int, n2 as int);
        }
        let add_value = (value1 * value2) % n2;
        proof {
            lemma_value_bounds(add_value as int, (self.cipher % n2) as int, n2 as int);
        }
        let c = (add_value * (self.cipher % n2)) % n2;
        proof {
            let m2 = n2 as int;
            let a = pow(n as int + 1, self.add_num as nat);
            let b = pow(self.rand as int, n as nat);
            let cc = self.cipher as int;
            lemma_value_bounds(value1 as int, value2 as int, m2);
            if self.add_num == 0 {
                lemma_pow0(n as int + 1);
                lemma_mod_bound(b, m2);
                lemma_small_mod(value2 as nat, n2 as nat);
            }
            lemma_mul_mod_noop_general(a, b, m2);
            assert(add_value as int == (a * b) % m2);
            lemma_mul_mod_noop_general(a * b, cc, m2);
            assert((add_value as int * (cc % m2)) % m2 == ((a * b) * cc) % m2) by {
                lemma_mul_mod_noop_general(add_value as int, cc, m2);
                lemma_mul_mod_noop_general((a * b) % m2, cc, m2);
            };
            assert((a * b) * cc == cc * a * b) by (nonlinear_arith);
        }
        c
    }

    /// The combined operation: scalar-multiply first, then mask, exactly
    /// `cipher^mut_num * (n+1)^add_num * rand^n mod n^2`.
    pub fn mut_and_add(&self) -> (r: u128)
        requires
            2 <= self.mta_pub_n <= MAX_PAILLIER_N,
        ensures
            r as int == paillier_mut_add(
                self.mta_pub_n as nat,
                self.cipher as nat,
                self.mut_num as nat,
                self.add_num as nat,
                self.rand as nat,
            ),
    {
        let n = self.mta_pub_n;
        proof {
            lemma_n2_bounds(n as int);
        }
        let n2 = n * n;
        let cipher1 = pow_and_mod(self.cipher, self.mut_num, n2);
        let value1 = pow_and_mod(n + 1, self.add_num, n2);
        let value2 = pow_and_mod(self.rand, n, n2);
        proof {
            lemma_value_bounds(value1 as int, value2 as int, n2 as int);
        }
        let add_value = (value1 * value2) % n2;
        proof {
            lemma_value_bounds(add_value as int, cipher1 as int, n2 as int);
        }
        let c = (add_value * cipher1) % n2;
        proof {
            let m2 = n2 as int;
            let a = pow(self.cipher as int, self.mut_num as nat);
            let b = pow(n as int + 1, self.add_num as nat);
            let d = pow(self.rand as int, n as nat);
            lemma_value_bounds(value1 as int, value2 as int, m2);
            lemma_value_bounds(add_value as int, cipher1 as int, m2);
            if self.mut_num == 0 {
                lemma_pow0(self.cipher as int);
                lemma_small_mod(1, n2 as nat);
            }
            if self.add_num == 0 {
                lemma_pow0(n as int + 1);
                lemma_mod_bound(d, m2);
                lemma_small_mod(value2 as nat, n2 as nat);
            }
            assert(cipher1 as int == a % m2);
            lemma_mul_mod_noop_general(b, d, m2);
            assert(add_value as int == (b * d) % m2);
            assert((add_value as int * cipher1 as int) % m2 == ((b * d) * a) % m2) by {
                lemma_mul_mod_noop_general((b * d) % m2, a % m2, m2);
                lemma_mul_mod_noop_general(b * d, a, m2);
            };
            assert((b * d) * a == a * b * d) by (nonlinear_arith);
        }
        c
    }
}

/// Bounds of the working modulus `n^2` for an accepted public modulus.
proof fn lemma_n2_bounds(n: int)
    requires
        2 <= n <= MAX_PAILLIER_N,
    ensures
        4 <= n * n <= MAX_MODULUS,
{
    assert(4 <= n * n && n * n <= 0x1_0000_0000_0000_0000) by (nonlinear_arith)
        requires 2 <= n <= 0x1_0000_0000;
}

/// Two values below an accepted public modulus multiply within `u128`.
proof fn lemma_small_product_fits(a: int, b: int, n: int)
    requires
        2 <= n <= MAX_PAILLIER_N,
        0 <= a < n,
        0 <= b < n,
    ensures
        a * b <= u128::MAX,
{
    assert(a * b < 0x1_0000_0000_0000_0000) by (nonlinear_arith)
        requires 0 <= a < n && 0 <= b < n && n <= 0x1_0000_0000;
}

/// Two reduced-or-one residues modulo `m2` multiply without overflowing the
/// accumulator width, given `m2` within the exponentiation cap.
proof fn lemma_value_bounds(v1: int, v2: int, m2: int)
    requires
        2 <= m2 <= MAX_MODULUS,
        0 <= v1,
        0 <= v2,
        v1 < m2 || v1 == 1,
        v2 < m2 || v2 == 1,
    ensures
        v1 * v2 <= u128::MAX,
        v1 < m2,
        v2 < m2,
{
    assert(v1 * v2 < 0x1_0000_0000_0000_0000_0000_0000_0000_0000) by (nonlinear_arith)
        requires 0 <= v1 < 0x1_0000_0000_0000_0000 && 0 <= v2 < 0x1_0000_0000_0000_0000;
}

/// A party's private modulus pair and a ciphertext to open.
pub struct Decrypt {
    pub pri_p: u128,
    pub pri_q: u128,
    pub cipher: u128,
}

impl Decrypt {
    /// Paillier decryption: with `n = p*q` and `lambda = lcm(p-1, q-1)`,
    /// returns `L(cipher^lambda mod n^2) * L((n+1)^lambda mod n^2)^(-1) mod n`
    /// where `L(x) = (x-1)/n`.  A key whose `L((n+1)^lambda)` has no inverse
    /// modulo `n` is rejected as invalid; a ciphertext with
    /// `cipher^lambda ≡ 0` is rejected as malformed.
    pub fn decrypt(self) -> (r: Result<u128, CoreError>)
        requires
            2 <= self.pri_p,
            2 <= self.pri_q,
            self.pri_p * self.pri_q <= MAX_PAILLIER_N,
        ensures
            ({
                let p = self.pri_p as nat;
                let q = self.pri_q as nat;
                let n = p * q;
                let gs = paillier_gs(p, q);
                let cs = paillier_cs(p, q, self.cipher as nat);
                match r {
                    Ok(m) => gs >= 1 && cs >= 1 && has_mod_inv(paillier_l(gs, n), n as int) && m
                        as int == paillier_dec(p, q, self.cipher as nat) && m < n,
                    Err(e) => (e == CoreError::InvalidKey <==> (gs == 0 || !has_mod_inv(
                        paillier_l(gs, n),
                        n as int,
                    ))) && (e == CoreError::MalformedCiphertext <==> (gs >= 1 && has_mod_inv(
                        paillier_l(gs, n),
                        n as int,
                    ) && cs == 0)) && (e == CoreError::InvalidKey || e
                        == CoreError::MalformedCiphertext),
                }
            }),
    {
        let p = self.pri_p;
        let q = self.pri_q;
        let n = p * q;
        proof {
            assert(4 <= p as int * q as int) by (nonlinear_arith)
                requires 2 <= p && 2 <= q;
            lemma_n2_bounds(n as int);
            lemma_mul_upper_bound(p as int - 1, p as int, q as int - 1, q as int);
            lemma_mul_inequality(1, p as int - 1, q as int - 1);
        }
        let n2 = n * n;
        let lam = lcm_u128(p - 1, q - 1);
        let gs = pow_and_mod(n + 1, lam, n2);
        if gs == 0 {
            return Err(CoreError::InvalidKey);
        }
        let l = (gs - 1) / n;
        proof {
            lemma_l_below_n(gs as int, n as int);
        }
        let u = match invmod(l, n) {
            Ok(u) => u,
            Err(_) => {
                return Err(CoreError::InvalidKey);
            },
        };
        let cs = pow_and_mod(self.cipher, lam, n2);
        if cs == 0 {
            return Err(CoreError::MalformedCiphertext);
        }
        let cl = (cs - 1) / n;
        proof {
            lemma_l_below_n(cs as int, n as int);
            lemma_small_product_fits(cl as int, u as int, n as int);
            lemma_mod_bound(cl as int * u as int, n as int);
        }
        let m = (cl * u) % n;
        Ok(m)
    }
}

/// `L(x) = (x-1)/n` stays below `n` for residues `x` below `n^2`.
proof fn lemma_l_below_n(x: int, n: int)
    requires
        2 <= n,
        1 <= x < n * n,
    ensures
        0 <= (x - 1) / n < n,
{
    vstd::arithmetic::div_mod::lemma_div_pos_is_pos(x - 1, n);
    vstd::arithmetic::div_mod::lemma_multiply_divide_lt(x - 1, n, n);
}

/// The binomial identity behind decryption: `(n+1)^m ≡ 1 + m*n (mod n^2)`,
/// so the `L` function recovers a multiple of the plaintext from a
/// deterministic encryption.
pub proof fn lemma_enc_binomial(n: nat, m: nat)
    requires
        1 <= n,
    ensures
        pow(n as int + 1, m) % ((n * n) as int) == (1 + m * n) as int % ((n * n) as int),
    decreases m,
{
    let m2 = (n * n) as int;
    assert(1 <= n * n) by (nonlinear_arith)
        requires 1 <= n;
    let g = n as int + 1;
    if m == 0 {
        lemma_pow0(g);
    } else {
        lemma_enc_binomial(n, (m - 1) as nat);
        vstd::arithmetic::power::lemma_pow1(g);
        lemma_pow_adds(g, 1, (m - 1) as nat);
        assert(pow(g, m) == g * pow(g, (m - 1) as nat));
        assert((g * pow(g, (m - 1) as nat)) % m2 == (g * (1 + (m - 1) * (n as int))) % m2) by {
            lemma_mul_mod_noop_general(g, pow(g, (m - 1) as nat), m2);
            lemma_mul_mod_noop_general(g, 1 + (m - 1) * (n as int), m2);
        };
        assert(g * (1 + (m - 1) * (n as int)) == (1 + m * n) as int + m2 * (m as int - 1))
            by (nonlinear_arith)
            requires g == n as int + 1 && m2 == (n * n) as int && m >= 1;
        vstd::arithmetic::div_mod::lemma_mod_multiples_vanish(
            m as int - 1,
            (1 + m * n) as int,
            m2,
        );
    }
}

/// Rescale-and-mask is homomorphic at the ciphertext level: applied to a
/// fresh encryption of `m`, it yields exactly the encryption of
/// `m*mu + ad` under the combined randomizer `r^mu * r2`.  Decrypting the
/// result therefore recovers `(m*mu + ad) mod n` wherever decryption inverts
/// encryption.
pub proof fn lemma_mut_add_homomorphism(n: nat, r: nat, m: nat, mu: nat, ad: nat, r2: nat)
    requires
        1 <= n,
    ensures
        paillier_mut_add(n, paillier_enc(n, r, m) as nat, mu, ad, r2) == (pow(
            n as int + 1,
            (m * mu + ad) as nat,
        ) * pow(pow(r as int, mu) * r2, n)) % ((n * n) as int),
{
    let m2 = (n * n) as int;
    let g = n as int + 1;
    let e = paillier_enc(n, r, m);
    let a = pow(g, m);
    let b = pow(r as int, n);
    assert(1 <= n * n) by (nonlinear_arith)
        requires 1 <= n;
    lemma_mod_bound(a * b, m2);
    assert(e == (a * b) % m2);
    assert(e as nat as int == e);
    // pow(e, mu) ≡ pow(a*b, mu)  (mod m2)
    lemma_pow_mod_noop(a * b, mu, m2);
    assert(pow(e, mu) % m2 == pow(a * b, mu) % m2);
    // pow(a*b, mu) == pow(a, mu) * pow(b, mu)
    lemma_pow_distributes(a, b, mu);
    // pow(a, mu) == pow(g, m*mu)
    lemma_pow_multiplies(g, m, mu);
    // pow(b, mu) == pow(r, n*mu) == pow(pow(r, mu), n)
    lemma_pow_multiplies(r as int, n, mu);
    lemma_pow_multiplies(r as int, mu, n);
    assert(n * mu == mu * n) by (nonlinear_arith);
    assert(pow(b, mu) == pow(pow(r as int, mu), n));
    // assemble: paillier_mut_add(n, e, mu, ad, r2)
    //   == (pow(e, mu) * pow(g, ad) * pow(r2, n)) % m2
    let pe = pow(e, mu);
    let pab = pow(a * b, mu);
    let pad = pow(g, ad);
    let pr2 = pow(r2 as int, n);
    assert(paillier_mut_add(n, e as nat, mu, ad, r2) == (pe * pad * pr2) % m2);
    assert((pe * pad * pr2) % m2 == (pab * pad * pr2) % m2) by {
        assert(pe * pad * pr2 == pe * (pad * pr2)) by (nonlinear_arith);
        assert(pab * pad * pr2 == pab * (pad * pr2)) by (nonlinear_arith);
        lemma_mul_mod_noop_general(pe, pad * pr2, m2);
        lemma_mul_mod_noop_general(pab, pad * pr2, m2);
    };
    // pab * pad == pow(g, m*mu) * pow(g, ad) * pow(pow(r,mu), n)
    lemma_pow_adds(g, m * mu, ad);
    assert(pow(g, (m * mu + ad) as nat) == pow(g, m * mu) * pad);
    // pow(pow(r,mu), n) * pow(r2, n) == pow(pow(r,mu)*r2, n)
    lemma_pow_distributes(pow(r as int, mu), r2 as int, n);
    assert(pab * pad * pr2 == pow(g, (m * mu + ad) as nat) * pow(pow(r as int, mu) * r2, n)) by {
        assert(pab == pow(g, m * mu) * pow(pow(r as int, mu), n));
        assert((pow(g, m * mu) * pow(pow(r as int, mu), n)) * pad * pr2 == (pow(g, m * mu) * pad)
            * (pow(pow(r as int, mu), n) * pr2)) by (nonlinear_arith);
    };
}

} // verus!
